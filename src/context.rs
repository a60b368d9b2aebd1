//! The registry of named sources and the expansion engine.
use vstd::prelude::*;

use crate::error::{Error, ErrorView};
use crate::expand::{
    ends_line, expand_text, expansion, lemma_plain_text_unchanged, lemma_push_valid, prefix_with,
    resume_at, valid_stack, walk, Progress, Registry,
};
use crate::lines::{emit_segment, segment_lines};
use crate::scan::{
    advance_line, directives_in, directives_of, lemma_line_end, lemma_scan_facts, views_of, Directive,
};
use crate::source_map::{copy_name, join_lines, map_entries, OutLine, Output, SourceMap};
use crate::text::{chars_of, copy_string, copy_strings, holds_string, line_at, newlines};

verus! {

/// A registered source.
struct Entry {
    name: String,
    content: String,
}

/// The registry that `entries` describe: for each name, the content of its last entry.
spec fn entries_map(entries: Seq<Entry>) -> Registry
    decreases entries.len(),
{
    if entries.len() == 0 {
        Map::empty()
    } else {
        entries_map(entries.drop_last()).insert(entries.last().name@, entries.last().content@)
    }
}

spec fn names_unique(entries: Seq<Entry>) -> bool {
    forall|i: int, j: int|
        0 <= i < j < entries.len() ==> #[trigger] entries[i].name@ != #[trigger] entries[j].name@
}

proof fn lemma_entries_map(entries: Seq<Entry>)
    ensures
        entries_map(entries).dom().finite(),
        forall|key: Seq<char>|
            #[trigger] entries_map(entries).dom().contains(key) <==> exists|i: int|
                0 <= i < entries.len() && entries[i].name@ == key,
        names_unique(entries) ==> forall|i: int|
            0 <= i < entries.len() ==> #[trigger] entries_map(entries)[entries[i].name@]
                == entries[i].content@,
    decreases entries.len(),
{
    if entries.len() > 0 {
        let rest = entries.drop_last();
        lemma_entries_map(rest);
        assert forall|key: Seq<char>|
            #[trigger] entries_map(entries).dom().contains(key) <==> exists|i: int|
                0 <= i < entries.len() && entries[i].name@ == key by {
            if entries_map(entries).dom().contains(key) && key != entries.last().name@ {
                let i = choose|i: int| 0 <= i < rest.len() && rest[i].name@ == key;
                assert(entries[i] == rest[i]);
            }
            if exists|i: int| 0 <= i < entries.len() && entries[i].name@ == key {
                let i = choose|i: int| 0 <= i < entries.len() && entries[i].name@ == key;
                if i < rest.len() {
                    assert(rest[i] == entries[i]);
                }
            }
        }
        if names_unique(entries) {
            assert forall|i: int| 0 <= i < entries.len() implies #[trigger] entries_map(
                entries,
            )[entries[i].name@] == entries[i].content@ by {
                if i < rest.len() {
                    assert(rest[i] == entries[i]);
                    assert(entries[i].name@ != entries[entries.len() - 1].name@);
                }
            }
        }
    }
}

/// A set of named sources that directives can refer to.
pub struct Context {
    files: Vec<Entry>,
}

impl Context {
    /// The registered names with their contents.
    pub closed spec fn registry(&self) -> Registry {
        entries_map(self.files@)
    }

    pub closed spec fn wf(&self) -> bool {
        names_unique(self.files@)
    }

    /// A well-formed context has finitely many names registered.
    pub proof fn lemma_registry_finite(&self)
        requires
            self.wf(),
        ensures
            self.registry().dom().finite(),
    {
        lemma_entries_map(self.files@);
    }

    /// A source in which no directive is recognized comes back unchanged from this
    /// context, with one source-map entry per line: line `i` of the top-level source.
    pub proof fn lemma_plain_source(&self, src: Seq<char>)
        requires
            self.wf(),
            directives_of(src).len() == 0,
        ensures
            expansion(self.registry(), src) matches Ok(lines) && join_lines(lines) == src
                && map_entries(lines) == Seq::new(
                newlines(src) + 1,
                |i: int| (None::<Seq<char>>, i as nat),
            ),
    {
        self.lemma_registry_finite();
        lemma_plain_text_unchanged(self.registry(), src);
    }

    /// A context with nothing registered.
    pub fn new() -> (r: Self)
        ensures
            r.wf(),
            r.registry() == Registry::empty(),
    {
        Context { files: Vec::new() }
    }

    /// Registers `src` under `name`, in place of what was registered under it before.
    pub fn register(&mut self, name: &str, src: &str) -> (r: &mut Self)
        requires
            old(self).wf(),
        ensures
            r.wf(),
            r.registry() == old(self).registry().insert(name@, src@),
            *final(self) == *final(r),
    {
        let entry = Entry { name: name.to_owned(), content: src.to_owned() };
        let ghost before = self.files@;
        let mut i: usize = 0;
        while i < self.files.len()
            invariant
                i <= self.files.len(),
                self.files@ == before,
                before == old(self).files@,
                names_unique(before),
                entry.name@ == name@,
                entry.content@ == src@,
                forall|j: int| 0 <= j < i ==> #[trigger] before[j].name@ != name@,
            decreases self.files.len() - i,
        {
            if self.files[i].name == entry.name {
                proof {
                    lemma_entries_map(before);
                }
                self.files.set(i, entry);
                let ghost after = self.files@;
                proof {
                    lemma_entries_map(after);
                    assert(after == before.update(i as int, entry));
                    assert forall|j: int, q: int|
                        0 <= j < q < after.len() implies #[trigger] after[j].name@
                        != #[trigger] after[q].name@ by {
                        if j != i && q != i {
                            assert(after[j] == before[j] && after[q] == before[q]);
                        } else if j == i {
                            assert(after[q] == before[q]);
                        } else {
                            assert(after[j] == before[j]);
                        }
                    }
                    assert(entries_map(after) =~= entries_map(before).insert(name@, src@)) by {
                        assert forall|key: Seq<char>| #[trigger]
                            entries_map(after).dom().contains(key) <==> entries_map(
                                before,
                            ).insert(name@, src@).dom().contains(key) by {
                            if exists|j: int| 0 <= j < after.len() && after[j].name@ == key {
                                let j = choose|j: int| 0 <= j < after.len() && after[j].name@ == key;
                                if j != i {
                                    assert(before[j] == after[j]);
                                }
                            }
                            if exists|j: int| 0 <= j < before.len() && before[j].name@ == key {
                                let j = choose|j: int| 0 <= j < before.len() && before[j].name@ == key;
                                if j != i {
                                    assert(before[j] == after[j]);
                                } else {
                                    assert(after[i as int].name@ == key);
                                }
                            }
                            if key == name@ {
                                assert(after[i as int].name@ == key);
                            }
                        }
                        assert forall|key: Seq<char>| #[trigger]
                            entries_map(after).dom().contains(key) implies entries_map(after)[key]
                            == entries_map(before).insert(name@, src@)[key] by {
                            let j = choose|j: int| 0 <= j < after.len() && after[j].name@ == key;
                            if j != i {
                                assert(before[j] == after[j]);
                            }
                        }
                    }
                }
                return self;
            }
            i = i + 1;
        }
        proof {
            lemma_entries_map(before);
        }
        self.files.push(entry);
        proof {
            let after = self.files@;
            assert(after.drop_last() =~= before);
            assert forall|j: int, q: int|
                0 <= j < q < after.len() implies #[trigger] after[j].name@ != #[trigger] after[q].name@ by {
                assert(after[j] == before[j]);
                if q < before.len() {
                    assert(after[q] == before[q]);
                }
            }
        }
        self
    }

    /// The content registered under `name`.
    fn lookup(&self, name: &String) -> (r: Option<&String>)
        requires
            self.wf(),
        ensures
            r matches Some(c) ==> self.registry().dom().contains(name@) && c@ == self.registry()[name@],
            r is None ==> !self.registry().dom().contains(name@),
    {
        proof {
            lemma_entries_map(self.files@);
        }
        let mut i: usize = 0;
        while i < self.files.len()
            invariant
                i <= self.files.len(),
                self.wf(),
                forall|j: int| 0 <= j < i ==> #[trigger] self.files@[j].name@ != name@,
            decreases self.files.len() - i,
        {
            if self.files[i].name == *name {
                assert(self.files@[i as int].name@ == name@);
                proof {
                    lemma_entries_map(self.files@);
                }
                return Some(&self.files[i].content);
            }
            i = i + 1;
        }
        None
    }
}

/// `prefix_with` twice is `prefix_with` of the two prefixes joined.
proof fn lemma_prefix_twice(
    a: Seq<OutLine>,
    b: Seq<OutLine>,
    r: Result<Progress, ErrorView>,
)
    ensures
        prefix_with(a, prefix_with(b, r)) == prefix_with(a + b, r),
{
    if let Ok((rest, _)) = r {
        assert(a + (b + rest) =~= (a + b) + rest);
    }
}

impl Context {
    /// Handles the `k`-th directive of `t`, the content of `origin`: emits the text
    /// between `cursor` and the directive, then expands the directive or leaves it out.
    /// On success, returns where the text resumes, the line there, whether that text
    /// shares its line with the directive, and whether a marker is pending.
    fn expand_directive(
        &self,
        origin: &Option<String>,
        t: &Vec<char>,
        ds: &Vec<Directive>,
        k: usize,
        stack: &mut Vec<String>,
        done: &mut Vec<String>,
        out: &mut Output,
        cursor: usize,
        line: usize,
        trim: bool,
        pending: bool,
    ) -> (r: Result<(usize, usize, bool, bool), Error>)
        requires
            self.wf(),
            valid_stack(self.registry(), old(stack).deep_view()),
            old(out).wf(),
            views_of(ds@) == directives_of(t@),
            k < ds.len(),
            cursor <= ds@[k as int]@.start,
            line == line_at(t@, cursor as int),
        ensures
            final(stack).deep_view() == old(stack).deep_view(),
            final(out).wf(),
            match r {
                Ok((next, next_line, next_trim, next_pending)) => {
                    &&& final(out).lines().len() >= old(out).lines().len()
                    &&& final(out).lines().subrange(0, old(out).lines().len() as int) == old(
                        out,
                    ).lines()
                    &&& walk(
                        self.registry(),
                        old(stack).deep_view(),
                        old(done).deep_view().to_set(),
                        origin.deep_view(),
                        t@,
                        views_of(ds@),
                        k as int,
                        cursor as int,
                        trim,
                        pending,
                    ) == prefix_with(
                        final(out).lines().subrange(
                            old(out).lines().len() as int,
                            final(out).lines().len() as int,
                        ),
                        walk(
                            self.registry(),
                            old(stack).deep_view(),
                            final(done).deep_view().to_set(),
                            origin.deep_view(),
                            t@,
                            views_of(ds@),
                            k + 1,
                            next as int,
                            next_trim,
                            next_pending,
                        ),
                    )
                    &&& next <= t.len()
                    &&& k + 1 < ds.len() ==> next <= ds@[k + 1]@.start
                    &&& next_line == line_at(t@, next as int)
                },
                Err(e) => walk(
                    self.registry(),
                    old(stack).deep_view(),
                    old(done).deep_view().to_set(),
                    origin.deep_view(),
                    t@,
                    views_of(ds@),
                    k as int,
                    cursor as int,
                    trim,
                    pending,
                ) == Err::<Progress, ErrorView>(e@),
            },
        decreases self.registry().dom().len() - old(stack).deep_view().len(), 0int,
    {
        let ghost reg = self.registry();
        let ghost stk = stack.deep_view();
        let ghost done_now = done.deep_view().to_set();
        let ghost org = origin.deep_view();
        let ghost dsv = views_of(ds@);
        proof {
            lemma_scan_facts(t@, 0);
        }
        let d = &ds[k];
        let ghost dv = dsv[k as int];
        assert(d@ == dv);
        let ghost base = out.lines();
        let ghost before = segment_lines(org, t@, cursor as int, dv.start, trim, true, pending);
        let (waiting, start_line) = emit_segment(out, origin, t, cursor, d.char_start, line, trim, true, pending);
        proof {
            lemma_line_end(t@, dv.start);
        }
        let consumed = d.char_end == d.char_line_end && d.char_line_end < t.len();
        let next = if consumed {
            d.char_line_end + 1
        } else {
            d.char_end
        };
        assert(consumed == ends_line(t@, dv));
        assert(next == resume_at(t@, dv));
        let next_line = advance_line(t, d.char_start, next, start_line);
        if k + 1 < ds.len() {
            assert(dsv[k as int].end <= dsv[k + 1].start);
            assert(ds@[k + 1]@ == dsv[k + 1]);
            assert(next <= dsv[k + 1].start);
        }
        if holds_string(done, &d.included_file) {
            assert(out.lines().subrange(0, base.len() as int) =~= base);
            assert(out.lines().subrange(base.len() as int, out.lines().len() as int) =~= before);
            return Ok((next, next_line, !consumed, waiting));
        }
        if holds_string(stack, &d.included_file) {
            let err = Error::RecursiveInclude {
                in_file: copy_name(origin),
                line_num: d.line_num,
                problem_include: copy_string(&d.included_file),
                include_stack: copy_strings(stack),
            };
            return Err(err);
        }
        match self.lookup(&d.included_file) {
            None => {
                let err = Error::FileNotFound {
                    in_file: copy_name(origin),
                    line_num: d.line_num,
                    problem_include: copy_string(&d.included_file),
                };
                Err(err)
            },
            Some(content) => {
                proof {
                    lemma_push_valid(reg, stk, dv.name);
                }
                stack.push(copy_string(&d.included_file));
                assert(stack.deep_view() =~= stk.push(dv.name));
                let sub = Some(copy_string(&d.included_file));
                let ghost lines_at_call = out.lines();
                let r = self.expand_into(&sub, content.as_str(), stack, done, out);
                let ghost pushed = stack.deep_view();
                stack.pop();
                assert(stack.deep_view() =~= pushed.drop_last());
                assert(stack.deep_view() =~= stk);
                match r {
                    Err(e) => Err(e),
                    Ok(()) => {
                        let ghost inner = out.lines().subrange(
                            lines_at_call.len() as int,
                            out.lines().len() as int,
                        );
                        assert(out.lines() =~= lines_at_call + inner);
                        let ghost finished = done.deep_view().to_set();
                        assert(sub.deep_view() == Some(dv.name));
                        assert(content@ == reg[dv.name]);
                        proof {
                            if let Ok((ls, _)) = expand_text(
                                reg,
                                stk.push(dv.name),
                                done_now,
                                Some(dv.name),
                                reg[dv.name],
                            ) {
                                assert(inner =~= ls);
                            }
                        }
                        assert(expand_text(reg, stk.push(dv.name), done_now, Some(dv.name), reg[dv.name])
                            == Ok::<Progress, ErrorView>((inner, finished)));
                        assert(walk(reg, stk, done_now, org, t@, dsv, k as int, cursor as int, trim, pending)
                            == prefix_with(before + inner, walk(reg, stk, finished, org, t@, dsv, k + 1, next as int, !consumed, true)));
                        assert(out.lines().subrange(0, base.len() as int) =~= base);
                        assert(out.lines().subrange(base.len() as int, out.lines().len() as int)
                            =~= before + inner);
                        Ok((next, next_line, !consumed, true))
                    },
                }
            },
        }
    }

    /// Expands `text`, the content of `origin` (none for the top-level source), onto
    /// `out`, with the names of `stack` under expansion and those of `done` expanded
    /// already.
    fn expand_into(
        &self,
        origin: &Option<String>,
        text: &str,
        stack: &mut Vec<String>,
        done: &mut Vec<String>,
        out: &mut Output,
    ) -> (r: Result<(), Error>)
        requires
            self.wf(),
            valid_stack(self.registry(), old(stack).deep_view()),
            old(out).wf(),
        ensures
            final(stack).deep_view() == old(stack).deep_view(),
            final(out).wf(),
            match expand_text(
                self.registry(),
                old(stack).deep_view(),
                old(done).deep_view().to_set(),
                origin.deep_view(),
                text@,
            ) {
                Ok((lines, finished)) => {
                    &&& r is Ok
                    &&& final(out).lines() == old(out).lines() + lines
                    &&& final(done).deep_view().to_set() == finished
                },
                Err(e) => r matches Err(err) && err@ == e,
            },
        decreases self.registry().dom().len() - old(stack).deep_view().len(), 1int,
    {
        let ghost reg = self.registry();
        let ghost stk = stack.deep_view();
        let ghost done0 = done.deep_view().to_set();
        let ghost org = origin.deep_view();
        let t = chars_of(text);
        let ds = directives_in(text);
        let ghost dsv = views_of(ds@);
        let ghost base = out.lines();
        let ghost whole = walk(reg, stk, done0, org, t@, dsv, 0, 0, false, false);
        let mut k: usize = 0;
        let mut cursor: usize = 0;
        let mut line: usize = 0;
        let mut trim = false;
        let mut pending = false;
        assert(t@.subrange(0, 0) =~= Seq::<char>::empty());
        proof {
            lemma_scan_facts(t@, 0);
        }
        assert(out.lines().subrange(0, base.len() as int) =~= base);
        assert(out.lines().subrange(base.len() as int, out.lines().len() as int) =~= Seq::<
            OutLine,
        >::empty());
        assert(whole == prefix_with(Seq::<OutLine>::empty(), whole)) by {
            if let Ok((ls, _)) = whole {
                assert(Seq::<OutLine>::empty() + ls =~= ls);
            }
        }
        while k < ds.len()
            invariant
                self.wf(),
                reg == self.registry(),
                valid_stack(reg, stk),
                stack.deep_view() == stk,
                stk == old(stack).deep_view(),
                done0 == old(done).deep_view().to_set(),
                base == old(out).lines(),
                t@ == text@,
                whole == walk(reg, stk, done0, org, t@, dsv, 0, 0, false, false),
                org == origin.deep_view(),
                dsv == views_of(ds@),
                dsv == directives_of(t@),
                out.wf(),
                k <= ds.len(),
                cursor <= t.len(),
                k < ds.len() ==> cursor <= ds@[k as int]@.start,
                line == line_at(t@, cursor as int),
                out.lines().len() >= base.len(),
                out.lines().subrange(0, base.len() as int) == base,
                whole == prefix_with(
                    out.lines().subrange(base.len() as int, out.lines().len() as int),
                    walk(reg, stk, done.deep_view().to_set(), org, t@, dsv, k as int, cursor as int, trim, pending),
                ),
            decreases ds.len() - k,
        {
            let ghost acc = out.lines().subrange(base.len() as int, out.lines().len() as int);
            let ghost lines_before = out.lines();
            match self.expand_directive(
                origin,
                &t,
                &ds,
                k,
                stack,
                done,
                out,
                cursor,
                line,
                trim,
                pending,
            ) {
                Err(e) => {
                    return Err(e);
                },
                Ok((next, next_line, next_trim, next_pending)) => {
                    let ghost added = out.lines().subrange(
                        lines_before.len() as int,
                        out.lines().len() as int,
                    );
                    proof {
                        lemma_prefix_twice(
                            acc,
                            added,
                            walk(
                                reg,
                                stk,
                                done.deep_view().to_set(),
                                org,
                                t@,
                                dsv,
                                k + 1,
                                next as int,
                                next_trim,
                                next_pending,
                            ),
                        );
                    }
                    assert(out.lines() =~= lines_before + added);
                    assert(out.lines().subrange(0, base.len() as int) =~= base);
                    assert(out.lines().subrange(base.len() as int, out.lines().len() as int)
                        =~= acc + added);
                    cursor = next;
                    line = next_line;
                    trim = next_trim;
                    pending = next_pending;
                    k = k + 1;
                },
            }
        }
        let ghost acc = out.lines().subrange(base.len() as int, out.lines().len() as int);
        let ghost tail = segment_lines(org, t@, cursor as int, t@.len() as int, trim, false, pending);
        emit_segment(out, origin, &t, cursor, t.len(), line, trim, false, pending);
        assert(out.lines() =~= base + (acc + tail));
        match origin {
            Some(name) => {
                let ghost seq_before = done.deep_view();
                done.push(copy_string(name));
                assert(done.deep_view() =~= seq_before.push(name@));
                assert(done.deep_view().to_set() =~= seq_before.to_set().insert(name@)) by {
                    assert forall|x: Seq<char>| #[trigger] done.deep_view().contains(x) <==> (
                    seq_before.contains(x) || x == name@) by {
                        if done.deep_view().contains(x) && x != name@ {
                            let j = choose|j: int|
                                0 <= j < done.deep_view().len() && done.deep_view()[j] == x;
                            assert(seq_before[j] == x);
                        }
                        if x == name@ {
                            assert(done.deep_view()[seq_before.len() as int] == x);
                        }
                        if seq_before.contains(x) {
                            let j = choose|j: int| 0 <= j < seq_before.len() && seq_before[j] == x;
                            assert(done.deep_view()[j] == x);
                        }
                    }
                }
            },
            None => {},
        }
        Ok(())
    }

    /// Expands the directives of `src` recursively: the expanded text, and for each of
    /// its lines of text where it came from.
    pub fn expand_to_string(&self, src: &str) -> (r: Result<(String, SourceMap), Error>)
        requires
            self.wf(),
        ensures
            match expansion(self.registry(), src@) {
                Ok(lines) => r matches Ok((text, map)) && text@ == join_lines(lines) && map@
                    == map_entries(lines),
                Err(e) => r matches Err(err) && err@ == e,
            },
    {
        proof {
            lemma_entries_map(self.files@);
        }
        let mut stack: Vec<String> = Vec::new();
        let mut done: Vec<String> = Vec::new();
        let mut out = Output::new();
        assert(stack.deep_view() =~= Seq::<Seq<char>>::empty());
        assert(done.deep_view().to_set() =~= Set::<Seq<char>>::empty());
        match self.expand_into(&None, src, &mut stack, &mut done, &mut out) {
            Ok(()) => {
                assert(out.lines() =~= Seq::<OutLine>::empty() + out.lines());
                Ok(out.finish())
            },
            Err(e) => Err(e),
        }
    }

    /// Expands the directives of `src` recursively and returns the expanded text.
    pub fn expand(&self, src: &str) -> (r: Result<String, Error>)
        requires
            self.wf(),
        ensures
            match expansion(self.registry(), src@) {
                Ok(lines) => r matches Ok(text) && text@ == join_lines(lines),
                Err(e) => r matches Err(err) && err@ == e,
            },
    {
        match self.expand_to_string(src) {
            Ok((text, _)) => Ok(text),
            Err(e) => Err(e),
        }
    }
}

} // verus!
