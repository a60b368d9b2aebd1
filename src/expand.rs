//! What an expansion produces, stated over plain values.
use vstd::prelude::*;

use crate::error::ErrorView;
use crate::lines::{piece_end, segment_lines};
use crate::scan::{directives_of, lemma_line_end, line_end, DirectiveView};
use crate::source_map::{join_lines, lemma_entries_add, lemma_join_front, map_entries, OutLine};
use crate::text::{lemma_line_monotone, lemma_line_span, lemma_line_step, line_at, newlines};

verus! {

/// A registry: each registered name with its content.
pub type Registry = Map<Seq<char>, Seq<char>>;

/// The lines produced so far and the names whose expansion has completed.
pub type Progress = (Seq<OutLine>, Set<Seq<char>>);

/// An include stack that expansion can reach: names of the registry, each at most once.
pub open spec fn valid_stack(reg: Registry, stack: Seq<Seq<char>>) -> bool {
    &&& reg.dom().finite()
    &&& stack.no_duplicates()
    &&& forall|i: int| 0 <= i < stack.len() ==> reg.dom().contains(#[trigger] stack[i])
}

/// A stack of distinct registered names is no longer than the registry.
pub proof fn lemma_stack_bound(reg: Registry, stack: Seq<Seq<char>>)
    requires
        valid_stack(reg, stack),
    ensures
        stack.len() <= reg.dom().len(),
{
    stack.unique_seq_to_set();
    assert(stack.to_set().subset_of(reg.dom()));
    vstd::set_lib::lemma_len_subset(stack.to_set(), reg.dom());
}

/// Pushing a registered name that is not on the stack keeps the stack valid.
pub proof fn lemma_push_valid(reg: Registry, stack: Seq<Seq<char>>, name: Seq<char>)
    requires
        valid_stack(reg, stack),
        !stack.contains(name),
        reg.dom().contains(name),
    ensures
        valid_stack(reg, stack.push(name)),
        stack.len() + 1 <= reg.dom().len(),
{
    let pushed = stack.push(name);
    assert forall|i: int, j: int| 0 <= i < pushed.len() && 0 <= j < pushed.len() && i != j implies pushed[i]
        != pushed[j] by {
        if i == stack.len() {
            assert(stack[j] == pushed[j]);
        } else if j == stack.len() {
            assert(stack[i] == pushed[i]);
        }
    }
    assert forall|i: int| 0 <= i < pushed.len() implies reg.dom().contains(#[trigger] pushed[i]) by {
        if i < stack.len() {
            assert(pushed[i] == stack[i]);
        }
    }
    lemma_stack_bound(reg, pushed);
}

/// The directive takes in the line feed that ends its line: nothing but blanks
/// follows it there.
pub open spec fn ends_line(t: Seq<char>, d: DirectiveView) -> bool {
    d.end == d.line_end && d.line_end < t.len()
}

/// Where the text resumes after the directive `d`.
pub open spec fn resume_at(t: Seq<char>, d: DirectiveView) -> int {
    if ends_line(t, d) {
        d.line_end + 1
    } else {
        d.end
    }
}

/// `r` with the lines `ls` in front of its lines.
pub open spec fn prefix_with(ls: Seq<OutLine>, r: Result<Progress, ErrorView>) -> Result<
    Progress,
    ErrorView,
> {
    match r {
        Ok((rest, finished)) => Ok((ls + rest, finished)),
        Err(e) => Err(e),
    }
}

/// The expansion of `t` (the content of `origin`, or the top-level source when none)
/// from its `k`-th directive `ds[k]` on, where the text resumes at `cursor`. `trim`:
/// the text at `cursor` shares its line with the directive before; `pending`: a
/// line-reset marker is owed before the next line of `t`; `done`: the names whose
/// expansion has completed.
pub open spec fn walk(
    reg: Registry,
    stack: Seq<Seq<char>>,
    done: Set<Seq<char>>,
    origin: Option<Seq<char>>,
    t: Seq<char>,
    ds: Seq<DirectiveView>,
    k: int,
    cursor: int,
    trim: bool,
    pending: bool,
) -> Result<Progress, ErrorView>
    decreases reg.dom().len() - stack.len(), 0int, ds.len() - k,
    when valid_stack(reg, stack) && 0 <= k <= ds.len()
{
    if k == ds.len() {
        Ok((segment_lines(origin, t, cursor, t.len() as int, trim, false, pending), done))
    } else {
        let d = ds[k];
        let before = segment_lines(origin, t, cursor, d.start, trim, true, pending);
        let waiting = pending && before.len() == 0;
        let next = resume_at(t, d);
        let trim_next = !ends_line(t, d);
        if done.contains(d.name) {
            prefix_with(before, walk(reg, stack, done, origin, t, ds, k + 1, next, trim_next, waiting))
        } else if stack.contains(d.name) {
            Err(ErrorView::Cycle { context: origin, line: d.line, target: d.name, stack })
        } else if !reg.dom().contains(d.name) {
            Err(ErrorView::NotFound { context: origin, line: d.line, target: d.name })
        } else {
            proof {
                lemma_push_valid(reg, stack, d.name);
            }
            match expand_text(reg, stack.push(d.name), done, Some(d.name), reg[d.name]) {
                Err(e) => Err(e),
                Ok((inner, finished)) => prefix_with(
                    before + inner,
                    walk(reg, stack, finished, origin, t, ds, k + 1, next, trim_next, true),
                ),
            }
        }
    }
}

/// The expansion of the text `t` of `origin` (none for the top-level source) with
/// `stack` under expansion and the names of `done` expanded already: its lines and the
/// names expanded once it is through, `origin` among them.
pub open spec fn expand_text(
    reg: Registry,
    stack: Seq<Seq<char>>,
    done: Set<Seq<char>>,
    origin: Option<Seq<char>>,
    t: Seq<char>,
) -> Result<Progress, ErrorView>
    decreases reg.dom().len() - stack.len(), 1int, 0int,
    when valid_stack(reg, stack)
{
    match walk(reg, stack, done, origin, t, directives_of(t), 0, 0, false, false) {
        Ok((lines, finished)) => Ok(
            (
                lines,
                match origin {
                    Some(name) => finished.insert(name),
                    None => finished,
                },
            ),
        ),
        Err(e) => Err(e),
    }
}

/// The lines that expanding `src` against `reg` produces, or the error it stops at.
pub open spec fn expansion(reg: Registry, src: Seq<char>) -> Result<Seq<OutLine>, ErrorView> {
    match expand_text(reg, Seq::empty(), Set::empty(), None, src) {
        Ok((lines, _)) => Ok(lines),
        Err(e) => Err(e),
    }
}

/// The lines of `t[a..]` when nothing is trimmed and no marker is pending: joined,
/// they give back `t[a..]`, and each maps to its own line of the top-level source.
proof fn lemma_plain_segment(t: Seq<char>, a: int)
    requires
        0 <= a <= t.len(),
    ensures
        join_lines(segment_lines(None, t, a, t.len() as int, false, false, false)) == t.subrange(
            a,
            t.len() as int,
        ),
        map_entries(segment_lines(None, t, a, t.len() as int, false, false, false)) == Seq::new(
            (line_at(t, t.len() as int) - line_at(t, a) + 1) as nat,
            |i: int| (None::<Seq<char>>, (line_at(t, a) + i) as nat),
        ),
        segment_lines(None, t, a, t.len() as int, false, false, false).len() >= 1,
    decreases t.len() - a,
{
    let len = t.len() as int;
    lemma_line_end(t, a);
    let e = piece_end(t, a, len);
    assert(e == line_end(t, a));
    let here = seq![
        OutLine::Text { origin: None, index: line_at(t, a), content: t.subrange(a, e) },
    ];
    let lines = segment_lines(None, t, a, len, false, false, false);
    assert(here.drop_last() =~= Seq::<OutLine>::empty());
    assert(map_entries(Seq::<OutLine>::empty()) =~= Seq::empty());
    assert(map_entries(here) == map_entries(here.drop_last()).push((None::<Seq<char>>, line_at(t, a))));
    assert(map_entries(here) =~= seq![(None::<Seq<char>>, line_at(t, a))]);
    if e < len {
        lemma_plain_segment(t, e + 1);
        let rest = segment_lines(None, t, e + 1, len, false, false, false);
        assert(lines == here + rest);
        lemma_join_front(here[0], rest);
        assert(t.subrange(a, len) =~= t.subrange(a, e) + seq!['\n'] + t.subrange(e + 1, len));
        lemma_entries_add(here, rest);
        lemma_line_span(t, a, e);
        lemma_line_step(t, e);
        assert(line_at(t, e + 1) == line_at(t, a) + 1);
        lemma_line_monotone(t, e + 1, len);
        let target = Seq::new(
            (line_at(t, len) - line_at(t, a) + 1) as nat,
            |i: int| (None::<Seq<char>>, (line_at(t, a) + i) as nat),
        );
        assert(map_entries(lines) == map_entries(here) + map_entries(rest));
        assert forall|i: int| 0 <= i < target.len() implies #[trigger] map_entries(lines)[i]
            == target[i] by {
            if i > 0 {
                assert(map_entries(lines)[i] == map_entries(rest)[i - 1]);
            }
        }
        assert(map_entries(lines) =~= Seq::new(
            (line_at(t, len) - line_at(t, a) + 1) as nat,
            |i: int| (None::<Seq<char>>, (line_at(t, a) + i) as nat),
        ));
    } else {
        assert(lines == here);
        lemma_line_span(t, a, len);
        assert(map_entries(lines) =~= Seq::new(
            (line_at(t, len) - line_at(t, a) + 1) as nat,
            |i: int| (None::<Seq<char>>, (line_at(t, a) + i) as nat),
        ));
        assert(join_lines(lines) =~= t.subrange(a, len));
    }
}

/// A source in which no directive is recognized expands to itself, whatever is
/// registered, and its source map has one entry per line: line `i` of the top-level
/// source, for each `i` in order.
pub proof fn lemma_plain_text_unchanged(reg: Registry, src: Seq<char>)
    requires
        reg.dom().finite(),
        directives_of(src).len() == 0,
    ensures
        expansion(reg, src) matches Ok(lines) && join_lines(lines) == src && map_entries(lines)
            == Seq::new(newlines(src) + 1, |i: int| (None::<Seq<char>>, i as nat)),
{
    let len = src.len() as int;
    assert(valid_stack(reg, Seq::empty()));
    lemma_plain_segment(src, 0);
    assert(src.subrange(0, 0) =~= Seq::<char>::empty());
    assert(src.subrange(0, len) =~= src);
    let lines = segment_lines(None, src, 0, len, false, false, false);
    assert(walk(reg, Seq::empty(), Set::empty(), None, src, directives_of(src), 0, 0, false, false)
        == Ok::<Progress, ErrorView>((lines, Set::empty())));
    assert(map_entries(lines) =~= Seq::new(newlines(src) + 1, |i: int| (None::<Seq<char>>, i as nat)));
}

/// Every line of `lines` is a line of text taken from `origin`.
pub open spec fn own_text(lines: Seq<OutLine>, origin: Option<Seq<char>>) -> bool {
    forall|i: int| 0 <= i < lines.len() ==> (#[trigger] lines[i] is Text && lines[i]->origin == origin)
}

proof fn lemma_own_text_add(a: Seq<OutLine>, b: Seq<OutLine>, origin: Option<Seq<char>>)
    requires
        own_text(a, origin),
        own_text(b, origin),
    ensures
        own_text(a + b, origin),
{
    assert forall|i: int| 0 <= i < (a + b).len() implies (#[trigger] (a + b)[i] is Text && (a
        + b)[i]->origin == origin) by {
        if i >= a.len() {
            assert((a + b)[i] == b[i - a.len()]);
        }
    }
}

/// With no marker pending, a stretch of text gives only its own lines.
proof fn lemma_segment_own_text(
    origin: Option<Seq<char>>,
    t: Seq<char>,
    a: int,
    b: int,
    trim_first: bool,
    trim_last: bool,
)
    ensures
        own_text(segment_lines(origin, t, a, b, trim_first, trim_last, false), origin),
    decreases b - a,
{
    if 0 <= a <= b <= t.len() {
        let e = piece_end(t, a, b);
        lemma_line_end(t, a);
        let piece = t.subrange(a, e);
        let dropped = crate::text::all_blank(piece) && (trim_first || (e == b && trim_last));
        let here = if dropped {
            Seq::<OutLine>::empty()
        } else {
            crate::lines::emit_line(false, origin, line_at(t, a), piece)
        };
        assert(own_text(here, origin));
        if e < b {
            lemma_segment_own_text(origin, t, e + 1, b, false, trim_last);
            lemma_own_text_add(here, segment_lines(origin, t, e + 1, b, false, trim_last, false), origin);
        }
    }
}

/// The walk from the `k`-th directive on, when every directive names a file expanded
/// already and no marker is pending: it succeeds with only the text's own lines and
/// leaves `done` as it was.
proof fn lemma_walk_elided(
    reg: Registry,
    stack: Seq<Seq<char>>,
    done: Set<Seq<char>>,
    origin: Option<Seq<char>>,
    t: Seq<char>,
    ds: Seq<DirectiveView>,
    k: int,
    cursor: int,
    trim: bool,
)
    requires
        valid_stack(reg, stack),
        0 <= k <= ds.len(),
        forall|j: int| 0 <= j < ds.len() ==> done.contains(#[trigger] ds[j].name),
    ensures
        walk(reg, stack, done, origin, t, ds, k, cursor, trim, false) matches Ok((lines, finished))
            && finished == done && own_text(lines, origin),
    decreases ds.len() - k,
{
    if k == ds.len() {
        lemma_segment_own_text(origin, t, cursor, t.len() as int, trim, false);
    } else {
        let d = ds[k];
        lemma_segment_own_text(origin, t, cursor, d.start, trim, true);
        lemma_walk_elided(reg, stack, done, origin, t, ds, k + 1, resume_at(t, d), !ends_line(t, d));
        let before = segment_lines(origin, t, cursor, d.start, trim, true, false);
        if let Ok((rest, _)) = walk(
            reg,
            stack,
            done,
            origin,
            t,
            ds,
            k + 1,
            resume_at(t, d),
            !ends_line(t, d),
            false,
        ) {
            lemma_own_text_add(before, rest, origin);
        }
    }
}

/// Include-once: when every directive of `t` names a file whose expansion has
/// completed, the directives add nothing. Expanding `t` cannot fail, recurses into no
/// file, inserts no line-reset marker, and gives only lines of `t` itself; the set
/// of expanded files gains `origin` alone.
pub proof fn lemma_expanded_names_add_nothing(
    reg: Registry,
    stack: Seq<Seq<char>>,
    done: Set<Seq<char>>,
    origin: Option<Seq<char>>,
    t: Seq<char>,
)
    requires
        valid_stack(reg, stack),
        forall|j: int|
            0 <= j < directives_of(t).len() ==> done.contains(#[trigger] directives_of(t)[j].name),
    ensures
        expand_text(reg, stack, done, origin, t) matches Ok((lines, finished)) && own_text(
            lines,
            origin,
        ) && finished == match origin {
            Some(name) => done.insert(name),
            None => done,
        },
{
    lemma_walk_elided(reg, stack, done, origin, t, directives_of(t), 0, 0, false);
}

} // verus!
