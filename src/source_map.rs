//! The expanded output as a sequence of lines, and the source map that says where
//! each line of text came from.
use vstd::prelude::*;

use crate::text::{decimal, push_char, push_decimal, push_range};

verus! {

/// One line of expanded output.
pub enum OutLine {
    /// A line of text taken from an input: from the registered file `origin` (none for
    /// the top-level source), where it is line `index` (0-based).
    Text { origin: Option<Seq<char>>, index: nat, content: Seq<char> },
    /// A line-reset marker: the next line that comes from the file holding the
    /// directive is its line `next` (0-based).
    Marker { next: nat },
}

/// The text of a line-reset marker, `#line <next> 0`.
pub open spec fn marker_text(next: nat) -> Seq<char> {
    "#line "@ + decimal(next) + " 0"@
}

/// The characters of one output line, without its line feed.
pub open spec fn line_text(l: OutLine) -> Seq<char> {
    match l {
        OutLine::Text { content, .. } => content,
        OutLine::Marker { next } => marker_text(next),
    }
}

/// The output text: the lines joined by line feeds.
pub open spec fn join_lines(ls: Seq<OutLine>) -> Seq<char>
    decreases ls.len(),
{
    if ls.len() == 0 {
        Seq::empty()
    } else if ls.len() == 1 {
        line_text(ls[0])
    } else {
        join_lines(ls.drop_last()) + seq!['\n'] + line_text(ls.last())
    }
}

/// The source map: for each line of text (markers left out), in output order, its
/// origin and its line there.
pub open spec fn map_entries(ls: Seq<OutLine>) -> Seq<(Option<Seq<char>>, nat)>
    decreases ls.len(),
{
    if ls.len() == 0 {
        Seq::empty()
    } else {
        match ls.last() {
            OutLine::Text { origin, index, .. } => map_entries(ls.drop_last()).push(
                (origin, index),
            ),
            OutLine::Marker { .. } => map_entries(ls.drop_last()),
        }
    }
}

/// Joining a line in front of at least one other line puts a line feed between them.
pub proof fn lemma_join_front(x: OutLine, rest: Seq<OutLine>)
    requires
        rest.len() >= 1,
    ensures
        join_lines(seq![x] + rest) == line_text(x) + seq!['\n'] + join_lines(rest),
    decreases rest.len(),
{
    let all = seq![x] + rest;
    if rest.len() == 1 {
        assert(all.drop_last() =~= seq![x]);
        assert(all.last() == rest[0]);
        assert(join_lines(seq![x]) == line_text(x));
        assert(join_lines(rest) == line_text(rest[0]));
    } else {
        lemma_join_front(x, rest.drop_last());
        assert(all.drop_last() =~= seq![x] + rest.drop_last());
        assert(all.last() == rest.last());
        assert(join_lines(all) =~= line_text(x) + seq!['\n'] + join_lines(rest));
    }
}

/// The source map of two runs of lines is the two maps one after the other.
pub proof fn lemma_entries_add(a: Seq<OutLine>, b: Seq<OutLine>)
    ensures
        map_entries(a + b) == map_entries(a) + map_entries(b),
    decreases b.len(),
{
    if b.len() == 0 {
        assert(a + b =~= a);
        assert(map_entries(a) + map_entries(b) =~= map_entries(a));
    } else {
        lemma_entries_add(a, b.drop_last());
        assert((a + b).drop_last() =~= a + b.drop_last());
        assert((a + b).last() == b.last());
        assert(map_entries(a + b) =~= map_entries(a) + map_entries(b));
    }
}

/// Where one line of output came from.
pub struct FileLine {
    /// The registered name of the file, or none for the top-level source.
    pub file: Option<String>,
    /// The 0-based line within that file.
    pub line: usize,
}

impl View for FileLine {
    type V = (Option<Seq<char>>, nat);

    open spec fn view(&self) -> (Option<Seq<char>>, nat) {
        (self.file.deep_view(), self.line as nat)
    }
}

/// The views of a list of source-map entries.
pub open spec fn entry_views(ls: Seq<FileLine>) -> Seq<(Option<Seq<char>>, nat)> {
    ls.map_values(|l: FileLine| l@)
}

/// For each line of text in an expanded output, in order, where it came from.
pub struct SourceMap {
    lines: Vec<FileLine>,
}

impl View for SourceMap {
    type V = Seq<(Option<Seq<char>>, nat)>;

    closed spec fn view(&self) -> Seq<(Option<Seq<char>>, nat)> {
        entry_views(self.lines@)
    }
}

impl SourceMap {
    /// The number of entries.
    pub fn len(&self) -> (r: usize)
        ensures
            r == self@.len(),
    {
        self.lines.len()
    }

    /// The entry of the `i`-th line of text, if there is one.
    pub fn get(&self, i: usize) -> (r: Option<&FileLine>)
        ensures
            i < self@.len() ==> (r matches Some(l) && l@ == self@[i as int]),
            i >= self@.len() ==> r is None,
    {
        if i < self.lines.len() {
            Some(&self.lines[i])
        } else {
            None
        }
    }
}

/// A copy of an optional name.
pub fn copy_name(o: &Option<String>) -> (r: Option<String>)
    ensures
        r.deep_view() == o.deep_view(),
{
    match o {
        Some(s) => Some(crate::text::copy_string(s)),
        None => None,
    }
}

/// The output under construction: its text and source map, kept in step with the
/// lines they are made of.
pub struct Output {
    text: String,
    map: Vec<FileLine>,
    started: bool,
    lines: Ghost<Seq<OutLine>>,
}

impl Output {
    /// The lines emitted so far.
    pub closed spec fn lines(&self) -> Seq<OutLine> {
        self.lines@
    }

    pub closed spec fn wf(&self) -> bool {
        &&& self.text@ == join_lines(self.lines@)
        &&& entry_views(self.map@) == map_entries(self.lines@)
        &&& self.started == (self.lines@.len() > 0)
    }

    /// An output with no line yet.
    pub fn new() -> (r: Self)
        ensures
            r.wf(),
            r.lines() == Seq::<OutLine>::empty(),
    {
        let r = Output { text: String::new(), map: Vec::new(), started: false, lines: Ghost(Seq::empty()) };
        assert(entry_views(r.map@) =~= Seq::empty());
        r
    }

    /// Starts a new line: a line feed unless it is the first.
    fn open_line(&mut self)
        requires
            old(self).wf(),
        ensures
            final(self).map@ == old(self).map@,
            final(self).lines@ == old(self).lines@,
            final(self).started,
            final(self).text@ == if old(self).started {
                join_lines(old(self).lines@) + seq!['\n']
            } else {
                join_lines(old(self).lines@)
            },
    {
        if self.started {
            push_char(&mut self.text, '\n');
        }
        self.started = true;
    }

    /// Appends a line-reset marker.
    pub fn push_marker(&mut self, next: usize)
        requires
            old(self).wf(),
        ensures
            final(self).wf(),
            final(self).lines() == old(self).lines().push(OutLine::Marker { next: next as nat }),
    {
        let ghost before = self.lines@;
        self.open_line();
        self.text.append("#line ");
        push_decimal(&mut self.text, next);
        self.text.append(" 0");
        let ghost after = before.push(OutLine::Marker { next: next as nat });
        self.lines = Ghost(after);
        assert(after.drop_last() =~= before);
        assert(self.text@ =~= join_lines(after));
    }

    /// Appends the line `t[from..to]`, line `index` of `origin`.
    pub fn push_text(
        &mut self,
        origin: &Option<String>,
        index: usize,
        t: &Vec<char>,
        from: usize,
        to: usize,
    )
        requires
            old(self).wf(),
            from <= to <= t.len(),
        ensures
            final(self).wf(),
            final(self).lines() == old(self).lines().push(
                OutLine::Text {
                    origin: origin.deep_view(),
                    index: index as nat,
                    content: t@.subrange(from as int, to as int),
                },
            ),
    {
        let ghost before = self.lines@;
        self.open_line();
        push_range(&mut self.text, t, from, to);
        let entry = FileLine { file: copy_name(origin), line: index };
        let ghost map_before = self.map@;
        self.map.push(entry);
        let ghost after = before.push(
            OutLine::Text {
                origin: origin.deep_view(),
                index: index as nat,
                content: t@.subrange(from as int, to as int),
            },
        );
        self.lines = Ghost(after);
        assert(after.drop_last() =~= before);
        assert(self.text@ =~= join_lines(after));
        assert(entry_views(self.map@) =~= entry_views(map_before).push(entry@));
    }

    /// The text and the source map.
    pub fn finish(self) -> (r: (String, SourceMap))
        requires
            self.wf(),
        ensures
            r.0@ == join_lines(self.lines()),
            r.1@ == map_entries(self.lines()),
    {
        (self.text, SourceMap { lines: self.map })
    }
}

} // verus!
