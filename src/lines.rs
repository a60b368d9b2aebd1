//! The text between two directives, cut into output lines.
use vstd::prelude::*;

use crate::scan::{lemma_line_end, line_end};
use crate::source_map::{OutLine, Output};
use crate::text::{all_blank, blank_range, lemma_line_step, line_at};

verus! {

/// One line of text from `origin`, preceded by a line-reset marker when one is pending.
pub open spec fn emit_line(
    pending: bool,
    origin: Option<Seq<char>>,
    index: nat,
    content: Seq<char>,
) -> Seq<OutLine> {
    let text = OutLine::Text { origin, index, content };
    if pending {
        seq![OutLine::Marker { next: index }, text]
    } else {
        seq![text]
    }
}

/// The end of the piece of line that starts at `a`: the next line feed, or `b`.
pub open spec fn piece_end(t: Seq<char>, a: int, b: int) -> int {
    if line_end(t, a) < b {
        line_end(t, a)
    } else {
        b
    }
}

/// The output lines for `t[a..b]`, taken from `origin`. Each piece of a line becomes
/// one output line; a blank piece is left out where it shares its line with a
/// directive: the first piece when `trim_first` holds, the last one when `trim_last`
/// holds. When `pending` holds, a line-reset marker goes before the first line that
/// is kept.
pub open spec fn segment_lines(
    origin: Option<Seq<char>>,
    t: Seq<char>,
    a: int,
    b: int,
    trim_first: bool,
    trim_last: bool,
    pending: bool,
) -> Seq<OutLine>
    decreases b - a,
{
    if !(0 <= a <= b <= t.len()) {
        Seq::empty()
    } else {
        let e = piece_end(t, a, b);
        let piece = t.subrange(a, e);
        let dropped = all_blank(piece) && (trim_first || (e == b && trim_last));
        let here = if dropped {
            Seq::empty()
        } else {
            emit_line(pending, origin, line_at(t, a), piece)
        };
        if e < b {
            proof {
                lemma_line_end(t, a);
            }
            here + segment_lines(origin, t, e + 1, b, false, trim_last, pending && dropped)
        } else {
            here
        }
    }
}

fn piece_end_from(t: &Vec<char>, a: usize, b: usize) -> (r: usize)
    requires
        a <= b <= t.len(),
    ensures
        r == piece_end(t@, a as int, b as int),
        a <= r <= b,
        forall|j: int| a <= j < r ==> #[trigger] t@[j] != '\n',
        r < b ==> t@[r as int] == '\n',
{
    proof {
        lemma_line_end(t@, a as int);
    }
    let mut j: usize = a;
    while j < b && t[j] != '\n'
        invariant
            a <= j <= b <= t.len(),
            forall|q: int| a <= q < j ==> #[trigger] t@[q] != '\n',
            line_end(t@, j as int) == line_end(t@, a as int),
        decreases b - j,
    {
        j = j + 1;
    }
    j
}

/// Emits the lines of `t[a..b]` as `segment_lines` states them. Returns whether a
/// marker is still pending, and the line of position `b`.
pub fn emit_segment(
    out: &mut Output,
    origin: &Option<String>,
    t: &Vec<char>,
    a: usize,
    b: usize,
    line: usize,
    trim_first: bool,
    trim_last: bool,
    pending: bool,
) -> (r: (bool, usize))
    requires
        old(out).wf(),
        a <= b <= t.len(),
        line == line_at(t@, a as int),
    ensures
        final(out).wf(),
        final(out).lines() == old(out).lines() + segment_lines(
            origin.deep_view(),
            t@,
            a as int,
            b as int,
            trim_first,
            trim_last,
            pending,
        ),
        r.0 == (pending && segment_lines(
            origin.deep_view(),
            t@,
            a as int,
            b as int,
            trim_first,
            trim_last,
            pending,
        ).len() == 0),
        r.1 == line_at(t@, b as int),
{
    let ghost whole = segment_lines(origin.deep_view(), t@, a as int, b as int, trim_first, trim_last, pending);
    let ghost base = out.lines();
    let mut pos: usize = a;
    let mut n: usize = line;
    let mut first = trim_first;
    let mut waiting = pending;
    loop
        invariant
            a <= pos <= b <= t.len(),
            n == line_at(t@, pos as int),
            base == old(out).lines(),
            whole == segment_lines(origin.deep_view(), t@, a as int, b as int, trim_first, trim_last, pending),
            out.wf(),
            out.lines().len() >= base.len(),
            out.lines().subrange(0, base.len() as int) == base,
            whole == out.lines().subrange(base.len() as int, out.lines().len() as int)
                + segment_lines(origin.deep_view(), t@, pos as int, b as int, first, trim_last, waiting),
            waiting == (pending && out.lines().len() == base.len()),
        decreases b - pos,
    {
        let ghost emitted = out.lines().subrange(base.len() as int, out.lines().len() as int);
        let ghost rest = segment_lines(origin.deep_view(), t@, pos as int, b as int, first, trim_last, waiting);
        let e = piece_end_from(t, pos, b);
        let dropped = blank_range(t, pos, e) && (first || (e == b && trim_last));
        let ghost here = if dropped {
            Seq::<OutLine>::empty()
        } else {
            emit_line(waiting, origin.deep_view(), line_at(t@, pos as int), t@.subrange(pos as int, e as int))
        };
        let ghost lines_before = out.lines();
        if !dropped {
            if waiting {
                out.push_marker(n);
            }
            out.push_text(origin, n, t, pos, e);
            waiting = false;
        }
        assert(out.lines() =~= lines_before + here);
        assert(out.lines().subrange(0, base.len() as int) =~= base);
        assert(out.lines().subrange(base.len() as int, out.lines().len() as int) =~= emitted + here);
        if e < b {
            proof {
                crate::text::lemma_line_span(t@, pos as int, e as int);
                lemma_line_step(t@, e as int);
            }
            let ghost next_rest = segment_lines(origin.deep_view(), t@, e + 1, b as int, false, trim_last, waiting);
            assert(rest == here + next_rest);
            assert(whole =~= (emitted + here) + next_rest);
            n = n + 1;
            pos = e + 1;
            first = false;
        } else {
            proof {
                crate::text::lemma_line_span(t@, pos as int, e as int);
            }
            assert(rest == here);
            assert(whole =~= emitted + here);
            assert(whole =~= out.lines().subrange(base.len() as int, out.lines().len() as int));
            assert(out.lines() =~= base + whole);
            return (waiting, n);
        }
    }
}

} // verus!
