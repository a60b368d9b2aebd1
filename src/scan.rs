//! The directive scanner: finds `#include <name>`, `#include "name"` and
//! `#pragma include "name"` lines, skipping `//` and `/* */` comments.
use vstd::prelude::*;

use vstd::utf8::encode_utf8;

use crate::text::{
    all_blank, blank_range, byte_at, is_blank, lemma_byte_step, lemma_line_start, lemma_line_step,
    line_at, line_start, string_of_range, utf8_width,
};

verus! {

/// The optional keyword between `#` and the directive keyword.
pub open spec fn pragma_word() -> Seq<char> {
    seq!['p', 'r', 'a', 'g', 'm', 'a']
}

/// The directive keyword.
pub open spec fn directive_word() -> Seq<char> {
    seq!['i', 'n', 'c', 'l', 'u', 'd', 'e']
}

/// `w` is spelled out in `t` from position `i`.
pub open spec fn word_at(t: Seq<char>, i: int, w: Seq<char>) -> bool {
    0 <= i && i + w.len() <= t.len() && t.subrange(i, i + w.len()) == w
}

/// `w` stands at `i` as a whole token: spelled out and followed by a blank.
pub open spec fn token_at(t: Seq<char>, i: int, w: Seq<char>) -> bool {
    word_at(t, i, w) && i + w.len() < t.len() && is_blank(t[i + w.len()])
}

/// The first position at or after `i` that does not hold a blank.
pub open spec fn skip_blanks(t: Seq<char>, i: int) -> int
    decreases t.len() - i,
{
    if 0 <= i < t.len() && is_blank(t[i]) {
        skip_blanks(t, i + 1)
    } else {
        i
    }
}

/// The position of the first line feed at or after `i`, or the length of `t`.
pub open spec fn line_end(t: Seq<char>, i: int) -> int
    decreases t.len() - i,
{
    if i < 0 || i >= t.len() {
        t.len() as int
    } else if t[i] == '\n' {
        i
    } else {
        line_end(t, i + 1)
    }
}

/// The first position at or after `i` that holds `c` or a line feed, or the length of `t`.
pub open spec fn find_on_line(t: Seq<char>, i: int, c: char) -> int
    decreases t.len() - i,
{
    if i < 0 || i >= t.len() || t[i] == c || t[i] == '\n' {
        i
    } else {
        find_on_line(t, i + 1, c)
    }
}

/// The position just after the first `*/` that starts at or after `j`, or the length of `t`.
pub open spec fn block_end(t: Seq<char>, j: int) -> int
    decreases t.len() - j,
{
    if j < 0 || j + 1 >= t.len() {
        t.len() as int
    } else if t[j] == '*' && t[j + 1] == '/' {
        j + 2
    } else {
        block_end(t, j + 1)
    }
}

/// The delimiter that closes a name opened by `open`.
pub open spec fn closing(open: char) -> char {
    if open == '<' {
        '>'
    } else {
        '"'
    }
}

/// Nothing but blanks stands on `p`'s line before `p`.
pub open spec fn opens_line(t: Seq<char>, p: int) -> bool {
    all_blank(t.subrange(line_start(t, p), p))
}

/// The directive whose `#` stands at `p`, as (start of the name, end of the name, end
/// of the match): only blanks before the `#` on its line, then `#`, blanks, optionally
/// `pragma` and blanks, the directive keyword, at least one blank, then a name between
/// `<` and `>` or between two `"` on the same line. The match takes in the blanks
/// after the name too; whatever follows on the line stays text.
pub open spec fn match_at(t: Seq<char>, p: int) -> Option<(int, int, int)> {
    if opens_line(t, p) {
        match_after_hash(t, p)
    } else {
        None
    }
}

/// The part of `match_at` that reads from the `#` on.
pub open spec fn match_after_hash(t: Seq<char>, p: int) -> Option<(int, int, int)> {
    let a = skip_blanks(t, p + 1);
    let b = if token_at(t, a, pragma_word()) {
        skip_blanks(t, a + pragma_word().len())
    } else {
        a
    };
    if token_at(t, b, directive_word()) {
        let k = skip_blanks(t, b + directive_word().len());
        if 0 <= k < t.len() && (t[k] == '<' || t[k] == '"') {
            let c = find_on_line(t, k + 1, closing(t[k]));
            if c < t.len() && t[c] == closing(t[k]) {
                Some((k + 1, c, skip_blanks(t, c + 1)))
            } else {
                None
            }
        } else {
            None
        }
    } else {
        None
    }
}

/// A directive found in a text. `start`, `end` and `line_end` are positions in the
/// text's characters; the `byte_` fields are the same positions as UTF-8 byte offsets.
pub struct DirectiveView {
    /// The name between the delimiters.
    pub name: Seq<char>,
    /// The 0-based line of the `#`.
    pub line: nat,
    /// The position of the `#`.
    pub start: int,
    /// The position just after the match.
    pub end: int,
    /// The position of the line feed that ends the directive's line, or the text's length.
    pub line_end: int,
    /// The byte offset of the `#`.
    pub byte_start: nat,
    /// The byte offset just after the match.
    pub byte_end: nat,
    /// The byte offset of the line's end.
    pub byte_line_end: nat,
}

/// The end of the match at `p` (just after `p` where nothing matches).
pub open spec fn match_end(t: Seq<char>, p: int) -> int {
    match match_at(t, p) {
        Some((_, _, e)) => e,
        None => p + 1,
    }
}

/// The directive whose `#` stands at `p`, once `match_at(t, p)` has matched.
pub open spec fn found_at(t: Seq<char>, p: int) -> DirectiveView {
    let (name_start, name_end, end) = match_at(t, p)->0;
    DirectiveView {
        name: t.subrange(name_start, name_end),
        line: line_at(t, p),
        start: p,
        end: end,
        line_end: line_end(t, p),
        byte_start: byte_at(t, p),
        byte_end: byte_at(t, end),
        byte_line_end: byte_at(t, line_end(t, p)),
    }
}

/// The directives of `t` from position `i` on, in order. Comments are skipped whole:
/// a `//` comment runs to the end of its line, a `/* */` comment to the first `*/`
/// after its opening. After a `#` that does not start a directive, scanning goes on
/// just after the `#`; after a directive, just after its match.
pub open spec fn scan(t: Seq<char>, i: int) -> Seq<DirectiveView>
    decreases t.len() - i,
{
    if i < 0 || i >= t.len() {
        seq![]
    } else if t[i] == '/' && i + 1 < t.len() && t[i + 1] == '*' {
        proof {
            lemma_block_end(t, i + 2);
        }
        scan(t, block_end(t, i + 2))
    } else if t[i] == '/' && i + 1 < t.len() && t[i + 1] == '/' {
        proof {
            lemma_line_end(t, i + 2);
        }
        scan(t, line_end(t, i + 2))
    } else if t[i] == '#' && match_at(t, i) is Some {
        proof {
            lemma_match_at(t, i);
        }
        seq![found_at(t, i)] + scan(t, match_end(t, i))
    } else {
        scan(t, i + 1)
    }
}

/// The directives of a whole text.
pub open spec fn directives_of(t: Seq<char>) -> Seq<DirectiveView> {
    scan(t, 0)
}

pub proof fn lemma_skip_blanks(t: Seq<char>, i: int)
    requires
        0 <= i <= t.len(),
    ensures
        i <= skip_blanks(t, i) <= t.len(),
        forall|j: int| i <= j < skip_blanks(t, i) ==> is_blank(#[trigger] t[j]),
        skip_blanks(t, i) < t.len() ==> !is_blank(t[skip_blanks(t, i)]),
    decreases t.len() - i,
{
    if i < t.len() && is_blank(t[i]) {
        lemma_skip_blanks(t, i + 1);
    }
}

pub proof fn lemma_line_end(t: Seq<char>, i: int)
    requires
        0 <= i <= t.len(),
    ensures
        i <= line_end(t, i) <= t.len(),
        forall|j: int| i <= j < line_end(t, i) ==> #[trigger] t[j] != '\n',
        line_end(t, i) < t.len() ==> t[line_end(t, i)] == '\n',
    decreases t.len() - i,
{
    if i < t.len() && t[i] != '\n' {
        lemma_line_end(t, i + 1);
    }
}

pub proof fn lemma_find_on_line(t: Seq<char>, i: int, c: char)
    requires
        0 <= i <= t.len(),
    ensures
        i <= find_on_line(t, i, c) <= t.len(),
        forall|j: int|
            i <= j < find_on_line(t, i, c) ==> #[trigger] t[j] != c && t[j] != '\n',
    decreases t.len() - i,
{
    if i < t.len() && t[i] != c && t[i] != '\n' {
        lemma_find_on_line(t, i + 1, c);
    }
}

pub proof fn lemma_block_end(t: Seq<char>, j: int)
    requires
        0 <= j <= t.len(),
    ensures
        j <= block_end(t, j) <= t.len(),
    decreases t.len() - j,
{
    if j + 1 < t.len() && !(t[j] == '*' && t[j + 1] == '/') {
        lemma_block_end(t, j + 1);
    }
}

/// A match lies within the text, after its `#`.
pub proof fn lemma_match_at(t: Seq<char>, p: int)
    requires
        0 <= p < t.len(),
        match_at(t, p) is Some,
    ensures
        ({
            let (name_start, name_end, end) = match_at(t, p)->0;
            p < name_start <= name_end < end <= t.len()
        }),
        match_end(t, p) == found_at(t, p).end,
{
    lemma_skip_blanks(t, p + 1);
    let a = skip_blanks(t, p + 1);
    if token_at(t, a, pragma_word()) {
        lemma_skip_blanks(t, a + pragma_word().len());
    }
    let b = if token_at(t, a, pragma_word()) {
        skip_blanks(t, a + pragma_word().len())
    } else {
        a
    };
    lemma_skip_blanks(t, b + directive_word().len());
    let k = skip_blanks(t, b + directive_word().len());
    lemma_find_on_line(t, k + 1, closing(t[k]));
    let c = find_on_line(t, k + 1, closing(t[k]));
    lemma_skip_blanks(t, c + 1);
}

/// What holds of every directive that `scan(t, i)` finds, and of two that follow each other.
pub proof fn lemma_scan_facts(t: Seq<char>, i: int)
    requires
        0 <= i,
    ensures
        forall|k: int|
            0 <= k < scan(t, i).len() ==> {
                let d = #[trigger] scan(t, i)[k];
                &&& i <= d.start < d.end <= t.len()
                &&& t[d.start] == '#'
                &&& d.line == line_at(t, d.start)
                &&& d.line_end == line_end(t, d.start)
            },
        forall|k: int|
            0 <= k < scan(t, i).len() - 1 ==> #[trigger] scan(t, i)[k].end <= scan(t, i)[k
                + 1].start,
    decreases t.len() - i,
{
    if i >= t.len() {
    } else if t[i] == '/' && i + 1 < t.len() && t[i + 1] == '*' {
        lemma_block_end(t, i + 2);
        lemma_scan_facts(t, block_end(t, i + 2));
        assert(scan(t, i) == scan(t, block_end(t, i + 2)));
    } else if t[i] == '/' && i + 1 < t.len() && t[i + 1] == '/' {
        lemma_line_end(t, i + 2);
        lemma_scan_facts(t, line_end(t, i + 2));
        assert(scan(t, i) == scan(t, line_end(t, i + 2)));
    } else if t[i] == '#' && match_at(t, i) is Some {
        lemma_match_at(t, i);
        let e = match_end(t, i);
        lemma_scan_facts(t, e);
        let s = scan(t, i);
        let rest = scan(t, e);
        assert(s == seq![found_at(t, i)] + rest);
        assert forall|k: int| 0 <= k < s.len() - 1 implies #[trigger] s[k].end <= s[k + 1].start by {
            if k > 0 {
                assert(s[k] == rest[k - 1]);
                assert(s[k + 1] == rest[k]);
            } else {
                assert(s[1] == rest[0]);
            }
        }
        assert forall|k: int| 0 <= k < s.len() implies {
            let d = #[trigger] s[k];
            &&& i <= d.start < d.end <= t.len()
            &&& t[d.start] == '#'
            &&& d.line == line_at(t, d.start)
            &&& d.line_end == line_end(t, d.start)
        } by {
            if k > 0 {
                assert(s[k] == rest[k - 1]);
            }
        }
    } else {
        lemma_scan_facts(t, i + 1);
        assert(scan(t, i) == scan(t, i + 1));
    }
}

/// A `//` comment hides the rest of its line: where the scanner meets `//` at `i`,
/// every directive it goes on to find starts after the line feed that ends the comment.
pub proof fn lemma_line_comment_hides(t: Seq<char>, i: int)
    requires
        0 <= i,
        i + 1 < t.len(),
        t[i] == '/',
        t[i + 1] == '/',
    ensures
        forall|k: int|
            0 <= k < scan(t, i).len() ==> line_end(t, i + 2) < #[trigger] scan(t, i)[k].start,
{
    lemma_line_end(t, i + 2);
    let p = line_end(t, i + 2);
    assert(scan(t, i) == scan(t, p));
    lemma_scan_facts(t, p);
}

/// A `/* */` comment hides what it holds: where the scanner meets `/*` at `i`, every
/// directive it goes on to find starts after the first `*/` that follows.
pub proof fn lemma_block_comment_hides(t: Seq<char>, i: int)
    requires
        0 <= i,
        i + 1 < t.len(),
        t[i] == '/',
        t[i + 1] == '*',
    ensures
        forall|k: int|
            0 <= k < scan(t, i).len() ==> block_end(t, i + 2) <= #[trigger] scan(t, i)[k].start,
{
    lemma_block_end(t, i + 2);
    let p = block_end(t, i + 2);
    assert(scan(t, i) == scan(t, p));
    lemma_scan_facts(t, p);
}

/// `block_end` finds the first `*/` from `j` on.
proof fn lemma_block_end_at(t: Seq<char>, j: int, q: int)
    requires
        0 <= j <= q,
        q + 1 < t.len(),
        t[q] == '*',
        t[q + 1] == '/',
        forall|p: int| j <= p < q ==> !(#[trigger] t[p] == '*' && t[p + 1] == '/'),
    ensures
        block_end(t, j) == q + 2,
    decreases q - j,
{
    if j < q {
        lemma_block_end_at(t, j + 1, q);
    }
}

/// A text that opens with a `//` comment: no directive written in the comment is found.
pub proof fn lemma_leading_line_comment(body: Seq<char>, rest: Seq<char>)
    requires
        !body.contains('\n'),
    ensures
        ({
            let t = seq!['/', '/'] + body + seq!['\n'] + rest;
            forall|k: int|
                0 <= k < directives_of(t).len() ==> body.len() + 2 < #[trigger] directives_of(
                    t,
                )[k].start
        }),
{
    let t = seq!['/', '/'] + body + seq!['\n'] + rest;
    let p = body.len() + 2int;
    assert(t[p] == '\n');
    lemma_line_end(t, 2);
    if line_end(t, 2) < p {
        assert(t[line_end(t, 2)] == body[line_end(t, 2) - 2]);
    }
    assert(line_end(t, 2) == p);
    lemma_line_comment_hides(t, 0);
}

/// A text that opens with a `/* */` comment: no directive written in the comment is found.
pub proof fn lemma_leading_block_comment(body: Seq<char>, rest: Seq<char>)
    requires
        forall|j: int| 0 <= j < body.len() - 1 ==> !(#[trigger] body[j] == '*' && body[j + 1] == '/'),
    ensures
        ({
            let t = seq!['/', '*'] + body + seq!['*', '/'] + rest;
            forall|k: int|
                0 <= k < directives_of(t).len() ==> body.len() + 4 <= #[trigger] directives_of(
                    t,
                )[k].start
        }),
{
    let t = seq!['/', '*'] + body + seq!['*', '/'] + rest;
    let q = body.len() + 2int;
    assert forall|p: int| 2 <= p < q implies !(#[trigger] t[p] == '*' && t[p + 1] == '/') by {
        assert(t[p] == body[p - 2]);
        if p + 1 < q {
            assert(t[p + 1] == body[p - 1]);
        }
    }
    lemma_block_end_at(t, 2, q);
    lemma_block_comment_hides(t, 0);
}

/// A directive found in a text: the name it refers to and where it stands. The public
/// offsets are UTF-8 byte offsets into the text, so that `&text[start..end]` is the
/// matched span.
pub struct Directive {
    /// The name between the delimiters.
    pub included_file: String,
    /// The 0-based line of the `#`.
    pub line_num: usize,
    /// The byte offset of the `#`.
    pub start: usize,
    /// The byte offset just after the match, blanks after the name included.
    pub end: usize,
    /// The byte offset of the line feed that ends the directive's line, or the text's length.
    pub line_end: usize,
    /// The character position of the `#`.
    pub char_start: usize,
    /// The character position just after the match.
    pub char_end: usize,
    /// The character position of the line's end.
    pub char_line_end: usize,
}

impl View for Directive {
    type V = DirectiveView;

    open spec fn view(&self) -> DirectiveView {
        DirectiveView {
            name: self.included_file@,
            line: self.line_num as nat,
            start: self.char_start as int,
            end: self.char_end as int,
            line_end: self.char_line_end as int,
            byte_start: self.start as nat,
            byte_end: self.end as nat,
            byte_line_end: self.line_end as nat,
        }
    }
}

/// The views of a list of directives.
pub open spec fn views_of(ds: Seq<Directive>) -> Seq<DirectiveView> {
    ds.map_values(|d: Directive| d@)
}

fn is_blank_char(c: char) -> (r: bool)
    ensures
        r == is_blank(c),
{
    c == ' ' || c == '\t' || c == '\r' || c == '\x0B' || c == '\x0C'
}

fn skip_blanks_from(t: &Vec<char>, i: usize) -> (r: usize)
    requires
        i <= t.len(),
    ensures
        r == skip_blanks(t@, i as int),
{
    let mut j: usize = i;
    while j < t.len() && is_blank_char(t[j])
        invariant
            i <= j <= t.len(),
            skip_blanks(t@, j as int) == skip_blanks(t@, i as int),
        decreases t.len() - j,
    {
        j = j + 1;
    }
    j
}

fn line_end_from(t: &Vec<char>, i: usize) -> (r: usize)
    requires
        i <= t.len(),
    ensures
        r == line_end(t@, i as int),
{
    let mut j: usize = i;
    while j < t.len() && t[j] != '\n'
        invariant
            i <= j <= t.len(),
            line_end(t@, j as int) == line_end(t@, i as int),
        decreases t.len() - j,
    {
        j = j + 1;
    }
    j
}

fn find_on_line_from(t: &Vec<char>, i: usize, c: char) -> (r: usize)
    requires
        i <= t.len(),
    ensures
        r == find_on_line(t@, i as int, c),
{
    let mut j: usize = i;
    while j < t.len() && t[j] != c && t[j] != '\n'
        invariant
            i <= j <= t.len(),
            find_on_line(t@, j as int, c) == find_on_line(t@, i as int, c),
        decreases t.len() - j,
    {
        j = j + 1;
    }
    j
}

fn block_end_from(t: &Vec<char>, i: usize) -> (r: usize)
    requires
        i <= t.len(),
    ensures
        r == block_end(t@, i as int),
{
    let mut j: usize = i;
    while t.len() - j > 1
        invariant
            i <= j <= t.len(),
            block_end(t@, j as int) == block_end(t@, i as int),
        decreases t.len() - j,
    {
        if t[j] == '*' && t[j + 1] == '/' {
            return j + 2;
        }
        j = j + 1;
    }
    t.len()
}

/// Whether `w` stands at `i` of `t` as a whole token.
fn token_at_exec(t: &Vec<char>, i: usize, w: &Vec<char>) -> (r: bool)
    requires
        i <= t.len(),
    ensures
        r == token_at(t@, i as int, w@),
{
    if w.len() >= t.len() - i {
        return false;
    }
    let mut j: usize = 0;
    while j < w.len()
        invariant
            j <= w.len(),
            i + w.len() < t.len(),
            forall|q: int| 0 <= q < j ==> t@[i + q] == w@[q],
        decreases w.len() - j,
    {
        if t[i + j] != w[j] {
            assert(t@.subrange(i as int, i + w.len())[j as int] != w@[j as int]);
            return false;
        }
        j = j + 1;
    }
    assert(t@.subrange(i as int, i + w.len()) =~= w@);
    is_blank_char(t[i + w.len()])
}

/// The match of a directive whose `#` stands at `p`, on the line that starts at
/// `start`, as `match_at` states it.
fn match_from(t: &Vec<char>, p: usize, start: usize) -> (r: Option<(usize, usize, usize)>)
    requires
        p < t.len(),
        start == line_start(t@, p as int),
    ensures
        r matches Some((a, b, c)) ==> match_at(t@, p as int) == Some((a as int, b as int, c as int)),
        r is None ==> match_at(t@, p as int) is None,
{
    proof {
        lemma_line_start(t@, p as int);
    }
    if !blank_range(t, start, p) {
        return None;
    }
    proof {
        lemma_skip_blanks(t@, p + 1);
    }
    let pragma: Vec<char> = vec!['p', 'r', 'a', 'g', 'm', 'a'];
    let keyword: Vec<char> = vec!['i', 'n', 'c', 'l', 'u', 'd', 'e'];
    assert(pragma@ == pragma_word());
    assert(keyword@ == directive_word());
    let a = skip_blanks_from(t, p + 1);
    let b = if token_at_exec(t, a, &pragma) {
        proof {
            lemma_skip_blanks(t@, a + pragma.len());
        }
        skip_blanks_from(t, a + pragma.len())
    } else {
        a
    };
    proof {
        lemma_skip_blanks(t@, b as int);
    }
    if !token_at_exec(t, b, &keyword) {
        return None;
    }
    proof {
        lemma_skip_blanks(t@, b + keyword.len());
    }
    let k = skip_blanks_from(t, b + keyword.len());
    if k >= t.len() || !(t[k] == '<' || t[k] == '"') {
        return None;
    }
    let close = if t[k] == '<' {
        '>'
    } else {
        '"'
    };
    proof {
        lemma_find_on_line(t@, k + 1, close);
    }
    let c = find_on_line_from(t, k + 1, close);
    if c >= t.len() || t[c] != close {
        return None;
    }
    proof {
        lemma_skip_blanks(t@, c + 1);
    }
    let e = skip_blanks_from(t, c + 1);
    Some((k + 1, c, e))
}

/// The line of position `to`, given the line of position `from`.
pub fn advance_line(t: &Vec<char>, from: usize, to: usize, line: usize) -> (r: usize)
    requires
        from <= to <= t.len(),
        line == line_at(t@, from as int),
    ensures
        r == line_at(t@, to as int),
{
    let mut i: usize = from;
    let mut n: usize = line;
    while i < to
        invariant
            from <= i <= to <= t.len(),
            n == line_at(t@, i as int),
        decreases to - i,
    {
        proof {
            lemma_line_step(t@, i as int);
        }
        if t[i] == '\n' {
            n = n + 1;
        }
        i = i + 1;
    }
    n
}

/// The byte offset of position `to`, given that of position `from`.
fn advance_byte(t: &Vec<char>, from: usize, to: usize, byte: usize) -> (r: usize)
    requires
        from <= to <= t.len(),
        byte == byte_at(t@, from as int),
        encode_utf8(t@).len() <= usize::MAX,
    ensures
        r == byte_at(t@, to as int),
{
    let mut i: usize = from;
    let mut b: usize = byte;
    while i < to
        invariant
            from <= i <= to <= t.len(),
            b == byte_at(t@, i as int),
            encode_utf8(t@).len() <= usize::MAX,
        decreases to - i,
    {
        proof {
            lemma_byte_step(t@, i as int);
        }
        b = b + utf8_width(t[i]);
        i = i + 1;
    }
    b
}

/// The scanning of a text for directives, one at a time.
pub struct Directives {
    chars: Vec<char>,
    cursor: usize,
    line: usize,
    line_start: usize,
    byte: usize,
}

impl Directives {
    /// The text being scanned.
    pub closed spec fn source(&self) -> Seq<char> {
        self.chars@
    }

    /// The directives not yet handed out, in order.
    pub closed spec fn remaining(&self) -> Seq<DirectiveView> {
        scan(self.chars@, self.cursor as int)
    }

    pub closed spec fn wf(&self) -> bool {
        &&& self.cursor <= self.chars.len()
        &&& self.line == line_at(self.chars@, self.cursor as int)
        &&& self.line_start == line_start(self.chars@, self.cursor as int)
        &&& self.byte == byte_at(self.chars@, self.cursor as int)
        &&& encode_utf8(self.chars@).len() <= usize::MAX
    }

    /// Starts scanning `chars` from its beginning.
    pub fn new(chars: &str) -> (r: Self)
        ensures
            r.wf(),
            r.source() == chars@,
            r.remaining() == directives_of(chars@),
    {
        let bytes = chars.as_bytes();
        let _ = bytes.len();
        let text = crate::text::chars_of(chars);
        let r = Directives { chars: text, cursor: 0, line: 0, line_start: 0, byte: 0 };
        assert(r.chars@.subrange(0, 0) =~= Seq::<char>::empty());
        assert(encode_utf8(Seq::<char>::empty()) =~= Seq::<u8>::empty());
        r
    }

    /// Moves the cursor forward to `to`, counting the lines and bytes passed.
    fn move_to(&mut self, to: usize)
        requires
            old(self).wf(),
            old(self).cursor <= to <= old(self).chars.len(),
        ensures
            final(self).wf(),
            final(self).chars@ == old(self).chars@,
            final(self).cursor == to,
    {
        while self.cursor < to
            invariant
                self.wf(),
                self.chars@ == old(self).chars@,
                self.cursor <= to <= self.chars.len(),
            decreases to - self.cursor,
        {
            let i = self.cursor;
            proof {
                lemma_line_step(self.chars@, i as int);
                lemma_byte_step(self.chars@, i as int);
            }
            let c = self.chars[i];
            if c == '\n' {
                self.line = self.line + 1;
                self.line_start = i + 1;
            }
            self.byte = self.byte + utf8_width(c);
            self.cursor = i + 1;
        }
    }

    /// Hands out the next directive, if any is left.
    pub fn next_directive(&mut self) -> (r: Option<Directive>)
        requires
            old(self).wf(),
        ensures
            final(self).wf(),
            final(self).source() == old(self).source(),
            match r {
                None => old(self).remaining().len() == 0 && final(self).remaining().len() == 0,
                Some(d) => {
                    &&& old(self).remaining().len() > 0
                    &&& d@ == old(self).remaining()[0]
                    &&& final(self).remaining() == old(self).remaining().drop_first()
                },
            },
    {
        let ghost t = self.chars@;
        loop
            invariant
                self.wf(),
                self.chars@ == t,
                t == old(self).chars@,
                scan(t, self.cursor as int) == scan(t, old(self).cursor as int),
            decreases t.len() - self.cursor,
        {
            let i = self.cursor;
            if i >= self.chars.len() {
                return None;
            }
            if self.chars[i] == '/' && i + 1 < self.chars.len() && self.chars[i + 1] == '*' {
                proof {
                    lemma_block_end(t, i + 2);
                }
                let j = block_end_from(&self.chars, i + 2);
                self.move_to(j);
            } else if self.chars[i] == '/' && i + 1 < self.chars.len() && self.chars[i + 1] == '/' {
                proof {
                    lemma_line_end(t, i + 2);
                }
                let j = line_end_from(&self.chars, i + 2);
                self.move_to(j);
            } else if self.chars[i] == '#' {
                match match_from(&self.chars, i, self.line_start) {
                    Some((name_start, name_end, end)) => {
                        proof {
                            lemma_match_at(t, i as int);
                            lemma_line_end(t, i as int);
                        }
                        let name = string_of_range(&self.chars, name_start, name_end);
                        let line_num = self.line;
                        let start_byte = self.byte;
                        let line_end = line_end_from(&self.chars, i);
                        let line_end_byte = advance_byte(&self.chars, i, line_end, start_byte);
                        self.move_to(end);
                        let d = Directive {
                            included_file: name,
                            line_num,
                            start: start_byte,
                            end: self.byte,
                            line_end: line_end_byte,
                            char_start: i,
                            char_end: end,
                            char_line_end: line_end,
                        };
                        assert(d@ == found_at(t, i as int));
                        return Some(d);
                    },
                    None => {
                        self.move_to(i + 1);
                    },
                }
            } else {
                self.move_to(i + 1);
            }
        }
    }

    /// Hands out all the directives that are left, in order.
    pub fn collect_all(&mut self) -> (r: Vec<Directive>)
        requires
            old(self).wf(),
        ensures
            final(self).wf(),
            final(self).source() == old(self).source(),
            views_of(r@) == old(self).remaining(),
            final(self).remaining().len() == 0,
    {
        let mut r: Vec<Directive> = Vec::new();
        loop
            invariant
                self.wf(),
                self.source() == old(self).source(),
                old(self).remaining() == views_of(r@) + self.remaining(),
            decreases self.remaining().len(),
        {
            let ghost before = self.remaining();
            match self.next_directive() {
                None => {
                    assert(old(self).remaining() =~= views_of(r@));
                    return r;
                },
                Some(d) => {
                    let ghost seen = views_of(r@);
                    r.push(d);
                    assert(views_of(r@) =~= seen.push(d@));
                    assert(old(self).remaining() =~= views_of(r@) + self.remaining());
                },
            }
        }
    }
}

/// All the directives of `text`, in order.
pub fn directives_in(text: &str) -> (r: Vec<Directive>)
    ensures
        views_of(r@) == directives_of(text@),
{
    let mut scanner = Directives::new(text);
    scanner.collect_all()
}

} // verus!
