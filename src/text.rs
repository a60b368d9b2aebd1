use vstd::prelude::*;
use vstd::utf8::{encode_scalar, encode_utf8};

verus! {

/// Whitespace that may separate the tokens of a directive; a line feed never does.
pub open spec fn is_blank(c: char) -> bool {
    c == ' ' || c == '\t' || c == '\r' || c == '\x0B' || c == '\x0C'
}

/// Every character of `s` is blank (true of the empty sequence).
pub open spec fn all_blank(s: Seq<char>) -> bool {
    forall|i: int| 0 <= i < s.len() ==> is_blank(#[trigger] s[i])
}

/// The number of line feeds in `s`.
pub open spec fn newlines(s: Seq<char>) -> nat
    decreases s.len(),
{
    if s.len() == 0 {
        0
    } else {
        newlines(s.drop_last()) + if s.last() == '\n' {
            1nat
        } else {
            0nat
        }
    }
}

/// The 0-based index of the line that holds position `p` of `t`.
pub open spec fn line_at(t: Seq<char>, p: int) -> nat {
    newlines(t.subrange(0, p))
}

/// The decimal digit for `d`, which is below ten.
pub open spec fn digit(d: nat) -> char {
    ((d + 48) as u8) as char
}

/// The decimal rendering of `n`, without leading zeros.
pub open spec fn decimal(n: nat) -> Seq<char>
    decreases n,
{
    if n < 10 {
        seq![digit(n)]
    } else {
        decimal(n / 10).push(digit(n % 10))
    }
}

pub proof fn lemma_newlines_bound(s: Seq<char>)
    ensures
        newlines(s) <= s.len(),
    decreases s.len(),
{
    if s.len() > 0 {
        lemma_newlines_bound(s.drop_last());
    }
}

/// Moving one position forward adds one line exactly when a line feed is passed.
pub proof fn lemma_line_step(t: Seq<char>, p: int)
    requires
        0 <= p < t.len(),
    ensures
        line_at(t, p + 1) == line_at(t, p) + if t[p] == '\n' {
            1nat
        } else {
            0nat
        },
        line_at(t, p + 1) <= p + 1,
{
    assert(t.subrange(0, p + 1).drop_last() =~= t.subrange(0, p));
    lemma_newlines_bound(t.subrange(0, p + 1));
}

/// Lines only go forward.
pub proof fn lemma_line_monotone(t: Seq<char>, a: int, b: int)
    requires
        0 <= a <= b <= t.len(),
    ensures
        line_at(t, a) <= line_at(t, b),
    decreases b - a,
{
    if a < b {
        lemma_line_monotone(t, a, b - 1);
        lemma_line_step(t, b - 1);
    }
}

/// A stretch without line feeds stays on one line.
pub proof fn lemma_line_span(t: Seq<char>, a: int, b: int)
    requires
        0 <= a <= b <= t.len(),
        forall|j: int| a <= j < b ==> t[j] != '\n',
    ensures
        line_at(t, b) == line_at(t, a),
    decreases b - a,
{
    if a < b {
        lemma_line_span(t, a, b - 1);
        lemma_line_step(t, b - 1);
    }
}

/// The position where the line holding position `p` starts: just after the last line
/// feed before `p`, or 0.
pub open spec fn line_start(t: Seq<char>, p: int) -> int
    decreases p,
{
    if p <= 0 {
        0
    } else if t[p - 1] == '\n' {
        p
    } else {
        line_start(t, p - 1)
    }
}

pub proof fn lemma_line_start(t: Seq<char>, p: int)
    requires
        0 <= p <= t.len(),
    ensures
        0 <= line_start(t, p) <= p,
    decreases p,
{
    if p > 0 && t[p - 1] != '\n' {
        lemma_line_start(t, p - 1);
    }
}

/// The UTF-8 encoding of `t[0..i]` is this many bytes long: the byte offset of position `i`.
pub open spec fn byte_at(t: Seq<char>, i: int) -> nat {
    encode_utf8(t.subrange(0, i)).len()
}

pub proof fn lemma_encode_concat(a: Seq<char>, b: Seq<char>)
    ensures
        encode_utf8(a + b) == encode_utf8(a) + encode_utf8(b),
    decreases a.len(),
{
    if a.len() == 0 {
        assert(a + b =~= b);
        assert(encode_utf8(a) + encode_utf8(b) =~= encode_utf8(b));
    } else {
        lemma_encode_concat(a.drop_first(), b);
        assert((a + b).drop_first() =~= a.drop_first() + b);
        assert((a + b)[0] == a[0]);
        assert(encode_utf8(a + b) =~= encode_utf8(a) + encode_utf8(b));
    }
}

/// One more character adds its encoding's width; no prefix encodes longer than the text.
pub proof fn lemma_byte_step(t: Seq<char>, i: int)
    requires
        0 <= i < t.len(),
    ensures
        byte_at(t, i + 1) == byte_at(t, i) + encode_scalar(t[i] as u32).len(),
        byte_at(t, i + 1) <= encode_utf8(t).len(),
{
    lemma_encode_concat(t.subrange(0, i), seq![t[i]]);
    assert(t.subrange(0, i + 1) =~= t.subrange(0, i) + seq![t[i]]);
    assert(seq![t[i]].drop_first() =~= Seq::<char>::empty());
    assert(seq![t[i]][0] == t[i]);
    assert(encode_utf8(Seq::<char>::empty()) =~= Seq::<u8>::empty());
    assert(encode_utf8(seq![t[i]]) == encode_scalar(t[i] as u32) + encode_utf8(
        seq![t[i]].drop_first(),
    ));
    assert(encode_utf8(seq![t[i]]) =~= encode_scalar(t[i] as u32));
    lemma_encode_concat(t.subrange(0, i + 1), t.subrange(i + 1, t.len() as int));
    assert(t =~= t.subrange(0, i + 1) + t.subrange(i + 1, t.len() as int));
}

/// The number of bytes UTF-8 takes for `c`.
pub fn utf8_width(c: char) -> (r: usize)
    ensures
        r == encode_scalar(c as u32).len(),
{
    proof {
        vstd::utf8::char_is_scalar(c);
    }
    let v = c as u32;
    assert(vstd::utf8::is_scalar(v));
    if v < 0x80 {
        assert(vstd::utf8::has_width_1_encoding(v));
        1
    } else if v < 0x800 {
        assert(vstd::utf8::has_width_2_encoding(v));
        2
    } else if v < 0x10000 {
        assert(vstd::utf8::has_width_3_encoding(v));
        3
    } else {
        assert(vstd::utf8::has_width_4_encoding(v));
        4
    }
}

/// Whether every character of `t[a..b]` is blank.
pub fn blank_range(t: &Vec<char>, a: usize, b: usize) -> (r: bool)
    requires
        a <= b <= t.len(),
    ensures
        r == all_blank(t@.subrange(a as int, b as int)),
{
    let mut j: usize = a;
    while j < b
        invariant
            a <= j <= b <= t.len(),
            forall|q: int| a <= q < j ==> is_blank(#[trigger] t@[q]),
        decreases b - j,
    {
        let c = t[j];
        if !(c == ' ' || c == '\t' || c == '\r' || c == '\x0B' || c == '\x0C') {
            assert(!is_blank(t@.subrange(a as int, b as int)[j - a]));
            return false;
        }
        j = j + 1;
    }
    assert forall|q: int| 0 <= q < b - a implies is_blank(
        #[trigger] t@.subrange(a as int, b as int)[q],
    ) by {
        assert(t@.subrange(a as int, b as int)[q] == t@[a + q]);
    }
    true
}

/// Relies on `String::push`, which appends one character at the end.
#[verifier::external_body]
pub(crate) fn push_char(s: &mut String, c: char)
    ensures
        final(s)@ == old(s)@.push(c),
{
    s.push(c);
}

/// The characters of `text`, in order.
pub fn chars_of(text: &str) -> (r: Vec<char>)
    ensures
        r@ == text@,
{
    let mut v: Vec<char> = Vec::new();
    for c in it: text.chars()
        invariant
            v@ == it.seq().take(it.index() as int),
            it.seq() == text@,
    {
        v.push(c);
    }
    v
}

/// Appends `t[from..to]` to `s`.
pub fn push_range(s: &mut String, t: &Vec<char>, from: usize, to: usize)
    requires
        from <= to <= t.len(),
    ensures
        final(s)@ == old(s)@ + t@.subrange(from as int, to as int),
{
    let mut i: usize = from;
    while i < to
        invariant
            from <= i <= to <= t.len(),
            s@ == old(s)@ + t@.subrange(from as int, i as int),
        decreases to - i,
    {
        push_char(s, t[i]);
        i = i + 1;
        assert(t@.subrange(from as int, i as int) =~= t@.subrange(from as int, i - 1).push(
            t@[i - 1],
        ));
    }
}

/// The string `t[from..to]`.
pub fn string_of_range(t: &Vec<char>, from: usize, to: usize) -> (r: String)
    requires
        from <= to <= t.len(),
    ensures
        r@ == t@.subrange(from as int, to as int),
{
    let mut s = String::new();
    push_range(&mut s, t, from, to);
    assert(s@ =~= t@.subrange(from as int, to as int));
    s
}

/// Appends the decimal rendering of `n` to `s`.
pub fn push_decimal(s: &mut String, n: usize)
    ensures
        final(s)@ == old(s)@ + decimal(n as nat),
    decreases n,
{
    if n >= 10 {
        push_decimal(s, n / 10);
    }
    let d: u8 = (n % 10) as u8;
    push_char(s, (d + 48) as char);
    assert(final(s)@ =~= old(s)@ + decimal(n as nat));
}

/// A copy of `s`.
pub fn copy_string(s: &String) -> (r: String)
    ensures
        r@ == s@,
{
    s.clone()
}

/// A copy of a list of strings.
pub fn copy_strings(v: &Vec<String>) -> (r: Vec<String>)
    ensures
        r.deep_view() == v.deep_view(),
{
    let mut r: Vec<String> = Vec::new();
    let mut i: usize = 0;
    while i < v.len()
        invariant
            i <= v.len(),
            r.deep_view() == v.deep_view().take(i as int),
        decreases v.len() - i,
    {
        let c = copy_string(&v[i]);
        let ghost before = r.deep_view();
        r.push(c);
        assert(r.deep_view() =~= before.push(c@));
        i = i + 1;
        assert(r.deep_view() =~= v.deep_view().take(i as int));
    }
    assert(v.deep_view().take(v.len() as int) =~= v.deep_view());
    r
}

/// Whether `s` is one of the strings of `v`.
pub fn holds_string(v: &Vec<String>, s: &String) -> (r: bool)
    ensures
        r == v.deep_view().contains(s@),
{
    let mut i: usize = 0;
    while i < v.len()
        invariant
            i <= v.len(),
            forall|j: int| 0 <= j < i ==> v.deep_view()[j] != s@,
        decreases v.len() - i,
    {
        if v[i] == *s {
            assert(v.deep_view()[i as int] == s@);
            return true;
        }
        i = i + 1;
    }
    false
}

} // verus!
