//! Character-level helpers shared by the cell parsers: white space, trimming
//! and the null marker.
//!
//! Cell text is modelled as `Seq<char>`. The executable functions work on
//! `Vec<char>`, which [`chars_of`] obtains from a `&str` and [`string_of`]
//! turns back into a `String`.

use vstd::prelude::*;

verus! {

/// `String::push` appends one character to the text.
pub assume_specification[ String::push ](s: &mut String, c: char)
    ensures
        final(s)@ == old(s)@.push(c),
;

/// Whether `c` is white space: the code points with the Unicode property
/// `White_Space`.
pub open spec fn is_space(c: char) -> bool {
    let n = c as u32;
    ||| 0x09 <= n <= 0x0d
    ||| n == 0x20
    ||| n == 0x85
    ||| n == 0xa0
    ||| n == 0x1680
    ||| 0x2000 <= n <= 0x200a
    ||| n == 0x2028
    ||| n == 0x2029
    ||| n == 0x202f
    ||| n == 0x205f
    ||| n == 0x3000
}

/// `s` without its leading white space.
pub open spec fn trim_start(s: Seq<char>) -> Seq<char>
    decreases s.len(),
{
    if s.len() > 0 && is_space(s.first()) {
        trim_start(s.drop_first())
    } else {
        s
    }
}

/// `s` without its trailing white space.
pub open spec fn trim_end(s: Seq<char>) -> Seq<char>
    decreases s.len(),
{
    if s.len() > 0 && is_space(s.last()) {
        trim_end(s.drop_last())
    } else {
        s
    }
}

/// `s` without the white space at either end.
pub open spec fn trimmed(s: Seq<char>) -> Seq<char> {
    trim_end(trim_start(s))
}

/// The null marker: the four letters `null`, in lower case.
pub open spec fn null_marker() -> Seq<char> {
    seq!['n', 'u', 'l', 'l']
}

/// Whether a cell counts as missing: once trimmed it is empty or the null
/// marker.
pub open spec fn is_missing(s: Seq<char>) -> bool {
    trimmed(s).len() == 0 || trimmed(s) == null_marker()
}

/// Whether every character of `s` is white space.
pub open spec fn all_space(s: Seq<char>) -> bool {
    forall|i: int| 0 <= i < s.len() ==> is_space(#[trigger] s[i])
}

/// Trimming removes nothing from a text that begins and ends with a
/// character other than white space, nor from the empty text.
pub proof fn lemma_trimmed_fixed(s: Seq<char>)
    requires
        s.len() > 0 ==> !is_space(s.first()) && !is_space(s.last()),
    ensures
        trimmed(s) == s,
{
}

/// Trimming a text twice gives what trimming it once gives: a trimmed
/// cell is left as it is when it is read again.
pub proof fn lemma_trimmed_idempotent(s: Seq<char>)
    ensures
        trimmed(trimmed(s)) == trimmed(s),
{
    lemma_trimmed_ends(s);
    lemma_trimmed_fixed(trimmed(s));
}

/// A trimmed text is empty or has a character other than white space at
/// both ends, and it is a contiguous part of the text it was made from.
pub proof fn lemma_trimmed_ends(s: Seq<char>)
    ensures
        trimmed(s).len() > 0 ==> !is_space(trimmed(s).first()) && !is_space(trimmed(s).last()),
        exists|lo: int, hi: int| 0 <= lo <= hi <= s.len() && trimmed(s) == #[trigger] s.subrange(lo, hi),
{
    lemma_trim_start_shape(s);
    let lo = choose|lo: int| 0 <= lo <= s.len() && trim_start(s) == s.skip(lo);
    let t = s.skip(lo);
    lemma_trim_end_shape(t);
    let n = choose|n: int| 0 <= n <= t.len() && trim_end(t) == t.take(n);
    assert(t.take(n) == s.subrange(lo, lo + n));
    if trimmed(s).len() > 0 {
        assert(t.len() > 0);
        assert(t.take(n).first() == t.first());
    }
}

/// What `trim_start` leaves is a suffix that does not begin with white
/// space, and everything it dropped is white space.
pub proof fn lemma_trim_start_shape(s: Seq<char>)
    ensures
        trim_start(s).len() > 0 ==> !is_space(trim_start(s).first()),
        exists|lo: int|
            0 <= lo <= s.len() && trim_start(s) == #[trigger] s.skip(lo) && all_space(s.take(lo)),
    decreases s.len(),
{
    if s.len() > 0 && is_space(s.first()) {
        let r = s.drop_first();
        lemma_trim_start_shape(r);
        let k = choose|k: int| 0 <= k <= r.len() && trim_start(r) == r.skip(k) && all_space(r.take(k));
        assert(r.skip(k) == s.skip(k + 1));
        assert forall|i: int| 0 <= i < k + 1 implies is_space(#[trigger] s.take(k + 1)[i]) by {
            if i > 0 {
                assert(s.take(k + 1)[i] == r.take(k)[i - 1]);
            }
        }
    } else {
        assert(s.skip(0) == s);
        assert(all_space(s.take(0)));
    }
}

/// What `trim_end` leaves is a prefix that does not end with white space,
/// and everything it dropped is white space.
pub proof fn lemma_trim_end_shape(s: Seq<char>)
    ensures
        trim_end(s).len() > 0 ==> !is_space(trim_end(s).last()),
        exists|n: int|
            0 <= n <= s.len() && trim_end(s) == #[trigger] s.take(n) && all_space(s.skip(n)),
    decreases s.len(),
{
    if s.len() > 0 && is_space(s.last()) {
        let r = s.drop_last();
        lemma_trim_end_shape(r);
        let k = choose|k: int| 0 <= k <= r.len() && trim_end(r) == r.take(k) && all_space(r.skip(k));
        assert(r.take(k) == s.take(k));
        assert forall|i: int| 0 <= i < s.len() - k implies is_space(#[trigger] s.skip(k)[i]) by {
            if i < r.len() - k {
                assert(s.skip(k)[i] == r.skip(k)[i]);
            }
        }
    } else {
        assert(s.take(s.len() as int) == s);
        assert(all_space(s.skip(s.len() as int)));
    }
}

/// Trimming a text whose characters are all white space leaves nothing.
pub proof fn lemma_trim_start_all_space(s: Seq<char>)
    requires
        all_space(s),
    ensures
        trim_start(s).len() == 0,
    decreases s.len(),
{
    if s.len() > 0 {
        assert(is_space(s[0]));
        let r = s.drop_first();
        assert forall|i: int| 0 <= i < r.len() implies is_space(#[trigger] r[i]) by {
            assert(r[i] == s[i + 1]);
        }
        lemma_trim_start_all_space(r);
    }
}

/// Leading white space in front of a text is trimmed away.
pub proof fn lemma_trim_start_prefix(pad: Seq<char>, s: Seq<char>)
    requires
        all_space(pad),
    ensures
        trim_start(pad + s) == trim_start(s),
    decreases pad.len(),
{
    if pad.len() == 0 {
        assert(pad + s == s);
    } else {
        assert((pad + s).first() == pad[0]);
        assert((pad + s).drop_first() == pad.drop_first() + s);
        let r = pad.drop_first();
        assert forall|i: int| 0 <= i < r.len() implies is_space(#[trigger] r[i]) by {
            assert(r[i] == pad[i + 1]);
        }
        lemma_trim_start_prefix(r, s);
    }
}

/// Trailing white space behind a text is trimmed away.
pub proof fn lemma_trim_end_suffix(s: Seq<char>, pad: Seq<char>)
    requires
        all_space(pad),
    ensures
        trim_end(s + pad) == trim_end(s),
    decreases pad.len(),
{
    if pad.len() == 0 {
        assert(s + pad == s);
    } else {
        assert((s + pad).last() == pad.last());
        assert((s + pad).drop_last() == s + pad.drop_last());
        let r = pad.drop_last();
        assert forall|i: int| 0 <= i < r.len() implies is_space(#[trigger] r[i]) by {
            assert(r[i] == pad[i]);
        }
        lemma_trim_end_suffix(s, r);
    }
}

/// White space around a core that has none at its own ends is exactly what
/// trimming removes.
pub proof fn lemma_trimmed_padded(left: Seq<char>, core: Seq<char>, right: Seq<char>)
    requires
        all_space(left),
        all_space(right),
        core.len() > 0 ==> !is_space(core.first()) && !is_space(core.last()),
    ensures
        trimmed(left + core + right) == core,
{
    assert(left + core + right == left + (core + right));
    lemma_trim_start_prefix(left, core + right);
    if core.len() > 0 {
        assert((core + right).first() == core.first());
        lemma_trim_end_suffix(core, right);
    } else {
        assert(core + right == right);
        lemma_trim_start_all_space(right);
    }
}

/// Whether `c` is white space.
pub fn is_space_char(c: char) -> (b: bool)
    ensures
        b == is_space(c),
{
    let n: u32 = c as u32;
    (0x09 <= n && n <= 0x0d) || n == 0x20 || n == 0x85 || n == 0xa0 || n == 0x1680 || (0x2000 <= n
        && n <= 0x200a) || n == 0x2028 || n == 0x2029 || n == 0x202f || n == 0x205f || n == 0x3000
}

/// The characters of `s`, in order.
pub fn chars_of(s: &str) -> (v: Vec<char>)
    ensures
        v@ == s@,
{
    let mut v: Vec<char> = Vec::new();
    for c in it: s.chars()
        invariant
            v@ == it.seq().take(it.index()),
            it.seq() == s@,
    {
        v.push(c);
    }
    v
}

/// The text made of the characters of `v`, in order.
pub fn string_of(v: &Vec<char>) -> (s: String)
    ensures
        s@ == v@,
{
    let mut s = String::new();
    let mut i: usize = 0;
    while i < v.len()
        invariant
            i <= v.len(),
            s@ == v@.take(i as int),
        decreases v.len() - i,
    {
        s.push(v[i]);
        i += 1;
        assert(v@.take(i as int) == v@.take(i - 1).push(v@[i - 1]));
    }
    assert(v@.take(v.len() as int) == v@);
    s
}

/// A copy of the characters of `v` from `lo` up to `hi`.
pub fn chars_between(v: &Vec<char>, lo: usize, hi: usize) -> (out: Vec<char>)
    requires
        lo <= hi <= v.len(),
    ensures
        out@ == v@.subrange(lo as int, hi as int),
{
    let mut out: Vec<char> = Vec::new();
    let mut i: usize = lo;
    while i < hi
        invariant
            lo <= i <= hi <= v.len(),
            out@ == v@.subrange(lo as int, i as int),
        decreases hi - i,
    {
        out.push(v[i]);
        i += 1;
        assert(v@.subrange(lo as int, i as int) == v@.subrange(lo as int, i - 1).push(v@[i - 1]));
    }
    out
}

/// A copy of `v` without the white space at either end.
pub fn trim_chars(v: &Vec<char>) -> (out: Vec<char>)
    ensures
        out@ == trimmed(v@),
{
    let mut lo: usize = 0;
    assert(v@.skip(0) == v@);
    while lo < v.len() && is_space_char(v[lo])
        invariant
            lo <= v.len(),
            trim_start(v@) == trim_start(v@.skip(lo as int)),
        decreases v.len() - lo,
    {
        assert(v@.skip(lo as int).drop_first() == v@.skip(lo + 1));
        lo += 1;
    }
    assert(trim_start(v@) == v@.skip(lo as int));
    let mut hi: usize = v.len();
    while hi > lo && is_space_char(v[hi - 1])
        invariant
            lo <= hi <= v.len(),
            trimmed(v@) == trim_end(v@.subrange(lo as int, hi as int)),
        decreases hi,
    {
        assert(v@.subrange(lo as int, hi as int).drop_last() == v@.subrange(lo as int, hi - 1));
        hi -= 1;
    }
    assert(trimmed(v@) == v@.subrange(lo as int, hi as int));
    chars_between(v, lo, hi)
}

/// Whether `v` is exactly the null marker.
pub fn is_null_marker(v: &Vec<char>) -> (b: bool)
    ensures
        b == (v@ == null_marker()),
{
    let b = v.len() == 4 && v[0] == 'n' && v[1] == 'u' && v[2] == 'l' && v[3] == 'l';
    proof {
        if b {
            assert(v@ =~= null_marker());
        }
    }
    b
}

/// Whether the cell `s` is missing: empty or the null marker once trimmed.
pub fn is_missing_text(s: &str) -> (b: bool)
    ensures
        b == is_missing(s@),
{
    let t = trim_chars(&chars_of(s));
    t.len() == 0 || is_null_marker(&t)
}

} // verus!
