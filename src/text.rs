//! Character-level helpers shared by the lease and neighbor parsers.

use vstd::prelude::*;
use vstd::std_specs::iter::IteratorSpec;

verus! {

/// Unicode `White_Space` characters, the set that `str::trim` removes.
pub open spec fn is_space(c: char) -> bool {
    let u = c as u32;
    (0x09 <= u && u <= 0x0D) || u == 0x20 || u == 0x85 || u == 0xA0 || u == 0x1680
        || (0x2000 <= u && u <= 0x200A) || u == 0x2028 || u == 0x2029 || u == 0x202F
        || u == 0x205F || u == 0x3000
}

/// A line with leading and trailing white space removed.
pub open spec fn trim(s: Seq<char>) -> Seq<char>
    decreases s.len(),
{
    if s.len() == 0 {
        s
    } else if is_space(s[0]) {
        trim(s.drop_first())
    } else if is_space(s.last()) {
        trim(s.drop_last())
    } else {
        s
    }
}

/// `pat` stands in `t` starting at position `i`.
pub open spec fn occurs_at(t: Seq<char>, pat: Seq<char>, i: int) -> bool {
    0 <= i && i + pat.len() <= t.len() && t.subrange(i, i + pat.len()) == pat
}

/// The leftmost position at or after `start` where `pat` stands in `t`.
pub open spec fn find_from(t: Seq<char>, pat: Seq<char>, start: int) -> Option<int>
    decreases t.len() + 1 - start,
{
    if start < 0 || start + pat.len() > t.len() {
        None
    } else if occurs_at(t, pat, start) {
        Some(start)
    } else {
        find_from(t, pat, start + 1)
    }
}

/// The end of the piece that starts at `i`: the next `sep`, or the end of `t`.
pub open spec fn piece_end(t: Seq<char>, sep: char, i: int) -> int
    decreases t.len() - i,
{
    if i < 0 || i >= t.len() {
        t.len() as int
    } else if t[i] == sep {
        i
    } else {
        piece_end(t, sep, i + 1)
    }
}

/// The pieces of `t[i..]` split at each `sep`, which is dropped; as `str::split` gives them.
pub open spec fn pieces_from(t: Seq<char>, sep: char, i: int) -> Seq<Seq<char>>
    decreases t.len() + 1 - i,
{
    let e = piece_end(t, sep, i);
    if i < 0 || i > t.len() {
        seq![]
    } else if i <= e < t.len() {
        seq![t.subrange(i, e)] + pieces_from(t, sep, e + 1)
    } else {
        seq![t.subrange(i, t.len() as int)]
    }
}

/// The pieces of `t` split at each `sep`.
pub open spec fn pieces(t: Seq<char>, sep: char) -> Seq<Seq<char>> {
    pieces_from(t, sep, 0)
}

/// The lines of `t`, split at each line feed.
pub open spec fn lines(t: Seq<char>) -> Seq<Seq<char>> {
    pieces(t, '\n')
}

pub proof fn lemma_piece_end_bounds(t: Seq<char>, sep: char, i: int)
    requires
        0 <= i <= t.len(),
    ensures
        i <= piece_end(t, sep, i) <= t.len(),
        piece_end(t, sep, i) < t.len() ==> t[piece_end(t, sep, i)] == sep,
    decreases t.len() - i,
{
    if i < t.len() && t[i] != sep {
        lemma_piece_end_bounds(t, sep, i + 1);
    }
}

/// The position of the `sep` that ends the piece starting at `i`, or the length of `t`.
pub fn next_piece_end(t: &[char], sep: char, i: usize) -> (r: usize)
    requires
        i <= t@.len(),
    ensures
        r as int == piece_end(t@, sep, i as int),
        i <= r <= t@.len(),
{
    let n = t.len();
    let mut e: usize = i;
    while e < n && t[e] != sep
        invariant
            n == t@.len(),
            i <= e <= n,
            piece_end(t@, sep, i as int) == piece_end(t@, sep, e as int),
        decreases n - e,
    {
        e = e + 1;
    }
    e
}

/// `prefix` opens `s`.
pub open spec fn starts_with(s: Seq<char>, prefix: Seq<char>) -> bool {
    prefix.len() <= s.len() && s.subrange(0, prefix.len() as int) == prefix
}

/// The characters of `s`, one element each.
pub fn chars_of(s: &str) -> (r: Vec<char>)
    ensures
        r@ == s@,
{
    broadcast use vstd::string::axiom_spec_iter, vstd::string::next_postcondition;

    let mut it = s.chars();
    let mut out: Vec<char> = Vec::new();
    loop
        invariant
            s@ == out@ + it.remaining(),
            it.decrease() is Some,
        decreases it.decrease()->0,
    {
        match it.next() {
            Some(c) => {
                out.push(c);
            },
            None => {
                assert(out@ + it.remaining() =~= out@);
                return out;
            },
        }
    }
}

/// A string made of `t[lo..hi]`.
///
/// Relies on `String`'s `FromIterator<&char>`: the characters in order.
#[verifier::external_body]
pub fn string_of(t: &[char], lo: usize, hi: usize) -> (r: String)
    requires
        lo <= hi <= t@.len(),
    ensures
        r@ == t@.subrange(lo as int, hi as int),
{
    t[lo..hi].iter().collect()
}

pub proof fn lemma_find_from_bounds(t: Seq<char>, pat: Seq<char>, start: int)
    ensures
        find_from(t, pat, start) matches Some(p) ==> start <= p && occurs_at(t, pat, p),
    decreases t.len() + 1 - start,
{
    if !(start < 0 || start + pat.len() > t.len()) && !occurs_at(t, pat, start) {
        lemma_find_from_bounds(t, pat, start + 1);
    }
}

/// The first piece of `t[i..]` split at `sep`, followed by the rest.
pub proof fn lemma_pieces_from_unfold(t: Seq<char>, sep: char, i: int)
    requires
        0 <= i <= t.len(),
    ensures
        piece_end(t, sep, i) < t.len() ==> pieces_from(t, sep, i) == seq![
            t.subrange(i, piece_end(t, sep, i)),
        ] + pieces_from(t, sep, piece_end(t, sep, i) + 1),
        piece_end(t, sep, i) == t.len() ==> pieces_from(t, sep, i) == seq![
            t.subrange(i, t.len() as int),
        ],
{
    lemma_piece_end_bounds(t, sep, i);
}

/// `t[lo..hi]` appended to `buf`.
pub fn push_span(buf: &mut Vec<char>, t: &[char], lo: usize, hi: usize)
    requires
        lo <= hi <= t@.len(),
    ensures
        final(buf)@ == old(buf)@ + t@.subrange(lo as int, hi as int),
{
    let mut k: usize = lo;
    while k < hi
        invariant
            lo <= k <= hi <= t@.len(),
            buf@ == old(buf)@ + t@.subrange(lo as int, k as int),
        decreases hi - k,
    {
        buf.push(t[k]);
        k = k + 1;
        assert(buf@ =~= old(buf)@ + t@.subrange(lo as int, k as int));
    }
}

pub fn is_space_char(c: char) -> (r: bool)
    ensures
        r == is_space(c),
{
    let u = c as u32;
    (0x09 <= u && u <= 0x0D) || u == 0x20 || u == 0x85 || u == 0xA0 || u == 0x1680
        || (0x2000 <= u && u <= 0x200A) || u == 0x2028 || u == 0x2029 || u == 0x202F
        || u == 0x205F || u == 0x3000
}

proof fn lemma_trim_bounds(s: Seq<char>, a: int, b: int)
    requires
        0 <= a <= b <= s.len(),
        forall|i: int| 0 <= i < a ==> is_space(#[trigger] s[i]),
        forall|i: int| b <= i < s.len() ==> is_space(#[trigger] s[i]),
        a < b ==> !is_space(s[a]) && !is_space(s[b - 1]),
    ensures
        trim(s) == s.subrange(a, b),
    decreases s.len(),
{
    if s.len() == 0 {
        assert(s.subrange(a, b) =~= s);
    } else if is_space(s[0]) {
        let t = s.drop_first();
        if a > 0 {
            lemma_trim_bounds(t, a - 1, b - 1);
            assert(t.subrange(a - 1, b - 1) =~= s.subrange(a, b));
        } else {
            lemma_trim_bounds(t, 0, 0);
            assert(t.subrange(0, 0) =~= s.subrange(a, b));
        }
    } else if is_space(s.last()) {
        let t = s.drop_last();
        lemma_trim_bounds(t, a, b);
        assert(t.subrange(a, b) =~= s.subrange(a, b));
    } else {
        assert(s.subrange(a, b) =~= s);
    }
}

/// Bounds of `t[lo..hi]` with white space removed at both ends.
pub fn trim_span(t: &[char], lo: usize, hi: usize) -> (r: (usize, usize))
    requires
        lo <= hi <= t@.len(),
    ensures
        lo <= r.0 <= r.1 <= hi,
        t@.subrange(r.0 as int, r.1 as int) == trim(t@.subrange(lo as int, hi as int)),
{
    let mut a: usize = lo;
    while a < hi && is_space_char(t[a])
        invariant
            lo <= a <= hi <= t@.len(),
            forall|i: int| lo <= i < a ==> is_space(#[trigger] t@[i]),
        decreases hi - a,
    {
        a = a + 1;
    }
    let mut b: usize = hi;
    while b > a && is_space_char(t[b - 1])
        invariant
            lo <= a <= b <= hi <= t@.len(),
            forall|i: int| b <= i < hi ==> is_space(#[trigger] t@[i]),
            a < hi ==> !is_space(t@[a as int]),
        decreases b - a,
    {
        b = b - 1;
    }
    proof {
        let s = t@.subrange(lo as int, hi as int);
        lemma_trim_bounds(s, a - lo, b - lo);
        assert(s.subrange(a - lo, b - lo) =~= t@.subrange(a as int, b as int));
    }
    (a, b)
}

/// Whether `pat` stands in `t` at position `i`.
pub fn matches_at(t: &[char], pat: &[char], i: usize) -> (r: bool)
    ensures
        r == occurs_at(t@, pat@, i as int),
{
    if i > t.len() || pat.len() > t.len() - i {
        return false;
    }
    let n = t.len();
    let mut k: usize = 0;
    while k < pat.len()
        invariant
            n == t@.len(),
            i + pat@.len() <= t@.len(),
            k <= pat@.len(),
            forall|j: int| 0 <= j < k ==> t@[i + j] == pat@[j],
        decreases pat@.len() - k,
    {
        assert(i + k < t@.len());
        if t[i + k] != pat[k] {
            assert(t@.subrange(i as int, i + pat@.len())[k as int] != pat@[k as int]);
            return false;
        }
        k = k + 1;
    }
    assert(t@.subrange(i as int, i + pat@.len()) =~= pat@);
    true
}

/// The leftmost position at or after `start` where `pat` stands in `t`.
pub fn find(t: &[char], pat: &[char], start: usize) -> (r: Option<usize>)
    ensures
        r matches Some(p) ==> find_from(t@, pat@, start as int) == Some(p as int),
        r is None ==> find_from(t@, pat@, start as int) is None,
{
    if pat.len() > t.len() {
        return None;
    }
    let last = t.len() - pat.len();
    let mut i: usize = start;
    while i <= last
        invariant
            last + pat@.len() == t@.len(),
            start <= i,
            find_from(t@, pat@, start as int) == find_from(t@, pat@, i as int),
        decreases last + 1 - i,
    {
        if matches_at(t, pat, i) {
            return Some(i);
        }
        if i == last {
            assert(find_from(t@, pat@, i + 1) is None);
            return None;
        }
        i = i + 1;
    }
    None
}

} // verus!
