//! IPv4 addresses in dotted-decimal form.

use vstd::prelude::*;
use crate::text::{pieces, pieces_from, next_piece_end, lemma_piece_end_bounds};

verus! {

/// An IPv4 address, most significant octet first.
#[derive(Clone, Copy, Debug, PartialEq, Eq, Structural)]
pub struct Ipv4Address(pub u8, pub u8, pub u8, pub u8);

pub open spec fn is_digit(c: char) -> bool {
    '0' <= c <= '9'
}

/// The value of a run of decimal digits.
pub open spec fn decimal(s: Seq<char>) -> int
    decreases s.len(),
{
    if s.len() == 0 {
        0
    } else {
        decimal(s.drop_last()) * 10 + (s.last() as u32 - '0' as u32)
    }
}

/// One to three digits, no leading zero but in `0` itself, at most 255.
pub open spec fn octet_value(s: Seq<char>) -> Option<u8> {
    if 1 <= s.len() <= 3 && (forall|i: int| 0 <= i < s.len() ==> is_digit(#[trigger] s[i]))
        && (s.len() == 1 || s[0] != '0') && decimal(s) <= 255 {
        Some(decimal(s) as u8)
    } else {
        None
    }
}

/// The address that `s` writes as four dot-separated octets.
pub open spec fn ipv4_of(s: Seq<char>) -> Option<Ipv4Address> {
    let p = pieces(s, '.');
    if p.len() == 4 && (forall|j: int| 0 <= j < 4 ==> (#[trigger] octet_value(p[j])) is Some) {
        Some(
            Ipv4Address(
                octet_value(p[0])->0,
                octet_value(p[1])->0,
                octet_value(p[2])->0,
                octet_value(p[3])->0,
            ),
        )
    } else {
        None
    }
}

fn parse_octet(t: &[char], lo: usize, hi: usize) -> (r: Option<u8>)
    requires
        lo <= hi <= t@.len(),
    ensures
        r == octet_value(t@.subrange(lo as int, hi as int)),
{
    let ghost s = t@.subrange(lo as int, hi as int);
    if hi - lo < 1 || hi - lo > 3 {
        return None;
    }
    if hi - lo > 1 && t[lo] == '0' {
        return None;
    }
    let mut v: u32 = 0;
    let mut k: usize = lo;
    while k < hi
        invariant
            lo <= k <= hi <= t@.len(),
            hi - lo <= 3,
            s == t@.subrange(lo as int, hi as int),
            forall|i: int| 0 <= i < k - lo ==> is_digit(#[trigger] s[i]),
            v as int == decimal(s.subrange(0, k - lo)),
            k - lo == 0 ==> v == 0,
            k - lo <= 1 ==> v <= 9,
            k - lo <= 2 ==> v <= 99,
            v <= 999,
        decreases hi - k,
    {
        let c = t[k];
        if !('0' <= c && c <= '9') {
            assert(!is_digit(s[k - lo]));
            return None;
        }
        proof {
            assert(s.subrange(0, k + 1 - lo).drop_last() =~= s.subrange(0, k - lo));
        }
        v = v * 10 + (c as u32 - '0' as u32);
        k = k + 1;
    }
    assert(s.subrange(0, hi - lo) =~= s);
    if v > 255 {
        return None;
    }
    Some(v as u8)
}

/// Parses a dotted-decimal IPv4 address: four octets of one to three digits
/// each, without leading zeros, separated by single dots.
pub fn parse_ipv4(s: &[char]) -> (r: Option<Ipv4Address>)
    ensures
        r == ipv4_of(s@),
{
    let len = s.len();
    let mut vals: Vec<u8> = Vec::new();
    let mut i: usize = 0;
    let ghost mut done: Seq<Seq<char>> = seq![];
    loop
        invariant_except_break
            pieces(s@, '.') == done + pieces_from(s@, '.', i as int),
        invariant
            i <= len == s@.len(),
            vals@.len() <= 4,
            vals@.len() == done.len(),
            forall|j: int| 0 <= j < done.len() ==> octet_value(#[trigger] done[j]) == Some(vals@[j]),
        ensures
            pieces(s@, '.') == done,
        decreases len - i,
    {
        let e = next_piece_end(s, '.', i);
        let ghost piece = s@.subrange(i as int, e as int);
        proof {
            lemma_piece_end_bounds(s@, '.', i as int);
        }
        if vals.len() == 4 {
            return None;
        }
        match parse_octet(s, i, e) {
            None => {
                assert(pieces(s@, '.')[done.len() as int] == piece);
                return None;
            },
            Some(v) => {
                vals.push(v);
                proof {
                    if e == len {
                        assert(pieces_from(s@, '.', i as int) == seq![piece]);
                        assert(done + pieces_from(s@, '.', i as int) =~= done.push(piece));
                    } else {
                        assert(pieces_from(s@, '.', i as int) == seq![piece] + pieces_from(s@, '.', e + 1));
                        assert(done + pieces_from(s@, '.', i as int) =~= done.push(piece) + pieces_from(s@, '.', e + 1));
                    }
                    done = done.push(piece);
                }
            },
        }
        if e == len {
            break;
        }
        i = e + 1;
    }
    if vals.len() != 4 {
        return None;
    }
    assert(forall|j: int| 0 <= j < 4 ==> (#[trigger] octet_value(done[j])) is Some);
    Some(Ipv4Address(vals[0], vals[1], vals[2], vals[3]))
}

} // verus!
