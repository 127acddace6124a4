//! Neighbor-discovery entries and the parser of the neighbor table listing.

use vstd::prelude::*;
use crate::error::StatusError;
use crate::text::{
    chars_of, string_of, is_space, is_space_char, matches_at, trim, trim_span, lines,
    pieces_from, next_piece_end, lemma_pieces_from_unfold, push_span,
};

verus! {

/// The reachability state that the neighbor table reports for an entry.
#[derive(Debug, Clone, Copy, PartialEq, Eq, Structural)]
pub enum NdpCacheState {
    NoState,
    WaitDelete,
    Incomplete,
    Reachable,
    Stale,
    Delay,
    Probe,
    Unknown,
}

/// The state that a column of the listing names, by its letter or its full name.
pub open spec fn cache_state_of(s: Seq<char>) -> Option<NdpCacheState> {
    if s == "N"@ || s == "No State"@ {
        Some(NdpCacheState::NoState)
    } else if s == "W"@ || s == "Wait Delete"@ {
        Some(NdpCacheState::WaitDelete)
    } else if s == "I"@ || s == "Incomplete"@ {
        Some(NdpCacheState::Incomplete)
    } else if s == "R"@ || s == "Reachable"@ {
        Some(NdpCacheState::Reachable)
    } else if s == "S"@ || s == "Stale"@ {
        Some(NdpCacheState::Stale)
    } else if s == "D"@ || s == "Delay"@ {
        Some(NdpCacheState::Delay)
    } else if s == "P"@ || s == "Probe"@ {
        Some(NdpCacheState::Probe)
    } else if s == "?"@ || s == "Unknown"@ {
        Some(NdpCacheState::Unknown)
    } else {
        None
    }
}

impl NdpCacheState {
    /// The full name of the state.
    pub open spec fn label(self) -> Seq<char> {
        match self {
            NdpCacheState::NoState => "No State"@,
            NdpCacheState::WaitDelete => "Wait Delete"@,
            NdpCacheState::Incomplete => "Incomplete"@,
            NdpCacheState::Reachable => "Reachable"@,
            NdpCacheState::Stale => "Stale"@,
            NdpCacheState::Delay => "Delay"@,
            NdpCacheState::Probe => "Probe"@,
            NdpCacheState::Unknown => "Unknown"@,
        }
    }

    pub fn to_string(&self) -> (r: String)
        ensures
            r@ == self.label(),
    {
        match self {
            NdpCacheState::NoState => "No State".to_owned(),
            NdpCacheState::WaitDelete => "Wait Delete".to_owned(),
            NdpCacheState::Incomplete => "Incomplete".to_owned(),
            NdpCacheState::Reachable => "Reachable".to_owned(),
            NdpCacheState::Stale => "Stale".to_owned(),
            NdpCacheState::Delay => "Delay".to_owned(),
            NdpCacheState::Probe => "Probe".to_owned(),
            NdpCacheState::Unknown => "Unknown".to_owned(),
        }
    }

    /// The state that `s` names, by its letter or its full name.
    pub fn from_str(s: &str) -> (r: Option<NdpCacheState>)
        ensures
            r == cache_state_of(s@),
    {
        let t = chars_of(s);
        let n = t.len();
        assert(t@.subrange(0, n as int) =~= s@);
        state_of_span(&t, 0, n)
    }
}

/// `t[lo..hi]` is `pat`.
fn span_is(t: &[char], lo: usize, hi: usize, pat: &str) -> (r: bool)
    requires
        lo <= hi <= t@.len(),
    ensures
        r == (t@.subrange(lo as int, hi as int) == pat@),
{
    let p = chars_of(pat);
    if hi - lo != p.len() {
        return false;
    }
    let r = matches_at(t, &p, lo);
    proof {
        if !r {
            assert(t@.subrange(lo as int, hi as int) != pat@);
        }
    }
    r
}

fn state_of_span(t: &[char], lo: usize, hi: usize) -> (r: Option<NdpCacheState>)
    requires
        lo <= hi <= t@.len(),
    ensures
        r == cache_state_of(t@.subrange(lo as int, hi as int)),
{
    if span_is(t, lo, hi, "N") || span_is(t, lo, hi, "No State") {
        Some(NdpCacheState::NoState)
    } else if span_is(t, lo, hi, "W") || span_is(t, lo, hi, "Wait Delete") {
        Some(NdpCacheState::WaitDelete)
    } else if span_is(t, lo, hi, "I") || span_is(t, lo, hi, "Incomplete") {
        Some(NdpCacheState::Incomplete)
    } else if span_is(t, lo, hi, "R") || span_is(t, lo, hi, "Reachable") {
        Some(NdpCacheState::Reachable)
    } else if span_is(t, lo, hi, "S") || span_is(t, lo, hi, "Stale") {
        Some(NdpCacheState::Stale)
    } else if span_is(t, lo, hi, "D") || span_is(t, lo, hi, "Delay") {
        Some(NdpCacheState::Delay)
    } else if span_is(t, lo, hi, "P") || span_is(t, lo, hi, "Probe") {
        Some(NdpCacheState::Probe)
    } else if span_is(t, lo, hi, "?") || span_is(t, lo, hi, "Unknown") {
        Some(NdpCacheState::Unknown)
    } else {
        None
    }
}

} // verus!

verus! {

/// The first position at or after `i` that holds no white space, or the end of `s`.
pub open spec fn token_start(s: Seq<char>, i: int) -> int
    decreases s.len() - i,
{
    if i < 0 || i >= s.len() {
        s.len() as int
    } else if is_space(s[i]) {
        token_start(s, i + 1)
    } else {
        i
    }
}

/// The first position at or after `i` that holds white space, or the end of `s`.
pub open spec fn token_end(s: Seq<char>, i: int) -> int
    decreases s.len() - i,
{
    if i < 0 || i >= s.len() {
        s.len() as int
    } else if is_space(s[i]) {
        i
    } else {
        token_end(s, i + 1)
    }
}

/// The runs of characters other than white space in `s[i..]`, in order.
pub open spec fn columns_from(s: Seq<char>, i: int) -> Seq<Seq<char>>
    decreases s.len() + 1 - i,
{
    let a = token_start(s, i);
    let b = token_end(s, a);
    if 0 <= i <= a < b <= s.len() {
        seq![s.subrange(a, b)] + columns_from(s, b)
    } else {
        seq![]
    }
}

/// The white-space separated columns of a line.
pub open spec fn columns(s: Seq<char>) -> Seq<Seq<char>> {
    columns_from(s, 0)
}

proof fn lemma_token_bounds(s: Seq<char>, i: int)
    requires
        0 <= i <= s.len(),
    ensures
        i <= token_start(s, i) <= s.len(),
        token_start(s, i) < s.len() ==> !is_space(s[token_start(s, i)]),
        i <= token_end(s, i) <= s.len(),
        i < s.len() && !is_space(s[i]) ==> i < token_end(s, i),
    decreases s.len() - i,
{
    if i < s.len() {
        lemma_token_bounds(s, i + 1);
    }
}

fn next_column(s: &[char], i: usize) -> (r: (usize, usize))
    requires
        i <= s@.len(),
    ensures
        r.0 == token_start(s@, i as int),
        r.1 == token_end(s@, r.0 as int),
        i <= r.0 <= r.1 <= s@.len(),
{
    let n = s.len();
    let mut a: usize = i;
    while a < n && is_space_char(s[a])
        invariant
            i <= a <= n == s@.len(),
            token_start(s@, i as int) == token_start(s@, a as int),
        decreases n - a,
    {
        a = a + 1;
    }
    let mut b: usize = a;
    while b < n && !is_space_char(s[b])
        invariant
            a <= b <= n == s@.len(),
            token_end(s@, a as int) == token_end(s@, b as int),
        decreases n - b,
    {
        b = b + 1;
    }
    (a, b)
}

/// The spans of the first `k` columns of `s` (fewer where `s` has fewer).
fn leading_columns(s: &[char], k: usize) -> (r: Vec<(usize, usize)>)
    ensures
        r@.len() == if columns(s@).len() < k { columns(s@).len() } else { k as nat },
        forall|j: int|
            0 <= j < r@.len() ==> (#[trigger] r@[j]).0 <= r@[j].1 <= s@.len() && columns(s@)[j]
                == s@.subrange(r@[j].0 as int, r@[j].1 as int),
{
    let n = s.len();
    let mut out: Vec<(usize, usize)> = Vec::new();
    let mut i: usize = 0;
    while out.len() < k
        invariant
            i <= n == s@.len(),
            out@.len() <= k,
            columns(s@).len() == out@.len() + columns_from(s@, i as int).len(),
            forall|j: int|
                0 <= j < out@.len() ==> (#[trigger] out@[j]).0 <= out@[j].1 <= s@.len() && columns(s@)[j]
                    == s@.subrange(out@[j].0 as int, out@[j].1 as int),
            forall|j: int|
                0 <= j < columns_from(s@, i as int).len() ==> columns(s@)[out@.len() + j]
                    == #[trigger] columns_from(s@, i as int)[j],
        decreases k - out@.len(),
    {
        let (a, b) = next_column(s, i);
        proof {
            lemma_token_bounds(s@, i as int);
            if a < n {
                lemma_token_bounds(s@, a as int);
            }
        }
        if a == b {
            assert(columns_from(s@, i as int) =~= seq![]);
            return out;
        }
        proof {
            let rest = columns_from(s@, b as int);
            assert(columns_from(s@, i as int) == seq![s@.subrange(a as int, b as int)] + rest);
            assert(columns_from(s@, i as int)[0] == s@.subrange(a as int, b as int));
            assert forall|j: int| 0 <= j < rest.len() implies columns(s@)[out@.len() + 1 + j]
                == #[trigger] rest[j] by {
                assert(columns_from(s@, i as int)[j + 1] == rest[j]);
            }
        }
        let ghost prev = out@;
        out.push((a, b));
        proof {
            assert(out@[prev.len() as int] == (a, b));
            assert(columns(s@)[prev.len() as int] == columns_from(s@, i as int)[0]);
        }
        i = b;
    }
    out
}

/// One row of the neighbor table: an IPv6 address seen for a hardware address.
#[derive(Debug)]
pub struct NeighborEntry {
    pub mac_address: String,
    pub ip_address: String,
    pub cache_state: Option<NdpCacheState>,
}

pub struct NeighborView {
    pub mac_address: Seq<char>,
    pub ip_address: Seq<char>,
    pub cache_state: Option<NdpCacheState>,
}

impl View for NeighborEntry {
    type V = NeighborView;

    open spec fn view(&self) -> NeighborView {
        NeighborView {
            mac_address: self.mac_address@,
            ip_address: self.ip_address@,
            cache_state: self.cache_state,
        }
    }
}

impl NeighborEntry {
    /// A copy with the same fields.
    pub fn duplicate(&self) -> (r: NeighborEntry)
        ensures
            r@ == self@,
    {
        NeighborEntry {
            mac_address: self.mac_address.clone(),
            ip_address: self.ip_address.clone(),
            cache_state: self.cache_state,
        }
    }
}

/// The entry that a trimmed, non-blank row describes: its first column is the
/// address, its second the hardware address; the fifth, where there is one, may
/// name the cache state. A row of fewer than two columns describes none.
pub open spec fn neighbor_of_row(row: Seq<char>) -> Option<NeighborView> {
    let c = columns(row);
    if c.len() >= 2 {
        Some(
            NeighborView {
                ip_address: c[0],
                mac_address: c[1],
                cache_state: if c.len() >= 5 { cache_state_of(c[4]) } else { None },
            },
        )
    } else {
        None
    }
}

/// Reads one trimmed, non-blank row of the neighbor table.
pub fn parse_neighbor_row(row: &[char]) -> (r: Option<NeighborEntry>)
    ensures
        r matches Some(e) ==> neighbor_of_row(row@) == Some(e@),
        r is None ==> neighbor_of_row(row@) is None,
{
    let cols = leading_columns(row, 5);
    if cols.len() < 2 {
        return None;
    }
    let (ia, ib) = cols[0];
    let (ma, mb) = cols[1];
    let cache_state = if cols.len() >= 5 {
        let (sa, sb) = cols[4];
        assert(cols@[4] == (sa, sb));
        state_of_span(row, sa, sb)
    } else {
        None
    };
    proof {
        assert(cols@[0] == (ia, ib));
        assert(cols@[1] == (ma, mb));
    }
    Some(
        NeighborEntry {
            ip_address: string_of(row, ia, ib),
            mac_address: string_of(row, ma, mb),
            cache_state,
        },
    )
}

} // verus!

verus! {

/// The lines of `ls` trimmed, the blank ones left out, in order.
pub open spec fn rows_of(ls: Seq<Seq<char>>) -> Seq<Seq<char>>
    decreases ls.len(),
{
    if ls.len() == 0 {
        seq![]
    } else {
        let p = rows_of(ls.drop_last());
        let l = trim(ls.last());
        if l.len() == 0 {
            p
        } else {
            p.push(l)
        }
    }
}

/// The rows of a neighbor table listing: every line after the first, which is a
/// header, trimmed, with the blank ones left out.
pub open spec fn neighbor_rows(text: Seq<char>) -> Seq<Seq<char>> {
    rows_of(lines(text).drop_first())
}

/// Reads every row of a neighbor table listing, in order.
///
/// Fails on the first row of fewer than two columns, and names its line.
pub fn parse_neighbors(text: &str) -> (r: Result<Vec<NeighborEntry>, StatusError>)
    ensures
        ({
            let rows = neighbor_rows(text@);
            let ls = lines(text@);
            match r {
                Ok(v) => v@.len() == rows.len() && forall|k: int|
                    0 <= k < rows.len() ==> neighbor_of_row(#[trigger] rows[k]) == Some(v@[k]@),
                Err(e) => e matches StatusError::MalformedNeighbor { line } && 1 <= line < ls.len()
                    && trim(ls[line as int]).len() > 0 && neighbor_of_row(trim(ls[line as int])) is None
                    && forall|j: int|
                    1 <= j < line ==> trim(#[trigger] ls[j]).len() == 0 || neighbor_of_row(
                        trim(ls[j]),
                    ) is Some,
            }
        }),
{
    let t = chars_of(text);
    let len = t.len();
    let mut out: Vec<NeighborEntry> = Vec::new();
    let first_end = next_piece_end(&t, '\n', 0);
    proof {
        lemma_pieces_from_unfold(t@, '\n', 0);
    }
    let ghost mut seen: Seq<Seq<char>> = seq![t@.subrange(0, first_end as int)];
    if first_end == len {
        assert(lines(text@).drop_first() =~= seq![]);
        return Ok(out);
    }
    let mut i: usize = first_end + 1;
    let mut idx: usize = 1;
    loop
        invariant_except_break
            lines(text@) == seen + pieces_from(t@, '\n', i as int),
            seen.len() == idx,
        invariant
            1 <= idx <= i <= len == t@.len(),
            idx <= seen.len(),
            t@ == text@,
            out@.len() == rows_of(seen.drop_first()).len(),
            forall|k: int|
                0 <= k < out@.len() ==> neighbor_of_row(#[trigger] rows_of(seen.drop_first())[k])
                    == Some(out@[k]@),
            forall|j: int|
                1 <= j < idx ==> trim(#[trigger] seen[j]).len() == 0 || neighbor_of_row(trim(seen[j]))
                    is Some,
        ensures
            lines(text@) == seen,
        decreases len - i,
    {
        let e = next_piece_end(&t, '\n', i);
        let (a, b) = trim_span(&t, i, e);
        let ghost piece = t@.subrange(i as int, e as int);
        let ghost rest = if e < len { pieces_from(t@, '\n', e + 1) } else { seq![] };
        proof {
            lemma_pieces_from_unfold(t@, '\n', i as int);
            assert(seen + pieces_from(t@, '\n', i as int) =~= seen.push(piece) + rest);
            assert((seen + pieces_from(t@, '\n', i as int))[idx as int] == piece);
            assert(seen.push(piece).drop_first() =~= seen.drop_first().push(piece));
            assert(seen.drop_first().push(piece).drop_last() =~= seen.drop_first());
        }
        if a < b {
            let mut row: Vec<char> = Vec::new();
            push_span(&mut row, &t, a, b);
            match parse_neighbor_row(&row) {
                Some(n) => {
                    out.push(n);
                },
                None => {
                    return Err(StatusError::MalformedNeighbor { line: idx });
                },
            }
        }
        proof {
            seen = seen.push(piece);
        }
        if e == len {
            break;
        }
        i = e + 1;
        idx = idx + 1;
    }
    Ok(out)
}

} // verus!
