//! Lease records and the parser of the lease database text.

use vstd::prelude::*;
use crate::address::{Ipv4Address, ipv4_of, parse_ipv4};
use crate::clock::{utc_seconds_of, parse_utc_seconds};
use crate::error::StatusError;
use crate::text::{
    chars_of, string_of, find, find_from, occurs_at, matches_at, lemma_find_from_bounds,
    trim, trim_span, starts_with, lines, pieces_from, next_piece_end, lemma_pieces_from_unfold,
    push_span,
};

verus! {

/// One DHCP lease: who holds which IPv4 address until when.
#[derive(Debug)]
pub struct LeaseRecord {
    pub mac_address: String,
    pub ip_address: Ipv4Address,
    /// Seconds since the Unix epoch, UTC.
    pub expires_at: i64,
    pub hostname: Option<String>,
}

pub struct LeaseView {
    pub mac_address: Seq<char>,
    pub ip_address: Ipv4Address,
    pub expires_at: i64,
    pub hostname: Option<Seq<char>>,
}

pub open spec fn opt_view(s: Option<String>) -> Option<Seq<char>> {
    match s {
        Some(h) => Some(h@),
        None => None,
    }
}

impl View for LeaseRecord {
    type V = LeaseView;

    open spec fn view(&self) -> LeaseView {
        LeaseView {
            mac_address: self.mac_address@,
            ip_address: self.ip_address,
            expires_at: self.expires_at,
            hostname: opt_view(self.hostname),
        }
    }
}

impl LeaseRecord {
    /// A copy with the same fields.
    pub fn duplicate(&self) -> (r: LeaseRecord)
        ensures
            r@ == self@,
    {
        LeaseRecord {
            mac_address: self.mac_address.clone(),
            ip_address: self.ip_address,
            expires_at: self.expires_at,
            hostname: match &self.hostname {
                Some(h) => Some(h.clone()),
                None => None,
            },
        }
    }

    /// Whether the lease is still active at `now`: strictly before it expires.
    pub fn is_available(&self, now: i64) -> (r: bool)
        ensures
            r == (self.expires_at > now),
    {
        self.expires_at > now
    }
}

/// The text between the first `open` in `t` and the first `close` after it.
pub open spec fn field_between(t: Seq<char>, open: Seq<char>, close: Seq<char>) -> Option<Seq<char>> {
    match find_from(t, open, 0) {
        Some(p) => match find_from(t, close, p + open.len()) {
            Some(q) => Some(t.subrange(p + open.len(), q)),
            None => None,
        },
        None => None,
    }
}

/// `ends`, a space, one character (the weekday) and a space stand at `p`.
pub open spec fn ends_marker_at(t: Seq<char>, p: int) -> bool {
    occurs_at(t, "ends "@, p) && p + 7 <= t.len() && t[p + 6] == ' '
}

pub open spec fn find_ends_from(t: Seq<char>, start: int) -> Option<int>
    decreases t.len() + 1 - start,
{
    if start < 0 || start + 7 > t.len() {
        None
    } else if ends_marker_at(t, start) {
        Some(start)
    } else {
        find_ends_from(t, start + 1)
    }
}

/// The text between the first `ends <weekday> ` and the next `;`.
pub open spec fn expiry_field(t: Seq<char>) -> Option<Seq<char>> {
    match find_ends_from(t, 0) {
        Some(p) => match find_from(t, ";"@, p + 7) {
            Some(q) => Some(t.subrange(p + 7, q)),
            None => None,
        },
        None => None,
    }
}

/// The lease that a block describes once its end time has been read as
/// `expires_at`: where it holds an address that parses and a hardware address.
pub open spec fn lease_with_expiry(t: Seq<char>, expires_at: i64) -> Option<LeaseView> {
    match (field_between(t, "lease "@, " {"@), field_between(t, "hardware ethernet "@, ";"@)) {
        (Some(ip), Some(mac)) => match ipv4_of(ip) {
            Some(a) => Some(
                LeaseView {
                    mac_address: mac,
                    ip_address: a,
                    expires_at,
                    hostname: field_between(t, "client-hostname \""@, "\";"@),
                },
            ),
            None => None,
        },
        _ => None,
    }
}

/// The lease that one block of the lease database describes, if it holds an
/// address, an end time and a hardware address that all parse.
pub open spec fn lease_of_block(t: Seq<char>) -> Option<LeaseView> {
    match expiry_field(t) {
        Some(ends) => match utc_seconds_of(ends) {
            Some(secs) => lease_with_expiry(t, secs),
            None => None,
        },
        None => None,
    }
}

/// Where `field_between` finds its text.
fn find_between(t: &[char], open: &[char], close: &[char]) -> (r: Option<(usize, usize)>)
    ensures
        r matches Some((a, b)) ==> a <= b <= t@.len() && field_between(t@, open@, close@) == Some(
            t@.subrange(a as int, b as int),
        ),
        r is None ==> field_between(t@, open@, close@) is None,
{
    let n = t.len();
    match find(t, open, 0) {
        None => None,
        Some(p) => {
            proof {
                lemma_find_from_bounds(t@, open@, 0);
                assert(p + open@.len() <= n);
            }
            let a = p + open.len();
            match find(t, close, a) {
                None => None,
                Some(q) => {
                    proof {
                        lemma_find_from_bounds(t@, close@, a as int);
                    }
                    Some((a, q))
                },
            }
        },
    }
}

/// Where `expiry_field` finds its text.
fn find_expiry(t: &[char]) -> (r: Option<(usize, usize)>)
    ensures
        r matches Some((a, b)) ==> a <= b <= t@.len() && expiry_field(t@) == Some(
            t@.subrange(a as int, b as int),
        ),
        r is None ==> expiry_field(t@) is None,
{
    let ends = chars_of("ends ");
    let semi = chars_of(";");
    let len = t.len();
    if len < 7 {
        return None;
    }
    let mut i: usize = 0;
    loop
        invariant
            i + 7 <= len == t@.len(),
            ends@ == "ends "@,
            semi@ == ";"@,
            find_ends_from(t@, 0) == find_ends_from(t@, i as int),
        decreases len - i,
    {
        if matches_at(t, &ends, i) && t[i + 6] == ' ' {
            let a = i + 7;
            return match find(t, &semi, a) {
                None => None,
                Some(q) => {
                    proof {
                        lemma_find_from_bounds(t@, semi@, a as int);
                    }
                    Some((a, q))
                },
            };
        }
        if i + 7 == len {
            assert(find_ends_from(t@, i + 1) is None);
            return None;
        }
        i = i + 1;
    }
}

/// The text of the end time of a block: what stands between `ends <weekday> `
/// and the next `;`.
pub fn expiry_text(t: &[char]) -> (r: Option<String>)
    ensures
        r matches Some(x) ==> expiry_field(t@) == Some(x@),
        r is None ==> expiry_field(t@) is None,
{
    match find_expiry(t) {
        Some((a, b)) => Some(string_of(t, a, b)),
        None => None,
    }
}

/// Reads a block whose end time has been read as `expires_at`; `None` where the
/// address or the hardware address is missing, or the address does not parse.
pub fn read_lease_with_expiry(t: &[char], expires_at: i64) -> (r: Option<LeaseRecord>)
    ensures
        r matches Some(l) ==> lease_with_expiry(t@, expires_at) == Some(l@),
        r is None ==> lease_with_expiry(t@, expires_at) is None,
{
    let lease_open = chars_of("lease ");
    let brace = chars_of(" {");
    let hw_open = chars_of("hardware ethernet ");
    let semi = chars_of(";");
    let host_open = chars_of("client-hostname \"");
    let host_close = chars_of("\";");
    let (ia, ib, ma, mb) = match (find_between(t, &lease_open, &brace), find_between(t, &hw_open, &semi)) {
        (Some((ia, ib)), Some((ma, mb))) => (ia, ib, ma, mb),
        _ => {
            return None;
        },
    };
    let mut ip_chars: Vec<char> = Vec::new();
    push_span(&mut ip_chars, t, ia, ib);
    let ip = match parse_ipv4(&ip_chars) {
        Some(a) => a,
        None => {
            return None;
        },
    };
    let hostname = match find_between(t, &host_open, &host_close) {
        Some((ha, hb)) => Some(string_of(t, ha, hb)),
        None => None,
    };
    Some(LeaseRecord { mac_address: string_of(t, ma, mb), ip_address: ip, expires_at, hostname })
}

/// Reads one lease block; `None` where an address, end time or hardware address
/// is missing or does not parse.
pub fn parse_lease_block(t: &[char]) -> (r: Option<LeaseRecord>)
    ensures
        r matches Some(l) ==> lease_of_block(t@) == Some(l@),
        r is None ==> lease_of_block(t@) is None,
{
    let ends = match expiry_text(t) {
        Some(x) => x,
        None => {
            return None;
        },
    };
    match parse_utc_seconds(ends.as_str()) {
        Some(secs) => read_lease_with_expiry(t, secs),
        None => None,
    }
}

} // verus!

verus! {

/// Where the block scanner stands between two lines.
#[derive(Debug, Clone, Copy, PartialEq, Eq, Structural)]
pub enum ScanState {
    Outside,
    InsideBlock,
}

/// One trimmed line fed to the scanner in state `inside` with the block text
/// `buf`: the next state, the next block text, and the block that the line closes.
pub open spec fn scan_step(inside: bool, buf: Seq<char>, line: Seq<char>) -> (bool, Seq<char>, Option<Seq<char>>) {
    let open = inside || starts_with(line, "lease"@);
    let text = if open { buf + line } else { buf };
    if open && line == "}"@ {
        (false, seq![], Some(text))
    } else {
        (open, text, None)
    }
}

/// The blocks that the lines `ls` complete, from the given scanner state.
pub open spec fn scan_blocks(ls: Seq<Seq<char>>, inside: bool, buf: Seq<char>) -> Seq<Seq<char>>
    decreases ls.len(),
{
    if ls.len() == 0 {
        seq![]
    } else {
        let (inside2, buf2, done) = scan_step(inside, buf, trim(ls[0]));
        let rest = scan_blocks(ls.drop_first(), inside2, buf2);
        match done {
            Some(b) => seq![b] + rest,
            None => rest,
        }
    }
}

/// The lease blocks of a lease database text: from a line that starts with
/// `lease` to the next line that is `}`, lines trimmed and joined without separator.
pub open spec fn lease_blocks(text: Seq<char>) -> Seq<Seq<char>> {
    scan_blocks(lines(text), false, seq![])
}

/// The two-state machine that cuts lease blocks out of a sequence of lines.
pub struct BlockScanner {
    pub state: ScanState,
    pub buffer: Vec<char>,
}

impl BlockScanner {
    pub open spec fn inside(&self) -> bool {
        self.state == ScanState::InsideBlock
    }

    pub fn new() -> (r: BlockScanner)
        ensures
            !r.inside(),
            r.buffer@ == Seq::<char>::empty(),
    {
        BlockScanner { state: ScanState::Outside, buffer: Vec::new() }
    }

    /// Feeds the trimmed line `t[lo..hi]`; returns the block that it closes.
    pub fn feed(&mut self, t: &[char], lo: usize, hi: usize) -> (r: Option<Vec<char>>)
        requires
            lo <= hi <= t@.len(),
        ensures
            ({
                let (inside, buf, done) = scan_step(
                    old(self).inside(),
                    old(self).buffer@,
                    t@.subrange(lo as int, hi as int),
                );
                &&& final(self).inside() == inside
                &&& final(self).buffer@ == buf
                &&& match r {
                    Some(b) => done == Some(b@),
                    None => done is None,
                }
            }),
    {
        let ghost line = t@.subrange(lo as int, hi as int);
        let lease_word = chars_of("lease");
        let opens = hi - lo >= 5 && matches_at(t, &lease_word, lo);
        proof {
            reveal_strlit("lease");
            reveal_strlit("}");
            if hi - lo >= 5 {
                assert(line.subrange(0, 5) =~= t@.subrange(lo as int, lo + 5));
            }
        }
        if self.state == ScanState::Outside && !opens {
            return None;
        }
        push_span(&mut self.buffer, t, lo, hi);
        if hi - lo == 1 && t[lo] == '}' {
            assert(line =~= "}"@);
            self.state = ScanState::Outside;
            let mut block: Vec<char> = Vec::new();
            core::mem::swap(&mut block, &mut self.buffer);
            Some(block)
        } else {
            assert(line.len() != 1 || line[0] != "}"@[0]);
            assert(line != "}"@);
            self.state = ScanState::InsideBlock;
            None
        }
    }
}

/// Reads every lease block of a lease database text, in order.
///
/// Fails on the first block that `lease_of_block` does not read, and names it.
pub fn parse_leases(text: &str) -> (r: Result<Vec<LeaseRecord>, StatusError>)
    ensures
        ({
            let blocks = lease_blocks(text@);
            match r {
                Ok(v) => v@.len() == blocks.len() && forall|k: int|
                    0 <= k < blocks.len() ==> lease_of_block(#[trigger] blocks[k]) == Some(v@[k]@),
                Err(e) => e matches StatusError::MalformedLease { block } && block < blocks.len()
                    && lease_of_block(blocks[block as int]) is None && forall|k: int|
                    0 <= k < block ==> (#[trigger] lease_of_block(blocks[k])) is Some,
            }
        }),
{
    let t = chars_of(text);
    let len = t.len();
    let mut scanner = BlockScanner::new();
    let mut out: Vec<LeaseRecord> = Vec::new();
    let ghost mut done: Seq<Seq<char>> = seq![];
    let mut i: usize = 0;
    loop
        invariant_except_break
            lease_blocks(text@) == done + scan_blocks(
                pieces_from(t@, '\n', i as int),
                scanner.inside(),
                scanner.buffer@,
            ),
        invariant
            i <= len == t@.len(),
            t@ == text@,
            out@.len() == done.len(),
            forall|k: int| 0 <= k < done.len() ==> lease_of_block(#[trigger] done[k]) == Some(out@[k]@),
        ensures
            lease_blocks(text@) == done,
        decreases len - i,
    {
        let e = next_piece_end(&t, '\n', i);
        let (a, b) = trim_span(&t, i, e);
        let ghost rest = if e < len { pieces_from(t@, '\n', e + 1) } else { seq![] };
        proof {
            lemma_pieces_from_unfold(t@, '\n', i as int);
            let ls = pieces_from(t@, '\n', i as int);
            assert(ls.drop_first() =~= rest);
        }
        let ghost before = done;
        let ghost old_inside = scanner.inside();
        let ghost old_buf = scanner.buffer@;
        match scanner.feed(&t, a, b) {
            Some(block) => {
                match parse_lease_block(&block) {
                    Some(l) => {
                        out.push(l);
                        proof {
                            done = done.push(block@);
                        }
                    },
                    None => {
                        assert((done + (seq![block@] + scan_blocks(rest, scanner.inside(), scanner.buffer@)))[done.len() as int] == block@);
                        return Err(StatusError::MalformedLease { block: out.len() });
                    },
                }
            },
            None => {},
        }
        assert(before + scan_blocks(pieces_from(t@, '\n', i as int), old_inside, old_buf) =~= done + scan_blocks(rest, scanner.inside(), scanner.buffer@));
        if e == len {
            break;
        }
        i = e + 1;
    }
    Ok(out)
}

} // verus!
