//! Properties of the parsers and of the merge that hold for every input.

use vstd::prelude::*;
use crate::lease::{LeaseView, lease_blocks, lease_of_block, field_between};
use crate::merge::{
    EntryView, appears_first, has_entry, has_neighbor, in_key_order, is_key, is_merge_of, key_sequence,
    last_lease_for,
};
use crate::neighbor::{NeighborView, neighbor_rows, rows_of};
use crate::status::{active_leases, parsed_leases, parsed_neighbors};
use crate::text::{
    trim, find_from, lines, piece_end, pieces_from, lemma_piece_end_bounds, lemma_pieces_from_unfold,
};

verus! {

/// A lease block without `hardware ethernet ` makes the whole lease text fail to read.
pub proof fn lemma_block_without_hardware_fails(text: Seq<char>, k: int)
    requires
        0 <= k < lease_blocks(text).len(),
        find_from(lease_blocks(text)[k], "hardware ethernet "@, 0) is None,
    ensures
        parsed_leases(text) is None,
{
    let b = lease_blocks(text);
    assert(field_between(b[k], "hardware ethernet "@, ";"@) is None);
    assert(lease_of_block(b[k]) is None);
}

/// A lease has an active lease for `mac` among those active at `now` exactly
/// when some lease for `mac` expires after `now`.
pub proof fn lemma_active_lease_for(ls: Seq<LeaseView>, now: int, mac: Seq<char>)
    ensures
        last_lease_for(active_leases(ls, now), mac) is Some <==> exists|i: int|
            0 <= i < ls.len() && (#[trigger] ls[i]).mac_address == mac && ls[i].expires_at > now,
        last_lease_for(active_leases(ls, now), mac) matches Some(l) ==> l.expires_at > now,
    decreases ls.len(),
{
    if ls.len() > 0 {
        let init = ls.drop_last();
        let p = active_leases(init, now);
        lemma_active_lease_for(init, now, mac);
        assert(p.push(ls.last()).drop_last() =~= p);
        assert(ls.last() == ls[ls.len() - 1]);
        if exists|i: int| 0 <= i < init.len() && (#[trigger] init[i]).mac_address == mac && init[i].expires_at > now {
            let i = choose|i: int| 0 <= i < init.len() && (#[trigger] init[i]).mac_address == mac && init[i].expires_at > now;
            assert(ls[i] == init[i]);
        }
        if exists|i: int| 0 <= i < ls.len() && (#[trigger] ls[i]).mac_address == mac && ls[i].expires_at > now {
            let i = choose|i: int| 0 <= i < ls.len() && (#[trigger] ls[i]).mac_address == mac && ls[i].expires_at > now;
            if i < init.len() {
                assert(init[i] == ls[i]);
            }
        }
    }
}

/// Completeness of the merge: a hardware address has exactly one entry when it
/// has a lease that expires after `now` or a neighbor entry, and none otherwise;
/// in particular none for a lease that has expired and no neighbor entry.
pub proof fn lemma_merge_complete(r: Seq<EntryView>, ls: Seq<LeaseView>, ns: Seq<NeighborView>, now: int)
    requires
        is_merge_of(r, active_leases(ls, now), ns),
    ensures
        forall|mac: Seq<char>|
            #[trigger] has_entry(r, mac) <==> ((exists|i: int|
                0 <= i < ls.len() && (#[trigger] ls[i]).mac_address == mac && ls[i].expires_at > now)
                || has_neighbor(ns, mac)),
        forall|i: int, j: int|
            0 <= i < r.len() && 0 <= j < r.len() && (#[trigger] r[i]).mac_address == (#[trigger] r[j]).mac_address
                ==> i == j,
        forall|i: int| 0 <= i < r.len() ==> ((#[trigger] r[i]).dhcp_lease matches Some(l) ==> l.expires_at > now),
{
    assert forall|mac: Seq<char>|
        #[trigger] has_entry(r, mac) <==> ((exists|i: int|
            0 <= i < ls.len() && (#[trigger] ls[i]).mac_address == mac && ls[i].expires_at > now)
            || has_neighbor(ns, mac)) by {
        lemma_active_lease_for(ls, now, mac);
        assert(is_key(active_leases(ls, now), ns, mac) <==> has_entry(r, mac));
    }
    assert forall|i: int| 0 <= i < r.len() implies ((#[trigger] r[i]).dhcp_lease matches Some(l) ==> l.expires_at > now) by {
        lemma_active_lease_for(ls, now, r[i].mac_address);
    }
}

proof fn lemma_piece_end_shift(pre: Seq<char>, b: Seq<char>, sep: char, i: int)
    requires
        0 <= i <= b.len(),
    ensures
        piece_end(pre + b, sep, pre.len() + i) == pre.len() + piece_end(b, sep, i),
    decreases b.len() - i,
{
    if i < b.len() {
        assert((pre + b)[pre.len() + i] == b[i]);
        if b[i] != sep {
            lemma_piece_end_shift(pre, b, sep, i + 1);
        }
    }
}

proof fn lemma_pieces_from_shift(pre: Seq<char>, b: Seq<char>, sep: char, i: int)
    requires
        0 <= i <= b.len(),
    ensures
        pieces_from(pre + b, sep, pre.len() + i) == pieces_from(b, sep, i),
    decreases b.len() + 1 - i,
{
    let t = pre + b;
    lemma_piece_end_shift(pre, b, sep, i);
    lemma_piece_end_bounds(b, sep, i);
    lemma_pieces_from_unfold(t, sep, pre.len() + i);
    lemma_pieces_from_unfold(b, sep, i);
    let e = piece_end(b, sep, i);
    assert(t.subrange(pre.len() + i, pre.len() + e) =~= b.subrange(i, e));
    if e < b.len() {
        lemma_pieces_from_shift(pre, b, sep, e + 1);
    }
}

proof fn lemma_piece_end_skip(t: Seq<char>, sep: char, i: int, j: int)
    requires
        0 <= i <= j <= t.len(),
        forall|k: int| i <= k < j ==> t[k] != sep,
    ensures
        piece_end(t, sep, i) == piece_end(t, sep, j),
    decreases j - i,
{
    if i < j {
        lemma_piece_end_skip(t, sep, i + 1, j);
    }
}

/// The first line of a neighbor table listing is a header and is dropped
/// whatever it holds: the rows are those of the text after its line feed.
pub proof fn lemma_header_dropped(header: Seq<char>, body: Seq<char>)
    requires
        forall|k: int| 0 <= k < header.len() ==> header[k] != '\n',
    ensures
        neighbor_rows(header + seq!['\n'] + body) == rows_of(lines(body)),
{
    lemma_header_lines(header, body);
}

/// A blank line (white space only) among the lines of a neighbor table listing
/// changes none of its rows.
pub proof fn lemma_blank_line_ignored(ls: Seq<Seq<char>>, k: int)
    requires
        0 <= k < ls.len(),
        trim(ls[k]).len() == 0,
    ensures
        rows_of(ls.remove(k)) == rows_of(ls),
    decreases ls.len(),
{
    if k == ls.len() - 1 {
        assert(ls.remove(k) =~= ls.drop_last());
    } else {
        let shorter = ls.remove(k);
        assert(shorter.drop_last() =~= ls.drop_last().remove(k));
        assert(shorter.last() == ls.last());
        assert(ls.drop_last()[k] == ls[k]);
        lemma_blank_line_ignored(ls.drop_last(), k);
    }
}

/// Two neighbor table listings that differ only in their first line read the
/// same: the same rows, the same entries or failure, and the same lines after
/// the header, by which a failing row is named.
pub proof fn lemma_header_irrelevant(h1: Seq<char>, h2: Seq<char>, body: Seq<char>)
    requires
        forall|k: int| 0 <= k < h1.len() ==> h1[k] != '\n',
        forall|k: int| 0 <= k < h2.len() ==> h2[k] != '\n',
    ensures
        lines(h1 + seq!['\n'] + body).drop_first() == lines(h2 + seq!['\n'] + body).drop_first(),
        neighbor_rows(h1 + seq!['\n'] + body) == neighbor_rows(h2 + seq!['\n'] + body),
        parsed_neighbors(h1 + seq!['\n'] + body) == parsed_neighbors(h2 + seq!['\n'] + body),
{
    lemma_header_lines(h1, body);
    lemma_header_lines(h2, body);
}

proof fn lemma_header_lines(header: Seq<char>, body: Seq<char>)
    requires
        forall|k: int| 0 <= k < header.len() ==> header[k] != '\n',
    ensures
        lines(header + seq!['\n'] + body).drop_first() == lines(body),
{
    let pre = header + seq!['\n'];
    let t = pre + body;
    assert(t[header.len() as int] == '\n');
    assert forall|k: int| 0 <= k < header.len() implies t[k] != '\n' by {
        assert(t[k] == header[k]);
    }
    lemma_piece_end_skip(t, '\n', 0, header.len() as int);
    lemma_pieces_from_unfold(t, '\n', 0);
    lemma_pieces_from_shift(pre, body, '\n', 0);
    assert(lines(t).drop_first() =~= lines(body));
}

proof fn lemma_first_both(keys: Seq<Seq<char>>, a: Seq<char>, b: Seq<char>)
    requires
        appears_first(keys, a, b),
    ensures
        !appears_first(keys, b, a),
{
    if appears_first(keys, b, a) {
        let p = choose|p: int|
            0 <= p < keys.len() && #[trigger] keys[p] == a && forall|q: int| 0 <= q <= p ==> keys[q] != b;
        let p2 = choose|p2: int|
            0 <= p2 < keys.len() && #[trigger] keys[p2] == b && forall|q: int| 0 <= q <= p2 ==> keys[q] != a;
        if p <= p2 {
            assert(keys[p] != a);
        } else {
            assert(keys[p2] != b);
        }
    }
}

proof fn lemma_same_prefix(
    r1: Seq<EntryView>,
    r2: Seq<EntryView>,
    ls: Seq<LeaseView>,
    ns: Seq<NeighborView>,
    i: int,
)
    requires
        is_merge_of(r1, ls, ns),
        is_merge_of(r2, ls, ns),
        in_key_order(r1, key_sequence(ls, ns)),
        in_key_order(r2, key_sequence(ls, ns)),
        0 <= i <= r1.len(),
        i <= r2.len(),
    ensures
        forall|k: int| 0 <= k < i ==> (#[trigger] r1[k]).mac_address == r2[k].mac_address,
    decreases i,
{
    if i > 0 {
        let n = i - 1;
        let keys = key_sequence(ls, ns);
        lemma_same_prefix(r1, r2, ls, ns, n);
        let m = r1[n].mac_address;
        let m2 = r2[n].mac_address;
        assert(has_entry(r1, m));
        assert(is_key(ls, ns, m));
        assert(has_entry(r2, m));
        let j = choose|j: int| 0 <= j < r2.len() && (#[trigger] r2[j]).mac_address == m;
        assert(has_entry(r2, m2));
        assert(is_key(ls, ns, m2));
        assert(has_entry(r1, m2));
        let j2 = choose|j2: int| 0 <= j2 < r1.len() && (#[trigger] r1[j2]).mac_address == m2;
        if j < n {
            assert(r1[j].mac_address == r2[j].mac_address);
            assert(r1[j].mac_address != r1[n].mac_address);
        }
        if j2 < n {
            assert(r1[j2].mac_address == r2[j2].mac_address);
            assert(r2[j2].mac_address != r2[n].mac_address);
        }
        if j > n {
            assert(appears_first(keys, r2[n].mac_address, r2[j].mac_address));
            if j2 > n {
                assert(appears_first(keys, r1[n].mac_address, r1[j2].mac_address));
                lemma_first_both(keys, m, m2);
            } else {
                assert(r2[n].mac_address != r2[j].mac_address);
            }
        }
    }
}

/// The merge is a function of its inputs: two merged views of the same leases
/// and neighbor entries, each in order of first appearance, are identical.
pub proof fn lemma_merge_identical(
    r1: Seq<EntryView>,
    r2: Seq<EntryView>,
    ls: Seq<LeaseView>,
    ns: Seq<NeighborView>,
)
    requires
        is_merge_of(r1, ls, ns),
        is_merge_of(r2, ls, ns),
        in_key_order(r1, key_sequence(ls, ns)),
        in_key_order(r2, key_sequence(ls, ns)),
    ensures
        r1 == r2,
{
    let n = if r1.len() <= r2.len() { r1.len() } else { r2.len() };
    lemma_same_prefix(r1, r2, ls, ns, n as int);
    if r1.len() > r2.len() {
        let m = r1[n as int].mac_address;
        assert(has_entry(r1, m));
        assert(is_key(ls, ns, m));
        assert(has_entry(r2, m));
        let j = choose|j: int| 0 <= j < r2.len() && (#[trigger] r2[j]).mac_address == m;
        assert(r1[j].mac_address == r2[j].mac_address);
    }
    if r2.len() > r1.len() {
        let m = r2[n as int].mac_address;
        assert(has_entry(r2, m));
        assert(is_key(ls, ns, m));
        assert(has_entry(r1, m));
        let j = choose|j: int| 0 <= j < r1.len() && (#[trigger] r1[j]).mac_address == m;
        assert(r1[j].mac_address == r2[j].mac_address);
    }
    assert forall|k: int| 0 <= k < r1.len() implies r1[k] == r2[k] by {
        assert(r1[k].mac_address == r2[k].mac_address);
    }
    assert(r1 =~= r2);
}

} // verus!
