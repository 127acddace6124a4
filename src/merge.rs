//! The outer join of leases and neighbor entries on the hardware address.

use vstd::prelude::*;
use crate::lease::{LeaseRecord, LeaseView};
use crate::neighbor::{NeighborEntry, NeighborView};

verus! {

/// What is known of one hardware address: its lease, if one is active, and the
/// neighbor entries seen for it, in the order of the listing.
#[derive(Debug)]
pub struct StatusEntry {
    pub mac_address: String,
    pub dhcp_lease: Option<LeaseRecord>,
    pub ndp_entries: Vec<NeighborEntry>,
}

pub struct EntryView {
    pub mac_address: Seq<char>,
    pub dhcp_lease: Option<LeaseView>,
    pub ndp_entries: Seq<NeighborView>,
}

pub open spec fn lease_opt_view(l: Option<LeaseRecord>) -> Option<LeaseView> {
    match l {
        Some(x) => Some(x@),
        None => None,
    }
}

pub open spec fn lease_views(s: Seq<LeaseRecord>) -> Seq<LeaseView> {
    s.map_values(|l: LeaseRecord| l@)
}

pub open spec fn neighbor_views(s: Seq<NeighborEntry>) -> Seq<NeighborView> {
    s.map_values(|n: NeighborEntry| n@)
}

impl View for StatusEntry {
    type V = EntryView;

    open spec fn view(&self) -> EntryView {
        EntryView {
            mac_address: self.mac_address@,
            dhcp_lease: lease_opt_view(self.dhcp_lease),
            ndp_entries: neighbor_views(self.ndp_entries@),
        }
    }
}

pub open spec fn entry_views(s: Seq<StatusEntry>) -> Seq<EntryView> {
    s.map_values(|e: StatusEntry| e@)
}

/// The last lease in `ls` for `mac`.
pub open spec fn last_lease_for(ls: Seq<LeaseView>, mac: Seq<char>) -> Option<LeaseView>
    decreases ls.len(),
{
    if ls.len() == 0 {
        None
    } else if ls.last().mac_address == mac {
        Some(ls.last())
    } else {
        last_lease_for(ls.drop_last(), mac)
    }
}

/// The entries of `ns` for `mac`, in order.
pub open spec fn neighbors_for(ns: Seq<NeighborView>, mac: Seq<char>) -> Seq<NeighborView>
    decreases ns.len(),
{
    if ns.len() == 0 {
        seq![]
    } else {
        let p = neighbors_for(ns.drop_last(), mac);
        if ns.last().mac_address == mac {
            p.push(ns.last())
        } else {
            p
        }
    }
}

pub open spec fn has_neighbor(ns: Seq<NeighborView>, mac: Seq<char>) -> bool {
    exists|j: int| 0 <= j < ns.len() && (#[trigger] ns[j]).mac_address == mac
}

/// `mac` is a key of the merged view: it has a lease or a neighbor entry.
pub open spec fn is_key(ls: Seq<LeaseView>, ns: Seq<NeighborView>, mac: Seq<char>) -> bool {
    last_lease_for(ls, mac) is Some || has_neighbor(ns, mac)
}

pub open spec fn has_entry(r: Seq<EntryView>, mac: Seq<char>) -> bool {
    exists|i: int| 0 <= i < r.len() && (#[trigger] r[i]).mac_address == mac
}

pub open spec fn unique_keys(r: Seq<EntryView>) -> bool {
    forall|i: int, j: int|
        0 <= i < r.len() && 0 <= j < r.len() && i != j ==> (#[trigger] r[i]).mac_address
            != (#[trigger] r[j]).mac_address
}

/// `r` is the merged view of the leases `ls` and the neighbor entries `ns`: one
/// entry for each key, which holds the last lease for it and all its neighbor
/// entries in order; the order of the entries themselves is free.
pub open spec fn is_merge_of(r: Seq<EntryView>, ls: Seq<LeaseView>, ns: Seq<NeighborView>) -> bool {
    &&& unique_keys(r)
    &&& forall|i: int|
        0 <= i < r.len() ==> (#[trigger] r[i]).dhcp_lease == last_lease_for(ls, r[i].mac_address)
            && r[i].ndp_entries == neighbors_for(ns, r[i].mac_address)
    &&& forall|mac: Seq<char>| #[trigger] is_key(ls, ns, mac) <==> has_entry(r, mac)
}

/// The hardware addresses of `ls`, in order.
pub open spec fn lease_keys(ls: Seq<LeaseView>) -> Seq<Seq<char>> {
    ls.map_values(|l: LeaseView| l.mac_address)
}

/// The hardware addresses of `ns`, in order.
pub open spec fn neighbor_keys(ns: Seq<NeighborView>) -> Seq<Seq<char>> {
    ns.map_values(|n: NeighborView| n.mac_address)
}

/// The hardware addresses in the order the merge meets them: leases first, then
/// neighbor entries.
pub open spec fn key_sequence(ls: Seq<LeaseView>, ns: Seq<NeighborView>) -> Seq<Seq<char>> {
    lease_keys(ls) + neighbor_keys(ns)
}

/// `m1` occurs in `keys` before any occurrence of `m2`.
pub open spec fn appears_first(keys: Seq<Seq<char>>, m1: Seq<char>, m2: Seq<char>) -> bool {
    exists|p: int|
        0 <= p < keys.len() && #[trigger] keys[p] == m1 && forall|q: int| 0 <= q <= p ==> keys[q] != m2
}

pub open spec fn occurs_in(keys: Seq<Seq<char>>, m: Seq<char>) -> bool {
    exists|p: int| 0 <= p < keys.len() && #[trigger] keys[p] == m
}

/// The entries of `r` come in the order in which their addresses first occur in `keys`.
pub open spec fn in_key_order(r: Seq<EntryView>, keys: Seq<Seq<char>>) -> bool {
    &&& forall|a: int| 0 <= a < r.len() ==> occurs_in(keys, (#[trigger] r[a]).mac_address)
    &&& forall|a: int, b: int|
        0 <= a < b < r.len() ==> appears_first(keys, (#[trigger] r[a]).mac_address, (#[trigger] r[b]).mac_address)
}

proof fn lemma_order_extend(r: Seq<EntryView>, keys: Seq<Seq<char>>, x: Seq<char>)
    requires
        in_key_order(r, keys),
    ensures
        in_key_order(r, keys.push(x)),
{
    let k2 = keys.push(x);
    assert forall|a: int| 0 <= a < r.len() implies occurs_in(k2, (#[trigger] r[a]).mac_address) by {
        let p = choose|p: int| 0 <= p < keys.len() && #[trigger] keys[p] == r[a].mac_address;
        assert(k2[p] == keys[p]);
    }
    assert forall|a: int, b: int| 0 <= a < b < r.len() implies appears_first(
        k2,
        (#[trigger] r[a]).mac_address,
        (#[trigger] r[b]).mac_address,
    ) by {
        let m2 = r[b].mac_address;
        let p = choose|p: int|
            0 <= p < keys.len() && #[trigger] keys[p] == r[a].mac_address && forall|q: int| 0 <= q <= p ==> keys[q] != m2;
        assert(k2[p] == keys[p]);
        assert forall|q: int| 0 <= q <= p implies k2[q] != m2 by {
            assert(k2[q] == keys[q]);
        }
    }
}

proof fn lemma_order_update(r: Seq<EntryView>, keys: Seq<Seq<char>>, idx: int, e: EntryView)
    requires
        in_key_order(r, keys),
        0 <= idx < r.len(),
        e.mac_address == r[idx].mac_address,
    ensures
        in_key_order(r.update(idx, e), keys),
{
    let r2 = r.update(idx, e);
    assert forall|a: int| 0 <= a < r2.len() implies occurs_in(keys, (#[trigger] r2[a]).mac_address) by {
        assert(r2[a].mac_address == r[a].mac_address);
    }
    assert forall|a: int, b: int| 0 <= a < b < r2.len() implies appears_first(
        keys,
        (#[trigger] r2[a]).mac_address,
        (#[trigger] r2[b]).mac_address,
    ) by {
        assert(r2[a].mac_address == r[a].mac_address);
        assert(r2[b].mac_address == r[b].mac_address);
    }
}

proof fn lemma_order_push(r: Seq<EntryView>, keys: Seq<Seq<char>>, e: EntryView)
    requires
        in_key_order(r, keys),
        forall|q: int| 0 <= q < keys.len() ==> keys[q] != e.mac_address,
    ensures
        in_key_order(r.push(e), keys.push(e.mac_address)),
{
    let m = e.mac_address;
    let k2 = keys.push(m);
    let r2 = r.push(e);
    lemma_order_extend(r, keys, m);
    assert(k2[keys.len() as int] == m);
    assert forall|a: int| 0 <= a < r2.len() implies occurs_in(k2, (#[trigger] r2[a]).mac_address) by {
        if a < r.len() {
            assert(r2[a] == r[a]);
        }
    }
    assert forall|a: int, b: int| 0 <= a < b < r2.len() implies appears_first(
        k2,
        (#[trigger] r2[a]).mac_address,
        (#[trigger] r2[b]).mac_address,
    ) by {
        assert(r2[a] == r[a]);
        if b < r.len() {
            assert(r2[b] == r[b]);
        } else {
            let p = choose|p: int| 0 <= p < k2.len() && #[trigger] k2[p] == r[a].mac_address;
            if p == keys.len() {
                let p0 = choose|p0: int| 0 <= p0 < keys.len() && #[trigger] keys[p0] == r[a].mac_address;
                assert(k2[p0] == keys[p0]);
                assert forall|q: int| 0 <= q <= p0 implies k2[q] != m by {
                    assert(k2[q] == keys[q]);
                }
            } else {
                assert forall|q: int| 0 <= q <= p implies k2[q] != m by {
                    assert(k2[q] == keys[q]);
                }
            }
        }
    }
}

proof fn lemma_no_lease_for(ls: Seq<LeaseView>, mac: Seq<char>)
    requires
        last_lease_for(ls, mac) is None,
    ensures
        forall|i: int| 0 <= i < ls.len() ==> (#[trigger] ls[i]).mac_address != mac,
    decreases ls.len(),
{
    if ls.len() > 0 {
        lemma_no_lease_for(ls.drop_last(), mac);
        assert forall|i: int| 0 <= i < ls.len() implies (#[trigger] ls[i]).mac_address != mac by {
            if i < ls.len() - 1 {
                assert(ls[i] == ls.drop_last()[i]);
            }
        }
    }
}

/// The position of the entry for `mac`, if there is one.
fn find_key(acc: &Vec<StatusEntry>, mac: &String) -> (r: Option<usize>)
    ensures
        r matches Some(i) ==> i < acc@.len() && acc@[i as int].mac_address@ == mac@,
        r is None ==> forall|i: int| 0 <= i < acc@.len() ==> (#[trigger] acc@[i]).mac_address@ != mac@,
{
    let mut i: usize = 0;
    while i < acc.len()
        invariant
            i <= acc@.len(),
            forall|k: int| 0 <= k < i ==> (#[trigger] acc@[k]).mac_address@ != mac@,
        decreases acc@.len() - i,
    {
        if acc[i].mac_address == *mac {
            return Some(i);
        }
        i = i + 1;
    }
    None
}

proof fn lemma_no_neighbors(ns: Seq<NeighborView>, mac: Seq<char>)
    requires
        !has_neighbor(ns, mac),
    ensures
        neighbors_for(ns, mac) == Seq::<NeighborView>::empty(),
    decreases ns.len(),
{
    if ns.len() > 0 {
        assert(ns[ns.len() - 1] == ns.last());
        assert forall|j: int| 0 <= j < ns.drop_last().len() implies (#[trigger] ns.drop_last()[j]).mac_address != mac by {
            assert(ns.drop_last()[j] == ns[j]);
        }
        lemma_no_neighbors(ns.drop_last(), mac);
    }
}

proof fn lemma_update_keys(before: Seq<EntryView>, idx: int, x: EntryView)
    requires
        0 <= idx < before.len(),
        x.mac_address == before[idx].mac_address,
    ensures
        forall|mac: Seq<char>| #[trigger] has_entry(before.update(idx, x), mac) == has_entry(before, mac),
        unique_keys(before) ==> unique_keys(before.update(idx, x)),
{
    let after = before.update(idx, x);
    assert forall|mac: Seq<char>| #[trigger] has_entry(after, mac) == has_entry(before, mac) by {
        if has_entry(before, mac) {
            let i = choose|i: int| 0 <= i < before.len() && (#[trigger] before[i]).mac_address == mac;
            assert(after[i].mac_address == mac);
        }
        if has_entry(after, mac) {
            let i = choose|i: int| 0 <= i < after.len() && (#[trigger] after[i]).mac_address == mac;
            assert(before[i].mac_address == mac);
        }
    }
    if unique_keys(before) {
        assert forall|i: int, j: int|
            0 <= i < after.len() && 0 <= j < after.len() && i != j implies (#[trigger] after[i]).mac_address
                != (#[trigger] after[j]).mac_address by {
            assert(before[i].mac_address != before[j].mac_address);
        }
    }
}

proof fn lemma_push_keys(before: Seq<EntryView>, x: EntryView)
    requires
        !has_entry(before, x.mac_address),
    ensures
        forall|mac: Seq<char>|
            #[trigger] has_entry(before.push(x), mac) == (has_entry(before, mac) || x.mac_address == mac),
        unique_keys(before) ==> unique_keys(before.push(x)),
{
    let after = before.push(x);
    assert forall|mac: Seq<char>|
        #[trigger] has_entry(after, mac) == (has_entry(before, mac) || x.mac_address == mac) by {
        if has_entry(before, mac) {
            let i = choose|i: int| 0 <= i < before.len() && (#[trigger] before[i]).mac_address == mac;
            assert(after[i].mac_address == mac);
        }
        if has_entry(after, mac) {
            let i = choose|i: int| 0 <= i < after.len() && (#[trigger] after[i]).mac_address == mac;
            if i < before.len() {
                assert(before[i].mac_address == mac);
            }
        }
        if x.mac_address == mac {
            assert(after[before.len() as int].mac_address == mac);
        }
    }
    if unique_keys(before) {
        assert forall|i: int, j: int|
            0 <= i < after.len() && 0 <= j < after.len() && i != j implies (#[trigger] after[i]).mac_address
                != (#[trigger] after[j]).mac_address by {
            if i < before.len() && j < before.len() {
                assert(before[i].mac_address != before[j].mac_address);
            } else if i < before.len() {
                assert(before[i].mac_address != x.mac_address);
            } else {
                assert(before[j].mac_address != x.mac_address);
            }
        }
    }
}

/// Joins the leases and the neighbor entries on the hardware address.
///
/// Leases go in first, a later one for the same address replacing an earlier
/// one; then each neighbor entry is added to the entry for its address, which is
/// made, without a lease, where there is none.
pub fn merge(leases: &Vec<LeaseRecord>, neighbors: &Vec<NeighborEntry>) -> (r: Vec<StatusEntry>)
    ensures
        is_merge_of(entry_views(r@), lease_views(leases@), neighbor_views(neighbors@)),
        in_key_order(entry_views(r@), key_sequence(lease_views(leases@), neighbor_views(neighbors@))),
{
    let ghost ls = lease_views(leases@);
    let ghost ns = neighbor_views(neighbors@);
    let mut acc: Vec<StatusEntry> = Vec::new();
    let mut k: usize = 0;
    while k < leases.len()
        invariant
            k <= leases@.len(),
            ls == lease_views(leases@),
            unique_keys(entry_views(acc@)),
            forall|i: int|
                0 <= i < acc@.len() ==> (#[trigger] entry_views(acc@)[i]).dhcp_lease == last_lease_for(
                    ls.subrange(0, k as int),
                    entry_views(acc@)[i].mac_address,
                ) && entry_views(acc@)[i].ndp_entries == Seq::<NeighborView>::empty(),
            forall|mac: Seq<char>|
                #[trigger] has_entry(entry_views(acc@), mac) <==> last_lease_for(ls.subrange(0, k as int), mac) is Some,
            in_key_order(entry_views(acc@), lease_keys(ls.subrange(0, k as int))),
        decreases leases@.len() - k,
    {
        let lease = &leases[k];
        let e = StatusEntry {
            mac_address: lease.mac_address.clone(),
            dhcp_lease: Some(lease.duplicate()),
            ndp_entries: Vec::new(),
        };
        let ghost before = entry_views(acc@);
        let ghost pre = ls.subrange(0, k as int);
        let ghost post = ls.subrange(0, k + 1);
        proof {
            assert(post.drop_last() =~= pre);
            assert(ls[k as int] == lease@);
            assert(e@.ndp_entries =~= Seq::<NeighborView>::empty());
            assert(lease_keys(post) =~= lease_keys(pre).push(lease@.mac_address));
        }
        match find_key(&acc, &lease.mac_address) {
            Some(idx) => {
                acc.set(idx, e);
                proof {
                    let after = entry_views(acc@);
                    assert(after =~= before.update(idx as int, e@));
                    lemma_update_keys(before, idx as int, e@);
                    lemma_order_update(before, lease_keys(pre), idx as int, e@);
                    lemma_order_extend(after, lease_keys(pre), lease@.mac_address);
                    assert forall|mac: Seq<char>| #[trigger] has_entry(after, mac) <==> last_lease_for(post, mac) is Some by {
                        if mac == lease@.mac_address {
                            assert(before[idx as int].mac_address == mac);
                        }
                    }
                    assert forall|i: int| 0 <= i < after.len() implies (#[trigger] after[i]).dhcp_lease
                        == last_lease_for(post, after[i].mac_address) && after[i].ndp_entries
                        == Seq::<NeighborView>::empty() by {
                        if i != idx {
                            assert(before[i].mac_address != before[idx as int].mac_address);
                        }
                    }
                }
            },
            None => {
                proof {
                    assert(!has_entry(before, lease@.mac_address));
                    lemma_no_lease_for(pre, lease@.mac_address);
                }
                acc.push(e);
                proof {
                    let after = entry_views(acc@);
                    assert(after =~= before.push(e@));
                    lemma_push_keys(before, e@);
                    assert forall|q: int| 0 <= q < lease_keys(pre).len() implies lease_keys(pre)[q] != e@.mac_address by {
                        assert(lease_keys(pre)[q] == pre[q].mac_address);
                    }
                    lemma_order_push(before, lease_keys(pre), e@);
                    assert forall|i: int| 0 <= i < after.len() implies (#[trigger] after[i]).dhcp_lease
                        == last_lease_for(post, after[i].mac_address) && after[i].ndp_entries
                        == Seq::<NeighborView>::empty() by {
                        if i < before.len() {
                            assert(before[i].mac_address != lease@.mac_address);
                        }
                    }
                }
            },
        }
        k = k + 1;
    }
    assert(ls.subrange(0, k as int) =~= ls);
    let mut j: usize = 0;
    while j < neighbors.len()
        invariant
            j <= neighbors@.len(),
            ls == lease_views(leases@),
            ns == neighbor_views(neighbors@),
            unique_keys(entry_views(acc@)),
            forall|i: int|
                0 <= i < acc@.len() ==> (#[trigger] entry_views(acc@)[i]).dhcp_lease == last_lease_for(
                    ls,
                    entry_views(acc@)[i].mac_address,
                ) && entry_views(acc@)[i].ndp_entries == neighbors_for(
                    ns.subrange(0, j as int),
                    entry_views(acc@)[i].mac_address,
                ),
            forall|mac: Seq<char>|
                #[trigger] has_entry(entry_views(acc@), mac) <==> (last_lease_for(ls, mac) is Some
                    || has_neighbor(ns.subrange(0, j as int), mac)),
            in_key_order(entry_views(acc@), lease_keys(ls) + neighbor_keys(ns.subrange(0, j as int))),
        decreases neighbors@.len() - j,
    {
        let n = &neighbors[j];
        let ghost pre = ns.subrange(0, j as int);
        let ghost post = ns.subrange(0, j + 1);
        proof {
            assert(post.drop_last() =~= pre);
            assert(ns[j as int] == n@);
            assert(post.last() == n@);
            assert(lease_keys(ls) + neighbor_keys(post) =~= (lease_keys(ls) + neighbor_keys(pre)).push(n@.mac_address));
            assert forall|mac: Seq<char>| has_neighbor(post, mac) <==> (has_neighbor(pre, mac) || n@.mac_address == mac) by {
                if has_neighbor(pre, mac) {
                    let w = choose|w: int| 0 <= w < pre.len() && (#[trigger] pre[w]).mac_address == mac;
                    assert(post[w] == pre[w]);
                }
                if has_neighbor(post, mac) {
                    let w = choose|w: int| 0 <= w < post.len() && (#[trigger] post[w]).mac_address == mac;
                    if w < j {
                        assert(post[w] == pre[w]);
                    }
                }
                if n@.mac_address == mac {
                    assert(post[j as int] == n@);
                }
            }
        }
        let ghost keys_pre = lease_keys(ls) + neighbor_keys(pre);
        let idx = match find_key(&acc, &n.mac_address) {
            Some(idx) => {
                proof {
                    lemma_order_extend(entry_views(acc@), keys_pre, n@.mac_address);
                }
                idx
            },
            None => {
                let ghost before = entry_views(acc@);
                proof {
                    assert(!has_entry(before, n@.mac_address));
                    lemma_no_neighbors(pre, n@.mac_address);
                }
                let e = StatusEntry {
                    mac_address: n.mac_address.clone(),
                    dhcp_lease: None,
                    ndp_entries: Vec::new(),
                };
                acc.push(e);
                proof {
                    let after = entry_views(acc@);
                    assert(after =~= before.push(e@));
                    assert(e@.ndp_entries =~= Seq::<NeighborView>::empty());
                    lemma_push_keys(before, e@);
                    lemma_no_lease_for(ls, n@.mac_address);
                    assert forall|q: int| 0 <= q < keys_pre.len() implies keys_pre[q] != e@.mac_address by {
                        if q < ls.len() {
                            assert(keys_pre[q] == ls[q].mac_address);
                        } else {
                            assert(keys_pre[q] == pre[q - ls.len()].mac_address);
                            assert(!(0 <= q - ls.len() < pre.len() && pre[q - ls.len()].mac_address == n@.mac_address));
                        }
                    }
                    lemma_order_push(before, keys_pre, e@);
                }
                acc.len() - 1
            },
        };
        let ghost before = entry_views(acc@);
        let mut e = acc.remove(idx);
        e.ndp_entries.push(n.duplicate());
        acc.insert(idx, e);
        proof {
            let after = entry_views(acc@);
            assert(e@.ndp_entries =~= before[idx as int].ndp_entries.push(n@));
            assert(after =~= before.update(idx as int, e@));
            lemma_update_keys(before, idx as int, e@);
            lemma_order_update(before, lease_keys(ls) + neighbor_keys(post), idx as int, e@);
            assert forall|i: int| 0 <= i < after.len() implies (#[trigger] after[i]).dhcp_lease
                == last_lease_for(ls, after[i].mac_address) && after[i].ndp_entries
                == neighbors_for(post, after[i].mac_address) by {
                if i != idx {
                    assert(before[i].mac_address != before[idx as int].mac_address);
                }
            }
        }
        j = j + 1;
    }
    assert(ns.subrange(0, j as int) =~= ns);
    assert(lease_keys(ls) + neighbor_keys(ns) == key_sequence(ls, ns));
    acc
}

} // verus!
