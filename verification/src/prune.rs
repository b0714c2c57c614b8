//! Dropping the zones that never got a type, and re-deriving every index that the
//! survivors hold.

use crate::tree::{
    acyclic, ancestor_at, children_wired, lemma_chain_ends, lemma_rank_descends, parent_links,
    ranked, wire_children,
};
use crate::zone::{zone_types, Zone, ZoneIndex, ZoneType};
use vstd::prelude::*;

verus! {

/// The zone at position `k` survives pruning: it has a type.
pub open spec fn survives(types: Seq<Option<ZoneType>>, k: int) -> bool {
    0 <= k < types.len() && types[k] is Some
}

/// How many of the first `k` zones survive. For a surviving zone at position `k` this
/// is its position after pruning.
pub open spec fn survivors_before(types: Seq<Option<ZoneType>>, k: int) -> nat
    decreases k,
{
    if k <= 0 {
        0
    } else {
        survivors_before(types, k - 1) + if survives(types, k - 1) {
            1nat
        } else {
            0nat
        }
    }
}

/// The ancestor `steps` links above zone `i` survives, and none nearer does.
pub open spec fn is_nearest_surviving(
    types: Seq<Option<ZoneType>>,
    links: Seq<Option<ZoneIndex>>,
    i: int,
    steps: nat,
) -> bool {
    &&& steps >= 1
    &&& ancestor_at(links, i, steps) matches Some(a) && survives(types, a)
    &&& forall|t: nat|
        1 <= t < steps ==> (#[trigger] ancestor_at(links, i, t) matches Some(b) ==> !survives(
            types,
            b,
        ))
}

/// `parent` is the link that zone `i` holds after pruning: it leads to the new
/// position of its nearest surviving ancestor; without such an ancestor the zone is a
/// root.
pub open spec fn is_new_parent(
    types: Seq<Option<ZoneType>>,
    links: Seq<Option<ZoneIndex>>,
    i: int,
    parent: Option<ZoneIndex>,
) -> bool {
    match parent {
        Some(p) => exists|s: nat| #[trigger]
            is_nearest_surviving(types, links, i, s) && p.index == survivors_before(
                types,
                ancestor_at(links, i, s)->0,
            ),
        None => forall|s: nat| !#[trigger] is_nearest_surviving(types, links, i, s),
    }
}

/// `after` is `before` pruned: the surviving zones in their old order, each with its
/// new position for id and its new parent link, the child links mirroring the parent
/// links, and everything else as it was.
pub open spec fn pruned(before: Seq<Zone>, after: Seq<Zone>) -> bool {
    &&& after.len() == survivors_before(zone_types(before), before.len() as int)
    &&& forall|k: int|
        survives(zone_types(before), k) ==> {
            let m = #[trigger] survivors_before(zone_types(before), k);
            &&& m < after.len()
            &&& after[m as int] == (Zone {
                id: ZoneIndex { index: m as usize },
                parent: after[m as int].parent,
                children: after[m as int].children,
                ..before[k]
            })
            &&& is_new_parent(zone_types(before), parent_links(before), k, after[m as int].parent)
        }
    &&& children_wired(after)
}

/// The count of survivors grows with the position, never beyond it, and strictly past
/// a survivor.
pub proof fn lemma_survivors_monotone(types: Seq<Option<ZoneType>>, a: int, b: int)
    requires
        a <= b,
    ensures
        survivors_before(types, a) <= survivors_before(types, b),
        b >= 0 ==> survivors_before(types, b) <= b,
        a < b && survives(types, a) ==> survivors_before(types, a) < survivors_before(types, b),
    decreases b - a,
{
    lemma_survivors_bounded(types, b);
    if a < b {
        lemma_survivors_monotone(types, a + 1, b);
    }
}

proof fn lemma_survivors_bounded(types: Seq<Option<ZoneType>>, k: int)
    ensures
        k >= 0 ==> survivors_before(types, k) <= k,
    decreases k,
{
    if k > 0 {
        lemma_survivors_bounded(types, k - 1);
    }
}

/// Position of the nearest surviving ancestor of zone `i`.
fn nearest_surviving(zones: &Vec<Zone>, i: usize, Ghost(rank): Ghost<Seq<nat>>) -> (r: Option<usize>)
    requires
        ranked(parent_links(zones@), rank),
        i < zones.len(),
    ensures
        match r {
            Some(a) => a < zones.len() && exists|s: nat| #[trigger]
                is_nearest_surviving(zone_types(zones@), parent_links(zones@), i as int, s)
                    && ancestor_at(parent_links(zones@), i as int, s) == Some(a as int),
            None => forall|s: nat| !#[trigger] is_nearest_surviving(
                zone_types(zones@),
                parent_links(zones@),
                i as int,
                s,
            ),
        },
{
    let ghost links = parent_links(zones@);
    let ghost types = zone_types(zones@);
    let mut cur = i;
    let ghost mut steps: nat = 0;
    loop
        invariant
            links == parent_links(zones@),
            types == zone_types(zones@),
            ranked(links, rank),
            i < zones.len(),
            cur < zones.len(),
            ancestor_at(links, i as int, steps) == Some(cur as int),
            forall|t: nat|
                1 <= t <= steps ==> (#[trigger] ancestor_at(links, i as int, t) matches Some(b)
                    ==> !survives(types, b)),
        decreases rank[cur as int],
    {
        match zones[cur].parent {
            None => {
                proof {
                    assert(links[cur as int] is None);
                    assert(ancestor_at(links, i as int, steps + 1) is None);
                    assert forall|s: nat| !#[trigger] is_nearest_surviving(
                        types,
                        links,
                        i as int,
                        s,
                    ) by {
                        if s > steps {
                            lemma_chain_ends(links, i as int, steps + 1, s);
                        }
                    }
                }
                return None;
            },
            Some(p) => {
                proof {
                    assert(links[cur as int] == Some(p));
                    assert(ancestor_at(links, i as int, steps + 1) == Some(p.index as int));
                }
                if zones[p.index].zone_type.is_some() {
                    assert(is_nearest_surviving(types, links, i as int, steps + 1));
                    return Some(p.index);
                }
                proof {
                    steps = steps + 1;
                }
                cur = p.index;
            },
        }
    }
}

/// Removes the zones without type.
///
/// The survivors keep their order. Their ids are re-issued to match their new
/// positions, the parent link of each is re-derived to lead to its nearest surviving
/// ancestor, and the child links are rebuilt from the parent links.
pub fn clean_untagged_zones(zones: &mut Vec<Zone>)
    requires
        acyclic(parent_links(old(zones)@)),
    ensures
        pruned(old(zones)@, final(zones)@),
        forall|m: int| 0 <= m < final(zones)@.len() ==> (#[trigger] final(zones)@[m]).zone_type is Some,
        acyclic(parent_links(final(zones)@)),
{
    let ghost before = zones@;
    let ghost links = parent_links(before);
    let ghost types = zone_types(before);
    let ghost rank = choose|rank: Seq<nat>| ranked(links, rank);
    let n = zones.len();
    // Where every zone will stand.
    let mut position: Vec<usize> = Vec::new();
    let mut kept: usize = 0;
    let mut k: usize = 0;
    while k < n
        invariant
            n == zones.len(),
            zones@ == before,
            types == zone_types(before),
            k <= n,
            kept == survivors_before(types, k as int),
            kept <= k,
            position.len() == k,
            forall|j: int| 0 <= j < k ==> #[trigger] position@[j] == survivors_before(types, j),
        decreases n - k,
    {
        position.push(kept);
        if zones[k].zone_type.is_some() {
            kept += 1;
        }
        k += 1;
    }
    // Where the parent link of every zone will lead.
    let mut new_parent: Vec<Option<ZoneIndex>> = Vec::new();
    let mut k: usize = 0;
    while k < n
        invariant
            n == zones.len(),
            zones@ == before,
            links == parent_links(before),
            types == zone_types(before),
            ranked(links, rank),
            k <= n,
            kept == survivors_before(types, n as int),
            position.len() == n,
            forall|j: int| 0 <= j < n ==> #[trigger] position@[j] == survivors_before(types, j),
            new_parent.len() == k,
            forall|j: int| 0 <= j < k ==> is_new_parent(types, links, j, #[trigger] new_parent@[j]),
            forall|j: int| 0 <= j < k ==> (#[trigger] new_parent@[j] matches Some(p) ==> p.index < kept),
        decreases n - k,
    {
        match nearest_surviving(zones, k, Ghost(rank)) {
            Some(a) => {
                proof {
                    lemma_survivors_monotone(types, a as int, n as int);
                }
                new_parent.push(Some(ZoneIndex { index: position[a] }));
            },
            None => {
                new_parent.push(None);
            },
        }
        k += 1;
    }
    // Take the zones out, last first, and put the survivors back in order.
    let mut taken: Vec<Zone> = Vec::new();
    while zones.len() > 0
        invariant
            zones.len() + taken.len() == n,
            n == before.len(),
            forall|j: int| 0 <= j < zones.len() ==> #[trigger] zones@[j] == before[j],
            forall|j: int| 0 <= j < taken.len() ==> #[trigger] taken@[j] == before[n - 1 - j],
        decreases zones.len(),
    {
        let z = zones.pop().unwrap();
        taken.push(z);
    }
    let ghost mut origin: Seq<int> = Seq::empty();
    let mut k: usize = 0;
    while k < n
        invariant
            n == before.len(),
            types == zone_types(before),
            k <= n,
            taken.len() == n - k,
            forall|j: int| 0 <= j < taken.len() ==> #[trigger] taken@[j] == before[n - 1 - j],
            position.len() == n,
            forall|j: int| 0 <= j < n ==> #[trigger] position@[j] == survivors_before(types, j),
            new_parent.len() == n,
            kept == survivors_before(types, n as int),
            zones.len() == survivors_before(types, k as int),
            origin.len() == zones.len(),
            forall|m: int|
                0 <= m < zones.len() ==> {
                    let o = #[trigger] origin[m];
                    &&& 0 <= o < k
                    &&& survives(types, o)
                    &&& survivors_before(types, o) == m
                    &&& zones@[m] == (Zone {
                        id: ZoneIndex { index: m as usize },
                        parent: new_parent@[o],
                        children: zones@[m].children,
                        ..before[o]
                    })
                    &&& zones@[m].children@.len() == 0
                },
            forall|j: int|
                0 <= j < k && survives(types, j) ==> origin[#[trigger] survivors_before(types, j) as int]
                    == j,
        decreases n - k,
    {
        let mut z = taken.pop().unwrap();
        assert(z == before[k as int]);
        proof {
            lemma_survivors_monotone(types, k as int, n as int);
        }
        let ghost held = origin;
        if z.zone_type.is_some() {
            z.id = ZoneIndex { index: zones.len() };
            z.parent = new_parent[k];
            z.children = Vec::new();
            zones.push(z);
            proof {
                origin = origin.push(k as int);
            }
        }
        proof {
            assert forall|j: int| 0 <= j < k + 1 && survives(types, j) implies origin[
            #[trigger] survivors_before(types, j) as int] == j by {
                if j < k {
                    lemma_survivors_monotone(types, j, k as int);
                    assert(held[survivors_before(types, j) as int] == j);
                }
            }
        }
        k += 1;
    }
    let ghost moved = zones@;
    assert forall|m: int| 0 <= m < moved.len() implies (#[trigger] moved[m]).children@.len()
        == 0 by {
        let o = origin[m];
    }
    assert forall|m: int| 0 <= m < moved.len() implies ((#[trigger] moved[m]).parent matches Some(p)
        ==> p.index < moved.len()) by {
        let o = origin[m];
        assert(moved[m].parent == new_parent@[o]);
    }
    wire_children(zones);
    proof {
        let after = zones@;
        let new_links = parent_links(after);
        assert forall|j: int| survives(types, j) implies {
            let m = #[trigger] survivors_before(types, j);
            &&& m < after.len()
            &&& after[m as int] == (Zone {
                id: ZoneIndex { index: m as usize },
                parent: after[m as int].parent,
                children: after[m as int].children,
                ..before[j]
            })
            &&& is_new_parent(types, links, j, after[m as int].parent)
        } by {
            let m = survivors_before(types, j);
            lemma_survivors_monotone(types, j, n as int);
            assert(origin[m as int] == j);
            assert(moved[m as int].parent == new_parent@[j]);
        }
        assert forall|m: int| 0 <= m < after.len() implies (#[trigger] after[m]).zone_type is Some by {
            let o = origin[m];
            assert(survives(types, o));
        }
        let new_rank = Seq::new(after.len(), |m: int| rank[origin[m]]);
        assert forall|m: int| 0 <= m < new_links.len() implies (#[trigger] new_links[m] matches Some(
            p,
        ) ==> p.index < new_links.len() && new_rank[p.index as int] < new_rank[m]) by {
            if new_links[m] is Some {
                let p = new_links[m]->0;
                let o = origin[m];
                assert(moved[m].parent == new_parent@[o]);
                assert(is_new_parent(types, links, o, Some(p)));
                let s = choose|s: nat| #[trigger]
                    is_nearest_surviving(types, links, o, s) && p.index == survivors_before(
                        types,
                        ancestor_at(links, o, s)->0,
                    );
                let a = ancestor_at(links, o, s)->0;
                lemma_rank_descends(links, rank, o, s);
                lemma_survivors_monotone(types, a, n as int);
                assert(origin[survivors_before(types, a) as int] == a);
            }
        }
        assert(ranked(new_links, new_rank));
    }
}

/// Pruning gives a zone one parent link only.
pub proof fn lemma_new_parent_unique(
    types: Seq<Option<ZoneType>>,
    links: Seq<Option<ZoneIndex>>,
    i: int,
    first: Option<ZoneIndex>,
    second: Option<ZoneIndex>,
)
    requires
        is_new_parent(types, links, i, first),
        is_new_parent(types, links, i, second),
    ensures
        first == second,
{
    if first is Some && second is Some {
        let s1 = choose|s: nat| #[trigger]
            is_nearest_surviving(types, links, i, s) && first->0.index == survivors_before(
                types,
                ancestor_at(links, i, s)->0,
            );
        let s2 = choose|s: nat| #[trigger]
            is_nearest_surviving(types, links, i, s) && second->0.index == survivors_before(
                types,
                ancestor_at(links, i, s)->0,
            );
        if s1 < s2 {
            assert(ancestor_at(links, i, s1) is Some);
        } else if s2 < s1 {
            assert(ancestor_at(links, i, s2) is Some);
        }
    } else if first is Some {
        let s1 = choose|s: nat| #[trigger]
            is_nearest_surviving(types, links, i, s) && first->0.index == survivors_before(
                types,
                ancestor_at(links, i, s)->0,
            );
    } else if second is Some {
        let s2 = choose|s: nat| #[trigger]
            is_nearest_surviving(types, links, i, s) && second->0.index == survivors_before(
                types,
                ancestor_at(links, i, s)->0,
            );
    }
}

/// Every position after pruning is that of a survivor among the first `upto` zones.
pub proof fn lemma_survivor_at(types: Seq<Option<ZoneType>>, upto: int, m: int) -> (k: int)
    requires
        0 <= m < survivors_before(types, upto),
    ensures
        0 <= k < upto,
        survives(types, k),
        survivors_before(types, k) == m,
    decreases upto,
{
    if survives(types, upto - 1) && survivors_before(types, upto - 1) == m {
        upto - 1
    } else {
        lemma_survivor_at(types, upto - 1, m)
    }
}

} // verus!
