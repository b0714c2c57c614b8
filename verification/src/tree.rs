//! Parent links of a zone collection, and what it means for them to form a forest.

use crate::zone::{Zone, ZoneIndex};
use vstd::prelude::*;

verus! {

/// The parent link of every zone, by position.
pub open spec fn parent_links(zones: Seq<Zone>) -> Seq<Option<ZoneIndex>> {
    Seq::new(zones.len(), |k: int| zones[k].parent)
}

/// The position that the parent link of `a` leads to.
pub open spec fn step_up(links: Seq<Option<ZoneIndex>>, a: int) -> Option<int> {
    if 0 <= a < links.len() {
        match links[a] {
            Some(p) => Some(p.index as int),
            None => None,
        }
    } else {
        None
    }
}

/// Where one arrives after following parent links `steps` times from `i`, if the chain
/// is that long.
pub open spec fn ancestor_at(links: Seq<Option<ZoneIndex>>, i: int, steps: nat) -> Option<int>
    decreases steps,
{
    if steps == 0 {
        Some(i)
    } else {
        match ancestor_at(links, i, (steps - 1) as nat) {
            Some(a) => step_up(links, a),
            None => None,
        }
    }
}

/// `above` is `below` itself or one of its ancestors.
pub open spec fn is_ancestor_or_self(links: Seq<Option<ZoneIndex>>, below: int, above: int) -> bool {
    exists|steps: nat| ancestor_at(links, below, steps) == Some(above)
}

/// Every link stays inside the collection and leads to a zone of strictly smaller rank.
pub open spec fn ranked(links: Seq<Option<ZoneIndex>>, rank: Seq<nat>) -> bool {
    &&& rank.len() == links.len()
    &&& forall|k: int|
        0 <= k < links.len() ==> (#[trigger] links[k] matches Some(p) ==> p.index < links.len()
            && rank[p.index as int] < rank[k])
}

/// The links form a forest: some ranking decreases along every link.
pub open spec fn acyclic(links: Seq<Option<ZoneIndex>>) -> bool {
    exists|rank: Seq<nat>| ranked(links, rank)
}

/// The list of children that zone `p` should carry: the zones whose parent link leads
/// to `p`, in ascending position.
pub open spec fn is_child_list(links: Seq<Option<ZoneIndex>>, p: int, list: Seq<ZoneIndex>) -> bool {
    &&& forall|k: int|
        0 <= k < list.len() ==> (#[trigger] list[k]).index < links.len() && links[list[k].index as int]
            == Some(ZoneIndex { index: p as usize })
    &&& forall|c: int|
        0 <= c < links.len() && #[trigger] links[c] == Some(ZoneIndex { index: p as usize })
            ==> list.contains(ZoneIndex { index: c as usize })
    &&& forall|a: int, b: int|
        0 <= a < b < list.len() ==> (#[trigger] list[a]).index < (#[trigger] list[b]).index
}

/// Parent and child links of the collection mirror each other.
pub open spec fn children_wired(zones: Seq<Zone>) -> bool {
    forall|p: int|
        0 <= p < zones.len() ==> is_child_list(parent_links(zones), p, (#[trigger] zones[p]).children@)
}

/// Following the link of `z` first and then `steps` more is following `steps + 1` from `z`.
pub proof fn lemma_ancestor_shift(links: Seq<Option<ZoneIndex>>, z: int, steps: nat)
    requires
        0 <= z < links.len(),
        links[z] is Some,
    ensures
        ancestor_at(links, z, steps + 1) == ancestor_at(links, links[z]->0.index as int, steps),
    decreases steps,
{
    reveal_with_fuel(ancestor_at, 2);
    if steps > 0 {
        lemma_ancestor_shift(links, z, (steps - 1) as nat);
    }
}

/// A chain that has ended does not start again.
pub proof fn lemma_chain_ends(links: Seq<Option<ZoneIndex>>, i: int, ended: nat, later: nat)
    requires
        ancestor_at(links, i, ended) is None,
        ended <= later,
    ensures
        ancestor_at(links, i, later) is None,
    decreases later,
{
    if later > ended {
        lemma_chain_ends(links, i, ended, (later - 1) as nat);
    }
}

/// In ranked links every proper ancestor lies inside the collection and has a smaller
/// rank than the zone one started from.
pub proof fn lemma_rank_descends(
    links: Seq<Option<ZoneIndex>>,
    rank: Seq<nat>,
    i: int,
    steps: nat,
)
    requires
        ranked(links, rank),
        0 <= i < links.len(),
        steps >= 1,
        ancestor_at(links, i, steps) is Some,
    ensures
        0 <= ancestor_at(links, i, steps)->0 < links.len(),
        rank[ancestor_at(links, i, steps)->0] < rank[i],
    decreases steps,
{
    reveal_with_fuel(ancestor_at, 2);
    if steps > 1 {
        lemma_rank_descends(links, rank, i, (steps - 1) as nat);
    }
}

/// In a forest no zone is its own ancestor, however many links one follows.
pub proof fn lemma_no_zone_is_its_own_ancestor(links: Seq<Option<ZoneIndex>>, i: int, steps: nat)
    requires
        acyclic(links),
        0 <= i < links.len(),
        steps >= 1,
    ensures
        ancestor_at(links, i, steps) != Some(i),
{
    let rank = choose|rank: Seq<nat>| ranked(links, rank);
    if ancestor_at(links, i, steps) is Some {
        lemma_rank_descends(links, rank, i, steps);
    }
}

/// Giving the root `i` the parent `c`, which is not below `i`, leaves the links a
/// forest: the zones at and below `i` move up in rank past `c`.
pub proof fn lemma_graft_keeps_ranking(
    links: Seq<Option<ZoneIndex>>,
    rank: Seq<nat>,
    i: int,
    c: ZoneIndex,
) -> (lifted: Seq<nat>)
    requires
        ranked(links, rank),
        0 <= i < links.len(),
        links[i] is None,
        c.index < links.len(),
        !is_ancestor_or_self(links, c.index as int, i),
    ensures
        ranked(links.update(i, Some(c)), lifted),
{
    let lifted = Seq::new(
        links.len(),
        |z: int|
            if is_ancestor_or_self(links, z, i) {
                rank[z] + rank[c.index as int] + 1
            } else {
                rank[z]
            },
    );
    let grafted = links.update(i, Some(c));
    assert(ancestor_at(links, i, 0) == Some(i));
    assert forall|k: int| 0 <= k < grafted.len() implies (#[trigger] grafted[k] matches Some(p)
        ==> p.index < grafted.len() && lifted[p.index as int] < lifted[k]) by {
        if grafted[k] is Some && k != i {
            let p = links[k]->0;
            if is_ancestor_or_self(links, p.index as int, i) {
                let s = choose|s: nat| ancestor_at(links, p.index as int, s) == Some(i);
                lemma_ancestor_shift(links, k, s);
                assert(ancestor_at(links, k, s + 1) == Some(i));
            }
        }
    }
    lifted
}

/// The links of the zones before `i`, the others taken for roots.
pub open spec fn links_before(links: Seq<Option<ZoneIndex>>, i: int) -> Seq<Option<ZoneIndex>> {
    Seq::new(
        links.len(),
        |k: int|
            if k < i {
                links[k]
            } else {
                None
            },
    )
}

/// `after` is `before` but for the parent and child links of its zones.
pub open spec fn only_links_differ(before: Seq<Zone>, after: Seq<Zone>) -> bool {
    &&& after.len() == before.len()
    &&& forall|k: int|
        0 <= k < before.len() ==> #[trigger] after[k] == (Zone {
            parent: after[k].parent,
            children: after[k].children,
            ..before[k]
        })
}

/// Writes into every zone the list of its children, as the parent links give it.
pub fn wire_children(zones: &mut Vec<Zone>)
    requires
        forall|k: int| 0 <= k < old(zones)@.len() ==> (#[trigger] old(zones)@[k]).children@.len() == 0,
        forall|k: int|
            0 <= k < old(zones)@.len() ==> ((#[trigger] old(zones)@[k]).parent matches Some(p)
                ==> p.index < old(zones)@.len()),
    ensures
        final(zones)@.len() == old(zones)@.len(),
        forall|k: int|
            0 <= k < old(zones)@.len() ==> #[trigger] final(zones)@[k] == (Zone {
                children: final(zones)@[k].children,
                ..old(zones)@[k]
            }),
        children_wired(final(zones)@),
{
    let n = zones.len();
    let ghost links = parent_links(zones@);
    let mut i: usize = 0;
    while i < n
        invariant
            n == zones.len(),
            n == old(zones)@.len(),
            i <= n,
            links == parent_links(old(zones)@),
            forall|k: int| 0 <= k < n ==> (#[trigger] links[k] matches Some(p) ==> p.index < n),
            forall|k: int|
                0 <= k < n ==> #[trigger] zones@[k] == (Zone {
                    children: zones@[k].children,
                    ..old(zones)@[k]
                }),
            forall|p: int|
                0 <= p < n ==> is_child_list(
                    links_before(links, i as int),
                    p,
                    (#[trigger] zones@[p]).children@,
                ),
        decreases n - i,
    {
        let ghost held = zones@;
        let ghost seen = links_before(links, i as int);
        let ghost next = links_before(links, i + 1);
        assert(links[i as int] == zones@[i as int].parent);
        if let Some(p) = zones[i].parent {
            zones[p.index].children.push(ZoneIndex { index: i });
            proof {
                assert forall|q: int| 0 <= q < n implies is_child_list(
                    next,
                    q,
                    (#[trigger] zones@[q]).children@,
                ) by {
                    let was = held[q].children@;
                    let now = zones@[q].children@;
                    assert(is_child_list(seen, q, was));
                    assert forall|k: int| 0 <= k < was.len() implies (#[trigger] was[k]).index
                        < i by {
                        assert(seen[was[k].index as int] is Some);
                    }
                    if q == p.index {
                        assert(now == was.push(ZoneIndex { index: i }));
                        assert forall|c: int|
                            0 <= c < next.len() && #[trigger] next[c] == Some(
                                ZoneIndex { index: q as usize },
                            ) implies now.contains(ZoneIndex { index: c as usize }) by {
                            if c == i {
                                assert(now[was.len() as int] == ZoneIndex { index: i });
                            } else {
                                assert(seen[c] == Some(ZoneIndex { index: q as usize }));
                                let w = choose|w: int|
                                    0 <= w < was.len() && was[w] == (ZoneIndex { index: c as usize });
                                assert(now[w] == was[w]);
                            }
                        }
                        assert forall|a: int, b: int| 0 <= a < b < now.len() implies (
                        #[trigger] now[a]).index < (#[trigger] now[b]).index by {
                            if b == was.len() {
                                assert(now[a] == was[a]);
                            } else {
                                assert(now[a] == was[a] && now[b] == was[b]);
                            }
                        }
                        assert forall|k: int| 0 <= k < now.len() implies (#[trigger] now[k]).index
                            < next.len() && next[now[k].index as int] == Some(
                            ZoneIndex { index: q as usize },
                        ) by {
                            if k < was.len() {
                                assert(now[k] == was[k]);
                                assert(seen[was[k].index as int] == next[was[k].index as int]);
                            }
                        }
                    } else {
                        assert(now == was);
                        assert forall|k: int| 0 <= k < now.len() implies (#[trigger] now[k]).index
                            < next.len() && next[now[k].index as int] == Some(
                            ZoneIndex { index: q as usize },
                        ) by {
                            assert(seen[was[k].index as int] == next[was[k].index as int]);
                        }
                        assert forall|c: int|
                            0 <= c < next.len() && #[trigger] next[c] == Some(
                                ZoneIndex { index: q as usize },
                            ) implies now.contains(ZoneIndex { index: c as usize }) by {
                            assert(seen[c] == Some(ZoneIndex { index: q as usize }));
                        }
                    }
                }
            }
        } else {
            assert(next =~= seen);
        }
        i += 1;
    }
    proof {
        assert(links_before(links, n as int) =~= links);
        assert(parent_links(zones@) =~= links);
    }
}

/// Two child lists of one zone agree at every position that both have.
proof fn lemma_child_lists_agree_at(
    links: Seq<Option<ZoneIndex>>,
    p: int,
    first: Seq<ZoneIndex>,
    second: Seq<ZoneIndex>,
    k: int,
)
    requires
        is_child_list(links, p, first),
        is_child_list(links, p, second),
        0 <= k < first.len(),
        k < second.len(),
    ensures
        first[k] == second[k],
    decreases k,
{
    assert forall|q: int| 0 <= q < k implies first[q] == second[q] by {
        lemma_child_lists_agree_at(links, p, first, second, q);
    }
    let a = first[k];
    let b = second[k];
    assert(links[a.index as int] == Some(ZoneIndex { index: p as usize }));
    assert(links[b.index as int] == Some(ZoneIndex { index: p as usize }));
    assert(second.contains(ZoneIndex { index: a.index as int as usize }));
    assert(first.contains(ZoneIndex { index: b.index as int as usize }));
    let wa = choose|w: int| 0 <= w < second.len() && second[w] == a;
    let wb = choose|w: int| 0 <= w < first.len() && first[w] == b;
    if wa < k {
        assert(first[wa] == a);
        assert(first[wa].index < first[k].index);
    }
    if wb < k {
        assert(second[wb] == b);
        assert(second[wb].index < second[k].index);
    }
    if wa > k {
        assert(second[k].index < second[wa].index);
        if wb > k {
            assert(first[k].index < first[wb].index);
        }
    }
}

/// A zone has one child list only.
pub proof fn lemma_child_list_unique(
    links: Seq<Option<ZoneIndex>>,
    p: int,
    first: Seq<ZoneIndex>,
    second: Seq<ZoneIndex>,
)
    requires
        is_child_list(links, p, first),
        is_child_list(links, p, second),
    ensures
        first == second,
{
    assert forall|k: int| 0 <= k < first.len() && k < second.len() implies first[k]
        == second[k] by {
        lemma_child_lists_agree_at(links, p, first, second, k);
    }
    if first.len() < second.len() {
        let c = second[first.len() as int];
        assert(links[c.index as int] == Some(ZoneIndex { index: p as usize }));
        assert(first.contains(ZoneIndex { index: c.index as int as usize }));
        let w = choose|w: int| 0 <= w < first.len() && first[w] == c;
        assert(second[w] == c);
        assert(second[w].index < second[first.len() as int].index);
    } else if second.len() < first.len() {
        let c = first[second.len() as int];
        assert(links[c.index as int] == Some(ZoneIndex { index: p as usize }));
        assert(second.contains(ZoneIndex { index: c.index as int as usize }));
        let w = choose|w: int| 0 <= w < second.len() && second[w] == c;
        assert(first[w] == c);
        assert(first[w].index < first[second.len() as int].index);
    }
    assert(first =~= second);
}

/// The zones met on the way from `i` to its ancestor `steps` links above it.
pub open spec fn chain(links: Seq<Option<ZoneIndex>>, i: int, steps: nat) -> Set<int>
    decreases steps,
{
    if steps == 0 {
        set![i]
    } else {
        chain(links, i, (steps - 1) as nat).insert(ancestor_at(links, i, steps)->0)
    }
}

/// In ranked links the way up from a zone meets a new zone of the collection at every
/// step, each of smaller rank than those before it.
proof fn lemma_chain_counts(links: Seq<Option<ZoneIndex>>, rank: Seq<nat>, i: int, steps: nat)
    requires
        ranked(links, rank),
        0 <= i < links.len(),
        ancestor_at(links, i, steps) is Some,
    ensures
        chain(links, i, steps).finite(),
        chain(links, i, steps).len() == steps + 1,
        0 <= ancestor_at(links, i, steps)->0 < links.len(),
        forall|a: int| #[trigger]
            chain(links, i, steps).contains(a) ==> 0 <= a < links.len() && rank[a]
                >= rank[ancestor_at(links, i, steps)->0],
    decreases steps,
{
    if steps > 0 {
        let below = ancestor_at(links, i, (steps - 1) as nat);
        assert(below is Some);
        lemma_chain_counts(links, rank, i, (steps - 1) as nat);
        assert(links[below->0] is Some);
    }
}

/// In a forest of `n` zones no way up is `n` links long.
pub proof fn lemma_chain_is_short(links: Seq<Option<ZoneIndex>>, i: int, steps: nat)
    requires
        acyclic(links),
        0 <= i < links.len(),
        ancestor_at(links, i, steps) is Some,
    ensures
        steps < links.len(),
{
    let rank = choose|rank: Seq<nat>| ranked(links, rank);
    lemma_chain_counts(links, rank, i, steps);
    let all = vstd::set_lib::set_int_range(0, links.len() as int);
    vstd::set_lib::lemma_int_range(0, links.len() as int);
    assert(chain(links, i, steps).subset_of(all));
    vstd::set_lib::lemma_len_subset(chain(links, i, steps), all);
}

/// The way up from zone `i` ends after `steps` links, at a root.
pub open spec fn ends_after(links: Seq<Option<ZoneIndex>>, i: int, steps: nat) -> bool {
    ancestor_at(links, i, steps) matches Some(root) && step_up(links, root) is None
}

/// A way up ends once.
proof fn lemma_end_is_unique(links: Seq<Option<ZoneIndex>>, i: int, first: nat, second: nat)
    requires
        ends_after(links, i, first),
        ends_after(links, i, second),
    ensures
        first == second,
{
    if first < second {
        assert(ancestor_at(links, i, first + 1) is None);
        lemma_chain_ends(links, i, first + 1, second);
    } else if second < first {
        assert(ancestor_at(links, i, second + 1) is None);
        lemma_chain_ends(links, i, second + 1, first);
    }
}

/// Whether the parent links of the zones form a forest: every link leads to a zone of
/// the collection, and following the links from a zone never leads back to it.
pub fn is_forest(zones: &Vec<Zone>) -> (r: bool)
    ensures
        r == acyclic(parent_links(zones@)),
{
    let n = zones.len();
    let ghost links = parent_links(zones@);
    let mut k: usize = 0;
    while k < n
        invariant
            n == zones.len(),
            links == parent_links(zones@),
            k <= n,
            forall|j: int| 0 <= j < k ==> (#[trigger] links[j] matches Some(p) ==> p.index < n),
        decreases n - k,
    {
        if let Some(p) = zones[k].parent {
            if p.index >= n {
                assert(links[k as int] == Some(p));
                assert forall|rank: Seq<nat>| !ranked(links, rank) by {
                    if ranked(links, rank) {
                        assert(links[k as int] is Some);
                    }
                }
                return false;
            }
        }
        assert(links[k as int] == zones@[k as int].parent);
        k += 1;
    }
    let ghost mut depth: Seq<nat> = Seq::empty();
    let mut i: usize = 0;
    while i < n
        invariant
            n == zones.len(),
            links == parent_links(zones@),
            i <= n,
            forall|j: int| 0 <= j < n ==> (#[trigger] links[j] matches Some(p) ==> p.index < n),
            depth.len() == i,
            forall|j: int| 0 <= j < i ==> ends_after(links, j, #[trigger] depth[j]),
        decreases n - i,
    {
        let mut cur = i;
        let mut steps: usize = 0;
        loop
            invariant
                n == zones.len(),
                links == parent_links(zones@),
                i < n,
                cur < n,
                steps < n,
                forall|j: int| 0 <= j < n ==> (#[trigger] links[j] matches Some(p) ==> p.index < n),
                ancestor_at(links, i as int, steps as nat) == Some(cur as int),
            ensures
                links[cur as int] is None,
            decreases n - steps,
        {
            assert(links[cur as int] == zones@[cur as int].parent);
            match zones[cur].parent {
                None => {
                    break ;
                },
                Some(p) => {
                    assert(ancestor_at(links, i as int, (steps + 1) as nat) == Some(
                        p.index as int,
                    ));
                    if steps + 1 == n {
                        proof {
                            if acyclic(links) {
                                lemma_chain_is_short(links, i as int, (steps + 1) as nat);
                            }
                        }
                        return false;
                    }
                    steps += 1;
                    cur = p.index;
                },
            }
        }
        proof {
            assert(links[cur as int] is None);
            depth = depth.push(steps as nat);
        }
        i += 1;
    }
    proof {
        assert forall|z: int| 0 <= z < links.len() implies (#[trigger] links[z] matches Some(p)
            ==> p.index < links.len() && depth[p.index as int] < depth[z]) by {
            if links[z] is Some {
                let p = links[z]->0;
                let up = depth[z];
                assert(ends_after(links, z, up));
                assert(ends_after(links, p.index as int, depth[p.index as int]));
                assert(up >= 1);
                lemma_ancestor_shift(links, z, (up - 1) as nat);
                lemma_end_is_unique(links, p.index as int, (up - 1) as nat, depth[p.index as int]);
            }
        }
        assert(ranked(links, depth));
    }
    true
}

} // verus!
