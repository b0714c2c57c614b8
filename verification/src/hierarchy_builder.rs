//! Inclusion lists and the parent tree built from them.

use crate::tree::{
    acyclic, ancestor_at, children_wired, is_ancestor_or_self, lemma_chain_ends,
    lemma_graft_keeps_ranking, links_before, only_links_differ, parent_links, ranked,
    wire_children,
};
use crate::zone::{Zone, ZoneIndex};
use vstd::prelude::*;

verus! {

/// The surface measure by which candidate ancestors are ordered; a zone without a
/// boundary counts as empty.
pub open spec fn surface(z: Zone) -> nat {
    match z.boundary {
        Some(b) => b.area as nat,
        None => 0,
    }
}

/// Zone `a` comes before zone `b` in every inclusion list: it has the smaller surface,
/// or the same surface and the smaller stable id, or both of these agree and it stands
/// earlier in the collection.
pub open spec fn tighter(zones: Seq<Zone>, a: int, b: int) -> bool {
    ||| surface(zones[a]) < surface(zones[b])
    ||| surface(zones[a]) == surface(zones[b]) && zones[a].osm_id < zones[b].osm_id
    ||| surface(zones[a]) == surface(zones[b]) && zones[a].osm_id == zones[b].osm_id && a < b
}

/// Zone `j` is a candidate ancestor of zone `i`: another zone of the collection that
/// contains it.
pub open spec fn is_candidate(zones: Seq<Zone>, i: int, j: int) -> bool {
    &&& 0 <= j < zones.len()
    &&& j != i
    &&& zones[i].within(zones[j])
}

/// `list` is the inclusion list of zone `i`: exactly its candidate ancestors, tightest
/// first.
pub open spec fn is_inclusion_list(zones: Seq<Zone>, i: int, list: Seq<ZoneIndex>) -> bool {
    &&& forall|k: int| 0 <= k < list.len() ==> is_candidate(zones, i, (#[trigger] list[k]).index as int)
    &&& forall|j: int| #[trigger]
        is_candidate(zones, i, j) ==> list.contains(ZoneIndex { index: j as usize })
    &&& forall|a: int, b: int|
        0 <= a < b < list.len() ==> tighter(
            zones,
            (#[trigger] list[a]).index as int,
            (#[trigger] list[b]).index as int,
        )
}

/// A zone has one inclusion list only.
pub proof fn lemma_inclusion_list_unique(
    zones: Seq<Zone>,
    i: int,
    first: Seq<ZoneIndex>,
    second: Seq<ZoneIndex>,
)
    requires
        is_inclusion_list(zones, i, first),
        is_inclusion_list(zones, i, second),
    ensures
        first == second,
    decreases first.len(),
{
    if first.len() == 0 {
        if second.len() > 0 {
            let c = second[0];
            assert(is_candidate(zones, i, c.index as int));
            assert(first.contains(ZoneIndex { index: c.index as int as usize }));
        }
        assert(first =~= second);
    } else if second.len() == 0 {
        let c = first[0];
        assert(is_candidate(zones, i, c.index as int));
        assert(second.contains(ZoneIndex { index: c.index as int as usize }));
    } else {
        assert forall|k: int| 0 <= k < first.len() && k < second.len() implies first[k]
            == second[k] by {
            lemma_same_at(zones, i, first, second, k);
        }
        if first.len() < second.len() {
            let c = second[first.len() as int];
            assert(is_candidate(zones, i, c.index as int));
            assert(first.contains(ZoneIndex { index: c.index as int as usize }));
            let w = choose|w: int| 0 <= w < first.len() && first[w] == c;
            assert(second[w] == c);
            assert(tighter(zones, second[w].index as int, second[first.len() as int].index as int));
        } else if second.len() < first.len() {
            let c = first[second.len() as int];
            assert(is_candidate(zones, i, c.index as int));
            assert(second.contains(ZoneIndex { index: c.index as int as usize }));
            let w = choose|w: int| 0 <= w < second.len() && second[w] == c;
            assert(first[w] == c);
            assert(tighter(zones, first[w].index as int, first[second.len() as int].index as int));
        }
        assert(first =~= second);
    }
}

/// Two inclusion lists of one zone agree at every position that both have.
proof fn lemma_same_at(
    zones: Seq<Zone>,
    i: int,
    first: Seq<ZoneIndex>,
    second: Seq<ZoneIndex>,
    k: int,
)
    requires
        is_inclusion_list(zones, i, first),
        is_inclusion_list(zones, i, second),
        0 <= k < first.len(),
        k < second.len(),
    ensures
        first[k] == second[k],
    decreases k,
{
    if k > 0 {
        lemma_same_at(zones, i, first, second, k - 1);
    }
    assert forall|q: int| 0 <= q < k implies first[q] == second[q] by {
        lemma_same_at(zones, i, first, second, q);
    }
    let a = first[k];
    let b = second[k];
    assert(is_candidate(zones, i, a.index as int));
    assert(is_candidate(zones, i, b.index as int));
    assert(second.contains(ZoneIndex { index: a.index as int as usize }));
    assert(first.contains(ZoneIndex { index: b.index as int as usize }));
    let wa = choose|w: int| 0 <= w < second.len() && second[w] == a;
    let wb = choose|w: int| 0 <= w < first.len() && first[w] == b;
    // `a` cannot stand before position `k` in `second`: there the lists agree, and
    // `first` holds nothing twice.
    if wa < k {
        assert(first[wa] == a);
        assert(tighter(zones, first[wa].index as int, first[k].index as int));
    }
    if wb < k {
        assert(second[wb] == b);
        assert(tighter(zones, second[wb].index as int, second[k].index as int));
    }
    if wa > k {
        assert(tighter(zones, second[k].index as int, second[wa].index as int));
        if wb > k {
            assert(tighter(zones, first[k].index as int, first[wb].index as int));
        }
    }
}

/// Whether zone `a` comes before zone `b` in an inclusion list.
pub fn comes_before(zones: &Vec<Zone>, a: usize, b: usize) -> (r: bool)
    requires
        a < zones.len(),
        b < zones.len(),
    ensures
        r == tighter(zones@, a as int, b as int),
{
    let sa: u64 = match &zones[a].boundary {
        Some(bd) => bd.area,
        None => 0,
    };
    let sb: u64 = match &zones[b].boundary {
        Some(bd) => bd.area,
        None => 0,
    };
    if sa != sb {
        sa < sb
    } else if zones[a].osm_id != zones[b].osm_id {
        zones[a].osm_id < zones[b].osm_id
    } else {
        a < b
    }
}

/// The inclusion list of zone `i`.
pub fn inclusions_of(zones: &Vec<Zone>, i: usize) -> (list: Vec<ZoneIndex>)
    requires
        i < zones.len(),
    ensures
        is_inclusion_list(zones@, i as int, list@),
{
    let n = zones.len();
    let mut list: Vec<ZoneIndex> = Vec::new();
    let mut j: usize = 0;
    while j < n
        invariant
            n == zones.len(),
            i < n,
            j <= n,
            forall|k: int|
                0 <= k < list.len() ==> is_candidate(zones@, i as int, (#[trigger] list@[k]).index as int)
                    && list@[k].index < j,
            forall|c: int|
                0 <= c < j && #[trigger] is_candidate(zones@, i as int, c) ==> list@.contains(
                    ZoneIndex { index: c as usize },
                ),
            forall|a: int, b: int|
                0 <= a < b < list.len() ==> tighter(
                    zones@,
                    (#[trigger] list@[a]).index as int,
                    (#[trigger] list@[b]).index as int,
                ),
        decreases n - j,
    {
        if j != i && zones[j].contains(&zones[i]) {
            let mut p: usize = 0;
            while p < list.len() && comes_before(zones, list[p].index, j)
                invariant
                    n == zones.len(),
                    j < n,
                    p <= list.len(),
                    forall|k: int| 0 <= k < list.len() ==> (#[trigger] list@[k]).index < j,
                    forall|q: int|
                        0 <= q < p ==> tighter(zones@, (#[trigger] list@[q]).index as int, j as int),
                decreases list.len() - p,
            {
                p += 1;
            }
            let ghost before = list@;
            list.insert(p, ZoneIndex { index: j });
            proof {
                let item = ZoneIndex { index: j };
                assert forall|k: int| 0 <= k < list.len() implies is_candidate(
                    zones@,
                    i as int,
                    (#[trigger] list@[k]).index as int,
                ) && list@[k].index < j + 1 by {
                    if k < p {
                        assert(list@[k] == before[k]);
                    } else if k > p {
                        assert(list@[k] == before[k - 1]);
                    }
                }
                assert forall|c: int|
                    0 <= c < j + 1 && #[trigger] is_candidate(
                        zones@,
                        i as int,
                        c,
                    ) implies list@.contains(ZoneIndex { index: c as usize }) by {
                    if c == j {
                        assert(list@[p as int] == item);
                    } else {
                        let w = choose|w: int|
                            0 <= w < before.len() && before[w] == (ZoneIndex { index: c as usize });
                        if w < p {
                            assert(list@[w] == before[w]);
                        } else {
                            assert(list@[w + 1] == before[w]);
                        }
                    }
                }
                assert forall|a: int, b: int| 0 <= a < b < list.len() implies tighter(
                    zones@,
                    (#[trigger] list@[a]).index as int,
                    (#[trigger] list@[b]).index as int,
                ) by {
                    if b < p {
                        assert(list@[a] == before[a] && list@[b] == before[b]);
                    } else if b == p {
                        assert(list@[a] == before[a]);
                    } else if a < p {
                        assert(list@[a] == before[a] && list@[b] == before[b - 1]);
                    } else if a == p {
                        assert(list@[b] == before[b - 1]);
                        assert(before[p as int].index < j);
                        assert(!tighter(zones@, before[p as int].index as int, j as int));
                        if b - 1 > p {
                            assert(tighter(
                                zones@,
                                before[p as int].index as int,
                                before[b - 1].index as int,
                            ));
                        }
                    } else {
                        assert(list@[a] == before[a - 1] && list@[b] == before[b - 1]);
                    }
                }
            }
        }
        j += 1;
    }
    list
}

/// For every zone its inclusion list, at the zone's position.
pub fn find_inclusions(zones: &Vec<Zone>) -> (r: Vec<Vec<ZoneIndex>>)
    ensures
        are_inclusion_lists(zones@, lists_of(r@)),
{
    let n = zones.len();
    let mut r: Vec<Vec<ZoneIndex>> = Vec::new();
    let mut i: usize = 0;
    while i < n
        invariant
            n == zones.len(),
            i <= n,
            r.len() == i,
            forall|k: int| 0 <= k < i ==> is_inclusion_list(zones@, k, (#[trigger] r@[k])@),
        decreases n - i,
    {
        let list = inclusions_of(zones, i);
        r.push(list);
        i += 1;
    }
    assert forall|k: int| 0 <= k < zones.len() implies is_inclusion_list(
        zones@,
        k,
        #[trigger] lists_of(r@)[k],
    ) by {
        assert(is_inclusion_list(zones@, k, r@[k]@));
    }
    r
}

/// Candidate `c` may become the parent of zone `i`: it is a zone of the collection,
/// not `i` itself and, by the links given, not below `i`.
pub open spec fn qualifies(links: Seq<Option<ZoneIndex>>, i: int, c: int) -> bool {
    &&& 0 <= c < links.len()
    &&& c != i
    &&& !is_ancestor_or_self(links, c, i)
}

/// `choice` is the first candidate of `candidates` that qualifies as parent of `i`, or
/// `None` when none of them does.
pub open spec fn is_first_qualifying(
    links: Seq<Option<ZoneIndex>>,
    i: int,
    candidates: Seq<ZoneIndex>,
    choice: Option<ZoneIndex>,
) -> bool {
    match choice {
        Some(p) => exists|k: int|
            {
                &&& 0 <= k < candidates.len()
                &&& #[trigger] candidates[k] == p
                &&& qualifies(links, i, p.index as int)
                &&& forall|j: int|
                    0 <= j < k ==> !qualifies(links, i, (#[trigger] candidates[j]).index as int)
            },
        None => forall|j: int|
            0 <= j < candidates.len() ==> !qualifies(
                links,
                i,
                (#[trigger] candidates[j]).index as int,
            ),
    }
}

/// The candidate lists as plain sequences.
pub open spec fn lists_of(inclusions: Seq<Vec<ZoneIndex>>) -> Seq<Seq<ZoneIndex>> {
    Seq::new(inclusions.len(), |i: int| inclusions[i]@)
}

/// The candidate list of zone `i`; a zone that the lists do not reach has none.
pub open spec fn candidates_at(inclusions: Seq<Seq<ZoneIndex>>, i: int) -> Seq<ZoneIndex> {
    if 0 <= i < inclusions.len() {
        inclusions[i]
    } else {
        Seq::empty()
    }
}

/// `lists` holds, for every zone, its inclusion list.
pub open spec fn are_inclusion_lists(zones: Seq<Zone>, lists: Seq<Seq<ZoneIndex>>) -> bool {
    &&& lists.len() == zones.len()
    &&& forall|i: int| 0 <= i < zones.len() ==> is_inclusion_list(zones, i, #[trigger] lists[i])
}

/// `links` is the hierarchy that the candidate lists give: going through the zones in
/// order, each one has for parent the first of its candidates that qualifies against
/// the links of the zones before it.
pub open spec fn is_hierarchy(links: Seq<Option<ZoneIndex>>, inclusions: Seq<Seq<ZoneIndex>>) -> bool {
    forall|i: int|
        0 <= i < links.len() ==> is_first_qualifying(
            links_before(links, i),
            i,
            candidates_at(inclusions, i),
            #[trigger] links[i],
        )
}

/// Whether `target` is `from` or one of its ancestors.
fn reaches_up(zones: &Vec<Zone>, from: usize, target: usize, Ghost(rank): Ghost<Seq<nat>>) -> (r:
    bool)
    requires
        ranked(parent_links(zones@), rank),
        from < zones.len(),
    ensures
        r == is_ancestor_or_self(parent_links(zones@), from as int, target as int),
{
    let ghost links = parent_links(zones@);
    let mut cur = from;
    let ghost mut steps: nat = 0;
    loop
        invariant
            links == parent_links(zones@),
            ranked(links, rank),
            cur < zones.len(),
            ancestor_at(links, from as int, steps) == Some(cur as int),
            forall|t: nat| t < steps ==> ancestor_at(links, from as int, t) != Some(target as int),
        decreases rank[cur as int],
    {
        if cur == target {
            return true;
        }
        match zones[cur].parent {
            None => {
                proof {
                    assert(links[cur as int] is None);
                    assert(ancestor_at(links, from as int, steps + 1) is None);
                    assert forall|t: nat| ancestor_at(links, from as int, t) != Some(
                        target as int,
                    ) by {
                        if t > steps {
                            lemma_chain_ends(links, from as int, steps + 1, t);
                        }
                    }
                }
                return false;
            },
            Some(p) => {
                proof {
                    assert(links[cur as int] == Some(p));
                    assert(ancestor_at(links, from as int, steps + 1) == Some(p.index as int));
                    steps = steps + 1;
                }
                cur = p.index;
            },
        }
    }
}

/// Gives every zone its parent and wires the child links.
///
/// Links that the zones came with are dropped first. Then the zones are taken in
/// order: each gets for parent the first zone of its candidate list that is in the
/// collection, is not the zone itself and is not below it already; a zone without
/// such a candidate stays a root. Nothing else in a zone changes.
pub fn build_hierarchy(zones: &mut Vec<Zone>, inclusions: Vec<Vec<ZoneIndex>>)
    ensures
        only_links_differ(old(zones)@, final(zones)@),
        is_hierarchy(parent_links(final(zones)@), lists_of(inclusions@)),
        acyclic(parent_links(final(zones)@)),
        children_wired(final(zones)@),
{
    let n = zones.len();
    let mut k: usize = 0;
    while k < n
        invariant
            n == zones.len(),
            k <= n,
            only_links_differ(old(zones)@, zones@),
            forall|j: int|
                0 <= j < k ==> (#[trigger] zones@[j]).parent is None && zones@[j].children@.len()
                    == 0,
        decreases n - k,
    {
        zones[k].parent = None;
        zones[k].children = Vec::new();
        k += 1;
    }
    let ghost lists = lists_of(inclusions@);
    let ghost mut rank: Seq<nat> = Seq::new(n as nat, |z: int| 0nat);
    assert(ranked(parent_links(zones@), rank));
    let mut i: usize = 0;
    while i < n
        invariant
            n == zones.len(),
            i <= n,
            lists == lists_of(inclusions@),
            only_links_differ(old(zones)@, zones@),
            forall|j: int| 0 <= j < n ==> (#[trigger] zones@[j]).children@.len() == 0,
            forall|j: int| i <= j < n ==> (#[trigger] zones@[j]).parent is None,
            forall|j: int|
                0 <= j < i ==> is_first_qualifying(
                    links_before(parent_links(zones@), j),
                    j,
                    candidates_at(lists, j),
                    #[trigger] parent_links(zones@)[j],
                ),
            ranked(parent_links(zones@), rank),
        decreases n - i,
    {
        let ghost links = parent_links(zones@);
        let mut choice: Option<ZoneIndex> = None;
        if i < inclusions.len() {
            let candidates = &inclusions[i];
            let mut k: usize = 0;
            while k < candidates.len() && choice.is_none()
                invariant
                    n == zones.len(),
                    i < n,
                    links == parent_links(zones@),
                    ranked(links, rank),
                    k <= candidates.len(),
                    candidates@ == candidates_at(lists, i as int),
                    choice is None ==> forall|j: int|
                        0 <= j < k ==> !qualifies(
                            links,
                            i as int,
                            (#[trigger] candidates@[j]).index as int,
                        ),
                    choice is Some ==> is_first_qualifying(
                        links,
                        i as int,
                        candidates@,
                        choice,
                    ),
                decreases candidates.len() - k,
            {
                let c = candidates[k];
                if c.index < n && c.index != i && !reaches_up(zones, c.index, i, Ghost(rank)) {
                    choice = Some(c);
                }
                k += 1;
            }
        }
        assert(is_first_qualifying(links, i as int, candidates_at(lists, i as int), choice));
        if let Some(p) = choice {
            zones[i].parent = Some(p);
            proof {
                assert(parent_links(zones@) =~= links.update(i as int, Some(p)));
                rank = lemma_graft_keeps_ranking(links, rank, i as int, p);
            }
        }
        proof {
            let after = parent_links(zones@);
            assert(after =~= links.update(i as int, choice));
            assert(links_before(after, i as int) =~= links);
            assert forall|j: int| 0 <= j < i + 1 implies is_first_qualifying(
                links_before(after, j),
                j,
                candidates_at(lists, j),
                #[trigger] after[j],
            ) by {
                if j < i {
                    assert(links_before(after, j) =~= links_before(links, j));
                    assert(after[j] == links[j]);
                }
            }
        }
        i += 1;
    }
    let ghost assigned = zones@;
    proof {
        let links = parent_links(assigned);
        assert forall|k: int| 0 <= k < assigned.len() implies ((#[trigger] assigned[k]).parent matches Some(
            p,
        ) ==> p.index < assigned.len()) by {
            assert(links[k] == assigned[k].parent);
        }
    }
    wire_children(zones);
    proof {
        let links = parent_links(zones@);
        assert(links =~= parent_links(assigned));
        assert forall|j: int| 0 <= j < links.len() implies is_first_qualifying(
            links_before(links, j),
            j,
            candidates_at(lists, j),
            #[trigger] links[j],
        ) by {
            assert(links[j] == parent_links(assigned)[j]);
        }
    }
}

/// A candidate list picks one parent only.
pub proof fn lemma_first_qualifying_unique(
    links: Seq<Option<ZoneIndex>>,
    i: int,
    candidates: Seq<ZoneIndex>,
    first: Option<ZoneIndex>,
    second: Option<ZoneIndex>,
)
    requires
        is_first_qualifying(links, i, candidates, first),
        is_first_qualifying(links, i, candidates, second),
    ensures
        first == second,
{
    if first is Some {
        let p = first->0;
        let k = choose|k: int|
            {
                &&& 0 <= k < candidates.len()
                &&& #[trigger] candidates[k] == p
                &&& qualifies(links, i, p.index as int)
                &&& forall|j: int|
                    0 <= j < k ==> !qualifies(links, i, (#[trigger] candidates[j]).index as int)
            };
        if second is Some {
            let q = second->0;
            let m = choose|m: int|
                {
                    &&& 0 <= m < candidates.len()
                    &&& #[trigger] candidates[m] == q
                    &&& qualifies(links, i, q.index as int)
                    &&& forall|j: int|
                        0 <= j < m ==> !qualifies(
                            links,
                            i,
                            (#[trigger] candidates[j]).index as int,
                        )
                };
            if k < m {
                assert(!qualifies(links, i, candidates[k].index as int));
            } else if m < k {
                assert(!qualifies(links, i, candidates[m].index as int));
            }
        } else {
            assert(!qualifies(links, i, candidates[k].index as int));
        }
    } else if second is Some {
        let q = second->0;
        let m = choose|m: int|
            {
                &&& 0 <= m < candidates.len()
                &&& #[trigger] candidates[m] == q
                &&& qualifies(links, i, q.index as int)
                &&& forall|j: int|
                    0 <= j < m ==> !qualifies(links, i, (#[trigger] candidates[j]).index as int)
            };
        assert(!qualifies(links, i, candidates[m].index as int));
    }
}

/// Two hierarchies for the same candidate lists agree on the zones before `upto`.
proof fn lemma_hierarchies_agree_before(
    first: Seq<Option<ZoneIndex>>,
    second: Seq<Option<ZoneIndex>>,
    inclusions: Seq<Seq<ZoneIndex>>,
    upto: nat,
)
    requires
        first.len() == second.len(),
        is_hierarchy(first, inclusions),
        is_hierarchy(second, inclusions),
        upto <= first.len(),
    ensures
        links_before(first, upto as int) == links_before(second, upto as int),
    decreases upto,
{
    if upto == 0 {
        assert(links_before(first, 0) =~= links_before(second, 0));
    } else {
        let k = (upto - 1) as int;
        lemma_hierarchies_agree_before(first, second, inclusions, (upto - 1) as nat);
        assert(is_first_qualifying(
            links_before(first, k),
            k,
            candidates_at(inclusions, k),
            first[k],
        ));
        assert(is_first_qualifying(
            links_before(second, k),
            k,
            candidates_at(inclusions, k),
            second[k],
        ));
        lemma_first_qualifying_unique(
            links_before(first, k),
            k,
            candidates_at(inclusions, k),
            first[k],
            second[k],
        );
        assert forall|j: int| 0 <= j < first.len() implies links_before(first, upto as int)[j]
            == links_before(second, upto as int)[j] by {
            if j < k {
                assert(links_before(first, k)[j] == links_before(second, k)[j]);
            }
        }
        assert(links_before(first, upto as int) =~= links_before(second, upto as int));
    }
}

/// The candidate lists determine the hierarchy: two collections of links that both
/// are the hierarchy of the same lists are the same links.
pub proof fn lemma_hierarchy_unique(
    first: Seq<Option<ZoneIndex>>,
    second: Seq<Option<ZoneIndex>>,
    inclusions: Seq<Seq<ZoneIndex>>,
)
    requires
        first.len() == second.len(),
        is_hierarchy(first, inclusions),
        is_hierarchy(second, inclusions),
    ensures
        first == second,
{
    lemma_hierarchies_agree_before(first, second, inclusions, first.len());
    assert(links_before(first, first.len() as int) =~= first);
    assert(links_before(second, first.len() as int) =~= second);
}

/// In a hierarchy built from the inclusion lists of `zones`, the parent of a zone
/// contains the zone.
pub proof fn lemma_parent_contains_child(
    zones: Seq<Zone>,
    links: Seq<Option<ZoneIndex>>,
    inclusions: Seq<Seq<ZoneIndex>>,
    i: int,
)
    requires
        0 <= i < zones.len(),
        links.len() == zones.len(),
        are_inclusion_lists(zones, inclusions),
        is_hierarchy(links, inclusions),
        links[i] is Some,
    ensures
        links[i]->0.index < zones.len(),
        zones[i].within(zones[links[i]->0.index as int]),
{
    let p = links[i]->0;
    assert(is_first_qualifying(links_before(links, i), i, candidates_at(inclusions, i), links[i]));
    let k = choose|k: int|
        {
            &&& 0 <= k < candidates_at(inclusions, i).len()
            &&& #[trigger] candidates_at(inclusions, i)[k] == p
            &&& qualifies(links_before(links, i), i, p.index as int)
            &&& forall|j: int|
                0 <= j < k ==> !qualifies(
                    links_before(links, i),
                    i,
                    (#[trigger] candidates_at(inclusions, i)[j]).index as int,
                )
        };
    assert(is_candidate(zones, i, inclusions[i][k].index as int));
}

} // verus!
