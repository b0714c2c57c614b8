//! Display labels: the name of a zone and, where other zones have the same name, the
//! name of the nearest ancestor that tells it apart.

use crate::tree::{acyclic, ancestor_at, lemma_chain_ends, parent_links, ranked};
use crate::zone::{Zone, ZoneIndex};
use vstd::prelude::*;

verus! {

/// The name of every zone, by position.
pub open spec fn zone_names(zones: Seq<Zone>) -> Seq<Seq<char>> {
    Seq::new(zones.len(), |k: int| zones[k].name@)
}

/// What stands between the name of a zone and that of its ancestor in a label.
pub open spec fn separator() -> Seq<char> {
    ", "@
}

/// Some other zone has the same name as zone `i`.
pub open spec fn is_ambiguous(names: Seq<Seq<char>>, i: int) -> bool {
    exists|j: int| 0 <= j < names.len() && j != i && #[trigger] names[j] == names[i]
}

/// Some proper ancestor of zone `j` is called `name`.
pub open spec fn has_ancestor_named(
    names: Seq<Seq<char>>,
    links: Seq<Option<ZoneIndex>>,
    j: int,
    name: Seq<char>,
) -> bool {
    exists|s: nat|
        s >= 1 && (#[trigger] ancestor_at(links, j, s) matches Some(b) && 0 <= b < names.len()
            && names[b] == name)
}

/// The name of zone `a` tells zone `i` apart: no other zone with the name of `i` has
/// an ancestor called like `a`.
pub open spec fn disambiguates(
    names: Seq<Seq<char>>,
    links: Seq<Option<ZoneIndex>>,
    i: int,
    a: int,
) -> bool {
    forall|j: int|
        0 <= j < names.len() && j != i && #[trigger] names[j] == names[i] ==> !has_ancestor_named(
            names,
            links,
            j,
            names[a],
        )
}

/// The ancestor `steps` links above zone `i` tells it apart, and none nearer does.
pub open spec fn is_nearest_telling(
    names: Seq<Seq<char>>,
    links: Seq<Option<ZoneIndex>>,
    i: int,
    steps: nat,
) -> bool {
    &&& steps >= 1
    &&& ancestor_at(links, i, steps) matches Some(a) && disambiguates(names, links, i, a)
    &&& forall|t: nat|
        1 <= t < steps ==> (#[trigger] ancestor_at(links, i, t) matches Some(b) ==> !disambiguates(
            names,
            links,
            i,
            b,
        ))
}

/// `label` is the label of zone `i`: its name alone when no other zone has that name or
/// no ancestor tells it apart, else its name, the separator and the name of the nearest
/// ancestor that does.
pub open spec fn is_label(
    names: Seq<Seq<char>>,
    links: Seq<Option<ZoneIndex>>,
    i: int,
    label: Seq<char>,
) -> bool {
    if !is_ambiguous(names, i) {
        label == names[i]
    } else {
        ||| exists|s: nat| #[trigger]
            is_nearest_telling(names, links, i, s) && label == names[i] + separator()
                + names[ancestor_at(links, i, s)->0]
        ||| (forall|s: nat| !#[trigger] is_nearest_telling(names, links, i, s)) && label
            == names[i]
    }
}

/// A zone has one label only.
pub proof fn lemma_label_unique(
    names: Seq<Seq<char>>,
    links: Seq<Option<ZoneIndex>>,
    i: int,
    first: Seq<char>,
    second: Seq<char>,
)
    requires
        is_label(names, links, i, first),
        is_label(names, links, i, second),
    ensures
        first == second,
{
    if is_ambiguous(names, i) {
        if exists|s: nat| #[trigger]
            is_nearest_telling(names, links, i, s) && first == names[i] + separator()
                + names[ancestor_at(links, i, s)->0] {
            let s1 = choose|s: nat| #[trigger]
                is_nearest_telling(names, links, i, s) && first == names[i] + separator()
                    + names[ancestor_at(links, i, s)->0];
            assert(is_nearest_telling(names, links, i, s1));
            let s2 = choose|s: nat| #[trigger]
                is_nearest_telling(names, links, i, s) && second == names[i] + separator()
                    + names[ancestor_at(links, i, s)->0];
            assert(is_nearest_telling(names, links, i, s2));
            if s1 < s2 {
                assert(ancestor_at(links, i, s1) is Some);
            } else if s2 < s1 {
                assert(ancestor_at(links, i, s2) is Some);
            }
        } else {
            if exists|s: nat| #[trigger]
                is_nearest_telling(names, links, i, s) && second == names[i] + separator()
                    + names[ancestor_at(links, i, s)->0] {
                let s2 = choose|s: nat| #[trigger]
                    is_nearest_telling(names, links, i, s) && second == names[i] + separator()
                        + names[ancestor_at(links, i, s)->0];
                assert(is_nearest_telling(names, links, i, s2));
            }
        }
    }
}

/// A label that names an ancestor is shared with no other zone of the same name:
/// where the label of zone `i` ends in the name of the ancestor `steps` links above
/// it, a zone `j` with the name of `i` has another label.
pub proof fn lemma_suffixed_label_is_unshared(
    names: Seq<Seq<char>>,
    links: Seq<Option<ZoneIndex>>,
    i: int,
    j: int,
    steps: nat,
    label_i: Seq<char>,
    label_j: Seq<char>,
)
    requires
        links.len() == names.len(),
        forall|k: int|
            0 <= k < links.len() ==> (#[trigger] links[k] matches Some(p) ==> p.index < links.len()),
        0 <= i < names.len(),
        0 <= j < names.len(),
        i != j,
        names[i] == names[j],
        is_nearest_telling(names, links, i, steps),
        is_label(names, links, i, label_i),
        is_label(names, links, j, label_j),
    ensures
        label_i == names[i] + separator() + names[ancestor_at(links, i, steps)->0],
        label_i != label_j,
{
    reveal_strlit(", ");
    let name = names[i];
    let a = ancestor_at(links, i, steps)->0;
    assert(is_ambiguous(names, i));
    assert(is_ambiguous(names, j));
    lemma_label_unique(names, links, i, label_i, name + separator() + names[a]);
    let head = name + separator();
    assert((head + names[a]).subrange(head.len() as int, (head + names[a]).len() as int)
        =~= names[a]);
    if exists|s: nat| #[trigger]
        is_nearest_telling(names, links, j, s) && label_j == names[j] + separator()
            + names[ancestor_at(links, j, s)->0] {
        let s2 = choose|s: nat| #[trigger]
            is_nearest_telling(names, links, j, s) && label_j == names[j] + separator()
                + names[ancestor_at(links, j, s)->0];
        let b = ancestor_at(links, j, s2)->0;
        assert(0 <= b < names.len()) by {
            reveal_with_fuel(ancestor_at, 2);
            let below = ancestor_at(links, j, (s2 - 1) as nat);
            assert(below is Some);
            assert(links[below->0] is Some);
        }
        assert(!has_ancestor_named(names, links, j, names[a]));
        assert(names[b] != names[a]);
        assert((head + names[b]).subrange(head.len() as int, (head + names[b]).len() as int)
            =~= names[b]);
    } else {
        assert(label_j == name);
        assert(label_i.len() == name.len() + 2 + names[a].len());
    }
}

/// Whether another zone has the name of zone `i`.
fn name_is_shared(zones: &Vec<Zone>, i: usize) -> (r: bool)
    requires
        i < zones.len(),
    ensures
        r == is_ambiguous(zone_names(zones@), i as int),
{
    let mut j: usize = 0;
    while j < zones.len()
        invariant
            i < zones.len(),
            j <= zones.len(),
            forall|k: int|
                0 <= k < j && k != i ==> #[trigger] zone_names(zones@)[k] != zone_names(zones@)[i as int],
        decreases zones.len() - j,
    {
        if j != i && zones[j].name == zones[i].name {
            assert(zone_names(zones@)[j as int] == zone_names(zones@)[i as int]);
            return true;
        }
        j += 1;
    }
    false
}

/// Whether a proper ancestor of zone `j` is called `name`.
fn ancestor_is_named(zones: &Vec<Zone>, j: usize, name: &String, Ghost(rank): Ghost<Seq<nat>>) -> (r:
    bool)
    requires
        ranked(parent_links(zones@), rank),
        j < zones.len(),
    ensures
        r == has_ancestor_named(zone_names(zones@), parent_links(zones@), j as int, name@),
{
    let ghost links = parent_links(zones@);
    let ghost names = zone_names(zones@);
    let mut cur = j;
    let ghost mut steps: nat = 0;
    loop
        invariant
            links == parent_links(zones@),
            names == zone_names(zones@),
            ranked(links, rank),
            cur < zones.len(),
            ancestor_at(links, j as int, steps) == Some(cur as int),
            forall|t: nat|
                1 <= t <= steps ==> !(#[trigger] ancestor_at(links, j as int, t) matches Some(b)
                    && 0 <= b < names.len() && names[b] == name@),
        decreases rank[cur as int],
    {
        match zones[cur].parent {
            None => {
                proof {
                    assert(links[cur as int] is None);
                    assert(ancestor_at(links, j as int, steps + 1) is None);
                    assert forall|t: nat| t >= 1 implies !(#[trigger] ancestor_at(
                        links,
                        j as int,
                        t,
                    ) matches Some(b) && 0 <= b < names.len() && names[b] == name@) by {
                        if t > steps {
                            lemma_chain_ends(links, j as int, steps + 1, t);
                        }
                    }
                }
                return false;
            },
            Some(p) => {
                proof {
                    assert(links[cur as int] == Some(p));
                    assert(ancestor_at(links, j as int, steps + 1) == Some(p.index as int));
                }
                if zones[p.index].name == *name {
                    assert(names[p.index as int] == name@);
                    return true;
                }
                proof {
                    steps = steps + 1;
                }
                cur = p.index;
            },
        }
    }
}

/// Whether the name of zone `a` tells zone `i` apart.
fn tells_apart(zones: &Vec<Zone>, i: usize, a: usize, Ghost(rank): Ghost<Seq<nat>>) -> (r: bool)
    requires
        ranked(parent_links(zones@), rank),
        i < zones.len(),
        a < zones.len(),
    ensures
        r == disambiguates(zone_names(zones@), parent_links(zones@), i as int, a as int),
{
    let ghost links = parent_links(zones@);
    let ghost names = zone_names(zones@);
    let mut j: usize = 0;
    while j < zones.len()
        invariant
            links == parent_links(zones@),
            names == zone_names(zones@),
            ranked(links, rank),
            i < zones.len(),
            a < zones.len(),
            j <= zones.len(),
            forall|k: int|
                0 <= k < j && k != i && #[trigger] names[k] == names[i as int]
                    ==> !has_ancestor_named(names, links, k, names[a as int]),
        decreases zones.len() - j,
    {
        if j != i && zones[j].name == zones[i].name {
            assert(names[j as int] == names[i as int]);
            if ancestor_is_named(zones, j, &zones[a].name, Ghost(rank)) {
                return false;
            }
        }
        j += 1;
    }
    true
}

/// The label of zone `i`.
fn compose_label(zones: &Vec<Zone>, i: usize, Ghost(rank): Ghost<Seq<nat>>) -> (label: String)
    requires
        ranked(parent_links(zones@), rank),
        i < zones.len(),
    ensures
        is_label(zone_names(zones@), parent_links(zones@), i as int, label@),
{
    let ghost links = parent_links(zones@);
    let ghost names = zone_names(zones@);
    let mut label = zones[i].name.clone();
    if !name_is_shared(zones, i) {
        return label;
    }
    let mut cur = i;
    let ghost mut steps: nat = 0;
    loop
        invariant
            links == parent_links(zones@),
            names == zone_names(zones@),
            ranked(links, rank),
            i < zones.len(),
            cur < zones.len(),
            label@ == names[i as int],
            is_ambiguous(names, i as int),
            ancestor_at(links, i as int, steps) == Some(cur as int),
            forall|t: nat|
                1 <= t <= steps ==> (#[trigger] ancestor_at(links, i as int, t) matches Some(b)
                    ==> !disambiguates(names, links, i as int, b)),
        decreases rank[cur as int],
    {
        match zones[cur].parent {
            None => {
                proof {
                    assert(links[cur as int] is None);
                    assert(ancestor_at(links, i as int, steps + 1) is None);
                    assert forall|s: nat| !#[trigger] is_nearest_telling(
                        names,
                        links,
                        i as int,
                        s,
                    ) by {
                        if s > steps {
                            lemma_chain_ends(links, i as int, steps + 1, s);
                        }
                    }
                }
                return label;
            },
            Some(p) => {
                proof {
                    assert(links[cur as int] == Some(p));
                    assert(ancestor_at(links, i as int, steps + 1) == Some(p.index as int));
                }
                if tells_apart(zones, i, p.index, Ghost(rank)) {
                    label.append(", ");
                    label.append(zones[p.index].name.as_str());
                    assert(is_nearest_telling(names, links, i as int, steps + 1));
                    return label;
                }
                proof {
                    steps = steps + 1;
                }
                cur = p.index;
            },
        }
    }
}

/// Every zone has its label, and nothing else has changed.
pub open spec fn labelled(before: Seq<Zone>, after: Seq<Zone>) -> bool {
    &&& after.len() == before.len()
    &&& forall|i: int|
        0 <= i < before.len() ==> #[trigger] after[i] == (Zone {
            label: after[i].label,
            ..before[i]
        })
    &&& forall|i: int|
        0 <= i < before.len() ==> ((#[trigger] after[i]).label matches Some(l) && is_label(
            zone_names(before),
            parent_links(before),
            i,
            l@,
        ))
}

/// Writes `label` to zone `i`, and to nothing else.
pub fn write_label(zones: &mut Vec<Zone>, i: usize, label: String)
    requires
        i < old(zones)@.len(),
    ensures
        final(zones)@ == old(zones)@.update(
            i as int,
            Zone { label: Some(label), ..old(zones)@[i as int] },
        ),
{
    zones[i].label = Some(label);
    assert(zones@ =~= old(zones)@.update(
        i as int,
        Zone { label: Some(label), ..old(zones)@[i as int] },
    ));
}

/// Gives every zone its label.
///
/// The label of a zone is worked out from the names and parent links of the whole
/// collection, which labelling does not change, and then written to the zone alone.
pub fn compute_labels(zones: &mut Vec<Zone>)
    requires
        acyclic(parent_links(old(zones)@)),
    ensures
        labelled(old(zones)@, final(zones)@),
{
    let ghost before = zones@;
    let ghost rank = choose|rank: Seq<nat>| ranked(parent_links(before), rank);
    let nb_zones = zones.len();
    let mut i: usize = 0;
    while i < nb_zones
        invariant
            nb_zones == zones.len(),
            nb_zones == before.len(),
            i <= nb_zones,
            ranked(parent_links(before), rank),
            forall|k: int|
                0 <= k < nb_zones ==> #[trigger] zones@[k] == (Zone {
                    label: zones@[k].label,
                    ..before[k]
                }),
            forall|k: int|
                0 <= k < i ==> ((#[trigger] zones@[k]).label matches Some(l) && is_label(
                    zone_names(before),
                    parent_links(before),
                    k,
                    l@,
                )),
        decreases nb_zones - i,
    {
        proof {
            assert(parent_links(zones@) =~= parent_links(before));
            assert(zone_names(zones@) =~= zone_names(before));
        }
        let label = compose_label(zones, i, Ghost(rank));
        write_label(zones, i, label);
        i += 1;
    }
}

} // verus!
