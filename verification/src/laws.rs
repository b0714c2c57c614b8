//! What holds of every run.

use crate::cosmogony::CosmogonyStats;
use crate::hierarchy_builder::{
    are_inclusion_lists, lemma_hierarchy_unique, lemma_inclusion_list_unique,
    lemma_parent_contains_child,
};
use crate::labels::{lemma_label_unique, zone_names};
use crate::prune::{
    is_nearest_surviving, is_new_parent, lemma_new_parent_unique, lemma_survivor_at,
    survivors_before,
};
use crate::tree::{ancestor_at, is_child_list, lemma_child_list_unique, parent_links};
use crate::typing::{invalid_country, tallied_upto, typed_upto, unhandled_level, TypingInput};
use crate::zone::{zone_types, Zone, ZoneIndex};
use crate::zone_typer::ZoneTyper;
use crate::{is_ontology, is_run, typing_input};
use vstd::prelude::*;

verus! {

/// The characters of a string that may be missing.
pub open spec fn text_of(s: Option<String>) -> Option<Seq<char>> {
    match s {
        Some(t) => Some(t@),
        None => None,
    }
}

/// Two zones that cannot be told apart by what they hold.
pub open spec fn same_zone(a: Zone, b: Zone) -> bool {
    &&& a.id == b.id
    &&& a.osm_id == b.osm_id
    &&& a.admin_level == b.admin_level
    &&& a.zone_type == b.zone_type
    &&& a.name@ == b.name@
    &&& text_of(a.label) == text_of(b.label)
    &&& text_of(a.country_code) == text_of(b.country_code)
    &&& a.parent == b.parent
    &&& a.children@ == b.children@
    &&& a.boundary == b.boundary
    &&& a.tags == b.tags
}

/// Typing the same zones with the same lists, rules and country twice gives the same
/// types and countries, and adds the same amounts to the counters, whatever the
/// counters held before.
pub proof fn lemma_typing_is_repeatable(
    input: TypingInput,
    zones: Seq<Zone>,
    first: Seq<Zone>,
    second: Seq<Zone>,
    first_before: CosmogonyStats,
    first_after: CosmogonyStats,
    second_before: CosmogonyStats,
    second_after: CosmogonyStats,
)
    requires
        typed_upto(input, zones, first, zones.len()),
        typed_upto(input, zones, second, zones.len()),
        tallied_upto(input, zones, first_before, first_after, zones.len()),
        tallied_upto(input, zones, second_before, second_after, zones.len()),
    ensures
        zone_types(first) == zone_types(second),
        forall|i: int|
            0 <= i < zones.len() ==> text_of(first[i].country_code) == text_of(
                #[trigger] second[i].country_code,
            ),
        first_after.zone_without_country - first_before.zone_without_country
            == second_after.zone_without_country - second_before.zone_without_country,
        forall|c: Seq<char>|
            first_after.unknown_country_rules(c) - first_before.unknown_country_rules(c)
                == #[trigger] second_after.unknown_country_rules(c)
                - second_before.unknown_country_rules(c),
        forall|c: Seq<char>, l: u32|
            first_after.unhandled(c, l) - first_before.unhandled(c, l)
                == #[trigger] second_after.unhandled(c, l) - second_before.unhandled(c, l),
{
    assert forall|i: int| 0 <= i < zones.len() implies text_of(first[i].country_code) == text_of(
        #[trigger] second[i].country_code,
    ) by {
        assert(first[i] == (Zone {
            zone_type: first[i].zone_type,
            country_code: first[i].country_code,
            ..zones[i]
        }));
    }
    assert forall|c: Seq<char>|
        first_after.unknown_country_rules(c) - first_before.unknown_country_rules(c)
            == #[trigger] second_after.unknown_country_rules(c)
            - second_before.unknown_country_rules(c) by {
        assert(first_after.unknown_country_rules(c) == first_before.unknown_country_rules(c)
            + invalid_country(input, zones, zones.len(), c));
    }
    assert forall|c: Seq<char>, l: u32|
        first_after.unhandled(c, l) - first_before.unhandled(c, l)
            == #[trigger] second_after.unhandled(c, l) - second_before.unhandled(c, l) by {
        assert(first_after.unhandled(c, l) == first_before.unhandled(c, l) + unhandled_level(
            input,
            zones,
            zones.len(),
            c,
            l,
        ));
    }
}

/// The zones have one collection of inclusion lists only.
pub proof fn lemma_inclusion_lists_unique(
    zones: Seq<Zone>,
    first: Seq<Seq<ZoneIndex>>,
    second: Seq<Seq<ZoneIndex>>,
)
    requires
        are_inclusion_lists(zones, first),
        are_inclusion_lists(zones, second),
    ensures
        first == second,
{
    assert forall|i: int| 0 <= i < zones.len() implies first[i] == second[i] by {
        lemma_inclusion_list_unique(zones, i, first[i], second[i]);
    }
    assert(first =~= second);
}

/// Two runs on the same zones with the same rules and country give the same result:
/// as many zones, and at every position zones that hold the same, with the same type,
/// parent and label.
pub proof fn lemma_run_is_deterministic(
    before: Seq<Zone>,
    zone_typer: ZoneTyper,
    country_code: Option<String>,
    first: Seq<Zone>,
    second: Seq<Zone>,
    first_before: CosmogonyStats,
    first_after: CosmogonyStats,
    second_before: CosmogonyStats,
    second_after: CosmogonyStats,
)
    requires
        is_ontology(before, zone_typer, country_code, first, first_before, first_after),
        is_ontology(before, zone_typer, country_code, second, second_before, second_after),
    ensures
        first.len() == second.len(),
        forall|m: int| 0 <= m < first.len() ==> same_zone(first[m], #[trigger] second[m]),
{
    let (lists1, typed1, linked1, named1) = choose|
        lists: Seq<Seq<ZoneIndex>>,
        typed: Seq<Zone>,
        linked: Seq<Zone>,
        named: Seq<Zone>,
    | #[trigger]
        is_run(
            before,
            zone_typer,
            country_code,
            lists,
            typed,
            linked,
            named,
            first,
            first_before,
            first_after,
        );
    let (lists2, typed2, linked2, named2) = choose|
        lists: Seq<Seq<ZoneIndex>>,
        typed: Seq<Zone>,
        linked: Seq<Zone>,
        named: Seq<Zone>,
    | #[trigger]
        is_run(
            before,
            zone_typer,
            country_code,
            lists,
            typed,
            linked,
            named,
            second,
            second_before,
            second_after,
        );
    let n = before.len() as int;
    lemma_inclusion_lists_unique(before, lists1, lists2);
    let input = typing_input(before, zone_typer, country_code, lists1);
    lemma_typing_is_repeatable(
        input,
        before,
        typed1,
        typed2,
        first_before,
        first_after,
        second_before,
        second_after,
    );
    let links = parent_links(linked1);
    lemma_hierarchy_unique(links, parent_links(linked2), lists1);
    let types = zone_types(named1);
    assert(types =~= zone_types(typed1));
    assert(zone_types(named2) =~= zone_types(typed2));
    assert(parent_links(named1) =~= links);
    assert(parent_links(named2) =~= links);
    assert(zone_names(linked1) =~= zone_names(linked2));
    assert forall|m: int| 0 <= m < first.len() implies first[m].parent == second[m].parent by {
        let k = lemma_survivor_at(types, n, m);
        assert(survivors_before(zone_types(named1), k) == m);
        assert(survivors_before(zone_types(named2), k) == m);
        lemma_new_parent_unique(types, links, k, first[m].parent, second[m].parent);
    }
    assert(parent_links(first) =~= parent_links(second));
    assert forall|m: int| 0 <= m < first.len() implies same_zone(first[m], #[trigger] second[m]) by {
        assert(is_child_list(parent_links(first), m, first[m].children@));
        assert(is_child_list(parent_links(second), m, second[m].children@));
        lemma_child_list_unique(parent_links(first), m, first[m].children@, second[m].children@);
        let k = lemma_survivor_at(types, n, m);
        assert(survivors_before(zone_types(named1), k) == m);
        assert(survivors_before(zone_types(named2), k) == m);
        lemma_new_parent_unique(types, links, k, first[m].parent, second[m].parent);
        assert(typed1[k] == (Zone {
            zone_type: typed1[k].zone_type,
            country_code: typed1[k].country_code,
            ..before[k]
        }));
        assert(typed2[k] == (Zone {
            zone_type: typed2[k].zone_type,
            country_code: typed2[k].country_code,
            ..before[k]
        }));
        assert(zone_types(typed1)[k] == zone_types(typed2)[k]);
        lemma_label_unique(
            zone_names(linked1),
            links,
            k,
            named1[k].label->0@,
            named2[k].label->0@,
        );
    }
}

/// Containment among the zones carries over: what contains a zone that contains a
/// third contains the third.
pub open spec fn containment_is_transitive(zones: Seq<Zone>) -> bool {
    forall|a: int, b: int, c: int|
        0 <= a < zones.len() && 0 <= b < zones.len() && 0 <= c < zones.len() && #[trigger] zones[a].within(
            zones[b],
        ) && #[trigger] zones[b].within(zones[c]) ==> zones[a].within(zones[c])
}

/// Where every parent contains its child and containment carries over, every ancestor
/// of a zone contains the zone.
pub proof fn lemma_ancestors_contain(
    zones: Seq<Zone>,
    links: Seq<Option<ZoneIndex>>,
    i: int,
    steps: nat,
)
    requires
        links.len() == zones.len(),
        0 <= i < zones.len(),
        containment_is_transitive(zones),
        forall|k: int|
            0 <= k < zones.len() ==> (#[trigger] links[k] matches Some(p) ==> p.index < zones.len()
                && zones[k].within(zones[p.index as int])),
        steps >= 1,
        ancestor_at(links, i, steps) is Some,
    ensures
        0 <= ancestor_at(links, i, steps)->0 < zones.len(),
        zones[i].within(zones[ancestor_at(links, i, steps)->0]),
    decreases steps,
{
    reveal_with_fuel(ancestor_at, 2);
    if steps > 1 {
        lemma_ancestors_contain(zones, links, i, (steps - 1) as nat);
        let mid = ancestor_at(links, i, (steps - 1) as nat)->0;
        let top = ancestor_at(links, i, steps)->0;
        assert(links[mid] is Some);
        assert(zones[i].within(zones[mid]) && zones[mid].within(zones[top]));
    } else {
        assert(links[i] is Some);
    }
}

/// In the result of a run on zones among which containment carries over, the parent of
/// a zone contains the zone.
pub proof fn lemma_result_parent_contains_child(
    before: Seq<Zone>,
    zone_typer: ZoneTyper,
    country_code: Option<String>,
    after: Seq<Zone>,
    counted_before: CosmogonyStats,
    counted_after: CosmogonyStats,
    m: int,
)
    requires
        is_ontology(before, zone_typer, country_code, after, counted_before, counted_after),
        containment_is_transitive(before),
        0 <= m < after.len(),
        after[m].parent is Some,
    ensures
        after[m].parent->0.index < after.len(),
        after[m].within(after[after[m].parent->0.index as int]),
{
    let (lists, typed, linked, named) = choose|
        lists: Seq<Seq<ZoneIndex>>,
        typed: Seq<Zone>,
        linked: Seq<Zone>,
        named: Seq<Zone>,
    | #[trigger]
        is_run(
            before,
            zone_typer,
            country_code,
            lists,
            typed,
            linked,
            named,
            after,
            counted_before,
            counted_after,
        );
    let n = before.len() as int;
    let links = parent_links(linked);
    let types = zone_types(named);
    assert(parent_links(named) =~= links);
    assert forall|k: int| 0 <= k < before.len() implies (#[trigger] links[k] matches Some(p)
        ==> p.index < before.len() && before[k].within(before[p.index as int])) by {
        if links[k] is Some {
            lemma_parent_contains_child(before, links, lists, k);
        }
    }
    assert forall|k: int| 0 <= k < n implies (#[trigger] named[k]).boundary == before[k].boundary
        && named[k].osm_id == before[k].osm_id by {
        assert(typed[k] == (Zone {
            zone_type: typed[k].zone_type,
            country_code: typed[k].country_code,
            ..before[k]
        }));
        assert(linked[k] == (Zone {
            parent: linked[k].parent,
            children: linked[k].children,
            ..typed[k]
        }));
        assert(named[k] == (Zone { label: named[k].label, ..linked[k] }));
    }
    let k = lemma_survivor_at(types, n, m);
    assert(survivors_before(zone_types(named), k) == m);
    let p = after[m].parent->0;
    assert(is_new_parent(types, links, k, Some(p)));
    let s = choose|s: nat| #[trigger]
        is_nearest_surviving(types, links, k, s) && p.index == survivors_before(
            types,
            ancestor_at(links, k, s)->0,
        );
    let a = ancestor_at(links, k, s)->0;
    lemma_ancestors_contain(before, links, k, s);
    assert(survivors_before(zone_types(named), a) == p.index);
    assert(named[k].boundary == before[k].boundary);
    assert(named[a].boundary == before[a].boundary);
}

} // verus!
