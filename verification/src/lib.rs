//! Turns a flat collection of administrative boundary relations into a typed, labelled
//! hierarchy of zones.

pub mod cosmogony;
pub mod country_finder;
pub mod hierarchy_builder;
pub mod labels;
pub mod laws;
pub mod prune;
pub mod tags;
pub mod tree;
pub mod typing;
pub mod zone;
pub mod zone_typer;

pub use crate::cosmogony::{Cosmogony, CosmogonyError, CosmogonyMetadata, CosmogonyStats};
pub use crate::zone::{Zone, ZoneIndex, ZoneType};

use crate::cosmogony::count_of_type;
use crate::country_finder::{
    country_index, is_country_zone, lemma_index_is_empty_without_country_zone, CountryFinder,
    COUNTRY_ADMIN_LEVEL,
};
use crate::hierarchy_builder::{
    are_inclusion_lists, build_hierarchy, candidates_at, find_inclusions, is_hierarchy, lists_of,
};
pub use crate::labels::compute_labels;
use crate::labels::labelled;
pub use crate::prune::clean_untagged_zones;
use crate::prune::pruned;
use crate::tags::{tag_value, tags_contain, tags_map};
use crate::tree::{acyclic, children_wired, only_links_differ, parent_links};
use crate::typing::{
    invalid_country, lemma_failures_bounded, outcome, resolved_country, tallied_upto, typed_upto,
    types_after, unhandled_level, Outcome, TypingInput,
};
use crate::zone::{admin_levels, tagged_level, zone_types, SourceObject, SourceRelation};
use crate::zone_typer::{ZoneTyper, ZoneTyperError};
use vstd::prelude::*;

verus! {

/// An object is administrative when it is a relation tagged `boundary=administrative`
/// that has an `admin_level` tag.
pub open spec fn is_admin_object(obj: SourceObject) -> bool {
    &&& obj matches SourceObject::Relation(rel)
    &&& tags_map(rel.tags).contains_key("boundary"@)
    &&& tags_map(rel.tags)["boundary"@] == "administrative"@
    &&& tags_map(rel.tags).contains_key("admin_level"@)
}

/// Whether an object of the extract is an administrative relation.
pub fn is_admin(obj: &SourceObject) -> (r: bool)
    ensures
        r == is_admin_object(*obj),
{
    match obj {
        SourceObject::Relation(rel) => tags_contain(&rel.tags, "boundary", "administrative")
            && tag_value(&rel.tags, "admin_level").is_some(),
        _ => false,
    }
}

/// The country to classify a zone in: the one given for the run, or else the one the
/// finder gives for the zone.
pub fn get_country_code(
    country_finder: &CountryFinder,
    zone: &Zone,
    country_code: &Option<String>,
) -> (r: Option<String>)
    ensures
        match country_code {
            Some(c) => r == Some(*c),
            None => (r is Some <==> country_finder.country_of(*zone) is Some) && (r matches Some(
                code,
            ) ==> Some(code@) == country_finder.country_of(*zone)),
        },
{
    match country_code {
        Some(c) => Some(c.clone()),
        None => country_finder.find_zone_country(zone),
    }
}

/// The fixed inputs of the typing pass that [`type_zones`] makes over `zones`.
pub open spec fn typing_input(
    zones: Seq<Zone>,
    zone_typer: ZoneTyper,
    country_code: Option<String>,
    inclusions: Seq<Seq<ZoneIndex>>,
) -> TypingInput {
    TypingInput {
        table: zone_typer.countries_rules@,
        countries: country_index(zones),
        country_code: match country_code {
            Some(c) => Some(c@),
            None => None,
        },
        inclusions,
    }
}

/// Gives every zone its country and, where its country's rules allow, its type.
///
/// Without a country for the run and without a single country-level zone nothing can
/// be classified: the pass fails at once and touches nothing. Otherwise it takes the
/// zones in order. A zone for which no country is found is counted and left as it is.
/// Any other zone has its country written down and is classified against the types
/// given so far; a failure is counted under its country, or country and level, and
/// leaves the type of the zone as it was.
pub fn type_zones(
    zones: &mut Vec<Zone>,
    stats: &mut CosmogonyStats,
    zone_typer: &ZoneTyper,
    country_code: Option<String>,
    inclusions: &Vec<Vec<ZoneIndex>>,
) -> (r: Result<(), CosmogonyError>)
    requires
        old(stats).has_room_for(old(zones)@.len()),
    ensures
        r is Err <==> country_code is None && country_index(old(zones)@).len() == 0,
        r is Err ==> r == Err::<(), CosmogonyError>(CosmogonyError::NoCountryContext),
        r is Err ==> *final(zones) == *old(zones) && *final(stats) == *old(stats),
        r is Ok ==> typed_upto(
            typing_input(old(zones)@, *zone_typer, country_code, lists_of(inclusions@)),
            old(zones)@,
            final(zones)@,
            old(zones)@.len(),
        ) && tallied_upto(
            typing_input(old(zones)@, *zone_typer, country_code, lists_of(inclusions@)),
            old(zones)@,
            *old(stats),
            *final(stats),
            old(zones)@.len(),
        ),
{
    let ghost input = typing_input(zones@, *zone_typer, country_code, lists_of(inclusions@));
    let ghost before = zones@;
    let country_finder = CountryFinder::from_zones(zones);
    if country_code.is_none() && country_finder.is_empty() {
        return Err(CosmogonyError::NoCountryContext);
    }
    let n = zones.len();
    let no_candidates: Vec<ZoneIndex> = Vec::new();
    let mut i: usize = 0;
    assert(zone_types(zones@) =~= types_after(input, before, 0));
    while i < n
        invariant
            n == before.len(),
            i <= n,
            before == old(zones)@,
            input == typing_input(before, *zone_typer, country_code, lists_of(inclusions@)),
            country_finder.index() == input.countries,
            no_candidates@.len() == 0,
            old(stats).has_room_for(n as nat),
            typed_upto(input, before, zones@, i as nat),
            tallied_upto(input, before, *old(stats), *stats, i as nat),
        decreases n - i,
    {
        let ghost types = zone_types(zones@);
        let ghost current = zones@;
        let ghost counted = *stats;
        proof {
            lemma_failures_bounded(input, before, i as nat);
            assert(zones@[i as int].osm_id == before[i as int].osm_id);
            assert(zones@[i as int].boundary == before[i as int].boundary);
            assert(admin_levels(zones@) =~= admin_levels(before));
        }
        let country = get_country_code(&country_finder, &zones[i], &country_code);
        match country {
            None => {
                assert(outcome(input, before, i as int) == Outcome::NoCountry);
                stats.count_without_country();
            },
            Some(c) => {
                assert(resolved_country(input, before[i as int]) == Some(c@));
                let candidates = if i < inclusions.len() {
                    &inclusions[i]
                } else {
                    &no_candidates
                };
                assert(candidates@ =~= candidates_at(lists_of(inclusions@), i as int));
                let found = zone_typer.get_zone_type(&zones[i], c.as_str(), candidates, zones);
                zones[i].country_code = Some(c);
                match found {
                    Ok(t) => {
                        assert(outcome(input, before, i as int) == Outcome::Typed(t));
                        zones[i].zone_type = Some(t);
                    },
                    Err(ZoneTyperError::InvalidCountry(unknown)) => {
                        assert(outcome(input, before, i as int) == Outcome::InvalidCountry(
                            unknown@,
                        ));
                        stats.count_unknown_country_rules(unknown);
                    },
                    Err(ZoneTyperError::UnknownLevel(level, of)) => {
                        let counted_level = match level {
                            Some(l) => l,
                            None => 0,
                        };
                        assert(outcome(input, before, i as int) == Outcome::UnknownLevel(
                            of@,
                            counted_level,
                        ));
                        stats.count_unhandled_level(of, counted_level);
                    },
                }
            },
        }
        proof {
            assert(zone_types(zones@) =~= types_after(input, before, (i + 1) as nat));
            assert forall|c: Seq<char>| #[trigger]
                stats.unknown_country_rules(c) == old(stats).unknown_country_rules(c)
                    + invalid_country(input, before, (i + 1) as nat, c) by {
                assert(counted.unknown_country_rules(c) == old(stats).unknown_country_rules(c)
                    + invalid_country(input, before, i as nat, c));
            }
            assert forall|c: Seq<char>, l: u32| #[trigger]
                stats.unhandled(c, l) == old(stats).unhandled(c, l) + unhandled_level(
                    input,
                    before,
                    (i + 1) as nat,
                    c,
                    l,
                ) by {
                assert(counted.unhandled(c, l) == old(stats).unhandled(c, l) + unhandled_level(
                    input,
                    before,
                    i as nat,
                    c,
                    l,
                ));
            }
        }
        i += 1;
    }
    Ok(())
}

/// Whether an object of the extract becomes a zone: it is administrative, it has a
/// name and, where boundaries are asked for, a boundary.
pub open spec fn makes_zone(obj: SourceObject, with_geom: bool) -> bool {
    &&& is_admin_object(obj)
    &&& obj matches SourceObject::Relation(rel)
    &&& tags_map(rel.tags).contains_key("name"@)
    &&& with_geom ==> rel.boundary is Some
}

/// The relations among `objects` that become zones, in order.
pub open spec fn zone_sources(objects: Seq<SourceObject>, with_geom: bool) -> Seq<SourceRelation>
    decreases objects.len(),
{
    if objects.len() == 0 {
        Seq::empty()
    } else if makes_zone(objects.last(), with_geom) {
        zone_sources(objects.drop_last(), with_geom).push(objects.last()->Relation_0)
    } else {
        zone_sources(objects.drop_last(), with_geom)
    }
}

/// `z` is the zone made from `rel` for position `position`: named by the `name` tag,
/// with the id, level and tags of the relation, its boundary where boundaries are
/// asked for, and nothing else filled in.
pub open spec fn is_fresh_zone(z: Zone, rel: SourceRelation, position: int, with_geom: bool) -> bool {
    &&& z.name@ == tags_map(rel.tags)["name"@]
    &&& z.children@.len() == 0
    &&& z == (Zone {
        id: ZoneIndex { index: position as usize },
        osm_id: rel.id,
        admin_level: tagged_level(rel.tags),
        zone_type: None,
        name: z.name,
        label: None,
        country_code: None,
        parent: None,
        children: z.children,
        boundary: if with_geom {
            rel.boundary
        } else {
            None
        },
        tags: rel.tags,
    })
}

/// `zones` are the zones made from `objects`.
pub open spec fn are_fresh_zones(
    objects: Seq<SourceObject>,
    with_geom: bool,
    zones: Seq<Zone>,
) -> bool {
    &&& zones.len() == zone_sources(objects, with_geom).len()
    &&& forall|k: int|
        0 <= k < zones.len() ==> is_fresh_zone(
            #[trigger] zones[k],
            zone_sources(objects, with_geom)[k],
            k,
            with_geom,
        )
}

/// Some object becomes a zone that is indexed as a country: a relation of the country
/// level that keeps its boundary and carries its country code.
pub open spec fn has_country_source(objects: Seq<SourceObject>, with_geom: bool) -> bool {
    exists|k: int|
        0 <= k < objects.len() && makes_zone(#[trigger] objects[k], with_geom) && with_geom
            && tagged_level(objects[k]->Relation_0.tags) == Some(COUNTRY_ADMIN_LEVEL) && tags_map(
            objects[k]->Relation_0.tags,
        ).contains_key("ISO3166-1:alpha2"@)
}

/// The relations that become zones are those of the objects that make a zone.
proof fn lemma_sources_are_the_zone_makers(objects: Seq<SourceObject>, with_geom: bool)
    ensures
        forall|m: int|
            0 <= m < zone_sources(objects, with_geom).len() ==> exists|k: int|
                0 <= k < objects.len() && makes_zone(#[trigger] objects[k], with_geom)
                    && objects[k]->Relation_0 == #[trigger] zone_sources(objects, with_geom)[m],
        forall|k: int|
            0 <= k < objects.len() && makes_zone(#[trigger] objects[k], with_geom) ==> exists|
                m: int,
            |
                0 <= m < zone_sources(objects, with_geom).len() && #[trigger] zone_sources(
                    objects,
                    with_geom,
                )[m] == objects[k]->Relation_0,
    decreases objects.len(),
{
    if objects.len() > 0 {
        let head = objects.drop_last();
        let sources = zone_sources(objects, with_geom);
        let earlier = zone_sources(head, with_geom);
        lemma_sources_are_the_zone_makers(head, with_geom);
        assert forall|m: int| 0 <= m < sources.len() implies exists|k: int|
            0 <= k < objects.len() && makes_zone(#[trigger] objects[k], with_geom)
                && objects[k]->Relation_0 == #[trigger] sources[m] by {
            if m < earlier.len() {
                assert(sources[m] == earlier[m]);
                let k = choose|k: int|
                    0 <= k < head.len() && makes_zone(#[trigger] head[k], with_geom)
                        && head[k]->Relation_0 == earlier[m];
                assert(objects[k] == head[k]);
            } else {
                assert(makes_zone(objects[objects.len() - 1], with_geom));
            }
        }
        assert forall|k: int|
            0 <= k < objects.len() && makes_zone(#[trigger] objects[k], with_geom) implies exists|
            m: int,
        | 0 <= m < sources.len() && #[trigger] sources[m] == objects[k]->Relation_0 by {
            if k < head.len() {
                assert(objects[k] == head[k]);
                let m = choose|m: int|
                    0 <= m < earlier.len() && #[trigger] earlier[m] == head[k]->Relation_0;
                assert(sources[m] == earlier[m]);
            } else {
                assert(sources[sources.len() - 1] == objects[k]->Relation_0);
            }
        }
    }
}

/// The zones made from the objects hold a country zone exactly when some object
/// becomes one.
pub proof fn lemma_fresh_zones_hold_the_country_sources(
    objects: Seq<SourceObject>,
    with_geom: bool,
    fresh: Seq<Zone>,
)
    requires
        are_fresh_zones(objects, with_geom, fresh),
    ensures
        country_index(fresh).len() > 0 <==> has_country_source(objects, with_geom),
{
    let sources = zone_sources(objects, with_geom);
    lemma_index_is_empty_without_country_zone(fresh);
    lemma_sources_are_the_zone_makers(objects, with_geom);
    if country_index(fresh).len() > 0 {
        let m = choose|m: int| 0 <= m < fresh.len() && is_country_zone(#[trigger] fresh[m]);
        assert(is_fresh_zone(fresh[m], sources[m], m, with_geom));
        let k = choose|k: int|
            0 <= k < objects.len() && makes_zone(#[trigger] objects[k], with_geom)
                && objects[k]->Relation_0 == sources[m];
        assert(makes_zone(objects[k], with_geom));
    }
    if has_country_source(objects, with_geom) {
        let k = choose|k: int|
            0 <= k < objects.len() && makes_zone(#[trigger] objects[k], with_geom) && with_geom
                && tagged_level(objects[k]->Relation_0.tags) == Some(COUNTRY_ADMIN_LEVEL) && tags_map(
                objects[k]->Relation_0.tags,
            ).contains_key("ISO3166-1:alpha2"@);
        let m = choose|m: int|
            0 <= m < sources.len() && #[trigger] sources[m] == objects[k]->Relation_0;
        assert(is_fresh_zone(fresh[m], sources[m], m, with_geom));
        assert(is_country_zone(fresh[m]));
    }
}

/// The counters of a run that has counted nothing yet.
pub open spec fn is_blank(stats: CosmogonyStats) -> bool {
    &&& stats.zone_without_country == 0
    &&& stats.zone_with_unknown_country_rules@.len() == 0
    &&& stats.unhandled_admin_level@.len() == 0
    &&& forall|t: ZoneType| stats.zone_type_counts.of(t) == 0
}

/// The zones made from the objects of an extract, with blank statistics.
fn collect_zones(objects: Vec<SourceObject>, with_geom: bool) -> (r: (Vec<Zone>, CosmogonyStats))
    ensures
        are_fresh_zones(objects@, with_geom, r.0@),
        is_blank(r.1),
{
    let ghost all = objects@;
    let n = objects.len();
    let mut objects = objects;
    let mut taken: Vec<SourceObject> = Vec::new();
    while objects.len() > 0
        invariant
            objects.len() + taken.len() == n,
            n == all.len(),
            forall|j: int| 0 <= j < objects.len() ==> #[trigger] objects@[j] == all[j],
            forall|j: int| 0 <= j < taken.len() ==> #[trigger] taken@[j] == all[n - 1 - j],
        decreases objects.len(),
    {
        let obj = objects.pop().unwrap();
        taken.push(obj);
    }
    let mut zones: Vec<Zone> = Vec::new();
    let stats = CosmogonyStats::default();
    let mut k: usize = 0;
    while k < n
        invariant
            n == all.len(),
            k <= n,
            taken.len() == n - k,
            forall|j: int| 0 <= j < taken.len() ==> #[trigger] taken@[j] == all[n - 1 - j],
            are_fresh_zones(all.take(k as int), with_geom, zones@),
        decreases n - k,
    {
        let ghost made = zones@;
        let ghost sources = zone_sources(all.take(k as int), with_geom);
        proof {
            assert(all.take(k + 1).drop_last() =~= all.take(k as int));
            assert(all.take(k + 1).last() == all[k as int]);
        }
        let obj = taken.pop().unwrap();
        assert(obj == all[k as int]);
        if is_admin(&obj) {
            match obj {
                SourceObject::Relation(relation) => {
                    let next_index = ZoneIndex { index: zones.len() };
                    let zone = if with_geom {
                        Zone::from_osm_with_geom(relation, next_index)
                    } else {
                        Zone::from_osm(relation, next_index)
                    };
                    if let Some(zone) = zone {
                        if !with_geom || zone.boundary.is_some() {
                            zones.push(zone);
                            proof {
                                let grown = zone_sources(all.take(k + 1), with_geom);
                                assert(grown == sources.push(relation));
                                assert forall|m: int| 0 <= m < zones.len() implies is_fresh_zone(
                                    #[trigger] zones@[m],
                                    grown[m],
                                    m,
                                    with_geom,
                                ) by {
                                    if m < made.len() {
                                        assert(zones@[m] == made[m]);
                                        assert(grown[m] == sources[m]);
                                    }
                                }
                            }
                        }
                    }
                },
                _ => {},
            }
        }
        k += 1;
    }
    assert(all.take(n as int) =~= all);
    (zones, stats)
}

/// The zones made from the administrative relations of an extract that have a name
/// and a boundary, with blank statistics.
pub fn get_zones_and_stats(objects: Vec<SourceObject>) -> (r: (Vec<Zone>, CosmogonyStats))
    ensures
        are_fresh_zones(objects@, true, r.0@),
        is_blank(r.1),
{
    collect_zones(objects, true)
}

/// The zones made from the administrative relations of an extract that have a name,
/// without their boundaries, with blank statistics.
pub fn get_zones_and_stats_without_geom(objects: Vec<SourceObject>) -> (r: (
    Vec<Zone>,
    CosmogonyStats,
))
    ensures
        are_fresh_zones(objects@, false, r.0@),
        is_blank(r.1),
{
    collect_zones(objects, false)
}

/// The stages that lead from the zones `before` to the zones `after`: with the
/// inclusion lists `lists`, typing gives `typed`, building the hierarchy on that gives
/// `linked`, labelling gives `named`, and pruning gives `after`. The failures of
/// typing take the counters from `counted_before` to `counted_after`.
pub open spec fn is_run(
    before: Seq<Zone>,
    zone_typer: ZoneTyper,
    country_code: Option<String>,
    lists: Seq<Seq<ZoneIndex>>,
    typed: Seq<Zone>,
    linked: Seq<Zone>,
    named: Seq<Zone>,
    after: Seq<Zone>,
    counted_before: CosmogonyStats,
    counted_after: CosmogonyStats,
) -> bool {
    &&& are_inclusion_lists(before, lists)
    &&& typed_upto(
        typing_input(before, zone_typer, country_code, lists),
        before,
        typed,
        before.len(),
    )
    &&& tallied_upto(
        typing_input(before, zone_typer, country_code, lists),
        before,
        counted_before,
        counted_after,
        before.len(),
    )
    &&& only_links_differ(typed, linked)
    &&& is_hierarchy(parent_links(linked), lists)
    &&& children_wired(linked)
    &&& labelled(linked, named)
    &&& pruned(named, after)
}

/// `after` and `counted_after` are what a run makes of `before` and `counted_before`.
pub open spec fn is_ontology(
    before: Seq<Zone>,
    zone_typer: ZoneTyper,
    country_code: Option<String>,
    after: Seq<Zone>,
    counted_before: CosmogonyStats,
    counted_after: CosmogonyStats,
) -> bool {
    exists|lists: Seq<Seq<ZoneIndex>>, typed: Seq<Zone>, linked: Seq<Zone>, named: Seq<Zone>|
        #[trigger] is_run(
            before,
            zone_typer,
            country_code,
            lists,
            typed,
            linked,
            named,
            after,
            counted_before,
            counted_after,
        )
}

/// Types the zones, builds their hierarchy, labels them and drops those without type.
///
/// The run fails, touching nothing, when no country is given and the zones hold no
/// country-level zone. In the result every zone has a type, the parent links form a
/// forest, and ids, parent and child links fit the positions of the zones.
pub fn create_ontology(
    zones: &mut Vec<Zone>,
    stats: &mut CosmogonyStats,
    zone_typer: &ZoneTyper,
    country_code: Option<String>,
) -> (r: Result<(), CosmogonyError>)
    requires
        old(stats).has_room_for(old(zones)@.len()),
    ensures
        r is Err <==> country_code is None && country_index(old(zones)@).len() == 0,
        r is Err ==> r == Err::<(), CosmogonyError>(CosmogonyError::NoCountryContext),
        r is Err ==> *final(zones) == *old(zones) && *final(stats) == *old(stats),
        r is Ok ==> is_ontology(
            old(zones)@,
            *zone_typer,
            country_code,
            final(zones)@,
            *old(stats),
            *final(stats),
        ),
        r is Ok ==> forall|m: int|
            0 <= m < final(zones)@.len() ==> (#[trigger] final(zones)@[m]).zone_type is Some,
        r is Ok ==> acyclic(parent_links(final(zones)@)),
        r is Ok ==> final(stats).zone_type_counts == old(stats).zone_type_counts,
{
    let ghost before = zones@;
    let inclusions = find_inclusions(zones);
    let ghost lists = lists_of(inclusions@);
    match type_zones(zones, stats, zone_typer, country_code, &inclusions) {
        Err(e) => {
            return Err(e);
        },
        Ok(()) => {},
    }
    let ghost typed = zones@;
    build_hierarchy(zones, inclusions);
    let ghost linked = zones@;
    compute_labels(zones);
    let ghost named = zones@;
    proof {
        assert(parent_links(named) =~= parent_links(linked));
    }
    // The indices held so far lose their meaning here: pruning re-issues them.
    clean_untagged_zones(zones);
    proof {
        assert(is_run(
            before,
            *zone_typer,
            country_code,
            lists,
            typed,
            linked,
            named,
            zones@,
            *old(stats),
            *stats,
        ));
    }
    Ok(())
}

/// `result` is what the pipeline makes of `objects`: the zones `fresh` made from them
/// go through a run that starts from the blank counters `blank`, and the type counts
/// are those of the zones of the result.
pub open spec fn is_cosmogony(
    objects: Seq<SourceObject>,
    with_geom: bool,
    zone_typer: ZoneTyper,
    country_code: Option<String>,
    result: Cosmogony,
    fresh: Seq<Zone>,
    blank: CosmogonyStats,
) -> bool {
    &&& are_fresh_zones(objects, with_geom, fresh)
    &&& is_blank(blank)
    &&& country_code is Some || country_index(fresh).len() > 0
    &&& is_ontology(
        fresh,
        zone_typer,
        country_code,
        result.zones@,
        blank,
        CosmogonyStats { zone_type_counts: blank.zone_type_counts, ..result.meta.stats },
    )
    &&& forall|t: ZoneType|
        result.meta.stats.zone_type_counts.of(t) == count_of_type(result.zones@, t)
}

/// Blank counters have room for any number of zones.
proof fn lemma_blank_has_room(stats: CosmogonyStats, more: nat)
    requires
        is_blank(stats),
        more <= u64::MAX,
    ensures
        stats.has_room_for(more),
{
    assert forall|c: Seq<char>| #[trigger] stats.unknown_country_rules(c) + more <= u64::MAX by {
        assert(stats.unknown_country_rules(c) == 0);
    }
    assert forall|c: Seq<char>, l: u32| #[trigger] stats.unhandled(c, l) + more <= u64::MAX by {
        assert(stats.unhandled(c, l) == 0);
    }
}

/// Runs the whole pipeline on the objects of an extract read from `osm_filename`.
///
/// It fails exactly when no country is given and no object becomes a country zone.
pub fn build_cosmogony(
    objects: Vec<SourceObject>,
    osm_filename: String,
    with_geom: bool,
    zone_typer: &ZoneTyper,
    country_code: Option<String>,
) -> (r: Result<Cosmogony, CosmogonyError>)
    ensures
        r matches Ok(cosmogony) ==> exists|fresh: Seq<Zone>, blank: CosmogonyStats| #[trigger]
            is_cosmogony(
                objects@,
                with_geom,
                *zone_typer,
                country_code,
                cosmogony,
                fresh,
                blank,
            ),
        r matches Ok(cosmogony) ==> cosmogony.meta.osm_filename == osm_filename,
        r matches Ok(cosmogony) ==> forall|m: int|
            0 <= m < cosmogony.zones@.len() ==> (#[trigger] cosmogony.zones@[m]).zone_type is Some,
        r matches Ok(cosmogony) ==> acyclic(parent_links(cosmogony.zones@)),
        r is Err <==> country_code is None && !has_country_source(objects@, with_geom),
        r matches Err(e) ==> e == CosmogonyError::NoCountryContext,
{
    let (mut zones, mut stats) = if with_geom {
        get_zones_and_stats(objects)
    } else {
        get_zones_and_stats_without_geom(objects)
    };
    let ghost fresh = zones@;
    let ghost blank = stats;
    let nb_zones = zones.len();
    proof {
        lemma_blank_has_room(stats, nb_zones as nat);
        lemma_fresh_zones_hold_the_country_sources(objects@, with_geom, fresh);
    }
    match create_ontology(&mut zones, &mut stats, zone_typer, country_code) {
        Err(e) => {
            return Err(e);
        },
        Ok(()) => {},
    }
    let ghost counted = stats;
    stats.compute(&zones);
    let cosmogony = Cosmogony { zones, meta: CosmogonyMetadata { osm_filename, stats } };
    proof {
        assert(counted == (CosmogonyStats {
            zone_type_counts: blank.zone_type_counts,
            ..cosmogony.meta.stats
        }));
        assert(is_cosmogony(
            objects@,
            with_geom,
            *zone_typer,
            country_code,
            cosmogony,
            fresh,
            blank,
        ));
    }
    Ok(cosmogony)
}

} // verus!
