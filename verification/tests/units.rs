use cosmogony::cosmogony::{CosmogonyError, CosmogonyStats, TypeCounts};
use cosmogony::country_finder::CountryFinder;
use cosmogony::hierarchy_builder::{build_hierarchy, comes_before, find_inclusions, inclusions_of};
use cosmogony::labels::write_label;
use cosmogony::tree::{is_forest, wire_children};
use cosmogony::zone::{
    covering_boxes, level_from_tags, parse_level, Boundary, SourceObject, SourceRelation, Zone, ZoneIndex, ZoneType,
};
use cosmogony::zone_typer::{infer_from_ancestors, CountryRules, LevelRule, TagRule, ZoneTyper};
use cosmogony::{build_cosmogony, clean_untagged_zones, compute_labels, get_zones_and_stats};
use osmpbfreader::Tags;

fn idx(index: usize) -> ZoneIndex {
    ZoneIndex { index }
}

fn zone(osm_id: i64, name: &str, level: Option<u32>, boundary: Option<Boundary>) -> Zone {
    let mut tags = Tags::new();
    tags.insert("name".into(), name.into());
    if let Some(level) = level {
        tags.insert("admin_level".into(), level.to_string().into());
    }
    Zone::from_osm_with_geom(
        SourceRelation { id: osm_id, tags, boundary },
        idx(0),
    )
    .unwrap()
}

fn bounds(min: i32, max: i32, area: u64, enclosed_by: Vec<i64>) -> Option<Boundary> {
    Boundary::new(min, min, max, max, area, enclosed_by)
}

fn collection(zones: Vec<Zone>) -> Vec<Zone> {
    zones
        .into_iter()
        .enumerate()
        .map(|(i, mut z)| {
            z.id = idx(i);
            z
        })
        .collect()
}

fn french_rules() -> ZoneTyper {
    ZoneTyper {
        countries_rules: vec![
            CountryRules {
                country: "FR".to_string(),
                levels: vec![
                    LevelRule { level: 2, zone_type: ZoneType::Country },
                    LevelRule { level: 4, zone_type: ZoneType::State },
                    LevelRule { level: 8, zone_type: ZoneType::City },
                    LevelRule { level: 8, zone_type: ZoneType::Suburb },
                ],
                fallback: vec![TagRule { key: "place".to_string(), value: "island".to_string() }],
            },
            CountryRules {
                country: "FR".to_string(),
                levels: vec![LevelRule { level: 2, zone_type: ZoneType::Suburb }],
                fallback: vec![],
            },
        ],
    }
}

#[test]
fn ranks_follow_the_nesting() {
    assert_eq!(ZoneType::Country.rank(), Some(0));
    assert_eq!(ZoneType::CountryRegion.rank(), Some(1));
    assert_eq!(ZoneType::State.rank(), Some(2));
    assert_eq!(ZoneType::StateDistrict.rank(), Some(3));
    assert_eq!(ZoneType::City.rank(), Some(4));
    assert_eq!(ZoneType::CityDistrict.rank(), Some(5));
    assert_eq!(ZoneType::Suburb.rank(), Some(6));
    assert_eq!(ZoneType::NonAdministrative.rank(), None);
    assert_eq!(ZoneType::Country.finer(), Some(ZoneType::CountryRegion));
    assert_eq!(ZoneType::State.finer(), Some(ZoneType::StateDistrict));
    assert_eq!(ZoneType::CityDistrict.finer(), Some(ZoneType::Suburb));
    assert_eq!(ZoneType::Suburb.finer(), None);
    assert_eq!(ZoneType::NonAdministrative.finer(), None);
}

#[test]
fn boundary_wants_an_ordered_box() {
    assert!(Boundary::new(0, 0, 0, 0, 0, vec![]).is_some());
    assert!(Boundary::new(1, 0, 0, 5, 0, vec![]).is_none());
    assert!(Boundary::new(0, 6, 9, 5, 0, vec![]).is_none());
    let b = Boundary::new(-5, -6, 7, 8, 9, vec![3, 4]).unwrap();
    assert_eq!((b.min_lon, b.min_lat, b.max_lon, b.max_lat, b.area), (-5, -6, 7, 8, 9));
    assert_eq!(b.enclosed_by, vec![3, 4]);
    assert!(b.is_enclosed_by(4));
    assert!(!b.is_enclosed_by(5));
}

#[test]
fn containment_needs_box_and_listing() {
    let outer = zone(1, "outer", None, bounds(0, 100, 10_000, vec![]));
    let listed = zone(2, "listed", None, bounds(10, 20, 100, vec![1]));
    let unlisted = zone(3, "unlisted", None, bounds(10, 20, 100, vec![9]));
    let sticking_out = zone(4, "out", None, bounds(50, 150, 10_000, vec![1]));
    let without = zone(5, "without", None, None);
    assert!(outer.contains(&listed));
    assert!(!outer.contains(&unlisted));
    assert!(!outer.contains(&sticking_out));
    assert!(!outer.contains(&without));
    assert!(!without.contains(&listed));
    assert!(!listed.contains(&outer));
    let same_box = zone(6, "same", None, bounds(0, 100, 10_000, vec![1]));
    assert!(outer.contains(&same_box));
}

#[test]
fn inclusion_lists_go_from_tightest_to_widest() {
    let zones = collection(vec![
        zone(1, "country", Some(2), bounds(0, 1000, 1_000_000, vec![])),
        zone(4, "city", Some(8), bounds(10, 20, 100, vec![1, 2, 3, 3, 77])),
        zone(2, "state", Some(4), bounds(0, 500, 250_000, vec![1])),
        zone(3, "county", Some(6), bounds(0, 100, 10_000, vec![2, 1])),
        zone(3, "county again", Some(6), bounds(0, 100, 10_000, vec![2, 1])),
    ]);
    let lists = find_inclusions(&zones);
    assert_eq!(lists.len(), 5);
    assert_eq!(lists[0], vec![]);
    assert_eq!(lists[1], vec![idx(3), idx(4), idx(2), idx(0)]);
    assert_eq!(lists[2], vec![idx(0)]);
    assert_eq!(lists[3], vec![idx(2), idx(0)]);
    assert_eq!(inclusions_of(&zones, 4), vec![idx(2), idx(0)]);
    assert!(comes_before(&zones, 3, 4));
    assert!(!comes_before(&zones, 4, 3));
    assert!(!comes_before(&zones, 3, 3));
    assert!(comes_before(&zones, 1, 0));
    assert!(comes_before(&zones, 2, 0));
}

#[test]
fn hierarchy_takes_the_first_candidate_that_closes_no_circle() {
    let mut zones = collection(vec![
        zone(1, "a", None, None),
        zone(2, "b", None, None),
        zone(3, "c", None, None),
        zone(4, "d", None, None),
    ]);
    zones[3].parent = Some(idx(0));
    zones[0].children = vec![idx(2)];
    let inclusions = vec![
        vec![idx(0), idx(9), idx(1)],
        vec![idx(0), idx(2)],
        vec![idx(1), idx(0)],
    ];
    build_hierarchy(&mut zones, inclusions);
    // Zone 0: itself and a zone that is not there are passed over.
    assert_eq!(zones[0].parent, Some(idx(1)));
    // Zone 1: zone 0 is below it by now, zone 2 is not.
    assert_eq!(zones[1].parent, Some(idx(2)));
    // Zone 2: both candidates are below it: it stays a root.
    assert_eq!(zones[2].parent, None);
    // Zone 3 has no list: what it came with is dropped.
    assert_eq!(zones[3].parent, None);
    assert_eq!(zones[0].children, vec![]);
    assert_eq!(zones[1].children, vec![idx(0)]);
    assert_eq!(zones[2].children, vec![idx(1)]);
    assert_eq!(zones[3].children, vec![]);
    assert_eq!(zones[1].name, "b");
    for start in 0..zones.len() {
        let mut at = start;
        let mut steps = 0;
        while let Some(p) = zones[at].parent {
            at = p.index;
            steps += 1;
            assert!(steps < zones.len());
        }
    }
}

#[test]
fn children_are_wired_in_ascending_order() {
    let mut zones = collection(vec![
        zone(1, "a", None, None),
        zone(2, "b", None, None),
        zone(3, "c", None, None),
        zone(4, "d", None, None),
    ]);
    zones[0].parent = Some(idx(2));
    zones[1].parent = Some(idx(2));
    zones[3].parent = Some(idx(1));
    wire_children(&mut zones);
    assert_eq!(zones[2].children, vec![idx(0), idx(1)]);
    assert_eq!(zones[1].children, vec![idx(3)]);
    assert_eq!(zones[0].children, vec![]);
    assert_eq!(zones[0].parent, Some(idx(2)));
}

#[test]
fn first_rule_for_a_country_and_level_counts() {
    let typer = french_rules();
    assert_eq!(typer.rules_of("FR"), Some(0));
    assert_eq!(typer.rules_of("fr"), None);
    assert_eq!(typer.countries_rules[0].type_of_level(8), Some(ZoneType::City));
    assert_eq!(typer.countries_rules[0].type_of_level(2), Some(ZoneType::Country));
    assert_eq!(typer.countries_rules[0].type_of_level(3), None);
    let mut island = Tags::new();
    island.insert("place".into(), "island".into());
    assert!(typer.countries_rules[0].recognises(&island));
    let mut city = Tags::new();
    city.insert("place".into(), "city".into());
    city.insert("island".into(), "place".into());
    assert!(!typer.countries_rules[0].recognises(&city));
    assert!(!typer.countries_rules[1].recognises(&island));
}

#[test]
fn inference_asks_the_nearest_typed_ancestor_only_when_the_chain_is_plain() {
    let mut zones = collection(vec![
        zone(1, "country", Some(2), None),
        zone(2, "state", Some(4), None),
        zone(3, "untyped", Some(5), None),
        zone(4, "suburb", Some(10), None),
        zone(5, "area", Some(3), None),
        zone(6, "levelless state", None, None),
    ]);
    zones[0].zone_type = Some(ZoneType::Country);
    zones[1].zone_type = Some(ZoneType::State);
    zones[3].zone_type = Some(ZoneType::Suburb);
    zones[4].zone_type = Some(ZoneType::NonAdministrative);
    zones[5].zone_type = Some(ZoneType::State);
    let all = &zones;
    assert_eq!(infer_from_ancestors(6, &vec![], all), None);
    assert_eq!(infer_from_ancestors(6, &vec![idx(2)], all), None);
    assert_eq!(infer_from_ancestors(6, &vec![idx(2), idx(1), idx(0)], all), Some(ZoneType::StateDistrict));
    assert_eq!(infer_from_ancestors(6, &vec![idx(40), idx(0)], all), Some(ZoneType::CountryRegion));
    // The level of the zone must lie below that of the ancestor.
    assert_eq!(infer_from_ancestors(4, &vec![idx(1), idx(0)], all), None);
    assert_eq!(infer_from_ancestors(5, &vec![idx(1), idx(0)], all), Some(ZoneType::StateDistrict));
    // Nothing is finer than a suburb.
    assert_eq!(infer_from_ancestors(11, &vec![idx(3), idx(1)], all), None);
    // A non-administrative ancestor has no rank to go by.
    assert_eq!(infer_from_ancestors(6, &vec![idx(4), idx(1)], all), None);
    // A finer type further out makes the chain ambiguous.
    assert_eq!(infer_from_ancestors(6, &vec![idx(1), idx(3)], all), None);
    // An unranked type further out does not.
    assert_eq!(infer_from_ancestors(6, &vec![idx(1), idx(4), idx(0)], all), Some(ZoneType::StateDistrict));
    // The ancestor must have a level of its own.
    assert_eq!(infer_from_ancestors(6, &vec![idx(5), idx(0)], all), None);
}

#[test]
fn counters_add_up_by_country_and_level() {
    let mut stats = CosmogonyStats::default();
    stats.count_without_country();
    stats.count_without_country();
    stats.count_unknown_country_rules("XX".to_string());
    stats.count_unknown_country_rules("YY".to_string());
    stats.count_unknown_country_rules("XX".to_string());
    stats.count_unhandled_level("FR".to_string(), 3);
    stats.count_unhandled_level("FR".to_string(), 0);
    stats.count_unhandled_level("FR".to_string(), 3);
    stats.count_unhandled_level("DE".to_string(), 3);
    assert_eq!(stats.zone_without_country, 2);
    assert_eq!(stats.unknown_country_rules_count("XX"), 2);
    assert_eq!(stats.unknown_country_rules_count("YY"), 1);
    assert_eq!(stats.unknown_country_rules_count("ZZ"), 0);
    assert_eq!(stats.unhandled_count("FR", 3), 2);
    assert_eq!(stats.unhandled_count("FR", 0), 1);
    assert_eq!(stats.unhandled_count("DE", 3), 1);
    assert_eq!(stats.unhandled_count("DE", 0), 0);
    assert_eq!(stats.zone_with_unknown_country_rules.len(), 2);
    assert_eq!(stats.unhandled_admin_level.len(), 3);

    let mut zones = collection(vec![
        zone(1, "a", None, None),
        zone(2, "b", None, None),
        zone(3, "c", None, None),
    ]);
    zones[0].zone_type = Some(ZoneType::City);
    zones[2].zone_type = Some(ZoneType::City);
    stats.zone_type_counts.bump(ZoneType::Country);
    stats.compute(&zones);
    assert_eq!(stats.zone_type_counts.get(ZoneType::City), 2);
    assert_eq!(stats.zone_type_counts.get(ZoneType::Country), 0);
    assert_eq!(stats.zone_without_country, 2);
    assert_eq!(stats.unhandled_count("FR", 3), 2);

    let mut counts = TypeCounts::zero();
    counts.bump(ZoneType::Suburb);
    counts.bump(ZoneType::Suburb);
    counts.bump(ZoneType::NonAdministrative);
    assert_eq!(counts.get(ZoneType::Suburb), 2);
    assert_eq!(counts.get(ZoneType::NonAdministrative), 1);
    assert_eq!(counts.get(ZoneType::City), 0);
}

#[test]
fn the_error_says_what_is_missing() {
    assert_eq!(
        CosmogonyError::NoCountryContext.message(),
        "no country_code has been provided and no country have been found, we won't be able to make a cosmogony"
    );
}

fn country_zone(osm_id: i64, name: &str, code: Option<&str>, level: u32, b: Option<Boundary>) -> Zone {
    let mut tags = Tags::new();
    tags.insert("name".into(), name.into());
    if let Some(code) = code {
        tags.insert("ISO3166-1:alpha2".into(), code.into());
    }
    tags.insert("admin_level".into(), level.to_string().into());
    Zone::from_osm_with_geom(
        SourceRelation { id: osm_id, tags, boundary: b },
        idx(0),
    )
    .unwrap()
}

#[test]
fn finder_indexes_country_level_zones_with_code_and_boundary() {
    let zones = collection(vec![
        country_zone(1, "Germany", Some("DE"), 2, bounds(0, 100, 10_000, vec![])),
        country_zone(2, "No code", None, 2, bounds(0, 100, 10_000, vec![])),
        country_zone(3, "No outline", Some("XX"), 2, None),
        country_zone(4, "Region", Some("YY"), 4, bounds(0, 100, 10_000, vec![])),
        country_zone(5, "France", Some("FR"), 2, bounds(200, 300, 10_000, vec![])),
        zone(6, "Both", Some(8), bounds(0, 1, 1, vec![5, 1])),
        zone(7, "Lyon", Some(8), bounds(210, 220, 100, vec![4, 5])),
        zone(8, "Nowhere", Some(8), bounds(210, 220, 100, vec![3, 2])),
        zone(1, "Twin of Germany", Some(8), None),
    ]);
    let finder = CountryFinder::from_zones(&zones);
    assert_eq!(finder.countries.len(), 2);
    assert_eq!(finder.countries[0].osm_id, 1);
    assert_eq!(finder.countries[0].code, "DE");
    assert_eq!(finder.countries[1].osm_id, 5);
    assert_eq!(finder.countries[1].code, "FR");
    assert_eq!(finder.find_zone_country(&zones[0]), Some("DE".to_string()));
    assert_eq!(finder.find_zone_country(&zones[4]), Some("FR".to_string()));
    // Where two countries are found around a zone, the first of the index counts.
    assert_eq!(finder.find_zone_country(&zones[5]), Some("DE".to_string()));
    assert_eq!(finder.find_zone_country(&zones[6]), Some("FR".to_string()));
    assert_eq!(finder.find_zone_country(&zones[7]), None);
    assert_eq!(finder.find_zone_country(&zones[8]), Some("DE".to_string()));
    let none = collection(vec![
        country_zone(2, "No code", None, 2, bounds(0, 100, 10_000, vec![])),
        country_zone(3, "No outline", Some("XX"), 2, None),
        country_zone(4, "Region", Some("YY"), 4, bounds(0, 100, 10_000, vec![])),
    ]);
    assert!(CountryFinder::from_zones(&none).is_empty());
    assert_eq!(CountryFinder::from_zones(&none).find_zone_country(&none[0]), None);
}

#[test]
fn labels_name_the_nearest_ancestor_that_tells_apart() {
    let mut zones = collection(vec![
        zone(1, "Illinois", None, None),
        zone(2, "Missouri", None, None),
        zone(3, "County", None, None),
        zone(4, "County", None, None),
        zone(5, "Springfield", None, None),
        zone(6, "Springfield", None, None),
        zone(7, "Springfield", None, None),
        zone(8, "Lone", None, None),
        zone(9, "Lone", None, None),
    ]);
    zones[2].parent = Some(idx(0));
    zones[3].parent = Some(idx(1));
    zones[4].parent = Some(idx(2));
    zones[5].parent = Some(idx(3));
    compute_labels(&mut zones);
    let label = |i: usize| zones[i].label.clone().unwrap();
    assert_eq!(label(0), "Illinois");
    assert_eq!(label(1), "Missouri");
    // The states tell the two counties apart.
    assert_eq!(label(2), "County, Illinois");
    assert_eq!(label(3), "County, Missouri");
    // Both have a "County" above them, so the counties do not tell the towns apart.
    assert_eq!(label(4), "Springfield, Illinois");
    assert_eq!(label(5), "Springfield, Missouri");
    // Without ancestors there is nothing to add.
    assert_eq!(label(6), "Springfield");
    assert_eq!(label(7), "Lone");
    assert_eq!(label(8), "Lone");
    assert_eq!(zones[4].parent, Some(idx(2)));
    assert_eq!(zones[4].name, "Springfield");
}

#[test]
fn a_label_is_written_to_one_zone_only() {
    let mut zones = collection(vec![zone(1, "a", None, None), zone(2, "b", None, None)]);
    write_label(&mut zones, 1, "B".to_string());
    assert_eq!(zones[0].label, None);
    assert_eq!(zones[1].label, Some("B".to_string()));
    assert_eq!(zones[1].name, "b");
}

#[test]
fn pruning_links_survivors_to_their_nearest_surviving_ancestor() {
    let mut zones = collection(vec![
        zone(1, "root", None, None),
        zone(2, "gone", None, None),
        zone(3, "gone too", None, None),
        zone(4, "leaf", None, None),
        zone(5, "orphan", None, None),
        zone(6, "sibling", None, None),
    ]);
    zones[1].parent = Some(idx(0));
    zones[2].parent = Some(idx(1));
    zones[3].parent = Some(idx(2));
    zones[4].parent = Some(idx(2));
    zones[5].parent = Some(idx(0));
    zones[0].zone_type = Some(ZoneType::Country);
    zones[3].zone_type = Some(ZoneType::City);
    zones[4].zone_type = Some(ZoneType::City);
    zones[5].zone_type = Some(ZoneType::State);
    clean_untagged_zones(&mut zones);
    assert_eq!(zones.len(), 4);
    let names: Vec<&str> = zones.iter().map(|z| z.name.as_str()).collect();
    assert_eq!(names, vec!["root", "leaf", "orphan", "sibling"]);
    for (i, z) in zones.iter().enumerate() {
        assert_eq!(z.id, idx(i));
        assert!(z.zone_type.is_some());
    }
    assert_eq!(zones[0].parent, None);
    assert_eq!(zones[1].parent, Some(idx(0)));
    assert_eq!(zones[2].parent, Some(idx(0)));
    assert_eq!(zones[3].parent, Some(idx(0)));
    assert_eq!(zones[0].children, vec![idx(1), idx(2), idx(3)]);
    assert!(zones[1].children.is_empty());

    let mut none: Vec<Zone> = vec![];
    clean_untagged_zones(&mut none);
    assert!(none.is_empty());
}

fn nested() -> Vec<SourceObject> {
    let rel = |id: i64, name: &str, level: u32, b: Option<Boundary>| {
        let mut tags = Tags::new();
        tags.insert("boundary".into(), "administrative".into());
        tags.insert("admin_level".into(), level.to_string().into());
        tags.insert("name".into(), name.into());
        SourceObject::Relation(SourceRelation { id, tags, boundary: b })
    };
    vec![
        rel(30, "Town", 8, bounds(10, 20, 100, vec![10, 20])),
        rel(20, "State", 4, bounds(0, 500, 250_000, vec![10])),
        rel(10, "Country", 2, bounds(0, 1000, 1_000_000, vec![])),
        rel(40, "Town", 8, bounds(600, 620, 400, vec![10])),
        rel(50, "Hamlet", 9, bounds(12, 14, 4, vec![30, 20, 10])),
    ]
}

#[test]
fn two_runs_give_the_same_result() {
    let run = || {
        build_cosmogony(nested(), "x.osm.pbf".to_string(), true, &french_rules(), Some("FR".to_string()))
            .unwrap()
    };
    let first = run();
    let second = run();
    assert_eq!(first.zones.len(), 5);
    assert_eq!(first.zones.len(), second.zones.len());
    for (a, b) in first.zones.iter().zip(second.zones.iter()) {
        assert_eq!(a.id, b.id);
        assert_eq!(a.name, b.name);
        assert_eq!(a.label, b.label);
        assert_eq!(a.parent, b.parent);
        assert_eq!(a.children, b.children);
        assert_eq!(a.zone_type, b.zone_type);
        assert_eq!(a.country_code, b.country_code);
    }
    // Level 9 has no rule: the hamlet is typed after the town around it.
    assert_eq!(first.zones[4].zone_type, Some(ZoneType::CityDistrict));
    assert_eq!(first.meta.stats.unhandled_count("FR", 9), 0);
    assert_eq!(second.meta.stats.unhandled_count("FR", 9), 0);
}

#[test]
fn parents_contain_their_children_and_no_zone_is_above_itself() {
    let c = build_cosmogony(nested(), "x".to_string(), true, &french_rules(), Some("FR".to_string()))
        .unwrap();
    let zones = &c.zones;
    assert_eq!(zones[0].name, "Town");
    assert_eq!(zones[0].parent, Some(idx(1)));
    assert_eq!(zones[0].label, Some("Town, State".to_string()));
    assert_eq!(zones[1].parent, Some(idx(2)));
    assert_eq!(zones[2].parent, None);
    assert_eq!(zones[3].parent, Some(idx(2)));
    // The other town has the country above it too: nothing tells this one apart.
    assert_eq!(zones[3].label, Some("Town".to_string()));
    assert_eq!(zones[2].children, vec![idx(1), idx(3)]);
    assert_eq!(zones[4].parent, Some(idx(0)));
    assert_eq!(zones[0].children, vec![idx(4)]);
    for z in zones.iter() {
        assert!(z.zone_type.is_some());
        if let Some(p) = z.parent {
            assert!(zones[p.index].contains(z));
            assert!(zones[p.index].children.contains(&z.id));
        }
        let mut at = z.id.index;
        let mut steps = 0;
        while let Some(p) = zones[at].parent {
            at = p.index;
            steps += 1;
            assert!(at != z.id.index);
            assert!(steps < zones.len());
        }
    }
}

#[test]
fn an_empty_extract_gives_an_empty_result_or_no_context() {
    let c = build_cosmogony(vec![], "e".to_string(), true, &french_rules(), Some("FR".to_string()))
        .unwrap();
    assert!(c.zones.is_empty());
    assert_eq!(c.meta.osm_filename, "e");
    assert_eq!(c.meta.stats.zone_without_country, 0);
    let r = build_cosmogony(vec![], "e".to_string(), false, &french_rules(), None);
    assert!(matches!(r, Err(CosmogonyError::NoCountryContext)));
    let (zones, _) = get_zones_and_stats(vec![SourceObject::Node, SourceObject::Way]);
    assert!(zones.is_empty());
}

#[test]
fn without_boundaries_every_zone_is_a_root() {
    let c = build_cosmogony(nested(), "x".to_string(), false, &french_rules(), Some("FR".to_string()))
        .unwrap();
    // Without candidate ancestors nothing is inferred for the hamlet's level.
    assert_eq!(c.zones.len(), 4);
    assert_eq!(c.meta.stats.unhandled_count("FR", 9), 1);
    for z in c.zones.iter() {
        assert_eq!(z.parent, None);
        assert!(z.children.is_empty());
        assert!(z.boundary.is_none());
    }
    assert_eq!(c.zones[0].label, Some("Town".to_string()));
    assert_eq!(c.zones[3].label, Some("Town".to_string()));
}

#[test]
fn only_covering_boxes_are_candidates_for_the_geometric_test() {
    let boxes: Vec<Boundary> = vec![
        Boundary::new(0, 0, 100, 100, 1, vec![]).unwrap(),
        Boundary::new(10, 10, 20, 20, 1, vec![]).unwrap(),
        Boundary::new(10, 10, 20, 20, 1, vec![]).unwrap(),
        Boundary::new(15, 15, 120, 18, 1, vec![]).unwrap(),
        Boundary::new(-5, 0, 100, 100, 1, vec![]).unwrap(),
    ];
    assert_eq!(covering_boxes(&boxes, 0), vec![4]);
    assert_eq!(covering_boxes(&boxes, 1), vec![0, 2, 4]);
    assert_eq!(covering_boxes(&boxes, 2), vec![0, 1, 4]);
    assert_eq!(covering_boxes(&boxes, 3), Vec::<usize>::new());
    assert_eq!(covering_boxes(&boxes, 4), Vec::<usize>::new());
    assert_eq!(covering_boxes(&boxes, 5), Vec::<usize>::new());
}

#[test]
fn counters_know_how_much_room_they_have() {
    let mut stats = CosmogonyStats::default();
    assert!(stats.has_room(usize::MAX));
    stats.zone_without_country = u64::MAX - 3;
    assert!(stats.has_room(3));
    assert!(!stats.has_room(4));
    stats.zone_without_country = 0;
    stats.count_unknown_country_rules("XX".to_string());
    stats.zone_with_unknown_country_rules[0].count = u64::MAX - 1;
    assert!(stats.has_room(1));
    assert!(!stats.has_room(2));
    stats.zone_with_unknown_country_rules.push(cosmogony::cosmogony::CountryCount {
        country: "XX".to_string(),
        count: 1,
    });
    assert!(stats.has_room(0));
    assert!(!stats.has_room(1));
    assert_eq!(stats.unknown_country_rules_count("XX"), u64::MAX);
    stats.zone_with_unknown_country_rules[1].count = 2;
    assert!(!stats.has_room(0));
    assert_eq!(stats.unknown_country_rules_count("XX"), u64::MAX);
    assert_eq!(stats.unknown_country_rules_count("YY"), 0);
    stats.zone_with_unknown_country_rules.clear();
    stats.count_unhandled_level("FR".to_string(), 7);
    stats.unhandled_admin_level[0].count = u64::MAX - 10;
    assert!(stats.has_room(10));
    assert!(!stats.has_room(11));
    assert_eq!(stats.unhandled_count("FR", 7), u64::MAX - 10);
    assert_eq!(stats.unhandled_count("FR", 8), 0);
}

#[test]
fn a_level_is_a_number_that_fits() {
    assert_eq!(parse_level("8"), Some(8));
    assert_eq!(parse_level("0"), Some(0));
    assert_eq!(parse_level("10"), Some(10));
    assert_eq!(parse_level("+8"), Some(8));
    assert_eq!(parse_level("008"), Some(8));
    assert_eq!(parse_level("4294967295"), Some(4294967295));
    assert_eq!(parse_level("4294967296"), None);
    assert_eq!(parse_level("99999999999999999999999999"), None);
    assert_eq!(parse_level(""), None);
    assert_eq!(parse_level("+"), None);
    assert_eq!(parse_level("++8"), None);
    assert_eq!(parse_level("8+"), None);
    assert_eq!(parse_level("-1"), None);
    assert_eq!(parse_level(" 8"), None);
    assert_eq!(parse_level("8 "), None);
    assert_eq!(parse_level("8a"), None);
    assert_eq!(parse_level("eight"), None);
    assert_eq!(parse_level("\u{0663}"), None);
    for text in ["8", "+8", "", "+", "12x", "4294967295", "4294967296", "007"] {
        assert_eq!(parse_level(text), text.parse::<u32>().ok());
    }
    let mut tags = Tags::new();
    assert_eq!(level_from_tags(&tags), None);
    tags.insert("admin_level".into(), "6".into());
    assert_eq!(level_from_tags(&tags), Some(6));
    tags.insert("admin_level".into(), "six".into());
    assert_eq!(level_from_tags(&tags), None);
}

#[test]
fn a_forest_has_links_inside_the_collection_that_never_lead_back() {
    let five = || {
        collection(vec![
            zone(1, "a", None, None),
            zone(2, "b", None, None),
            zone(3, "c", None, None),
            zone(4, "d", None, None),
            zone(5, "e", None, None),
        ])
    };
    assert!(is_forest(&vec![]));
    let mut zones = five();
    assert!(is_forest(&zones));
    // One chain through every zone.
    zones[0].parent = Some(idx(1));
    zones[1].parent = Some(idx(2));
    zones[2].parent = Some(idx(3));
    zones[3].parent = Some(idx(4));
    assert!(is_forest(&zones));
    // Closing it makes a circle.
    zones[4].parent = Some(idx(0));
    assert!(!is_forest(&zones));
    let mut zones = five();
    zones[2].parent = Some(idx(2));
    assert!(!is_forest(&zones));
    let mut zones = five();
    zones[1].parent = Some(idx(3));
    zones[3].parent = Some(idx(1));
    assert!(!is_forest(&zones));
    let mut zones = five();
    zones[1].parent = Some(idx(5));
    assert!(!is_forest(&zones));
    let mut zones = five();
    zones[0].parent = Some(idx(4));
    zones[1].parent = Some(idx(4));
    zones[2].parent = Some(idx(0));
    zones[3].parent = Some(idx(2));
    assert!(is_forest(&zones));
}
