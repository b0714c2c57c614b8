use cosmogony::cosmogony::{CosmogonyError, CosmogonyStats};
use cosmogony::zone::{Boundary, SourceObject, SourceRelation, Zone, ZoneIndex, ZoneType};
use cosmogony::zone_typer::{CountryRules, LevelRule, TagRule, ZoneTyper};
use cosmogony::{
    build_cosmogony, clean_untagged_zones, compute_labels, create_ontology, get_country_code,
    get_zones_and_stats, get_zones_and_stats_without_geom, is_admin, type_zones,
};
use osmpbfreader::Tags;

fn tags(pairs: &[(&str, &str)]) -> Tags {
    let mut t = Tags::new();
    for (k, v) in pairs {
        t.insert((*k).into(), (*v).into());
    }
    t
}

fn square(min: i32, max: i32, area: u64, enclosed_by: Vec<i64>) -> Boundary {
    Boundary { min_lon: min, min_lat: min, max_lon: max, max_lat: max, area, enclosed_by }
}

fn admin(id: i64, name: &str, level: Option<u32>, boundary: Option<Boundary>) -> SourceObject {
    let level_tag = match level {
        Some(l) => l.to_string(),
        None => "unknown".to_string(),
    };
    SourceObject::Relation(SourceRelation {
        id,
        tags: tags(&[
            ("boundary", "administrative"),
            ("admin_level", level_tag.as_str()),
            ("name", name),
        ]),
        boundary,
    })
}

fn rules(country: &str, levels: &[(u32, ZoneType)], fallback: &[(&str, &str)]) -> CountryRules {
    CountryRules {
        country: country.to_string(),
        levels: levels.iter().map(|(l, t)| LevelRule { level: *l, zone_type: *t }).collect(),
        fallback: fallback
            .iter()
            .map(|(k, v)| TagRule { key: k.to_string(), value: v.to_string() })
            .collect(),
    }
}

fn typer() -> ZoneTyper {
    ZoneTyper {
        countries_rules: vec![
            rules(
                "FR",
                &[(2, ZoneType::Country), (4, ZoneType::State), (8, ZoneType::City)],
                &[],
            ),
            rules(
                "US",
                &[(2, ZoneType::Country), (4, ZoneType::State), (8, ZoneType::City)],
                &[("boundary", "administrative")],
            ),
        ],
    }
}

fn name_of(zones: &[Zone], name: &str) -> usize {
    zones.iter().position(|z| z.name == name).unwrap()
}

#[test]
fn is_admin_wants_a_relation_with_both_tags() {
    assert!(is_admin(&admin(1, "France", Some(2), None)));
    assert!(!is_admin(&SourceObject::Node));
    assert!(!is_admin(&SourceObject::Way));
    let no_level = SourceObject::Relation(SourceRelation {
        id: 2,
        tags: tags(&[("boundary", "administrative"), ("name", "x")]),
        boundary: None,
    });
    assert!(!is_admin(&no_level));
    let other_boundary = SourceObject::Relation(SourceRelation {
        id: 3,
        tags: tags(&[("boundary", "postal_code"), ("admin_level", "8"), ("name", "x")]),
        boundary: None,
    });
    assert!(!is_admin(&other_boundary));
    let swapped = SourceObject::Relation(SourceRelation {
        id: 4,
        tags: tags(&[("administrative", "boundary"), ("admin_level", "8")]),
        boundary: None,
    });
    assert!(!is_admin(&swapped));
}

#[test]
fn zones_with_geometry_need_name_and_boundary() {
    let objects = vec![
        SourceObject::Node,
        admin(10, "With", Some(8), Some(square(0, 10, 100, vec![]))),
        admin(11, "Without", Some(8), None),
        SourceObject::Relation(SourceRelation {
            id: 12,
            tags: tags(&[("boundary", "administrative"), ("admin_level", "8")]),
            boundary: Some(square(0, 1, 1, vec![])),
        }),
        SourceObject::Way,
        admin(13, "Last", Some(4), Some(square(0, 20, 400, vec![7]))),
    ];
    let (zones, stats) = get_zones_and_stats(objects);
    assert_eq!(zones.len(), 2);
    assert_eq!(zones[0].name, "With");
    assert_eq!(zones[0].osm_id, 10);
    assert_eq!(zones[0].id, ZoneIndex { index: 0 });
    assert_eq!(zones[0].admin_level, Some(8));
    assert_eq!(zones[0].zone_type, None);
    assert_eq!(zones[0].parent, None);
    assert!(zones[0].children.is_empty());
    assert_eq!(zones[0].label, None);
    assert_eq!(zones[0].country_code, None);
    assert_eq!(zones[0].boundary.as_ref().unwrap().area, 100);
    assert_eq!(zones[1].name, "Last");
    assert_eq!(zones[1].id, ZoneIndex { index: 1 });
    assert_eq!(zones[1].boundary.as_ref().unwrap().enclosed_by, vec![7]);
    assert!(zones[1].tags.contains("admin_level", "4"));
    assert_eq!(stats.zone_without_country, 0);
    assert!(stats.zone_with_unknown_country_rules.is_empty());
    assert!(stats.unhandled_admin_level.is_empty());
    assert_eq!(stats.zone_type_counts.get(ZoneType::City), 0);
}

#[test]
fn zones_without_geometry_need_a_name_only() {
    let objects = vec![
        admin(10, "With", Some(8), Some(square(0, 10, 100, vec![]))),
        admin(11, "Without", Some(8), None),
    ];
    let (zones, _) = get_zones_and_stats_without_geom(objects);
    assert_eq!(zones.len(), 2);
    assert!(zones[0].boundary.is_none());
    assert_eq!(zones[1].name, "Without");
    assert_eq!(zones[1].id, ZoneIndex { index: 1 });
}

#[test]
fn a_single_country_with_explicit_code_is_its_own_root() {
    let objects = vec![admin(1, "France", Some(2), Some(square(0, 1000, 1_000_000, vec![])))];
    let c = build_cosmogony(objects, "fr.osm.pbf".to_string(), true, &typer(), Some("FR".to_string()))
        .unwrap();
    assert_eq!(c.zones.len(), 1);
    assert_eq!(c.zones[0].zone_type, Some(ZoneType::Country));
    assert_eq!(c.zones[0].parent, None);
    assert!(c.zones[0].children.is_empty());
    assert_eq!(c.zones[0].label, Some("France".to_string()));
    assert_eq!(c.zones[0].country_code, Some("FR".to_string()));
    assert_eq!(c.meta.osm_filename, "fr.osm.pbf");
    assert_eq!(c.meta.stats.zone_type_counts.get(ZoneType::Country), 1);
    assert_eq!(c.meta.stats.zone_type_counts.get(ZoneType::City), 0);
    assert_eq!(c.meta.stats.zone_without_country, 0);
}

fn springfields() -> Vec<SourceObject> {
    vec![
        admin(1, "Illinois", Some(4), Some(square(0, 100, 10_000, vec![]))),
        admin(2, "Missouri", Some(4), Some(square(200, 300, 10_000, vec![]))),
        admin(3, "Springfield", Some(8), Some(square(10, 20, 100, vec![1]))),
        admin(4, "Springfield", Some(8), Some(square(210, 220, 100, vec![2]))),
    ]
}

#[test]
fn same_name_under_different_parents_gets_the_parent_appended() {
    let c = build_cosmogony(springfields(), "us".to_string(), true, &typer(), Some("US".to_string()))
        .unwrap();
    assert_eq!(c.zones.len(), 4);
    assert_eq!(c.zones[2].parent, Some(ZoneIndex { index: 0 }));
    assert_eq!(c.zones[3].parent, Some(ZoneIndex { index: 1 }));
    assert_eq!(c.zones[2].label, Some("Springfield, Illinois".to_string()));
    assert_eq!(c.zones[3].label, Some("Springfield, Missouri".to_string()));
    assert_eq!(c.zones[0].label, Some("Illinois".to_string()));
    assert_eq!(c.zones[0].children, vec![ZoneIndex { index: 2 }]);
    assert_eq!(c.zones[1].children, vec![ZoneIndex { index: 3 }]);
    assert_ne!(c.zones[2].label, c.zones[3].label);
    assert_eq!(c.meta.stats.zone_type_counts.get(ZoneType::City), 2);
    assert_eq!(c.meta.stats.zone_type_counts.get(ZoneType::State), 2);
}

#[test]
fn missing_level_without_fallback_rule_is_counted_under_level_zero() {
    let objects = vec![
        admin(1, "France", Some(2), Some(square(0, 1000, 1_000_000, vec![]))),
        admin(2, "Nowhere", None, Some(square(10, 20, 100, vec![1]))),
    ];
    let c = build_cosmogony(objects, "fr".to_string(), true, &typer(), Some("FR".to_string()))
        .unwrap();
    assert_eq!(c.zones.len(), 1);
    assert_eq!(c.zones[0].name, "France");
    assert!(c.zones[0].children.is_empty());
    assert_eq!(c.meta.stats.unhandled_count("FR", 0), 1);
    assert_eq!(c.meta.stats.unhandled_count("FR", 2), 0);
    assert_eq!(c.meta.stats.unhandled_count("US", 0), 0);
    assert_eq!(c.meta.stats.unknown_country_rules_count("FR"), 0);
}

#[test]
fn classification_reports_the_missing_level() {
    let (zones, _) = get_zones_and_stats(vec![admin(
        2,
        "Nowhere",
        None,
        Some(square(10, 20, 100, vec![])),
    )]);
    let r = typer().get_zone_type(&zones[0], "FR", &vec![], &zones);
    match r {
        Err(cosmogony::zone_typer::ZoneTyperError::UnknownLevel(level, country)) => {
            assert_eq!(level, None);
            assert_eq!(country, "FR");
        }
        _ => panic!("expected an unknown level"),
    }
    let r = typer().get_zone_type(&zones[0], "US", &vec![], &zones);
    assert!(matches!(r, Ok(ZoneType::NonAdministrative)));
    let r = typer().get_zone_type(&zones[0], "XX", &vec![], &zones);
    match r {
        Err(cosmogony::zone_typer::ZoneTyperError::InvalidCountry(country)) => {
            assert_eq!(country, "XX");
        }
        _ => panic!("expected an invalid country"),
    }
}

#[test]
fn no_country_and_no_country_zone_is_fatal() {
    let objects = vec![admin(3, "Springfield", Some(8), Some(square(10, 20, 100, vec![])))];
    let r = build_cosmogony(objects, "x".to_string(), true, &typer(), None);
    assert!(matches!(r, Err(CosmogonyError::NoCountryContext)));

    let (mut zones, mut stats) =
        get_zones_and_stats(vec![admin(3, "Springfield", Some(8), Some(square(10, 20, 100, vec![])))]);
    let r = create_ontology(&mut zones, &mut stats, &typer(), None);
    assert_eq!(r, Err(CosmogonyError::NoCountryContext));
    assert_eq!(zones.len(), 1);
    assert_eq!(zones[0].zone_type, None);
    assert_eq!(stats.zone_without_country, 0);
    assert!(!CosmogonyError::NoCountryContext.message().is_empty());
}

#[test]
fn duplicate_relations_tie_break_on_the_smaller_id() {
    let objects = vec![
        admin(10, "Twin", Some(4), Some(square(0, 100, 10_000, vec![5]))),
        admin(5, "Twin", Some(4), Some(square(0, 100, 10_000, vec![10]))),
        admin(7, "Inner", Some(8), Some(square(10, 20, 100, vec![10, 5]))),
    ];
    for _ in 0..3 {
        let (mut zones, mut stats) = get_zones_and_stats(vec![
            admin(10, "Twin", Some(4), Some(square(0, 100, 10_000, vec![5]))),
            admin(5, "Twin", Some(4), Some(square(0, 100, 10_000, vec![10]))),
            admin(7, "Inner", Some(8), Some(square(10, 20, 100, vec![10, 5]))),
        ]);
        create_ontology(&mut zones, &mut stats, &typer(), Some("FR".to_string())).unwrap();
        assert_eq!(zones[2].parent, Some(ZoneIndex { index: 1 }));
        assert_eq!(zones[zones[2].parent.unwrap().index].osm_id, 5);
        // The twins contain each other: the first becomes the child of the second,
        // and the second, which would close the circle, stays a root.
        assert_eq!(zones[0].parent, Some(ZoneIndex { index: 1 }));
        assert_eq!(zones[1].parent, None);
        assert_eq!(zones[1].children, vec![ZoneIndex { index: 0 }, ZoneIndex { index: 2 }]);
    }
    let inclusions = cosmogony::hierarchy_builder::find_inclusions(&get_zones_and_stats(objects).0);
    assert_eq!(inclusions[2], vec![ZoneIndex { index: 1 }, ZoneIndex { index: 0 }]);
    assert_eq!(inclusions[0], vec![ZoneIndex { index: 1 }]);
    assert_eq!(inclusions[1], vec![ZoneIndex { index: 0 }]);
}

#[test]
fn country_is_found_from_the_enclosing_country_zone() {
    let france = SourceObject::Relation(SourceRelation {
        id: 1,
        tags: tags(&[
            ("boundary", "administrative"),
            ("admin_level", "2"),
            ("name", "France"),
            ("ISO3166-1:alpha2", "FR"),
        ]),
        boundary: Some(square(0, 1000, 1_000_000, vec![])),
    });
    let objects = vec![
        france,
        admin(2, "Paris", Some(8), Some(square(10, 20, 100, vec![1]))),
        admin(3, "Atlantis", Some(8), Some(square(5000, 5010, 100, vec![]))),
    ];
    let c = build_cosmogony(objects, "fr".to_string(), true, &typer(), None).unwrap();
    assert_eq!(c.zones.len(), 2);
    assert_eq!(c.zones[0].country_code, Some("FR".to_string()));
    assert_eq!(c.zones[1].name, "Paris");
    assert_eq!(c.zones[1].country_code, Some("FR".to_string()));
    assert_eq!(c.zones[1].zone_type, Some(ZoneType::City));
    assert_eq!(c.zones[1].parent, Some(ZoneIndex { index: 0 }));
    assert_eq!(c.meta.stats.zone_without_country, 1);
}

#[test]
fn explicit_country_overrides_the_finder() {
    let (zones, _) = get_zones_and_stats(vec![
        SourceObject::Relation(SourceRelation {
            id: 1,
            tags: tags(&[
                ("boundary", "administrative"),
                ("admin_level", "2"),
                ("name", "France"),
                ("ISO3166-1:alpha2", "FR"),
            ]),
            boundary: Some(square(0, 1000, 1_000_000, vec![])),
        }),
        admin(2, "Paris", Some(8), Some(square(10, 20, 100, vec![1]))),
        admin(3, "Atlantis", Some(8), Some(square(5000, 5010, 100, vec![]))),
    ]);
    let finder = cosmogony::country_finder::CountryFinder::from_zones(&zones);
    assert!(!finder.is_empty());
    assert_eq!(get_country_code(&finder, &zones[1], &None), Some("FR".to_string()));
    assert_eq!(get_country_code(&finder, &zones[0], &None), Some("FR".to_string()));
    assert_eq!(get_country_code(&finder, &zones[2], &None), None);
    assert_eq!(get_country_code(&finder, &zones[2], &Some("DE".to_string())), Some("DE".to_string()));
    assert_eq!(get_country_code(&finder, &zones[1], &Some("DE".to_string())), Some("DE".to_string()));
}

#[test]
fn unknown_country_is_counted_and_zone_is_pruned() {
    let objects = vec![
        admin(1, "A", Some(8), Some(square(0, 10, 100, vec![]))),
        admin(2, "B", Some(8), Some(square(20, 30, 100, vec![]))),
    ];
    let c = build_cosmogony(objects, "x".to_string(), true, &typer(), Some("ZZ".to_string()))
        .unwrap();
    assert!(c.zones.is_empty());
    assert_eq!(c.meta.stats.unknown_country_rules_count("ZZ"), 2);
    assert_eq!(c.meta.stats.unknown_country_rules_count("FR"), 0);
    assert_eq!(c.meta.stats.zone_type_counts.get(ZoneType::City), 0);
}

#[test]
fn unmapped_level_is_inferred_from_the_nearest_typed_ancestor() {
    // Level 6 has no rule; the state around it gives the next finer rank.
    let objects = vec![
        admin(1, "State", Some(4), Some(square(0, 100, 10_000, vec![]))),
        admin(2, "District", Some(6), Some(square(10, 50, 1_600, vec![1]))),
        // Level 3 is not deeper than the state's level 4: nothing is inferred.
        admin(3, "Odd", Some(3), Some(square(10, 20, 100, vec![1]))),
        // Without any typed ancestor nothing is inferred either.
        admin(4, "Lone", Some(6), Some(square(500, 510, 100, vec![]))),
    ];
    let c = build_cosmogony(objects, "x".to_string(), true, &typer(), Some("FR".to_string()))
        .unwrap();
    assert_eq!(c.zones.len(), 2);
    assert_eq!(c.zones[1].name, "District");
    assert_eq!(c.zones[1].zone_type, Some(ZoneType::StateDistrict));
    assert_eq!(c.meta.stats.unhandled_count("FR", 3), 1);
    assert_eq!(c.meta.stats.unhandled_count("FR", 6), 1);
}

#[test]
fn pruning_reissues_indices_and_rederives_parents() {
    let objects = vec![
        admin(1, "Country", Some(2), Some(square(0, 1000, 1_000_000, vec![]))),
        // Level 5 has no rule and the country's level is lower, but one rank finer
        // than Country is CountryRegion: give it a level that blocks inference.
        admin(2, "Ghost", None, Some(square(0, 500, 250_000, vec![1]))),
        admin(3, "City", Some(8), Some(square(10, 20, 100, vec![1, 2]))),
    ];
    let c = build_cosmogony(objects, "x".to_string(), true, &typer(), Some("FR".to_string()))
        .unwrap();
    assert_eq!(c.zones.len(), 2);
    assert_eq!(c.zones[0].id, ZoneIndex { index: 0 });
    assert_eq!(c.zones[1].id, ZoneIndex { index: 1 });
    assert_eq!(c.zones[1].name, "City");
    // The city stood under the ghost, which is gone: its parent is now the country.
    assert_eq!(c.zones[1].parent, Some(ZoneIndex { index: 0 }));
    assert_eq!(c.zones[0].children, vec![ZoneIndex { index: 1 }]);
    assert!(c.zones.iter().all(|z| z.zone_type.is_some()));
}

#[test]
fn typing_twice_gives_the_same_types_and_the_same_counts() {
    let run = |start: u64| {
        let (mut zones, mut stats) = get_zones_and_stats(vec![
            admin(1, "State", Some(4), Some(square(0, 100, 10_000, vec![]))),
            admin(2, "Odd", Some(3), Some(square(10, 20, 100, vec![1]))),
            admin(3, "Nameless level", None, Some(square(30, 40, 100, vec![1]))),
        ]);
        stats.zone_without_country = start;
        let inclusions = cosmogony::hierarchy_builder::find_inclusions(&zones);
        type_zones(&mut zones, &mut stats, &typer(), Some("FR".to_string()), &inclusions).unwrap();
        let types: Vec<Option<ZoneType>> = zones.iter().map(|z| z.zone_type).collect();
        (types, stats)
    };
    let (types1, stats1): (Vec<Option<ZoneType>>, CosmogonyStats) = run(0);
    let (types2, stats2) = run(40);
    assert_eq!(types1, vec![Some(ZoneType::State), None, None]);
    assert_eq!(types1, types2);
    assert_eq!(stats1.zone_without_country, 0);
    assert_eq!(stats2.zone_without_country, 40);
    assert_eq!(stats1.unhandled_count("FR", 3), 1);
    assert_eq!(stats2.unhandled_count("FR", 3), 1);
    assert_eq!(stats1.unhandled_count("FR", 0), 1);
    assert_eq!(stats2.unhandled_count("FR", 0), 1);
}

#[test]
fn labels_and_pruning_on_a_hand_built_collection() {
    let (mut zones, _) = get_zones_and_stats(springfields());
    zones[2].parent = Some(ZoneIndex { index: 0 });
    zones[3].parent = Some(ZoneIndex { index: 1 });
    zones[0].zone_type = Some(ZoneType::State);
    zones[2].zone_type = Some(ZoneType::City);
    zones[3].zone_type = Some(ZoneType::City);
    compute_labels(&mut zones);
    assert_eq!(zones[1].label, Some("Missouri".to_string()));
    assert_eq!(zones[3].label, Some("Springfield, Missouri".to_string()));
    clean_untagged_zones(&mut zones);
    assert_eq!(zones.len(), 3);
    assert_eq!(zones[name_of(&zones, "Illinois")].children, vec![ZoneIndex { index: 1 }]);
    assert_eq!(zones[1].parent, Some(ZoneIndex { index: 0 }));
    // Missouri had no type: the second Springfield is a root now.
    assert_eq!(zones[2].parent, None);
    assert_eq!(zones[2].id, ZoneIndex { index: 2 });
    assert_eq!(zones[2].label, Some("Springfield, Missouri".to_string()));
}
