use rustymon_world::features::simple::{decide, rule_applies, same_text, Rule, SimpleVisual};
use rustymon_world::features::{FeatureParser, Tags};
use rustymon_world::formats::Tile;
use rustymon_world::generator::WorldGenerator;
use rustymon_world::geometry::Point;
use rustymon_world::osm::{Node, NodeRef, Way};
use rustymon_world::projection::{Location, Simple, MAP_WIDTH};

fn tags(pairs: &[(&str, &str)]) -> Vec<(String, String)> {
    pairs.iter().map(|(k, v)| (k.to_string(), v.to_string())).collect()
}

fn rule(key: &str, value: Option<&str>, category: u32) -> Rule {
    Rule { key: key.to_string(), value: value.map(|v| v.to_string()), category }
}

#[test]
fn same_text_compares_character_by_character() {
    assert!(same_text("", ""));
    assert!(same_text("highway", "highway"));
    assert!(same_text("stra\u{df}e", "stra\u{df}e"));
    assert!(!same_text("highway", "highwax"));
    assert!(!same_text("highway", "highwa"));
    assert!(!same_text("", "a"));
    assert!(!same_text("\u{e9}", "e\u{301}"));
}

#[test]
fn rule_applies_to_a_tag_with_its_key_and_value() {
    let list = tags(&[("name", "x"), ("highway", "primary"), ("highway", "bus")]);
    assert!(rule_applies(&rule("highway", None, 1), &list));
    assert!(rule_applies(&rule("highway", Some("primary"), 1), &list));
    assert!(rule_applies(&rule("highway", Some("bus"), 1), &list));
    assert!(!rule_applies(&rule("highway", Some("x"), 1), &list));
    assert!(!rule_applies(&rule("primary", None, 1), &list));
    assert!(!rule_applies(&rule("name", None, 1), &tags(&[])));
}

#[test]
fn the_first_rule_that_applies_decides() {
    let rules = vec![rule("building", None, 7), rule("highway", Some("primary"), 3), rule("highway", None, 4)];
    assert_eq!(decide(&rules, &tags(&[("highway", "primary")])), Some(3));
    assert_eq!(decide(&rules, &tags(&[("highway", "track")])), Some(4));
    assert_eq!(decide(&rules, &tags(&[("highway", "track"), ("building", "yes")])), Some(7));
    assert_eq!(decide(&rules, &tags(&[("name", "x")])), None);
    assert_eq!(decide(&rules, &tags(&[])), None);
    assert_eq!(decide(&Vec::new(), &tags(&[("highway", "track")])), None);
}

#[test]
fn areas_nodes_and_ways_have_rules_of_their_own() {
    let visual = SimpleVisual {
        areas: vec![rule("landuse", None, 1)],
        nodes: vec![rule("shop", None, 2)],
        ways: vec![rule("highway", None, 3)],
    };
    let list = tags(&[("shop", "bakery"), ("highway", "path")]);
    assert_eq!(list.count(), 2);
    assert_eq!(visual.area(&list), None);
    assert_eq!(visual.node(&list), Some(2));
    assert_eq!(visual.way(&list), Some(3));
}

#[test]
fn world_files_features_as_the_rules_say() {
    let visual = SimpleVisual {
        areas: vec![],
        nodes: vec![rule("shop", Some("bakery"), 2)],
        ways: vec![rule("highway", None, 3)],
    };
    let half = MAP_WIDTH / 2;
    let mut world: WorldGenerator<Simple, Tile<u32>, SimpleVisual> =
        WorldGenerator::new(Location { lon: half, lat: half }, (2, 2), 1, visual, Simple);
    world.node(&Node { id: 1, location: Some(Location { lon: 5, lat: 6 }), tags: tags(&[("shop", "bakery")]) });
    world.node(&Node { id: 2, location: Some(Location { lon: 7, lat: 8 }), tags: tags(&[("shop", "florist")]) });
    world.way(&Way {
        tags: tags(&[("name", "x"), ("highway", "path")]),
        nodes: vec![
            NodeRef { id: 3, location: Some(Location { lon: 10, lat: 10 }) },
            NodeRef { id: 4, location: Some(Location { lon: 20, lat: 10 }) },
        ],
    });
    world.way(&Way {
        tags: tags(&[("railway", "rail")]),
        nodes: vec![
            NodeRef { id: 5, location: Some(Location { lon: 10, lat: 10 }) },
            NodeRef { id: 6, location: Some(Location { lon: 20, lat: 10 }) },
        ],
    });
    let tiles = world.into_tiles();
    assert_eq!(tiles[0].nodes, vec![(Point { x: 5, y: 6 }, 2)]);
    assert_eq!(tiles[0].lines, vec![(vec![Point { x: 10, y: 10 }, Point { x: 20, y: 10 }], 3)]);
    assert!(tiles[0].areas.is_empty());
}
