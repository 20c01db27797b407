use osm_buildings::blocks::{Block, VoxelWrite, corner_variations, wall_variations};
use osm_buildings::geometry::{Ground, raster_line};
use osm_buildings::palette::{color_text_to_rgb_tuple, find_nearest_block_in_color_map, random_palette, resolve_palette};
use osm_buildings::params::{building_height, min_level, parse_height, scaled_height, is_underground, Args};
use osm_buildings::plan::{derive_plan, structure_of, Structure};
use osm_buildings::synth::{
    generate_building_from_relation, generate_buildings, generate_doors, ProcessedMember, ProcessedMemberRole,
    ProcessedNode, ProcessedRelation, ProcessedWay,
};
use osm_buildings::tags::{parse_i32, Tags};

fn tags(pairs: &[(&str, &str)]) -> Tags {
    Tags { entries: pairs.iter().map(|(k, v)| (k.to_string(), v.to_string())).collect() }
}

fn flat(level: i32) -> Ground {
    Ground { width: 0, heights: vec![], default: level }
}

fn square() -> Vec<(i32, i32)> {
    vec![(0, 0), (4, 0), (4, 4), (0, 4), (0, 0)]
}

fn inside() -> Vec<(i32, i32)> {
    let mut v = vec![];
    for x in 1..4 {
        for z in 1..4 {
            v.push((x, z));
        }
    }
    v
}

fn args(scale_milli: u32) -> Args {
    Args { scale_milli, winter: false }
}

fn at(w: &[VoxelWrite], x: i64, y: i64, z: i64) -> Vec<Block> {
    w.iter().filter(|v| v.x == x && v.y == y && v.z == z).map(|v| v.block).collect()
}

#[test]
fn parses_integers() {
    assert_eq!(parse_i32("42"), Some(42));
    assert_eq!(parse_i32("-7"), Some(-7));
    assert_eq!(parse_i32("+3"), Some(3));
    assert_eq!(parse_i32("2147483647"), Some(2147483647));
    assert_eq!(parse_i32("-2147483648"), Some(-2147483648));
    assert_eq!(parse_i32("2147483648"), None);
    assert_eq!(parse_i32(""), None);
    assert_eq!(parse_i32("-"), None);
    assert_eq!(parse_i32("1a"), None);
}

#[test]
fn later_tag_shadows_earlier() {
    let t = tags(&[("building", "yes"), ("building", "house")]);
    assert_eq!(t.get("building").map(|s| s.as_str()), Some("house"));
    assert!(t.get("height").is_none());
}

#[test]
fn min_level_defaults_to_zero() {
    assert_eq!(min_level(&tags(&[])), 0);
    assert_eq!(min_level(&tags(&[("building:min_level", "x")])), 0);
    assert_eq!(min_level(&tags(&[("building:min_level", "2")])), 2);
    let p = derive_plan(&tags(&[("building:min_level", "2")]), 10, 1000, None).unwrap();
    assert_eq!(p.start, 18);
    let q = derive_plan(&tags(&[("building:min_level", "bad")]), 10, 1000, None).unwrap();
    assert_eq!(q.start, 10);
}

#[test]
fn height_unit_suffix_is_ignored() {
    assert_eq!(parse_height("12m"), Some(12000));
    assert_eq!(parse_height("12"), Some(12000));
    assert_eq!(parse_height(" 12 m"), Some(12000));
    assert_eq!(parse_height("tall"), None);
    let a = building_height(&tags(&[("height", "12m")]), 1000, None);
    let b = building_height(&tags(&[("height", "12")]), 1000, None);
    assert_eq!(a, 12);
    assert_eq!(a, b);
}

#[test]
fn decimal_heights() {
    assert_eq!(parse_height("12.5"), Some(12500));
    assert_eq!(parse_height("7.5m"), Some(7500));
    assert_eq!(parse_height("10.0"), Some(10000));
    assert_eq!(parse_height("-0.5"), Some(-500));
    assert_eq!(parse_height(".5"), Some(500));
    assert_eq!(parse_height("12."), Some(12000));
    assert_eq!(parse_height("1.2345"), Some(1234));
    assert_eq!(parse_height("."), None);
    assert_eq!(parse_height("1.2.3"), None);
    assert_eq!(parse_height("1e3"), None);
    assert_eq!(building_height(&tags(&[("height", "12.5")]), 1000, None), 13);
    assert_eq!(building_height(&tags(&[("height", "10.0")]), 1000, None), 10);
    assert_eq!(building_height(&tags(&[("height", "12.4")]), 1000, None), 12);
    assert_eq!(building_height(&tags(&[("height", "7.5")]), 2000, None), 15);
    let way = ProcessedWay { nodes: square(), tags: tags(&[("building", "yes"), ("height", "12.5")]) };
    let mut w = vec![];
    generate_buildings(&mut w, &way, &flat(0), &args(1000), None, &inside());
    assert_eq!(at(&w, 2, 14, 0), vec![Block::Cobblestone]);
}

#[test]
fn heights_are_scaled_rounded_and_at_least_three() {
    assert_eq!(scaled_height(6, 1000), 6);
    assert_eq!(scaled_height(15, 1500), 23);
    assert_eq!(scaled_height(2, 1000), 3);
    assert_eq!(scaled_height(-5, 1000), 3);
    assert_eq!(scaled_height(6, 0), 3);
    assert_eq!(building_height(&tags(&[("height", "-40")]), 1000, None), 3);
    assert_eq!(building_height(&tags(&[("building:levels", "3")]), 1000, None), 14);
    assert_eq!(building_height(&tags(&[("building:levels", "3"), ("building:min_level", "3")]), 1000, None), 6);
    assert_eq!(building_height(&tags(&[("height", "20")]), 1000, Some(1)), 6);
    let apartments = derive_plan(&tags(&[("building", "apartments")]), 0, 1000, None).unwrap();
    assert_eq!(apartments.height, 15);
    let hospital = derive_plan(&tags(&[("building", "hospital")]), 0, 1000, None).unwrap();
    assert_eq!(hospital.height, 23);
    let tall = derive_plan(&tags(&[("building", "apartments"), ("height", "30")]), 0, 1000, None).unwrap();
    assert_eq!(tall.height, 30);
}

#[test]
fn structure_dispatch() {
    assert_eq!(structure_of(&tags(&[("amenity", "shelter"), ("building", "roof")])), Structure::Shelter);
    assert_eq!(structure_of(&tags(&[("building", "shed"), ("bicycle_parking", "stands"), ("covered", "yes")])), Structure::BikeShed);
    assert_eq!(structure_of(&tags(&[("building", "shed")])), Structure::Building);
    assert_eq!(structure_of(&tags(&[("building", "yes"), ("parking", "multi-storey")])), Structure::Parking);
    assert_eq!(structure_of(&tags(&[("building", "roof")])), Structure::Roof);
    assert_eq!(structure_of(&tags(&[("building", "bridge")])), Structure::Bridge);
    assert_eq!(structure_of(&tags(&[])), Structure::Building);
}

#[test]
fn negative_layer_or_level_places_nothing() {
    for t in [tags(&[("building", "yes"), ("layer", "-1")]), tags(&[("building", "yes"), ("level", "-2")])] {
        assert!(is_underground(&t));
        let way = ProcessedWay { nodes: square(), tags: t };
        let mut w = vec![];
        generate_buildings(&mut w, &way, &flat(5), &args(1000), None, &inside());
        assert!(w.is_empty());
    }
}

#[test]
fn empty_footprint_places_nothing() {
    let way = ProcessedWay { nodes: vec![], tags: tags(&[("building", "yes")]) };
    let mut w = vec![];
    generate_buildings(&mut w, &way, &flat(5), &args(1000), None, &inside());
    assert!(w.is_empty());
}

#[test]
fn house_of_two_levels() {
    let t = tags(&[("building", "house"), ("building:levels", "2")]);
    let p = derive_plan(&t, 7, 1000, None).unwrap();
    assert_eq!(p.start, 7);
    assert_eq!(p.height, 10);
    let way = ProcessedWay { nodes: square(), tags: t };
    let mut w = vec![];
    generate_buildings(&mut w, &way, &flat(7), &args(1000), None, &inside());
    let floor = at(&w, 2, 7, 2);
    assert_eq!(floor.len(), 1);
    assert_eq!(at(&w, 2, 18, 2), floor);
    assert_eq!(at(&w, 2, 13, 2), floor);
    assert!(at(&w, 2, 17, 2).is_empty());
    assert_eq!(at(&w, 2, 8, 0).len(), 1);
    assert_eq!(at(&w, 2, 18, 0), vec![Block::Cobblestone]);
    assert!(at(&w, 2, 19, 0).is_empty());
}

#[test]
fn garage_is_three_high() {
    let t = tags(&[("building", "garage")]);
    assert_eq!(derive_plan(&t, 0, 1000, None).unwrap().height, 3);
    let way = ProcessedWay { nodes: square(), tags: t };
    let mut w = vec![];
    generate_buildings(&mut w, &way, &flat(0), &args(1000), None, &inside());
    assert_eq!(at(&w, 2, 3, 0).len(), 1);
    assert_eq!(at(&w, 2, 4, 0), vec![Block::Cobblestone]);
    assert_eq!(at(&w, 1, 0, 1), vec![Block::LightGrayConcrete]);
    assert_eq!(at(&w, 1, 4, 1), vec![Block::LightGrayConcrete]);
}

#[test]
fn windows_skip_floor_lines() {
    let way = ProcessedWay { nodes: vec![(0, 0), (6, 0)], tags: tags(&[("building", "office"), ("building:colour", "#e96b39")]) };
    let mut w = vec![];
    generate_buildings(&mut w, &way, &flat(0), &args(1000), None, &vec![]);
    assert_eq!(at(&w, 1, 2, 0), vec![Block::WhiteStainedGlass]);
    assert_eq!(at(&w, 1, 4, 0), vec![Block::Bricks]);
    assert_eq!(at(&w, 1, 1, 0), vec![Block::Bricks]);
    assert_eq!(at(&w, 4, 2, 0), vec![Block::Bricks]);
}

#[test]
fn relation_levels_default_to_two() {
    let member = ProcessedMember {
        role: ProcessedMemberRole::Outer,
        way: ProcessedWay { nodes: square(), tags: tags(&[("building", "yes")]) },
        interior: inside(),
    };
    let inner = ProcessedMember {
        role: ProcessedMemberRole::Inner,
        way: ProcessedWay { nodes: vec![(20, 20), (21, 20)], tags: tags(&[]) },
        interior: vec![(20, 20)],
    };
    let rel = ProcessedRelation { members: vec![member, inner], tags: tags(&[("type", "multipolygon")]) };
    let mut w = vec![];
    generate_building_from_relation(&mut w, &rel, &flat(3), &args(1000));
    assert_eq!(at(&w, 2, 3 + 11, 2).len(), 1);
    assert!(w.iter().all(|v| v.x < 20));
}

#[test]
fn shelter_has_only_posts_and_slabs() {
    let way = ProcessedWay { nodes: square(), tags: tags(&[("amenity", "shelter"), ("building", "yes")]) };
    let mut w = vec![];
    generate_buildings(&mut w, &way, &flat(2), &args(1000), None, &inside());
    assert!(!w.is_empty());
    assert!(w.iter().all(|v| v.block == Block::OakFence || v.block == Block::StoneBrickSlab));
    assert_eq!(at(&w, 2, 7, 2), vec![Block::StoneBrickSlab]);
    assert_eq!(at(&w, 4, 4, 0), vec![Block::OakFence]);
}

#[test]
fn covered_bike_shed() {
    let way = ProcessedWay {
        nodes: square(),
        tags: tags(&[("building", "shed"), ("bicycle_parking", "stands"), ("covered", "yes")]),
    };
    let mut w = vec![];
    generate_buildings(&mut w, &way, &flat(0), &args(1000), None, &inside());
    assert_eq!(at(&w, 2, 0, 2), vec![Block::OakPlanks]);
    assert_eq!(at(&w, 2, 5, 2), vec![Block::StoneBlockSlab]);
    assert_eq!(at(&w, 4, 5, 0), vec![Block::StoneBlockSlab]);
}

#[test]
fn parking_has_every_storey() {
    let t = tags(&[("building", "parking")]);
    assert_eq!(derive_plan(&t, 0, 1000, None).unwrap().height, 16);
    let way = ProcessedWay { nodes: square(), tags: t };
    let mut w = vec![];
    generate_buildings(&mut w, &way, &flat(1), &args(1000), None, &inside());
    assert_eq!(at(&w, 2, 1, 2), vec![Block::SmoothStone]);
    for level in 1..=4 {
        assert_eq!(at(&w, 2, 1 + 4 * level, 2), vec![Block::Cobblestone]);
        assert!(!at(&w, 2, 1 + 4 * level + 2, 0).is_empty());
    }
    assert!(at(&w, 2, 1 + 4 * 5, 2).is_empty());
}

#[test]
fn freestanding_roof() {
    let way = ProcessedWay { nodes: square(), tags: tags(&[("building", "roof")]) };
    let mut w = vec![];
    generate_buildings(&mut w, &way, &flat(0), &args(1000), None, &inside());
    assert_eq!(at(&w, 2, 5, 2), vec![Block::StoneBrickSlab]);
    assert_eq!(at(&w, 4, 3, 4), vec![Block::CobblestoneWall]);
}

#[test]
fn bridge_follows_terrain() {
    let ground = Ground { width: 3, heights: vec![1, 2, 3, 4, 5, 6], default: 0 };
    assert_eq!(ground.level(2, 1), 6);
    assert_eq!(ground.level(5, 5), 0);
    let way = ProcessedWay { nodes: vec![(0, 0), (2, 0), (2, 1), (0, 1)], tags: tags(&[("building", "bridge"), ("level", "1")]) };
    let mut w = vec![];
    generate_buildings(&mut w, &way, &ground, &args(1000), None, &vec![(0, 1), (2, 1)]);
    assert_eq!(at(&w, 0, 8, 1), vec![Block::StoneBricks, Block::Stone]);
    assert_eq!(at(&w, 2, 10, 1), vec![Block::StoneBricks, Block::Stone]);
    assert_eq!(at(&w, 1, 7, 0), vec![Block::StoneBricks]);
}

#[test]
fn lines_cover_both_ends() {
    assert_eq!(raster_line(0, 0, 3, 1), vec![(0, 0), (1, 0), (2, 1), (3, 1)]);
    assert_eq!(raster_line(2, 2, 2, 2), vec![(2, 2)]);
    assert_eq!(raster_line(0, 0, -2, -2), vec![(0, 0), (-1, -1), (-2, -2)]);
}

#[test]
fn colours_pick_the_nearest_block() {
    assert_eq!(color_text_to_rgb_tuple("#FF0a10"), Some((255, 10, 16)));
    assert_eq!(color_text_to_rgb_tuple("red"), None);
    let map = vec![((0, 0, 0), Block::Stone), ((250, 250, 250), Block::QuartzBlock), ((0, 0, 0), Block::Cobblestone)];
    assert_eq!(find_nearest_block_in_color_map(&(10, 10, 10), map.clone()), Some(Block::Stone));
    assert_eq!(find_nearest_block_in_color_map(&(240, 240, 250), map), Some(Block::QuartzBlock));
    assert_eq!(find_nearest_block_in_color_map(&(1, 2, 3), vec![]), None);
}

#[test]
fn palette_follows_tags() {
    let p = resolve_palette(&tags(&[("building", "house")]), 1, 2, 3);
    assert_eq!(p.corner, Block::Cobblestone);
    assert_eq!(p.wall, Block::Sandstone);
    assert_eq!(p.floor, Block::RedTerracotta);
    assert_eq!(p.window, Block::WhiteStainedGlass);
    let q = resolve_palette(&tags(&[("building", "office"), ("roof:colour", "#7d7d7d"), ("building:colour", "#985e43")]), 0, 0, 0);
    assert_eq!(q.floor, Block::LightGrayConcrete);
    assert_eq!(q.wall, Block::BrownTerracotta);
    assert_eq!(resolve_palette(&tags(&[("building", "office")]), 0, 0, 0).floor, Block::LightGrayConcrete);
}

#[test]
fn random_palette_stays_in_catalogs() {
    for _ in 0..50 {
        let p = random_palette(&tags(&[]));
        assert!(corner_variations().contains(&p.corner));
        assert!(wall_variations().contains(&p.wall));
        assert_eq!(p.floor, Block::LightGrayConcrete);
    }
}

#[test]
fn doors_on_ground_level_only() {
    let ground = flat(4);
    let mut w = vec![];
    generate_doors(&mut w, &ProcessedNode { x: 1, z: 2, tags: tags(&[("door", "yes")]) }, &ground);
    assert_eq!(at(&w, 1, 4, 2), vec![Block::GrayConcrete]);
    assert_eq!(at(&w, 1, 5, 2), vec![Block::DarkOakDoorLower]);
    assert_eq!(at(&w, 1, 6, 2), vec![Block::DarkOakDoorUpper]);
    let mut v = vec![];
    generate_doors(&mut v, &ProcessedNode { x: 1, z: 2, tags: tags(&[("entrance", "main"), ("level", "1")]) }, &ground);
    generate_doors(&mut v, &ProcessedNode { x: 1, z: 2, tags: tags(&[("shop", "yes")]) }, &ground);
    assert!(v.is_empty());
}

#[test]
fn relation_levels_from_tags() {
    let member = ProcessedMember {
        role: ProcessedMemberRole::Outer,
        way: ProcessedWay { nodes: square(), tags: tags(&[("building", "yes"), ("building:levels", "9")]) },
        interior: inside(),
    };
    let rel = ProcessedRelation { members: vec![member], tags: tags(&[("building:levels", "3")]) };
    let mut w = vec![];
    generate_building_from_relation(&mut w, &rel, &flat(0), &args(1000));
    assert_eq!(at(&w, 2, 15, 2).len(), 1);
    assert!(at(&w, 2, 39, 2).is_empty());
}

#[test]
fn multi_storey_parking_without_building_tag() {
    let t = tags(&[("parking", "multi-storey")]);
    assert_eq!(structure_of(&t), Structure::Parking);
    assert_eq!(derive_plan(&t, 0, 1000, None).unwrap().height, 16);
}

#[test]
fn single_node_building_has_no_interior() {
    let way = ProcessedWay { nodes: vec![(2, 2)], tags: tags(&[("building", "yes")]) };
    let mut w = vec![];
    generate_buildings(&mut w, &way, &flat(0), &args(1000), None, &inside());
    assert!(w.is_empty());
}

#[test]
fn winter_adds_snow_on_roofs() {
    let way = ProcessedWay { nodes: square(), tags: tags(&[("building", "garage")]) };
    let mut w = vec![];
    generate_buildings(&mut w, &way, &flat(0), &Args { scale_milli: 1000, winter: true }, None, &inside());
    assert_eq!(at(&w, 2, 5, 0), vec![Block::SnowLayer]);
    assert_eq!(at(&w, 2, 5, 2), vec![Block::SnowLayer]);
    assert!(w.iter().all(|v| v.y >= 0 && v.y <= 5));
}

#[test]
fn parking_outline_spares_cobblestone() {
    let way = ProcessedWay { nodes: square(), tags: tags(&[("building", "parking")]) };
    let mut w = vec![];
    generate_buildings(&mut w, &way, &flat(0), &args(1000), None, &inside());
    let edge: Vec<&VoxelWrite> = w.iter().filter(|v| v.x == 1 && v.y == 4 && v.z == 0 && v.block == Block::SmoothStone).collect();
    assert_eq!(edge.len(), 1);
    assert_eq!(edge[0].keep, vec![Block::Cobblestone, Block::CobblestoneWall]);
    assert_eq!(at(&w, 2, 5, 0), vec![Block::CobblestoneWall]);
    assert_eq!(at(&w, 4, 5, 0), vec![Block::StoneBricks, Block::CobblestoneWall, Block::CobblestoneWall]);
    assert!(w.iter().all(|v| v.block != Block::Glowstone && v.block != Block::WhiteStainedGlass));
}
