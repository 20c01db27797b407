use vstd::prelude::*;
use crate::tags::{Tags, opt_int};
use crate::params::{story_height, resolved_height, min_level_spec, rejected_spec, building_height,
    scaled_height, min_level, is_underground};

verus! {

/// What a footprint is built as.
#[derive(Clone, Copy, Debug, PartialEq, Eq, Structural)]
pub enum Structure {
    /// Posts at the nodes under a slab roof.
    Shelter,
    /// A covered bicycle shed: floor, posts and a slab roof.
    BikeShed,
    /// A multi-storey car park.
    Parking,
    /// A freestanding roof on posts.
    Roof,
    /// A bridge deck that follows the terrain.
    Bridge,
    /// Walls, windows, floors and a roof.
    Building,
}

pub open spec fn is_parking(tags: Tags) -> bool {
    tags.has("building"@, "parking"@) || tags.has("parking"@, "multi-storey"@)
}

/// The structure the tags ask for, the first rule that applies winning.
pub open spec fn structure_spec(tags: Tags) -> Structure {
    if tags.has("amenity"@, "shelter"@) {
        Structure::Shelter
    } else if tags.has("building"@, "garage"@) {
        Structure::Building
    } else if tags.has("building"@, "shed"@) {
        if tags.get_spec("bicycle_parking"@) is Some && tags.has("covered"@, "yes"@) {
            Structure::BikeShed
        } else {
            Structure::Building
        }
    } else if is_parking(tags) {
        Structure::Parking
    } else if tags.has("building"@, "roof"@) {
        Structure::Roof
    } else if tags.has("building"@, "bridge"@) {
        Structure::Bridge
    } else {
        Structure::Building
    }
}

/// The height after the rules of the building type.
pub open spec fn final_height(tags: Tags, m: int, relation_levels: Option<int>) -> int {
    let h = resolved_height(tags, m, relation_levels);
    let untouched = h == story_height(6, m);
    if tags.has("amenity"@, "shelter"@) {
        h
    } else if tags.has("building"@, "garage"@) || tags.has("building"@, "shed"@) {
        story_height(2, m)
    } else if is_parking(tags) {
        if h < 16 { 16 } else { h }
    } else if tags.has("building"@, "apartments"@) && untouched {
        story_height(15, m)
    } else if tags.has("building"@, "hospital"@) && untouched {
        story_height(23, m)
    } else {
        h
    }
}

/// The derived parameters of one footprint.
#[derive(Clone, Copy, Debug, PartialEq, Eq, Structural)]
pub struct Plan {
    pub structure: Structure,
    /// Lowest terrain elevation under the footprint.
    pub base: i64,
    /// Elevation of the ground floor: `base` raised by four per minimum level.
    pub start: i64,
    /// Height of the walls above `start`.
    pub height: i64,
}

/// Which structure the tags ask for.
pub fn structure_of(tags: &Tags) -> (r: Structure)
    ensures
        r == structure_spec(*tags),
{
    if tags.is("amenity", "shelter") {
        Structure::Shelter
    } else if tags.is("building", "garage") {
        Structure::Building
    } else if tags.is("building", "shed") {
        if tags.get("bicycle_parking").is_some() && tags.is("covered", "yes") {
            Structure::BikeShed
        } else {
            Structure::Building
        }
    } else if tags.is("building", "parking") || tags.is("parking", "multi-storey") {
        Structure::Parking
    } else if tags.is("building", "roof") {
        Structure::Roof
    } else if tags.is("building", "bridge") {
        Structure::Bridge
    } else {
        Structure::Building
    }
}

/// Derives the parameters of a footprint whose lowest terrain elevation is `base`;
/// `None` for a feature below ground.
pub fn derive_plan(tags: &Tags, base: i32, scale_milli: u32, relation_levels: Option<i32>) -> (r: Option<Plan>)
    ensures
        rejected_spec(*tags) <==> r is None,
        r matches Some(p) ==> {
            &&& p.structure == structure_spec(*tags)
            &&& p.base == base
            &&& p.start == base + 4 * min_level_spec(*tags)
            &&& p.height == final_height(*tags, scale_milli as int, opt_int(relation_levels))
            &&& 3 <= p.height <= 0x200_0000_0000_0000
        },
{
    if is_underground(tags) {
        return None;
    }
    let min: i32 = min_level(tags);
    let start: i64 = base as i64 + 4 * min as i64;
    let h: i64 = building_height(tags, scale_milli, relation_levels);
    let default: i64 = scaled_height(6, scale_milli);
    let height: i64 = if tags.is("amenity", "shelter") {
        h
    } else if tags.is("building", "garage") || tags.is("building", "shed") {
        scaled_height(2, scale_milli)
    } else if tags.is("building", "parking") || tags.is("parking", "multi-storey") {
        if h < 16 { 16 } else { h }
    } else if tags.is("building", "apartments") && h == default {
        scaled_height(15, scale_milli)
    } else if tags.is("building", "hospital") && h == default {
        scaled_height(23, scale_milli)
    } else {
        h
    };
    Some(Plan { structure: structure_of(tags), base: base as i64, start, height })
}

} // verus!
