use vstd::prelude::*;
use vstd::string::StringSliceAdditionalSpecFns;
use crate::blocks::{Block, corner_catalog, wall_catalog, floor_catalog, corner_variations,
    wall_variations, floor_variations, wall_color_map, floor_color_map, wall_colors, floor_colors};
use crate::tags::Tags;
use rand::Rng;

verus! {

/// The blocks a building is made of.
#[derive(Clone, Copy, Debug, PartialEq, Eq, Structural)]
pub struct Palette {
    pub corner: Block,
    pub wall: Block,
    pub floor: Block,
    pub window: Block,
}

pub open spec fn hex_value(b: u8) -> Option<int> {
    if 48 <= b <= 57 {
        Some(b - 48)
    } else if 97 <= b <= 102 {
        Some(b - 87)
    } else if 65 <= b <= 70 {
        Some(b - 55)
    } else {
        None
    }
}

pub open spec fn hex_pair(s: Seq<u8>, i: int) -> Option<int> {
    match (hex_value(s[i]), hex_value(s[i + 1])) {
        (Some(a), Some(b)) => Some(a * 16 + b),
        _ => None,
    }
}

/// A colour written `#rrggbb` in hexadecimal.
pub open spec fn color_spec(s: Seq<u8>) -> Option<(u8, u8, u8)> {
    if s.len() == 7 && s[0] == 35u8 {
        match (hex_pair(s, 1), hex_pair(s, 3), hex_pair(s, 5)) {
            (Some(r), Some(g), Some(b)) => Some((r as u8, g as u8, b as u8)),
            _ => None,
        }
    } else {
        None
    }
}

fn hex_digit(b: u8) -> (r: Option<u8>)
    ensures
        match r {
            Some(v) => hex_value(b) == Some(v as int),
            None => hex_value(b) is None,
        },
{
    if 48u8 <= b && b <= 57u8 {
        Some(b - 48u8)
    } else if 97u8 <= b && b <= 102u8 {
        Some(b - 87u8)
    } else if 65u8 <= b && b <= 70u8 {
        Some(b - 55u8)
    } else {
        None
    }
}

fn hex_byte(s: &[u8], i: usize) -> (r: Option<u8>)
    requires
        i + 1 < s@.len(),
    ensures
        match r {
            Some(v) => hex_pair(s@, i as int) == Some(v as int),
            None => hex_pair(s@, i as int) is None,
        },
{
    match (hex_digit(s[i]), hex_digit(s[i + 1])) {
        (Some(a), Some(b)) => Some(a * 16 + b),
        _ => None,
    }
}

/// Reads a colour written `#rrggbb`.
pub fn color_text_to_rgb_tuple(text: &str) -> (r: Option<(u8, u8, u8)>)
    ensures
        r == color_spec(text.spec_bytes()),
{
    let s: &[u8] = text.as_bytes();
    if s.len() != 7 || s[0] != 35u8 {
        return None;
    }
    match (hex_byte(s, 1), hex_byte(s, 3), hex_byte(s, 5)) {
        (Some(r), Some(g), Some(b)) => Some((r, g, b)),
        _ => None,
    }
}

/// Squared distance between two colours.
pub open spec fn rgb_distance_spec(a: (u8, u8, u8), b: (u8, u8, u8)) -> int {
    (a.0 - b.0) * (a.0 - b.0) + (a.1 - b.1) * (a.1 - b.1) + (a.2 - b.2) * (a.2 - b.2)
}

/// Squared distance between two colours.
pub fn rgb_distance(a: &(u8, u8, u8), b: &(u8, u8, u8)) -> (r: u32)
    ensures
        r == rgb_distance_spec(*a, *b),
{
    let d0: i32 = a.0 as i32 - b.0 as i32;
    let d1: i32 = a.1 as i32 - b.1 as i32;
    let d2: i32 = a.2 as i32 - b.2 as i32;
    proof {
        assert(0 <= d0 * d0 <= 65025) by (nonlinear_arith) requires -255 <= d0 <= 255;
        assert(0 <= d1 * d1 <= 65025) by (nonlinear_arith) requires -255 <= d1 <= 255;
        assert(0 <= d2 * d2 <= 65025) by (nonlinear_arith) requires -255 <= d2 <= 255;
    }
    (d0 * d0 + d1 * d1 + d2 * d2) as u32
}

/// Index of the first entry of `m` nearest to `rgb`.
pub open spec fn is_nearest(rgb: (u8, u8, u8), m: Seq<((u8, u8, u8), Block)>, i: int) -> bool {
    0 <= i < m.len()
    && (forall|j: int| 0 <= j < m.len() ==> rgb_distance_spec(rgb, m[i].0) <= rgb_distance_spec(rgb, #[trigger] m[j].0))
    && (forall|j: int| 0 <= j < i ==> rgb_distance_spec(rgb, m[i].0) < rgb_distance_spec(rgb, #[trigger] m[j].0))
}

/// The block of the first entry whose colour is nearest to `rgb`; `None` for an empty map.
pub fn find_nearest_block_in_color_map(rgb: &(u8, u8, u8), color_map: Vec<((u8, u8, u8), Block)>) -> (r: Option<Block>)
    ensures
        color_map@.len() == 0 <==> r is None,
        r matches Some(b) ==> exists|i: int| is_nearest(*rgb, color_map@, i) && color_map@[i].1 == b,
{
    if color_map.len() == 0 {
        return None;
    }
    let mut best: usize = 0;
    let mut best_d: u32 = rgb_distance(&color_map[0].0, rgb);
    proof {
        let a = color_map@[0].0;
        assert(rgb_distance_spec(a, *rgb) == rgb_distance_spec(*rgb, a)) by (nonlinear_arith);
    }
    let mut i: usize = 1;
    while i < color_map.len()
        invariant
            1 <= i <= color_map@.len(),
            best < i,
            best_d == rgb_distance_spec(*rgb, color_map@[best as int].0),
            forall|j: int| 0 <= j < i ==> best_d <= rgb_distance_spec(*rgb, #[trigger] color_map@[j].0),
            forall|j: int| 0 <= j < best ==> best_d < rgb_distance_spec(*rgb, #[trigger] color_map@[j].0),
        decreases color_map@.len() - i,
    {
        let d: u32 = rgb_distance(&color_map[i].0, rgb);
        proof {
            let a = color_map@[i as int].0;
            assert(rgb_distance_spec(a, *rgb) == rgb_distance_spec(*rgb, a)) by (nonlinear_arith);
        }
        if d < best_d {
            best = i;
            best_d = d;
        }
        i = i + 1;
    }
    proof {
        let a = color_map@[best as int].0;
        assert(rgb_distance_spec(a, *rgb) == rgb_distance_spec(*rgb, a)) by (nonlinear_arith);
        assert(is_nearest(*rgb, color_map@, best as int));
    }
    Some(color_map[best].1)
}

/// Building kinds that are single dwellings and get a varied roof.
pub open spec fn is_dwelling(t: Seq<char>) -> bool {
    t == "yes"@ || t == "house"@ || t == "detached"@ || t == "static_caravan"@
    || t == "semidetached_house"@ || t == "bungalow"@ || t == "manor"@ || t == "villa"@
}

pub open spec fn tag_color(tags: Tags, k: Seq<char>) -> Option<(u8, u8, u8)> {
    match tags.get_spec(k) {
        Some(v) => color_spec(vstd::utf8::encode_utf8(v)),
        None => None,
    }
}

/// The building type: `building`, else `building:part`.
pub open spec fn building_type(tags: Tags) -> Option<Seq<char>> {
    match tags.get_spec("building"@) {
        Some(t) => Some(t),
        None => tags.get_spec("building:part"@),
    }
}

/// The palette the tags ask for, with `ci`, `wi`, `fi` picking the variants used where
/// the tags leave the choice open.
pub open spec fn palette_spec(tags: Tags, ci: int, wi: int, fi: int, wall_map: Seq<((u8, u8, u8), Block)>,
    floor_map: Seq<((u8, u8, u8), Block)>, wall: Block, floor: Block) -> bool {
    &&& match tag_color(tags, "building:colour"@) {
        Some(c) => exists|i: int| is_nearest(c, wall_map, i) && wall_map[i].1 == wall,
        None => wall == wall_catalog()[wi],
    }
    &&& match tag_color(tags, "roof:colour"@) {
        Some(c) => exists|i: int| is_nearest(c, floor_map, i) && floor_map[i].1 == floor,
        None => match building_type(tags) {
            Some(t) if is_dwelling(t) => floor == floor_catalog()[fi],
            _ => floor == Block::LightGrayConcrete,
        },
    }
}

fn tag_rgb(tags: &Tags, key: &str) -> (r: Option<(u8, u8, u8)>)
    ensures
        r == tag_color(*tags, key@),
{
    match tags.get(key) {
        Some(v) => color_text_to_rgb_tuple(v.as_str()),
        None => None,
    }
}

fn dwelling(t: &String) -> (r: bool)
    ensures
        r == is_dwelling(t@),
{
    *t == "yes".to_owned() || *t == "house".to_owned() || *t == "detached".to_owned()
    || *t == "static_caravan".to_owned() || *t == "semidetached_house".to_owned()
    || *t == "bungalow".to_owned() || *t == "manor".to_owned() || *t == "villa".to_owned()
}

/// Resolves the palette from the tags; `ci`, `wi` and `fi` pick the corner, wall and
/// floor variants where the tags leave the choice open.
pub fn resolve_palette(tags: &Tags, ci: usize, wi: usize, fi: usize) -> (r: Palette)
    requires
        ci < corner_catalog().len(),
        wi < wall_catalog().len(),
        fi < floor_catalog().len(),
    ensures
        r.corner == corner_catalog()[ci as int],
        r.window == Block::WhiteStainedGlass,
        palette_spec(*tags, ci as int, wi as int, fi as int, wall_colors(), floor_colors(), r.wall, r.floor),
{
    let corner: Block = corner_variations()[ci];
    let wm: Vec<((u8, u8, u8), Block)> = wall_color_map();
    let fm: Vec<((u8, u8, u8), Block)> = floor_color_map();
    let wall: Block = match tag_rgb(tags, "building:colour") {
        Some(c) => match find_nearest_block_in_color_map(&c, wm) {
            Some(b) => b,
            None => wall_variations()[wi],
        },
        None => wall_variations()[wi],
    };
    let floor: Block = match tag_rgb(tags, "roof:colour") {
        Some(c) => match find_nearest_block_in_color_map(&c, fm) {
            Some(b) => b,
            None => floor_variations()[fi],
        },
        None => {
            let t: Option<&String> = match tags.get("building") {
                Some(t) => Some(t),
                None => tags.get("building:part"),
            };
            match t {
                Some(t) => if dwelling(t) { floor_variations()[fi] } else { Block::LightGrayConcrete },
                None => Block::LightGrayConcrete,
            }
        },
    };
    Palette { corner, wall, floor, window: Block::WhiteStainedGlass }
}

/// Relies on rand's `Rng::gen_range` over a thread-local generator: a value in `0..n`.
#[verifier::external_body]
fn random_below(n: usize) -> (r: usize)
    requires
        n > 0,
    ensures
        r < n,
{
    rand::thread_rng().gen_range(0..n)
}

/// `p` is a palette that the tags allow: the window glass, the corner from the catalog,
/// and the wall and floor that the tags ask for, or catalog variants where they leave
/// the choice open.
pub open spec fn palette_ok(tags: Tags, p: Palette) -> bool {
    &&& p.window == Block::WhiteStainedGlass
    &&& exists|ci: int, wi: int, fi: int|
            0 <= ci < corner_catalog().len() && 0 <= wi < wall_catalog().len() && 0 <= fi < floor_catalog().len()
            && p.corner == corner_catalog()[ci]
            && #[trigger] palette_spec(tags, ci, wi, fi, wall_colors(), floor_colors(), p.wall, p.floor)
}

/// Picks a palette for the tags, drawing the variants at random where the tags leave
/// the choice open.
pub fn random_palette(tags: &Tags) -> (r: Palette)
    ensures
        palette_ok(*tags, r),
{
    let ci: usize = random_below(corner_variations().len());
    let wi: usize = random_below(wall_variations().len());
    let fi: usize = random_below(floor_variations().len());
    let r: Palette = resolve_palette(tags, ci, wi, fi);
    assert(r.corner == corner_catalog()[ci as int]);
    assert(palette_spec(*tags, ci as int, wi as int, fi as int, wall_colors(), floor_colors(), r.wall, r.floor));
    r
}

} // verus!
