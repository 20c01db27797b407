use vstd::prelude::*;
use crate::tags::Tags;
use crate::params::{story_height, resolved_height, height_number, strip_unit};
use crate::plan::{Structure, structure_spec, final_height};
use crate::synth::{ProcessedWay, footprint_built, building_built, bridge_built, deck_write};
use crate::blocks::Block;
use crate::blocks::VoxelWrite;
use crate::geometry::Ground;
use crate::params::Args;
use crate::palette::{Palette, palette_ok, palette_spec};
use crate::blocks::{wall_colors, floor_colors};

verus! {

/// A scaled height is never below 3.
pub proof fn story_height_at_least_three(v: int, m: int)
    ensures
        story_height(v, m) >= 3,
{
}

/// Whatever the scale, the tags and the relation's level count, a building is at least
/// three blocks high.
pub proof fn height_at_least_three(tags: Tags, m: int, relation_levels: Option<int>)
    ensures
        resolved_height(tags, m, relation_levels) >= 3,
        final_height(tags, m, relation_levels) >= 3,
{
}

/// A `height` value with a trailing `m` unit reads as the bare number.
pub proof fn unit_suffix_ignored(s: Seq<u8>)
    ensures
        height_number(s.push(109u8)) == height_number(s),
{
    assert(s.push(109u8).drop_last() =~= s);
    assert(strip_unit(s.push(109u8)) == strip_unit(s));
}

/// A car park is at least sixteen blocks high.
pub proof fn parking_at_least_sixteen(tags: Tags, m: int, relation_levels: Option<int>)
    requires
        structure_spec(tags) == Structure::Parking,
    ensures
        final_height(tags, m, relation_levels) >= 16,
{
}

/// Two footprints whose tags agree on every key but `height`, and whose `height` values
/// read as the same number (such as `12m` and `12`), allow exactly the same writes.
pub proof fn same_height_number_same_writes(w: Seq<VoxelWrite>, e1: ProcessedWay, e2: ProcessedWay, ground: Ground,
    args: Args, relation_levels: Option<int>, interior: Seq<(i32, i32)>, h1: Seq<char>, h2: Seq<char>)
    requires
        e1.nodes@ == e2.nodes@,
        forall|k: Seq<char>| k != "height"@ ==> #[trigger] e1.tags.get_spec(k) == e2.tags.get_spec(k),
        e1.tags.get_spec("height"@) == Some(h1),
        e2.tags.get_spec("height"@) == Some(h2),
        height_number(vstd::utf8::encode_utf8(h1)) == height_number(vstd::utf8::encode_utf8(h2)),
    ensures
        final_height(e1.tags, args.scale_milli as int, relation_levels)
            == final_height(e2.tags, args.scale_milli as int, relation_levels),
        footprint_built(w, e1, ground, args, relation_levels, interior)
            == footprint_built(w, e2, ground, args, relation_levels, interior),
{
    reveal_strlit("height");
    reveal_strlit("amenity");
    reveal_strlit("building");
    reveal_strlit("building:part");
    reveal_strlit("building:levels");
    reveal_strlit("building:min_level");
    reveal_strlit("building:colour");
    reveal_strlit("roof:colour");
    reveal_strlit("layer");
    reveal_strlit("level");
    reveal_strlit("parking");
    reveal_strlit("bicycle_parking");
    reveal_strlit("covered");
    assert("amenity"@[0] != "height"@[0]);
    assert(e1.tags.get_spec("amenity"@) == e2.tags.get_spec("amenity"@));
    assert("building"@[0] != "height"@[0]);
    assert(e1.tags.get_spec("building"@) == e2.tags.get_spec("building"@));
    assert("building:part"@[0] != "height"@[0]);
    assert(e1.tags.get_spec("building:part"@) == e2.tags.get_spec("building:part"@));
    assert("building:levels"@[0] != "height"@[0]);
    assert(e1.tags.get_spec("building:levels"@) == e2.tags.get_spec("building:levels"@));
    assert("building:min_level"@[0] != "height"@[0]);
    assert(e1.tags.get_spec("building:min_level"@) == e2.tags.get_spec("building:min_level"@));
    assert("building:colour"@[0] != "height"@[0]);
    assert(e1.tags.get_spec("building:colour"@) == e2.tags.get_spec("building:colour"@));
    assert("roof:colour"@[0] != "height"@[0]);
    assert(e1.tags.get_spec("roof:colour"@) == e2.tags.get_spec("roof:colour"@));
    assert("layer"@[0] != "height"@[0]);
    assert(e1.tags.get_spec("layer"@) == e2.tags.get_spec("layer"@));
    assert("level"@[0] != "height"@[0]);
    assert(e1.tags.get_spec("level"@) == e2.tags.get_spec("level"@));
    assert("parking"@[0] != "height"@[0]);
    assert(e1.tags.get_spec("parking"@) == e2.tags.get_spec("parking"@));
    assert("bicycle_parking"@[0] != "height"@[0]);
    assert(e1.tags.get_spec("bicycle_parking"@) == e2.tags.get_spec("bicycle_parking"@));
    assert("covered"@[0] != "height"@[0]);
    assert(e1.tags.get_spec("covered"@) == e2.tags.get_spec("covered"@));
    assert(structure_spec(e1.tags) == structure_spec(e2.tags));
    assert(final_height(e1.tags, args.scale_milli as int, relation_levels)
        == final_height(e2.tags, args.scale_milli as int, relation_levels));
    assert(forall|p: Palette| palette_ok(e1.tags, p) == palette_ok(e2.tags, p)) by {
        assert forall|p: Palette| palette_ok(e1.tags, p) == palette_ok(e2.tags, p) by {
            assert forall|ci: int, wi: int, fi: int| palette_spec(e1.tags, ci, wi, fi, wall_colors(), floor_colors(), p.wall, p.floor)
                == palette_spec(e2.tags, ci, wi, fi, wall_colors(), floor_colors(), p.wall, p.floor) by {}
        }
    }
    let m = ground.min_spec(e1.nodes@);
    let start = m + 4 * crate::params::min_level_spec(e1.tags);
    let h = final_height(e1.tags, args.scale_milli as int, relation_levels);
    assert(forall|p: Palette| building_built(w, e1.nodes@, interior, e1.tags, p, start, h, args.winter)
        == building_built(w, e2.nodes@, interior, e2.tags, p, start, h, args.winter));
}

/// On a bridge each deck column follows its own terrain: two enclosed columns differ in
/// deck elevation exactly as their terrain does.
pub proof fn deck_follows_terrain(w: Seq<VoxelWrite>, nodes: Seq<(i32, i32)>, ground: Ground, off: int,
    interior: Seq<(i32, i32)>, a: int, b: int)
    requires
        bridge_built(w, nodes, ground, off, interior),
        0 <= a < interior.len(),
        0 <= b < interior.len(),
    ensures
        ({
            let n = w.len() - interior.len();
            &&& w[n + a].y - w[n + b].y == ground.level_spec(interior[a].0 as int, interior[a].1 as int)
                - ground.level_spec(interior[b].0 as int, interior[b].1 as int)
            &&& w[n + a].block == Block::Stone && w[n + b].block == Block::Stone
        }),
{
    let n = w.len() - interior.len();
    assert(deck_write(w[n + a], interior[a], ground, off));
    assert(deck_write(w[n + b], interior[b], ground, off));
}

} // verus!
