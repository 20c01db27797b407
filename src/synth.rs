use vstd::prelude::*;
use crate::blocks::{Block, VoxelWrite};
use crate::geometry::{Ground, raster_line, line_point, line_steps, wide};
use crate::palette::{Palette, random_palette, palette_ok};
use crate::plan::{Plan, Structure, derive_plan, structure_spec};
use crate::params::{Args, rejected_spec, tag_i32};
use crate::tags::{Tags, opt_int};

verus! {

/// A map way: its boundary columns, in order, and its tags.
pub struct ProcessedWay {
    pub nodes: Vec<(i32, i32)>,
    pub tags: Tags,
}

/// The role of a way in a relation.
#[derive(Clone, Copy, Debug, PartialEq, Eq, Structural)]
pub enum ProcessedMemberRole {
    Outer,
    Inner,
    Other,
}

/// A way of a relation, with the columns that its outline encloses.
pub struct ProcessedMember {
    pub role: ProcessedMemberRole,
    pub way: ProcessedWay,
    pub interior: Vec<(i32, i32)>,
}

/// A relation of several ways.
pub struct ProcessedRelation {
    pub members: Vec<ProcessedMember>,
    pub tags: Tags,
}

/// `w` holds `b` at (x, y, z), placed unconditionally.
pub open spec fn is_write(w: VoxelWrite, b: Block, x: int, y: int, z: int) -> bool {
    w.block == b && w.x == x && w.y == y && w.z == z && w.keep@.len() == 0
}

/// Some write of `s` places `b` at (x, y, z).
pub open spec fn has_write(s: Seq<VoxelWrite>, b: Block, x: int, y: int, z: int) -> bool {
    exists|j: int| 0 <= j < s.len() && is_write(#[trigger] s[j], b, x, y, z)
}

/// `t` extends `s`.
pub open spec fn extends(s: Seq<VoxelWrite>, t: Seq<VoxelWrite>) -> bool {
    s.len() <= t.len() && forall|j: int| 0 <= j < s.len() ==> #[trigger] t[j] == s[j]
}

/// Every write of `t` after the first `n` places one of `a` or `b`.
pub open spec fn only_blocks(t: Seq<VoxelWrite>, n: int, a: Block, b: Block) -> bool {
    forall|j: int| n <= j < t.len() ==> (#[trigger] t[j]).block == a || t[j].block == b
}

proof fn lemma_keeps_write(s: Seq<VoxelWrite>, t: Seq<VoxelWrite>, b: Block, x: int, y: int, z: int)
    requires
        has_write(s, b, x, y, z),
        extends(s, t),
    ensures
        has_write(t, b, x, y, z),
{
    let j = choose|j: int| 0 <= j < s.len() && is_write(#[trigger] s[j], b, x, y, z);
    assert(t[j] == s[j]);
}

/// `b` was placed at every elevation `lo..=hi` of the column (x, z).
pub open spec fn stack_written(s: Seq<VoxelWrite>, b: Block, x: int, z: int, lo: int, hi: int) -> bool {
    forall|y: int| lo <= y <= hi ==> #[trigger] has_write(s, b, x, y, z)
}

proof fn lemma_keeps_stack(s: Seq<VoxelWrite>, t: Seq<VoxelWrite>, b: Block, x: int, z: int, lo: int, hi: int)
    requires
        stack_written(s, b, x, z, lo, hi),
        extends(s, t),
    ensures
        stack_written(t, b, x, z, lo, hi),
{
    assert forall|y: int| lo <= y <= hi implies #[trigger] has_write(t, b, x, y, z) by {
        lemma_keeps_write(s, t, b, x, y, z);
    }
}

/// `b` was placed at height `y` over every column of `area`.
pub open spec fn covered(s: Seq<VoxelWrite>, area: Seq<(i32, i32)>, b: Block, y: int) -> bool {
    forall|k: int| 0 <= k < area.len() ==> has_write(s, b, (#[trigger] area[k]).0 as int, y, area[k].1 as int)
}

proof fn lemma_keeps_cover(s: Seq<VoxelWrite>, t: Seq<VoxelWrite>, area: Seq<(i32, i32)>, b: Block, y: int)
    requires
        covered(s, area, b, y),
        extends(s, t),
    ensures
        covered(t, area, b, y),
{
    assert forall|k: int| 0 <= k < area.len() implies has_write(t, b, (#[trigger] area[k]).0 as int, y, area[k].1 as int) by {
        lemma_keeps_write(s, t, b, area[k].0 as int, y, area[k].1 as int);
    }
}

/// `w` places `b` at height `y` over some column of `area`.
pub open spec fn on_area(w: VoxelWrite, area: Seq<(i32, i32)>, b: Block, y: int) -> bool {
    exists|k: int| 0 <= k < area.len() && is_write(w, b, (#[trigger] area[k]).0 as int, y, area[k].1 as int)
}

/// `w` places `b` at some node, at an elevation in `lo..=hi`.
pub open spec fn at_node(w: VoxelWrite, nodes: Seq<(i32, i32)>, b: Block, lo: int, hi: int) -> bool {
    exists|i: int| 0 <= i < nodes.len() && lo <= w.y <= hi
        && is_write(w, b, (#[trigger] nodes[i]).0 as int, w.y as int, nodes[i].1 as int)
}

/// `w` is a post or its slab at some node.
pub open spec fn post_kind(w: VoxelWrite, nodes: Seq<(i32, i32)>, y: int, post: Block, slab: Block) -> bool {
    at_node(w, nodes, post, y + 1, y + 4) || at_node(w, nodes, slab, y + 5, y + 5)
}

/// The node `i` carries a post of `post` from `y + 1` to `y + 4` under a `slab` at `y + 5`.
pub open spec fn post_written(s: Seq<VoxelWrite>, nodes: Seq<(i32, i32)>, i: int, y: int, post: Block, slab: Block) -> bool {
    &&& stack_written(s, post, nodes[i].0 as int, nodes[i].1 as int, y + 1, y + 4)
    &&& has_write(s, slab, nodes[i].0 as int, y + 5, nodes[i].1 as int)
}

proof fn lemma_extends_trans(s: Seq<VoxelWrite>, t: Seq<VoxelWrite>, u: Seq<VoxelWrite>)
    requires
        extends(s, t),
        extends(t, u),
    ensures
        extends(s, u),
{
    assert forall|j: int| 0 <= j < s.len() implies #[trigger] u[j] == s[j] by {
        assert(u[j] == t[j]);
    }
}

/// Every write of `s` from the `n`-th on is unconditional.
pub open spec fn plain_from(s: Seq<VoxelWrite>, n: int) -> bool {
    forall|q: int| n <= q < s.len() ==> (#[trigger] s[q]).keep@.len() == 0
}

/// Appends one unconditional placement.
fn place(writes: &mut Vec<VoxelWrite>, block: Block, x: i64, y: i64, z: i64)
    ensures
        final(writes)@.len() == old(writes)@.len() + 1,
        extends(old(writes)@, final(writes)@),
        is_write(final(writes)@.last(), block, x as int, y as int, z as int),
{
    writes.push(VoxelWrite { block, x, y, z, keep: Vec::new() });
}

/// `a % m` as Rust computes it on signed integers (the sign follows `a`).
pub open spec fn rem(a: int, m: int) -> int {
    if a >= 0 { a % m } else { -((-a) % m) }
}

fn rem_i64(a: i64, m: i64) -> (r: i64)
    requires
        m > 0,
        a > i64::MIN,
    ensures
        r == rem(a as int, m as int),
{
    if a >= 0 { a % m } else { -((-a) % m) }
}

/// Posts four blocks high at every node, topped by a slab.
fn posts(writes: &mut Vec<VoxelWrite>, nodes: &Vec<(i32, i32)>, y: i64, post: Block, slab: Block)
    requires
        -0x1_0000_0000_0000 <= y <= 0x1_0000_0000_0000,
    ensures
        extends(old(writes)@, final(writes)@),
        only_blocks(final(writes)@, old(writes)@.len() as int, post, slab),
        forall|i: int| 0 <= i < nodes@.len() ==> #[trigger] post_written(final(writes)@, nodes@, i, y as int, post, slab),
        forall|q: int| old(writes)@.len() <= q < final(writes)@.len() ==> #[trigger] post_kind(final(writes)@[q], nodes@,
            y as int, post, slab),
{
    let mut i: usize = 0;
    while i < nodes.len()
        invariant
            i <= nodes@.len(),
            -0x1_0000_0000_0000 <= y <= 0x1_0000_0000_0000,
            extends(old(writes)@, writes@),
            only_blocks(writes@, old(writes)@.len() as int, post, slab),
            forall|q: int| 0 <= q < i ==> #[trigger] post_written(writes@, nodes@, q, y as int, post, slab),
            forall|q: int| old(writes)@.len() <= q < writes@.len() ==> #[trigger] post_kind(writes@[q], nodes@, y as int, post, slab),
        decreases nodes@.len() - i,
    {
        let (x, z) = nodes[i];
        let ghost w0 = writes@;
        let mut dy: i64 = 1;
        while dy <= 4
            invariant
                1 <= dy <= 5,
                -0x1_0000_0000_0000 <= y <= 0x1_0000_0000_0000,
                extends(old(writes)@, w0),
                extends(w0, writes@),
                only_blocks(writes@, old(writes)@.len() as int, post, slab),
                stack_written(writes@, post, x as int, z as int, y + 1, y + dy - 1),
                forall|q: int| old(writes)@.len() <= q < writes@.len() ==> #[trigger] post_kind(writes@[q], nodes@, y as int, post, slab),
                i < nodes@.len(),
                (x, z) == nodes@[i as int],
            decreases 5 - dy,
        {
            let ghost before = writes@;
            place(writes, post, x as i64, y + dy, z as i64);
            proof {
                assert forall|q: int| old(writes)@.len() <= q < writes@.len() implies #[trigger] post_kind(writes@[q], nodes@,
                    y as int, post, slab) by {
                    if q < before.len() {
                        assert(writes@[q] == before[q]);
                    } else {
                        assert(at_node(writes@[q], nodes@, post, y + 1, y + 4));
                    }
                }
                assert forall|v: int| y + 1 <= v <= y + dy implies #[trigger] has_write(writes@, post, x as int, v, z as int) by {
                    if v < y + dy {
                        lemma_keeps_write(before, writes@, post, x as int, v, z as int);
                    } else {
                        assert(is_write(writes@.last(), post, x as int, v, z as int));
                    }
                }
            }
            dy = dy + 1;
        }
        let ghost before = writes@;
        place(writes, slab, x as i64, y + 5, z as i64);
        proof {
            assert forall|q: int| old(writes)@.len() <= q < writes@.len() implies #[trigger] post_kind(writes@[q], nodes@,
                y as int, post, slab) by {
                if q < before.len() {
                    assert(writes@[q] == before[q]);
                } else {
                    assert(at_node(writes@[q], nodes@, slab, y + 5, y + 5));
                }
            }
            lemma_keeps_stack(before, writes@, post, x as int, z as int, y + 1, y + 4);
            assert(is_write(writes@.last(), slab, x as int, y + 5, z as int));
            assert forall|q: int| 0 <= q < i + 1 implies #[trigger] post_written(writes@, nodes@, q, y as int, post, slab) by {
                if q < i {
                    assert(post_written(w0, nodes@, q, y as int, post, slab));
                    lemma_keeps_stack(w0, writes@, post, nodes@[q].0 as int, nodes@[q].1 as int, y + 1, y + 4);
                    lemma_keeps_write(w0, writes@, slab, nodes@[q].0 as int, y + 5, nodes@[q].1 as int);
                }
            }
        }
        i = i + 1;
    }
}

/// Places `block` at height `y` over every column of `area`.
fn cover(writes: &mut Vec<VoxelWrite>, area: &Vec<(i32, i32)>, y: i64, block: Block)
    ensures
        extends(old(writes)@, final(writes)@),
        only_blocks(final(writes)@, old(writes)@.len() as int, block, block),
        forall|k: int| 0 <= k < area@.len() ==> has_write(final(writes)@, block,
            (#[trigger] area@[k]).0 as int, y as int, area@[k].1 as int),
        ys_within(final(writes)@, old(writes)@.len() as int, y as int, y as int),
        plain_from(final(writes)@, old(writes)@.len() as int),
        forall|q: int| old(writes)@.len() <= q < final(writes)@.len() ==> #[trigger] on_area(final(writes)@[q], area@, block,
            y as int),
{
    let mut i: usize = 0;
    while i < area.len()
        invariant
            i <= area@.len(),
            extends(old(writes)@, writes@),
            only_blocks(writes@, old(writes)@.len() as int, block, block),
            ys_within(writes@, old(writes)@.len() as int, y as int, y as int),
            plain_from(writes@, old(writes)@.len() as int),
            forall|q: int| old(writes)@.len() <= q < writes@.len() ==> #[trigger] on_area(writes@[q], area@, block, y as int),
            forall|k: int| 0 <= k < i ==> has_write(writes@, block,
                (#[trigger] area@[k]).0 as int, y as int, area@[k].1 as int),
        decreases area@.len() - i,
    {
        let ghost before = writes@;
        place(writes, block, area[i].0 as i64, y, area[i].1 as i64);
        proof {
            assert forall|q: int| old(writes)@.len() <= q < writes@.len() implies #[trigger] on_area(writes@[q], area@, block,
                y as int) by {
                if q < before.len() {
                    assert(writes@[q] == before[q]);
                } else {
                    assert(is_write(writes@[q], block, area@[i as int].0 as int, y as int, area@[i as int].1 as int));
                }
            }
            assert forall|k: int| 0 <= k < i + 1 implies has_write(writes@, block,
                (#[trigger] area@[k]).0 as int, y as int, area@[k].1 as int) by {
                if k < i {
                    lemma_keeps_write(before, writes@, block, area@[k].0 as int, y as int, area@[k].1 as int);
                } else {
                    assert(is_write(writes@[writes@.len() - 1], block, area@[k].0 as int, y as int, area@[k].1 as int));
                }
            }
        }
        i = i + 1;
    }
}

/// `w` is a shelter's post, post slab, or roof slab over an enclosed column.
pub open spec fn shelter_kind(w: VoxelWrite, nodes: Seq<(i32, i32)>, interior: Seq<(i32, i32)>, y: int) -> bool {
    post_kind(w, nodes, y, Block::OakFence, Block::StoneBrickSlab) || on_area(w, interior, Block::StoneBrickSlab, y + 5)
}

/// `w` is a bike shed's floor plank, post, post slab, or roof slab.
pub open spec fn shed_kind(w: VoxelWrite, nodes: Seq<(i32, i32)>, interior: Seq<(i32, i32)>, y: int) -> bool {
    ||| on_area(w, interior, Block::OakPlanks, y)
    ||| post_kind(w, nodes, y, Block::OakFence, Block::StoneBlockSlab)
    ||| on_area(w, interior, Block::StoneBlockSlab, y + 5)
}

/// `w` is a freestanding roof's edge slab, lattice post, or slab over an enclosed column.
pub open spec fn roof_kind(w: VoxelWrite, nodes: Seq<(i32, i32)>, interior: Seq<(i32, i32)>, g: int) -> bool {
    ||| (exists|a: int| 1 <= a < nodes.len() && #[trigger] on_edge(w, nodes, a, Block::StoneBrickSlab, g + 5))
    ||| at_node(w, nodes, Block::CobblestoneWall, g + 1, g + 4)
    ||| on_area(w, interior, Block::StoneBrickSlab, g + 5)
}

/// A shelter: posts at the nodes and a slab roof over the enclosed columns.
fn shelter(writes: &mut Vec<VoxelWrite>, nodes: &Vec<(i32, i32)>, interior: &Vec<(i32, i32)>, y: i64)
    requires
        -0x1_0000_0000_0000 <= y <= 0x1_0000_0000_0000,
        old(writes)@.len() == 0,
    ensures
        forall|q: int| 0 <= q < final(writes)@.len() ==> #[trigger] shelter_kind(final(writes)@[q], nodes@, interior@, y as int),
        extends(old(writes)@, final(writes)@),
        only_blocks(final(writes)@, old(writes)@.len() as int, Block::OakFence, Block::StoneBrickSlab),
        forall|i: int| 0 <= i < nodes@.len() ==> #[trigger] post_written(final(writes)@, nodes@, i, y as int,
            Block::OakFence, Block::StoneBrickSlab),
        covered(final(writes)@, interior@, Block::StoneBrickSlab, y + 5),
{
    let ghost n0 = writes@.len() as int;
    posts(writes, nodes, y, Block::OakFence, Block::StoneBrickSlab);
    let ghost mid = writes@;
    cover(writes, interior, y + 5, Block::StoneBrickSlab);
    proof {
        assert forall|i: int| 0 <= i < nodes@.len() implies #[trigger] post_written(writes@, nodes@, i, y as int,
            Block::OakFence, Block::StoneBrickSlab) by {
            assert(post_written(mid, nodes@, i, y as int, Block::OakFence, Block::StoneBrickSlab));
            lemma_keeps_stack(mid, writes@, Block::OakFence, nodes@[i].0 as int, nodes@[i].1 as int, y + 1, y + 4);
            lemma_keeps_write(mid, writes@, Block::StoneBrickSlab, nodes@[i].0 as int, y + 5, nodes@[i].1 as int);
        }
    }
    assert(only_blocks(writes@, n0, Block::OakFence, Block::StoneBrickSlab)) by {
        assert forall|j: int| n0 <= j < writes@.len() implies (#[trigger] writes@[j]).block == Block::OakFence
            || writes@[j].block == Block::StoneBrickSlab by {
            if j < mid.len() {
                assert(writes@[j] == mid[j]);
            }
        }
    }
    assert forall|q: int| 0 <= q < writes@.len() implies #[trigger] shelter_kind(writes@[q], nodes@, interior@, y as int) by {
        if q < mid.len() {
            assert(writes@[q] == mid[q]);
            assert(post_kind(mid[q], nodes@, y as int, Block::OakFence, Block::StoneBrickSlab));
        } else {
            assert(on_area(writes@[q], interior@, Block::StoneBrickSlab, y + 5));
        }
    }
}

/// A covered bicycle shed: a plank floor, posts and a slab roof.
fn bike_shed(writes: &mut Vec<VoxelWrite>, nodes: &Vec<(i32, i32)>, interior: &Vec<(i32, i32)>, y: i64)
    requires
        -0x1_0000_0000_0000 <= y <= 0x1_0000_0000_0000,
        old(writes)@.len() == 0,
    ensures
        forall|q: int| 0 <= q < final(writes)@.len() ==> #[trigger] shed_kind(final(writes)@[q], nodes@, interior@, y as int),
        extends(old(writes)@, final(writes)@),
        covered(final(writes)@, interior@, Block::OakPlanks, y as int),
        forall|i: int| 0 <= i < nodes@.len() ==> #[trigger] post_written(final(writes)@, nodes@, i, y as int,
            Block::OakFence, Block::StoneBlockSlab),
        covered(final(writes)@, interior@, Block::StoneBlockSlab, y + 5),
{
    cover(writes, interior, y, Block::OakPlanks);
    let ghost a = writes@;
    posts(writes, nodes, y, Block::OakFence, Block::StoneBlockSlab);
    let ghost b = writes@;
    cover(writes, interior, y + 5, Block::StoneBlockSlab);
    proof {
        lemma_keeps_cover(a, writes@, interior@, Block::OakPlanks, y as int);
        assert forall|i: int| 0 <= i < nodes@.len() implies #[trigger] post_written(writes@, nodes@, i, y as int,
            Block::OakFence, Block::StoneBlockSlab) by {
            assert(post_written(b, nodes@, i, y as int, Block::OakFence, Block::StoneBlockSlab));
            lemma_keeps_stack(b, writes@, Block::OakFence, nodes@[i].0 as int, nodes@[i].1 as int, y + 1, y + 4);
            lemma_keeps_write(b, writes@, Block::StoneBlockSlab, nodes@[i].0 as int, y + 5, nodes@[i].1 as int);
        }
    }
    assert forall|q: int| 0 <= q < writes@.len() implies #[trigger] shed_kind(writes@[q], nodes@, interior@, y as int) by {
        if q < a.len() {
            assert(writes@[q] == a[q]);
            assert(on_area(a[q], interior@, Block::OakPlanks, y as int));
        } else if q < b.len() {
            assert(writes@[q] == b[q]);
            assert(post_kind(b[q], nodes@, y as int, Block::OakFence, Block::StoneBlockSlab));
        } else {
            assert(on_area(writes@[q], interior@, Block::StoneBlockSlab, y + 5));
        }
    }
}

/// The floor finish of a car park storey.
pub open spec fn parking_floor(level: int) -> Block {
    if level == 0 { Block::SmoothStone } else { Block::Cobblestone }
}

/// Every storey of a car park up to `height` has its floor at every enclosed column.
pub open spec fn parking_floors(s: Seq<VoxelWrite>, interior: Seq<(i32, i32)>, g: int, upto: int) -> bool {
    forall|l: int, k: int| 0 <= l < upto && 0 <= k < interior.len() ==> #[trigger] has_write(s, parking_floor(l),
        interior[k].0 as int, g + 4 * l, interior[k].1 as int)
}

proof fn lemma_keeps_floors(s: Seq<VoxelWrite>, t: Seq<VoxelWrite>, interior: Seq<(i32, i32)>, g: int, upto: int)
    requires
        parking_floors(s, interior, g, upto),
        extends(s, t),
    ensures
        parking_floors(t, interior, g, upto),
{
    assert forall|l: int, k: int| 0 <= l < upto && 0 <= k < interior.len() implies #[trigger] has_write(t, parking_floor(l),
        interior[k].0 as int, g + 4 * l, interior[k].1 as int) by {
        lemma_keeps_write(s, t, parking_floor(l), interior[k].0 as int, g + 4 * l, interior[k].1 as int);
    }
}

/// The blocks a car park is made of.
pub open spec fn parking_block(b: Block) -> bool {
    b == Block::StoneBricks || b == Block::SmoothStone || b == Block::Cobblestone || b == Block::StoneBrickSlab
        || b == Block::CobblestoneWall
}

/// Every write of `s` from the `n`-th on places a car park block.
pub open spec fn parking_only(s: Seq<VoxelWrite>, n: int) -> bool {
    forall|j: int| n <= j < s.len() ==> parking_block((#[trigger] s[j]).block)
}

/// Some write of `s` places `b` at (x, y, z) unless cobblestone or a cobblestone wall is there.
pub open spec fn has_guarded_write(s: Seq<VoxelWrite>, b: Block, x: int, y: int, z: int) -> bool {
    exists|j: int| 0 <= j < s.len() && (#[trigger] s[j]).block == b && s[j].x == x && s[j].y == y && s[j].z == z
        && s[j].keep@ == seq![Block::Cobblestone, Block::CobblestoneWall]
}

/// The node `i` carries brick walls over the storey `l` of a car park on terrain `g`.
pub open spec fn tower_written(s: Seq<VoxelWrite>, nodes: Seq<(i32, i32)>, i: int, g: int, l: int) -> bool {
    stack_written(s, Block::StoneBricks, nodes[i].0 as int, nodes[i].1 as int, g + 4 * l + 1, g + 4 * l + 4)
}

/// The outline of storey `l` over the `j`-th column of the `i`-th edge: a smooth edge
/// that spares cobblestone, a slab two above, and a wall accent on even x.
pub open spec fn outline_at(s: Seq<VoxelWrite>, nodes: Seq<(i32, i32)>, i: int, j: int, g: int, l: int) -> bool {
    let p = edge_point(nodes, i, j);
    let y = g + 4 * l;
    &&& has_guarded_write(s, Block::SmoothStone, p.0, y, p.1)
    &&& has_write(s, Block::StoneBrickSlab, p.0, y + 2, p.1)
    &&& (rem(p.0, 2) == 0 ==> has_write(s, Block::CobblestoneWall, p.0, y + 1, p.1))
}

/// `w` is one outline write over the column `p` of a storey at elevation `y`: the smooth
/// edge that spares cobblestone, the slab two above, or the wall accent on even x.
pub open spec fn outline_write(w: VoxelWrite, p: (int, int), y: int) -> bool {
    ||| (w.block == Block::SmoothStone && w.x == p.0 && w.y == y && w.z == p.1
        && w.keep@ == seq![Block::Cobblestone, Block::CobblestoneWall])
    ||| is_write(w, Block::StoneBrickSlab, p.0, y + 2, p.1)
    ||| (is_write(w, Block::CobblestoneWall, p.0, y + 1, p.1) && rem(p.0, 2) == 0)
}

/// `w` is an outline write of storey `l` on the `i`-th edge.
pub open spec fn outline_piece(w: VoxelWrite, nodes: Seq<(i32, i32)>, i: int, g: int, l: int) -> bool {
    exists|j: int| 0 <= j < edge_len(nodes, i) && outline_write(w, #[trigger] edge_point(nodes, i, j), g + 4 * l)
}

/// `w` is an outline write of some storey up to `top` on some traced edge.
pub open spec fn outline_kind(w: VoxelWrite, nodes: Seq<(i32, i32)>, g: int, top: int) -> bool {
    exists|l: int, i: int| 0 <= l <= top && 1 <= i < nodes.len() && #[trigger] outline_piece(w, nodes, i, g, l)
}

/// `w` is an unconditional storey wall or floor write.
pub open spec fn storey_kind(w: VoxelWrite) -> bool {
    w.keep@.len() == 0 && (w.block == Block::StoneBricks || w.block == Block::SmoothStone || w.block == Block::Cobblestone)
}

/// The first `n` writes of `w` are the storeys' unconditional walls and floors; all later
/// ones are outline writes.
pub open spec fn parking_split(w: Seq<VoxelWrite>, nodes: Seq<(i32, i32)>, g: int, top: int, n: int) -> bool {
    &&& 0 <= n <= w.len()
    &&& forall|q: int| 0 <= q < n ==> #[trigger] storey_kind(w[q])
    &&& forall|q: int| n <= q < w.len() ==> #[trigger] outline_kind(w[q], nodes, g, top)
}

/// The writes `w` are a car park of height `h` on terrain `g`.
pub open spec fn parking_built(w: Seq<VoxelWrite>, nodes: Seq<(i32, i32)>, interior: Seq<(i32, i32)>, g: int, h: int) -> bool {
    &&& parking_floors(w, interior, g, h / 4 + 1)
    &&& forall|l: int, i: int| 0 <= l <= h / 4 && 0 <= i < nodes.len() ==> #[trigger] tower_written(w, nodes, i, g, l)
    &&& forall|l: int, i: int, j: int| 0 <= l <= h / 4 && 1 <= i < nodes.len() && 0 <= j < edge_len(nodes, i)
            ==> #[trigger] outline_at(w, nodes, i, j, g, l)
    &&& parking_only(w, 0)
    &&& exists|n: int| #[trigger] parking_split(w, nodes, g, h / 4, n)
}

proof fn lemma_keeps_tower(s: Seq<VoxelWrite>, t: Seq<VoxelWrite>, nodes: Seq<(i32, i32)>, i: int, g: int, l: int)
    requires
        tower_written(s, nodes, i, g, l),
        extends(s, t),
    ensures
        tower_written(t, nodes, i, g, l),
{
    lemma_keeps_stack(s, t, Block::StoneBricks, nodes[i].0 as int, nodes[i].1 as int, g + 4 * l + 1, g + 4 * l + 4);
}

proof fn lemma_keeps_outline(s: Seq<VoxelWrite>, t: Seq<VoxelWrite>, nodes: Seq<(i32, i32)>, i: int, j: int, g: int, l: int)
    requires
        outline_at(s, nodes, i, j, g, l),
        extends(s, t),
    ensures
        outline_at(t, nodes, i, j, g, l),
{
    let p = edge_point(nodes, i, j);
    let y = g + 4 * l;
    let q = choose|q: int| 0 <= q < s.len() && (#[trigger] s[q]).block == Block::SmoothStone && s[q].x == p.0
        && s[q].y == y && s[q].z == p.1 && s[q].keep@ == seq![Block::Cobblestone, Block::CobblestoneWall];
    assert(t[q] == s[q]);
    lemma_keeps_write(s, t, Block::StoneBrickSlab, p.0, y + 2, p.1);
    if rem(p.0, 2) == 0 {
        lemma_keeps_write(s, t, Block::CobblestoneWall, p.0, y + 1, p.1);
    }
}

/// Brick walls four high above `lo` at the column (x, z).
fn tower(writes: &mut Vec<VoxelWrite>, x: i32, z: i32, lo: i64)
    requires
        -0x400_0000_0000_0000 <= lo <= 0x400_0000_0000_0000,
    ensures
        extends(old(writes)@, final(writes)@),
        stack_written(final(writes)@, Block::StoneBricks, x as int, z as int, lo + 1, lo + 4),
        only_blocks(final(writes)@, old(writes)@.len() as int, Block::StoneBricks, Block::StoneBricks),
        plain_from(final(writes)@, old(writes)@.len() as int),
{
    let mut y: i64 = lo + 1;
    while y <= lo + 4
        invariant
            lo + 1 <= y <= lo + 5,
            -0x400_0000_0000_0000 <= lo <= 0x400_0000_0000_0000,
            extends(old(writes)@, writes@),
            only_blocks(writes@, old(writes)@.len() as int, Block::StoneBricks, Block::StoneBricks),
            plain_from(writes@, old(writes)@.len() as int),
            stack_written(writes@, Block::StoneBricks, x as int, z as int, lo + 1, y - 1),
        decreases lo + 5 - y,
    {
        let ghost before = writes@;
        place(writes, Block::StoneBricks, x as i64, y, z as i64);
        proof {
            assert forall|v: int| lo + 1 <= v <= y implies #[trigger] has_write(writes@, Block::StoneBricks, x as int, v, z as int) by {
                if v < y {
                    lemma_keeps_write(before, writes@, Block::StoneBricks, x as int, v, z as int);
                } else {
                    assert(is_write(writes@.last(), Block::StoneBricks, x as int, v, z as int));
                }
            }
        }
        y = y + 1;
    }
}

/// The outline of one storey, at elevation `y`, along the `i`-th edge.
fn outline_edge(writes: &mut Vec<VoxelWrite>, nodes: &Vec<(i32, i32)>, i: usize, g: i64, l: i64)
    requires
        1 <= i < nodes@.len(),
        -0x1_0000_0000 <= g <= 0x1_0000_0000,
        0 <= l <= 0x80_0000_0000_0000,
    ensures
        extends(old(writes)@, final(writes)@),
        parking_only(final(writes)@, old(writes)@.len() as int),
        forall|j: int| 0 <= j < edge_len(nodes@, i as int) ==> #[trigger] outline_at(final(writes)@, nodes@, i as int, j,
            g as int, l as int),
        forall|q: int| old(writes)@.len() <= q < final(writes)@.len() ==> #[trigger] outline_piece(final(writes)@[q],
            nodes@, i as int, g as int, l as int),
{
    let y: i64 = g + l * 4;
    let pts: Vec<(i64, i64)> = raster_line(nodes[i - 1].0, nodes[i - 1].1, nodes[i].0, nodes[i].1);
    let mut j: usize = 0;
    while j < pts.len()
        invariant
            j <= pts@.len(),
            1 <= i < nodes@.len(),
            y == g + 4 * l,
            -0x1_0000_0000 <= g <= 0x1_0000_0000,
            0 <= l <= 0x80_0000_0000_0000,
            pts@.len() == edge_len(nodes@, i as int),
            forall|q: int| 0 <= q < pts@.len() ==> wide(#[trigger] pts@[q]) == edge_point(nodes@, i as int, q),
            forall|q: int| 0 <= q < pts@.len() ==> -0x2_0000_0000 <= (#[trigger] pts@[q]).0 <= 0x2_0000_0000,
            extends(old(writes)@, writes@),
            parking_only(writes@, old(writes)@.len() as int),
            forall|q: int| 0 <= q < j ==> #[trigger] outline_at(writes@, nodes@, i as int, q, g as int, l as int),
            forall|q: int| old(writes)@.len() <= q < writes@.len() ==> #[trigger] outline_piece(writes@[q], nodes@, i as int,
                g as int, l as int),
        decreases pts@.len() - j,
    {
        let (bx, bz) = pts[j];
        assert(wide(pts@[j as int]) == edge_point(nodes@, i as int, j as int));
        let ghost before = writes@;
        let keep: Vec<Block> = vec![Block::Cobblestone, Block::CobblestoneWall];
        assert(keep@ =~= seq![Block::Cobblestone, Block::CobblestoneWall]);
        writes.push(VoxelWrite { block: Block::SmoothStone, x: bx, y, z: bz, keep });
        let ghost at_edge = writes@;
        place(writes, Block::StoneBrickSlab, bx, y + 2, bz);
        let ghost at_slab = writes@;
        let even: bool = bx > i64::MIN && rem_i64(bx, 2) == 0;
        assert(even == (rem(bx as int, 2) == 0));
        if even {
            place(writes, Block::CobblestoneWall, bx, y + 1, bz);
        }
        proof {
            let qe = at_edge.len() - 1;
            assert(writes@[qe] == at_edge[qe]);
            assert(has_guarded_write(writes@, Block::SmoothStone, bx as int, y as int, bz as int));
            assert(is_write(at_slab.last(), Block::StoneBrickSlab, bx as int, y + 2, bz as int));
            lemma_keeps_write(at_slab, writes@, Block::StoneBrickSlab, bx as int, y + 2, bz as int);
            if even {
                assert(is_write(writes@.last(), Block::CobblestoneWall, bx as int, y + 1, bz as int));
            }
            assert(outline_at(writes@, nodes@, i as int, j as int, g as int, l as int));
            let pj = edge_point(nodes@, i as int, j as int);
            assert forall|q: int| old(writes)@.len() <= q < writes@.len() implies #[trigger] outline_piece(writes@[q], nodes@,
                i as int, g as int, l as int) by {
                if q < before.len() {
                    assert(writes@[q] == before[q]);
                } else {
                    if q < at_edge.len() {
                        assert(writes@[q] == at_edge[q]);
                    } else if q < at_slab.len() {
                        assert(writes@[q] == at_slab[q]);
                    }
                    assert(outline_write(writes@[q], pj, y as int));
                }
            }
            assert forall|q: int| 0 <= q < j + 1 implies #[trigger] outline_at(writes@, nodes@, i as int, q, g as int, l as int) by {
                if q < j {
                    lemma_keeps_outline(before, writes@, nodes@, i as int, q, g as int, l as int);
                }
            }
        }
        j = j + 1;
    }
}

/// A multi-storey car park: brick walls at the nodes and a floor on every storey, then
/// an outline on every storey.
fn parking(writes: &mut Vec<VoxelWrite>, nodes: &Vec<(i32, i32)>, interior: &Vec<(i32, i32)>, g: i64, height: i64)
    requires
        -0x1_0000_0000 <= g <= 0x1_0000_0000,
        0 <= height <= 0x200_0000_0000_0000,
        old(writes)@.len() == 0,
    ensures
        parking_built(final(writes)@, nodes@, interior@, g as int, height as int),
{
    let top: i64 = height / 4;
    let mut level: i64 = 0;
    while level <= top
        invariant
            0 <= level <= top + 1,
            top == height / 4,
            -0x1_0000_0000 <= g <= 0x1_0000_0000,
            0 <= height <= 0x200_0000_0000_0000,
            parking_floors(writes@, interior@, g as int, level as int),
            forall|l: int, i: int| 0 <= l < level && 0 <= i < nodes@.len() ==> #[trigger] tower_written(writes@, nodes@, i,
                g as int, l),
            parking_only(writes@, 0),
            forall|q: int| 0 <= q < writes@.len() ==> #[trigger] storey_kind(writes@[q]),
        decreases top + 1 - level,
    {
        let current: i64 = g + level * 4;
        let ghost w0 = writes@;
        let mut i: usize = 0;
        while i < nodes.len()
            invariant
                i <= nodes@.len(),
                -0x1_0000_0000 <= g <= 0x1_0000_0000,
                current == g + level * 4,
                0 <= level <= top,
                top <= 0x80_0000_0000_0000,
                extends(w0, writes@),
                parking_only(writes@, 0),
                forall|q: int| 0 <= q < writes@.len() ==> #[trigger] storey_kind(writes@[q]),
                forall|q: int| 0 <= q < i ==> #[trigger] tower_written(writes@, nodes@, q, g as int, level as int),
            decreases nodes@.len() - i,
        {
            let (x, z) = nodes[i];
            let ghost before = writes@;
            tower(writes, x, z, current);
            proof {
                assert forall|q: int| 0 <= q < writes@.len() implies #[trigger] storey_kind(writes@[q]) by {
                    if q < before.len() {
                        assert(writes@[q] == before[q]);
                    }
                }
                assert(tower_written(writes@, nodes@, i as int, g as int, level as int));
                assert forall|q: int| 0 <= q < i + 1 implies #[trigger] tower_written(writes@, nodes@, q, g as int, level as int) by {
                    if q < i {
                        lemma_keeps_tower(before, writes@, nodes@, q, g as int, level as int);
                    }
                }
            }
            i = i + 1;
        }
        let floor: Block = if level == 0 { Block::SmoothStone } else { Block::Cobblestone };
        let ghost w1 = writes@;
        cover(writes, interior, current, floor);
        proof {
            assert forall|q: int| 0 <= q < writes@.len() implies #[trigger] storey_kind(writes@[q]) by {
                if q < w1.len() {
                    assert(writes@[q] == w1[q]);
                }
            }
            lemma_extends_trans(w0, w1, writes@);
            lemma_keeps_floors(w0, writes@, interior@, g as int, level as int);
            assert forall|l: int, k: int| 0 <= l < level + 1 && 0 <= k < interior@.len() implies #[trigger] has_write(writes@, parking_floor(l),
                interior@[k].0 as int, g + 4 * l, interior@[k].1 as int) by {
                if l == level {
                    assert(has_write(writes@, floor, interior@[k].0 as int, current as int, interior@[k].1 as int));
                }
            }
            assert forall|l: int, i: int| 0 <= l < level + 1 && 0 <= i < nodes@.len() implies #[trigger] tower_written(writes@,
                nodes@, i, g as int, l) by {
                if l < level {
                    lemma_keeps_tower(w0, writes@, nodes@, i, g as int, l);
                } else {
                    lemma_keeps_tower(w1, writes@, nodes@, i, g as int, l);
                }
            }
        }
        level = level + 1;
    }
    let ghost wf = writes@;
    level = 0;
    while level <= top
        invariant
            0 <= level <= top + 1,
            top == height / 4,
            -0x1_0000_0000 <= g <= 0x1_0000_0000,
            0 <= height <= 0x200_0000_0000_0000,
            extends(wf, writes@),
            parking_only(writes@, 0),
            forall|l: int, i: int, j: int| 0 <= l < level && 1 <= i < nodes@.len() && 0 <= j < edge_len(nodes@, i)
                ==> #[trigger] outline_at(writes@, nodes@, i, j, g as int, l),
            forall|q: int| wf.len() <= q < writes@.len() ==> #[trigger] outline_kind(writes@[q], nodes@, g as int, top as int),
        decreases top + 1 - level,
    {
        let ghost wl = writes@;
        let mut i: usize = 1;
        while i < nodes.len()
            invariant
                1 <= i,
                i <= nodes@.len() || nodes@.len() == 0,
                -0x1_0000_0000 <= g <= 0x1_0000_0000,
                0 <= level <= top,
                top <= 0x80_0000_0000_0000,
                extends(wl, writes@),
                extends(wf, wl),
                parking_only(writes@, 0),
                forall|a: int, j: int| 1 <= a < i && a < nodes@.len() && 0 <= j < edge_len(nodes@, a)
                    ==> #[trigger] outline_at(writes@, nodes@, a, j, g as int, level as int),
                forall|q: int| wf.len() <= q < writes@.len() ==> #[trigger] outline_kind(writes@[q], nodes@, g as int, top as int),
                top == height / 4,
            decreases nodes@.len() - i,
        {
            let ghost before = writes@;
            outline_edge(writes, nodes, i, g, level);
            proof {
                assert forall|q: int| wf.len() <= q < writes@.len() implies #[trigger] outline_kind(writes@[q], nodes@, g as int,
                    top as int) by {
                    if q < before.len() {
                        assert(writes@[q] == before[q]);
                    } else {
                        assert(outline_piece(writes@[q], nodes@, i as int, g as int, level as int));
                    }
                }
                assert forall|a: int, j: int| 1 <= a < i + 1 && a < nodes@.len() && 0 <= j < edge_len(nodes@, a)
                    implies #[trigger] outline_at(writes@, nodes@, a, j, g as int, level as int) by {
                    if a < i {
                        lemma_keeps_outline(before, writes@, nodes@, a, j, g as int, level as int);
                    }
                }
            }
            i = i + 1;
        }
        proof {
            assert forall|l: int, a: int, j: int| 0 <= l < level + 1 && 1 <= a < nodes@.len() && 0 <= j < edge_len(nodes@, a)
                implies #[trigger] outline_at(writes@, nodes@, a, j, g as int, l) by {
                if l < level {
                    lemma_keeps_outline(wl, writes@, nodes@, a, j, g as int, l);
                }
            }
        }
        level = level + 1;
    }
    proof {
        assert forall|q: int| 0 <= q < wf.len() implies #[trigger] storey_kind(writes@[q]) by {
            assert(writes@[q] == wf[q]);
        }
        assert(parking_split(writes@, nodes@, g as int, height / 4, wf.len() as int));
        lemma_keeps_floors(wf, writes@, interior@, g as int, height / 4 + 1);
        assert forall|l: int, i: int| 0 <= l <= height / 4 && 0 <= i < nodes@.len() implies #[trigger] tower_written(writes@,
            nodes@, i, g as int, l) by {
            lemma_keeps_tower(wf, writes@, nodes@, i, g as int, l);
        }
    }
}

/// `b` was placed at elevation `y` over the `j`-th column of the `i`-th edge.
pub open spec fn edge_written(s: Seq<VoxelWrite>, nodes: Seq<(i32, i32)>, i: int, j: int, b: Block, y: int) -> bool {
    has_write(s, b, edge_point(nodes, i, j).0, y, edge_point(nodes, i, j).1)
}

/// `b` was placed at elevation `y` over every column of every edge.
pub open spec fn edges_written(s: Seq<VoxelWrite>, nodes: Seq<(i32, i32)>, b: Block, y: int, upto: int) -> bool {
    forall|i: int, j: int| 1 <= i < upto && 0 <= j < edge_len(nodes, i) ==> #[trigger] edge_written(s, nodes, i, j, b, y)
}

proof fn lemma_keeps_edges(s: Seq<VoxelWrite>, t: Seq<VoxelWrite>, nodes: Seq<(i32, i32)>, b: Block, y: int, upto: int)
    requires
        edges_written(s, nodes, b, y, upto),
        extends(s, t),
    ensures
        edges_written(t, nodes, b, y, upto),
{
    assert forall|i: int, j: int| 1 <= i < upto && 0 <= j < edge_len(nodes, i)
        implies #[trigger] edge_written(t, nodes, i, j, b, y) by {
        assert(edge_written(s, nodes, i, j, b, y));
        lemma_keeps_write(s, t, b, edge_point(nodes, i, j).0, y, edge_point(nodes, i, j).1);
    }
}

/// `w` places `b` at elevation `y` over some column of the `i`-th edge.
pub open spec fn on_edge(w: VoxelWrite, nodes: Seq<(i32, i32)>, i: int, b: Block, y: int) -> bool {
    exists|q: int| 0 <= q < edge_len(nodes, i) && is_write(w, b, (#[trigger] edge_point(nodes, i, q)).0, y,
        edge_point(nodes, i, q).1)
}

/// Places `b` at elevation `y` over every column of the `i`-th edge.
fn trace_edge(writes: &mut Vec<VoxelWrite>, nodes: &Vec<(i32, i32)>, i: usize, b: Block, y: i64)
    requires
        1 <= i < nodes@.len(),
    ensures
        extends(old(writes)@, final(writes)@),
        only_blocks(final(writes)@, old(writes)@.len() as int, b, b),
        ys_within(final(writes)@, old(writes)@.len() as int, y as int, y as int),
        forall|j: int| 0 <= j < edge_len(nodes@, i as int) ==> #[trigger] edge_written(final(writes)@, nodes@, i as int, j, b, y as int),
        forall|q: int| old(writes)@.len() <= q < final(writes)@.len() ==> #[trigger] on_edge(final(writes)@[q], nodes@,
            i as int, b, y as int),
{
    let pts: Vec<(i64, i64)> = raster_line(nodes[i - 1].0, nodes[i - 1].1, nodes[i].0, nodes[i].1);
    let mut j: usize = 0;
    while j < pts.len()
        invariant
            j <= pts@.len(),
            1 <= i < nodes@.len(),
            pts@.len() == edge_len(nodes@, i as int),
            forall|q: int| 0 <= q < pts@.len() ==> wide(#[trigger] pts@[q]) == edge_point(nodes@, i as int, q),
            extends(old(writes)@, writes@),
            only_blocks(writes@, old(writes)@.len() as int, b, b),
            ys_within(writes@, old(writes)@.len() as int, y as int, y as int),
            forall|q: int| 0 <= q < j ==> #[trigger] edge_written(writes@, nodes@, i as int, q, b, y as int),
            forall|q: int| old(writes)@.len() <= q < writes@.len() ==> #[trigger] on_edge(writes@[q], nodes@, i as int, b,
                y as int),
        decreases pts@.len() - j,
    {
        let ghost before = writes@;
        assert(wide(pts@[j as int]) == edge_point(nodes@, i as int, j as int));
        place(writes, b, pts[j].0, y, pts[j].1);
        proof {
            assert forall|q: int| 0 <= q < j + 1 implies #[trigger] edge_written(writes@, nodes@, i as int, q, b, y as int) by {
                if q < j {
                    assert(edge_written(before, nodes@, i as int, q, b, y as int));
                    lemma_keeps_write(before, writes@, b, edge_point(nodes@, i as int, q).0, y as int, edge_point(nodes@, i as int, q).1);
                } else {
                    assert(is_write(writes@.last(), b, edge_point(nodes@, i as int, q).0, y as int, edge_point(nodes@, i as int, q).1));
                }
            }
            assert(is_write(writes@.last(), b, edge_point(nodes@, i as int, j as int).0, y as int,
                edge_point(nodes@, i as int, j as int).1));
            assert(on_edge(writes@.last(), nodes@, i as int, b, y as int));
            assert forall|q: int| old(writes)@.len() <= q < writes@.len() implies #[trigger] on_edge(writes@[q], nodes@,
                i as int, b, y as int) by {
                if q < writes@.len() - 1 {
                    assert(writes@[q] == before[q]);
                }
            }
        }
        j = j + 1;
    }
}

/// A freestanding roof: a slab five above the ground over the outline and the enclosed
/// columns, on lattice posts at the nodes.
fn roof(writes: &mut Vec<VoxelWrite>, nodes: &Vec<(i32, i32)>, interior: &Vec<(i32, i32)>, g: i64)
    requires
        -0x1_0000_0000 <= g <= 0x1_0000_0000,
        old(writes)@.len() == 0,
    ensures
        forall|q: int| 0 <= q < final(writes)@.len() ==> #[trigger] roof_kind(final(writes)@[q], nodes@, interior@, g as int),
        extends(old(writes)@, final(writes)@),
        edges_written(final(writes)@, nodes@, Block::StoneBrickSlab, g + 5, nodes@.len() as int),
        forall|i: int| 0 <= i < nodes@.len() ==> #[trigger] stack_written(final(writes)@, Block::CobblestoneWall,
            nodes@[i].0 as int, nodes@[i].1 as int, g + 1, g + 4),
        covered(final(writes)@, interior@, Block::StoneBrickSlab, g + 5),
        ys_within(final(writes)@, old(writes)@.len() as int, g + 1, g + 5),
{
    let roof_height: i64 = g + 5;
    let mut i: usize = 0;
    while i < nodes.len()
        invariant
            i <= nodes@.len(),
            roof_height == g + 5,
            -0x1_0000_0000 <= g <= 0x1_0000_0000,
            extends(old(writes)@, writes@),
            ys_within(writes@, old(writes)@.len() as int, g + 1, g + 5),
            edges_written(writes@, nodes@, Block::StoneBrickSlab, g + 5, i as int),
            forall|q: int| 0 <= q < writes@.len() ==> #[trigger] roof_kind(writes@[q], nodes@, interior@, g as int),
            forall|q: int| 0 <= q < i ==> #[trigger] stack_written(writes@, Block::CobblestoneWall,
                nodes@[q].0 as int, nodes@[q].1 as int, g + 1, g + 4),
        decreases nodes@.len() - i,
    {
        let (x, z) = nodes[i];
        let ghost w0 = writes@;
        if i > 0 {
            trace_edge(writes, nodes, i, Block::StoneBrickSlab, roof_height);
            proof {
                assert forall|q: int| 0 <= q < writes@.len() implies #[trigger] roof_kind(writes@[q], nodes@, interior@, g as int) by {
                    if q < w0.len() {
                        assert(writes@[q] == w0[q]);
                    } else {
                        assert(on_edge(writes@[q], nodes@, i as int, Block::StoneBrickSlab, g + 5));
                    }
                }
            }
        }
        let ghost w1 = writes@;
        let mut y: i64 = g + 1;
        while y <= roof_height - 1
            invariant
                g + 1 <= y <= roof_height,
                roof_height == g + 5,
                -0x1_0000_0000 <= g <= 0x1_0000_0000,
                extends(old(writes)@, w1),
                extends(w1, writes@),
                ys_within(writes@, old(writes)@.len() as int, g + 1, g + 5),
                stack_written(writes@, Block::CobblestoneWall, x as int, z as int, g + 1, y - 1),
                forall|q: int| 0 <= q < writes@.len() ==> #[trigger] roof_kind(writes@[q], nodes@, interior@, g as int),
                i < nodes@.len(),
                (x, z) == nodes@[i as int],
            decreases roof_height - y,
        {
            let ghost before = writes@;
            place(writes, Block::CobblestoneWall, x as i64, y, z as i64);
            proof {
                assert forall|q: int| 0 <= q < writes@.len() implies #[trigger] roof_kind(writes@[q], nodes@, interior@, g as int) by {
                    if q < before.len() {
                        assert(writes@[q] == before[q]);
                    } else {
                        assert(at_node(writes@[q], nodes@, Block::CobblestoneWall, g + 1, g + 4));
                    }
                }
                assert forall|v: int| g + 1 <= v <= y implies #[trigger] has_write(writes@, Block::CobblestoneWall, x as int, v, z as int) by {
                    if v < y {
                        lemma_keeps_write(before, writes@, Block::CobblestoneWall, x as int, v, z as int);
                    } else {
                        assert(is_write(writes@.last(), Block::CobblestoneWall, x as int, v, z as int));
                    }
                }
            }
            y = y + 1;
        }
        proof {
            lemma_keeps_edges(w0, writes@, nodes@, Block::StoneBrickSlab, g + 5, i as int);
            assert forall|a: int, j: int| 1 <= a < i + 1 && 0 <= j < edge_len(nodes@, a)
                implies #[trigger] edge_written(writes@, nodes@, a, j, Block::StoneBrickSlab, g + 5) by {
                if a == i {
                    assert(edge_written(w1, nodes@, a, j, Block::StoneBrickSlab, g + 5));
                    lemma_keeps_write(w1, writes@, Block::StoneBrickSlab, edge_point(nodes@, a, j).0, g + 5, edge_point(nodes@, a, j).1);
                }
            }
            assert forall|q: int| 0 <= q < i + 1 implies #[trigger] stack_written(writes@, Block::CobblestoneWall,
                nodes@[q].0 as int, nodes@[q].1 as int, g + 1, g + 4) by {
                if q < i {
                    lemma_keeps_stack(w0, writes@, Block::CobblestoneWall, nodes@[q].0 as int, nodes@[q].1 as int, g + 1, g + 4);
                }
            }
        }
        i = i + 1;
    }
    let ghost w2 = writes@;
    cover(writes, interior, roof_height, Block::StoneBrickSlab);
    proof {
        lemma_keeps_edges(w2, writes@, nodes@, Block::StoneBrickSlab, g + 5, nodes@.len() as int);
        assert forall|q: int| 0 <= q < nodes@.len() implies #[trigger] stack_written(writes@, Block::CobblestoneWall,
            nodes@[q].0 as int, nodes@[q].1 as int, g + 1, g + 4) by {
            lemma_keeps_stack(w2, writes@, Block::CobblestoneWall, nodes@[q].0 as int, nodes@[q].1 as int, g + 1, g + 4);
        }
    }
    assert forall|q: int| 0 <= q < writes@.len() implies #[trigger] roof_kind(writes@[q], nodes@, interior@, g as int) by {
        if q < w2.len() {
            assert(writes@[q] == w2[q]);
        } else {
            assert(on_area(writes@[q], interior@, Block::StoneBrickSlab, g + 5));
        }
    }
}

/// How far a bridge deck stands above the terrain: three per declared `level`, plus one.
pub open spec fn bridge_offset(tags: Tags) -> int {
    match crate::params::tag_int(tags, "level"@) {
        Some(l) => 3 * l + 1,
        None => 0,
    }
}

/// The railing over the `j`-th column of the `i`-th edge stands at that edge's end node's
/// terrain elevation raised by `off`, and one above.
pub open spec fn rail_written(s: Seq<VoxelWrite>, nodes: Seq<(i32, i32)>, ground: Ground, off: int, i: int, j: int) -> bool {
    let e = ground.level_spec(nodes[i].0 as int, nodes[i].1 as int) + off;
    &&& edge_written(s, nodes, i, j, Block::StoneBricks, e)
    &&& edge_written(s, nodes, i, j, Block::StoneBricks, e + 1)
}

/// `w` is a railing write on the `i`-th edge of a bridge.
pub open spec fn rail_edge(w: VoxelWrite, nodes: Seq<(i32, i32)>, ground: Ground, off: int, i: int) -> bool {
    let e = ground.level_spec(nodes[i].0 as int, nodes[i].1 as int) + off;
    on_edge(w, nodes, i, Block::StoneBricks, e) || on_edge(w, nodes, i, Block::StoneBricks, e + 1)
}

/// `w` is a railing write on one of the traced edges of a bridge.
pub open spec fn rail_kind(w: VoxelWrite, nodes: Seq<(i32, i32)>, ground: Ground, off: int) -> bool {
    exists|i: int| 1 <= i < nodes.len() && #[trigger] rail_edge(w, nodes, ground, off, i)
}

/// `w` is the deck write of the enclosed column `c`.
pub open spec fn deck_write(w: VoxelWrite, c: (i32, i32), ground: Ground, off: int) -> bool {
    is_write(w, Block::Stone, c.0 as int, ground.level_spec(c.0 as int, c.1 as int) + off, c.1 as int)
}

/// The writes `w` are a bridge: railing writes on the traced edges, then one deck write
/// per enclosed column, in order.
pub open spec fn bridge_built(w: Seq<VoxelWrite>, nodes: Seq<(i32, i32)>, ground: Ground, off: int,
    interior: Seq<(i32, i32)>) -> bool {
    let n = w.len() - interior.len();
    &&& 0 <= n
    &&& forall|q: int| 0 <= q < n ==> #[trigger] rail_kind(w[q], nodes, ground, off)
    &&& forall|k: int| 0 <= k < interior.len() ==> #[trigger] deck_write(w[n + k], interior[k], ground, off)
    &&& forall|a: int, j: int| 1 <= a < nodes.len() && 0 <= j < edge_len(nodes, a)
            ==> #[trigger] rail_written(w, nodes, ground, off, a, j)
    &&& nodes.len() < 2 ==> n == 0
}

/// A bridge: railings along the outline and a deck over every enclosed column, each at
/// its own terrain elevation raised by the offset.
fn bridge(writes: &mut Vec<VoxelWrite>, element: &ProcessedWay, ground: &Ground, interior: &Vec<(i32, i32)>)
    requires
        old(writes)@.len() == 0,
    ensures
        bridge_built(final(writes)@, element.nodes@, *ground, bridge_offset(element.tags), interior@),
{
    let off: i64 = match tag_i32(&element.tags, "level") {
        Some(l) => 3 * l as i64 + 1,
        None => 0,
    };
    let ghost o = bridge_offset(element.tags);
    let nodes = &element.nodes;
    let mut i: usize = 1;
    while i < nodes.len()
        invariant
            1 <= i,
            off == o,
            o == bridge_offset(element.tags),
            -0x2_0000_0000 <= off <= 0x2_0000_0000,
            nodes@.len() < 2 ==> writes@.len() == 0,
            nodes@ == element.nodes@,
            forall|q: int| 0 <= q < writes@.len() ==> #[trigger] rail_kind(writes@[q], nodes@, *ground, o),
            forall|a: int, j: int| 1 <= a < i && a < nodes@.len() && 0 <= j < edge_len(nodes@, a)
                ==> #[trigger] rail_written(writes@, nodes@, *ground, o, a, j),
        decreases nodes@.len() - i,
    {
        let (x, z) = nodes[i];
        let level: i64 = ground.level(x, z) as i64 + off;
        let ghost w0 = writes@;
        trace_edge(writes, nodes, i, Block::StoneBricks, level + 1);
        let ghost w1 = writes@;
        trace_edge(writes, nodes, i, Block::StoneBricks, level);
        proof {
            lemma_extends_trans(w0, w1, writes@);
            assert forall|q: int| 0 <= q < writes@.len() implies #[trigger] rail_kind(writes@[q], nodes@, *ground, o) by {
                if q < w0.len() {
                    assert(writes@[q] == w0[q]);
                } else if q < w1.len() {
                    assert(writes@[q] == w1[q]);
                    assert(on_edge(w1[q], nodes@, i as int, Block::StoneBricks, level + 1));
                    assert(rail_edge(writes@[q], nodes@, *ground, o, i as int));
                } else {
                    assert(on_edge(writes@[q], nodes@, i as int, Block::StoneBricks, level as int));
                    assert(rail_edge(writes@[q], nodes@, *ground, o, i as int));
                }
            }
            assert forall|a: int, j: int| 1 <= a < i + 1 && a < nodes@.len() && 0 <= j < edge_len(nodes@, a)
                implies #[trigger] rail_written(writes@, nodes@, *ground, o, a, j) by {
                let e = ground.level_spec(nodes@[a].0 as int, nodes@[a].1 as int) + o;
                if a < i {
                    assert(rail_written(w0, nodes@, *ground, o, a, j));
                    lemma_keeps_write(w0, writes@, Block::StoneBricks, edge_point(nodes@, a, j).0, e, edge_point(nodes@, a, j).1);
                    lemma_keeps_write(w0, writes@, Block::StoneBricks, edge_point(nodes@, a, j).0, e + 1, edge_point(nodes@, a, j).1);
                } else {
                    assert(edge_written(w1, nodes@, a, j, Block::StoneBricks, e + 1));
                    lemma_keeps_write(w1, writes@, Block::StoneBricks, edge_point(nodes@, a, j).0, e + 1, edge_point(nodes@, a, j).1);
                    assert(edge_written(writes@, nodes@, a, j, Block::StoneBricks, e));
                }
            }
        }
        i = i + 1;
    }
    let ghost wr = writes@;
    let mut k: usize = 0;
    while k < interior.len()
        invariant
            k <= interior@.len(),
            off == o,
            -0x2_0000_0000 <= off <= 0x2_0000_0000,
            writes@.len() == wr.len() + k,
            extends(wr, writes@),
            forall|q: int| 0 <= q < k ==> #[trigger] deck_write(writes@[wr.len() + q], interior@[q], *ground, o),
        decreases interior@.len() - k,
    {
        let (x, z) = interior[k];
        let level: i64 = ground.level(x, z) as i64 + off;
        let ghost before = writes@;
        place(writes, Block::Stone, x as i64, level, z as i64);
        proof {
            assert forall|q: int| 0 <= q < k + 1 implies #[trigger] deck_write(writes@[wr.len() + q], interior@[q], *ground, o) by {
                if q < k {
                    assert(writes@[wr.len() + q] == before[wr.len() + q]);
                }
            }
        }
        k = k + 1;
    }
    proof {
        let n = writes@.len() - interior@.len();
        assert(n == wr.len());
        assert forall|q: int| 0 <= q < n implies #[trigger] rail_kind(writes@[q], nodes@, *ground, o) by {
            assert(writes@[q] == wr[q]);
        }
        assert forall|a: int, j: int| 1 <= a < nodes@.len() && 0 <= j < edge_len(nodes@, a)
            implies #[trigger] rail_written(writes@, nodes@, *ground, o, a, j) by {
            let e = ground.level_spec(nodes@[a].0 as int, nodes@[a].1 as int) + o;
            assert(rail_written(wr, nodes@, *ground, o, a, j));
            lemma_keeps_write(wr, writes@, Block::StoneBricks, edge_point(nodes@, a, j).0, e, edge_point(nodes@, a, j).1);
            lemma_keeps_write(wr, writes@, Block::StoneBricks, edge_point(nodes@, a, j).0, e + 1, edge_point(nodes@, a, j).1);
        }
    }
}

/// The column at `i` appeared earlier in `area`.
fn seen_before(area: &Vec<(i32, i32)>, i: usize) -> (r: bool)
    requires
        i < area@.len(),
    ensures
        r == exists|j: int| 0 <= j < i && #[trigger] area@[j] == area@[i as int],
{
    let mut j: usize = 0;
    while j < i
        invariant
            j <= i < area@.len(),
            forall|q: int| 0 <= q < j ==> #[trigger] area@[q] != area@[i as int],
        decreases i - j,
    {
        if area[j].0 == area[i].0 && area[j].1 == area[i].1 {
            return true;
        }
        j = j + 1;
    }
    false
}

/// The block of the wall at column (x, z) and elevation `h` of a building whose ground
/// floor is at `start`.
pub open spec fn wall_block(p: Palette, corner: bool, x: int, z: int, h: int, start: int) -> Block {
    if corner {
        p.corner
    } else if h > start + 1 && rem(h, 4) != 0 && rem(x + z, 6) < 3 {
        p.window
    } else {
        p.wall
    }
}

/// The `j`-th column of the `i`-th edge of `nodes`.
pub open spec fn edge_point(nodes: Seq<(i32, i32)>, i: int, j: int) -> (int, int) {
    line_point(nodes[i - 1].0 as int, nodes[i - 1].1 as int, nodes[i].0 as int, nodes[i].1 as int, j)
}

/// Number of columns of the `i`-th edge of `nodes`.
pub open spec fn edge_len(nodes: Seq<(i32, i32)>, i: int) -> int {
    line_steps(nodes[i - 1].0 as int, nodes[i - 1].1 as int, nodes[i].0 as int, nodes[i].1 as int) + 1
}

/// The column is an end of its edge.
pub open spec fn edge_corner(nodes: Seq<(i32, i32)>, i: int, j: int) -> bool {
    let p = edge_point(nodes, i, j);
    p == (nodes[i - 1].0 as int, nodes[i - 1].1 as int) || p == (nodes[i].0 as int, nodes[i].1 as int)
}

/// The wall voxel at elevation `h` over the `j`-th column of the `i`-th edge was placed.
pub open spec fn wall_written(s: Seq<VoxelWrite>, nodes: Seq<(i32, i32)>, pal: Palette, start: int, i: int, j: int,
    h: int) -> bool {
    let p = edge_point(nodes, i, j);
    has_write(s, wall_block(pal, edge_corner(nodes, i, j), p.0, p.1, h, start), p.0, h, p.1)
}

/// Every wall voxel of the edges before `upto` was placed.
pub open spec fn walls_done(s: Seq<VoxelWrite>, nodes: Seq<(i32, i32)>, pal: Palette, start: int, height: int,
    upto: int) -> bool {
    forall|i: int, j: int, h: int| 1 <= i < upto && 0 <= j < edge_len(nodes, i) && start + 1 <= h <= start + height
        ==> #[trigger] wall_written(s, nodes, pal, start, i, j, h)
}

/// The capping course (and in winter the snow on it) over the `j`-th column of the
/// `i`-th edge was placed above the wall top `top`.
pub open spec fn cap_written(s: Seq<VoxelWrite>, nodes: Seq<(i32, i32)>, i: int, j: int, top: int, winter: bool) -> bool {
    let p = edge_point(nodes, i, j);
    &&& has_write(s, Block::Cobblestone, p.0, top + 1, p.1)
    &&& winter ==> has_write(s, Block::SnowLayer, p.0, top + 2, p.1)
}

/// Every column of the edges before `upto` has its capping course.
pub open spec fn caps_done(s: Seq<VoxelWrite>, nodes: Seq<(i32, i32)>, top: int, winter: bool, upto: int) -> bool {
    forall|i: int, j: int| 1 <= i < upto && 0 <= j < edge_len(nodes, i) ==> #[trigger] cap_written(s, nodes, i, j, top, winter)
}

/// Every write of `s` from the `n`-th on lies at an elevation in `lo..=hi`.
pub open spec fn ys_within(s: Seq<VoxelWrite>, n: int, lo: int, hi: int) -> bool {
    forall|j: int| n <= j < s.len() ==> lo <= (#[trigger] s[j]).y <= hi
}

proof fn lemma_keeps_cap(s: Seq<VoxelWrite>, t: Seq<VoxelWrite>, nodes: Seq<(i32, i32)>, i: int, j: int, top: int, winter: bool)
    requires
        cap_written(s, nodes, i, j, top, winter),
        extends(s, t),
    ensures
        cap_written(t, nodes, i, j, top, winter),
{
    let p = edge_point(nodes, i, j);
    lemma_keeps_write(s, t, Block::Cobblestone, p.0, top + 1, p.1);
    if winter {
        lemma_keeps_write(s, t, Block::SnowLayer, p.0, top + 2, p.1);
    }
}

/// `w` is one of the writes over the `j`-th column of the `i`-th edge: a wall, window or
/// corner block between `start + 1` and `start + h`, the cap, or the snow on it.
pub open spec fn edge_piece(w: VoxelWrite, nodes: Seq<(i32, i32)>, pal: Palette, start: int, h: int, winter: bool, i: int,
    j: int) -> bool {
    let p = edge_point(nodes, i, j);
    ||| (start + 1 <= w.y <= start + h && is_write(w, wall_block(pal, edge_corner(nodes, i, j), p.0, p.1, w.y as int, start),
            p.0, w.y as int, p.1))
    ||| is_write(w, Block::Cobblestone, p.0, start + h + 1, p.1)
    ||| (winter && is_write(w, Block::SnowLayer, p.0, start + h + 2, p.1))
}

/// `w` is one of the writes over some column of some traced edge.
pub open spec fn edge_kind(w: VoxelWrite, nodes: Seq<(i32, i32)>, pal: Palette, start: int, h: int, winter: bool) -> bool {
    exists|i: int, j: int| 1 <= i < nodes.len() && 0 <= j < edge_len(nodes, i)
        && #[trigger] edge_piece(w, nodes, pal, start, h, winter, i, j)
}

proof fn lemma_keeps_wall(s: Seq<VoxelWrite>, t: Seq<VoxelWrite>, nodes: Seq<(i32, i32)>, pal: Palette, start: int,
    i: int, j: int, h: int)
    requires
        wall_written(s, nodes, pal, start, i, j, h),
        extends(s, t),
    ensures
        wall_written(t, nodes, pal, start, i, j, h),
{
    let p = edge_point(nodes, i, j);
    lemma_keeps_write(s, t, wall_block(pal, edge_corner(nodes, i, j), p.0, p.1, h, start), p.0, h, p.1);
}

/// Walls along the outline: corner blocks at the ends of each edge, windows between the
/// storey lines, and a capping course above.
pub fn walls(writes: &mut Vec<VoxelWrite>, nodes: &Vec<(i32, i32)>, start: i64, height: i64, pal: Palette, winter: bool)
    requires
        -0x10_0000_0000 <= start <= 0x10_0000_0000,
        3 <= height <= 0x200_0000_0000_0000,
    ensures
        extends(old(writes)@, final(writes)@),
        walls_done(final(writes)@, nodes@, pal, start as int, height as int, nodes@.len() as int),
        caps_done(final(writes)@, nodes@, start + height, winter, nodes@.len() as int),
        ys_within(final(writes)@, old(writes)@.len() as int, start + 1, start + height + 2),
        nodes@.len() < 2 ==> final(writes)@ == old(writes)@,
        forall|q: int| old(writes)@.len() <= q < final(writes)@.len() ==> #[trigger] edge_kind(final(writes)@[q], nodes@, pal,
            start as int, height as int, winter),
{
    let top: i64 = start + height;
    let mut i: usize = 1;
    while i < nodes.len()
        invariant
            1 <= i,
            i <= nodes@.len() || nodes@.len() == 0,
            top == start + height,
            -0x10_0000_0000 <= start <= 0x10_0000_0000,
            3 <= height <= 0x200_0000_0000_0000,
            extends(old(writes)@, writes@),
            walls_done(writes@, nodes@, pal, start as int, height as int, i as int),
            caps_done(writes@, nodes@, top as int, winter, i as int),
            ys_within(writes@, old(writes)@.len() as int, start + 1, start + height + 2),
            nodes@.len() < 2 ==> writes@ == old(writes)@,
            forall|q: int| old(writes)@.len() <= q < writes@.len() ==> #[trigger] edge_kind(writes@[q], nodes@, pal, start as int, height as int, winter),
        decreases nodes@.len() - i,
    {
        let (px, pz) = nodes[i - 1];
        let (x, z) = nodes[i];
        let pts: Vec<(i64, i64)> = raster_line(px, pz, x, z);
        let ghost w_i = writes@;
        let mut j: usize = 0;
        while j < pts.len()
            invariant
                j <= pts@.len(),
                1 <= i < nodes@.len(),
                pts@.len() == edge_len(nodes@, i as int),
                forall|q: int| 0 <= q < pts@.len() ==> wide(#[trigger] pts@[q]) == edge_point(nodes@, i as int, q),
                (px, pz) == nodes@[i - 1],
                (x, z) == nodes@[i as int],
                top == start + height,
                -0x10_0000_0000 <= start <= 0x10_0000_0000,
                3 <= height <= 0x200_0000_0000_0000,
                forall|q: int| 0 <= q < pts@.len() ==> -0x2_0000_0000 <= (#[trigger] pts@[q]).0 <= 0x2_0000_0000
                    && -0x2_0000_0000 <= pts@[q].1 <= 0x2_0000_0000,
                extends(old(writes)@, w_i),
                extends(w_i, writes@),
                forall|q: int, h: int| 0 <= q < j && start + 1 <= h <= start + height
                    ==> #[trigger] wall_written(writes@, nodes@, pal, start as int, i as int, q, h),
                forall|q: int| 0 <= q < j ==> #[trigger] cap_written(writes@, nodes@, i as int, q, top as int, winter),
                ys_within(writes@, old(writes)@.len() as int, start + 1, start + height + 2),
                forall|q: int| old(writes)@.len() <= q < writes@.len() ==> #[trigger] edge_kind(writes@[q], nodes@, pal, start as int, height as int, winter),
            decreases pts@.len() - j,
        {
            let (bx, bz) = pts[j];
            assert(wide(pts@[j as int]) == edge_point(nodes@, i as int, j as int));
            let corner: bool = (bx == px as i64 && bz == pz as i64) || (bx == x as i64 && bz == z as i64);
            assert(corner == edge_corner(nodes@, i as int, j as int));
            let ghost w_j = writes@;
            let mut h: i64 = start + 1;
            while h <= top
                invariant
                    start + 1 <= h <= top + 1,
                    top == start + height,
                    -0x10_0000_0000 <= start <= 0x10_0000_0000,
                    3 <= height <= 0x200_0000_0000_0000,
                    -0x2_0000_0000 <= bx <= 0x2_0000_0000,
                    -0x2_0000_0000 <= bz <= 0x2_0000_0000,
                    (bx as int, bz as int) == edge_point(nodes@, i as int, j as int),
                    1 <= i < nodes@.len(),
                    corner == edge_corner(nodes@, i as int, j as int),
                    extends(w_j, writes@),
                    forall|g: int| start + 1 <= g < h ==> #[trigger] wall_written(writes@, nodes@, pal, start as int,
                        i as int, j as int, g),
                    extends(old(writes)@, w_j),
                    ys_within(writes@, old(writes)@.len() as int, start + 1, start + height + 2),
                    forall|q: int| old(writes)@.len() <= q < writes@.len() ==> #[trigger] edge_kind(writes@[q], nodes@, pal, start as int, height as int, winter),
                    1 <= i < nodes@.len(),
                    0 <= j < edge_len(nodes@, i as int),
                decreases top + 1 - h,
            {
                let block: Block = if corner {
                    pal.corner
                } else if h > start + 1 && rem_i64(h, 4) != 0 && rem_i64(bx + bz, 6) < 3 {
                    pal.window
                } else {
                    pal.wall
                };
                let ghost before = writes@;
                place(writes, block, bx, h, bz);
                proof {
                    assert(edge_piece(writes@.last(), nodes@, pal, start as int, height as int, winter, i as int, j as int));
                    assert forall|q: int| old(writes)@.len() <= q < writes@.len() implies #[trigger] edge_kind(writes@[q], nodes@,
                        pal, start as int, height as int, winter) by {
                        if q < before.len() {
                            assert(writes@[q] == before[q]);
                        } else {
                            assert(edge_piece(writes@[q], nodes@, pal, start as int, height as int, winter, i as int, j as int));
                        }
                    }
                    assert forall|g: int| start + 1 <= g < h + 1 implies #[trigger] wall_written(writes@, nodes@, pal,
                        start as int, i as int, j as int, g) by {
                        if g < h {
                            lemma_keeps_wall(before, writes@, nodes@, pal, start as int, i as int, j as int, g);
                        } else {
                            assert(block == wall_block(pal, corner, bx as int, bz as int, h as int, start as int));
                            assert(is_write(writes@[writes@.len() - 1], block, bx as int, h as int, bz as int));
                        }
                    }
                }
                h = h + 1;
            }
            let ghost w_h = writes@;
            place(writes, Block::Cobblestone, bx, top + 1, bz);
            let ghost w_c = writes@;
            if winter {
                place(writes, Block::SnowLayer, bx, top + 2, bz);
            }
            proof {
                assert(has_write(w_c, Block::Cobblestone, bx as int, top + 1, bz as int)) by {
                    assert(is_write(w_c[w_c.len() - 1], Block::Cobblestone, bx as int, top + 1, bz as int));
                }
                lemma_keeps_write(w_c, writes@, Block::Cobblestone, bx as int, top + 1, bz as int);
                if winter {
                    assert(is_write(writes@[writes@.len() - 1], Block::SnowLayer, bx as int, top + 2, bz as int));
                }
                assert(cap_written(writes@, nodes@, i as int, j as int, top as int, winter));
                assert(wide(pts@[j as int]) == edge_point(nodes@, i as int, j as int));
                assert forall|q: int| old(writes)@.len() <= q < writes@.len() implies #[trigger] edge_kind(writes@[q], nodes@,
                    pal, start as int, height as int, winter) by {
                    if q < w_h.len() {
                        assert(writes@[q] == w_h[q]);
                    } else {
                        if q < w_c.len() {
                            assert(writes@[q] == w_c[q]);
                        }
                        assert(edge_piece(writes@[q], nodes@, pal, start as int, height as int, winter, i as int, j as int));
                    }
                }
                assert forall|q: int| 0 <= q < j + 1 implies #[trigger] cap_written(writes@, nodes@, i as int, q, top as int, winter) by {
                    if q < j {
                        lemma_keeps_cap(w_j, writes@, nodes@, i as int, q, top as int, winter);
                    }
                }
                assert forall|q: int, g: int| 0 <= q < j + 1 && start + 1 <= g <= start + height
                    implies #[trigger] wall_written(writes@, nodes@, pal, start as int, i as int, q, g) by {
                    if q < j {
                        lemma_keeps_wall(w_j, writes@, nodes@, pal, start as int, i as int, q, g);
                    } else {
                        lemma_keeps_wall(w_h, writes@, nodes@, pal, start as int, i as int, q, g);
                    }
                }
            }
            j = j + 1;
        }
        proof {
            assert forall|a: int, q: int, g: int| 1 <= a < i + 1 && 0 <= q < edge_len(nodes@, a) && start + 1 <= g <= start + height
                implies #[trigger] wall_written(writes@, nodes@, pal, start as int, a, q, g) by {
                if a < i {
                    lemma_keeps_wall(w_i, writes@, nodes@, pal, start as int, a, q, g);
                }
            }
            assert forall|a: int, q: int| 1 <= a < i + 1 && 0 <= q < edge_len(nodes@, a)
                implies #[trigger] cap_written(writes@, nodes@, a, q, top as int, winter) by {
                if a < i {
                    lemma_keeps_cap(w_i, writes@, nodes@, a, q, top as int, winter);
                }
            }
        }
        i = i + 1;
    }
}

/// Whether the column (x, z) carries a light: both on the six-by-six grid.
pub open spec fn lit_column(x: int, z: int) -> bool {
    rem(x, 6) == 0 && rem(z, 6) == 0
}

/// The storey line `n` (at `start + 6 + 4n`) over (x, z) was placed.
pub open spec fn storey_line(s: Seq<VoxelWrite>, pal: Palette, x: int, z: int, start: int, n: int) -> bool {
    has_write(s, if lit_column(x, z) { Block::Glowstone } else { pal.floor }, x, start + 6 + 4 * n, z)
}

/// The enclosed column (x, z) of a building has its floor, its storey lines with lights,
/// its roof, and in winter snow on the roof.
pub open spec fn column_done(s: Seq<VoxelWrite>, pal: Palette, x: int, z: int, start: int, height: int, winter: bool) -> bool {
    &&& has_write(s, pal.floor, x, start, z)
    &&& has_write(s, pal.floor, x, start + height + 1, z)
    &&& (height > 4 ==> forall|n: int| 0 <= n && start + 6 + 4 * n < start + height
            ==> #[trigger] storey_line(s, pal, x, z, start, n))
    &&& (height <= 4 && lit_column(x, z) ==> has_write(s, Block::Glowstone, x, start + height, z))
    &&& (winter ==> has_write(s, Block::SnowLayer, x, start + height + 2, z))
}

/// `w` is one of the writes over the enclosed column (x, z): the floor, a storey line, the
/// light of a low building, the roof, or the snow on it.
pub open spec fn column_piece(w: VoxelWrite, pal: Palette, x: int, z: int, start: int, h: int, winter: bool) -> bool {
    ||| is_write(w, pal.floor, x, start, z)
    ||| (h > 4 && start + 6 <= w.y < start + h && (w.y - start - 6) % 4 == 0
            && is_write(w, if lit_column(x, z) { Block::Glowstone } else { pal.floor }, x, w.y as int, z))
    ||| (h <= 4 && lit_column(x, z) && is_write(w, Block::Glowstone, x, start + h, z))
    ||| is_write(w, pal.floor, x, start + h + 1, z)
    ||| (winter && is_write(w, Block::SnowLayer, x, start + h + 2, z))
}

/// `w` is a wall, cap or snow write over a traced edge, or a write over an enclosed column.
pub open spec fn building_kind(w: VoxelWrite, nodes: Seq<(i32, i32)>, interior: Seq<(i32, i32)>, pal: Palette, start: int,
    h: int, winter: bool) -> bool {
    edge_kind(w, nodes, pal, start, h, winter) || interior_kind(w, interior, pal, start, h, winter)
}

/// `w` is one of the writes over some enclosed column.
pub open spec fn interior_kind(w: VoxelWrite, interior: Seq<(i32, i32)>, pal: Palette, start: int, h: int, winter: bool) -> bool {
    exists|k: int| 0 <= k < interior.len() && column_piece(w, pal, (#[trigger] interior[k]).0 as int, interior[k].1 as int,
        start, h, winter)
}

proof fn lemma_keeps_column(s: Seq<VoxelWrite>, t: Seq<VoxelWrite>, pal: Palette, x: int, z: int, start: int, height: int,
    winter: bool)
    requires
        column_done(s, pal, x, z, start, height, winter),
        extends(s, t),
    ensures
        column_done(t, pal, x, z, start, height, winter),
{
    lemma_keeps_write(s, t, pal.floor, x, start, z);
    lemma_keeps_write(s, t, pal.floor, x, start + height + 1, z);
    if height > 4 {
        assert forall|n: int| 0 <= n && start + 6 + 4 * n < start + height
            implies #[trigger] storey_line(t, pal, x, z, start, n) by {
            assert(storey_line(s, pal, x, z, start, n));
            lemma_keeps_write(s, t, if lit_column(x, z) { Block::Glowstone } else { pal.floor }, x, start + 6 + 4 * n, z);
        }
    }
    if height <= 4 && lit_column(x, z) {
        lemma_keeps_write(s, t, Block::Glowstone, x, start + height, z);
    }
    if winter {
        lemma_keeps_write(s, t, Block::SnowLayer, x, start + height + 2, z);
    }
}

/// Floor, storey lines with lights, roof and snow over one enclosed column.
fn interior_column(writes: &mut Vec<VoxelWrite>, x: i32, z: i32, start: i64, height: i64, pal: Palette, winter: bool)
    requires
        -0x10_0000_0000 <= start <= 0x10_0000_0000,
        3 <= height <= 0x200_0000_0000_0000,
    ensures
        extends(old(writes)@, final(writes)@),
        column_done(final(writes)@, pal, x as int, z as int, start as int, height as int, winter),
        ys_within(final(writes)@, old(writes)@.len() as int, start as int, start + height + 2),
        forall|q: int| old(writes)@.len() <= q < final(writes)@.len() ==> #[trigger] column_piece(final(writes)@[q], pal,
            x as int, z as int, start as int, height as int, winter),
{
    let top: i64 = start + height;
    place(writes, pal.floor, x as i64, start, z as i64);
    let ghost at_floor = writes@;
    proof {
        assert(is_write(at_floor.last(), pal.floor, x as int, start as int, z as int));
    }
    let lit: bool = rem_i64(x as i64, 6) == 0 && rem_i64(z as i64, 6) == 0;
    assert(column_piece(at_floor.last(), pal, x as int, z as int, start as int, height as int, winter));
    assert(forall|q: int| old(writes)@.len() <= q < writes@.len() ==> #[trigger] column_piece(writes@[q], pal,
        x as int, z as int, start as int, height as int, winter));
    let ghost line_block = if lit { Block::Glowstone } else { pal.floor };
    assert(lit == lit_column(x as int, z as int));
    if height > 4 {
        let mut h: i64 = start + 6;
        while h < top
            invariant
                start + 6 <= h <= top + 3,
                (h - start - 6) % 4 == 0,
                top == start + height,
                -0x10_0000_0000 <= start <= 0x10_0000_0000,
                3 <= height <= 0x200_0000_0000_0000,
                extends(old(writes)@, at_floor),
                extends(at_floor, writes@),
                has_write(writes@, pal.floor, x as int, start as int, z as int),
                line_block == (if lit_column(x as int, z as int) { Block::Glowstone } else { pal.floor }),
                lit == lit_column(x as int, z as int),
                ys_within(writes@, old(writes)@.len() as int, start as int, start + height + 2),
                forall|q: int| old(writes)@.len() <= q < writes@.len() ==> #[trigger] column_piece(writes@[q], pal, x as int, z as int, start as int, height as int, winter),
                forall|n: int| 0 <= n && start + 6 + 4 * n < h ==> #[trigger] storey_line(writes@, pal, x as int, z as int,
                    start as int, n),
            decreases top + 3 - h,
        {
            let ghost before = writes@;
            place(writes, if lit { Block::Glowstone } else { pal.floor }, x as i64, h, z as i64);
            proof {
                assert forall|q: int| old(writes)@.len() <= q < writes@.len() implies #[trigger] column_piece(writes@[q], pal,
                    x as int, z as int, start as int, height as int, winter) by {
                    if q < before.len() {
                        assert(writes@[q] == before[q]);
                    } else {
                        assert(is_write(writes@[q], line_block, x as int, h as int, z as int));
                    }
                }
                lemma_keeps_write(before, writes@, pal.floor, x as int, start as int, z as int);
                assert forall|n: int| 0 <= n && start + 6 + 4 * n < h + 4 implies #[trigger] storey_line(writes@, pal,
                    x as int, z as int, start as int, n) by {
                    if start + 6 + 4 * n < h {
                        assert(storey_line(before, pal, x as int, z as int, start as int, n));
                        lemma_keeps_write(before, writes@, line_block, x as int, start + 6 + 4 * n, z as int);
                    } else {
                        assert(start + 6 + 4 * n == h);
                        assert(is_write(writes@[writes@.len() - 1], line_block, x as int, h as int, z as int));
                    }
                }
            }
            h = h + 4;
        }
    } else if lit {
        place(writes, Block::Glowstone, x as i64, top, z as i64);
        proof {
            lemma_keeps_write(at_floor, writes@, pal.floor, x as int, start as int, z as int);
            assert(is_write(writes@.last(), Block::Glowstone, x as int, top as int, z as int));
        }
    }
    let ghost before_cap = writes@;
    assert(extends(at_floor, before_cap));
    assert(forall|q: int| old(writes)@.len() <= q < before_cap.len() ==> #[trigger] column_piece(before_cap[q], pal,
        x as int, z as int, start as int, height as int, winter));
    place(writes, pal.floor, x as i64, top + 1, z as i64);
    let ghost after_cap = writes@;
    if winter {
        place(writes, Block::SnowLayer, x as i64, top + 2, z as i64);
    }
    proof {
        assert(has_write(before_cap, pal.floor, x as int, start as int, z as int)) by {
            lemma_keeps_write(at_floor, before_cap, pal.floor, x as int, start as int, z as int);
        }
        assert(is_write(after_cap.last(), pal.floor, x as int, top + 1, z as int));
        assert(has_write(after_cap, pal.floor, x as int, top + 1, z as int));
        if height <= 4 && lit {
            assert(has_write(before_cap, Block::Glowstone, x as int, top as int, z as int));
        }
        if winter {
            assert(is_write(writes@.last(), Block::SnowLayer, x as int, top + 2, z as int));
        }
        let c = column_done(before_cap, pal, x as int, z as int, start as int, height as int, false);
        lemma_keeps_write(before_cap, writes@, pal.floor, x as int, start as int, z as int);
        lemma_keeps_write(after_cap, writes@, pal.floor, x as int, top + 1, z as int);
        if height <= 4 && lit {
            lemma_keeps_write(before_cap, writes@, Block::Glowstone, x as int, top as int, z as int);
        }
        if height > 4 {
            assert forall|n: int| 0 <= n && start + 6 + 4 * n < start + height implies #[trigger] storey_line(writes@, pal,
                x as int, z as int, start as int, n) by {
                assert(storey_line(before_cap, pal, x as int, z as int, start as int, n));
                lemma_keeps_write(before_cap, writes@, line_block, x as int, start + 6 + 4 * n, z as int);
            }
        }
    }
    proof {
        assert forall|q: int| old(writes)@.len() <= q < writes@.len() implies #[trigger] column_piece(writes@[q], pal,
            x as int, z as int, start as int, height as int, winter) by {
            if q < at_floor.len() {
                assert(writes@[q] == at_floor[q]);
                assert(q == at_floor.len() - 1);
            } else if q < before_cap.len() {
                assert(writes@[q] == before_cap[q]);
            } else if q < after_cap.len() {
                assert(writes@[q] == after_cap[q]);
            }
        }
    }
}

/// Walls with windows along the outline; when an edge was traced, also floors, storey
/// ceilings with lights and a roof over the enclosed columns.
pub fn building(writes: &mut Vec<VoxelWrite>, nodes: &Vec<(i32, i32)>, interior: &Vec<(i32, i32)>, start: i64,
    height: i64, pal: Palette, winter: bool)
    requires
        -0x10_0000_0000 <= start <= 0x10_0000_0000,
        3 <= height <= 0x200_0000_0000_0000,
    ensures
        extends(old(writes)@, final(writes)@),
        walls_done(final(writes)@, nodes@, pal, start as int, height as int, nodes@.len() as int),
        caps_done(final(writes)@, nodes@, start + height, winter, nodes@.len() as int),
        ys_within(final(writes)@, old(writes)@.len() as int, start as int, start + height + 2),
        nodes@.len() >= 2 ==> forall|k: int| 0 <= k < interior@.len() ==> #[trigger] column_done(final(writes)@, pal,
            interior@[k].0 as int, interior@[k].1 as int, start as int, height as int, winter),
        nodes@.len() < 2 ==> final(writes)@ == old(writes)@,
        forall|q: int| old(writes)@.len() <= q < final(writes)@.len() ==> #[trigger] building_kind(final(writes)@[q], nodes@, interior@, pal, start as int, height as int, winter),
{
    let top: i64 = start + height;
    walls(writes, nodes, start, height, pal, winter);
    let ghost ww = writes@;
    assert forall|q: int| old(writes)@.len() <= q < writes@.len() implies #[trigger] building_kind(writes@[q], nodes@, interior@, pal, start as int, height as int, winter) by {
        assert(edge_kind(writes@[q], nodes@, pal, start as int, height as int, winter));
    }
    if nodes.len() < 2 {
        assert(writes@ =~= old(writes)@);
        return;
    }
    let mut k: usize = 0;
    while k < interior.len()
        invariant
            k <= interior@.len(),
            top == start + height,
            -0x10_0000_0000 <= start <= 0x10_0000_0000,
            3 <= height <= 0x200_0000_0000_0000,
            extends(old(writes)@, ww),
            extends(ww, writes@),
            ys_within(writes@, old(writes)@.len() as int, start as int, start + height + 2),
            forall|q: int| old(writes)@.len() <= q < writes@.len() ==> #[trigger] building_kind(writes@[q], nodes@, interior@, pal, start as int, height as int, winter),
            forall|q: int| 0 <= q < k ==> #[trigger] column_done(writes@, pal,
                interior@[q].0 as int, interior@[q].1 as int, start as int, height as int, winter),
        decreases interior@.len() - k,
    {
        let ghost before = writes@;
        let (x, z) = interior[k];
        let seen: bool = seen_before(interior, k);
        if !seen {
            interior_column(writes, x, z, start, height, pal, winter);
            proof {
                assert forall|q: int| old(writes)@.len() <= q < writes@.len() implies #[trigger] building_kind(writes@[q], nodes@, interior@, pal, start as int, height as int, winter) by {
                    if q < before.len() {
                        assert(writes@[q] == before[q]);
                    } else {
                        assert(column_piece(writes@[q], pal, interior@[k as int].0 as int, interior@[k as int].1 as int,
                            start as int, height as int, winter));
                    }
                }
            }
        }
        proof {
            assert forall|q: int| 0 <= q < k + 1 implies #[trigger] column_done(writes@, pal,
                interior@[q].0 as int, interior@[q].1 as int, start as int, height as int, winter) by {
                if q < k {
                    lemma_keeps_column(before, writes@, pal, interior@[q].0 as int, interior@[q].1 as int,
                        start as int, height as int, winter);
                } else if seen {
                    let j = choose|j: int| 0 <= j < k && #[trigger] interior@[j] == interior@[k as int];
                    assert(column_done(writes@, pal, interior@[j].0 as int, interior@[j].1 as int, start as int,
                        height as int, winter));
                }
            }
        }
        k = k + 1;
    }
    proof {
        assert forall|a: int, q: int, g: int| 1 <= a < nodes@.len() && 0 <= q < edge_len(nodes@, a)
            && start + 1 <= g <= start + height
            implies #[trigger] wall_written(writes@, nodes@, pal, start as int, a, q, g) by {
            lemma_keeps_wall(ww, writes@, nodes@, pal, start as int, a, q, g);
        }
        assert forall|a: int, q: int| 1 <= a < nodes@.len() && 0 <= q < edge_len(nodes@, a)
            implies #[trigger] cap_written(writes@, nodes@, a, q, top as int, winter) by {
            lemma_keeps_cap(ww, writes@, nodes@, a, q, top as int, winter);
        }
    }
}

/// What the writes `w` of one footprint consist of, per structure, with ground floor at
/// `start`, height `h` and the lowest terrain `m` under the outline.
pub open spec fn structure_built(w: Seq<VoxelWrite>, element: ProcessedWay, ground: Ground, winter: bool,
    interior: Seq<(i32, i32)>, m: int, start: int, h: int) -> bool {
    let nodes = element.nodes@;
    let tags = element.tags;
    match structure_spec(tags) {
        Structure::Shelter => {
            &&& only_blocks(w, 0, Block::OakFence, Block::StoneBrickSlab)
            &&& forall|i: int| 0 <= i < nodes.len() ==> #[trigger] post_written(w, nodes, i, m, Block::OakFence,
                    Block::StoneBrickSlab)
            &&& covered(w, interior, Block::StoneBrickSlab, m + 5)
            &&& forall|q: int| 0 <= q < w.len() ==> #[trigger] shelter_kind(w[q], nodes, interior, m)
        },
        Structure::BikeShed => {
            &&& covered(w, interior, Block::OakPlanks, m)
            &&& forall|i: int| 0 <= i < nodes.len() ==> #[trigger] post_written(w, nodes, i, m, Block::OakFence,
                    Block::StoneBlockSlab)
            &&& covered(w, interior, Block::StoneBlockSlab, m + 5)
            &&& forall|q: int| 0 <= q < w.len() ==> #[trigger] shed_kind(w[q], nodes, interior, m)
        },
        Structure::Parking => parking_built(w, nodes, interior, m, h),
        Structure::Roof => {
            &&& edges_written(w, nodes, Block::StoneBrickSlab, m + 5, nodes.len() as int)
            &&& forall|i: int| 0 <= i < nodes.len() ==> #[trigger] stack_written(w, Block::CobblestoneWall,
                    nodes[i].0 as int, nodes[i].1 as int, m + 1, m + 4)
            &&& covered(w, interior, Block::StoneBrickSlab, m + 5)
            &&& ys_within(w, 0, m + 1, m + 5)
            &&& forall|q: int| 0 <= q < w.len() ==> #[trigger] roof_kind(w[q], nodes, interior, m)
        },
        Structure::Bridge => bridge_built(w, nodes, ground, bridge_offset(tags), interior),
        Structure::Building => exists|p: Palette| #[trigger] building_built(w, nodes, interior, tags, p, start, h, winter),
    }
}

/// The writes `w` are a building with palette `p` that the tags allow.
pub open spec fn building_built(w: Seq<VoxelWrite>, nodes: Seq<(i32, i32)>, interior: Seq<(i32, i32)>, tags: Tags,
    p: Palette, start: int, h: int, winter: bool) -> bool {
    &&& palette_ok(tags, p)
    &&& walls_done(w, nodes, p, start, h, nodes.len() as int)
    &&& caps_done(w, nodes, start + h, winter, nodes.len() as int)
    &&& ys_within(w, 0, start, start + h + 2)
    &&& nodes.len() >= 2 ==> forall|k: int| 0 <= k < interior.len() ==> #[trigger] column_done(w, p,
            interior[k].0 as int, interior[k].1 as int, start, h, winter)
    &&& nodes.len() < 2 ==> w.len() == 0
    &&& forall|q: int| 0 <= q < w.len() ==> #[trigger] building_kind(w[q], nodes, interior, p, start, h, winter)
}

/// The writes `w` are what one footprint gives: nothing without nodes or below ground,
/// else its structure at the elevations and height that its tags derive.
pub open spec fn footprint_built(w: Seq<VoxelWrite>, element: ProcessedWay, ground: Ground, args: Args,
    relation_levels: Option<int>, interior: Seq<(i32, i32)>) -> bool {
    if element.nodes@.len() == 0 || rejected_spec(element.tags) {
        w.len() == 0
    } else {
        let m = ground.min_spec(element.nodes@);
        structure_built(w, element, ground, args.winter, interior, m,
            m + 4 * crate::params::min_level_spec(element.tags),
            crate::plan::final_height(element.tags, args.scale_milli as int, relation_levels))
    }
}

/// Synthesizes the structure of one footprint. `interior` holds the columns that the
/// outline encloses; `relation_levels` is the level count of an enclosing relation.
/// Nothing is placed for a footprint without nodes or one below ground.
pub fn generate_buildings(writes: &mut Vec<VoxelWrite>, element: &ProcessedWay, ground: &Ground, args: &Args,
    relation_levels: Option<i32>, interior: &Vec<(i32, i32)>)
    ensures
        final(writes)@.len() >= old(writes)@.len(),
        final(writes)@.subrange(0, old(writes)@.len() as int) == old(writes)@,
        footprint_built(final(writes)@.subrange(old(writes)@.len() as int, final(writes)@.len() as int), *element,
            *ground, *args, opt_int(relation_levels), interior@),
{
    let mut local: Vec<VoxelWrite> = Vec::new();
    build_footprint(&mut local, element, ground, args, relation_levels, interior);
    let ghost w = local@;
    let ghost o = writes@;
    writes.append(&mut local);
    assert(writes@.subrange(0, o.len() as int) =~= o);
    assert(writes@.subrange(o.len() as int, writes@.len() as int) =~= w);
}

fn build_footprint(w: &mut Vec<VoxelWrite>, element: &ProcessedWay, ground: &Ground, args: &Args,
    relation_levels: Option<i32>, interior: &Vec<(i32, i32)>)
    requires
        old(w)@.len() == 0,
    ensures
        footprint_built(final(w)@, *element, *ground, *args, opt_int(relation_levels), interior@),
{
    let base: i32 = match ground.min_level(&element.nodes) {
        Some(b) => b,
        None => return,
    };
    let plan: Plan = match derive_plan(&element.tags, base, args.scale_milli, relation_levels) {
        Some(p) => p,
        None => return,
    };
    let g: i64 = base as i64;
    match plan.structure {
        Structure::Shelter => shelter(w, &element.nodes, interior, g),
        Structure::BikeShed => bike_shed(w, &element.nodes, interior, g),
        Structure::Parking => parking(w, &element.nodes, interior, g, plan.height),
        Structure::Roof => roof(w, &element.nodes, interior, g),
        Structure::Bridge => bridge(w, element, ground, interior),
        Structure::Building => {
            let pal: Palette = random_palette(&element.tags);
            building(w, &element.nodes, interior, plan.start, plan.height, pal, args.winter);
            assert(building_built(w@, element.nodes@, interior@, element.tags, pal, plan.start as int,
                plan.height as int, args.winter));
        },
    }
}

/// The level count of a relation: its `building:levels`, else 2.
pub open spec fn relation_levels_spec(tags: Tags) -> int {
    match crate::params::tag_int(tags, "building:levels"@) {
        Some(l) => l,
        None => 2,
    }
}

/// The level count of a relation: its `building:levels`, else 2.
pub fn relation_levels(tags: &Tags) -> (r: i32)
    ensures
        r == relation_levels_spec(*tags),
{
    match tag_i32(tags, "building:levels") {
        Some(l) => l,
        None => 2,
    }
}

proof fn lemma_cuts_grow(c: Seq<int>, a: int, b: int)
    requires
        0 <= a <= b < c.len(),
        forall|q: int| 0 <= q < c.len() - 1 ==> c[q] <= #[trigger] c[q + 1],
    ensures
        c[a] <= c[b],
    decreases b - a,
{
    if a < b {
        lemma_cuts_grow(c, a, b - 1);
        assert(c[b - 1] <= c[b - 1 + 1]);
    }
}

/// `cuts` splits `s` into one segment per member of `ms`, in order: an outer member's
/// segment is its footprint with the relation's level count, any other member's is empty.
pub open spec fn relation_split(s: Seq<VoxelWrite>, ms: Seq<ProcessedMember>, ground: Ground, args: Args, levels: int,
    cuts: Seq<int>) -> bool {
    &&& cuts.len() == ms.len() + 1
    &&& cuts[0] == 0
    &&& cuts.last() == s.len()
    &&& forall|i: int| 0 <= i < ms.len() ==> cuts[i] <= #[trigger] cuts[i + 1]
    &&& forall|i: int| 0 <= i < ms.len() ==> #[trigger] segment_built(s, ms[i], ground, args, levels, cuts[i], cuts[i + 1])
}

/// The writes `s[lo..hi]` are what the member `m` of a relation gives.
pub open spec fn segment_built(s: Seq<VoxelWrite>, m: ProcessedMember, ground: Ground, args: Args, levels: int, lo: int,
    hi: int) -> bool {
    if m.role == ProcessedMemberRole::Outer {
        footprint_built(s.subrange(lo, hi), m.way, ground, args, Some(levels), m.interior@)
    } else {
        lo == hi
    }
}

/// Synthesizes every outer way of a relation, in order, with the relation's level count;
/// other members place nothing.
pub fn generate_building_from_relation(writes: &mut Vec<VoxelWrite>, relation: &ProcessedRelation, ground: &Ground,
    args: &Args)
    ensures
        final(writes)@.len() >= old(writes)@.len(),
        final(writes)@.subrange(0, old(writes)@.len() as int) == old(writes)@,
        exists|cuts: Seq<int>| #[trigger] relation_split(final(writes)@.subrange(old(writes)@.len() as int,
            final(writes)@.len() as int), relation.members@, *ground, *args, relation_levels_spec(relation.tags), cuts),
{
    let levels: i32 = relation_levels(&relation.tags);
    let ghost o = writes@;
    let ghost mut cuts: Seq<int> = seq![0int];
    let mut i: usize = 0;
    while i < relation.members.len()
        invariant
            i <= relation.members@.len(),
            o == old(writes)@,
            levels == relation_levels_spec(relation.tags),
            writes@.len() >= o.len(),
            writes@.subrange(0, o.len() as int) == o,
            cuts.len() == i + 1,
            cuts[0] == 0,
            cuts.last() == writes@.len() - o.len(),
            forall|q: int| 0 <= q < i ==> cuts[q] <= #[trigger] cuts[q + 1],
            forall|q: int| 0 <= q < i ==> #[trigger] segment_built(writes@.subrange(o.len() as int, writes@.len() as int),
                relation.members@[q], *ground, *args, levels as int, cuts[q], cuts[q + 1]),
        decreases relation.members@.len() - i,
    {
        let m: &ProcessedMember = &relation.members[i];
        let ghost before = writes@;
        let ghost c0 = cuts;
        if m.role == ProcessedMemberRole::Outer {
            generate_buildings(writes, &m.way, ground, args, Some(levels), &m.interior);
        }
        proof {
            cuts = c0.push(writes@.len() - o.len());
            let s0 = before.subrange(o.len() as int, before.len() as int);
            let s = writes@.subrange(o.len() as int, writes@.len() as int);
            assert(writes@.subrange(0, o.len() as int) =~= before.subrange(0, o.len() as int));
            assert forall|q: int| 0 <= q < i + 1 implies cuts[q] <= #[trigger] cuts[q + 1] by {
                if q < i {
                    assert(cuts[q] == c0[q] && cuts[q + 1] == c0[q + 1]);
                }
            }
            assert forall|q: int| 0 <= q < i + 1 implies #[trigger] segment_built(s, relation.members@[q], *ground, *args,
                levels as int, cuts[q], cuts[q + 1]) by {
                if q < i {
                    assert(segment_built(s0, relation.members@[q], *ground, *args, levels as int, c0[q], c0[q + 1]));
                    lemma_cuts_grow(c0, q + 1, i as int);
                    lemma_cuts_grow(c0, 0, q);
                    assert(c0[q] <= c0[q + 1]);
                    assert(s.subrange(c0[q], c0[q + 1]) =~= s0.subrange(c0[q], c0[q + 1]));
                } else {
                    assert(s.subrange(c0.last(), s.len() as int) =~= writes@.subrange(before.len() as int, writes@.len() as int));
                }
            }
        }
        i = i + 1;
    }
    proof {
        let s = writes@.subrange(o.len() as int, writes@.len() as int);
        assert(relation_split(s, relation.members@, *ground, *args, levels as int, cuts));
    }
}

/// A map node: its column and its tags.
pub struct ProcessedNode {
    pub x: i32,
    pub z: i32,
    pub tags: Tags,
}

/// Whether a node is a door or entrance on the ground level.
pub open spec fn is_ground_door(tags: Tags) -> bool {
    (tags.get_spec("door"@) is Some || tags.get_spec("entrance"@) is Some)
    && !(crate::params::tag_int(tags, "level"@) matches Some(l) && l != 0)
}

/// A door at a door or entrance node on the ground level: paving on the ground and a
/// two-block door above it.
#[verifier::rlimit(40)]
pub fn generate_doors(writes: &mut Vec<VoxelWrite>, element: &ProcessedNode, ground: &Ground)
    ensures
        !is_ground_door(element.tags) ==> final(writes)@ == old(writes)@,
        is_ground_door(element.tags) ==> {
            let g = ground.level_spec(element.x as int, element.z as int);
            &&& final(writes)@.len() == old(writes)@.len() + 3
            &&& extends(old(writes)@, final(writes)@)
            &&& is_write(final(writes)@[old(writes)@.len() as int], Block::GrayConcrete, element.x as int, g, element.z as int)
            &&& is_write(final(writes)@[old(writes)@.len() as int + 1], Block::DarkOakDoorLower, element.x as int, g + 1, element.z as int)
            &&& is_write(final(writes)@[old(writes)@.len() as int + 2], Block::DarkOakDoorUpper, element.x as int, g + 2, element.z as int)
        },
{
    if element.tags.get("door").is_none() && element.tags.get("entrance").is_none() {
        return;
    }
    match tag_i32(&element.tags, "level") {
        Some(l) => if l != 0 {
            return;
        },
        None => {},
    }
    let g: i64 = ground.level(element.x, element.z) as i64;
    place(writes, Block::GrayConcrete, element.x as i64, g, element.z as i64);
    place(writes, Block::DarkOakDoorLower, element.x as i64, g + 1, element.z as i64);
    place(writes, Block::DarkOakDoorUpper, element.x as i64, g + 2, element.z as i64);
}

} // verus!
