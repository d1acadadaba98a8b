//! Voxels, chunks, and building a chunk's voxels from its column heights.
use crate::wire::{le_i32, le_u32, push_i32, push_u32};
use vstd::prelude::*;

verus! {

/// Side length of a chunk, in voxels, along x and along z.
pub const CHUNK_SIZE: usize = 64;

/// Height of a chunk, in voxels.
pub const CHUNK_HEIGHT: usize = 256;

/// Number of terrain columns in a chunk: `CHUNK_SIZE * CHUNK_SIZE`.
pub const COLUMN_COUNT: usize = 4096;

/// Number of voxels in a chunk: `CHUNK_SIZE * CHUNK_SIZE * CHUNK_HEIGHT`.
pub const CHUNK_VOLUME: usize = 1048576;

/// Lowest terrain floor a column can have.
pub const MIN_FLOOR: u32 = 99;

/// Seed of the noise field that terrain heights are sampled from.
pub const WORLD_SEED: u32 = 123456789;

/// Material id of empty space.
pub const AIR: u8 = 0;

/// Material id of solid ground.
pub const SOLID: u8 = 1;

/// Tag byte that opens the uncompressed chunk dump of [`Chunk::to_bytes`].
pub const RAW_CHUNK_TAG: u8 = 1;

/// One voxel: its linear position in the chunk and its material id.
#[derive(Clone, Copy, Debug)]
pub struct Voxel {
    pub index: u32,
    pub id: u8,
}

impl Voxel {
    pub fn new(index: u32, id: u8) -> (v: Voxel)
        ensures
            v.index == index,
            v.id == id,
    {
        Voxel { index, id }
    }
}

/// A column of voxels at chunk coordinates `coords = (x, z)`.
pub struct Chunk {
    pub coords: (i32, i32),
    pub voxels: Vec<Voxel>,
}

/// Linear index of the voxel at column `(x, z)` and height `y`:
/// y outermost, then x, then z.
pub open spec fn voxel_index(x: int, y: int, z: int) -> int {
    y * (COLUMN_COUNT as int) + x * (CHUNK_SIZE as int) + z
}

/// Height (y) of the voxel with linear index `i`.
pub open spec fn voxel_y(i: int) -> int {
    i / (COLUMN_COUNT as int)
}

/// Column `x * CHUNK_SIZE + z` of the voxel with linear index `i`.
pub open spec fn voxel_column(i: int) -> int {
    i % (COLUMN_COUNT as int)
}

/// Material of voxel `i` over the floor heights `heights` (one per column,
/// indexed `x * CHUNK_SIZE + z`): solid up to and including the floor,
/// air above it.
pub open spec fn terrain_id(heights: Seq<u32>, i: int) -> u8 {
    if voxel_y(i) <= heights[voxel_column(i)] as int {
        SOLID
    } else {
        AIR
    }
}

/// Bytes of one voxel in the uncompressed dump: its index, then its id.
pub open spec fn voxel_record(v: Voxel) -> Seq<u8> {
    le_u32(v.index).push(v.id)
}

/// Bytes of a voxel sequence in the uncompressed dump.
pub open spec fn voxel_records(vs: Seq<Voxel>) -> Seq<u8>
    decreases vs.len(),
{
    if vs.len() == 0 {
        Seq::empty()
    } else {
        voxel_records(vs.drop_last()) + voxel_record(vs.last())
    }
}

/// The voxel at column `(x, z)` and height `y` of a chunk built over
/// `heights` is solid exactly when `y` is at most that column's floor.
pub proof fn lemma_terrain_column(heights: Seq<u32>, x: int, y: int, z: int)
    requires
        0 <= x < CHUNK_SIZE,
        0 <= z < CHUNK_SIZE,
        0 <= y < CHUNK_HEIGHT,
    ensures
        0 <= voxel_index(x, y, z) < CHUNK_VOLUME,
        voxel_y(voxel_index(x, y, z)) == y,
        voxel_column(voxel_index(x, y, z)) == x * (CHUNK_SIZE as int) + z,
        terrain_id(heights, voxel_index(x, y, z)) == if y <= heights[x * (CHUNK_SIZE as int) + z] {
            SOLID
        } else {
            AIR
        },
{
    let col = x * 64 + z;
    assert(0 <= col < 4096) by (nonlinear_arith)
        requires
            0 <= x < 64,
            0 <= z < 64,
            col == x * 64 + z,
    ;
    assert(0 <= y * 4096 + col < 1048576) by (nonlinear_arith)
        requires
            0 <= y < 256,
            0 <= col < 4096,
    ;
    vstd::arithmetic::div_mod::lemma_fundamental_div_mod_converse(y * 4096 + col, 4096, y, col);
}

/// `c` is the chunk at `(x, z)` over the floor heights `heights`: it has its
/// fixed size, each voxel knows its position, and each voxel's material is
/// the terrain's at that position.
pub open spec fn is_terrain_chunk(c: &Chunk, x: i32, z: i32, heights: Seq<u32>) -> bool {
    &&& c.coords == (x, z)
    &&& c.wf()
    &&& forall|i: int| 0 <= i < CHUNK_VOLUME ==> #[trigger] c.voxels@[i].id == terrain_id(heights, i)
}

/// A chunk is determined by its coordinates and floor heights: two chunks
/// built for the same ones hold the same voxels, `CHUNK_VOLUME` of them.
pub proof fn lemma_terrain_chunk_determined(
    c1: &Chunk,
    c2: &Chunk,
    x: i32,
    z: i32,
    heights: Seq<u32>,
)
    requires
        is_terrain_chunk(c1, x, z, heights),
        is_terrain_chunk(c2, x, z, heights),
    ensures
        c1.voxels@ == c2.voxels@,
        c1.voxels@.len() == CHUNK_SIZE * CHUNK_SIZE * CHUNK_HEIGHT,
{
    assert forall|i: int| 0 <= i < c1.voxels@.len() implies #[trigger] c1.voxels@[i] == c2.voxels@[i] by {
        assert(c1.voxels@[i].index == c2.voxels@[i].index);
        assert(c1.voxels@[i].id == c2.voxels@[i].id);
    }
    assert(c1.voxels@ =~= c2.voxels@);
}

impl Chunk {
    /// The voxel sequence has its fixed size, each voxel knows its own
    /// position, and each is air or solid.
    pub open spec fn wf(&self) -> bool {
        &&& self.voxels@.len() == CHUNK_VOLUME
        &&& forall|i: int| 0 <= i < self.voxels@.len() ==> #[trigger] self.voxels@[i].index == i
        &&& forall|i: int|
            0 <= i < self.voxels@.len() ==> (#[trigger] self.voxels@[i]).id == AIR
                || self.voxels@[i].id == SOLID
    }

    /// The material ids of the voxels, in storage order.
    pub open spec fn ids(&self) -> Seq<u8> {
        self.voxels@.map_values(|v: Voxel| v.id)
    }

    /// Builds the chunk at `(x, z)` whose column `c = x * CHUNK_SIZE + z` has
    /// its floor at `height_map[c]`.
    pub fn from_height_map(x: i32, z: i32, height_map: &Vec<u32>) -> (c: Chunk)
        requires
            height_map@.len() == COLUMN_COUNT,
        ensures
            is_terrain_chunk(&c, x, z, height_map@),
    {
        let mut voxels: Vec<Voxel> = Vec::with_capacity(CHUNK_VOLUME);
        let mut i: usize = 0;
        while i < CHUNK_VOLUME
            invariant
                i <= CHUNK_VOLUME,
                height_map@.len() == COLUMN_COUNT,
                voxels@.len() == i,
                forall|j: int| 0 <= j < i ==> #[trigger] voxels@[j].index == j,
                forall|j: int| 0 <= j < i ==> #[trigger] voxels@[j].id == terrain_id(height_map@, j),
            decreases CHUNK_VOLUME - i,
        {
            let y = i / COLUMN_COUNT;
            let floor = height_map[i % COLUMN_COUNT];
            let id = if y as u32 <= floor {
                SOLID
            } else {
                AIR
            };
            voxels.push(Voxel::new(i as u32, id));
            i = i + 1;
        }
        Chunk { coords: (x, z), voxels }
    }

    /// Uncompressed dump: the tag byte, the coordinates, then each voxel's
    /// index and id.
    pub fn to_bytes(&self) -> (r: Vec<u8>)
        ensures
            r@ == seq![RAW_CHUNK_TAG] + le_i32(self.coords.0) + le_i32(self.coords.1)
                + voxel_records(self.voxels@),
    {
        let mut buffer: Vec<u8> = Vec::new();
        buffer.push(RAW_CHUNK_TAG);
        push_i32(&mut buffer, self.coords.0);
        push_i32(&mut buffer, self.coords.1);
        let ghost head = buffer@;
        let mut k: usize = 0;
        while k < self.voxels.len()
            invariant
                k <= self.voxels@.len(),
                buffer@ == head + voxel_records(self.voxels@.take(k as int)),
            decreases self.voxels@.len() - k,
        {
            let v = self.voxels[k];
            push_u32(&mut buffer, v.index);
            buffer.push(v.id);
            proof {
                let vs = self.voxels@.take(k + 1);
                assert(vs.drop_last() =~= self.voxels@.take(k as int));
                assert(buffer@ =~= head + voxel_records(vs));
            }
            k = k + 1;
        }
        assert(self.voxels@.take(k as int) =~= self.voxels@);
        buffer
    }
}

} // verus!
