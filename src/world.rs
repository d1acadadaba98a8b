//! The world store: generated chunks by coordinates, players by id, and the
//! spawn point.
use crate::chunk::{voxel_index, Chunk, AIR, CHUNK_HEIGHT, COLUMN_COUNT, CHUNK_SIZE};
use crate::protocol::Vec3;
use crate::rle::{chunk_data_body, rle};
use crate::wire::framed;
use std::collections::HashMap;
use vstd::prelude::*;

verus! {

/// Chunks generated at startup: `x` and `z` each in `0..START_AREA`.
pub const START_AREA: i32 = 2;

/// Column of chunk `(0, 0)` that the spawn search climbs, along x.
pub const SPAWN_COLUMN_X: usize = 31;

/// Column of chunk `(0, 0)` that the spawn search climbs, along z.
pub const SPAWN_COLUMN_Z: usize = 31;

/// Key of the chunk at `(x, z)` in the chunk map: the two's-complement
/// forms of `x` and `z` side by side.
pub open spec fn chunk_key(x: i32, z: i32) -> u64 {
    ((x as u32 as u64) << 32u64) | (z as u32 as u64)
}

/// Distinct coordinates have distinct keys.
pub proof fn lemma_chunk_key_injective(x1: i32, z1: i32, x2: i32, z2: i32)
    ensures
        chunk_key(x1, z1) == chunk_key(x2, z2) <==> (x1 == x2 && z1 == z2),
{
    assert(((x1 as u32 as u64) << 32u64) | (z1 as u32 as u64) == ((x2 as u32 as u64) << 32u64) | (
    z2 as u32 as u64) <==> (x1 == x2 && z1 == z2)) by (bit_vector);
}

pub(crate) fn key_of(x: i32, z: i32) -> (k: u64)
    ensures
        k == chunk_key(x, z),
{
    ((x as u32 as u64) << 32u64) | (z as u32 as u64)
}

/// A connected player, as the world records it.
#[derive(Clone, Copy, Debug)]
pub struct Player {
    pub id: u32,
    pub position: Vec3,
    pub state: u32,
}

impl Player {
    pub fn new(id: u32, position: Vec3, state: u32) -> (p: Player)
        ensures
            p.id == id,
            p.position == position,
            p.state == state,
    {
        Player { id, position, state }
    }
}

/// Air at height `y` of the spawn column.
pub open spec fn spawn_column_air(c: &Chunk, y: int) -> bool {
    c.voxels@[voxel_index(SPAWN_COLUMN_X as int, y, SPAWN_COLUMN_Z as int)].id == AIR
}

/// Heights `y` and `y + 1` of the spawn column are both air.
pub open spec fn is_spawn_gap(c: &Chunk, y: int) -> bool {
    0 <= y && y + 1 < CHUNK_HEIGHT && spawn_column_air(c, y) && spawn_column_air(c, y + 1)
}

/// The lowest height of the spawn column with air there and just above,
/// if there is one.
pub fn find_spawn_height(c: &Chunk) -> (r: Option<i32>)
    requires
        c.wf(),
    ensures
        r matches Some(y) ==> is_spawn_gap(c, y as int) && forall|y2: int|
            0 <= y2 < y ==> !#[trigger] is_spawn_gap(c, y2),
        r is None ==> forall|y2: int| !#[trigger] is_spawn_gap(c, y2),
{
    let column = SPAWN_COLUMN_X * CHUNK_SIZE + SPAWN_COLUMN_Z;
    let mut y: usize = 0;
    while y + 1 < CHUNK_HEIGHT
        invariant
            y + 1 <= CHUNK_HEIGHT,
            column == SPAWN_COLUMN_X * CHUNK_SIZE + SPAWN_COLUMN_Z,
            c.wf(),
            forall|y2: int| 0 <= y2 < y ==> !#[trigger] is_spawn_gap(c, y2),
        decreases CHUNK_HEIGHT - y,
    {
        let here = y * COLUMN_COUNT + column;
        let above = here + COLUMN_COUNT;
        assert(above < c.voxels@.len());
        if c.voxels[here].id == AIR && c.voxels[above].id == AIR {
            return Some(y as i32);
        }
        y = y + 1;
    }
    None
}

/// Where the spawn search over `chunks` puts a spawn that was `before`:
/// the lowest two-voxel air gap of the middle column of chunk `(0, 0)`,
/// given as `(x, y, z)` with `y` the lower of the two; `before` when that
/// chunk is missing or its column has no such gap.
pub open spec fn spawn_search(
    chunks: Map<u64, Chunk>,
    before: (i32, i32, i32),
    after: (i32, i32, i32),
) -> bool {
    let origin = chunks[chunk_key(0, 0)];
    if chunks.contains_key(chunk_key(0, 0)) && exists|y: int| is_spawn_gap(&origin, y) {
        &&& after.0 == SPAWN_COLUMN_X
        &&& after.2 == SPAWN_COLUMN_Z
        &&& is_spawn_gap(&origin, after.1 as int)
        &&& forall|y2: int| 0 <= y2 < after.1 ==> !#[trigger] is_spawn_gap(&origin, y2)
    } else {
        after == before
    }
}

/// The world store. Chunks are only ever added: once stored under its
/// coordinates, a chunk stays as it is.
pub struct World {
    pub chunks: HashMap<u64, Chunk>,
    pub players: HashMap<u32, Player>,
    pub spawn: (i32, i32, i32),
    /// Keys of the stored chunks, in the order they were stored.
    pub keys: Vec<u64>,
}

impl World {
    /// Each chunk is stored under the key of its own coordinates and has its
    /// fixed shape, and the key list names exactly the stored chunks.
    pub open spec fn wf(&self) -> bool {
        &&& forall|k: u64|
            #[trigger] self.chunks@.contains_key(k) ==> self.chunks@[k].wf() && chunk_key(
                self.chunks@[k].coords.0,
                self.chunks@[k].coords.1,
            ) == k
        &&& forall|k: u64| self.chunks@.contains_key(k) <==> #[trigger] self.keys@.contains(k)
    }

    /// A chunk at `(x, z)` has been generated.
    pub open spec fn has_chunk(&self, x: i32, z: i32) -> bool {
        self.chunks@.contains_key(chunk_key(x, z))
    }

    /// The chunk at `(x, z)`.
    pub open spec fn chunk_at(&self, x: i32, z: i32) -> Chunk {
        self.chunks@[chunk_key(x, z)]
    }

    /// The world at startup: the start chunks stored under their
    /// coordinates, no players, and the spawn found by the spawn search
    /// (the origin when the search finds nothing).
    pub fn new(start: Vec<Chunk>) -> (w: World)
        requires
            forall|i: int| 0 <= i < start@.len() ==> (#[trigger] start@[i]).wf(),
        ensures
            w.wf(),
            w.players@ == Map::<u32, Player>::empty(),
            forall|i: int|
                0 <= i < start@.len() ==> w.has_chunk(
                    (#[trigger] start@[i]).coords.0,
                    start@[i].coords.1,
                ),
            forall|k: u64|
                #[trigger] w.chunks@.contains_key(k) ==> exists|i: int|
                    0 <= i < start@.len() && start@[i] == w.chunks@[k],
            spawn_search(w.chunks@, (0i32, 0i32, 0i32), w.spawn),
    {
        let ghost all = start@;
        let mut start = start;
        let mut w = World {
            chunks: HashMap::new(),
            players: HashMap::new(),
            spawn: (0, 0, 0),
            keys: Vec::new(),
        };
        assert(w.chunks@ =~= Map::<u64, Chunk>::empty());
        assert(w.players@ =~= Map::<u32, Player>::empty());
        while start.len() > 0
            invariant
                w.wf(),
                w.players@ == Map::<u32, Player>::empty(),
                w.spawn == (0i32, 0i32, 0i32),
                start@ == all.take(start@.len() as int),
                start@.len() <= all.len(),
                forall|i: int| 0 <= i < all.len() ==> (#[trigger] all[i]).wf(),
                forall|i: int|
                    start@.len() <= i < all.len() ==> w.has_chunk(
                        (#[trigger] all[i]).coords.0,
                        all[i].coords.1,
                    ),
                forall|k: u64|
                    #[trigger] w.chunks@.contains_key(k) ==> exists|i: int|
                        0 <= i < all.len() && all[i] == w.chunks@[k],
            decreases start@.len(),
        {
            let ghost n = start@.len();
            let c = start.pop().unwrap();
            assert(c == all[n - 1]);
            assert(start@ =~= all.take(n - 1));
            let ghost before = w.chunks@;
            w.insert_chunk(c);
            proof {
                assert forall|k: u64| #[trigger] w.chunks@.contains_key(k) implies exists|i: int|
                    0 <= i < all.len() && all[i] == w.chunks@[k] by {
                    if !before.contains_key(k) {
                        assert(all[n - 1] == w.chunks@[k]);
                    } else {
                        assert(w.chunks@[k] == before[k]);
                    }
                }
            }
        }
        w.locate_spawn();
        w
    }

    /// Stores a generated chunk under its coordinates, unless a chunk is
    /// stored there already; `true` when it was stored.
    pub fn insert_chunk(&mut self, chunk: Chunk) -> (r: bool)
        requires
            old(self).wf(),
            chunk.wf(),
        ensures
            final(self).wf(),
            r == !old(self).has_chunk(chunk.coords.0, chunk.coords.1),
            r ==> final(self).chunks@ == old(self).chunks@.insert(
                chunk_key(chunk.coords.0, chunk.coords.1),
                chunk,
            ),
            !r ==> final(self).chunks@ == old(self).chunks@,
            final(self).players@ == old(self).players@,
            final(self).spawn == old(self).spawn,
    {
        let k = key_of(chunk.coords.0, chunk.coords.1);
        if self.chunks.contains_key(&k) {
            return false;
        }
        self.chunks.insert(k, chunk);
        self.keys.push(k);
        proof {
            broadcast use vstd::seq_lib::lemma_seq_contains_after_push;

        }
        true
    }

    /// Keys of all stored chunks.
    pub fn chunk_keys(&self) -> (r: Vec<u64>)
        requires
            self.wf(),
        ensures
            forall|k: u64| #[trigger] r@.contains(k) <==> self.chunks@.contains_key(k),
    {
        let mut r: Vec<u64> = Vec::new();
        let mut i: usize = 0;
        while i < self.keys.len()
            invariant
                i <= self.keys@.len(),
                r@ == self.keys@.take(i as int),
            decreases self.keys@.len() - i,
        {
            r.push(self.keys[i]);
            assert(self.keys@.take(i + 1) =~= self.keys@.take(i as int).push(self.keys@[i as int]));
            i = i + 1;
        }
        assert(self.keys@.take(i as int) =~= self.keys@);
        r
    }

    /// Whether the chunk at `(x, z)` has been generated.
    pub fn contains_chunk(&self, x: i32, z: i32) -> (r: bool)
        ensures
            r == self.has_chunk(x, z),
    {
        self.chunks.contains_key(&key_of(x, z))
    }

    pub fn get_chunk(&self, x: i32, z: i32) -> (r: Option<&Chunk>)
        ensures
            r is Some <==> self.has_chunk(x, z),
            r matches Some(c) ==> *c == self.chunk_at(x, z),
    {
        self.chunks.get(&key_of(x, z))
    }

    /// The ChunkData frame of the chunk at `(x, z)`; `None` when that chunk
    /// has not been generated.
    pub fn chunk_to_bytes_rle(&self, x: i32, z: i32) -> (r: Option<Vec<u8>>)
        requires
            self.wf(),
        ensures
            r is Some <==> self.has_chunk(x, z),
            r matches Some(b) ==> b@ == framed(chunk_data_body(x, z, rle(self.chunk_at(x, z).ids()))),
    {
        match self.chunks.get(&key_of(x, z)) {
            Some(c) => {
                proof {
                    lemma_chunk_key_injective(c.coords.0, c.coords.1, x, z);
                }
                Some(c.to_bytes_rle())
            },
            None => None,
        }
    }

    /// Runs the spawn search: see [`spawn_search`].
    pub fn locate_spawn(&mut self)
        requires
            old(self).wf(),
        ensures
            final(self).wf(),
            final(self).chunks@ == old(self).chunks@,
            final(self).players@ == old(self).players@,
            spawn_search(old(self).chunks@, old(self).spawn, final(self).spawn),
    {
        let found = match self.chunks.get(&key_of(0, 0)) {
            Some(c) => find_spawn_height(c),
            None => None,
        };
        if let Some(y) = found {
            assert(is_spawn_gap(&self.chunk_at(0, 0), y as int));
            self.spawn = (SPAWN_COLUMN_X as i32, y, SPAWN_COLUMN_Z as i32);
        }
    }

    pub fn add_player(&mut self, player: Player)
        requires
            old(self).wf(),
        ensures
            final(self).wf(),
            final(self).players@ == old(self).players@.insert(player.id, player),
            final(self).chunks@ == old(self).chunks@,
            final(self).spawn == old(self).spawn,
    {
        self.players.insert(player.id, player);
    }

    pub fn remove_player(&mut self, id: u32)
        requires
            old(self).wf(),
        ensures
            final(self).wf(),
            final(self).players@ == old(self).players@.remove(id),
            final(self).chunks@ == old(self).chunks@,
            final(self).spawn == old(self).spawn,
    {
        self.players.remove(&id);
    }

    pub fn get_player(&self, id: u32) -> (r: Option<&Player>)
        ensures
            r is Some <==> self.players@.contains_key(id),
            r matches Some(p) ==> *p == self.players@[id],
    {
        self.players.get(&id)
    }
}

} // verus!
