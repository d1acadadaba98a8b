//! Run-length encoding of a chunk's voxel ids and the ChunkData message.
use crate::chunk::{Chunk, AIR, CHUNK_VOLUME, SOLID};
use crate::protocol::CHUNK_DATA_TAG;
use crate::wire::{
    frame, framed, lemma_le_i32, lemma_le_u32, lemma_read_u32_at, le_i32, le_u32, push_i32,
    read_i32, read_u32, HEADER_LEN,
};
use vstd::prelude::*;

verus! {

/// Longest run that one pair can carry.
pub const MAX_RUN: u8 = 255;

/// Offset of the first run pair in a ChunkData frame: past the length
/// header, the tag and the two coordinates.
pub const RUNS_OFFSET: usize = 13;

/// Greedy run-length encoding of `ids` as `(length, id)` pairs, built id by
/// id: an id extends the last run when it repeats that run's id and the run
/// is shorter than `MAX_RUN`; otherwise it opens a run of one.
pub open spec fn rle(ids: Seq<u8>) -> Seq<(u8, u8)>
    decreases ids.len(),
{
    if ids.len() == 0 {
        Seq::empty()
    } else {
        let prev = rle(ids.drop_last());
        let id = ids.last();
        if prev.len() > 0 && prev.last().1 == id && prev.last().0 < MAX_RUN {
            prev.drop_last().push(((prev.last().0 + 1) as u8, id))
        } else {
            prev.push((1u8, id))
        }
    }
}

/// The ids that a sequence of `(length, id)` runs stands for.
pub open spec fn expand_runs(runs: Seq<(u8, u8)>) -> Seq<u8>
    decreases runs.len(),
{
    if runs.len() == 0 {
        Seq::empty()
    } else {
        expand_runs(runs.drop_last()) + Seq::new(runs.last().0 as nat, |_k: int| runs.last().1)
    }
}

/// Every run holds at least one id, and a run is followed by one with the
/// same id only when it is full.
pub open spec fn runs_are_greedy(runs: Seq<(u8, u8)>) -> bool {
    &&& forall|k: int| 0 <= k < runs.len() ==> #[trigger] runs[k].0 >= 1
    &&& forall|k: int|
        0 <= k < runs.len() - 1 ==> #[trigger] runs[k].1 != runs[k + 1].1 || runs[k].0 == MAX_RUN
}

/// The runs on the wire: each as its length byte, then its id byte.
pub open spec fn run_bytes(runs: Seq<(u8, u8)>) -> Seq<u8>
    decreases runs.len(),
{
    if runs.len() == 0 {
        Seq::empty()
    } else {
        run_bytes(runs.drop_last()) + seq![runs.last().0, runs.last().1]
    }
}

/// The `(length, id)` pairs that the bytes `b` carry, two bytes each.
pub open spec fn runs_of_bytes(b: Seq<u8>) -> Seq<(u8, u8)> {
    Seq::new(b.len() / 2, |k: int| (b[2 * k], b[2 * k + 1]))
}

/// Body of the ChunkData message for the chunk at `(x, z)`.
pub open spec fn chunk_data_body(x: i32, z: i32, runs: Seq<(u8, u8)>) -> Seq<u8> {
    seq![CHUNK_DATA_TAG] + le_i32(x) + le_i32(z) + run_bytes(runs)
}

/// The voxel ids that a ChunkData frame carries, as a client rebuilds them.
pub open spec fn chunk_data_ids(frame: Seq<u8>) -> Seq<u8> {
    expand_runs(runs_of_bytes(frame.skip(RUNS_OFFSET as int)))
}

proof fn lemma_rle_len(ids: Seq<u8>)
    ensures
        rle(ids).len() <= ids.len(),
        ids.len() > 0 ==> rle(ids).len() > 0,
    decreases ids.len(),
{
    if ids.len() > 0 {
        lemma_rle_len(ids.drop_last());
    }
}

/// Expanding the runs of `ids` gives back `ids`.
pub proof fn lemma_rle_expands(ids: Seq<u8>)
    ensures
        expand_runs(rle(ids)) == ids,
    decreases ids.len(),
{
    if ids.len() > 0 {
        let s = ids.drop_last();
        let id = ids.last();
        let prev = rle(s);
        lemma_rle_expands(s);
        lemma_rle_len(s);
        if prev.len() > 0 && prev.last().1 == id && prev.last().0 < MAX_RUN {
            let c = prev.last().0;
            let r = prev.drop_last().push(((c + 1) as u8, id));
            assert(r.drop_last() =~= prev.drop_last());
            assert(Seq::new((c + 1) as nat, |_k: int| id) =~= Seq::new(c as nat, |_k: int| id).push(
                id,
            ));
            assert(ids =~= s.push(id));
            assert(expand_runs(r) =~= ids);
        } else {
            let r = prev.push((1u8, id));
            assert(r.drop_last() =~= prev);
            assert(Seq::new(1nat, |_k: int| id) =~= seq![id]);
            assert(ids =~= s.push(id));
            assert(expand_runs(r) =~= ids);
        }
    }
}

/// Runs are never empty, never longer than `MAX_RUN`, and a new run with
/// the same id starts only after a full one.
pub proof fn lemma_rle_greedy(ids: Seq<u8>)
    ensures
        runs_are_greedy(rle(ids)),
    decreases ids.len(),
{
    if ids.len() > 0 {
        let s = ids.drop_last();
        let id = ids.last();
        let prev = rle(s);
        lemma_rle_greedy(s);
        lemma_rle_len(s);
        let r = rle(ids);
        if prev.len() > 0 && prev.last().1 == id && prev.last().0 < MAX_RUN {
            assert forall|k: int| 0 <= k < r.len() - 1 implies #[trigger] r[k].1 != r[k + 1].1
                || r[k].0 == MAX_RUN by {
                assert(r[k] == prev[k]);
                if k + 1 < prev.len() - 1 {
                    assert(r[k + 1] == prev[k + 1]);
                } else {
                    assert(prev[k + 1] == prev.last());
                }
            }
        } else {
            assert forall|k: int| 0 <= k < r.len() - 1 implies #[trigger] r[k].1 != r[k + 1].1
                || r[k].0 == MAX_RUN by {
                assert(r[k] == prev[k]);
                if k + 1 < prev.len() {
                    assert(r[k + 1] == prev[k + 1]);
                }
            }
        }
    }
}

proof fn lemma_rle_ids_air_or_solid(ids: Seq<u8>)
    requires
        forall|i: int| 0 <= i < ids.len() ==> #[trigger] ids[i] == AIR || ids[i] == SOLID,
    ensures
        forall|k: int|
            0 <= k < rle(ids).len() ==> (#[trigger] rle(ids)[k]).1 == AIR || rle(ids)[k].1 == SOLID,
    decreases ids.len(),
{
    if ids.len() > 0 {
        let s = ids.drop_last();
        assert forall|i: int| 0 <= i < s.len() implies #[trigger] s[i] == AIR || s[i] == SOLID by {
            assert(s[i] == ids[i]);
        }
        lemma_rle_ids_air_or_solid(s);
        lemma_rle_len(s);
        assert(ids[ids.len() - 1] == AIR || ids[ids.len() - 1] == SOLID);
        let prev = rle(s);
        let r = rle(ids);
        assert forall|k: int| 0 <= k < r.len() implies (#[trigger] r[k]).1 == AIR || r[k].1 == SOLID by {
            if k < prev.len() - 1 || (k == prev.len() - 1 && r.len() > prev.len()) {
                assert(r[k] == prev[k]);
            }
        }
    }
}

/// The runs of a chunk are never empty, never longer than `MAX_RUN`,
/// carry only air or solid, start a new run of the same id only after a
/// full one, and expand back to the chunk's ids.
pub proof fn lemma_chunk_runs(c: &Chunk)
    requires
        c.wf(),
    ensures
        runs_are_greedy(rle(c.ids())),
        forall|k: int|
            0 <= k < rle(c.ids()).len() ==> (#[trigger] rle(c.ids())[k]).1 == AIR || rle(
                c.ids(),
            )[k].1 == SOLID,
        expand_runs(rle(c.ids())) == c.ids(),
{
    let ids = c.ids();
    assert forall|i: int| 0 <= i < ids.len() implies #[trigger] ids[i] == AIR || ids[i] == SOLID by {
        assert(ids[i] == c.voxels@[i].id);
    }
    lemma_rle_ids_air_or_solid(ids);
    lemma_rle_greedy(ids);
    lemma_rle_expands(ids);
}

proof fn lemma_run_bytes_index(runs: Seq<(u8, u8)>)
    ensures
        run_bytes(runs).len() == 2 * runs.len(),
        forall|k: int|
            0 <= k < runs.len() ==> run_bytes(runs)[2 * k] == #[trigger] runs[k].0 && run_bytes(
                runs,
            )[2 * k + 1] == runs[k].1,
    decreases runs.len(),
{
    if runs.len() > 0 {
        let p = runs.drop_last();
        lemma_run_bytes_index(p);
        assert forall|k: int| 0 <= k < runs.len() implies run_bytes(runs)[2 * k]
            == #[trigger] runs[k].0 && run_bytes(runs)[2 * k + 1] == runs[k].1 by {
            if k < p.len() {
                assert(runs[k] == p[k]);
            }
        }
    }
}

/// Reading the pairs back from the wire gives the runs that were written.
pub proof fn lemma_runs_of_run_bytes(runs: Seq<(u8, u8)>)
    ensures
        runs_of_bytes(run_bytes(runs)) == runs,
{
    lemma_run_bytes_index(runs);
    let b = run_bytes(runs);
    vstd::arithmetic::div_mod::lemma_div_multiples_vanish(runs.len() as int, 2);
    assert(b.len() / 2 == runs.len());
    assert forall|k: int| 0 <= k < runs.len() implies #[trigger] runs_of_bytes(b)[k] == runs[k] by {
        assert(runs_of_bytes(b)[k] == (b[2 * k], b[2 * k + 1]));
    }
    assert(runs_of_bytes(b) =~= runs);
}

/// The ChunkData frame of `ids` at `(x, z)` carries the tag, the
/// coordinates and its own length, and a client that expands its runs
/// rebuilds exactly `ids`.
pub proof fn lemma_chunk_data_round_trip(x: i32, z: i32, ids: Seq<u8>)
    requires
        ids.len() <= CHUNK_VOLUME,
    ensures
        ({
            let f = framed(chunk_data_body(x, z, rle(ids)));
            &&& read_u32(f, 0) == f.len()
            &&& f[HEADER_LEN as int] == CHUNK_DATA_TAG
            &&& read_i32(f, 5) == x
            &&& read_i32(f, 9) == z
            &&& chunk_data_ids(f) == ids
        }),
{
    let runs = rle(ids);
    let rb = run_bytes(runs);
    let body = chunk_data_body(x, z, runs);
    let f = framed(body);
    lemma_rle_len(ids);
    lemma_run_bytes_index(runs);
    lemma_le_i32(x);
    lemma_le_i32(z);
    let n = (body.len() + HEADER_LEN) as u32;
    lemma_le_u32(n);
    assert(f =~= le_u32(n) + body);
    lemma_read_u32_at(Seq::empty(), le_u32(n), body);
    assert(Seq::<u8>::empty() + le_u32(n) + body =~= f);
    let before_x = le_u32(n) + seq![CHUNK_DATA_TAG];
    lemma_read_u32_at(before_x, le_i32(x), le_i32(z) + rb);
    assert(before_x + le_i32(x) + (le_i32(z) + rb) =~= f);
    let before_z = before_x + le_i32(x);
    lemma_read_u32_at(before_z, le_i32(z), rb);
    assert(before_z + le_i32(z) + rb =~= f);
    assert(f.skip(RUNS_OFFSET as int) =~= rb);
    lemma_runs_of_run_bytes(runs);
    lemma_rle_expands(ids);
}

impl Chunk {
    /// The ChunkData frame of this chunk: length header, tag, coordinates,
    /// then the greedy runs of its voxel ids in storage order.
    pub fn to_bytes_rle(&self) -> (r: Vec<u8>)
        requires
            self.wf(),
        ensures
            r@ == framed(chunk_data_body(self.coords.0, self.coords.1, rle(self.ids()))),
    {
        let ghost ids = self.ids();
        let mut body: Vec<u8> = Vec::new();
        body.push(CHUNK_DATA_TAG);
        push_i32(&mut body, self.coords.0);
        push_i32(&mut body, self.coords.1);
        let ghost head = body@;
        proof {
            lemma_le_i32(self.coords.0);
            lemma_le_i32(self.coords.1);
        }
        let n = self.voxels.len();
        let mut run: u8 = 0;
        let mut cur: u8 = 0;
        let mut i: usize = 0;
        while i < n
            invariant
                n == self.voxels@.len(),
                n == CHUNK_VOLUME,
                ids == self.ids(),
                head.len() == 9,
                i <= n,
                i == 0 ==> body@ == head,
                i > 0 ==> {
                    &&& rle(ids.take(i as int)).len() > 0
                    &&& body@ == head + run_bytes(rle(ids.take(i as int)).drop_last())
                    &&& rle(ids.take(i as int)).last() == (run, cur)
                },
            decreases n - i,
        {
            let id = self.voxels[i].id;
            proof {
                let s = ids.take(i as int);
                assert(ids.take(i + 1).drop_last() =~= s);
                assert(ids.take(i + 1).last() == id);
                lemma_rle_len(s);
                lemma_rle_len(ids.take(i + 1));
                lemma_run_bytes_index(rle(s).drop_last());
            }
            if i > 0 && id == cur && run < MAX_RUN {
                run = run + 1;
                proof {
                    let prev = rle(ids.take(i as int));
                    assert(rle(ids.take(i + 1)).drop_last() =~= prev.drop_last());
                }
            } else {
                if i > 0 {
                    body.push(run);
                    body.push(cur);
                    proof {
                        let prev = rle(ids.take(i as int));
                        assert(rle(ids.take(i + 1)).drop_last() =~= prev);
                        assert(body@ =~= head + run_bytes(prev));
                    }
                }
                run = 1;
                cur = id;
            }
            i = i + 1;
        }
        proof {
            assert(ids.take(n as int) =~= ids);
            lemma_rle_len(ids);
            lemma_run_bytes_index(rle(ids));
        }
        body.push(run);
        body.push(cur);
        assert(body@ =~= head + run_bytes(rle(ids)));
        frame(body)
    }
}

} // verus!
