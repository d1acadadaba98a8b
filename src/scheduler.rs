//! The generation scheduler's bookkeeping: which demanded chunks to
//! generate on a pass.
use crate::registry::{chunk_of, Demand};
use crate::world::{chunk_key, key_of, World};
use std::collections::HashSet;
use vstd::prelude::*;

verus! {

/// Keys of `g` together with the keys of the chunks that `d` names.
pub open spec fn marked(g: Set<u64>, d: Seq<Demand>) -> Set<u64> {
    Set::new(|k: u64| g.contains(k) || exists|i: int| 0 <= i < d.len() && chunk_key(#[trigger] d[i].0, d[i].1) == k)
}

/// The chunks that a pass over the demand `d` generates when the chunks
/// with keys in `g` are already generated: those not generated yet, each
/// the first time it is named, in demand order.
pub open spec fn to_generate(g: Set<u64>, d: Seq<Demand>) -> Seq<(i32, i32)>
    decreases d.len(),
{
    if d.len() == 0 {
        Seq::empty()
    } else if marked(g, d.drop_last()).contains(chunk_key(d.last().0, d.last().1)) {
        to_generate(g, d.drop_last())
    } else {
        to_generate(g, d.drop_last()).push(chunk_of(d.last()))
    }
}

proof fn lemma_nothing_left(g: Set<u64>, d: Seq<Demand>)
    requires
        forall|i: int| 0 <= i < d.len() ==> g.contains(chunk_key(#[trigger] d[i].0, d[i].1)),
    ensures
        to_generate(g, d).len() == 0,
    decreases d.len(),
{
    if d.len() > 0 {
        let p = d.drop_last();
        assert forall|i: int| 0 <= i < p.len() implies g.contains(chunk_key(#[trigger] p[i].0, p[i].1)) by {
            assert(p[i] == d[i]);
        }
        lemma_nothing_left(g, p);
        assert(g.contains(chunk_key(d[d.len() - 1].0, d[d.len() - 1].1)));
    }
}

/// A second pass over the same demand, with nothing changed in between,
/// generates nothing.
pub proof fn lemma_second_pass_generates_nothing(g: Set<u64>, d: Seq<Demand>)
    ensures
        to_generate(marked(g, d), d).len() == 0,
{
    assert forall|i: int| 0 <= i < d.len() implies marked(g, d).contains(chunk_key(#[trigger] d[i].0, d[i].1)) by {}
    lemma_nothing_left(marked(g, d), d);
}

/// A pass hands out each chunk at most once, and never one whose key was
/// already generated.
pub proof fn lemma_pass_generates_each_chunk_once(g: Set<u64>, d: Seq<Demand>)
    ensures
        forall|i: int|
            0 <= i < to_generate(g, d).len() ==> {
                let c = #[trigger] to_generate(g, d)[i];
                &&& !g.contains(chunk_key(c.0, c.1))
                &&& marked(g, d).contains(chunk_key(c.0, c.1))
            },
        forall|i: int, j: int|
            0 <= i < j < to_generate(g, d).len() ==> #[trigger] to_generate(g, d)[i]
                != #[trigger] to_generate(g, d)[j],
    decreases d.len(),
{
    if d.len() > 0 {
        let pd = d.drop_last();
        let last = d.last();
        lemma_pass_generates_each_chunk_once(g, pd);
        let p = to_generate(g, pd);
        let r = to_generate(g, d);
        assert forall|k: u64| marked(g, pd).contains(k) implies marked(g, d).contains(k) by {
            if !g.contains(k) {
                let i = choose|i: int| 0 <= i < pd.len() && chunk_key(#[trigger] pd[i].0, pd[i].1) == k;
                assert(d[i] == pd[i]);
            }
        }
        if !marked(g, pd).contains(chunk_key(last.0, last.1)) {
            assert(marked(g, d).contains(chunk_key(d[d.len() - 1].0, d[d.len() - 1].1)));
            assert forall|i: int, j: int| 0 <= i < j < r.len() implies #[trigger] r[i] != #[trigger] r[j] by {
                if j == p.len() {
                    assert(marked(g, pd).contains(chunk_key(p[i].0, p[i].1)));
                } else {
                    assert(p[i] != p[j]);
                }
            }
            assert forall|i: int| 0 <= i < r.len() implies {
                let c = #[trigger] r[i];
                &&& !g.contains(chunk_key(c.0, c.1))
                &&& marked(g, d).contains(chunk_key(c.0, c.1))
            } by {
                if i < p.len() {
                    assert(r[i] == p[i]);
                }
            }
        }
    }
}

/// Remembers which chunks have been handed out for generation.
pub struct GenerationScheduler {
    generated: HashSet<u64>,
}

impl View for GenerationScheduler {
    type V = Set<u64>;

    /// Keys of the chunks handed out so far.
    closed spec fn view(&self) -> Set<u64> {
        self.generated@
    }
}

impl GenerationScheduler {
    pub fn new() -> (s: GenerationScheduler)
        ensures
            s@ == Set::<u64>::empty(),
    {
        GenerationScheduler { generated: HashSet::new() }
    }

    /// A scheduler that counts every chunk `world` holds as generated, so
    /// that its record and the world's chunks agree.
    pub fn for_world(world: &World) -> (s: GenerationScheduler)
        requires
            world.wf(),
        ensures
            s@ == world.chunks@.dom(),
    {
        let keys = world.chunk_keys();
        let mut generated: HashSet<u64> = HashSet::new();
        let mut i: usize = 0;
        while i < keys.len()
            invariant
                i <= keys@.len(),
                forall|k: u64| #[trigger] generated@.contains(k) <==> keys@.take(i as int).contains(k),
            decreases keys@.len() - i,
        {
            let k = keys[i];
            generated.insert(k);
            proof {
                broadcast use vstd::seq_lib::lemma_seq_contains_after_push;

                assert(keys@.take(i + 1) =~= keys@.take(i as int).push(k));
            }
            i = i + 1;
        }
        assert(keys@.take(i as int) =~= keys@);
        assert(generated@ =~= world.chunks@.dom());
        GenerationScheduler { generated }
    }

    /// Whether the chunk at `(x, z)` has been handed out.
    pub fn is_generated(&self, x: i32, z: i32) -> (r: bool)
        ensures
            r == self@.contains(chunk_key(x, z)),
    {
        self.generated.contains(&key_of(x, z))
    }

    /// One pass over the aggregated demand: the chunks to generate now, in
    /// demand order, each once; from now on they count as generated.
    pub fn plan(&mut self, demand: &Vec<Demand>) -> (r: Vec<(i32, i32)>)
        ensures
            r@ == to_generate(old(self)@, demand@),
            final(self)@ == marked(old(self)@, demand@),
    {
        let ghost g = self.generated@;
        let mut out: Vec<(i32, i32)> = Vec::new();
        let mut k: usize = 0;
        while k < demand.len()
            invariant
                k <= demand@.len(),
                out@ == to_generate(g, demand@.take(k as int)),
                self.generated@ == marked(g, demand@.take(k as int)),
            decreases demand@.len() - k,
        {
            let t = demand[k];
            let key = key_of(t.0, t.1);
            let ghost before = demand@.take(k as int);
            let ghost after = demand@.take(k + 1);
            assert(after.drop_last() =~= before);
            assert(after.last() == t);
            assert(marked(g, after) =~= marked(g, before).insert(key)) by {
                assert forall|x: u64| marked(g, after).contains(x) implies marked(g, before).insert(x).contains(x) && (x == key || marked(g, before).contains(x)) by {
                    if !g.contains(x) && x != key {
                        let i = choose|i: int| 0 <= i < after.len() && chunk_key(#[trigger] after[i].0, after[i].1) == x;
                        assert(i < before.len());
                        assert(before[i] == after[i]);
                    }
                }
                assert forall|x: u64| marked(g, before).contains(x) implies marked(g, after).contains(x) by {
                    if !g.contains(x) {
                        let i = choose|i: int| 0 <= i < before.len() && chunk_key(#[trigger] before[i].0, before[i].1) == x;
                        assert(after[i] == before[i]);
                    }
                }
                assert(chunk_key(after[k as int].0, after[k as int].1) == key);
            }
            if !self.generated.contains(&key) {
                self.generated.insert(key);
                out.push((t.0, t.1));
            }
            k = k + 1;
        }
        assert(demand@.take(k as int) =~= demand@);
        out
    }
}

} // verus!
