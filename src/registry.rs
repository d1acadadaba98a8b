//! The registry of connected clients and the aggregation of their demand.
use crate::client::Client;
use crate::protocol::{ClientUpdate, Vec3};
use crate::world::{chunk_key, key_of, lemma_chunk_key_injective, World};
use std::collections::HashMap;
use vstd::prelude::*;

verus! {

/// A demand entry: chunk x, chunk z, distance.
pub type Demand = (i32, i32, i32);

/// The chunk that a demand entry names.
pub open spec fn chunk_of(t: Demand) -> (i32, i32) {
    (t.0, t.1)
}

/// No two entries name the same chunk.
pub open spec fn keys_unique(r: Seq<Demand>) -> bool {
    forall|i: int, j: int|
        0 <= i < j < r.len() ==> chunk_of(#[trigger] r[i]) != chunk_of(#[trigger] r[j])
}

/// Entries come by distance, nearest first.
pub open spec fn sorted_by_distance(r: Seq<Demand>) -> bool {
    forall|i: int, j: int| 0 <= i < j < r.len() ==> (#[trigger] r[i]).2 <= (#[trigger] r[j]).2
}

/// Every entry that some client of `m` demands.
pub open spec fn demand_pool(m: Map<u32, Client>) -> Set<Demand> {
    Set::new(|t: Demand| exists|id: u32| m.contains_key(id) && #[trigger] m[id].chunk_demand@.contains(t))
}

/// `r` holds one entry per chunk named in `pool`, each with the smallest
/// distance that `pool` gives that chunk.
pub open spec fn keyed_minimum(r: Seq<Demand>, pool: Set<Demand>) -> bool {
    &&& keys_unique(r)
    &&& forall|i: int| 0 <= i < r.len() ==> pool.contains(#[trigger] r[i])
    &&& forall|i: int, t: Demand|
        0 <= i < r.len() && #[trigger] pool.contains(t) && chunk_of(t) == chunk_of(#[trigger] r[i])
            ==> r[i].2 <= t.2
    &&& forall|t: Demand|
        #[trigger] pool.contains(t) ==> exists|i: int|
            0 <= i < r.len() && chunk_of(#[trigger] r[i]) == chunk_of(t)
}

/// Chunks of `d` that `w` holds, in the order of `d`.
pub open spec fn ready_part(d: Seq<Demand>, w: &World) -> Seq<(i32, i32)>
    decreases d.len(),
{
    if d.len() == 0 {
        Seq::empty()
    } else if w.has_chunk(d.last().0, d.last().1) {
        ready_part(d.drop_last(), w).push(chunk_of(d.last()))
    } else {
        ready_part(d.drop_last(), w)
    }
}

/// Entries of `d` whose chunk `w` does not hold yet, in the order of `d`.
pub open spec fn waiting_part(d: Seq<Demand>, w: &World) -> Seq<Demand>
    decreases d.len(),
{
    if d.len() == 0 {
        Seq::empty()
    } else if w.has_chunk(d.last().0, d.last().1) {
        waiting_part(d.drop_last(), w)
    } else {
        waiting_part(d.drop_last(), w).push(d.last())
    }
}

proof fn lemma_ready_part_held(d: Seq<Demand>, w: &World)
    ensures
        forall|j: int|
            0 <= j < ready_part(d, w).len() ==> w.has_chunk(
                (#[trigger] ready_part(d, w)[j]).0,
                ready_part(d, w)[j].1,
            ),
    decreases d.len(),
{
    if d.len() > 0 {
        let p = d.drop_last();
        lemma_ready_part_held(p, w);
        let r = ready_part(d, w);
        assert forall|j: int| 0 <= j < r.len() implies w.has_chunk((#[trigger] r[j]).0, r[j].1) by {
            if j < ready_part(p, w).len() {
                assert(r[j] == ready_part(p, w)[j]);
            }
        }
    }
}

proof fn lemma_waiting_part_missing(d: Seq<Demand>, w: &World)
    ensures
        forall|i: int|
            0 <= i < waiting_part(d, w).len() ==> !w.has_chunk(
                (#[trigger] waiting_part(d, w)[i]).0,
                waiting_part(d, w)[i].1,
            ),
    decreases d.len(),
{
    if d.len() > 0 {
        let p = d.drop_last();
        lemma_waiting_part_missing(p, w);
        let r = waiting_part(d, w);
        assert forall|i: int| 0 <= i < r.len() implies !w.has_chunk((#[trigger] r[i]).0, r[i].1) by {
            if i < waiting_part(p, w).len() {
                assert(r[i] == waiting_part(p, w)[i]);
            }
        }
    }
}

proof fn lemma_ready_part_from(d: Seq<Demand>, w: &World)
    ensures
        forall|j: int|
            0 <= j < ready_part(d, w).len() ==> exists|i: int|
                0 <= i < d.len() && chunk_of(d[i]) == #[trigger] ready_part(d, w)[j],
    decreases d.len(),
{
    if d.len() > 0 {
        let p = d.drop_last();
        lemma_ready_part_from(p, w);
        assert forall|j: int| 0 <= j < ready_part(d, w).len() implies exists|i: int|
            0 <= i < d.len() && chunk_of(d[i]) == #[trigger] ready_part(d, w)[j] by {
            if j < ready_part(p, w).len() {
                let i = choose|i: int| 0 <= i < p.len() && chunk_of(p[i]) == ready_part(p, w)[j];
                assert(d[i] == p[i]);
            } else {
                assert(chunk_of(d[d.len() - 1]) == ready_part(d, w)[j]);
            }
        }
    }
}

/// A chunk that one drain of the demand `d` hands out (the world `w1`
/// holds it) is not handed out again by a later drain of the demand that
/// drain kept, whatever the world `w2` holds by then: only a new demand can
/// bring it back.
pub proof fn lemma_drained_chunk_not_sent_again(d: Seq<Demand>, w1: &World, w2: &World)
    ensures
        forall|i: int, j: int|
            0 <= i < ready_part(waiting_part(d, w1), w2).len() && 0 <= j < ready_part(d, w1).len()
                ==> #[trigger] ready_part(waiting_part(d, w1), w2)[i] != #[trigger] ready_part(
                d,
                w1,
            )[j],
{
    let kept = waiting_part(d, w1);
    let again = ready_part(kept, w2);
    let sent = ready_part(d, w1);
    lemma_ready_part_held(d, w1);
    lemma_waiting_part_missing(d, w1);
    lemma_ready_part_from(kept, w2);
    assert forall|i: int, j: int| 0 <= i < again.len() && 0 <= j < sent.len() implies #[trigger] again[i]
        != #[trigger] sent[j] by {
        let k = choose|k: int| 0 <= k < kept.len() && chunk_of(kept[k]) == again[i];
        assert(!w1.has_chunk(kept[k].0, kept[k].1));
        assert(w1.has_chunk(sent[j].0, sent[j].1));
    }
}

/// Replacing the entry at `p` by `t`, of the same chunk and nearer, keeps
/// the table one of smallest distances, now with `t` in the pool.
proof fn lemma_merge_nearer(a: Seq<Demand>, pool: Set<Demand>, t: Demand, p: int)
    requires
        keyed_minimum(a, pool),
        0 <= p < a.len(),
        chunk_of(a[p]) == chunk_of(t),
        t.2 < a[p].2,
    ensures
        keyed_minimum(a.update(p, t), pool.insert(t)),
{
    let r = a.update(p, t);
    let pool2 = pool.insert(t);
    assert forall|i: int, j: int| 0 <= i < j < r.len() implies chunk_of(#[trigger] r[i])
        != chunk_of(#[trigger] r[j]) by {
        assert(chunk_of(a[i]) != chunk_of(a[j]));
    }
    assert forall|i: int| 0 <= i < r.len() implies pool2.contains(#[trigger] r[i]) by {
        if i != p {
            assert(pool.contains(a[i]));
        }
    }
    assert forall|i: int, s: Demand|
        0 <= i < r.len() && #[trigger] pool2.contains(s) && chunk_of(s) == chunk_of(#[trigger] r[i])
            implies r[i].2 <= s.2 by {
        if i != p {
            assert(chunk_of(a[i]) != chunk_of(a[p]));
            assert(pool.contains(s));
        } else if s != t {
            assert(pool.contains(s));
        }
    }
    assert forall|s: Demand| #[trigger] pool2.contains(s) implies exists|i: int|
        0 <= i < r.len() && chunk_of(#[trigger] r[i]) == chunk_of(s) by {
        if s == t {
            assert(chunk_of(r[p]) == chunk_of(s));
        } else {
            assert(pool.contains(s));
            let i = choose|i: int| 0 <= i < a.len() && chunk_of(#[trigger] a[i]) == chunk_of(s);
            assert(chunk_of(r[i]) == chunk_of(s));
        }
    }
}

/// An entry no nearer than the one its chunk has changes nothing but the
/// pool.
proof fn lemma_merge_farther(a: Seq<Demand>, pool: Set<Demand>, t: Demand, p: int)
    requires
        keyed_minimum(a, pool),
        0 <= p < a.len(),
        chunk_of(a[p]) == chunk_of(t),
        a[p].2 <= t.2,
    ensures
        keyed_minimum(a, pool.insert(t)),
{
    let pool2 = pool.insert(t);
    assert forall|i: int| 0 <= i < a.len() implies pool2.contains(#[trigger] a[i]) by {
        assert(pool.contains(a[i]));
    }
    assert forall|i: int, s: Demand|
        0 <= i < a.len() && #[trigger] pool2.contains(s) && chunk_of(s) == chunk_of(#[trigger] a[i])
            implies a[i].2 <= s.2 by {
        if s != t {
            assert(pool.contains(s));
        } else if i != p {
            assert(chunk_of(a[i]) != chunk_of(a[p]));
        }
    }
    assert forall|s: Demand| #[trigger] pool2.contains(s) implies exists|i: int|
        0 <= i < a.len() && chunk_of(#[trigger] a[i]) == chunk_of(s) by {
        if s == t {
            assert(chunk_of(a[p]) == chunk_of(s));
        } else {
            assert(pool.contains(s));
        }
    }
}

/// An entry for a chunk the table lacks is appended.
proof fn lemma_merge_new(a: Seq<Demand>, pool: Set<Demand>, t: Demand)
    requires
        keyed_minimum(a, pool),
        forall|q: int| 0 <= q < a.len() ==> chunk_of(#[trigger] a[q]) != chunk_of(t),
    ensures
        keyed_minimum(a.push(t), pool.insert(t)),
{
    let r = a.push(t);
    let pool2 = pool.insert(t);
    assert forall|i: int, j: int| 0 <= i < j < r.len() implies chunk_of(#[trigger] r[i])
        != chunk_of(#[trigger] r[j]) by {
        if j < a.len() {
            assert(chunk_of(a[i]) != chunk_of(a[j]));
        } else {
            assert(chunk_of(a[i]) != chunk_of(t));
        }
    }
    assert forall|i: int| 0 <= i < r.len() implies pool2.contains(#[trigger] r[i]) by {
        if i < a.len() {
            assert(pool.contains(a[i]));
        }
    }
    assert forall|i: int, s: Demand|
        0 <= i < r.len() && #[trigger] pool2.contains(s) && chunk_of(s) == chunk_of(#[trigger] r[i])
            implies r[i].2 <= s.2 by {
        if i < a.len() {
            assert(r[i] == a[i]);
            if s == t {
                assert(chunk_of(a[i]) != chunk_of(t));
            } else {
                assert(pool.contains(s));
            }
        } else if s != t {
            assert(pool.contains(s));
            let k = choose|k: int| 0 <= k < a.len() && chunk_of(#[trigger] a[k]) == chunk_of(s);
            assert(chunk_of(a[k]) != chunk_of(t));
        }
    }
    assert forall|s: Demand| #[trigger] pool2.contains(s) implies exists|i: int|
        0 <= i < r.len() && chunk_of(#[trigger] r[i]) == chunk_of(s) by {
        if s == t {
            assert(chunk_of(r[a.len() as int]) == chunk_of(s));
        } else {
            assert(pool.contains(s));
            let i = choose|i: int| 0 <= i < a.len() && chunk_of(#[trigger] a[i]) == chunk_of(s);
            assert(chunk_of(r[i]) == chunk_of(s));
        }
    }
}

/// `index` maps the key of each chunk in the table `acc` to its position.
spec fn indexes(index: Map<u64, usize>, acc: Seq<Demand>) -> bool {
    &&& forall|k: u64|
        #[trigger] index.contains_key(k) ==> index[k] < acc.len() && chunk_key(
            acc[index[k] as int].0,
            acc[index[k] as int].1,
        ) == k
    &&& forall|q: int| 0 <= q < acc.len() ==> index.contains_key(chunk_key((#[trigger] acc[q]).0, acc[q].1))
}

/// Adds one entry to a table of smallest distances per chunk, finding the
/// entry of its chunk through `index`.
fn merge_demand(
    acc: &mut Vec<Demand>,
    index: &mut HashMap<u64, usize>,
    t: Demand,
    Ghost(pool): Ghost<Set<Demand>>,
)
    requires
        keyed_minimum(old(acc)@, pool),
        indexes(old(index)@, old(acc)@),
    ensures
        keyed_minimum(final(acc)@, pool.insert(t)),
        indexes(final(index)@, final(acc)@),
{
    let key = key_of(t.0, t.1);
    match index.get(&key) {
        Some(p) => {
            let p = *p;
            proof {
                lemma_chunk_key_injective(acc@[p as int].0, acc@[p as int].1, t.0, t.1);
            }
            if t.2 < acc[p].2 {
                proof {
                    lemma_merge_nearer(acc@, pool, t, p as int);
                }
                let ghost before = acc@;
                acc.set(p, t);
                proof {
                    assert forall|q: int| 0 <= q < acc@.len() implies index@.contains_key(
                        chunk_key((#[trigger] acc@[q]).0, acc@[q].1),
                    ) by {
                        assert(index@.contains_key(chunk_key(before[q].0, before[q].1)));
                    }
                }
            } else {
                proof {
                    lemma_merge_farther(acc@, pool, t, p as int);
                }
            }
        },
        None => {
            proof {
                assert forall|q: int| 0 <= q < acc@.len() implies chunk_of(#[trigger] acc@[q]) != chunk_of(t) by {
                    lemma_chunk_key_injective(acc@[q].0, acc@[q].1, t.0, t.1);
                    assert(index@.contains_key(chunk_key(acc@[q].0, acc@[q].1)));
                }
                lemma_merge_new(acc@, pool, t);
            }
            let ghost before = acc@;
            let ghost old_index = index@;
            index.insert(key, acc.len());
            acc.push(t);
            proof {
                assert forall|k: u64| #[trigger] index@.contains_key(k) implies index@[k] < acc@.len()
                    && chunk_key(acc@[index@[k] as int].0, acc@[index@[k] as int].1) == k by {
                    if k != key {
                        assert(old_index.contains_key(k));
                        assert(acc@[index@[k] as int] == before[old_index[k] as int]);
                    }
                }
                assert forall|q: int| 0 <= q < acc@.len() implies index@.contains_key(
                    chunk_key((#[trigger] acc@[q]).0, acc@[q].1),
                ) by {
                    if q < before.len() {
                        assert(acc@[q] == before[q]);
                        assert(old_index.contains_key(chunk_key(before[q].0, before[q].1)));
                    }
                }
            }
        },
    }
}

/// Swapping two neighbours keeps a table of smallest distances one.
proof fn lemma_swap_keeps_minimum(r: Seq<Demand>, pool: Set<Demand>, j: int)
    requires
        keyed_minimum(r, pool),
        0 < j < r.len(),
    ensures
        keyed_minimum(r.update(j - 1, r[j]).update(j, r[j - 1]), pool),
{
    let s = r.update(j - 1, r[j]).update(j, r[j - 1]);
    let perm = |k: int|
        if k == j {
            j - 1
        } else if k == j - 1 {
            j
        } else {
            k
        };
    assert forall|k: int| 0 <= k < s.len() implies #[trigger] s[k] == r[perm(k)] by {}
    assert forall|a: int, b: int| 0 <= a < b < s.len() implies chunk_of(#[trigger] s[a])
        != chunk_of(#[trigger] s[b]) by {
        assert(s[a] == r[perm(a)]);
        assert(s[b] == r[perm(b)]);
        if perm(a) < perm(b) {
            assert(chunk_of(r[perm(a)]) != chunk_of(r[perm(b)]));
        } else {
            assert(chunk_of(r[perm(b)]) != chunk_of(r[perm(a)]));
        }
    }
    assert forall|k: int| 0 <= k < s.len() implies pool.contains(#[trigger] s[k]) by {
        assert(s[k] == r[perm(k)]);
    }
    assert forall|k: int, t: Demand|
        0 <= k < s.len() && #[trigger] pool.contains(t) && chunk_of(t) == chunk_of(#[trigger] s[k])
            implies s[k].2 <= t.2 by {
        assert(s[k] == r[perm(k)]);
    }
    assert forall|t: Demand| #[trigger] pool.contains(t) implies exists|k: int|
        0 <= k < s.len() && chunk_of(#[trigger] s[k]) == chunk_of(t) by {
        let i = choose|i: int| 0 <= i < r.len() && chunk_of(#[trigger] r[i]) == chunk_of(t);
        assert(s[perm(i)] == r[i]);
    }
}

/// `keyed_minimum`, kept folded while sorting.
#[verifier::opaque]
spec fn table_of_minimums(r: Seq<Demand>, pool: Set<Demand>) -> bool {
    keyed_minimum(r, pool)
}

proof fn lemma_swap_keeps_table(r: Seq<Demand>, pool: Set<Demand>, j: int)
    requires
        table_of_minimums(r, pool),
        0 < j < r.len(),
    ensures
        table_of_minimums(r.update(j - 1, r[j]).update(j, r[j - 1]), pool),
{
    reveal(table_of_minimums);
    lemma_swap_keeps_minimum(r, pool, j);
}

/// Sorts a table of smallest distances by distance, nearest first.
fn sort_by_distance(acc: &mut Vec<Demand>, Ghost(pool): Ghost<Set<Demand>>)
    requires
        keyed_minimum(old(acc)@, pool),
    ensures
        keyed_minimum(final(acc)@, pool),
        sorted_by_distance(final(acc)@),
{
    proof {
        reveal(table_of_minimums);
    }
    let n = acc.len();
    if n == 0 {
        return;
    }
    let mut i: usize = 1;
    while i < n
        invariant
            1 <= i <= n,
            acc@.len() == n,
            table_of_minimums(acc@, pool),
            forall|a: int, b: int| 0 <= a < b < i ==> (#[trigger] acc@[a]).2 <= (#[trigger] acc@[b]).2,
        decreases n - i,
    {
        let mut j: usize = i;
        while j > 0 && acc[j - 1].2 > acc[j].2
            invariant
                0 <= j <= i < n,
                acc@.len() == n,
                table_of_minimums(acc@, pool),
                forall|a: int, b: int|
                    0 <= a < b <= i && a != j && b != j ==> (#[trigger] acc@[a]).2 <= (
                    #[trigger] acc@[b]).2,
                forall|b: int| j < b <= i ==> acc@[j as int].2 <= (#[trigger] acc@[b]).2,
            decreases j,
        {
            let lo = acc[j - 1];
            let hi = acc[j];
            let ghost before = acc@;
            proof {
                lemma_swap_keeps_table(before, pool, j as int);
            }
            acc.set(j - 1, hi);
            acc.set(j, lo);
            assert(acc@ =~= before.update(j - 1, before[j as int]).update(j as int, before[j - 1]));
            j = j - 1;
        }
        proof {
            assert forall|a: int, b: int| 0 <= a < b <= i implies (#[trigger] acc@[a]).2 <= (
            #[trigger] acc@[b]).2 by {
                if b == j && a < j - 1 {
                    assert(acc@[a].2 <= acc@[j - 1].2);
                }
            }
        }
        i = i + 1;
    }
    proof {
        reveal(table_of_minimums);
    }
}

/// The connected clients by id, and the last aggregate of their demand.
pub struct ClientManager {
    clients: HashMap<u32, Client>,
    ids: Vec<u32>,
    demanded_chunks: Vec<Demand>,
}

impl View for ClientManager {
    type V = Map<u32, Client>;

    closed spec fn view(&self) -> Map<u32, Client> {
        self.clients@
    }
}

impl ClientManager {
    /// Each client is stored under its own id, and the id list names each
    /// stored client once.
    pub closed spec fn wf(&self) -> bool {
        &&& self.ids@.no_duplicates()
        &&& forall|id: u32| self.clients@.contains_key(id) <==> #[trigger] self.ids@.contains(id)
        &&& forall|id: u32| #[trigger] self.clients@.contains_key(id) ==> self.clients@[id].id == id
    }

    /// The last aggregate of demand.
    pub closed spec fn demanded(&self) -> Seq<Demand> {
        self.demanded_chunks@
    }

    pub fn new() -> (m: ClientManager)
        ensures
            m.wf(),
            m@ == Map::<u32, Client>::empty(),
            m.demanded().len() == 0,
    {
        let m = ClientManager { clients: HashMap::new(), ids: Vec::new(), demanded_chunks: Vec::new() };
        assert(m.clients@ =~= Map::<u32, Client>::empty());
        m
    }

    /// The last aggregate of demand.
    pub fn demanded_chunks(&self) -> (r: &Vec<Demand>)
        ensures
            r@ == self.demanded(),
    {
        &self.demanded_chunks
    }

    /// Number of connected clients.
    pub fn client_count(&self) -> (r: usize)
        ensures
            r == self@.len(),
    {
        self.clients.len()
    }

    /// The id a client connecting now gets: one more than the number of
    /// connected clients.
    pub fn next_client_id(&self) -> (r: u32)
        requires
            self@.len() < u32::MAX,
        ensures
            r == self@.len() + 1,
    {
        (self.clients.len() as u32) + 1
    }

    /// Registers a client under its id, replacing any client with that id.
    pub fn add_client(&mut self, client: Client)
        requires
            old(self).wf(),
        ensures
            final(self).wf(),
            final(self)@ == old(self)@.insert(client.id, client),
            final(self).demanded() == old(self).demanded(),
    {
        let id = client.id;
        if !self.clients.contains_key(&id) {
            let ghost before = self.ids@;
            self.ids.push(id);
            proof {
                broadcast use vstd::seq_lib::lemma_seq_contains_after_push;

                assert(!before.contains(id));
                assert forall|i: int, j: int|
                    0 <= i < self.ids@.len() && 0 <= j < self.ids@.len() && i != j implies self.ids@[i]
                    != self.ids@[j] by {
                    if i < before.len() && j < before.len() {
                        assert(before[i] != before[j]);
                    } else if i < before.len() {
                        if before[i] == id {
                            assert(before.contains(id));
                        }
                    } else if j < before.len() {
                        if before[j] == id {
                            assert(before.contains(id));
                        }
                    }
                }
            }
        }
        self.clients.insert(id, client);
    }

    /// Removes the client with this id, if any.
    pub fn remove_client(&mut self, client_id: u32)
        requires
            old(self).wf(),
        ensures
            final(self).wf(),
            final(self)@ == old(self)@.remove(client_id),
            final(self).demanded() == old(self).demanded(),
    {
        let mut p: usize = 0;
        while p < self.ids.len() && self.ids[p] != client_id
            invariant
                p <= self.ids@.len(),
                forall|q: int| 0 <= q < p ==> self.ids@[q] != client_id,
            decreases self.ids@.len() - p,
        {
            p = p + 1;
        }
        if p < self.ids.len() {
            let ghost before = self.ids@;
            self.ids.remove(p);
            proof {
                let after = self.ids@;
                before.remove_ensures(p as int);
                assert forall|i: int, j: int|
                    0 <= i < after.len() && 0 <= j < after.len() && i != j implies after[i] != after[j] by {
                    let i2 = if i < p { i } else { i + 1 };
                    let j2 = if j < p { j } else { j + 1 };
                    assert(after[i] == before[i2]);
                    assert(after[j] == before[j2]);
                }
                assert forall|k: u32|
                    old(self).clients@.contains_key(k) && k != client_id <==> #[trigger] after.contains(k) by {
                    if after.contains(k) {
                        let i = choose|i: int| 0 <= i < after.len() && after[i] == k;
                        let i2 = if i < p { i } else { i + 1 };
                        assert(before[i2] == k);
                        assert(before.contains(k));
                        assert(before[p as int] == client_id);
                        if k == client_id {
                            assert(before[i2] == before[p as int]);
                        }
                    }
                    if old(self).clients@.contains_key(k) && k != client_id {
                        assert(before.contains(k));
                        let i = choose|i: int| 0 <= i < before.len() && before[i] == k;
                        let i2 = if i < p { i } else { i - 1 };
                        assert(after[i2] == k);
                    }
                }
            }
        }
        self.clients.remove(&client_id);
    }

    pub fn get_client(&self, client_id: u32) -> (r: Option<&Client>)
        ensures
            r is Some <==> self@.contains_key(client_id),
            r matches Some(c) ==> *c == self@[client_id],
    {
        self.clients.get(&client_id)
    }

    /// Takes in a ClientData message for the client `client_id`. `false`, and
    /// nothing changed, when no such client is connected.
    pub fn apply_client_data(&mut self, client_id: u32, update: ClientUpdate) -> (r: bool)
        requires
            old(self).wf(),
            old(self)@.contains_key(client_id) ==> old(self)@[client_id].packet_count_rx < u64::MAX,
        ensures
            final(self).wf(),
            final(self).demanded() == old(self).demanded(),
            r == old(self)@.contains_key(client_id),
            final(self)@.dom() == old(self)@.dom(),
            forall|id: u32| id != client_id ==> #[trigger] final(self)@.get(id) == old(self)@.get(id),
            r ==> {
                let before = old(self)@[client_id];
                let after = final(self)@[client_id];
                &&& after.id == client_id
                &&& after.position == update.position
                &&& after.rotation == (Vec3 { x: update.rotation_x, y: update.rotation_y, z: 0 })
                &&& after.state == update.state
                &&& after.chunk_demand@ == update.chunk_demand@
                &&& after.packet_count_rx == before.packet_count_rx + 1
            },
    {
        match self.clients.remove(&client_id) {
            Some(mut c) => {
                c.apply_update(update);
                self.clients.insert(client_id, c);
                assert(self.clients@ =~= old(self).clients@.insert(client_id, c));
                assert(self.clients@.dom() =~= old(self).clients@.dom());
                true
            },
            None => false,
        }
    }

    /// Hands out the chunks of a client's demand that the world holds, in
    /// demand order, and keeps the rest as that client's demand. Empty, and
    /// nothing changed, when no such client is connected.
    pub fn take_ready_chunks(&mut self, client_id: u32, world: &World) -> (r: Vec<(i32, i32)>)
        requires
            old(self).wf(),
        ensures
            final(self).wf(),
            final(self).demanded() == old(self).demanded(),
            final(self)@.dom() == old(self)@.dom(),
            forall|id: u32| id != client_id ==> #[trigger] final(self)@.get(id) == old(self)@.get(id),
            !old(self)@.contains_key(client_id) ==> r@.len() == 0,
            old(self)@.contains_key(client_id) ==> {
                let before = old(self)@[client_id];
                let after = final(self)@[client_id];
                &&& r@ == ready_part(before.chunk_demand@, world)
                &&& after.chunk_demand@ == waiting_part(before.chunk_demand@, world)
                &&& after.id == before.id
                &&& after.position == before.position
                &&& after.rotation == before.rotation
                &&& after.state == before.state
                &&& after.packet_count_rx == before.packet_count_rx
            },
    {
        let mut ready: Vec<(i32, i32)> = Vec::new();
        match self.clients.remove(&client_id) {
            Some(mut c) => {
                let mut waiting: Vec<Demand> = Vec::new();
                let ghost d = c.chunk_demand@;
                let mut k: usize = 0;
                while k < c.chunk_demand.len()
                    invariant
                        d == c.chunk_demand@,
                        k <= d.len(),
                        ready@ == ready_part(d.take(k as int), world),
                        waiting@ == waiting_part(d.take(k as int), world),
                    decreases d.len() - k,
                {
                    let t = c.chunk_demand[k];
                    assert(d.take(k + 1).drop_last() =~= d.take(k as int));
                    if world.contains_chunk(t.0, t.1) {
                        ready.push((t.0, t.1));
                    } else {
                        waiting.push(t);
                    }
                    k = k + 1;
                }
                assert(d.take(k as int) =~= d);
                c.chunk_demand = waiting;
                self.clients.insert(client_id, c);
                assert(self.clients@.dom() =~= old(self).clients@.dom());
            },
            None => {},
        }
        ready
    }

    /// Aggregates the demand of all connected clients: one entry per
    /// demanded chunk, with the smallest distance any client gives it, sorted
    /// by distance, nearest first. The result is also kept as the
    /// registry's current aggregate.
    pub fn calculate_demanded_chunks(&mut self) -> (r: Vec<Demand>)
        requires
            old(self).wf(),
        ensures
            final(self).wf(),
            final(self)@ == old(self)@,
            final(self).demanded() == r@,
            keyed_minimum(r@, demand_pool(old(self)@)),
            sorted_by_distance(r@),
    {
        let mut acc: Vec<Demand> = Vec::new();
        let mut index: HashMap<u64, usize> = HashMap::new();
        assert(index@ =~= Map::<u64, usize>::empty());
        let ghost mut pool = Set::<Demand>::empty();
        let ghost m = self.clients@;
        let mut a: usize = 0;
        while a < self.ids.len()
            invariant
                self.wf(),
                m == self.clients@,
                a <= self.ids@.len(),
                keyed_minimum(acc@, pool),
                indexes(index@, acc@),
                forall|t: Demand| #[trigger] pool.contains(t) ==> demand_pool(m).contains(t),
                forall|b: int, k: int|
                    0 <= b < a && 0 <= k < m[self.ids@[b]].chunk_demand@.len() ==> pool.contains(
                        #[trigger] m[self.ids@[b]].chunk_demand@[k],
                    ),
            decreases self.ids@.len() - a,
        {
            let id = self.ids[a];
            assert(self.ids@.contains(id));
            match self.clients.get(&id) {
                Some(c) => {
                    let mut j: usize = 0;
                    while j < c.chunk_demand.len()
                        invariant
                            *c == m[id],
                            m.contains_key(id),
                            keyed_minimum(acc@, pool),
                            indexes(index@, acc@),
                            j <= c.chunk_demand@.len(),
                            forall|t: Demand| #[trigger] pool.contains(t) ==> demand_pool(m).contains(t),
                            forall|b: int, k: int|
                                0 <= b < a && 0 <= k < m[self.ids@[b]].chunk_demand@.len()
                                    ==> pool.contains(#[trigger] m[self.ids@[b]].chunk_demand@[k]),
                            forall|k: int| 0 <= k < j ==> pool.contains(#[trigger] c.chunk_demand@[k]),
                        decreases c.chunk_demand@.len() - j,
                    {
                        let t = c.chunk_demand[j];
                        merge_demand(&mut acc, &mut index, t, Ghost(pool));
                        proof {
                            assert(m[id].chunk_demand@.contains(t));
                            assert(demand_pool(m).contains(t));
                            pool = pool.insert(t);
                        }
                        j = j + 1;
                    }
                },
                None => {},
            }
            a = a + 1;
        }
        proof {
            assert forall|t: Demand| demand_pool(m).contains(t) implies #[trigger] pool.contains(t) by {
                let id = choose|id: u32| m.contains_key(id) && #[trigger] m[id].chunk_demand@.contains(t);
                assert(self.ids@.contains(id));
                let b = choose|b: int| 0 <= b < self.ids@.len() && self.ids@[b] == id;
                let k = choose|k: int| 0 <= k < m[id].chunk_demand@.len() && m[id].chunk_demand@[k] == t;
                assert(pool.contains(m[self.ids@[b]].chunk_demand@[k]));
            }
            assert(pool =~= demand_pool(m));
        }
        sort_by_distance(&mut acc, Ghost(pool));
        let mut kept: Vec<Demand> = Vec::new();
        let mut k: usize = 0;
        while k < acc.len()
            invariant
                k <= acc@.len(),
                kept@ == acc@.take(k as int),
            decreases acc@.len() - k,
        {
            kept.push(acc[k]);
            assert(acc@.take(k + 1) =~= acc@.take(k as int).push(acc@[k as int]));
            k = k + 1;
        }
        assert(acc@.take(k as int) =~= acc@);
        self.demanded_chunks = kept;
        acc
    }

    /// Id, position, rotation and state of every connected client, each
    /// client once.
    pub fn get_all_client_data(&self) -> (r: Vec<(u32, Vec3, Vec3, u32)>)
        requires
            self.wf(),
        ensures
            r@.len() == self@.len(),
            forall|i: int|
                0 <= i < r@.len() ==> {
                    let e = #[trigger] r@[i];
                    &&& self@.contains_key(e.0)
                    &&& e == (e.0, self@[e.0].position, self@[e.0].rotation, self@[e.0].state)
                },
            forall|id: u32| #[trigger] self@.contains_key(id) ==> exists|i: int| 0 <= i < r@.len() && (#[trigger] r@[i]).0 == id,
            forall|i: int, j: int| 0 <= i < j < r@.len() ==> (#[trigger] r@[i]).0 != (#[trigger] r@[j]).0,
    {
        let mut out: Vec<(u32, Vec3, Vec3, u32)> = Vec::new();
        let mut a: usize = 0;
        while a < self.ids.len()
            invariant
                self.wf(),
                a <= self.ids@.len(),
                out@.len() == a,
                forall|i: int| 0 <= i < a ==> {
                    let e = #[trigger] out@[i];
                    &&& e.0 == self.ids@[i]
                    &&& self@.contains_key(e.0)
                    &&& e == (e.0, self@[e.0].position, self@[e.0].rotation, self@[e.0].state)
                },
            decreases self.ids@.len() - a,
        {
            let id = self.ids[a];
            assert(self.ids@.contains(id));
            match self.clients.get(&id) {
                Some(c) => {
                    out.push((id, c.position, c.rotation, c.state));
                },
                None => {},
            }
            a = a + 1;
        }
        proof {
            assert forall|id: u32| #[trigger] self@.contains_key(id) implies exists|i: int| 0 <= i < out@.len() && (#[trigger] out@[i]).0 == id by {
                assert(self.ids@.contains(id));
                let b = choose|b: int| 0 <= b < self.ids@.len() && self.ids@[b] == id;
                assert(out@[b].0 == id);
            }
            assert forall|i: int, j: int| 0 <= i < j < out@.len() implies (#[trigger] out@[i]).0 != (#[trigger] out@[j]).0 by {
                assert(self.ids@[i] != self.ids@[j]);
            }
            lemma_ids_count(self.ids@, self.clients@.dom());
        }
        out
    }
}

/// A list without repeats that names exactly the members of a set has the
/// set's size.
proof fn lemma_ids_count(ids: Seq<u32>, dom: Set<u32>)
    requires
        ids.no_duplicates(),
        forall|id: u32| dom.contains(id) <==> #[trigger] ids.contains(id),
    ensures
        dom.finite(),
        dom.len() == ids.len(),
{
    assert(dom =~= ids.to_set());
    ids.unique_seq_to_set();
}

} // verus!
