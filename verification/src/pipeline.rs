use vstd::prelude::*;

use std::collections::BTreeMap;

verus! {

/// At most this many chunks are in flight between the reader, the workers
/// and the writer.
pub const MAX_PIPELINE_INFLIGHT: usize = 16;

pub open spec fn spec_min(a: int, b: int) -> int {
    if a <= b { a } else { b }
}

pub open spec fn spec_max(a: int, b: int) -> int {
    if a >= b { a } else { b }
}

/// Worker threads for a payload of `chunk_count` chunks on a machine with
/// `cpus` processors: one per processor, no more than there are chunks or
/// than may be in flight, and at least one.
pub fn worker_count(cpus: usize, chunk_count: u32) -> (n: usize)
    ensures
        n == spec_max(
            1,
            spec_min(cpus as int, spec_min(chunk_count as int, MAX_PIPELINE_INFLIGHT as int)),
        ),
        1 <= n <= MAX_PIPELINE_INFLIGHT,
{
    let chunks = chunk_count as usize;
    let cap = if chunks < MAX_PIPELINE_INFLIGHT {
        chunks
    } else {
        MAX_PIPELINE_INFLIGHT
    };
    let n = if cpus < cap {
        cpus
    } else {
        cap
    };
    if n < 1 {
        1
    } else {
        n
    }
}

/// Capacity of the queues of an encryption pipeline: two per worker, capped
/// at the in-flight limit, at least one.
pub fn encrypt_queue_bound(workers: usize) -> (n: usize)
    requires
        workers <= MAX_PIPELINE_INFLIGHT,
    ensures
        n == spec_max(1, spec_min(workers * 2, MAX_PIPELINE_INFLIGHT as int)),
        1 <= n <= MAX_PIPELINE_INFLIGHT,
{
    let doubled = workers * 2;
    let n = if doubled < MAX_PIPELINE_INFLIGHT {
        doubled
    } else {
        MAX_PIPELINE_INFLIGHT
    };
    if n < 1 {
        1
    } else {
        n
    }
}

/// Capacity of the queues of a decryption pipeline: four per worker, so that
/// workers stay busy while plaintext is written, capped at the in-flight
/// limit, at least one.
pub fn decrypt_queue_bound(workers: usize) -> (n: usize)
    requires
        workers <= MAX_PIPELINE_INFLIGHT,
    ensures
        n == spec_max(1, spec_min(workers * 4, MAX_PIPELINE_INFLIGHT as int)),
        1 <= n <= MAX_PIPELINE_INFLIGHT,
{
    let quadrupled = workers * 4;
    let n = if quadrupled < MAX_PIPELINE_INFLIGHT {
        quadrupled
    } else {
        MAX_PIPELINE_INFLIGHT
    };
    if n < 1 {
        1
    } else {
        n
    }
}

/// Threads that wipe written plaintext buffers: one per worker, no more than
/// the queue holds, at least one.
pub fn zeroizer_count(workers: usize, queue_bound: usize) -> (n: usize)
    ensures
        n == spec_max(1, spec_min(workers as int, queue_bound as int)),
{
    let n = if workers < queue_bound {
        workers
    } else {
        queue_bound
    };
    if n < 1 {
        1
    } else {
        n
    }
}

/// Taking from `pending` the chunks `next`, `next + 1`, ... for as long as
/// they are there: what is left, the first index not there, and the chunks
/// taken, in order.
pub open spec fn drain_run<T>(pending: Map<u32, T>, next: u32) -> (Map<u32, T>, u32, Seq<T>)
    decreases u32::MAX - next,
{
    if next < u32::MAX && pending.contains_key(next) {
        let (p, n, out) = drain_run(pending.remove(next), (next + 1) as u32);
        (p, n, seq![pending[next]] + out)
    } else {
        (pending, next, Seq::empty())
    }
}

/// One arrival: chunk `index` with `data` comes in while `next` is the
/// index to write next. Returns the new pending chunks, the new next index
/// and the chunks to write now, in order.
pub open spec fn accept_step<T>(pending: Map<u32, T>, next: u32, index: u32, data: T) -> (Map<
    u32,
    T,
>, u32, Seq<T>) {
    if index == next {
        let (p, n, out) = drain_run(pending, (next + 1) as u32);
        (p, n, seq![data] + out)
    } else {
        (pending.insert(index, data), next, Seq::empty())
    }
}

/// `u32` keys follow the order model under which `BTreeMap` is specified.
proof fn lemma_u32_keys_ordered()
    ensures
        vstd::laws_cmp::obeys_cmp::<u32>(),
{
    broadcast use vstd::laws_cmp::group_laws_cmp;

}

/// Puts chunks that finish out of order back in order: a chunk is released
/// as soon as every chunk before it has been.
pub struct ChunkReorder<T> {
    pending: BTreeMap<u32, T>,
    next_index: u32,
}

impl<T> ChunkReorder<T> {
    pub closed spec fn pending(&self) -> Map<u32, T> {
        self.pending@
    }

    pub closed spec fn next(&self) -> u32 {
        self.next_index
    }

    /// Every waiting chunk has an index below `u32::MAX`.
    pub closed spec fn wf(&self) -> bool {
        forall|k: u32| #[trigger] self.pending@.contains_key(k) ==> k < u32::MAX
    }

    pub fn new() -> (r: ChunkReorder<T>)
        ensures
            r.wf(),
            r.pending() == Map::<u32, T>::empty(),
            r.next() == 0,
    {
        ChunkReorder { pending: BTreeMap::new(), next_index: 0 }
    }

    /// The index of the next chunk to be released.
    pub fn next_index(&self) -> (n: u32)
        ensures
            n == self.next(),
    {
        self.next_index
    }

    /// Hands in chunk `index`; returns the chunks that can now be written,
    /// in order.
    pub fn accept(&mut self, index: u32, data: T) -> (ready: Vec<T>)
        requires
            old(self).wf(),
            index < u32::MAX,
        ensures
            final(self).wf(),
            (final(self).pending(), final(self).next(), ready@) == accept_step(
                old(self).pending(),
                old(self).next(),
                index,
                data,
            ),
    {
        broadcast use vstd::std_specs::btree::group_btree_axioms;
        proof {
            lemma_u32_keys_ordered();
        }

        let ghost target = accept_step(self.pending@, self.next_index, index, data);
        let mut ready: Vec<T> = Vec::new();
        if index != self.next_index {
            self.pending.insert(index, data);
            return ready;
        }
        ready.push(data);
        self.next_index = self.next_index + 1;
        assert(ready@ =~= seq![data]);
        loop
            invariant
                forall|k: u32| #[trigger] self.pending@.contains_key(k) ==> k < u32::MAX,
                drain_run(self.pending@, self.next_index).0 == target.0,
                drain_run(self.pending@, self.next_index).1 == target.1,
                ready@ + drain_run(self.pending@, self.next_index).2 == target.2,
            ensures
                forall|k: u32| #[trigger] self.pending@.contains_key(k) ==> k < u32::MAX,
                self.pending@ == target.0,
                self.next_index == target.1,
                ready@ == target.2,
            decreases u32::MAX - self.next_index,
        {
            let ghost before = self.pending@;
            let ghost at = self.next_index;
            let ghost ready_before = ready@;
            match self.pending.remove(&self.next_index) {
                Some(chunk) => {
                    assert(before.contains_key(at));
                    assert(at < u32::MAX);
                    let ghost rest = drain_run(before.remove(at), (at + 1) as u32);
                    assert(drain_run(before, at) == (rest.0, rest.1, seq![chunk] + rest.2));
                    ready.push(chunk);
                    self.next_index = self.next_index + 1;
                    assert(ready_before + (seq![chunk] + rest.2) =~= ready@ + rest.2);
                },
                None => {
                    assert(!before.contains_key(at));
                    assert(self.pending@ =~= before);
                    assert(drain_run(before, at) == (before, at, Seq::<T>::empty()));
                    assert(ready@ + Seq::<T>::empty() =~= ready@);
                    break ;
                },
            }
        }
        ready
    }
}

} // verus!

verus! {

/// The state of a reorder buffer after a run of arrivals, starting empty:
/// the chunks still waiting, the next index to release, and everything
/// released so far, in release order.
pub open spec fn reorder_run<T>(arrivals: Seq<(u32, T)>) -> (Map<u32, T>, u32, Seq<T>)
    decreases arrivals.len(),
{
    if arrivals.len() == 0 {
        (Map::empty(), 0, Seq::empty())
    } else {
        let prev = reorder_run(arrivals.drop_last());
        let step = accept_step(prev.0, prev.1, arrivals.last().0, arrivals.last().1);
        (step.0, step.1, prev.2 + step.2)
    }
}

/// Every chunk handed in, by index.
pub open spec fn received<T>(arrivals: Seq<(u32, T)>) -> Map<u32, T>
    decreases arrivals.len(),
{
    if arrivals.len() == 0 {
        Map::empty()
    } else {
        received(arrivals.drop_last()).insert(arrivals.last().0, arrivals.last().1)
    }
}

/// Whether `pending` holds the chunk `j` places after `m`.
pub open spec fn key_at<T>(pending: Map<u32, T>, m: u32, j: int) -> bool {
    pending.contains_key((m + j) as u32)
}

proof fn lemma_drain<T>(p: Map<u32, T>, m: u32)
    ensures
        m <= drain_run(p, m).1,
        drain_run(p, m).2.len() == drain_run(p, m).1 - m,
        forall|j: int| 0 <= j < drain_run(p, m).1 - m ==> #[trigger] key_at(p, m, j),
        forall|j: int|
            0 <= j < drain_run(p, m).1 - m ==> #[trigger] drain_run(p, m).2[j] == p[(m + j) as u32],
        forall|k: u32| #[trigger]
            drain_run(p, m).0.contains_key(k) <==> (p.contains_key(k) && !(m <= k
                < drain_run(p, m).1)),
        forall|k: u32| #[trigger]
            drain_run(p, m).0.contains_key(k) ==> drain_run(p, m).0[k] == p[k],
        drain_run(p, m).1 == u32::MAX || !p.contains_key(drain_run(p, m).1),
    decreases u32::MAX - m,
{
    if m < u32::MAX && p.contains_key(m) {
        let q = p.remove(m);
        let m1 = (m + 1) as u32;
        lemma_drain(q, m1);
        let rest = drain_run(q, m1);
        let out = drain_run(p, m);
        assert(out == (rest.0, rest.1, seq![p[m]] + rest.2));
        assert forall|j: int| 0 <= j < out.1 - m implies #[trigger] key_at(p, m, j) && out.2[j]
            == p[(m + j) as u32] by {
            if j == 0 {
                assert(out.2[0] == p[m]);
                assert((m + 0) as u32 == m);
            } else {
                assert(out.2[j] == rest.2[j - 1]);
                assert(rest.2[j - 1] == q[(m1 + (j - 1)) as u32]);
                assert(key_at(q, m1, j - 1));
                assert((m1 + (j - 1)) as u32 == (m + j) as u32);
                assert((m + j) as u32 != m);
            }
        }
    } else {
        assert(drain_run(p, m) == (p, m, Seq::<T>::empty()));
    }
}

/// What the reorder buffer keeps true between arrivals, relative to the
/// chunks received so far.
spec fn reorder_inv<T>(st: (Map<u32, T>, u32, Seq<T>), r: Map<u32, T>) -> bool {
    &&& forall|k: u32| #[trigger] st.0.contains_key(k) <==> (r.contains_key(k) && k >= st.1)
    &&& forall|k: u32| #[trigger] st.0.contains_key(k) ==> st.0[k] == r[k]
    &&& forall|k: u32| k < st.1 ==> #[trigger] r.contains_key(k)
    &&& !r.contains_key(st.1)
    &&& st.2.len() == st.1
    &&& forall|i: int| 0 <= i < st.1 ==> #[trigger] st.2[i] == r[i as u32]
}

proof fn lemma_received_keys<T>(arrivals: Seq<(u32, T)>)
    ensures
        forall|k: u32| #[trigger]
            received(arrivals).contains_key(k) <==> exists|j: int|
                0 <= j < arrivals.len() && arrivals[j].0 == k,
    decreases arrivals.len(),
{
    if arrivals.len() > 0 {
        let a = arrivals.drop_last();
        lemma_received_keys(a);
        assert forall|k: u32| #[trigger] received(arrivals).contains_key(k) <==> exists|j: int|
            0 <= j < arrivals.len() && arrivals[j].0 == k by {
            let last = arrivals.last();
            assert(received(arrivals) == received(a).insert(last.0, last.1));
            if received(arrivals).contains_key(k) {
                if k == last.0 {
                    assert(arrivals[arrivals.len() - 1].0 == k);
                } else {
                    assert(received(a).contains_key(k));
                    let j = choose|j: int| 0 <= j < a.len() && a[j].0 == k;
                    assert(arrivals[j].0 == k);
                }
            }
            if exists|j: int| 0 <= j < arrivals.len() && arrivals[j].0 == k {
                let j = choose|j: int| 0 <= j < arrivals.len() && arrivals[j].0 == k;
                if j < a.len() {
                    assert(a[j].0 == k);
                    assert(received(a).contains_key(k));
                }
            }
        }
    }
}

proof fn lemma_received_values<T>(arrivals: Seq<(u32, T)>)
    requires
        forall|j1: int, j2: int|
            0 <= j1 < j2 < arrivals.len() ==> arrivals[j1].0 != arrivals[j2].0,
    ensures
        forall|j: int|
            0 <= j < arrivals.len() ==> #[trigger] received(arrivals)[arrivals[j].0] == arrivals[j].1,
    decreases arrivals.len(),
{
    if arrivals.len() > 0 {
        let a = arrivals.drop_last();
        lemma_received_values(a);
        assert forall|j: int| 0 <= j < arrivals.len() implies #[trigger] received(
            arrivals,
        )[arrivals[j].0] == arrivals[j].1 by {
            let last = arrivals.last();
            assert(received(arrivals) == received(a).insert(last.0, last.1));
            if j < a.len() {
                assert(a[j] == arrivals[j]);
                assert(arrivals[j].0 != last.0);
                assert(received(a)[a[j].0] == a[j].1);
            }
        }
    }
}

proof fn lemma_reorder_inv<T>(arrivals: Seq<(u32, T)>)
    requires
        forall|j: int| 0 <= j < arrivals.len() ==> (#[trigger] arrivals[j].0) < u32::MAX,
        forall|j1: int, j2: int|
            0 <= j1 < j2 < arrivals.len() ==> arrivals[j1].0 != arrivals[j2].0,
    ensures
        reorder_inv(reorder_run(arrivals), received(arrivals)),
    decreases arrivals.len(),
{
    lemma_received_keys(arrivals);
    if arrivals.len() > 0 {
        let a = arrivals.drop_last();
        lemma_reorder_inv(a);
        lemma_received_keys(a);
        let st = reorder_run(a);
        let r = received(a);
        let i = arrivals.last().0;
        let d = arrivals.last().1;
        let r2 = received(arrivals);
        assert(r2 == r.insert(i, d));
        assert(!r.contains_key(i)) by {
            if r.contains_key(i) {
                let j = choose|j: int| 0 <= j < a.len() && a[j].0 == i;
                assert(arrivals[j].0 == arrivals[arrivals.len() - 1].0);
            }
        }
        let st2 = reorder_run(arrivals);
        if i == st.1 {
            let m1 = (st.1 + 1) as u32;
            lemma_drain(st.0, m1);
            let dr = drain_run(st.0, m1);
            assert(st2 == (dr.0, dr.1, st.2 + (seq![d] + dr.2)));
            assert forall|k: u32| #[trigger] st2.0.contains_key(k) <==> (r2.contains_key(k) && k
                >= st2.1) by {
                if r2.contains_key(k) && k >= st2.1 {
                    assert(k != i);
                    assert(r.contains_key(k));
                }
            }
            assert forall|k: u32| k < st2.1 implies #[trigger] r2.contains_key(k) by {
                if k < st.1 {
                } else if k == st.1 {
                } else {
                    assert(key_at(st.0, m1, k - m1));
                    assert(st.0.contains_key((m1 + (k - m1)) as u32));
                }
            }
            assert(!r2.contains_key(st2.1)) by {
                if st2.1 == u32::MAX {
                    if r2.contains_key(st2.1) {
                        let j = choose|j: int|
                            0 <= j < arrivals.len() && arrivals[j].0 == st2.1;
                        assert(arrivals[j].0 < u32::MAX);
                    }
                }
            }
            assert(st.2.len() == st.1);
            assert(st2.2.len() == st2.1);
            assert forall|x: int| 0 <= x < st2.1 implies #[trigger] st2.2[x] == r2[x as u32] by {
                if x < st.1 {
                    assert(st2.2[x] == st.2[x]);
                    assert(st.2[x] == r[x as u32]);
                    assert(x as u32 != i);
                } else if x == st.1 {
                    assert(st2.2[x] == (seq![d] + dr.2)[0]);
                    assert(st2.2[x] == d);
                } else {
                    let y = x - st.1 - 1;
                    assert(st2.2[x] == (seq![d] + dr.2)[x - st.1]);
                    assert(st2.2[x] == dr.2[y]);
                    assert(dr.2[y] == st.0[(m1 + y) as u32]);
                    assert(key_at(st.0, m1, y));
                    assert((m1 + y) as u32 == x as u32);
                    assert(st.0[x as u32] == r[x as u32]);
                    assert(x as u32 != i);
                }
            }
        } else {
            assert(i > st.1) by {
                if i < st.1 {
                    assert(r.contains_key(i));
                }
            }
            assert(st2 == (st.0.insert(i, d), st.1, st.2 + Seq::<T>::empty()));
            assert(st2.2 =~= st.2);
        }
    }
}

/// One arrival at the reorder buffer. When every waiting chunk lies after
/// the next index to release and the arriving chunk is new and not before
/// it: the chunks released are those from the old next index up to the new
/// one, in increasing order, taken from the waiting chunks and the new one;
/// something is released exactly when the new chunk is the one awaited;
/// what keeps waiting is everything from the new next index on, all of it
/// after that index.
pub proof fn lemma_accept_step<T>(pending: Map<u32, T>, next: u32, index: u32, data: T)
    requires
        forall|k: u32| #[trigger] pending.contains_key(k) ==> next < k < u32::MAX,
        next <= index < u32::MAX,
        !pending.contains_key(index),
    ensures
        ({
            let (p2, n1, out) = accept_step(pending, next, index, data);
            let merged = pending.insert(index, data);
            &&& next <= n1
            &&& (n1 > next <==> index == next)
            &&& out.len() == n1 - next
            &&& forall|j: int|
                0 <= j < out.len() ==> #[trigger] key_at(merged, next, j) && out[j] == merged[(
                next + j) as u32]
            &&& forall|k: u32| #[trigger]
                p2.contains_key(k) <==> (merged.contains_key(k) && k >= n1)
            &&& forall|k: u32| #[trigger] p2.contains_key(k) ==> p2[k] == merged[k] && n1 < k
        }),
{
    let merged = pending.insert(index, data);
    if index == next {
        let m1 = (next + 1) as u32;
        lemma_drain(pending, m1);
        let dr = drain_run(pending, m1);
        let out = seq![data] + dr.2;
        assert(accept_step(pending, next, index, data) == (dr.0, dr.1, out));
        assert forall|j: int| 0 <= j < out.len() implies #[trigger] key_at(merged, next, j)
            && out[j] == merged[(next + j) as u32] by {
            if j == 0 {
                assert((next + 0) as u32 == next);
            } else {
                assert(out[j] == dr.2[j - 1]);
                assert(key_at(pending, m1, j - 1));
                assert((m1 + (j - 1)) as u32 == (next + j) as u32);
            }
        }
        assert forall|k: u32| #[trigger] dr.0.contains_key(k) implies dr.0[k] == merged[k] && dr.1
            < k by {
            if dr.1 == u32::MAX {
                assert(pending.contains_key(k));
            }
        }
    } else {
        assert(accept_step(pending, next, index, data) == (merged, next, Seq::<T>::empty()));
    }
}

/// What the reorder buffer has released at any point is an in-order prefix
/// of the chunks: when the arrivals carry distinct indices, the released
/// chunks are chunk 0, 1, ... up to the next index, each the data that
/// arrived with its index; every chunk before the next index has arrived,
/// the chunk at the next index has not, and the waiting chunks are exactly
/// those that arrived after it. So a chunk that never arrives (one whose
/// decryption failed) holds back itself and everything after it.
pub proof fn lemma_reorder_releases_prefix<T>(arrivals: Seq<(u32, T)>)
    requires
        forall|j: int| 0 <= j < arrivals.len() ==> (#[trigger] arrivals[j].0) < u32::MAX,
        forall|j1: int, j2: int|
            0 <= j1 < j2 < arrivals.len() ==> arrivals[j1].0 != arrivals[j2].0,
    ensures
        ({
            let (pending, next, released) = reorder_run(arrivals);
            let r = received(arrivals);
            &&& released.len() == next
            &&& forall|i: int| 0 <= i < next ==> #[trigger] released[i] == r[i as u32]
            &&& forall|k: u32| k < next ==> #[trigger] r.contains_key(k)
            &&& !r.contains_key(next)
            &&& forall|k: int| #![trigger index_arrives(arrivals, k)]
                0 <= k < u32::MAX && !index_arrives(arrivals, k) ==> next <= k
            &&& forall|k: u32| #[trigger] pending.contains_key(k) <==> (r.contains_key(k) && k > next)
            &&& forall|j: int| 0 <= j < arrivals.len() ==> #[trigger] r[arrivals[j].0] == arrivals[j].1
        }),
{
    lemma_reorder_inv(arrivals);
    lemma_received_keys(arrivals);
    lemma_received_values(arrivals);
    let (pending, next, released) = reorder_run(arrivals);
    let r = received(arrivals);
    assert forall|k: int| 0 <= k < u32::MAX && !index_arrives(arrivals, k) implies next <= k by {
        if k < next {
            assert(r.contains_key(k as u32));
            let j = choose|j: int| 0 <= j < arrivals.len() && arrivals[j].0 == k as u32;
            assert(index_arrives(arrivals, k));
        }
    }
    assert forall|k: u32| #[trigger] pending.contains_key(k) <==> (r.contains_key(k) && k > next) by {
        if r.contains_key(k) && k >= next {
            assert(k != next);
        }
    }
}

/// Whether some arrival carries index `k`.
pub open spec fn index_arrives<T>(arrivals: Seq<(u32, T)>, k: int) -> bool {
    exists|j: int| 0 <= j < arrivals.len() && arrivals[j].0 == k
}

/// Chunks handed to the reorder buffer in any order come out in index
/// order: when the indices of the arrivals are exactly `0 .. n` (each once),
/// the buffer ends up releasing all `n` chunks, chunk `i` in place `i`, and
/// keeps nothing back.
pub proof fn lemma_reorder_restores_order<T>(arrivals: Seq<(u32, T)>)
    requires
        arrivals.len() < u32::MAX,
        forall|j: int| 0 <= j < arrivals.len() ==> (#[trigger] arrivals[j].0 as int) < arrivals.len(),
        forall|j1: int, j2: int|
            0 <= j1 < j2 < arrivals.len() ==> arrivals[j1].0 != arrivals[j2].0,
        forall|k: int| 0 <= k < arrivals.len() ==> #[trigger] index_arrives(arrivals, k),
    ensures
        reorder_run(arrivals).1 == arrivals.len(),
        reorder_run(arrivals).0 =~= Map::<u32, T>::empty(),
        reorder_run(arrivals).2.len() == arrivals.len(),
        forall|j: int|
            0 <= j < arrivals.len() ==> reorder_run(arrivals).2[#[trigger] arrivals[j].0 as int]
                == arrivals[j].1,
{
    let n = arrivals.len();
    lemma_reorder_inv(arrivals);
    lemma_received_keys(arrivals);
    lemma_received_values(arrivals);
    let st = reorder_run(arrivals);
    let r = received(arrivals);
    if st.1 < n {
        assert(index_arrives(arrivals, st.1 as int));
        let j = choose|j: int| 0 <= j < n && arrivals[j].0 == st.1 as int;
        assert(r.contains_key(arrivals[j].0));
    }
    if st.1 > n {
        assert(r.contains_key(n as u32));
        let j = choose|j: int| 0 <= j < n && arrivals[j].0 == n as u32;
        assert((arrivals[j].0 as int) < n);
    }
    assert forall|k: u32| !st.0.contains_key(k) by {
        if st.0.contains_key(k) {
            let j = choose|j: int| 0 <= j < n && arrivals[j].0 == k;
            assert((arrivals[j].0 as int) < n);
        }
    }
    assert forall|j: int| 0 <= j < n implies st.2[#[trigger] arrivals[j].0 as int]
        == arrivals[j].1 by {
        assert((arrivals[j].0 as int) < n);
        assert(st.2[arrivals[j].0 as int] == r[arrivals[j].0]);
    }
}

} // verus!

verus! {

/// Bookkeeping of a decryption pipeline: how many chunks have been handed to
/// workers, how many results are back, and how many are out. A chunk is
/// handed out only while fewer than `limit` are out.
pub struct DecryptSchedule {
    total: u32,
    limit: u32,
    dispatched: u32,
    inflight: u32,
    received: u32,
}

impl DecryptSchedule {
    pub closed spec fn total(&self) -> u32 {
        self.total
    }

    pub closed spec fn limit(&self) -> u32 {
        self.limit
    }

    pub closed spec fn dispatched(&self) -> u32 {
        self.dispatched
    }

    pub closed spec fn received(&self) -> u32 {
        self.received
    }

    pub closed spec fn in_flight(&self) -> u32 {
        self.inflight
    }

    /// Results come back only for chunks handed out, chunks are handed out
    /// only up to the total, what is out is what was handed out and has not
    /// come back, and never more than `limit` chunks are out.
    pub closed spec fn wf(&self) -> bool {
        &&& self.limit >= 1
        &&& self.received <= self.dispatched <= self.total
        &&& self.inflight == self.dispatched - self.received
        &&& self.inflight <= self.limit
    }

    pub fn new(total: u32, limit: u32) -> (s: DecryptSchedule)
        requires
            limit >= 1,
        ensures
            s.wf(),
            s.total() == total,
            s.limit() == limit,
            s.dispatched() == 0,
            s.received() == 0,
            s.in_flight() == 0,
    {
        DecryptSchedule { total, limit, dispatched: 0, inflight: 0, received: 0 }
    }

    /// Whether every chunk's result is back.
    pub fn finished(&self) -> (b: bool)
        ensures
            b == (self.received() >= self.total()),
    {
        self.received >= self.total
    }

    /// Whether another chunk may be handed out now. When none may and the
    /// work is not finished, some chunk is out, so waiting for a result
    /// cannot wait forever on an empty pipeline.
    pub fn can_dispatch(&self) -> (b: bool)
        requires
            self.wf(),
        ensures
            b == (self.dispatched() < self.total() && self.in_flight() < self.limit()),
            self.in_flight() <= self.limit(),
            !b && self.received() < self.total() ==> self.in_flight() > 0,
    {
        self.dispatched < self.total && self.inflight < self.limit
    }

    /// The index of the next chunk to hand out.
    pub fn next_dispatch(&self) -> (i: u32)
        ensures
            i == self.dispatched(),
    {
        self.dispatched
    }

    pub fn note_dispatched(&mut self)
        requires
            old(self).wf(),
            old(self).dispatched() < old(self).total(),
            old(self).in_flight() < old(self).limit(),
        ensures
            final(self).wf(),
            final(self).total() == old(self).total(),
            final(self).limit() == old(self).limit(),
            final(self).dispatched() == old(self).dispatched() + 1,
            final(self).received() == old(self).received(),
            final(self).in_flight() == old(self).in_flight() + 1,
    {
        self.dispatched = self.dispatched + 1;
        self.inflight = self.inflight + 1;
    }

    pub fn note_received(&mut self)
        requires
            old(self).wf(),
            old(self).in_flight() > 0,
        ensures
            final(self).wf(),
            final(self).total() == old(self).total(),
            final(self).limit() == old(self).limit(),
            final(self).dispatched() == old(self).dispatched(),
            final(self).received() == old(self).received() + 1,
            final(self).in_flight() == old(self).in_flight() - 1,
    {
        self.received = self.received + 1;
        self.inflight = self.inflight - 1;
    }
}

} // verus!

verus! {

/// Bookkeeping of an encryption pipeline: chunks are read and handed to the
/// workers in index order, and one result comes back for each chunk handed
/// out. (How many are out at once is left to the bounded task queue.)
pub struct EncryptSchedule {
    total: u32,
    dispatched: u32,
    received: u32,
}

impl EncryptSchedule {
    pub closed spec fn total(&self) -> u32 {
        self.total
    }

    pub closed spec fn dispatched(&self) -> u32 {
        self.dispatched
    }

    pub closed spec fn received(&self) -> u32 {
        self.received
    }

    /// Results come back only for chunks handed out, and chunks are handed
    /// out only up to the total.
    pub closed spec fn wf(&self) -> bool {
        self.received <= self.dispatched <= self.total
    }

    pub fn new(total: u32) -> (s: EncryptSchedule)
        ensures
            s.wf(),
            s.total() == total,
            s.dispatched() == 0,
            s.received() == 0,
    {
        EncryptSchedule { total, dispatched: 0, received: 0 }
    }

    /// Whether every chunk has been handed out.
    pub fn all_dispatched(&self) -> (b: bool)
        ensures
            b == (self.dispatched() >= self.total()),
    {
        self.dispatched >= self.total
    }

    /// The index of the next chunk to read and hand out.
    pub fn next_dispatch(&self) -> (i: u32)
        ensures
            i == self.dispatched(),
    {
        self.dispatched
    }

    /// Whether a result is still owed for some chunk handed out.
    pub fn awaiting(&self) -> (b: bool)
        ensures
            b == (self.received() < self.dispatched()),
    {
        self.received < self.dispatched
    }

    /// Whether every chunk's result is back.
    pub fn finished(&self) -> (b: bool)
        requires
            self.wf(),
        ensures
            b == (self.received() >= self.total()),
            !b && self.dispatched() >= self.total() ==> self.received() < self.dispatched(),
    {
        self.received >= self.total
    }

    pub fn note_dispatched(&mut self)
        requires
            old(self).wf(),
            old(self).dispatched() < old(self).total(),
        ensures
            final(self).wf(),
            final(self).total() == old(self).total(),
            final(self).dispatched() == old(self).dispatched() + 1,
            final(self).received() == old(self).received(),
    {
        self.dispatched = self.dispatched + 1;
    }

    pub fn note_received(&mut self)
        requires
            old(self).wf(),
            old(self).received() < old(self).dispatched(),
        ensures
            final(self).wf(),
            final(self).total() == old(self).total(),
            final(self).dispatched() == old(self).dispatched(),
            final(self).received() == old(self).received() + 1,
    {
        self.received = self.received + 1;
    }
}

} // verus!
