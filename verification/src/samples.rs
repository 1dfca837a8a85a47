//! Samples of earlier ticks, kept until their process or thread is gone.

use std::collections::{HashMap, HashSet};
use std::hash::Hash;
use vstd::prelude::*;
use crate::model::{PrevSample, ThreadPrevSample};

verus! {

/// Whether `v` holds `x`.
pub fn holds(v: &[u32], x: u32) -> (r: bool)
    ensures
        r == v@.contains(x),
{
    let mut i: usize = 0;
    while i < v.len()
        invariant
            i <= v@.len(),
            forall|j: int| 0 <= j < i ==> v@[j] != x,
        decreases v@.len() - i,
    {
        if v[i] == x {
            return true;
        }
        i += 1;
    }
    false
}

// ---------------------------------------------------------------------------
// Processes

/// The samples of the given processes alone.
pub fn restricted(samples: &HashMap<u32, PrevSample>, pids: &[u32]) -> (r: HashMap<u32, PrevSample>)
    ensures
        r@ == samples@.restrict(pids@.to_set()),
{
    broadcast use vstd::std_specs::hash::group_hash_axioms;

    let mut out: HashMap<u32, PrevSample> = HashMap::new();
    let mut i: usize = 0;
    assert(out@ =~= samples@.restrict(pids@.take(0).to_set()));
    while i < pids.len()
        invariant
            i <= pids@.len(),
            out@ == samples@.restrict(pids@.take(i as int).to_set()),
        decreases pids@.len() - i,
    {
        let pid = pids[i];
        let ghost now = pids@.take(i as int);
        let ghost next = pids@.take(i + 1);
        proof {
            assert(next =~= now.push(pid));
            assert forall|x: u32| #[trigger] next.contains(x) <==> now.contains(x) || x == pid by {
                if now.contains(x) {
                    let k = choose|k: int| 0 <= k < now.len() && now[k] == x;
                    assert(next[k] == x);
                }
                if x == pid {
                    assert(next[i as int] == x);
                }
            }
        }
        if let Some(sample) = samples.get(&pid) {
            out.insert(pid, *sample);
        }
        assert(out@ =~= samples@.restrict(next.to_set()));
        i += 1;
    }
    assert(pids@.take(pids@.len() as int) =~= pids@);
    out
}

/// The keys of a map, in some order.
pub(crate) fn keys_of<K: Copy + Eq + Hash, V>(map: &HashMap<K, V>) -> (r: Vec<K>)
    requires
        vstd::std_specs::hash::obeys_key_model::<K>(),
    ensures
        r@.to_set() == map@.dom(),
        r@.no_duplicates(),
{
    broadcast use vstd::std_specs::hash::group_hash_axioms;

    let mut out: Vec<K> = Vec::new();
    for k in it: map.keys()
        invariant
            it.seq().unref().to_set() == map@.dom(),
            it.seq().unref().no_duplicates(),
            out@ == it.seq().unref().take(it.index() as int),
            it.index() == it.seq().len() ==> out@ == it.seq().unref(),
    {
        proof {
            let ks = it.seq().unref();
            assert(ks.take(it.index() + 1) =~= ks.take(it.index() as int).push(*k));
            assert(ks.take(ks.len() as int) =~= ks);
        }
        out.push(*k);
    }
    out
}

/// The number of different values in a map.
pub fn distinct_values(map: &HashMap<u32, u32>) -> (r: usize)
    ensures
        r == map@.values().len(),
{
    broadcast use vstd::std_specs::hash::group_hash_axioms;

    let keys = keys_of(map);
    let mut seen: HashSet<u32> = HashSet::new();
    let mut i: usize = 0;
    while i < keys.len()
        invariant
            i <= keys@.len(),
            keys@.to_set() == map@.dom(),
            forall|v: u32| #[trigger]
                seen@.contains(v) <==> exists|j: int| 0 <= j < i && map@[#[trigger] keys@[j]] == v,
        decreases keys@.len() - i,
    {
        let ghost before = seen@;
        proof {
            assert(keys@.contains(keys@[i as int]));
            assert(keys@.to_set().contains(keys@[i as int]));
        }
        if let Some(v) = map.get(&keys[i]) {
            seen.insert(*v);
        }
        proof {
            assert forall|v: u32| #[trigger]
                seen@.contains(v) <==> exists|j: int|
                    0 <= j < i + 1 && map@[#[trigger] keys@[j]] == v by {
                if before.contains(v) {
                    let j = choose|j: int| 0 <= j < i && map@[#[trigger] keys@[j]] == v;
                    assert(map@[keys@[j]] == v);
                }
                assert(map@[keys@[i as int]] == map@[keys@[i as int]]);
            }
        }
        i += 1;
    }
    proof {
        assert forall|v: u32| seen@.contains(v) <==> #[trigger] map@.values().contains(v) by {
            if map@.values().contains(v) {
                let k = choose|k: u32| #[trigger] map@.dom().contains(k) && map@[k] == v;
                assert(keys@.to_set().contains(k));
                let j = choose|j: int| 0 <= j < keys@.len() && keys@[j] == k;
                assert(map@[keys@[j]] == v);
            }
            if seen@.contains(v) {
                let j = choose|j: int| 0 <= j < i && map@[#[trigger] keys@[j]] == v;
                assert(keys@.contains(keys@[j]));
                assert(keys@.to_set().contains(keys@[j]));
                assert(map@.dom().contains(keys@[j]));
            }
        }
        assert(seen@ =~= map@.values());
    }
    seen.len()
}

// ---------------------------------------------------------------------------
// Threads

/// The number that stands for a thread of a process.
spec fn thread_key(pid: u32, tid: u32) -> u64 {
    (pid * 0x1_0000_0000 + tid) as u64
}

proof fn lemma_thread_key(pid: u32, tid: u32)
    ensures
        thread_key(pid, tid) == pid * 0x1_0000_0000 + tid,
        thread_key(pid, tid) / 0x1_0000_0000 == pid,
        thread_key(pid, tid) % 0x1_0000_0000 == tid,
{
}

fn key_of(pid: u32, tid: u32) -> (r: u64)
    ensures
        r == thread_key(pid, tid),
{
    pid as u64 * 0x1_0000_0000 + tid as u64
}

/// The earlier samples of threads, by process and thread.
pub struct ThreadSamples {
    map: HashMap<u64, ThreadPrevSample>,
}

impl View for ThreadSamples {
    type V = Map<(u32, u32), ThreadPrevSample>;

    closed spec fn view(&self) -> Map<(u32, u32), ThreadPrevSample> {
        Map::new(
            |k: (u32, u32)| self.map@.contains_key(thread_key(k.0, k.1)),
            |k: (u32, u32)| self.map@[thread_key(k.0, k.1)],
        )
    }
}

impl ThreadSamples {
    /// No samples.
    pub fn new() -> (r: Self)
        ensures
            r@ == Map::<(u32, u32), ThreadPrevSample>::empty(),
    {
        broadcast use vstd::std_specs::hash::group_hash_axioms;

        let r = ThreadSamples { map: HashMap::new() };
        assert(r@ =~= Map::<(u32, u32), ThreadPrevSample>::empty());
        r
    }

    /// The sample of a thread, if there is one.
    pub fn get(&self, pid: u32, tid: u32) -> (r: Option<ThreadPrevSample>)
        ensures
            r == if self@.contains_key((pid, tid)) {
                Some(self@[(pid, tid)])
            } else {
                None
            },
    {
        broadcast use vstd::std_specs::hash::group_hash_axioms;

        match self.map.get(&key_of(pid, tid)) {
            Some(sample) => Some(*sample),
            None => None,
        }
    }

    /// Sets the sample of a thread.
    pub fn insert(&mut self, pid: u32, tid: u32, sample: ThreadPrevSample)
        ensures
            final(self)@ == old(self)@.insert((pid, tid), sample),
    {
        broadcast use vstd::std_specs::hash::group_hash_axioms;

        self.map.insert(key_of(pid, tid), sample);
        proof {
            assert forall|k: (u32, u32)| thread_key(k.0, k.1) == thread_key(pid, tid) implies k == (
                pid,
                tid,
            ) by {
                lemma_thread_key(k.0, k.1);
                lemma_thread_key(pid, tid);
            }
            assert(self@ =~= old(self)@.insert((pid, tid), sample));
        }
    }

    /// Keeps the samples of the given processes alone.
    pub fn keep_processes(&mut self, pids: &[u32])
        ensures
            final(self)@ == old(self)@.restrict(Set::new(|k: (u32, u32)| pids@.contains(k.0))),
    {
        self.keep(pids, true, 0);
        proof {
            let a = Set::new(|k: (u32, u32)| pids@.contains(k.0));
            let b = Set::new(|k: (u32, u32)| stays(k, pids@, true, 0));
            assert(a =~= b);
        }
    }

    /// Of one process, keeps the samples of the given threads alone. Those of other processes stay.
    pub fn keep_threads(&mut self, pid: u32, tids: &[u32])
        ensures
            final(self)@ == old(self)@.restrict(
                Set::new(|k: (u32, u32)| k.0 != pid || tids@.contains(k.1)),
            ),
    {
        self.keep(tids, false, pid);
        proof {
            let a = Set::new(|k: (u32, u32)| k.0 != pid || tids@.contains(k.1));
            let b = Set::new(|k: (u32, u32)| stays(k, tids@, false, pid));
            assert(a =~= b);
        }
    }

    fn keep(&mut self, ids: &[u32], by_process: bool, pid: u32)
        ensures
            final(self)@ == old(self)@.restrict(
                Set::new(|k: (u32, u32)| stays(k, ids@, by_process, pid)),
            ),
    {
        broadcast use vstd::std_specs::hash::group_hash_axioms;

        let keys = keys_of(&self.map);
        let mut out: HashMap<u64, ThreadPrevSample> = HashMap::new();
        let mut i: usize = 0;
        while i < keys.len()
            invariant
                i <= keys@.len(),
                keys@.to_set() == self.map@.dom(),
                *self == *old(self),
                forall|k: u64| #[trigger]
                    out@.contains_key(k) <==> keys@.take(i as int).contains(k) && stays(
                        ((k / 0x1_0000_0000) as u32, (k % 0x1_0000_0000) as u32),
                        ids@,
                        by_process,
                        pid,
                    ),
                forall|k: u64| #[trigger] out@.contains_key(k) ==> out@[k] == self.map@[k],
            decreases keys@.len() - i,
        {
            let key = keys[i];
            let p: u32 = (key / 0x1_0000_0000) as u32;
            let t: u32 = (key % 0x1_0000_0000) as u32;
            proof {
                let now = keys@.take(i as int);
                let next = keys@.take(i + 1);
                assert(keys@.contains(key));
                assert(keys@.to_set().contains(key));
                assert(next =~= now.push(key));
                assert forall|x: u64| #[trigger] next.contains(x) <==> now.contains(x) || x == key by {
                    if now.contains(x) {
                        let j = choose|j: int| 0 <= j < now.len() && now[j] == x;
                        assert(next[j] == x);
                    }
                    if x == key {
                        assert(next[i as int] == x);
                    }
                }
            }
            let stay = if by_process {
                holds(ids, p)
            } else {
                p != pid || holds(ids, t)
            };
            if stay {
                if let Some(sample) = self.map.get(&key) {
                    out.insert(key, *sample);
                }
            }
            i += 1;
        }
        proof {
            assert(keys@.take(keys@.len() as int) =~= keys@);
            assert forall|k: u64| self.map@.contains_key(k) <==> #[trigger] keys@.contains(k) by {
                assert(keys@.to_set().contains(k) <==> keys@.contains(k));
            }
        }
        let ghost before = self.map@;
        self.map = out;
        proof {
            assert forall|p: u32, t: u32|
                #![trigger thread_key(p, t)]
                ((thread_key(p, t) / 0x1_0000_0000) as u32, (thread_key(p, t) % 0x1_0000_0000) as u32)
                    == (p, t) by {
                lemma_thread_key(p, t);
            }
            assert(self@ =~= old(self)@.restrict(
                Set::new(|k: (u32, u32)| stays(k, ids@, by_process, pid)),
            ));
        }
    }
}

/// Whether the sample of a thread stays.
spec fn stays(k: (u32, u32), ids: Seq<u32>, by_process: bool, pid: u32) -> bool {
    if by_process {
        ids.contains(k.0)
    } else {
        k.0 != pid || ids.contains(k.1)
    }
}

} // verus!
