//! Ids by the text they stand at.

use crate::groups::{lemma_under_push, under, Groups};
use crate::text::same;
use vstd::prelude::*;
use vstd::string::*;

verus! {

broadcast use vstd::string::group_string_axioms;

/// The ids that a log of `(path, id)` entries holds at `path`, in order.
pub open spec fn ids_at(log: Seq<(Seq<char>, u32)>, path: Seq<char>) -> Seq<u32>
    decreases log.len(),
{
    if log.len() == 0 {
        Seq::empty()
    } else {
        let r = ids_at(log.drop_last(), path);
        if log.last().0 == path {
            r.push(log.last().1)
        } else {
            r
        }
    }
}

/// The paths that a log mentions.
pub open spec fn paths_in(log: Seq<(Seq<char>, u32)>) -> Set<Seq<char>> {
    Set::new(|p: Seq<char>| ids_at(log, p).len() > 0)
}

pub proof fn lemma_ids_push(log: Seq<(Seq<char>, u32)>, path: Seq<char>, id: u32, p: Seq<char>)
    ensures
        ids_at(log.push((path, id)), p) == if p == path {
            ids_at(log, p).push(id)
        } else {
            ids_at(log, p)
        },
{
    assert(log.push((path, id)).drop_last() =~= log);
}

spec fn hash_of(s: Seq<char>) -> u32
    decreases s.len(),
{
    if s.len() == 0 {
        2166136261u32
    } else {
        ((hash_of(s.drop_last()) * 31 + s.last() as u32) % 0x1_0000_0000) as u32
    }
}

fn hashed(s: &str) -> (r: u32)
    ensures
        r == hash_of(s@),
{
    let mut h: u32 = 2166136261u32;
    for c in it: s.chars()
        invariant
            it.seq() == s@,
            h == hash_of(s@.subrange(0, it.index() as int)),
    {
        proof {
            assert(s@.subrange(0, it.index() + 1).drop_last() =~= s@.subrange(
                0,
                it.index() as int,
            ));
        }
        h = ((h as u64 * 31 + (c as u32) as u64) % 0x1_0000_0000) as u32;
    }
    assert(s@.subrange(0, s@.len() as int) =~= s@);
    h
}

/// Ids by path. Its view is the log of `(path, id)` entries it took.
pub struct PathIndex {
    paths: Vec<String>,
    slots: Vec<Vec<u32>>,
    buckets: Groups<usize>,
    none: Vec<u32>,
    log: Ghost<Seq<(Seq<char>, u32)>>,
}

impl View for PathIndex {
    type V = Seq<(Seq<char>, u32)>;

    closed spec fn view(&self) -> Seq<(Seq<char>, u32)> {
        self.log@
    }
}

impl PathIndex {
    /// Every path of the log has one slot, which its bucket lists and which holds
    /// the ids at the path.
    pub closed spec fn wf(&self) -> bool {
        &&& self.buckets.wf()
        &&& self.none@.len() == 0
        &&& self.paths@.len() == self.slots@.len()
        &&& forall|i: int, j: int|
            0 <= i < j < self.paths@.len() ==> (#[trigger] self.paths@[i])@ != (
            #[trigger] self.paths@[j])@
        &&& forall|i: int|
            0 <= i < self.slots@.len() ==> (#[trigger] self.slots@[i])@ == ids_at(
                self.log@,
                self.paths@[i]@,
            )
        &&& forall|p: Seq<char>| #[trigger]
            ids_at(self.log@, p).len() > 0 <==> self.slot_of(p) is Some
        &&& forall|h: u32, k: int|
            0 <= k < under(self.buckets@, h).len() ==> #[trigger] under(self.buckets@, h)[k]
                < self.paths@.len()
        &&& forall|i: int|
            0 <= i < self.paths@.len() ==> under(
                self.buckets@,
                hash_of((#[trigger] self.paths@[i])@),
            ).contains(i as usize)
    }

    spec fn slot_of(&self, p: Seq<char>) -> Option<int> {
        if exists|i: int| 0 <= i < self.paths@.len() && (#[trigger] self.paths@[i])@ == p {
            Some(choose|i: int| 0 <= i < self.paths@.len() && (#[trigger] self.paths@[i])@ == p)
        } else {
            None
        }
    }

    /// No paths.
    pub fn new() -> (r: PathIndex)
        ensures
            r.wf(),
            r@ == Seq::<(Seq<char>, u32)>::empty(),
    {
        PathIndex {
            paths: Vec::new(),
            slots: Vec::new(),
            buckets: Groups::new(),
            none: Vec::new(),
            log: Ghost(Seq::empty()),
        }
    }

    fn find_slot(&self, path: &str) -> (r: Option<usize>)
        requires
            self.wf(),
        ensures
            match r {
                Some(i) => i < self.paths@.len() && self.paths@[i as int]@ == path@,
                None => forall|i: int|
                    0 <= i < self.paths@.len() ==> (#[trigger] self.paths@[i])@ != path@,
            },
    {
        let h: u32 = hashed(path);
        let bucket: &[usize] = self.buckets.slice(h);
        let mut k: usize = 0;
        while k < bucket.len()
            invariant
                self.wf(),
                k <= bucket@.len(),
                bucket@ == under(self.buckets@, h),
                forall|j: int|
                    0 <= j < k ==> self.paths@[(#[trigger] bucket@[j]) as int]@ != path@,
            decreases bucket@.len() - k,
        {
            let i: usize = bucket[k];
            assert(under(self.buckets@, h)[k as int] < self.paths@.len());
            if same(self.paths[i].as_str(), path) {
                return Some(i);
            }
            k += 1;
        }
        proof {
            assert forall|i: int| 0 <= i < self.paths@.len() implies (#[trigger] self.paths@[i])@
                != path@ by {
                if self.paths@[i]@ == path@ {
                    assert(i < self.paths.len());
                    assert(bucket@.contains(i as usize));
                    let j = choose|j: int| 0 <= j < bucket@.len() && bucket@[j] == i as usize;
                    assert(self.paths@[bucket@[j] as int]@ != path@);
                }
            }
        }
        None
    }

    /// Adds an id at a path.
    pub fn insert(&mut self, path: &str, id: u32)
        requires
            old(self).wf(),
        ensures
            final(self).wf(),
            final(self)@ == old(self)@.push((path@, id)),
    {
        let ghost log = self.log@;
        let ghost before = *self;
        proof {
            assert forall|p: Seq<char>| ids_at(log.push((path@, id)), p) == if p == path@ {
                ids_at(log, p).push(id)
            } else {
                ids_at(log, p)
            } by {
                lemma_ids_push(log, path@, id, p);
            }
        }
        match self.find_slot(path) {
            Some(i) => {
                let mut ids: Vec<u32> = Vec::new();
                std::mem::swap(&mut ids, &mut self.slots[i]);
                ids.push(id);
                self.slots.set(i, ids);
                proof {
                    self.log@ = log.push((path@, id));
                    assert(self.paths@ == before.paths@);
                    assert forall|p: Seq<char>| #[trigger]
                        ids_at(self.log@, p).len() > 0 <==> self.slot_of(p) is Some by {
                        assert(ids_at(log, p).len() > 0 <==> before.slot_of(p) is Some);
                        assert(self.paths@[i as int]@ == path@);
                    }
                    assert forall|j: int| 0 <= j < self.slots@.len() implies (
                    #[trigger] self.slots@[j])@ == ids_at(self.log@, self.paths@[j]@) by {
                        assert(before.slots@[j]@ == ids_at(log, self.paths@[j]@));
                    }
                }
            },
            None => {
                let n: usize = self.paths.len();
                let h: u32 = hashed(path);
                let ghost bl = self.buckets@;
                self.buckets.push(h, n);
                self.paths.push(String::from_str(path));
                let mut ids: Vec<u32> = Vec::new();
                ids.push(id);
                self.slots.push(ids);
                proof {
                    self.log@ = log.push((path@, id));
                    assert(before.slot_of(path@) is None);
                    assert(ids_at(log, path@).len() == 0);
                    assert(ids_at(self.log@, path@) =~= seq![id]);
                    assert forall|p: Seq<char>| #[trigger]
                        ids_at(self.log@, p).len() > 0 <==> self.slot_of(p) is Some by {
                        assert(ids_at(log, p).len() > 0 <==> before.slot_of(p) is Some);
                        if p == path@ {
                            assert(self.paths@[n as int]@ == p);
                        } else {
                            if before.slot_of(p) is Some {
                                let w = before.slot_of(p)->0;
                                assert(self.paths@[w]@ == p);
                            }
                            if self.slot_of(p) is Some {
                                let w = self.slot_of(p)->0;
                                assert(self.paths@[w]@ == p);
                                assert(before.paths@[w]@ == p);
                            }
                        }
                    }
                    assert forall|j: int| 0 <= j < self.slots@.len() implies (
                    #[trigger] self.slots@[j])@ == ids_at(self.log@, self.paths@[j]@) by {
                        if j < n {
                            assert(before.slots@[j]@ == ids_at(log, before.paths@[j]@));
                            assert(self.paths@[j] == before.paths@[j]);
                        }
                    }
                    assert forall|h2: u32, k: int|
                        0 <= k < under(self.buckets@, h2).len() implies #[trigger] under(
                        self.buckets@,
                        h2,
                    )[k] < self.paths@.len() by {
                        lemma_under_push(bl, h, n, h2);
                        if k < under(bl, h2).len() {
                            assert(under(bl, h2)[k] < before.paths@.len());
                        }
                    }
                    assert forall|i: int| 0 <= i < self.paths@.len() implies under(
                        self.buckets@,
                        hash_of((#[trigger] self.paths@[i])@),
                    ).contains(i as usize) by {
                        let h2 = hash_of(self.paths@[i]@);
                        lemma_under_push(bl, h, n, h2);
                        if i < n {
                            assert(self.paths@[i] == before.paths@[i]);
                            assert(under(bl, h2).contains(i as usize));
                            let k = choose|k: int|
                                0 <= k < under(bl, h2).len() && under(bl, h2)[k] == i as usize;
                            assert(under(self.buckets@, h2)[k] == i as usize);
                        } else {
                            assert(under(self.buckets@, h2)[under(bl, h2).len() as int] == n);
                        }
                    }
                }
            },
        }
    }

    /// The ids at a path, in the order in which they came.
    pub fn get(&self, path: &str) -> (r: &[u32])
        requires
            self.wf(),
        ensures
            r@ == ids_at(self@, path@),
    {
        match self.find_slot(path) {
            Some(i) => self.slots[i].as_slice(),
            None => {
                proof {
                    assert(self.slot_of(path@) is None);
                    assert(ids_at(self.log@, path@).len() == 0);
                    assert(self.none@ =~= ids_at(self.log@, path@));
                }
                self.none.as_slice()
            },
        }
    }

    /// The number of distinct paths.
    pub fn len(&self) -> (r: usize)
        requires
            self.wf(),
        ensures
            r == paths_in(self@).len(),
            paths_in(self@).finite(),
    {
        proof {
            let ps = self.paths@.map_values(|s: String| s@);
            assert(ps.no_duplicates()) by {
                assert forall|i: int, j: int| 0 <= i < ps.len() && 0 <= j < ps.len() && i
                    != j implies ps[i] != ps[j] by {
                    assert(self.paths@[i]@ != self.paths@[j]@ || i == j);
                }
            }
            ps.unique_seq_to_set();
            assert forall|p: Seq<char>| ps.to_set().contains(p) <==> paths_in(self@).contains(
                p,
            ) by {
                assert(ids_at(self.log@, p).len() > 0 <==> self.slot_of(p) is Some);
                if ps.contains(p) {
                    let i = choose|i: int| 0 <= i < ps.len() && ps[i] == p;
                    assert(self.paths@[i]@ == p);
                }
                if self.slot_of(p) is Some {
                    let i = self.slot_of(p)->0;
                    assert(ps[i] == p);
                }
            }
            assert(ps.to_set() =~= paths_in(self@));
        }
        self.paths.len()
    }
}

} // verus!
