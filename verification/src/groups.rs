//! A multimap from ids to values that keeps the order in which values came.

use crate::order::{ascending, map_keys};
use std::collections::BTreeMap;
use vstd::prelude::*;

verus! {

broadcast use vstd::std_specs::btree::group_btree_axioms;

/// The values that a log of `(key, value)` entries holds under `key`, in order.
pub open spec fn under<T>(log: Seq<(u32, T)>, key: u32) -> Seq<T>
    decreases log.len(),
{
    if log.len() == 0 {
        Seq::empty()
    } else {
        let r = under(log.drop_last(), key);
        if log.last().0 == key {
            r.push(log.last().1)
        } else {
            r
        }
    }
}

/// The keys that a log of entries mentions.
pub open spec fn keys_in<T>(log: Seq<(u32, T)>) -> Set<u32> {
    Set::new(|k: u32| under(log, k).len() > 0)
}

/// Values grouped by key. Its view is the log of what was pushed.
pub struct Groups<T> {
    map: BTreeMap<u32, Vec<T>>,
    none: Vec<T>,
    log: Ghost<Seq<(u32, T)>>,
}

impl<T> View for Groups<T> {
    type V = Seq<(u32, T)>;

    closed spec fn view(&self) -> Seq<(u32, T)> {
        self.log@
    }
}

pub proof fn lemma_under_push<T>(log: Seq<(u32, T)>, key: u32, v: T, k: u32)
    ensures
        under(log.push((key, v)), k) == if k == key {
            under(log, k).push(v)
        } else {
            under(log, k)
        },
{
    assert(log.push((key, v)).drop_last() =~= log);
}

pub proof fn lemma_under_add<T>(a: Seq<(u32, T)>, b: Seq<(u32, T)>, k: u32)
    ensures
        under(a + b, k) == under(a, k) + under(b, k),
    decreases b.len(),
{
    if b.len() == 0 {
        assert(a + b =~= a);
        assert(under(a, k) + under(b, k) =~= under(a, k));
    } else {
        assert((a + b).drop_last() =~= a + b.drop_last());
        lemma_under_add(a, b.drop_last(), k);
        assert(under(a + b, k) =~= under(a, k) + under(b, k));
    }
}

impl<T> Groups<T> {
    /// The map holds under each key what the log says, and no empty groups.
    pub closed spec fn wf(&self) -> bool {
        &&& self.none@.len() == 0
        &&& forall|k: u32| #[trigger]
            self.map@.contains_key(k) ==> self.map@[k]@ == under(self.log@, k)
        &&& forall|k: u32| self.map@.contains_key(k) <==> #[trigger] under(self.log@, k).len() > 0
    }

    /// No groups.
    pub fn new() -> (r: Self)
        ensures
            r.wf(),
            r@ == Seq::<(u32, T)>::empty(),
    {
        Groups { map: BTreeMap::new(), none: Vec::new(), log: Ghost(Seq::empty()) }
    }

    /// Appends a value to the group of `key`.
    pub fn push(&mut self, key: u32, v: T)
        requires
            old(self).wf(),
        ensures
            final(self).wf(),
            final(self)@ == old(self)@.push((key, v)),
    {
        broadcast use vstd::laws_cmp::group_laws_cmp;

        let ghost before = self.map@;
        let ghost log = self.log@;
        let mut group: Vec<T> = match self.map.remove(&key) {
            Some(g) => g,
            None => Vec::new(),
        };
        proof {
            assert(under(log, key).len() == 0 ==> under(log, key) =~= Seq::empty());
            assert(group@ =~= under(log, key));
        }
        group.push(v);
        self.map.insert(key, group);
        proof {
            self.log@ = log.push((key, v));
            assert forall|k: u32| under(log.push((key, v)), k) == if k == key {
                under(log, k).push(v)
            } else {
                under(log, k)
            } by {
                lemma_under_push(log, key, v, k);
            }
            assert forall|k: u32| self.map@.contains_key(k) <==> #[trigger] under(
                self.log@,
                k,
            ).len() > 0 by {
                assert(before.contains_key(k) <==> under(log, k).len() > 0);
            }
            assert forall|k: u32| #[trigger] self.map@.contains_key(k) implies self.map@[k]@
                == under(self.log@, k) by {
                assert(k != key ==> before.contains_key(k));
            }
        }
    }

    /// The group of `key`, in the order of the pushes.
    pub fn get(&self, key: u32) -> (r: Option<&Vec<T>>)
        requires
            self.wf(),
        ensures
            match r {
                Some(v) => v@ == under(self@, key) && v@.len() > 0,
                None => under(self@, key).len() == 0,
            },
    {
        broadcast use vstd::laws_cmp::group_laws_cmp;

        proof {
            assert(self.map@.contains_key(key) <==> under(self.log@, key).len() > 0);
        }
        self.map.get(&key)
    }

    /// The group of `key` as a slice, empty where nothing was pushed.
    pub fn slice(&self, key: u32) -> (r: &[T])
        requires
            self.wf(),
        ensures
            r@ == under(self@, key),
    {
        match self.get(key) {
            Some(v) => v.as_slice(),
            None => {
                assert(self.none@ =~= under(self@, key));
                self.none.as_slice()
            },
        }
    }

    /// Whether anything was pushed under `key`.
    pub fn has(&self, key: u32) -> (r: bool)
        requires
            self.wf(),
        ensures
            r == keys_in(self@).contains(key),
    {
        self.get(key).is_some()
    }

    /// The keys, ascending.
    pub fn keys(&self) -> (r: Vec<u32>)
        requires
            self.wf(),
        ensures
            r@ == ascending(keys_in(self@)),
    {
        proof {
            assert forall|x: u32| keys_in(self@).contains(x) <==> self.map@.dom().contains(x) by {
                assert(self.map@.contains_key(x) <==> under(self.log@, x).len() > 0);
            }
            assert(keys_in(self@) =~= self.map@.dom());
        }
        map_keys(&self.map)
    }
}

} // verus!
