//! Sets of ids listed in ascending order.

use std::collections::{BTreeMap, BTreeSet};
use vstd::prelude::*;
use vstd::std_specs::cmp::OrdSpec;
use vstd::std_specs::iter::IteratorSpec;

verus! {

broadcast use vstd::std_specs::btree::group_btree_axioms;

/// The members of `s` below `n`, ascending.
pub open spec fn below(s: Set<u32>, n: nat) -> Seq<u32>
    decreases n,
{
    if n == 0 {
        Seq::empty()
    } else {
        let r = below(s, (n - 1) as nat);
        if s.contains((n - 1) as u32) {
            r.push((n - 1) as u32)
        } else {
            r
        }
    }
}

/// The members of `s`, ascending.
pub open spec fn ascending(s: Set<u32>) -> Seq<u32> {
    below(s, 0x1_0000_0000)
}

/// Whether every element is greater than the one before it.
pub open spec fn increasing(s: Seq<u32>) -> bool {
    forall|i: int, j: int| 0 <= i < j < s.len() ==> s[i] < s[j]
}

proof fn lemma_below(s: Set<u32>, n: nat)
    requires
        n <= 0x1_0000_0000,
    ensures
        increasing(below(s, n)),
        forall|k: int| 0 <= k < below(s, n).len() ==> #[trigger] below(s, n)[k] < n,
        forall|x: u32| below(s, n).contains(x) <==> x < n && s.contains(x),
    decreases n,
{
    if n > 0 {
        let m = (n - 1) as nat;
        lemma_below(s, m);
        let r = below(s, m);
        assert forall|x: u32| below(s, n).contains(x) <==> x < n && s.contains(x) by {
            if s.contains(m as u32) {
                assert(below(s, n) == r.push(m as u32));
                if r.contains(x) {
                    let k = choose|k: int| 0 <= k < r.len() && r[k] == x;
                    assert(below(s, n)[k] == x);
                }
                if x == m as u32 {
                    assert(below(s, n)[r.len() as int] == x);
                }
                if below(s, n).contains(x) && x != m as u32 {
                    let k = choose|k: int| 0 <= k < below(s, n).len() && below(s, n)[k] == x;
                    assert(r[k] == x);
                }
            }
        }
    }
}

/// Two increasing sequences with the same members are the same sequence.
pub proof fn lemma_increasing_unique(a: Seq<u32>, b: Seq<u32>)
    requires
        increasing(a),
        increasing(b),
        forall|x: u32| a.contains(x) <==> b.contains(x),
    ensures
        a == b,
    decreases a.len(),
{
    if a.len() == 0 {
        if b.len() > 0 {
            assert(b.contains(b[0]));
        }
        assert(a =~= b);
    } else {
        assert(a.contains(a[0]));
        assert(b.len() > 0);
        assert(a.contains(a.last()));
        assert(b.contains(b.last()));
        let i = choose|i: int| 0 <= i < b.len() && b[i] == a.last();
        let j = choose|j: int| 0 <= j < a.len() && a[j] == b.last();
        assert(a.last() == b.last());
        let c = a.drop_last();
        let d = b.drop_last();
        assert forall|x: u32| c.contains(x) <==> d.contains(x) by {
            if c.contains(x) {
                let k = choose|k: int| 0 <= k < c.len() && c[k] == x;
                assert(a[k] == x);
                assert(a.contains(x));
                let m = choose|m: int| 0 <= m < b.len() && b[m] == x;
                assert(m < d.len());
                assert(d[m] == x);
            }
            if d.contains(x) {
                let k = choose|k: int| 0 <= k < d.len() && d[k] == x;
                assert(b[k] == x);
                assert(b.contains(x));
                let m = choose|m: int| 0 <= m < a.len() && a[m] == x;
                assert(m < c.len());
                assert(c[m] == x);
            }
        }
        lemma_increasing_unique(c, d);
        assert(a =~= c.push(a.last()));
        assert(b =~= d.push(b.last()));
    }
}

/// `ascending` lists exactly the members, each once, in order.
pub proof fn lemma_ascending(s: Set<u32>)
    ensures
        increasing(ascending(s)),
        forall|x: u32| ascending(s).contains(x) <==> s.contains(x),
{
    lemma_below(s, 0x1_0000_0000);
}

/// An increasing sequence with the members of `s` is `ascending(s)`.
pub proof fn lemma_ascending_unique(s: Set<u32>, q: Seq<u32>)
    requires
        increasing(q),
        forall|x: u32| s.contains(x) <==> q.contains(x),
    ensures
        q == ascending(s),
{
    lemma_ascending(s);
    lemma_increasing_unique(q, ascending(s));
}

/// What one more element adds to a prefix.
pub proof fn lemma_take_contains<A>(s: Seq<A>, k: int)
    requires
        0 <= k < s.len(),
    ensures
        s.take(k + 1) == s.take(k).push(s[k]),
        forall|x: A| #[trigger]
            s.take(k + 1).contains(x) <==> (s.take(k).contains(x) || x == s[k]),
{
    let a = s.take(k);
    let b = s.take(k + 1);
    assert(b =~= a.push(s[k]));
    assert forall|x: A| #[trigger] b.contains(x) <==> (a.contains(x) || x == s[k]) by {
        if a.contains(x) {
            let i = choose|i: int| 0 <= i < a.len() && a[i] == x;
            assert(b[i] == x);
        }
        if x == s[k] {
            assert(b[k] == x);
        }
        if b.contains(x) {
            let i = choose|i: int| 0 <= i < b.len() && b[i] == x;
            if i < k {
                assert(a[i] == x);
            }
        }
    }
}

/// The members of a set, ascending.
pub fn members(set: &BTreeSet<u32>) -> (r: Vec<u32>)
    ensures
        r@ == ascending(set@),
{
    let mut out: Vec<u32> = Vec::new();
    broadcast use vstd::laws_cmp::group_laws_cmp;

    let ghost q = vstd::std_specs::btree::spec_btree_keys_iter(set).remaining();
    for x in it: set.iter()
        invariant
            it.seq() == q,
            out@ == it.seq().unref().subrange(0, it.index() + 0),
    {
        out.push(*x);
        assert(out@ =~= it.seq().unref().subrange(0, it.index() + 1));
    }
    proof {
        assert(vstd::laws_cmp::obeys_cmp::<&u32>());
        vstd::std_specs::btree::axiom_increasing_seq_meaning::<&u32>(q);
        assert(out@ =~= q.unref());
        assert forall|i: int, j: int| 0 <= i < j < out@.len() implies out@[i] < out@[j] by {
            assert(OrdSpec::cmp_spec(&q[i], &q[j]) is Less);
        }
        lemma_ascending_unique(set@, out@);
    }
    out
}

/// The keys of a map, ascending.
pub fn map_keys<V>(m: &BTreeMap<u32, V>) -> (r: Vec<u32>)
    ensures
        r@ == ascending(m@.dom()),
{
    broadcast use vstd::laws_cmp::group_laws_cmp;

    let mut out: Vec<u32> = Vec::new();
    let ghost q = vstd::std_specs::btree::spec_keys_iter(m).remaining();
    for x in it: m.keys()
        invariant
            it.seq() == q,
            out@ == it.seq().unref().subrange(0, it.index() + 0),
    {
        out.push(*x);
        assert(out@ =~= it.seq().unref().subrange(0, it.index() + 1));
    }
    proof {
        assert(vstd::laws_cmp::obeys_cmp::<&u32>());
        vstd::std_specs::btree::axiom_increasing_seq_meaning::<&u32>(q);
        assert(out@ =~= q.unref());
        assert forall|i: int, j: int| 0 <= i < j < out@.len() implies out@[i] < out@[j] by {
            assert(OrdSpec::cmp_spec(&q[i], &q[j]) is Less);
        }
        assert forall|x: u32| m@.dom().contains(x) <==> out@.contains(x) by {
            assert(out@.to_set().contains(x) <==> m@.dom().contains(x));
        }
        lemma_ascending_unique(m@.dom(), out@);
    }
    out
}

} // verus!
