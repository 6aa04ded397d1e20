//! Nodes and what lies above them in the hierarchy.

use crate::model::{Document, NodeKind};
use crate::schematic::hierarchy::instance_from;
use vstd::prelude::*;

verus! {

/// The node `k` steps up from a node, by the parents that nodes name.
pub open spec fn up(d: Document, id: u32, k: nat) -> Option<u32>
    decreases k,
{
    if k == 0 {
        Some(id)
    } else if id < d.nodes@.len() {
        match d.nodes@[id as int].parent {
            Some(p) => up(d, p, (k - 1) as nat),
            None => None,
        }
    } else {
        None
    }
}

/// Whether the node `k` steps up is there and has a kind.
pub open spec fn up_is(d: Document, id: u32, k: nat, kind: NodeKind) -> bool {
    match up(d, id, k) {
        Some(x) => x < d.nodes@.len() && d.nodes@[x as int].kind == kind,
        None => false,
    }
}

/// Whether the first instance from a node upwards is `k` steps up.
pub open spec fn nearest_is(d: Document, id: u32, k: nat) -> bool {
    &&& up_is(d, id, k, NodeKind::Instance)
    &&& forall|j: nat| j < k ==> !#[trigger] up_is(d, id, j, NodeKind::Instance)
}

/// Whether a node is the first instance from another upwards, within as many steps as the
/// document has nodes.
pub open spec fn is_nearest(d: Document, id: u32, x: u32) -> bool {
    exists|k: nat|
        k <= d.nodes@.len() && #[trigger] nearest_is(d, id, k) && up(d, id, k) == Some(x)
}

proof fn lemma_found(d: Document, id: u32, n: nat, k: nat)
    requires
        k <= n,
        nearest_is(d, id, k),
    ensures
        instance_from(d, id, n) == up(d, id, k),
    decreases k,
{
    if k > 0 {
        assert(!up_is(d, id, 0, NodeKind::Instance));
        assert(up(d, id, k) is Some);
        let p = d.nodes@[id as int].parent->0;
        assert forall|j: nat| j < k - 1 implies !#[trigger] up_is(d, p, j, NodeKind::Instance) by {
            assert(up(d, id, (j + 1) as nat) == up(d, p, j));
            assert(!up_is(d, id, (j + 1) as nat, NodeKind::Instance));
        }
        lemma_found(d, p, (n - 1) as nat, (k - 1) as nat);
    } else {
        assert(up(d, id, 0) == Some(id));
    }
}

proof fn lemma_finds(d: Document, id: u32, n: nat) -> (k: nat)
    requires
        instance_from(d, id, n) is Some,
    ensures
        k <= n,
        nearest_is(d, id, k),
        up(d, id, k) == instance_from(d, id, n),
    decreases n,
{
    assert(up(d, id, 0) == Some(id));
    if up_is(d, id, 0, NodeKind::Instance) {
        0
    } else {
        let p = d.nodes@[id as int].parent->0;
        let m = lemma_finds(d, p, (n - 1) as nat);
        assert(up(d, id, (m + 1) as nat) == up(d, p, m));
        assert forall|j: nat| j < m + 1 implies !#[trigger] up_is(d, id, j, NodeKind::Instance) by {
            if j > 0 {
                assert(up(d, id, j) == up(d, p, (j - 1) as nat));
                assert(!up_is(d, p, (j - 1) as nat, NodeKind::Instance));
            }
        }
        (m + 1) as nat
    }
}

/// The nearest instance of a node is the first one on the way from it to the top.
pub proof fn law_nearest_instances_are_first(d: Document, id: u32, x: u32)
    ensures
        instance_from(d, id, d.nodes@.len()) == Some(x) <==> is_nearest(d, id, x),
{
    let n = d.nodes@.len();
    if instance_from(d, id, n) == Some(x) {
        let k = lemma_finds(d, id, n);
        assert(nearest_is(d, id, k));
    }
    if is_nearest(d, id, x) {
        let k = choose|k: nat|
            k <= n && #[trigger] nearest_is(d, id, k) && up(d, id, k) == Some(x);
        lemma_found(d, id, n, k);
    }
}

} // verus!
