//! Walks up the hierarchy.

use crate::model::{children_at, node_at, parent_at, Design, Document, NodeId, NodeKind};
use crate::schematic::kinds::{
    has_kind, is_kind, is_navigable_scope, navigable, nested, nests, parent_of,
};
use std::collections::HashSet;
use vstd::prelude::*;

verus! {

broadcast use vstd::std_specs::hash::group_hash_axioms;

/// Whether the walk from a node to its parent, and so on, ends within `n` steps.
pub open spec fn climbs(d: Document, id: u32, n: nat) -> bool
    decreases n,
{
    match parent_at(d, id) {
        Some(p) => n > 0 && climbs(d, p, (n - 1) as nat),
        None => true,
    }
}

/// Whether no node is its own ancestor.
pub open spec fn rooted(d: Document) -> bool {
    forall|id: u32| #[trigger] climbs(d, id, d.nodes@.len())
}

/// Whether walks up the hierarchy and down the generate blocks all end.
pub open spec fn hierarchical(d: Document) -> bool {
    rooted(d) && nested(d)
}

/// The nearest of a node and its ancestors that is in `boxes`.
pub open spec fn box_above(d: Document, id: u32, boxes: Set<u32>, n: nat) -> Option<u32>
    decreases n,
{
    if boxes.contains(id) {
        Some(id)
    } else {
        match parent_at(d, id) {
            Some(p) => if n > 0 {
                box_above(d, p, boxes, (n - 1) as nat)
            } else {
                None
            },
            None => None,
        }
    }
}

/// Whether `bx` is a node or one of its ancestors.
pub open spec fn lies_in(d: Document, id: u32, bx: u32, n: nat) -> bool
    decreases n,
{
    id == bx || match parent_at(d, id) {
        Some(p) => n > 0 && lies_in(d, p, bx, (n - 1) as nat),
        None => false,
    }
}

/// The nearest instance from a node upwards.
pub open spec fn instance_from(d: Document, id: u32, n: nat) -> Option<u32>
    decreases n,
{
    if has_kind(d, id, NodeKind::Instance) {
        Some(id)
    } else {
        match parent_at(d, id) {
            Some(p) => if n > 0 {
                instance_from(d, p, (n - 1) as nat)
            } else {
                None
            },
            None => None,
        }
    }
}

/// The nearest instance above a node, unless it is the top of the design.
pub open spec fn container_of(d: Document, id: u32) -> Option<u32> {
    match parent_at(d, id) {
        Some(p) => match instance_from(d, p, d.nodes@.len()) {
            Some(i) => if parent_at(d, i) is Some {
                Some(i)
            } else {
                None
            },
            None => None,
        },
        None => None,
    }
}

/// The nearest node from `id` upwards that can be opened as a scope.
pub open spec fn scope_from(d: Document, id: u32, n: nat) -> Option<u32>
    decreases n,
{
    if navigable(d, id) {
        Some(id)
    } else {
        match parent_at(d, id) {
            Some(p) => if n > 0 {
                scope_from(d, p, (n - 1) as nat)
            } else {
                None
            },
            None => None,
        }
    }
}

/// The path of a node, empty where there is none.
pub open spec fn path_or_empty(d: Document, id: u32) -> Seq<char> {
    match node_at(d, id) {
        Some(n) => n.path@,
        None => Seq::empty(),
    }
}

/// The path of the nearest scope around a seed, or of the seed itself.
pub open spec fn root_path(d: Document, seed: u32) -> Seq<char> {
    match scope_from(d, seed, d.nodes@.len()) {
        Some(s) => path_or_empty(d, s),
        None => path_or_empty(d, seed),
    }
}

pub fn box_of(design: &Design, node: NodeId, boxes: &HashSet<NodeId>) -> (r: Option<NodeId>)
    requires
        rooted(design.doc),
    ensures
        r == box_above(design.doc, node, boxes@, design.doc.nodes@.len()),
{
    let mut cur: NodeId = node;
    let ghost mut fuel: nat = design.doc.nodes@.len();
    assert(climbs(design.doc, node, fuel));
    loop
        invariant
            climbs(design.doc, cur, fuel),
            box_above(design.doc, node, boxes@, design.doc.nodes@.len()) == box_above(
                design.doc,
                cur,
                boxes@,
                fuel,
            ),
        decreases fuel,
    {
        if boxes.contains(&cur) {
            return Some(cur);
        }
        match parent_of(design, cur) {
            Some(p) => {
                cur = p;
                proof {
                    fuel = (fuel - 1) as nat;
                }
            },
            None => {
                return None;
            },
        }
    }
}

pub fn within_box(design: &Design, id: NodeId, bx: NodeId) -> (r: bool)
    requires
        rooted(design.doc),
    ensures
        r == lies_in(design.doc, id, bx, design.doc.nodes@.len()),
{
    let mut cur: NodeId = id;
    let ghost mut fuel: nat = design.doc.nodes@.len();
    assert(climbs(design.doc, id, fuel));
    loop
        invariant
            climbs(design.doc, cur, fuel),
            lies_in(design.doc, id, bx, design.doc.nodes@.len()) == lies_in(
                design.doc,
                cur,
                bx,
                fuel,
            ),
        decreases fuel,
    {
        if cur == bx {
            return true;
        }
        match parent_of(design, cur) {
            Some(p) => {
                cur = p;
                proof {
                    fuel = (fuel - 1) as nat;
                }
            },
            None => {
                return false;
            },
        }
    }
}

/// The nearest instance from a node upwards.
pub fn nearest_instance(design: &Design, node: NodeId) -> (r: Option<NodeId>)
    requires
        rooted(design.doc),
    ensures
        r == instance_from(design.doc, node, design.doc.nodes@.len()),
{
    let mut cur: NodeId = node;
    let ghost mut fuel: nat = design.doc.nodes@.len();
    assert(climbs(design.doc, node, fuel));
    loop
        invariant
            climbs(design.doc, cur, fuel),
            instance_from(design.doc, node, design.doc.nodes@.len()) == instance_from(
                design.doc,
                cur,
                fuel,
            ),
        decreases fuel,
    {
        if is_kind(design, cur, NodeKind::Instance) {
            return Some(cur);
        }
        match parent_of(design, cur) {
            Some(p) => {
                cur = p;
                proof {
                    fuel = (fuel - 1) as nat;
                }
            },
            None => {
                return None;
            },
        }
    }
}

/// The instance that contains a node, or `None` directly under the top.
pub fn containing_instance(design: &Design, node: NodeId) -> (r: Option<NodeId>)
    requires
        rooted(design.doc),
    ensures
        r == container_of(design.doc, node),
{
    match parent_of(design, node) {
        Some(p) => match nearest_instance(design, p) {
            Some(i) => if parent_of(design, i).is_some() {
                Some(i)
            } else {
                None
            },
            None => None,
        },
        None => None,
    }
}

/// The path of a node, empty where there is none.
pub fn path_of(design: &Design, id: NodeId) -> (r: String)
    ensures
        r@ == path_or_empty(design.doc, id),
{
    match design.node(id) {
        Some(n) => n.path.clone(),
        None => String::new(),
    }
}

/// The path of the nearest scope around a seed, or of the seed itself.
pub fn cone_root(design: &Design, seed: NodeId) -> (r: String)
    requires
        hierarchical(design.doc),
    ensures
        r@ == root_path(design.doc, seed),
{
    let mut cur: NodeId = seed;
    let ghost mut fuel: nat = design.doc.nodes@.len();
    assert(climbs(design.doc, seed, fuel));
    loop
        invariant
            nested(design.doc),
            climbs(design.doc, cur, fuel),
            scope_from(design.doc, seed, design.doc.nodes@.len()) == scope_from(
                design.doc,
                cur,
                fuel,
            ),
        decreases fuel,
    {
        if is_navigable_scope(design, cur) {
            return path_of(design, cur);
        }
        match parent_of(design, cur) {
            Some(p) => {
                cur = p;
                proof {
                    fuel = (fuel - 1) as nat;
                }
            },
            None => {
                return path_of(design, seed);
            },
        }
    }
}

fn ends_above(design: &Design, id: NodeId) -> (r: bool)
    ensures
        r == climbs(design.doc, id, design.doc.nodes@.len()),
{
    let mut cur: NodeId = id;
    let mut fuel: usize = design.doc.nodes.len();
    loop
        invariant
            climbs(design.doc, id, design.doc.nodes@.len()) == climbs(
                design.doc,
                cur,
                fuel as nat,
            ),
        decreases fuel,
    {
        match parent_of(design, cur) {
            Some(p) => {
                if fuel == 0 {
                    return false;
                }
                cur = p;
                fuel -= 1;
            },
            None => {
                return true;
            },
        }
    }
}

fn ends_below(design: &Design, id: NodeId, fuel: usize) -> (r: bool)
    ensures
        r == nests(design.doc, id, fuel as nat),
    decreases fuel,
{
    match design.node(id) {
        Some(n) => {
            let mut i: usize = 0;
            while i < n.children.len()
                invariant
                    i <= n.children@.len(),
                    n.children@ == children_at(design.doc, id),
                    forall|k: int|
                        #![trigger children_at(design.doc, id)[k]]
                        0 <= k < i && has_kind(
                            design.doc,
                            children_at(design.doc, id)[k],
                            NodeKind::GenBlock,
                        ) ==> fuel > 0 && nests(
                            design.doc,
                            children_at(design.doc, id)[k],
                            (fuel - 1) as nat,
                        ),
                decreases n.children@.len() - i,
            {
                let c: NodeId = n.children[i];
                assert(c == children_at(design.doc, id)[i as int]);
                if is_kind(design, c, NodeKind::GenBlock) {
                    if fuel == 0 {
                        return false;
                    }
                    if !ends_below(design, c, fuel - 1) {
                        return false;
                    }
                }
                i += 1;
            }
            true
        },
        None => true,
    }
}

/// Whether the hierarchy of a design has no cycles, so that every view can be drawn.
pub fn is_hierarchical(design: &Design) -> (r: bool)
    ensures
        r == hierarchical(design.doc),
{
    let n: usize = design.doc.nodes.len();
    let mut i: usize = 0;
    while i < n && i <= 0xffff_ffff
        invariant
            i <= n,
            n == design.doc.nodes@.len(),
            forall|id: u32|
                id < i ==> #[trigger] climbs(design.doc, id, n as nat) && nests(
                    design.doc,
                    id,
                    n as nat,
                ),
        decreases n - i,
    {
        if !ends_above(design, i as u32) {
            assert(!climbs(design.doc, i as u32, n as nat));
            return false;
        }
        if !ends_below(design, i as u32, n) {
            assert(!nests(design.doc, i as u32, n as nat));
            return false;
        }
        proof {
            let j = i as u32;
            assert forall|id: u32| id < i + 1 implies #[trigger] climbs(design.doc, id, n as nat)
                && nests(design.doc, id, n as nat) by {
                if id == j {
                    assert(climbs(design.doc, j, n as nat) && nests(design.doc, j, n as nat));
                }
            }
        }
        i += 1;
    }
    proof {
        assert forall|id: u32| #[trigger] climbs(design.doc, id, n as nat) by {
            if id >= n {
                assert(parent_at(design.doc, id) is None);
            }
        }
        assert forall|id: u32| #[trigger] nests(design.doc, id, n as nat) by {
            if id >= n {
                assert(children_at(design.doc, id) =~= Seq::empty());
            } else {
                assert(climbs(design.doc, id, n as nat));
            }
        }
    }
    true
}

} // verus!
