//! What the lookups of a document find.

use crate::model::{at_path, incident, meeting, path_log, touching, Document, Edge, Node};
use crate::order::lemma_ascending;
use crate::paths::{ids_at, lemma_ids_push};
use vstd::prelude::*;

verus! {

proof fn lemma_ids_at(nodes: Seq<Node>, n: nat, path: Seq<char>, x: u32)
    requires
        n <= nodes.len(),
    ensures
        ids_at(path_log(nodes, n), path).contains(x) <==> exists|i: int|
            0 <= i < n && (#[trigger] nodes[i]).path@ == path && nodes[i].id == x,
    decreases n,
{
    if n > 0 {
        lemma_ids_at(nodes, (n - 1) as nat, path, x);
        let log = path_log(nodes, (n - 1) as nat);
        let last = nodes[n - 1];
        lemma_ids_push(log, last.path@, last.id, path);
        let r = ids_at(log, path);
        let s = ids_at(path_log(nodes, n), path);
        if last.path@ == path {
            assert(s == r.push(last.id));
            if r.contains(x) {
                let k = choose|k: int| 0 <= k < r.len() && r[k] == x;
                assert(s[k] == x);
            }
            if last.id == x {
                assert(s[r.len() as int] == x);
            }
            if s.contains(x) && last.id != x {
                let k = choose|k: int| 0 <= k < s.len() && s[k] == x;
                assert(r[k] == x);
            }
        }
        if exists|i: int| 0 <= i < n && (#[trigger] nodes[i]).path@ == path && nodes[i].id == x {
            let i = choose|i: int|
                0 <= i < n && (#[trigger] nodes[i]).path@ == path && nodes[i].id == x;
            if i < n - 1 {
                assert(nodes[i].path@ == path);
            }
        }
    }
}

/// A path lists the ids of the nodes that have it, and no others.
pub proof fn law_paths_list_their_nodes(d: Document, path: Seq<char>, x: u32)
    ensures
        at_path(d, path).contains(x) <==> exists|i: int|
            0 <= i < d.nodes@.len() && (#[trigger] d.nodes@[i]).path@ == path && d.nodes@[i].id
                == x,
{
    lemma_ids_at(d.nodes@, d.nodes@.len(), path, x);
}

/// A node lists the edges that have it at one end, and no others.
pub proof fn law_nodes_list_their_edges(d: Document, id: u32, i: u32)
    ensures
        incident(d, id).contains(i) <==> i < d.edges@.len() && (d.edges@[i as int].port == id
            || d.edges@[i as int].endpoint == id),
{
    lemma_ascending(meeting(d.edges@, set![id]));
    assert(incident(d, id).contains(i) <==> meeting(d.edges@, set![id]).contains(i));
}

/// Several nodes list the edges that have one of them at one end, and no others.
pub proof fn law_groups_list_their_edges(edges: Seq<Edge>, ids: Set<u32>, i: u32)
    ensures
        touching(edges, ids).contains(i) <==> i < edges.len() && (ids.contains(
            edges[i as int].port,
        ) || ids.contains(edges[i as int].endpoint)),
{
    lemma_ascending(meeting(edges, ids));
    assert(touching(edges, ids).contains(i) <==> meeting(edges, ids).contains(i));
}

} // verus!
