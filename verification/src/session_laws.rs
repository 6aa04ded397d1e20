//! What the lists and trees of scopes show.

use crate::model::{at_path, children_at, Dir, Document, NodeKind};
use crate::schematic::kinds::{bare_bundle, holds_design, navigable, nested, nests};
use crate::session::{
    dir_named, is_tree, rows_of, scopes_at, signals_in, steps_from, tree_rows, with_scopes,
    with_signals, TraceStepReq, TreeNode,
};
use vstd::prelude::*;

verus! {

// --- Scopes -------------------------------------------------------------------

/// Whether a node lists another as its child.
pub open spec fn has_child_id(d: Document, id: u32, c: u32) -> bool {
    id < d.nodes@.len() && d.nodes@[id as int].children@.contains(c)
}

/// Whether a node is there and has a kind.
pub open spec fn is_a(d: Document, id: u32, kind: NodeKind) -> bool {
    id < d.nodes@.len() && d.nodes@[id as int].kind == kind
}

/// Whether a node is an interface instance: no view of one, and it declares views.
pub open spec fn is_interface_instance(d: Document, id: u32) -> bool {
    &&& is_a(d, id, NodeKind::Interface)
    &&& d.nodes@[id as int].modport is None
    &&& exists|c: u32| #[trigger] has_child_id(d, id, c) && is_a(d, c, NodeKind::Modport)
}

proof fn lemma_bundle(d: Document, id: u32)
    ensures
        bare_bundle(d, id) <==> is_interface_instance(d, id),
{
    if bare_bundle(d, id) {
        let i = choose|i: int|
            #![trigger children_at(d, id)[i]]
            0 <= i < children_at(d, id).len() && crate::schematic::kinds::has_kind(
                d,
                children_at(d, id)[i],
                NodeKind::Modport,
            );
        assert(has_child_id(d, id, children_at(d, id)[i]));
    }
    if is_interface_instance(d, id) {
        let c = choose|c: u32| #[trigger]
            has_child_id(d, id, c) && is_a(d, c, NodeKind::Modport);
        let cs = d.nodes@[id as int].children@;
        let i = choose|i: int| 0 <= i < cs.len() && cs[i] == c;
        assert(children_at(d, id)[i] == c);
    }
}

proof fn lemma_holds_more(d: Document, id: u32, n: nat)
    requires
        holds_design(d, id, n),
    ensures
        holds_design(d, id, (n + 1) as nat),
    decreases n,
{
    let k = choose|k: int|
        #![trigger children_at(d, id)[k]]
        0 <= k < children_at(d, id).len() && match crate::model::kind_at(
            d,
            children_at(d, id)[k],
        ) {
            Some(NodeKind::Instance) => true,
            Some(NodeKind::GenBlock) => n > 0 && holds_design(
                d,
                children_at(d, id)[k],
                (n - 1) as nat,
            ),
            _ => bare_bundle(d, children_at(d, id)[k]),
        };
    let c = children_at(d, id)[k];
    if crate::model::kind_at(d, c) == Some(NodeKind::GenBlock) {
        lemma_holds_more(d, c, (n - 1) as nat);
    }
    assert(children_at(d, id)[k] == c);
}

proof fn lemma_holds_less(d: Document, id: u32, n: nat)
    requires
        nests(d, id, n),
        holds_design(d, id, (n + 1) as nat),
    ensures
        holds_design(d, id, n),
    decreases n,
{
    let k = choose|k: int|
        #![trigger children_at(d, id)[k]]
        0 <= k < children_at(d, id).len() && match crate::model::kind_at(
            d,
            children_at(d, id)[k],
        ) {
            Some(NodeKind::Instance) => true,
            Some(NodeKind::GenBlock) => holds_design(d, children_at(d, id)[k], n),
            _ => bare_bundle(d, children_at(d, id)[k]),
        };
    let c = children_at(d, id)[k];
    if crate::model::kind_at(d, c) == Some(NodeKind::GenBlock) {
        assert(n > 0 && nests(d, children_at(d, id)[k], (n - 1) as nat));
        lemma_holds_less(d, c, (n - 1) as nat);
    }
    assert(children_at(d, id)[k] == c);
}

/// A node can be opened exactly where it is an instance, an interface instance, or a generate
/// block with a child that can be opened.
pub proof fn law_scopes_can_be_opened(d: Document, id: u32)
    requires
        nested(d),
    ensures
        navigable(d, id) <==> is_a(d, id, NodeKind::Instance) || is_interface_instance(d, id) || (
        is_a(d, id, NodeKind::GenBlock) && exists|c: u32| #[trigger]
            has_child_id(d, id, c) && navigable(d, c)),
{
    let n = d.nodes@.len();
    lemma_bundle(d, id);
    if is_a(d, id, NodeKind::GenBlock) {
        if navigable(d, id) {
            let k = choose|k: int|
                #![trigger children_at(d, id)[k]]
                0 <= k < children_at(d, id).len() && match crate::model::kind_at(
                    d,
                    children_at(d, id)[k],
                ) {
                    Some(NodeKind::Instance) => true,
                    Some(NodeKind::GenBlock) => n > 0 && holds_design(
                        d,
                        children_at(d, id)[k],
                        (n - 1) as nat,
                    ),
                    _ => bare_bundle(d, children_at(d, id)[k]),
                };
            let c = children_at(d, id)[k];
            if crate::model::kind_at(d, c) == Some(NodeKind::GenBlock) {
                lemma_holds_more(d, c, (n - 1) as nat);
            }
            assert(has_child_id(d, id, c) && navigable(d, c));
        }
        if exists|c: u32| #[trigger] has_child_id(d, id, c) && navigable(d, c) {
            let c = choose|c: u32| #[trigger] has_child_id(d, id, c) && navigable(d, c);
            let cs = d.nodes@[id as int].children@;
            let k = choose|k: int| 0 <= k < cs.len() && cs[k] == c;
            assert(children_at(d, id)[k] == c);
            if crate::model::kind_at(d, c) == Some(NodeKind::GenBlock) {
                assert(nests(d, id, n));
                assert(nests(d, children_at(d, id)[k], (n - 1) as nat));
                lemma_holds_less(d, c, (n - 1) as nat);
            }
        }
    }
}

proof fn lemma_with_scopes(d: Document, out: Seq<u32>, ids: Seq<u32>, n: nat, x: u32)
    requires
        n <= ids.len(),
    ensures
        with_scopes(d, out, ids, n).contains(x) <==> out.contains(x) || (ids.take(
            n as int,
        ).contains(x) && navigable(d, x)),
    decreases n,
{
    if n == 0 {
        assert(ids.take(0) =~= Seq::empty());
    } else {
        lemma_with_scopes(d, out, ids, (n - 1) as nat, x);
        crate::order::lemma_take_contains(ids, n - 1);
        let r = with_scopes(d, out, ids, (n - 1) as nat);
        lemma_pushed(r, ids[n - 1], x);
    }
}

proof fn lemma_pushed<A>(s: Seq<A>, y: A, x: A)
    ensures
        s.push(y).contains(x) <==> s.contains(x) || x == y,
{
    if s.contains(x) {
        let k = choose|k: int| 0 <= k < s.len() && s[k] == x;
        assert(s.push(y)[k] == x);
    }
    if x == y {
        assert(s.push(y)[s.len() as int] == x);
    }
    if s.push(y).contains(x) && x != y {
        let k = choose|k: int| 0 <= k < s.push(y).len() && s.push(y)[k] == x;
        assert(s[k] == x);
    }
}

// --- Signals ------------------------------------------------------------------

/// Whether a node is a port, a net, a variable or a memory, and has a path.
pub open spec fn is_signal_at(d: Document, c: u32, path: Seq<char>) -> bool {
    &&& is_a(d, c, NodeKind::Port) || is_a(d, c, NodeKind::Net) || is_a(d, c, NodeKind::Var)
        || is_a(d, c, NodeKind::Memory)
    &&& d.nodes@[c as int].path@ == path
}

proof fn lemma_with_signals(
    d: Document,
    out: Seq<Seq<char>>,
    ids: Seq<u32>,
    n: nat,
    p: Seq<char>,
)
    requires
        n <= ids.len(),
    ensures
        with_signals(d, out, ids, n).contains(p) <==> out.contains(p) || exists|k: int|
            0 <= k < n && is_signal_at(d, #[trigger] ids[k], p),
    decreases n,
{
    if n > 0 {
        lemma_with_signals(d, out, ids, (n - 1) as nat, p);
        let r = with_signals(d, out, ids, (n - 1) as nat);
        let c = ids[n - 1];
        if c < d.nodes@.len() {
            lemma_pushed(r, d.nodes@[c as int].path@, p);
        }
        if exists|k: int| 0 <= k < n && is_signal_at(d, #[trigger] ids[k], p) {
            let k = choose|k: int| 0 <= k < n && is_signal_at(d, #[trigger] ids[k], p);
            if k < n - 1 {
                assert(is_signal_at(d, ids[k], p));
            }
        }
        if is_signal_at(d, c, p) {
            assert(is_signal_at(d, ids[n - 1], p));
        }
    }
}

proof fn lemma_signals_in(d: Document, scopes: Seq<u32>, n: nat, p: Seq<char>)
    requires
        n <= scopes.len(),
    ensures
        signals_in(d, scopes, n).contains(p) <==> exists|k: int, c: u32|
            0 <= k < n && #[trigger] has_child_id(d, scopes[k], c) && is_signal_at(d, c, p),
    decreases n,
{
    if n > 0 {
        lemma_signals_in(d, scopes, (n - 1) as nat, p);
        let s = scopes[n - 1];
        let r = signals_in(d, scopes, (n - 1) as nat);
        let all = signals_in(d, scopes, n);
        if s < d.nodes@.len() {
            let cs = d.nodes@[s as int].children@;
            lemma_with_signals(d, r, cs, cs.len(), p);
            if all.contains(p) && !r.contains(p) {
                let k = choose|k: int| 0 <= k < cs.len() && is_signal_at(d, #[trigger] cs[k], p);
                assert(has_child_id(d, scopes[n - 1], cs[k]));
            }
        }
        if r.contains(p) {
            let (k, c) = choose|k: int, c: u32|
                0 <= k < n - 1 && #[trigger] has_child_id(d, scopes[k], c) && is_signal_at(d, c, p);
            assert(has_child_id(d, scopes[k], c));
        }
        if exists|k: int, c: u32|
            0 <= k < n && #[trigger] has_child_id(d, scopes[k], c) && is_signal_at(d, c, p) {
            let (k, c) = choose|k: int, c: u32|
                0 <= k < n && #[trigger] has_child_id(d, scopes[k], c) && is_signal_at(d, c, p);
            if k == n - 1 {
                let cs = d.nodes@[s as int].children@;
                let m = choose|m: int| 0 <= m < cs.len() && cs[m] == c;
                assert(is_signal_at(d, cs[m], p));
            } else {
                assert(has_child_id(d, scopes[k], c));
            }
        }
    }
}

/// The signals of a scope are the ports, nets, variables and memories among the children of
/// the scopes at its path, all of them and no others.
pub proof fn law_scopes_list_their_signals(d: Document, path: Seq<char>, p: Seq<char>)
    ensures
        signals_in(d, scopes_at(d, path), scopes_at(d, path).len()).contains(p) <==> exists|
            s: u32,
            c: u32,
        |
            at_path(d, path).contains(s) && navigable(d, s) && #[trigger] has_child_id(d, s, c)
                && is_signal_at(d, c, p),
{
    let scopes = scopes_at(d, path);
    let at = at_path(d, path);
    lemma_signals_in(d, scopes, scopes.len(), p);
    assert(at.take(at.len() as int) =~= at);
    if signals_in(d, scopes, scopes.len()).contains(p) {
        let (k, c) = choose|k: int, c: u32|
            0 <= k < scopes.len() && #[trigger] has_child_id(d, scopes[k], c) && is_signal_at(
                d,
                c,
                p,
            );
        lemma_with_scopes(d, Seq::empty(), at, at.len(), scopes[k]);
        assert(scopes.contains(scopes[k]));
        assert(has_child_id(d, scopes[k], c));
    }
    if exists|s: u32, c: u32|
        at.contains(s) && navigable(d, s) && #[trigger] has_child_id(d, s, c) && is_signal_at(
            d,
            c,
            p,
        ) {
        let (s, c) = choose|s: u32, c: u32|
            at.contains(s) && navigable(d, s) && #[trigger] has_child_id(d, s, c) && is_signal_at(
                d,
                c,
                p,
            );
        lemma_with_scopes(d, Seq::empty(), at, at.len(), s);
        let k = choose|k: int| 0 <= k < scopes.len() && scopes[k] == s;
        assert(has_child_id(d, scopes[k], c));
    }
}

// --- The tree -----------------------------------------------------------------

/// Whether a node is a generate block without a name.
pub open spec fn unnamed_block(d: Document, id: u32) -> bool {
    is_a(d, id, NodeKind::GenBlock) && d.nodes@[id as int].name@.len() == 0
}

/// Whether a node is a named generate block around one without a name.
pub open spec fn array_of_blocks(d: Document, id: u32) -> bool {
    &&& is_a(d, id, NodeKind::GenBlock)
    &&& d.nodes@[id as int].name@.len() > 0
    &&& exists|c: u32| #[trigger] has_child_id(d, id, c) && unnamed_block(d, c)
}

/// Whether a node has a row of the tree below another: it is a child of it that can be opened
/// and is no array of blocks, or a child of such an array that can be opened.
pub open spec fn has_row(d: Document, id: u32, x: u32) -> bool {
    &&& navigable(d, x)
    &&& (has_child_id(d, id, x) && !array_of_blocks(d, x)) || exists|a: u32| #[trigger]
        has_child_id(d, id, a) && navigable(d, a) && array_of_blocks(d, a) && has_child_id(d, a, x)
}

proof fn lemma_array(d: Document, id: u32)
    ensures
        crate::session::is_array(d, id) <==> array_of_blocks(d, id),
{
    if id < d.nodes@.len() {
        let cs = d.nodes@[id as int].children@;
        if crate::session::is_array(d, id) {
            let k = choose|k: int|
                0 <= k < cs.len() && crate::session::is_iteration(d, #[trigger] cs[k]);
            assert(has_child_id(d, id, cs[k]) && unnamed_block(d, cs[k]));
        }
        if array_of_blocks(d, id) {
            let c = choose|c: u32| #[trigger] has_child_id(d, id, c) && unnamed_block(d, c);
            let k = choose|k: int| 0 <= k < cs.len() && cs[k] == c;
            assert(crate::session::is_iteration(d, cs[k]));
        }
    }
}

spec fn row_among(d: Document, cs: Seq<u32>, n: nat, x: u32) -> bool {
    &&& navigable(d, x)
    &&& exists|k: int|
        0 <= k < n && ((#[trigger] cs[k] == x && !array_of_blocks(d, x)) || (navigable(d, cs[k])
            && array_of_blocks(d, cs[k]) && has_child_id(d, cs[k], x)))
}

proof fn lemma_rows(d: Document, cs: Seq<u32>, n: nat, x: u32)
    requires
        n <= cs.len(),
    ensures
        rows_of(d, cs, n).contains(x) <==> row_among(d, cs, n, x),
    decreases n,
{
    if n > 0 {
        lemma_rows(d, cs, (n - 1) as nat, x);
        let r = rows_of(d, cs, (n - 1) as nat);
        let c = cs[n - 1];
        lemma_array(d, c);
        lemma_array(d, x);
        lemma_pushed(r, c, x);
        if c < d.nodes@.len() {
            let inner = d.nodes@[c as int].children@;
            lemma_with_scopes(d, r, inner, inner.len(), x);
            assert(inner.take(inner.len() as int) =~= inner);
        }
        if row_among(d, cs, (n - 1) as nat, x) {
            let k = choose|k: int|
                0 <= k < n - 1 && ((#[trigger] cs[k] == x && !array_of_blocks(d, x)) || (navigable(
                    d,
                    cs[k],
                ) && array_of_blocks(d, cs[k]) && has_child_id(d, cs[k], x)));
            assert(cs[k] == cs[k]);
        }
        if row_among(d, cs, n, x) {
            let k = choose|k: int|
                0 <= k < n && ((#[trigger] cs[k] == x && !array_of_blocks(d, x)) || (navigable(
                    d,
                    cs[k],
                ) && array_of_blocks(d, cs[k]) && has_child_id(d, cs[k], x)));
            if k < n - 1 {
                assert(row_among(d, cs, (n - 1) as nat, x));
            }
        }
        if rows_of(d, cs, n).contains(x) && !r.contains(x) {
            assert(navigable(d, c));
            assert(cs[n - 1] == c);
        }
    }
}

/// The rows of the tree below a node are its children that can be opened, with an array of
/// generate blocks replaced by the blocks in it; all of them and no others.
pub proof fn law_tree_rows_are_scopes(d: Document, id: u32, x: u32)
    requires
        id < d.nodes@.len(),
    ensures
        tree_rows(d, d.nodes@[id as int]).contains(x) <==> has_row(d, id, x),
{
    let cs = d.nodes@[id as int].children@;
    lemma_rows(d, cs, cs.len(), x);
    if row_among(d, cs, cs.len(), x) {
        let k = choose|k: int|
            0 <= k < cs.len() && ((#[trigger] cs[k] == x && !array_of_blocks(d, x)) || (navigable(
                d,
                cs[k],
            ) && array_of_blocks(d, cs[k]) && has_child_id(d, cs[k], x)));
        assert(has_child_id(d, id, cs[k]));
    }
    if has_row(d, id, x) {
        if has_child_id(d, id, x) && !array_of_blocks(d, x) {
            let k = choose|k: int| 0 <= k < cs.len() && cs[k] == x;
            assert(cs[k] == x);
        } else {
            let a = choose|a: u32| #[trigger]
                has_child_id(d, id, a) && navigable(d, a) && array_of_blocks(d, a) && has_child_id(
                    d,
                    a,
                    x,
                );
            let k = choose|k: int| 0 <= k < cs.len() && cs[k] == a;
            assert(cs[k] == a);
        }
    }
}

/// Whether a tree shows a node at its root.
pub open spec fn roots(t: TreeNode, d: Document, id: u32) -> bool {
    id < d.nodes@.len() && t.path@ == d.nodes@[id as int].path@
}

/// A tree to a depth has one child for each row below its node, in their order, and says that
/// it can be opened exactly where there is a row.
pub proof fn law_trees_show_their_rows(t: TreeNode, d: Document, id: u32, depth: nat)
    requires
        is_tree(t, d, id, depth),
    ensures
        roots(t, d, id),
        t.expandable <==> exists|x: u32| has_row(d, id, x),
        depth == 0 ==> t.children@.len() == 0,
        depth > 0 ==> ({
            let rows = tree_rows(d, d.nodes@[id as int]);
            &&& t.children@.len() == rows.len()
            &&& forall|k: int|
                0 <= k < rows.len() ==> roots(#[trigger] t.children@[k], d, rows[k])
        }),
{
    let rows = tree_rows(d, d.nodes@[id as int]);
    if rows.len() > 0 {
        law_tree_rows_are_scopes(d, id, rows[0]);
        assert(rows.contains(rows[0]));
        assert(has_row(d, id, rows[0]));
    }
    if exists|x: u32| has_row(d, id, x) {
        let x = choose|x: u32| has_row(d, id, x);
        law_tree_rows_are_scopes(d, id, x);
    }
    if depth > 0 {
        assert forall|k: int| 0 <= k < rows.len() implies roots(
            #[trigger] t.children@[k],
            d,
            rows[k],
        ) by {
            assert(is_tree(t.children@[k], d, rows[k], (depth - 1) as nat));
        }
    }
}

// --- Requests -----------------------------------------------------------------

/// The words for directions mean what they say; any other word means both.
pub proof fn law_directions_are_named(s: Seq<char>)
    ensures
        dir_named(s) == Dir::In <==> s == seq!['i', 'n'],
        dir_named(s) == Dir::Out <==> s == seq!['o', 'u', 't'],
        s != seq!['i', 'n'] && s != seq!['o', 'u', 't'] ==> dir_named(s) == Dir::Inout,
{
    reveal_strlit("in");
    reveal_strlit("out");
    assert("in"@ =~= seq!['i', 'n']);
    assert("out"@ =~= seq!['o', 'u', 't']);
}

proof fn lemma_steps(d: Document, reqs: Seq<TraceStepReq>, limit: nat, n: nat, k: int)
    requires
        0 <= k < n <= reqs.len(),
        limit <= usize::MAX,
        steps_from(d, reqs, limit, n) is Ok,
    ensures
        ({
            let s = steps_from(d, reqs, limit, n)->Ok_0;
            let at = at_path(d, reqs[k].path@);
            &&& s.len() == n
            &&& at.len() > 0 && s[k].seed == at[0]
            &&& s[k].dir == reqs[k].dir
            &&& s[k].fanout == reqs[k].fanout
            &&& s[k].depth <= limit
            &&& match reqs[k].depth {
                Some(h) => s[k].depth == h || s[k].depth == limit && h > limit,
                None => s[k].depth == 1 || s[k].depth == limit && limit < 1,
            }
        }),
    decreases n,
{
    if k < n - 1 {
        lemma_steps(d, reqs, limit, (n - 1) as nat, k);
    } else if n > 1 {
        lemma_steps(d, reqs, limit, (n - 1) as nat, 0);
    }
}

/// A trace from paths has one step for each request: from the first node at its path, in its
/// direction, with its own fan-out and its own hops, as far as the whole trace may go.
pub proof fn law_requests_become_steps(
    d: Document,
    reqs: Seq<TraceStepReq>,
    limit: nat,
    k: int,
)
    requires
        0 <= k < reqs.len(),
        limit <= usize::MAX,
        steps_from(d, reqs, limit, reqs.len()) is Ok,
    ensures
        ({
            let s = steps_from(d, reqs, limit, reqs.len())->Ok_0;
            let at = at_path(d, reqs[k].path@);
            &&& s.len() == reqs.len()
            &&& at.len() > 0 && s[k].seed == at[0]
            &&& s[k].dir == reqs[k].dir
            &&& s[k].fanout == reqs[k].fanout
            &&& s[k].depth <= limit
            &&& match reqs[k].depth {
                Some(h) => s[k].depth == h || s[k].depth == limit && h > limit,
                None => s[k].depth == 1 || s[k].depth == limit && limit < 1,
            }
        }),
{
    lemma_steps(d, reqs, limit, reqs.len(), k);
}

proof fn lemma_steps_fail(d: Document, reqs: Seq<TraceStepReq>, limit: nat, n: nat)
    requires
        n <= reqs.len(),
    ensures
        steps_from(d, reqs, limit, n) is Err <==> exists|k: int|
            0 <= k < n && at_path(d, (#[trigger] reqs[k]).path@).len() == 0,
    decreases n,
{
    if n > 0 {
        lemma_steps_fail(d, reqs, limit, (n - 1) as nat);
        if exists|k: int| 0 <= k < n && at_path(d, (#[trigger] reqs[k]).path@).len() == 0 {
            let k = choose|k: int| 0 <= k < n && at_path(d, (#[trigger] reqs[k]).path@).len() == 0;
            if k < n - 1 {
                assert(at_path(d, reqs[k].path@).len() == 0);
            }
        }
        if steps_from(d, reqs, limit, n) is Err && steps_from(d, reqs, limit, (n - 1) as nat) is Ok {
            assert(at_path(d, reqs[n - 1].path@).len() == 0);
        }
    }
}

/// A trace from paths is refused exactly where one of the paths names no node.
pub proof fn law_unknown_seeds_are_refused(d: Document, reqs: Seq<TraceStepReq>, limit: nat)
    ensures
        steps_from(d, reqs, limit, reqs.len()) is Err <==> exists|k: int|
            0 <= k < reqs.len() && at_path(d, (#[trigger] reqs[k]).path@).len() == 0,
{
    lemma_steps_fail(d, reqs, limit, reqs.len());
}

} // verus!
