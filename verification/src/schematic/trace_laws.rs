//! What holds of every trace, whatever the design and the requests.

use crate::model::{at_path, parent_at, Document};
use crate::schematic::hierarchy::{
    climbs, container_of, instance_from, path_or_empty, root_path, rooted, scope_from,
};
use crate::schematic::kinds::navigable;
use crate::schematic::pins::pair_of;
use crate::schematic::scope::{has_pin, navigable_from, scope_at, wired};
use crate::schematic::trace::{
    apart, blank, boxed_pin, contained, counted, filled, finished, has_box, holds, outer_path,
    pruned, showing, stands_apart, steps_walk, tells, trace_root, traced, unhooked, wanted,
    wanted_from, with_containers, with_parents, ContainedV,
};
use crate::schematic::types::{ConeLimits, EdgeV, NodeV, Projection, TraceStep};
use crate::schematic::walk::WalkV;
use crate::schematic::walk_laws::{
    ids_differ, law_walks_stay_sound, lemma_drawn_id, one_pin, pin_shown, sound,
};
use vstd::prelude::*;

verus! {

// --- Containers ---------------------------------------------------------------

/// Whether ids are distinct and none of them is that of a box.
pub open spec fn fresh_ids(nodes: Seq<NodeV>, want: Seq<u32>) -> bool {
    want.no_duplicates() && forall|k: int|
        0 <= k < want.len() ==> !has_box(nodes, #[trigger] want[k])
}

proof fn lemma_wanted_from(d: Document, nodes: Seq<NodeV>, c: Option<u32>, n: nat, want: Seq<u32>)
    requires
        fresh_ids(nodes, want),
    ensures
        fresh_ids(nodes, wanted_from(d, nodes, c, n, want)),
    decreases n,
{
    match c {
        Some(x) => {
            let more = if !has_box(nodes, x) && !want.contains(x) {
                want.push(x)
            } else {
                want
            };
            if n > 0 {
                lemma_wanted_from(d, nodes, container_of(d, x), (n - 1) as nat, more);
            }
        },
        None => {},
    }
}

pub(crate) proof fn lemma_wanted(d: Document, nodes: Seq<NodeV>, n: nat)
    ensures
        fresh_ids(nodes, wanted(d, nodes, n)),
    decreases n,
{
    if n > 0 {
        lemma_wanted(d, nodes, (n - 1) as nat);
        lemma_wanted_from(
            d,
            nodes,
            container_of(d, nodes[n - 1].id),
            d.nodes@.len(),
            wanted(d, nodes, (n - 1) as nat),
        );
    }
}

pub(crate) proof fn lemma_contained(
    d: Document,
    want: Seq<u32>,
    n: nat,
    root: Seq<char>,
    most: nat,
    c0: ContainedV,
)
    requires
        n <= want.len(),
        ids_differ(c0.nodes),
        fresh_ids(c0.nodes, want),
        c0.containers == Set::<u32>::empty(),
    ensures
        ({
            let v = contained(d, want, n, root, most, c0);
            &&& ids_differ(v.nodes)
            &&& c0.nodes.len() <= v.nodes.len()
            &&& forall|k: int| 0 <= k < c0.nodes.len() ==> #[trigger] v.nodes[k] == c0.nodes[k]
            &&& forall|k: int|
                c0.nodes.len() <= k < v.nodes.len() ==> want.take(n as int).contains(
                    (#[trigger] v.nodes[k]).id,
                ) && v.containers.contains(v.nodes[k].id)
            &&& forall|x: u32| #[trigger]
                v.containers.contains(x) ==> want.take(n as int).contains(x)
        }),
    decreases n,
{
    if n > 0 {
        lemma_contained(d, want, (n - 1) as nat, root, most, c0);
        let u = contained(d, want, (n - 1) as nat, root, most, c0);
        let c = want[n - 1];
        lemma_drawn_id(d, c, outer_path(d, c, root), u.pins);
        crate::order::lemma_take_contains(want, n - 1);
        let v = contained(d, want, n, root, most, c0);
        assert forall|i: int, j: int| 0 <= i < j < v.nodes.len() implies (
        #[trigger] v.nodes[i]).id != (#[trigger] v.nodes[j]).id by {
            if j == u.nodes.len() {
                if i < c0.nodes.len() {
                    assert(v.nodes[i] == c0.nodes[i]);
                    assert(!has_box(c0.nodes, want[n - 1]));
                } else {
                    assert(v.nodes[i] == u.nodes[i]);
                    assert(want.take(n - 1).contains(u.nodes[i].id));
                    let first = want.take(n - 1);
                    let m = choose|m: int| 0 <= m < first.len() && first[m] == u.nodes[i].id;
                    assert(want[m] != want[n - 1]);
                }
            } else {
                assert(v.nodes[i] == u.nodes[i] && v.nodes[j] == u.nodes[j]);
            }
        }
    }
}

// --- From one canvas to the next ----------------------------------------------

/// Whether a pin is one to be seen: it is wired, or a seed.
pub open spec fn counts(seeds: Set<u32>, edges: Seq<EdgeV>, x: u32) -> bool {
    wired(edges, x) || seeds.contains(x)
}

/// Whether every wired pin and every seed that one canvas shows is on another, and the boxes
/// of the other are distinct.
spec fn carries(seeds: Set<u32>, edges: Seq<EdgeV>, a: Seq<NodeV>, b: Seq<NodeV>) -> bool {
    &&& ids_differ(a) ==> ids_differ(b)
    &&& forall|x: u32|
        counts(seeds, edges, x) && #[trigger] pin_shown(a, x) ==> pin_shown(b, x)
}

/// Whether a canvas is made of boxes of another, in order.
spec fn picked(a: Seq<NodeV>, b: Seq<NodeV>, at: Seq<int>) -> bool {
    &&& at.len() == b.len()
    &&& forall|k: int| 0 <= k < b.len() ==> 0 <= (#[trigger] at[k]) < a.len() && b[k] == a[at[k]]
    &&& forall|i: int, j: int| 0 <= i < j < at.len() ==> (#[trigger] at[i]) < (#[trigger] at[j])
}

proof fn lemma_picked_ids(a: Seq<NodeV>, b: Seq<NodeV>, at: Seq<int>)
    requires
        picked(a, b, at),
        ids_differ(a),
    ensures
        ids_differ(b),
{
    assert forall|i: int, j: int| 0 <= i < j < b.len() implies (#[trigger] b[i]).id != (
    #[trigger] b[j]).id by {
        assert(at[i] < at[j]);
        assert(a[at[i]].id != a[at[j]].id);
    }
}

proof fn lemma_with_parents(d: Document, seeds: Set<u32>, edges: Seq<EdgeV>, nodes: Seq<NodeV>)
    ensures
        carries(seeds, edges, nodes, with_parents(d, nodes)),
{
    let b = with_parents(d, nodes);
    assert forall|x: u32| counts(seeds, edges, x) && #[trigger] pin_shown(nodes, x) implies pin_shown(
        b,
        x,
    ) by {
        let k = choose|k: int| 0 <= k < nodes.len() && has_pin((#[trigger] nodes[k]).ports, x);
        assert(has_pin(b[k].ports, x));
    }
}

proof fn lemma_apart_at(nodes: Seq<NodeV>, stubs: Set<u32>, n: nat) -> (at: Seq<int>)
    requires
        n <= nodes.len(),
    ensures
        picked(nodes, apart(nodes, stubs, n), at),
        forall|k: int| 0 <= k < at.len() ==> (#[trigger] at[k]) < n,
        forall|k: int|
            0 <= k < n && stands_apart(nodes, stubs, #[trigger] nodes[k]) ==> at.contains(k),
    decreases n,
{
    if n == 0 {
        Seq::empty()
    } else {
        let r = lemma_apart_at(nodes, stubs, (n - 1) as nat);
        if stands_apart(nodes, stubs, nodes[n - 1]) {
            let at = r.push(n - 1);
            assert forall|k: int|
                0 <= k < n && stands_apart(nodes, stubs, #[trigger] nodes[k]) implies at.contains(
                k,
            ) by {
                if k < n - 1 {
                    let m = choose|m: int| 0 <= m < r.len() && r[m] == k;
                    assert(at[m] == k);
                } else {
                    assert(at[r.len() as int] == k);
                }
            }
            at
        } else {
            r
        }
    }
}

proof fn lemma_apart(nodes: Seq<NodeV>, stubs: Set<u32>, seeds: Set<u32>, edges: Seq<EdgeV>)
    requires
        forall|k: int|
            0 <= k < nodes.len() && stubs.contains((#[trigger] nodes[k]).id) ==> one_pin(nodes[k]),
    ensures
        carries(seeds, edges, nodes, apart(nodes, stubs, nodes.len())),
{
    let at = lemma_apart_at(nodes, stubs, nodes.len());
    let b = apart(nodes, stubs, nodes.len());
    if ids_differ(nodes) {
        lemma_picked_ids(nodes, b, at);
    }
    assert forall|x: u32| counts(seeds, edges, x) && #[trigger] pin_shown(nodes, x) implies pin_shown(
        b,
        x,
    ) by {
        let k = choose|k: int| 0 <= k < nodes.len() && has_pin((#[trigger] nodes[k]).ports, x);
        let m = if stands_apart(nodes, stubs, nodes[k]) {
            k
        } else {
            let j = choose|j: int|
                0 <= j < nodes[k].ports.len() && boxed_pin(
                    nodes,
                    stubs,
                    (#[trigger] nodes[k].ports[j]).id,
                );
            assert(one_pin(nodes[k]));
            assert(nodes[k].ports[j].id == x);
            choose|m: int|
                0 <= m < nodes.len() && !stubs.contains((#[trigger] nodes[m]).id) && has_pin(
                    nodes[m].ports,
                    x,
                )
        };
        assert(stands_apart(nodes, stubs, nodes[m]));
        assert(at.contains(m));
        let i = choose|i: int| 0 <= i < at.len() && at[i] == m;
        assert(b[i] == nodes[m]);
        assert(has_pin(b[i].ports, x));
    }
}

proof fn lemma_counted(
    more: Map<u32, u32>,
    seeds: Set<u32>,
    edges: Seq<EdgeV>,
    nodes: Seq<NodeV>,
)
    ensures
        carries(seeds, edges, nodes, counted(more, nodes)),
        no_dangling(counted(more, nodes)),
{
    let b = counted(more, nodes);
    assert forall|x: u32| counts(seeds, edges, x) && #[trigger] pin_shown(nodes, x) implies pin_shown(
        b,
        x,
    ) by {
        let k = choose|k: int| 0 <= k < nodes.len() && has_pin((#[trigger] nodes[k]).ports, x);
        let j = choose|j: int| 0 <= j < nodes[k].ports.len() && (#[trigger] nodes[k].ports[j]).id
            == x;
        assert(b[k].ports[j].id == x);
        assert(has_pin(b[k].ports, x));
    }
}

proof fn lemma_showing_at(
    seeds: Set<u32>,
    cs: Set<u32>,
    edges: Seq<EdgeV>,
    nodes: Seq<NodeV>,
    n: nat,
) -> (at: Seq<int>)
    requires
        n <= nodes.len(),
    ensures
        picked(nodes, showing(seeds, cs, edges, nodes, n), at),
        forall|k: int| 0 <= k < at.len() ==> (#[trigger] at[k]) < n,
        forall|k: int| 0 <= k < n && tells(seeds, edges, #[trigger] nodes[k]) ==> at.contains(k),
        forall|k: int|
            0 <= k < at.len() ==> shows(seeds, cs, edges, nodes[#[trigger] at[k]]),
    decreases n,
{
    if n == 0 {
        Seq::empty()
    } else {
        let r = lemma_showing_at(seeds, cs, edges, nodes, (n - 1) as nat);
        if shows(seeds, cs, edges, nodes[n - 1]) {
            let at = r.push(n - 1);
            assert forall|k: int| 0 <= k < n && tells(seeds, edges, #[trigger] nodes[k]) implies at.contains(
                k,
            ) by {
                if k < n - 1 {
                    let m = choose|m: int| 0 <= m < r.len() && r[m] == k;
                    assert(at[m] == k);
                } else {
                    assert(at[r.len() as int] == k);
                }
            }
            at
        } else {
            r
        }
    }
}

/// Whether a box is a seed, a container, or shows something by its pins.
pub open spec fn shows(seeds: Set<u32>, cs: Set<u32>, edges: Seq<EdgeV>, n: NodeV) -> bool {
    seeds.contains(n.id) || cs.contains(n.id) || tells(seeds, edges, n)
}

proof fn lemma_keeping(
    seeds: Set<u32>,
    edges: Seq<EdgeV>,
    a: Seq<NodeV>, b: Seq<NodeV>, at: Seq<int>)
    requires
        picked(a, b, at),
        forall|k: int|
            0 <= k < a.len() && tells(seeds, edges, #[trigger] a[k]) ==> at.contains(k),
    ensures
        carries(seeds, edges, a, b),
{
    if ids_differ(a) {
        lemma_picked_ids(a, b, at);
    }
    assert forall|x: u32| counts(seeds, edges, x) && #[trigger] pin_shown(a, x) implies pin_shown(b, x) by {
        let k = choose|k: int| 0 <= k < a.len() && has_pin((#[trigger] a[k]).ports, x);
        let j = choose|j: int| 0 <= j < a[k].ports.len() && (#[trigger] a[k].ports[j]).id == x;
        assert(counts(seeds, edges, a[k].ports[j].id));
        assert(tells(seeds, edges, a[k]));
        let i = choose|i: int| 0 <= i < at.len() && at[i] == k;
        assert(b[i] == a[k]);
        assert(has_pin(b[i].ports, x));
    }
}

proof fn lemma_filled_at(
    seeds: Set<u32>,
    cs: Set<u32>,
    edges: Seq<EdgeV>, nodes: Seq<NodeV>, n: nat) -> (at: Seq<int>)
    requires
        n <= nodes.len(),
    ensures
        picked(nodes, filled(seeds, cs, edges, nodes, n), at),
        forall|k: int| 0 <= k < at.len() ==> (#[trigger] at[k]) < n,
        forall|k: int| 0 <= k < n && tells(seeds, edges, #[trigger] nodes[k]) ==> at.contains(k),
        forall|k: int|
            0 <= k < at.len() ==> !cs.contains(nodes[#[trigger] at[k]].id) || holds(
                nodes,
                nodes[at[k]].id,
            ) || tells(seeds, edges, nodes[at[k]]),
    decreases n,
{
    if n == 0 {
        Seq::empty()
    } else {
        let r = lemma_filled_at(seeds, cs, edges, nodes, (n - 1) as nat);
        let x = nodes[n - 1];
        if !cs.contains(x.id) || holds(nodes, x.id) || tells(seeds, edges, x) {
            let at = r.push(n - 1);
            assert forall|k: int| 0 <= k < n && tells(seeds, edges, #[trigger] nodes[k]) implies at.contains(
                k,
            ) by {
                if k < n - 1 {
                    let m = choose|m: int| 0 <= m < r.len() && r[m] == k;
                    assert(at[m] == k);
                } else {
                    assert(at[r.len() as int] == k);
                }
            }
            at
        } else {
            r
        }
    }
}

proof fn lemma_unhooked(seeds: Set<u32>, edges: Seq<EdgeV>, nodes: Seq<NodeV>)
    ensures
        carries(seeds, edges, nodes, unhooked(nodes)),
{
    let b = unhooked(nodes);
    assert forall|x: u32| counts(seeds, edges, x) && #[trigger] pin_shown(nodes, x) implies pin_shown(
        b,
        x,
    ) by {
        let k = choose|k: int| 0 <= k < nodes.len() && has_pin((#[trigger] nodes[k]).ports, x);
        assert(has_pin(b[k].ports, x));
    }
}

/// Whether no pin dangles.
pub open spec fn no_dangling(nodes: Seq<NodeV>) -> bool {
    forall|k: int, j: int|
        #![trigger nodes[k].ports[j]]
        0 <= k < nodes.len() && 0 <= j < nodes[k].ports.len() ==> !nodes[k].ports[j].dangling
}

/// Whether every container that a box names is drawn, and is the one that the hierarchy
/// gives it.
pub open spec fn containers_drawn(d: Document, nodes: Seq<NodeV>) -> bool {
    forall|k: int|
        0 <= k < nodes.len() && (#[trigger] nodes[k]).parent is Some ==> has_box(
            nodes,
            nodes[k].parent->0,
        ) && nodes[k].parent == container_of(d, nodes[k].id)
}

spec fn parents_fit(d: Document, nodes: Seq<NodeV>) -> bool {
    forall|k: int|
        0 <= k < nodes.len() && (#[trigger] nodes[k]).parent is Some ==> nodes[k].parent
            == container_of(d, nodes[k].id)
}

/// Whether every box shows something: it is a seed, its pins do, or it holds another box.
pub open spec fn all_show(seeds: Set<u32>, edges: Seq<EdgeV>, nodes: Seq<NodeV>) -> bool {
    forall|k: int|
        0 <= k < nodes.len() ==> seeds.contains((#[trigger] nodes[k]).id) || tells(
            seeds,
            edges,
            nodes[k],
        ) || holds(nodes, nodes[k].id)
}

spec fn all_shows(seeds: Set<u32>, cs: Set<u32>, edges: Seq<EdgeV>, nodes: Seq<NodeV>) -> bool {
    forall|k: int| 0 <= k < nodes.len() ==> shows(seeds, cs, edges, #[trigger] nodes[k])
}

proof fn lemma_pruned(d: Document, seeds: Set<u32>, cs: Set<u32>, edges: Seq<EdgeV>, nodes: Seq<NodeV>)
    requires
        no_dangling(nodes),
        parents_fit(d, nodes),
        all_shows(seeds, cs, edges, nodes),
    ensures
        carries(seeds, edges, nodes, pruned(seeds, cs, edges, nodes)),
        no_dangling(pruned(seeds, cs, edges, nodes)),
        containers_drawn(d, pruned(seeds, cs, edges, nodes)),
        all_show(seeds, edges, pruned(seeds, cs, edges, nodes)),
    decreases nodes.len(),
{
    let f = filled(seeds, cs, edges, nodes, nodes.len());
    let at = lemma_filled_at(seeds, cs, edges, nodes, nodes.len());
    lemma_keeping(seeds, edges, nodes, f, at);
    lemma_unhooked(seeds, edges, f);
    let r = unhooked(f);
    assert forall|x: u32| counts(seeds, edges, x) && #[trigger] pin_shown(nodes, x) implies pin_shown(
        r,
        x,
    ) by {
        assert(pin_shown(f, x));
    }
    assert(no_dangling(r)) by {
        assert forall|k: int, j: int|
            #![trigger r[k].ports[j]]
            0 <= k < r.len() && 0 <= j < r[k].ports.len() implies !r[k].ports[j].dangling by {
            assert(r[k].ports == f[k].ports);
            assert(f[k] == nodes[at[k]]);
            assert(!nodes[at[k]].ports[j].dangling);
        }
    }
    assert(parents_fit(d, r)) by {
        assert forall|k: int| 0 <= k < r.len() && (#[trigger] r[k]).parent is Some implies r[k].parent
            == container_of(d, r[k].id) by {
            assert(f[k] == nodes[at[k]]);
            assert(nodes[at[k]].parent is Some);
        }
    }
    assert(all_shows(seeds, cs, edges, r)) by {
        assert forall|k: int| 0 <= k < r.len() implies shows(seeds, cs, edges, #[trigger] r[k]) by {
            assert(f[k] == nodes[at[k]]);
            assert(shows(seeds, cs, edges, nodes[at[k]]));
            lemma_same_pins(seeds, edges, f[k], r[k]);
        }
    }
    if r.len() >= nodes.len() {
        if f.len() > 0 {
            lemma_picked_high(nodes, f, at, 0);
        }
        lemma_all_picked(nodes, f, at);
        assert(containers_drawn(d, r)) by {
            assert forall|k: int| 0 <= k < r.len() && (#[trigger] r[k]).parent is Some implies has_box(
                r,
                r[k].parent->0,
            ) by {
                let p = r[k].parent->0;
                assert(has_box(f, p));
                let m = choose|m: int| 0 <= m < f.len() && (#[trigger] f[m]).id == p;
                assert(r[m].id == p);
            }
        }
        assert(all_show(seeds, edges, r)) by {
            assert forall|k: int| 0 <= k < r.len() implies seeds.contains((#[trigger] r[k]).id)
                || tells(seeds, edges, r[k]) || holds(r, r[k].id) by {
                assert(shows(seeds, cs, edges, r[k]));
                lemma_same_pins(seeds, edges, f[k], r[k]);
                assert(f[k] == nodes[at[k]]);
                if cs.contains(r[k].id) && holds(nodes, nodes[at[k]].id) {
                    let m = choose|m: int|
                        0 <= m < nodes.len() && (#[trigger] nodes[m]).parent == Some(r[k].id);
                    assert(f[m] == nodes[m]);
                    assert(has_box(f, r[k].id)) by {
                        assert(f[k].id == r[k].id);
                    }
                    assert(r[m].parent == Some(r[k].id));
                }
            }
        }
    } else {
        lemma_pruned(d, seeds, cs, edges, r);
        let p = pruned(seeds, cs, edges, r);
        assert forall|x: u32| counts(seeds, edges, x) && #[trigger] pin_shown(nodes, x) implies pin_shown(
            p,
            x,
        ) by {
            assert(pin_shown(r, x));
        }
    }
}

proof fn lemma_same_pins(seeds: Set<u32>, edges: Seq<EdgeV>, a: NodeV, b: NodeV)
    requires
        a.ports == b.ports,
    ensures
        tells(seeds, edges, a) == tells(seeds, edges, b),
{
}

proof fn lemma_all_picked(a: Seq<NodeV>, b: Seq<NodeV>, at: Seq<int>)
    requires
        picked(a, b, at),
        a.len() == b.len(),
    ensures
        a == b,
{
    assert forall|k: int| 0 <= k < at.len() implies #[trigger] at[k] == k by {
        lemma_picked_low(a, b, at, k);
        lemma_picked_high(a, b, at, k);
    }
    assert forall|k: int| 0 <= k < a.len() implies a[k] == b[k] by {
        assert(at[k] == k);
    }
    assert(a =~= b);
}

proof fn lemma_picked_low(a: Seq<NodeV>, b: Seq<NodeV>, at: Seq<int>, k: int)
    requires
        picked(a, b, at),
        0 <= k < at.len(),
    ensures
        at[k] >= k,
    decreases k,
{
    if k > 0 {
        lemma_picked_low(a, b, at, k - 1);
        assert(at[k - 1] < at[k]);
    }
}

proof fn lemma_picked_high(a: Seq<NodeV>, b: Seq<NodeV>, at: Seq<int>, k: int)
    requires
        picked(a, b, at),
        0 <= k < at.len(),
    ensures
        at[k] + (at.len() - 1 - k) < a.len(),
    decreases at.len() - k,
{
    if k + 1 < at.len() {
        lemma_picked_high(a, b, at, k + 1);
        assert(at[k] < at[k + 1]);
    }
}

// --- Laws ---------------------------------------------------------------------

pub(crate) proof fn lemma_finished(d: Document, w: WalkV, root: Seq<char>, most: nat)
    requires
        sound(w),
    ensures
        ids_differ(finished(d, w, root, most).nodes),
        forall|x: u32|
            counts(w.seeds, w.wires.edges, x) && #[trigger] w.emitted_pins.contains(
                x,
            ) ==> pin_shown(
                finished(d, w, root, most).nodes,
                x,
            ),
        no_dangling(finished(d, w, root, most).nodes),
        containers_drawn(d, finished(d, w, root, most).nodes),
        all_show(w.seeds, w.wires.edges, finished(d, w, root, most).nodes),
{
    let edges = w.wires.edges;
    let want = wanted(d, w.nodes, w.nodes.len());
    lemma_wanted(d, w.nodes, w.nodes.len());
    let seeds = w.seeds;
    let c0 = ContainedV {
        nodes: w.nodes,
        containers: Set::empty(),
        pins: w.pins,
        cut: w.truncated,
    };
    lemma_contained(d, want, want.len(), root, most, c0);
    let v = with_containers(d, w, root, most);
    let a0 = v.nodes;
    let cs = v.containers;
    let a1 = with_parents(d, a0);
    lemma_with_parents(d, seeds, edges, a0);
    assert forall|k: int| 0 <= k < a1.len() && w.stubs.contains((#[trigger] a1[k]).id) implies one_pin(
        a1[k],
    ) by {
        if k < w.nodes.len() {
            assert(a0[k] == w.nodes[k]);
        } else {
            assert(want.take(want.len() as int).contains(a0[k].id));
            let same = want.take(want.len() as int);
            let m = choose|m: int| 0 <= m < same.len() && same[m] == a0[k].id;
            assert(!has_box(w.nodes, want[m]));
            let j = choose|j: int|
                0 <= j < w.nodes.len() && (#[trigger] w.nodes[j]).id == a1[k].id;
        }
    }
    let a2 = apart(a1, w.stubs, a1.len());
    lemma_apart(a1, w.stubs, seeds, edges);
    let at2 = lemma_apart_at(a1, w.stubs, a1.len());
    let a3 = counted(w.more, a2);
    lemma_counted(w.more, seeds, edges, a2);
    let a4 = showing(w.seeds, cs, edges, a3, a3.len());
    let at = lemma_showing_at(w.seeds, cs, edges, a3, a3.len());
    lemma_keeping(seeds, edges, a3, a4, at);
    assert(no_dangling(a4)) by {
        assert forall|k: int, j: int|
            #![trigger a4[k].ports[j]]
            0 <= k < a4.len() && 0 <= j < a4[k].ports.len() implies !a4[k].ports[j].dangling by {
            assert(a4[k] == a3[at[k]]);
            assert(!a3[at[k]].ports[j].dangling);
        }
    }
    assert(parents_fit(d, a4)) by {
        assert forall|k: int| 0 <= k < a4.len() && (#[trigger] a4[k]).parent is Some implies a4[k].parent
            == container_of(d, a4[k].id) by {
            assert(a4[k] == a3[at[k]]);
            assert(a3[at[k]].parent == a2[at[k]].parent && a3[at[k]].id == a2[at[k]].id);
            assert(a2[at[k]] == a1[at2[at[k]]]);
        }
    }
    assert(all_shows(w.seeds, cs, edges, a4)) by {
        assert forall|k: int| 0 <= k < a4.len() implies shows(
            w.seeds,
            cs,
            edges,
            #[trigger] a4[k],
        ) by {
            assert(a4[k] == a3[at[k]]);
        }
    }
    lemma_pruned(d, w.seeds, cs, edges, a4);
    let a5 = pruned(seeds, cs, edges, a4);
    assert forall|x: u32| counts(seeds, edges, x) && #[trigger] w.emitted_pins.contains(x) implies pin_shown(
        a5,
        x,
    ) by {
        assert(pin_shown(w.nodes, x));
        let k = choose|k: int| 0 <= k < w.nodes.len() && has_pin((#[trigger] w.nodes[k]).ports, x);
        assert(has_pin(a0[k].ports, x));
        assert(pin_shown(a0, x));
        assert(pin_shown(a1, x));
        assert(pin_shown(a2, x));
        assert(pin_shown(a3, x));
        assert(pin_shown(a4, x));
    }
}

/// The two ends of every wire of a trace are pins of boxes that the trace draws, and they
/// are different pins.
pub proof fn law_trace_wires_end_at_drawn_pins(
    d: Document,
    steps: Seq<TraceStep>,
    limits: ConeLimits,
    projection: Projection,
    i: int,
)
    requires
        0 <= i < traced(d, steps, limits, projection).edges.len(),
    ensures
        ({
            let g = traced(d, steps, limits, projection);
            &&& pin_shown(g.nodes, g.edges[i].source)
            &&& pin_shown(g.nodes, g.edges[i].target)
            &&& g.edges[i].source != g.edges[i].target
        }),
{
    let root = trace_root(d, steps);
    let w = steps_walk(d, steps, limits, projection, root, steps.len());
    law_walks_stay_sound(d, steps, limits, projection, root, steps.len());
    lemma_finished(d, w, root, limits.boxes as nat);
    let e = w.wires.edges[i];
    assert(wired(w.wires.edges, e.source));
    assert(wired(w.wires.edges, e.target));
    assert(w.emitted_pins.contains(e.source));
    assert(w.emitted_pins.contains(e.target));
}

/// No two wires of a trace join the same two pins.
pub proof fn law_trace_joins_pins_once(
    d: Document,
    steps: Seq<TraceStep>,
    limits: ConeLimits,
    projection: Projection,
    i: int,
    j: int,
)
    requires
        0 <= i < j < traced(d, steps, limits, projection).edges.len(),
    ensures
        ({
            let g = traced(d, steps, limits, projection);
            pair_of(g.edges[i].source, g.edges[i].target) != pair_of(
                g.edges[j].source,
                g.edges[j].target,
            )
        }),
{
    let root = trace_root(d, steps);
    law_walks_stay_sound(d, steps, limits, projection, root, steps.len());
    let w = steps_walk(d, steps, limits, projection, root, steps.len());
    assert(w.wires.edges[i] == traced(d, steps, limits, projection).edges[i]);
    assert(w.wires.edges[j] == traced(d, steps, limits, projection).edges[j]);
}

/// A trace draws every box once, however many of its steps reach it.
pub proof fn law_trace_boxes_are_drawn_once(
    d: Document,
    steps: Seq<TraceStep>,
    limits: ConeLimits,
    projection: Projection,
)
    ensures
        ids_differ(traced(d, steps, limits, projection).nodes),
{
    let root = trace_root(d, steps);
    law_walks_stay_sound(d, steps, limits, projection, root, steps.len());
    lemma_finished(
        d,
        steps_walk(d, steps, limits, projection, root, steps.len()),
        root,
        limits.boxes as nat,
    );
}

/// No pin of a trace is marked as dangling: beyond its frontier nothing is known.
pub proof fn law_trace_pins_never_dangle(
    d: Document,
    steps: Seq<TraceStep>,
    limits: ConeLimits,
    projection: Projection,
)
    ensures
        no_dangling(traced(d, steps, limits, projection).nodes),
{
    let root = trace_root(d, steps);
    law_walks_stay_sound(d, steps, limits, projection, root, steps.len());
    lemma_finished(
        d,
        steps_walk(d, steps, limits, projection, root, steps.len()),
        root,
        limits.boxes as nat,
    );
}

/// A box of a trace that names a container names the instance that contains it in the
/// hierarchy, and that instance is drawn.
pub proof fn law_trace_containers_are_drawn(
    d: Document,
    steps: Seq<TraceStep>,
    limits: ConeLimits,
    projection: Projection,
)
    ensures
        containers_drawn(d, traced(d, steps, limits, projection).nodes),
{
    let root = trace_root(d, steps);
    law_walks_stay_sound(d, steps, limits, projection, root, steps.len());
    lemma_finished(
        d,
        steps_walk(d, steps, limits, projection, root, steps.len()),
        root,
        limits.boxes as nat,
    );
}

/// Every box of a trace is there for something: it is a seed or has one for a pin, a wire
/// ends at it, it reports connections that a cap dropped, or it contains another box.
pub proof fn law_trace_boxes_show_something(
    d: Document,
    steps: Seq<TraceStep>,
    limits: ConeLimits,
    projection: Projection,
)
    ensures
        all_show(
            steps_walk(
                d,
                steps,
                limits,
                projection,
                trace_root(d, steps),
                steps.len(),
            ).seeds,
            traced(d, steps, limits, projection).edges,
            traced(d, steps, limits, projection).nodes,
        ),
{
    let root = trace_root(d, steps);
    law_walks_stay_sound(d, steps, limits, projection, root, steps.len());
    lemma_finished(
        d,
        steps_walk(d, steps, limits, projection, root, steps.len()),
        root,
        limits.boxes as nat,
    );
}

/// A trace without steps is empty.
pub proof fn law_empty_trace_is_empty(d: Document, limits: ConeLimits, projection: Projection)
    ensures
        ({
            let g = traced(d, Seq::empty(), limits, projection);
            &&& g.nodes.len() == 0
            &&& g.edges.len() == 0
            &&& !g.truncated
            &&& g.root.len() == 0
        }),
{
    let w = blank(d);
    let c = with_containers(d, w, Seq::empty(), limits.boxes as nat);
    assert(c.nodes =~= Seq::empty());
    let a1 = with_parents(d, c.nodes);
    assert(a1 =~= Seq::empty());
    let a3 = counted(w.more, apart(a1, w.stubs, 0));
    assert(a3 =~= Seq::empty());
    let a4 = showing(w.seeds, c.containers, w.wires.edges, a3, 0);
    assert(filled(w.seeds, c.containers, w.wires.edges, a4, 0) =~= Seq::empty());
    assert(unhooked(filled(w.seeds, c.containers, w.wires.edges, a4, 0)) =~= Seq::empty());
}

// --- The hierarchy ------------------------------------------------------------

/// How many steps up the hierarchy a node is from the top.
pub open spec fn height(d: Document, id: u32, n: nat) -> nat
    decreases n,
{
    match parent_at(d, id) {
        Some(p) => if n > 0 {
            1 + height(d, p, (n - 1) as nat)
        } else {
            0
        },
        None => 0,
    }
}

proof fn lemma_height(d: Document, id: u32, n: nat, m: nat)
    requires
        climbs(d, id, n),
        n <= m,
    ensures
        climbs(d, id, m),
        height(d, id, m) == height(d, id, n),
    decreases n,
{
    match parent_at(d, id) {
        Some(p) => {
            lemma_height(d, p, (n - 1) as nat, (m - 1) as nat);
        },
        None => {},
    }
}

proof fn lemma_instance_from(d: Document, id: u32, n: nat)
    requires
        climbs(d, id, n),
        n <= d.nodes@.len(),
        rooted(d),
    ensures
        instance_from(d, id, n) is Some ==> height(
            d,
            instance_from(d, id, n)->0,
            d.nodes@.len(),
        ) <= height(d, id, d.nodes@.len()),
    decreases n,
{
    let full = d.nodes@.len();
    if !crate::schematic::kinds::has_kind(d, id, crate::model::NodeKind::Instance) {
        match parent_at(d, id) {
            Some(p) => {
                lemma_instance_from(d, p, (n - 1) as nat);
                lemma_height(d, p, (n - 1) as nat, full);
                lemma_height(d, id, n, full);
                lemma_height(d, p, (n - 1) as nat, (full - 1) as nat);
            },
            None => {},
        }
    }
}

/// A box is never its own container: a container is nearer to the top, so that following
/// containers always ends.
pub proof fn law_containers_lie_above(d: Document, id: u32)
    requires
        rooted(d),
    ensures
        container_of(d, id) is Some ==> height(d, container_of(d, id)->0, d.nodes@.len()) < height(
            d,
            id,
            d.nodes@.len(),
        ) && container_of(d, id)->0 != id,
{
    let full = d.nodes@.len();
    match parent_at(d, id) {
        Some(p) => {
            assert(climbs(d, id, full));
            assert(climbs(d, p, full));
            lemma_instance_from(d, p, full);
            lemma_height(d, p, (full - 1) as nat, full);
        },
        None => {},
    }
}

proof fn lemma_scope_from(d: Document, id: u32, n: nat)
    ensures
        scope_from(d, id, n) is Some ==> navigable(d, scope_from(d, id, n)->0),
    decreases n,
{
    if !navigable(d, id) {
        match parent_at(d, id) {
            Some(p) => {
                if n > 0 {
                    lemma_scope_from(d, p, (n - 1) as nat);
                }
            },
            None => {},
        }
    }
}

proof fn lemma_navigable_found(d: Document, ids: Seq<u32>, from: int, k: int)
    requires
        0 <= from <= k < ids.len(),
        navigable(d, ids[k]),
    ensures
        navigable_from(d, ids, from) is Some,
    decreases k - from,
{
    if !navigable(d, ids[from]) {
        lemma_navigable_found(d, ids, from + 1, k);
    }
}

/// The scope that a trace is labelled relative to can be opened, where the seed lies in a
/// scope that is listed under its own path.
pub proof fn law_trace_root_opens(d: Document, seed: u32)
    requires
        scope_from(d, seed, d.nodes@.len()) is Some,
        ({
            let s = scope_from(d, seed, d.nodes@.len())->0;
            at_path(d, path_or_empty(d, s)).contains(s)
        }),
    ensures
        scope_at(d, root_path(d, seed)) is Some,
{
    let s = scope_from(d, seed, d.nodes@.len())->0;
    lemma_scope_from(d, seed, d.nodes@.len());
    let ids = at_path(d, root_path(d, seed));
    let k = choose|k: int| 0 <= k < ids.len() && ids[k] == s;
    lemma_navigable_found(d, ids, 0, k);
}

} // verus!
