//! Wires: crossing the drivers of a signal with its loads.

use crate::groups::{keys_in, under, Groups};
use crate::model::{node_at, Design, Document, Node};
use crate::order::ascending;
use crate::schematic::labels::{label_in, relative_to, selected, with_select};
use crate::schematic::pins::{pair_of, PairSet};
use crate::schematic::types::{edge_views, group_views, EdgeV, SchEdge};
use crate::text::{clone_opt, opt_chars, same};
use vstd::prelude::*;

verus! {

broadcast use group_views;

/// One end of a signal: a pin, and the bit-select on it.
pub type Anchor = (u32, Option<String>);

/// The wires drawn so far, the pin pairs they join, and the id of the next one.
#[verifier::ext_equal]
pub struct WiresV {
    pub edges: Seq<EdgeV>,
    pub seen: Set<(u32, u32)>,
    pub next: u32,
}

/// The id after `n`, within 32 bits.
pub open spec fn next_id(n: u32) -> u32 {
    ((n + 1) % 0x1_0000_0000) as u32
}

/// Whether two ends can be joined: they are different pins, and their bit-selects do
/// not name different bits.
pub open spec fn joinable(dr: Anchor, ld: Anchor) -> bool {
    dr.0 != ld.0 && !(dr.1 is Some && ld.1 is Some && opt_chars(dr.1) != opt_chars(ld.1))
}

/// A wire of the signal `sig` between two ends, labelled relative to `scope`.
pub open spec fn wire_between(
    sig: Option<Node>,
    scope: Seq<char>,
    dr: Anchor,
    ld: Anchor,
    id: u32,
) -> EdgeV {
    let select = if dr.1 is Some {
        dr.1
    } else {
        ld.1
    };
    EdgeV {
        id,
        source: dr.0,
        target: ld.0,
        net: match sig {
            Some(n) => Some(selected(label_in(n.path@, scope), select)),
            None => None,
        },
        net_path: match sig {
            Some(n) => Some(n.path@),
            None => None,
        },
    }
}

/// The wires after joining one driver to the first `n` loads. A pair of pins that is
/// already joined is not joined again.
pub open spec fn joined_to(
    sig: Option<Node>,
    scope: Seq<char>,
    dr: Anchor,
    loads: Seq<Anchor>,
    n: nat,
    w: WiresV,
) -> WiresV
    decreases n,
{
    if n == 0 {
        w
    } else {
        let v = joined_to(sig, scope, dr, loads, (n - 1) as nat, w);
        let ld = loads[n - 1];
        if joinable(dr, ld) && !v.seen.contains(pair_of(dr.0, ld.0)) {
            WiresV {
                edges: v.edges.push(wire_between(sig, scope, dr, ld, v.next)),
                seen: v.seen.insert(pair_of(dr.0, ld.0)),
                next: next_id(v.next),
            }
        } else {
            v
        }
    }
}

/// The wires after joining the first `n` drivers to all loads.
pub open spec fn joined_all(
    sig: Option<Node>,
    scope: Seq<char>,
    drivers: Seq<Anchor>,
    loads: Seq<Anchor>,
    n: nat,
    w: WiresV,
) -> WiresV
    decreases n,
{
    if n == 0 {
        w
    } else {
        joined_to(
            sig,
            scope,
            drivers[n - 1],
            loads,
            loads.len(),
            joined_all(sig, scope, drivers, loads, (n - 1) as nat, w),
        )
    }
}

/// The wires after joining the signals with the first `n` of `keys`: each one's
/// drivers to its loads.
pub open spec fn joined_keys(
    d: Document,
    scope: Seq<char>,
    drivers: Seq<(u32, Anchor)>,
    loads: Seq<(u32, Anchor)>,
    keys: Seq<u32>,
    n: nat,
    w: WiresV,
) -> WiresV
    decreases n,
{
    if n == 0 {
        w
    } else {
        let k = keys[n - 1];
        joined_all(
            node_at(d, k),
            scope,
            under(drivers, k),
            under(loads, k),
            under(drivers, k).len(),
            joined_keys(d, scope, drivers, loads, keys, (n - 1) as nat, w),
        )
    }
}

/// The wires after joining every signal, by ascending key.
pub open spec fn joined_signals(
    d: Document,
    scope: Seq<char>,
    drivers: Seq<(u32, Anchor)>,
    loads: Seq<(u32, Anchor)>,
    w: WiresV,
) -> WiresV {
    let keys = ascending(keys_in(drivers));
    joined_keys(d, scope, drivers, loads, keys, keys.len(), w)
}

/// A growing list of wires.
pub struct Wires {
    pub edges: Vec<SchEdge>,
    pub seen: PairSet,
    pub next: u32,
}

impl View for Wires {
    type V = WiresV;

    open spec fn view(&self) -> WiresV {
        WiresV { edges: edge_views(self.edges@), seen: self.seen@, next: self.next }
    }
}

/// The node behind an optional reference.
pub open spec fn opt_deref(o: Option<&Node>) -> Option<Node> {
    match o {
        Some(n) => Some(*n),
        None => None,
    }
}

impl Wires {
    pub open spec fn wf(&self) -> bool {
        self.seen.wf()
    }

    /// No wires; the first gets id `next`.
    pub fn new(next: u32) -> (r: Wires)
        ensures
            r.wf(),
            r@ == (WiresV { edges: Seq::empty(), seen: Set::empty(), next }),
    {
        Wires { edges: Vec::new(), seen: PairSet::new(), next }
    }
}

fn bits_differ(a: &Option<String>, b: &Option<String>) -> (r: bool)
    ensures
        r == (*a is Some && *b is Some && opt_chars(*a) != opt_chars(*b)),
{
    match a {
        Some(x) => match b {
            Some(y) => !same(x.as_str(), y.as_str()),
            None => false,
        },
        None => false,
    }
}

/// Joins the drivers of a signal to its loads.
pub fn join_signal(
    sig: Option<&Node>,
    scope: &str,
    drivers: &[Anchor],
    loads: &[Anchor],
    w: &mut Wires,
)
    requires
        old(w).wf(),
    ensures
        final(w).wf(),
        final(w)@ == joined_all(
            opt_deref(sig),
            scope@,
            drivers@,
            loads@,
            drivers@.len(),
            old(w)@,
        ),
{
    let ghost w0 = w@;
    let ghost node = opt_deref(sig);
    let mut i: usize = 0;
    while i < drivers.len()
        invariant
            i <= drivers@.len(),
            node == opt_deref(sig),
            w.wf(),
            w@ == joined_all(node, scope@, drivers@, loads@, i as nat, w0),
        decreases drivers@.len() - i,
    {
        let dr: &Anchor = &drivers[i];
        let ghost w1 = w@;
        let mut j: usize = 0;
        while j < loads.len()
            invariant
                j <= loads@.len(),
                node == opt_deref(sig),
                w.wf(),
                w@ == joined_to(node, scope@, *dr, loads@, j as nat, w1),
            decreases loads@.len() - j,
        {
            let ld: &Anchor = &loads[j];
            let mut fresh: bool = false;
            if dr.0 != ld.0 && !bits_differ(&dr.1, &ld.1) {
                if !w.seen.insert(dr.0, ld.0) {
                    proof {
                        let v = joined_to(node, scope@, *dr, loads@, j as nat, w1);
                        assert(w.seen@ =~= v.seen);
                    }
                } else {
                    fresh = true;
                }
            }
            if fresh {
                let select: Option<String> = if dr.1.is_some() {
                    clone_opt(&dr.1)
                } else {
                    clone_opt(&ld.1)
                };
                let (net, net_path) = match sig {
                    Some(n) => (
                        Some(with_select(relative_to(n.path.as_str(), scope), &select)),
                        Some(n.path.clone()),
                    ),
                    None => (None, None),
                };
                let e: SchEdge = SchEdge {
                    id: w.next,
                    source: dr.0,
                    target: ld.0,
                    net,
                    net_path,
                };
                assert(e@ == wire_between(node, scope@, *dr, *ld, w.next));
                w.edges.push(e);
                w.next = w.next.wrapping_add(1);
            }
            j += 1;
        }
        i += 1;
    }
}

/// Joins every signal, by ascending key.
pub fn join_signals(
    design: &Design,
    scope: &str,
    drivers: &Groups<Anchor>,
    loads: &Groups<Anchor>,
    w: &mut Wires,
)
    requires
        drivers.wf(),
        loads.wf(),
        old(w).wf(),
    ensures
        final(w).wf(),
        final(w)@ == joined_signals(design.doc, scope@, drivers@, loads@, old(w)@),
{
    let keys: Vec<u32> = drivers.keys();
    let ghost w0 = w@;
    let mut i: usize = 0;
    while i < keys.len()
        invariant
            i <= keys@.len(),
            drivers.wf(),
            loads.wf(),
            w.wf(),
            w@ == joined_keys(design.doc, scope@, drivers@, loads@, keys@, i as nat, w0),
        decreases keys@.len() - i,
    {
        let k: u32 = keys[i];
        join_signal(design.node(k), scope, drivers.slice(k), loads.slice(k), w);
        i += 1;
    }
}

} // verus!
