//! Ids for synthesized pins, and sets of unordered pin pairs.

use crate::model::NodeId;
use std::collections::{HashMap, HashSet};
use vstd::prelude::*;

verus! {

broadcast use vstd::std_specs::hash::group_hash_axioms;

/// First id of a constant source, keyed by the driven port.
pub const CONST_ID_BASE: NodeId = 0x1000_0000;

/// First id of a drilled interface's frame port, keyed by the modport.
pub const MODPORT_FRAME_BASE: NodeId = 0x2000_0000;

/// First id of a bare bundle's raw access port, keyed by the instance.
pub const RAW_PORT_BASE: NodeId = 0x3000_0000;

/// First id of a synthesized logic pin.
pub const LOGIC_PIN_BASE: NodeId = 0x4000_0000;

/// `base` moved up by `n`, within 32 bits.
pub open spec fn offset_id(base: u32, n: nat) -> u32 {
    ((base + n) % 0x1_0000_0000) as u32
}

/// The pairs that have a pin, in the order in which they got one.
pub type Pins = Seq<(u32, u32)>;

/// Position of a pair that has a pin.
pub open spec fn slot(p: Pins, key: (u32, u32)) -> nat
    decreases p.len(),
{
    if p.len() == 0 || p.last() == key {
        if p.len() == 0 {
            0
        } else {
            (p.len() - 1) as nat
        }
    } else {
        slot(p.drop_last(), key)
    }
}

/// The pairs that have a pin once `(bx, sig)` has one.
pub open spec fn with_pin(p: Pins, bx: u32, sig: u32) -> Pins {
    if p.contains((bx, sig)) {
        p
    } else {
        p.push((bx, sig))
    }
}

/// The pin id of `(bx, sig)`, in `p` or as the next one handed out.
pub open spec fn pin_id(p: Pins, bx: u32, sig: u32) -> u32 {
    offset_id(LOGIC_PIN_BASE, slot(with_pin(p, bx, sig), (bx, sig)))
}

pub proof fn lemma_slot(p: Pins, key: (u32, u32))
    requires
        p.contains(key),
    ensures
        slot(p, key) < p.len(),
        p[slot(p, key) as int] == key,
    decreases p.len(),
{
    if p.last() != key {
        let i = choose|i: int| 0 <= i < p.len() && p[i] == key;
        assert(p.drop_last()[i] == key);
        lemma_slot(p.drop_last(), key);
    }
}

pub proof fn lemma_slot_push(p: Pins, key: (u32, u32), k: (u32, u32))
    requires
        !p.contains(key),
    ensures
        slot(p.push(key), k) == if k == key {
            p.len()
        } else {
            slot(p, k)
        },
{
    assert(p.push(key).drop_last() =~= p);
}

spec fn packed(a: u32, b: u32) -> u64 {
    (a * 0x1_0000_0000 + b) as u64
}

fn pack(a: u32, b: u32) -> (r: u64)
    ensures
        r == packed(a, b),
{
    a as u64 * 0x1_0000_0000 + b as u64
}

/// Hands out one pin id per `(box, signal)`.
pub struct PinAlloc {
    next: u32,
    map: HashMap<u64, u32>,
    keys: Ghost<Pins>,
}

impl View for PinAlloc {
    type V = Pins;

    closed spec fn view(&self) -> Pins {
        self.keys@
    }
}

impl PinAlloc {
    /// The map holds the id of each pair, and the next id is the one behind them.
    pub closed spec fn wf(&self) -> bool {
        &&& self.next == offset_id(LOGIC_PIN_BASE, self.keys@.len())
        &&& self.keys@.no_duplicates()
        &&& forall|a: u32, b: u32|
            self.map@.contains_key(#[trigger] packed(a, b)) <==> self.keys@.contains((a, b))
        &&& forall|a: u32, b: u32|
            self.keys@.contains((a, b)) ==> self.map@[#[trigger] packed(a, b)] == offset_id(
                LOGIC_PIN_BASE,
                slot(self.keys@, (a, b)),
            )
    }

    /// No pins.
    pub fn new() -> (r: PinAlloc)
        ensures
            r.wf(),
            r@ == Pins::empty(),
    {
        PinAlloc { next: LOGIC_PIN_BASE, map: HashMap::new(), keys: Ghost(Seq::empty()) }
    }

    /// The pin id of `(bx, sig)`, allocated on first use.
    pub fn pin(&mut self, bx: NodeId, sig: NodeId) -> (r: NodeId)
        requires
            old(self).wf(),
        ensures
            final(self).wf(),
            final(self)@ == with_pin(old(self)@, bx, sig),
            r == pin_id(old(self)@, bx, sig),
    {
        let key: u64 = pack(bx, sig);
        let ghost keys = self.keys@;
        assert(self.map@.contains_key(packed(bx, sig)) <==> keys.contains((bx, sig)));
        if let Some(p) = self.map.get(&key) {
            return *p;
        }
        let p: u32 = self.next;
        self.map.insert(key, p);
        self.next = p.wrapping_add(1);
        proof {
            self.keys@ = keys.push((bx, sig));
            lemma_slot_push(keys, (bx, sig), (bx, sig));
            assert forall|a: u32, b: u32|
                self.map@.contains_key(#[trigger] packed(a, b)) <==> self.keys@.contains(
                    (a, b),
                ) by {
                assert(packed(a, b) == packed(bx, sig) ==> a == bx && b == sig);
                if keys.contains((a, b)) {
                    let i = choose|i: int| 0 <= i < keys.len() && keys[i] == (a, b);
                    assert(self.keys@[i] == (a, b));
                }
                if a == bx && b == sig {
                    assert(self.keys@[keys.len() as int] == (a, b));
                }
            }
            assert forall|a: u32, b: u32| self.keys@.contains((a, b)) implies self.map@[
                #[trigger] packed(a, b)] == offset_id(LOGIC_PIN_BASE, slot(self.keys@, (a, b))) by {
                lemma_slot_push(keys, (bx, sig), (a, b));
                assert(packed(a, b) == packed(bx, sig) ==> a == bx && b == sig);
                if (a, b) != (bx, sig) {
                    let i = choose|i: int|
                        0 <= i < self.keys@.len() && self.keys@[i] == (a, b);
                    assert(keys[i] == (a, b));
                }
            }
        }
        p
    }
}

/// Distinct pairs have distinct pin ids, as long as ids do not run out.
pub proof fn law_pins_are_distinct(p: Pins, a: (u32, u32), b: (u32, u32))
    requires
        p.contains(a),
        p.contains(b),
        a != b,
        p.len() <= 0xC000_0000,
    ensures
        pin_id(p, a.0, a.1) != pin_id(p, b.0, b.1),
        pin_id(p, a.0, a.1) >= LOGIC_PIN_BASE,
{
    lemma_slot(p, a);
    lemma_slot(p, b);
}

/// A pin keeps its id when later pairs get theirs.
pub proof fn law_pins_are_stable(p: Pins, a: (u32, u32), bx: u32, sig: u32)
    requires
        p.contains(a),
        p.no_duplicates(),
    ensures
        pin_id(with_pin(p, bx, sig), a.0, a.1) == pin_id(p, a.0, a.1),
{
    if !p.contains((bx, sig)) {
        lemma_slot_push(p, (bx, sig), a);
        let i = choose|i: int| 0 <= i < p.len() && p[i] == a;
        assert(p.push((bx, sig))[i] == a);
    }
}

/// The synthetic ids of different uses lie apart from each other and from model ids.
pub proof fn law_synthetic_ids_are_disjoint(n: u32, p: Pins, a: (u32, u32), x: u32, y: u32)
    requires
        n <= CONST_ID_BASE,
        x < n,
        y < n,
        p.contains(a),
        p.len() <= 0xC000_0000,
    ensures
        x < offset_id(CONST_ID_BASE, y as nat) < MODPORT_FRAME_BASE,
        MODPORT_FRAME_BASE <= offset_id(MODPORT_FRAME_BASE, y as nat) < RAW_PORT_BASE,
        RAW_PORT_BASE <= offset_id(RAW_PORT_BASE, y as nat) < LOGIC_PIN_BASE,
        LOGIC_PIN_BASE <= pin_id(p, a.0, a.1),
{
    lemma_slot(p, a);
}

/// The two ids of an unordered pair, the lesser first.
pub open spec fn pair_of(a: u32, b: u32) -> (u32, u32) {
    if a <= b {
        (a, b)
    } else {
        (b, a)
    }
}

/// A set of unordered pairs of ids, each stored with the lesser first.
pub struct PairSet {
    set: HashSet<u64>,
    members: Ghost<Set<(u32, u32)>>,
}

impl View for PairSet {
    type V = Set<(u32, u32)>;

    closed spec fn view(&self) -> Set<(u32, u32)> {
        self.members@
    }
}

impl PairSet {
    /// The hash set holds the members.
    pub closed spec fn wf(&self) -> bool {
        forall|a: u32, b: u32|
            self.set@.contains(#[trigger] packed(a, b)) <==> self.members@.contains((a, b))
    }

    /// No pairs.
    pub fn new() -> (r: PairSet)
        ensures
            r.wf(),
            r@ == Set::<(u32, u32)>::empty(),
    {
        PairSet { set: HashSet::new(), members: Ghost(Set::empty()) }
    }

    /// Adds the unordered pair of `a` and `b`; whether it was new.
    pub fn insert(&mut self, a: NodeId, b: NodeId) -> (r: bool)
        requires
            old(self).wf(),
        ensures
            final(self).wf(),
            final(self)@ == old(self)@.insert(pair_of(a, b)),
            r == !old(self)@.contains(pair_of(a, b)),
    {
        let (lo, hi) = if a <= b {
            (a, b)
        } else {
            (b, a)
        };
        let ghost before = self.members@;
        assert(self.set@.contains(packed(lo, hi)) <==> before.contains((lo, hi)));
        let fresh: bool = self.set.insert(pack(lo, hi));
        proof {
            self.members@ = before.insert((lo, hi));
            assert forall|x: u32, y: u32|
                self.set@.contains(#[trigger] packed(x, y)) <==> self.members@.contains((x, y)) by {
                assert(packed(x, y) == packed(lo, hi) ==> x == lo && y == hi);
            }
        }
        fresh
    }
}

} // verus!
