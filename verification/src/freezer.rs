//! The value freezer's bookkeeping: which addresses are frozen to which
//! values, and what one round of the background writer writes.

use vstd::prelude::*;
use std::collections::HashMap;
use crate::types::{ScanValue, ScanValueView};
use vstd::std_specs::iter::IteratorSpec;

verus! {

broadcast use vstd::std_specs::hash::group_hash_axioms;

/// What one round of the background writer writes, by address: nothing at
/// all (`None`) once stopped; otherwise the bytes of each frozen value at its
/// address, and nothing else.
pub open spec fn round_writes(running: bool, frozen: Map<u64, ScanValueView>) -> Option<Map<u64, Seq<u8>>> {
    if running {
        Some(frozen.map_values(|v: ScanValueView| v.to_bytes()))
    } else {
        None
    }
}

/// A list of writes as a map from address to the bytes written there.
pub open spec fn writes_map(w: Seq<(u64, Seq<u8>)>) -> Map<u64, Seq<u8>> {
    Map::new(
        |a: u64| exists|i: int| 0 <= i < w.len() && w[i].0 == a,
        |a: u64| w[choose|i: int| 0 <= i < w.len() && w[i].0 == a].1,
    )
}

/// Frozen addresses and the values held at them; a round of writes puts each
/// value's bytes back at its address while the freezer is running.
pub struct ValueFreezer {
    frozen: HashMap<u64, ScanValue>,
    interval_ms: u64,
    running: bool,
}

impl ValueFreezer {
    /// The frozen addresses and their values.
    pub closed spec fn frozen_view(&self) -> Map<u64, ScanValueView> {
        self.frozen@.map_values(|v: ScanValue| v@)
    }

    /// The pause between two rounds of writes, in milliseconds.
    pub closed spec fn spec_interval_ms(&self) -> u64 {
        self.interval_ms
    }

    /// Whether the background writer should keep going.
    pub closed spec fn is_running(&self) -> bool {
        self.running
    }

    /// A running freezer with nothing frozen, writing every `interval_ms`
    /// milliseconds.
    pub fn new(interval_ms: u64) -> (r: ValueFreezer)
        ensures
            r.frozen_view() == Map::<u64, ScanValueView>::empty(),
            r.spec_interval_ms() == interval_ms,
            r.is_running(),
    {
        let r = ValueFreezer { frozen: HashMap::new(), interval_ms, running: true };
        assert(r.frozen_view() =~= Map::<u64, ScanValueView>::empty());
        r
    }

    /// Freeze an address: it will be continuously written with the given value.
    pub fn freeze(&mut self, address: u64, value: ScanValue)
        ensures
            final(self).frozen_view() == old(self).frozen_view().insert(address, value@),
            final(self).spec_interval_ms() == old(self).spec_interval_ms(),
            final(self).is_running() == old(self).is_running(),
    {
        let ghost v = value@;
        self.frozen.insert(address, value);
        assert(self.frozen_view() =~= old(self).frozen_view().insert(address, v));
    }

    /// Unfreeze an address.
    pub fn unfreeze(&mut self, address: u64)
        ensures
            final(self).frozen_view() == old(self).frozen_view().remove(address),
            final(self).spec_interval_ms() == old(self).spec_interval_ms(),
            final(self).is_running() == old(self).is_running(),
    {
        self.frozen.remove(&address);
        assert(self.frozen_view() =~= old(self).frozen_view().remove(address));
    }

    /// Check if an address is currently frozen.
    pub fn is_frozen(&self, address: u64) -> (r: bool)
        ensures
            r == self.frozen_view().contains_key(address),
    {
        self.frozen.contains_key(&address)
    }

    /// Get all currently frozen addresses, each once, in no particular order.
    pub fn frozen_addresses(&self) -> (r: Vec<u64>)
        ensures
            r@.to_set() == self.frozen_view().dom(),
            r@.no_duplicates(),
    {
        let mut r: Vec<u64> = Vec::new();
        let ghost keys = vstd::std_specs::hash::spec_keys_iter(&self.frozen).remaining();
        for k in it: self.frozen.keys()
            invariant
                it.seq() == keys,
                keys == vstd::std_specs::hash::spec_keys_iter(&self.frozen).remaining(),
                r@ == keys.take(it.index()).unref(),
        {
            r.push(*k);
            assert(r@ =~= keys.take(it.index() + 1).unref());
        }
        assert(keys.take(keys.len() as int) =~= keys);
        r
    }

    /// One round of the background writer: `None` once the freezer has been
    /// stopped; otherwise, for each frozen address once, in no particular
    /// order, the address and the bytes of the value frozen there.
    pub fn tick(&self) -> (r: Option<Vec<(u64, Vec<u8>)>>)
        ensures
            r is None <==> !self.is_running(),
            r matches Some(w) ==> round_writes(self.is_running(), self.frozen_view()) == Some(
                writes_map(w@.map_values(|e: (u64, Vec<u8>)| (e.0, e.1@))),
            ),
            r matches Some(w) ==> {
                &&& w@.map_values(|e: (u64, Vec<u8>)| e.0).to_set() == self.frozen_view().dom()
                &&& w@.map_values(|e: (u64, Vec<u8>)| e.0).no_duplicates()
                &&& forall|i: int|
                    0 <= i < w@.len() ==> (#[trigger] w@[i]).1@ == self.frozen_view()[w@[i].0].to_bytes()
            },
    {
        if !self.running {
            return None;
        }
        let mut w: Vec<(u64, Vec<u8>)> = Vec::new();
        let ghost keys = vstd::std_specs::hash::spec_keys_iter(&self.frozen).remaining();
        for k in it: self.frozen.keys()
            invariant
                it.seq() == keys,
                keys == vstd::std_specs::hash::spec_keys_iter(&self.frozen).remaining(),
                keys.unref().to_set() == self.frozen@.dom(),
                w@.map_values(|e: (u64, Vec<u8>)| e.0) == keys.take(it.index()).unref(),
                forall|i: int|
                    0 <= i < w@.len() ==> (#[trigger] w@[i]).1@ == self.frozen_view()[w@[i].0].to_bytes(),
        {
            let ghost old_w = w@;
            assert(keys.unref().contains(*k)) by {
                assert(keys.unref()[it.index() as int] == *k);
            }
            match self.frozen.get(k) {
                Some(v) => {
                    let bytes = v.to_bytes();
                    w.push((*k, bytes));
                    assert(w@.map_values(|e: (u64, Vec<u8>)| e.0) =~= old_w.map_values(|e: (u64, Vec<u8>)| e.0).push(*k));
                    assert(keys.take(it.index() + 1).unref() =~= keys.take(it.index() as int).unref().push(*k));
                },
                None => {
                    assert(false);
                },
            }
        }
        assert(keys.take(keys.len() as int) =~= keys);
        proof {
            let ws = w@.map_values(|e: (u64, Vec<u8>)| (e.0, e.1@));
            let addrs = w@.map_values(|e: (u64, Vec<u8>)| e.0);
            let m = self.frozen_view().map_values(|v: ScanValueView| v.to_bytes());
            assert forall|a: u64| #[trigger] writes_map(ws).contains_key(a) <==> m.contains_key(a) by {
                if m.contains_key(a) {
                    assert(addrs.to_set().contains(a));
                    let i = choose|i: int| 0 <= i < addrs.len() && addrs[i] == a;
                    assert(ws[i].0 == a);
                }
                if writes_map(ws).contains_key(a) {
                    let i = choose|i: int| 0 <= i < ws.len() && ws[i].0 == a;
                    assert(addrs[i] == a);
                    assert(addrs.to_set().contains(a));
                }
            }
            assert forall|a: u64| #[trigger] writes_map(ws).contains_key(a) implies writes_map(ws)[a] == m[a] by {
                let i = choose|i: int| 0 <= i < ws.len() && ws[i].0 == a;
                assert(w@[i].1@ == self.frozen_view()[w@[i].0].to_bytes());
            }
            assert(writes_map(ws) =~= m);
        }
        Some(w)
    }

    /// The pause between two rounds of writes, in milliseconds.
    pub fn interval_ms(&self) -> (r: u64)
        ensures
            r == self.spec_interval_ms(),
    {
        self.interval_ms
    }

    /// Stop the background writer: no further round of writes is made.
    pub fn stop(&mut self)
        ensures
            final(self).frozen_view() == old(self).frozen_view(),
            final(self).spec_interval_ms() == old(self).spec_interval_ms(),
            !final(self).is_running(),
    {
        self.running = false;
    }
}

} // verus!

verus! {

/// Freezing an address that was not frozen and then unfreezing it leaves
/// the frozen addresses as they were.
pub proof fn lemma_freeze_then_unfreeze(frozen: Map<u64, ScanValueView>, address: u64, value: ScanValueView)
    requires
        !frozen.contains_key(address),
    ensures
        frozen.insert(address, value).remove(address) == frozen,
{
    assert(frozen.insert(address, value).remove(address) =~= frozen);
}

/// After freezing `address` to `value`, whatever else is frozen, every round
/// while running writes `value`'s bytes at `address`, besides the other
/// frozen values.
pub proof fn lemma_round_after_freeze(frozen: Map<u64, ScanValueView>, address: u64, value: ScanValueView)
    ensures
        round_writes(true, frozen.insert(address, value)) matches Some(m) && m.contains_key(address)
            && m[address] == value.to_bytes() && m.dom() == frozen.dom().insert(address),
{
    let m = frozen.insert(address, value).map_values(|v: ScanValueView| v.to_bytes());
    assert(m.dom() =~= frozen.dom().insert(address));
}

/// After unfreezing `address`, no round writes there.
pub proof fn lemma_round_after_unfreeze(frozen: Map<u64, ScanValueView>, address: u64)
    ensures
        round_writes(true, frozen.remove(address)) matches Some(m) && !m.contains_key(address),
{
}

/// Once the freezer is stopped, a round writes nothing, whatever is frozen.
pub proof fn lemma_round_after_stop(frozen: Map<u64, ScanValueView>)
    ensures
        round_writes(false, frozen) is None,
{
}

/// Freezing an address again replaces the value held there.
pub proof fn lemma_freeze_twice(
    frozen: Map<u64, ScanValueView>,
    address: u64,
    first: ScanValueView,
    second: ScanValueView,
)
    ensures
        frozen.insert(address, first).insert(address, second) == frozen.insert(address, second),
{
    assert(frozen.insert(address, first).insert(address, second) =~= frozen.insert(address, second));
}

} // verus!
