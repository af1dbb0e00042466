//! Types by the place of their DWARF entry.

use vstd::prelude::*;
use std::collections::HashMap;
use crate::type_def::{DwarfTypeKey, TypeId};

verus! {

broadcast use vstd::std_specs::hash::group_hash_axioms;

/// A DWARF key as one number.
pub open spec fn packed(key: DwarfTypeKey) -> u128 {
    (key.unit_index * 0x1_0000_0000_0000_0000 + key.offset) as u128
}

/// The key that a packed number stands for.
spec fn unpacked(n: u128) -> DwarfTypeKey {
    DwarfTypeKey {
        unit_index: (n / 0x1_0000_0000_0000_0000) as usize,
        offset: (n % 0x1_0000_0000_0000_0000) as usize,
    }
}

fn pack(key: DwarfTypeKey) -> (r: u128)
    ensures
        r == packed(key),
        unpacked(r) == key,
{
    key.unit_index as u128 * 0x1_0000_0000_0000_0000 + key.offset as u128
}

/// A map from DWARF keys to types.
#[derive(Debug)]
pub struct KeyMap {
    map: HashMap<u128, TypeId>,
}

impl View for KeyMap {
    type V = Map<DwarfTypeKey, TypeId>;

    closed spec fn view(&self) -> Map<DwarfTypeKey, TypeId> {
        Map::new(
            |k: DwarfTypeKey| self.map@.contains_key(packed(k)),
            |k: DwarfTypeKey| self.map@[packed(k)],
        )
    }
}

impl KeyMap {
    /// Every number in the map is a key's.
    #[verifier::type_invariant]
    spec fn well_formed(self) -> bool {
        forall|n: u128| #[trigger] self.map@.contains_key(n) ==> packed(unpacked(n)) == n
    }

    pub fn new() -> (r: Self)
        ensures
            r@ == Map::<DwarfTypeKey, TypeId>::empty(),
    {
        let r = KeyMap { map: HashMap::new() };
        assert(r@ =~= Map::<DwarfTypeKey, TypeId>::empty());
        r
    }

    pub fn get(&self, key: DwarfTypeKey) -> (r: Option<TypeId>)
        ensures
            r == (if self@.contains_key(key) {
                Some(self@[key])
            } else {
                None
            }),
    {
        match self.map.get(&pack(key)) {
            Some(id) => Some(*id),
            None => None,
        }
    }

    pub fn insert(&mut self, key: DwarfTypeKey, id: TypeId)
        ensures
            final(self)@ == old(self)@.insert(key, id),
    {
        proof {
            use_type_invariant(&*self);
        }
        let n: u128 = pack(key);
        let mut map: HashMap<u128, TypeId> = HashMap::new();
        std::mem::swap(&mut map, &mut self.map);
        map.insert(n, id);
        self.map = map;
        assert forall|k: DwarfTypeKey| packed(k) == n implies k == key by {
            assert(unpacked(packed(k)) == k);
        }
        assert(self@ =~= old(self)@.insert(key, id));
    }

    pub fn len(&self) -> (r: usize)
        ensures
            self@.dom().finite(),
            r == self@.dom().len(),
    {
        proof {
            use_type_invariant(self);
            let raw = self.map@.dom();
            let keys = self@.dom();
            let key = |n: u128| unpacked(n);
            assert forall|k: DwarfTypeKey| keys.contains(k) implies raw.map(key).contains(k) by {
                assert(key(packed(k)) == k);
                assert(raw.contains(packed(k)));
            }
            assert forall|k: DwarfTypeKey| raw.map(key).contains(k) implies keys.contains(k) by {
                let n = choose|n: u128| raw.contains(n) && key(n) == k;
                assert(self.map@.contains_key(n));
            }
            assert(raw.map(key) =~= keys);
            assert forall|a: u128, b: u128|
                raw.contains(a) && raw.contains(b) && key(a) == key(b) implies a == b by {
                assert(self.map@.contains_key(a) && self.map@.contains_key(b));
            }
            vstd::set_lib::lemma_map_size(raw, keys, key);
        }
        self.map.len()
    }
}

} // verus!
