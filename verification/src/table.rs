//! A map from strings to values, held as a list of bindings in the order in
//! which the keys were first bound. No key occurs twice.

use vstd::prelude::*;

verus! {

#[derive(Debug)]
struct Slot<V> {
    key: String,
    value: V,
}

spec fn slot_key<V>(s: Seq<Slot<V>>, i: int) -> Seq<char> {
    s[i].key@
}

spec fn has_key<V>(s: Seq<Slot<V>>, k: Seq<char>) -> bool {
    exists|i: int| 0 <= i < s.len() && #[trigger] slot_key(s, i) == k
}

spec fn index_of<V>(s: Seq<Slot<V>>, k: Seq<char>) -> int {
    choose|i: int| 0 <= i < s.len() && #[trigger] slot_key(s, i) == k
}

spec fn distinct<V>(s: Seq<Slot<V>>) -> bool {
    forall|i: int, j: int|
        0 <= i < j < s.len() ==> #[trigger] slot_key(s, i) != #[trigger] slot_key(s, j)
}

spec fn slots_map<V: View>(s: Seq<Slot<V>>) -> Map<Seq<char>, V::V> {
    Map::new(|k: Seq<char>| has_key(s, k), |k: Seq<char>| s[index_of(s, k)].value@)
}

proof fn lemma_slot_found<V: View>(s: Seq<Slot<V>>, i: int)
    requires
        distinct(s),
        0 <= i < s.len(),
    ensures
        slots_map(s).contains_key(s[i].key@),
        slots_map(s)[s[i].key@] == s[i].value@,
{
    let k = s[i].key@;
    assert(slot_key(s, i) == k);
    let j = index_of(s, k);
    assert(slot_key(s, j) == k);
    assert(i == j);
}

proof fn lemma_slot_replaced<V: View>(s: Seq<Slot<V>>, i: int, slot: Slot<V>)
    requires
        distinct(s),
        0 <= i < s.len(),
        slot.key@ == s[i].key@,
    ensures
        distinct(s.update(i, slot)),
        slots_map(s.update(i, slot)) == slots_map(s).insert(slot.key@, slot.value@),
{
    let t = s.update(i, slot);
    assert forall|a: int| 0 <= a < s.len() implies slot_key(t, a) == slot_key(s, a) by {}
    assert(distinct(t)) by {
        assert forall|a: int, b: int| 0 <= a < b < t.len() implies slot_key(t, a) != slot_key(
            t,
            b,
        ) by {
            assert(slot_key(s, a) != slot_key(s, b));
        }
    }
    assert forall|k: Seq<char>| has_key(t, k) == (has_key(s, k) || k == slot.key@) by {
        if has_key(s, k) {
            let a = index_of(s, k);
            assert(slot_key(t, a) == k);
        }
        if k == slot.key@ {
            assert(slot_key(t, i) == k);
        }
        if has_key(t, k) {
            let a = index_of(t, k);
            assert(slot_key(s, a) == k);
        }
    }
    assert forall|k: Seq<char>| has_key(t, k) implies #[trigger] slots_map(t)[k] == slots_map(
        s,
    ).insert(slot.key@, slot.value@)[k] by {
        let a = index_of(t, k);
        lemma_slot_found(t, a);
        if k != slot.key@ {
            assert(a != i);
            lemma_slot_found(s, a);
        } else {
            lemma_slot_found(t, i);
        }
    }
    assert(slots_map(t) =~= slots_map(s).insert(slot.key@, slot.value@));
}

proof fn lemma_slot_pushed<V: View>(s: Seq<Slot<V>>, slot: Slot<V>)
    requires
        distinct(s),
        !has_key(s, slot.key@),
    ensures
        distinct(s.push(slot)),
        slots_map(s.push(slot)) == slots_map(s).insert(slot.key@, slot.value@),
{
    let t = s.push(slot);
    let n = s.len() as int;
    assert forall|a: int| 0 <= a < n implies slot_key(t, a) == slot_key(s, a) by {}
    assert(slot_key(t, n) == slot.key@);
    assert(distinct(t)) by {
        assert forall|a: int, b: int| 0 <= a < b < t.len() implies slot_key(t, a) != slot_key(
            t,
            b,
        ) by {
            if b < n {
                assert(slot_key(s, a) != slot_key(s, b));
            } else {
                assert(slot_key(s, a) == slot_key(t, a));
            }
        }
    }
    assert forall|k: Seq<char>| has_key(t, k) == (has_key(s, k) || k == slot.key@) by {
        if has_key(s, k) {
            let a = index_of(s, k);
            assert(slot_key(t, a) == k);
        }
        if k == slot.key@ {
            assert(slot_key(t, n) == k);
        }
        if has_key(t, k) {
            let a = index_of(t, k);
            if a < n {
                assert(slot_key(s, a) == k);
            }
        }
    }
    assert forall|k: Seq<char>| has_key(t, k) implies #[trigger] slots_map(t)[k] == slots_map(
        s,
    ).insert(slot.key@, slot.value@)[k] by {
        let a = index_of(t, k);
        lemma_slot_found(t, a);
        if k != slot.key@ {
            assert(a < n);
            lemma_slot_found(s, a);
        } else {
            lemma_slot_found(t, n);
        }
    }
    assert(slots_map(t) =~= slots_map(s).insert(slot.key@, slot.value@));
}

proof fn lemma_slot_removed<V: View>(s: Seq<Slot<V>>, i: int)
    requires
        distinct(s),
        0 <= i < s.len(),
    ensures
        distinct(s.remove(i)),
        slots_map(s.remove(i)) == slots_map(s).remove(s[i].key@),
{
    let t = s.remove(i);
    let gone = s[i].key@;
    assert forall|a: int| 0 <= a < t.len() implies slot_key(t, a) == slot_key(
        s,
        if a < i {
            a
        } else {
            a + 1
        },
    ) by {}
    assert(distinct(t)) by {
        assert forall|a: int, b: int| 0 <= a < b < t.len() implies slot_key(t, a) != slot_key(
            t,
            b,
        ) by {
            let a0 = if a < i { a } else { a + 1 };
            let b0 = if b < i { b } else { b + 1 };
            assert(slot_key(s, a0) != slot_key(s, b0));
        }
    }
    assert forall|k: Seq<char>| has_key(t, k) == (has_key(s, k) && k != gone) by {
        if has_key(s, k) && k != gone {
            let a = index_of(s, k);
            assert(a != i);
            let a1 = if a < i { a } else { a - 1 };
            assert(slot_key(t, a1) == k);
        }
        if has_key(t, k) {
            let a = index_of(t, k);
            let a0 = if a < i { a } else { a + 1 };
            assert(slot_key(s, a0) == k);
            assert(slot_key(s, i) == gone);
        }
    }
    assert forall|k: Seq<char>| has_key(t, k) implies #[trigger] slots_map(t)[k] == slots_map(
        s,
    ).remove(gone)[k] by {
        let a = index_of(t, k);
        let a0 = if a < i { a } else { a + 1 };
        lemma_slot_found(t, a);
        lemma_slot_found(s, a0);
    }
    assert(slots_map(t) =~= slots_map(s).remove(gone));
}

proof fn lemma_same_slots<V: View>(s: Seq<Slot<V>>, t: Seq<Slot<V>>)
    requires
        distinct(s),
        s.len() == t.len(),
        forall|i: int| 0 <= i < s.len() ==> #[trigger] t[i].key@ == s[i].key@,
        forall|i: int| 0 <= i < s.len() ==> #[trigger] t[i].value@ == s[i].value@,
    ensures
        distinct(t),
        slots_map(t) == slots_map(s),
{
    assert forall|a: int| 0 <= a < s.len() implies slot_key(t, a) == slot_key(s, a) by {
        assert(t[a].key@ == s[a].key@);
    }
    assert(distinct(t)) by {
        assert forall|a: int, b: int| 0 <= a < b < t.len() implies slot_key(t, a) != slot_key(
            t,
            b,
        ) by {
            assert(slot_key(s, a) != slot_key(s, b));
        }
    }
    assert forall|k: Seq<char>| has_key(t, k) == has_key(s, k) by {
        if has_key(s, k) {
            let a = index_of(s, k);
            assert(slot_key(t, a) == k);
        }
        if has_key(t, k) {
            let a = index_of(t, k);
            assert(slot_key(s, a) == k);
        }
    }
    assert forall|k: Seq<char>| has_key(t, k) implies #[trigger] slots_map(t)[k] == slots_map(
        s,
    )[k] by {
        let a = index_of(t, k);
        lemma_slot_found(t, a);
        lemma_slot_found(s, a);
        assert(t[a].value@ == s[a].value@);
    }
    assert(slots_map(t) =~= slots_map(s));
}

/// A value that can be copied so that the copy has the same view.
pub trait Duplicate: View + Sized {
    fn duplicate(&self) -> (r: Self)
        ensures
            r@ == self@,
    ;
}

impl Duplicate for String {
    fn duplicate(&self) -> (r: Self) {
        self.clone()
    }
}

/// A map from strings to values of type `V`. Its view is the mathematical map
/// from the keys' characters to the values' views.
#[derive(Debug)]
pub struct Table<V: View> {
    slots: Vec<Slot<V>>,
}

impl<V: View> View for Table<V> {
    type V = Map<Seq<char>, V::V>;

    closed spec fn view(&self) -> Map<Seq<char>, V::V> {
        slots_map(self.slots@)
    }
}

impl<V: View> Table<V> {
    #[verifier::type_invariant]
    spec fn well_formed(self) -> bool {
        distinct(self.slots@)
    }

    /// The keys, each once, in the order in which `binding_at` hands them
    /// out.
    pub closed spec fn key_order(&self) -> Seq<Seq<char>> {
        Seq::new(self.slots@.len(), |i: int| slot_key(self.slots@, i))
    }

    /// The empty map.
    pub fn new() -> (r: Self)
        ensures
            r@ == Map::<Seq<char>, V::V>::empty(),
    {
        let r = Table { slots: Vec::new() };
        assert(r@ =~= Map::<Seq<char>, V::V>::empty());
        r
    }

    /// The number of keys. The keys of `key_order` are those of the map, each
    /// once.
    pub fn len(&self) -> (r: usize)
        ensures
            r == self.key_order().len(),
            r == self@.dom().len(),
            self@.dom().finite(),
            self.key_order().no_duplicates(),
            forall|k: Seq<char>| self.key_order().contains(k) <==> self@.contains_key(k),
    {
        proof {
            use_type_invariant(self);
            let order = self.key_order();
            let s = self.slots@;
            assert forall|i: int, j: int|
                0 <= i < order.len() && 0 <= j < order.len() && i != j implies order[i]
                != order[j] by {
                if i < j {
                    assert(slot_key(s, i) != slot_key(s, j));
                } else {
                    assert(slot_key(s, j) != slot_key(s, i));
                }
            }
            assert forall|k: Seq<char>| order.contains(k) <==> self@.contains_key(k) by {
                if order.contains(k) {
                    let i = choose|i: int| 0 <= i < order.len() && order[i] == k;
                    assert(slot_key(s, i) == k);
                }
                if self@.contains_key(k) {
                    let i = index_of(s, k);
                    assert(order[i] == k);
                }
            }
            assert(order.to_set() =~= self@.dom());
            order.unique_seq_to_set();
            vstd::seq_lib::seq_to_set_is_finite(order);
        }
        self.slots.len()
    }

    /// The `i`-th key in `key_order` and the value bound to it; `None` where
    /// there are no more than `i` keys.
    pub fn binding_at(&self, i: usize) -> (r: Option<(&String, &V)>)
        ensures
            match r {
                Some((key, value)) => i < self.key_order().len() && key@ == self.key_order()[i as int]
                    && self@.contains_key(key@) && value@ == self@[key@],
                None => i >= self.key_order().len(),
            },
    {
        if i >= self.slots.len() {
            return None;
        }
        proof {
            use_type_invariant(self);
            lemma_slot_found(self.slots@, i as int);
        }
        Some((&self.slots[i].key, &self.slots[i].value))
    }

    fn position(&self, key: &String) -> (r: Option<usize>)
        ensures
            match r {
                Some(i) => i < self.slots@.len() && slot_key(self.slots@, i as int) == key@,
                None => !has_key(self.slots@, key@),
            },
    {
        let mut i: usize = 0;
        while i < self.slots.len()
            invariant
                i <= self.slots@.len(),
                forall|j: int| 0 <= j < i ==> slot_key(self.slots@, j) != key@,
            decreases self.slots@.len() - i,
        {
            if self.slots[i].key == *key {
                return Some(i);
            }
            i += 1;
        }
        None
    }

    /// Whether `key` is bound.
    pub fn contains_key(&self, key: &String) -> (r: bool)
        ensures
            r == self@.contains_key(key@),
    {
        self.position(key).is_some()
    }

    /// The value bound to `key`, if any.
    pub fn get(&self, key: &String) -> (r: Option<&V>)
        ensures
            match r {
                Some(v) => self@.contains_key(key@) && v@ == self@[key@],
                None => !self@.contains_key(key@),
            },
    {
        match self.position(key) {
            Some(i) => {
                proof {
                    use_type_invariant(self);
                    lemma_slot_found(self.slots@, i as int);
                }
                Some(&self.slots[i].value)
            },
            None => None,
        }
    }

    /// Binds `key` to `value`, whatever it was bound to.
    pub fn insert(&mut self, key: String, value: V)
        ensures
            final(self)@ == old(self)@.insert(key@, value@),
    {
        proof {
            use_type_invariant(&*self);
        }
        match self.position(&key) {
            Some(i) => {
                let slot = Slot { key, value };
                proof {
                    lemma_slot_replaced(self.slots@, i as int, slot);
                }
                let mut slots: Vec<Slot<V>> = Vec::new();
                core::mem::swap(&mut self.slots, &mut slots);
                slots.set(i, slot);
                core::mem::swap(&mut self.slots, &mut slots);
            },
            None => {
                let slot = Slot { key, value };
                proof {
                    lemma_slot_pushed(self.slots@, slot);
                }
                let mut slots: Vec<Slot<V>> = Vec::new();
                core::mem::swap(&mut self.slots, &mut slots);
                slots.push(slot);
                core::mem::swap(&mut self.slots, &mut slots);
            },
        }
    }

    /// Unbinds `key` and tells whether it was bound.
    pub fn remove(&mut self, key: &String) -> (r: bool)
        ensures
            r == old(self)@.contains_key(key@),
            final(self)@ == old(self)@.remove(key@),
    {
        proof {
            use_type_invariant(&*self);
        }
        match self.position(key) {
            Some(i) => {
                proof {
                    lemma_slot_removed(self.slots@, i as int);
                    lemma_slot_found(self.slots@, i as int);
                }
                let mut slots: Vec<Slot<V>> = Vec::new();
                core::mem::swap(&mut self.slots, &mut slots);
                slots.remove(i);
                core::mem::swap(&mut self.slots, &mut slots);
                true
            },
            None => {
                assert(self@ =~= self@.remove(key@));
                false
            },
        }
    }
}

impl<V: Duplicate> Clone for Table<V> {
    /// A copy with the same bindings.
    fn clone(&self) -> (r: Self)
        ensures
            r@ == self@,
    {
        proof {
            use_type_invariant(self);
        }
        let mut slots: Vec<Slot<V>> = Vec::new();
        let mut i: usize = 0;
        while i < self.slots.len()
            invariant
                i <= self.slots@.len(),
                slots@.len() == i,
                forall|j: int| 0 <= j < i ==> #[trigger] slots@[j].key@ == self.slots@[j].key@,
                forall|j: int| 0 <= j < i ==> #[trigger] slots@[j].value@ == self.slots@[j].value@,
            decreases self.slots@.len() - i,
        {
            let slot = Slot { key: self.slots[i].key.clone(), value: self.slots[i].value.duplicate() };
            slots.push(slot);
            i += 1;
        }
        proof {
            lemma_same_slots(self.slots@, slots@);
        }
        Table { slots }
    }
}

} // verus!
