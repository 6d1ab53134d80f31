//! A table from texts to values that can also be walked, key by key.

use vstd::hash_map::StringHashMap;
use vstd::prelude::*;
use crate::text::texts;

verus! {

/// A table from texts to values.
#[verifier::reject_recursive_types(V)]
pub struct StringTable<V> {
    keys: Vec<String>,
    /// Where each key stands in the list.
    places: StringHashMap<usize>,
    map: StringHashMap<V>,
}

impl<V> View for StringTable<V> {
    type V = Map<Seq<char>, V>;

    closed spec fn view(&self) -> Map<Seq<char>, V> {
        self.map@
    }
}

/// The list without a key: the last key takes its place.
pub open spec fn without(order: Seq<Seq<char>>, key: Seq<char>) -> Seq<Seq<char>> {
    if order.contains(key) {
        order.update(order.index_of(key), order.last()).drop_last()
    } else {
        order
    }
}

impl<V> StringTable<V> {
    /// The keys, in the order in which they are walked. A new key comes
    /// last, and the last takes the place of one that is taken out.
    pub closed spec fn order(self) -> Seq<Seq<char>> {
        texts(self.keys@)
    }

    /// The list holds every key once, at its place, and nothing else.
    pub closed spec fn wf(self) -> bool {
        &&& forall|i: int|
            0 <= i < self.order().len() ==> self.places@.contains_key(#[trigger] self.order()[i])
                && self.places@[self.order()[i]] == i
        &&& forall|k: Seq<char>| #[trigger]
            self.places@.contains_key(k) ==> self.places@[k] < self.order().len()
                && self.order()[self.places@[k] as int] == k
        &&& self.map@.dom() == self.places@.dom()
    }

    /// An empty table.
    pub fn new() -> (r: Self)
        ensures
            r.wf(),
            r@ == Map::<Seq<char>, V>::empty(),
            r.order() == Seq::<Seq<char>>::empty(),
    {
        let r = StringTable {
            keys: Vec::new(),
            places: StringHashMap::new(),
            map: StringHashMap::new(),
        };
        assert(r.order() =~= Seq::empty());
        assert(r.map@.dom() =~= r.places@.dom());
        r
    }

    /// How many keys there are.
    pub fn len(&self) -> (r: usize)
        requires
            self.wf(),
        ensures
            r == self@.dom().len(),
            r == self.order().len(),
            self@.dom().finite(),
    {
        proof {
            self.lemma_order();
        }
        self.keys.len()
    }

    /// The value under a key.
    pub fn get(&self, key: &str) -> (r: Option<&V>)
        ensures
            match r {
                Some(v) => self@.contains_key(key@) && *v == self@[key@],
                None => !self@.contains_key(key@),
            },
    {
        self.map.get(key)
    }

    /// Whether there is a value under a key.
    pub fn contains(&self, key: &str) -> (r: bool)
        ensures
            r == self@.contains_key(key@),
    {
        self.map.contains_key(key)
    }

    /// The key at an index of the order.
    pub fn key_at(&self, i: usize) -> (r: &String)
        requires
            self.wf(),
            i < self.order().len(),
        ensures
            r@ == self.order()[i as int],
            self@.contains_key(r@),
    {
        assert(self.order()[i as int] == self.keys@[i as int]@);
        assert(self.map@.dom().contains(self.order()[i as int]));
        &self.keys[i]
    }

    /// Puts a value under a key, in place of any that is there.
    pub fn insert(&mut self, key: String, value: V)
        requires
            old(self).wf(),
        ensures
            final(self).wf(),
            final(self)@ == old(self)@.insert(key@, value),
            final(self).order() == (if old(self)@.contains_key(key@) {
                old(self).order()
            } else {
                old(self).order().push(key@)
            }),
    {
        let ghost before = self.order();
        let ghost places = self.places@;
        assert(places.contains_key(key@) <==> self@.dom().contains(key@));
        if !self.map.contains_key(key.as_str()) {
            let place: usize = self.keys.len();
            self.keys.push(key.clone());
            self.places.insert(key.clone(), place);
            proof {
                let after = self.order();
                assert(after =~= before.push(key@));
                assert forall|i: int| 0 <= i < after.len() implies self.places@.contains_key(
                    #[trigger] after[i],
                ) && self.places@[after[i]] == i by {
                    if i < before.len() {
                        assert(after[i] == before[i]);
                        assert(places.contains_key(before[i]));
                    }
                }
                assert forall|k: Seq<char>| #[trigger]
                    self.places@.contains_key(k) implies self.places@[k] < after.len()
                    && after[self.places@[k] as int] == k by {
                    if k != key@ {
                        assert(places.contains_key(k));
                    }
                }
            }
        }
        self.map.insert(key, value);
        assert(self.map@.dom() =~= self.places@.dom());
    }

    /// Takes a key and its value out.
    pub fn remove(&mut self, key: &str)
        requires
            old(self).wf(),
        ensures
            final(self).wf(),
            final(self)@ == old(self)@.remove(key@),
            final(self).order() == without(old(self).order(), key@),
    {
        let ghost before = self.order();
        let ghost places = self.places@;
        let place: usize = match self.places.get(key) {
            Some(place) => *place,
            None => {
                proof {
                    assert(!self@.dom().contains(key@));
                    assert(self@.remove(key@) =~= self@);
                    self.lemma_order();
                }
                return ;
            },
        };
        proof {
            assert(before[place as int] == key@);
            assert(before.contains(key@));
            let i = before.index_of(key@);
            assert(before[i] == key@);
            assert(places[before[i]] == i);
        }
        let last: usize = self.keys.len() - 1;
        self.keys.swap_remove(place);
        assert(self.order() =~= before.update(place as int, before.last()).drop_last());
        if place < last {
            assert(self.order()[place as int] == self.keys@[place as int]@);
            self.places.insert(self.keys[place].clone(), place);
        }
        self.places.remove(key);
        self.map.remove(key);
        proof {
            let after = self.order();
            assert(places[before[last as int]] == last);
            assert forall|i: int| 0 <= i < after.len() implies self.places@.contains_key(
                #[trigger] after[i],
            ) && self.places@[after[i]] == i by {
                if i == place {
                    assert(after[i] == before[last as int]);
                } else {
                    assert(after[i] == before[i]);
                }
                assert(places.contains_key(before[i]));
                assert(places[before[i]] == i);
            }
            assert forall|k: Seq<char>| #[trigger] self.places@.contains_key(k) implies self.places@[k]
                < after.len() && after[self.places@[k] as int] == k by {
                assert(places.contains_key(k));
                assert(before[places[k] as int] == k);
            }
            assert(self.map@.dom() =~= self.places@.dom()) by {
                assert(places.contains_key(before[last as int]));
                assert forall|k: Seq<char>| self.map@.dom().contains(k)
                    <==> self.places@.dom().contains(k) by {
                    assert(old(self)@.dom().contains(k) <==> places.dom().contains(k));
                }
            }
        }
    }

    /// The keys of the order are the keys of the table, each once.
    pub proof fn lemma_order(&self)
        requires
            self.wf(),
        ensures
            self@.dom().finite(),
            self@.dom().len() == self.order().len(),
            self.order().no_duplicates(),
            forall|k: Seq<char>| self@.contains_key(k) <==> self.order().contains(k),
            forall|i: int|
                0 <= i < self.order().len() ==> self@.contains_key(#[trigger] self.order()[i]),
    {
        let order = self.order();
        assert(order.no_duplicates()) by {
            assert forall|i: int, j: int|
                0 <= i < order.len() && 0 <= j < order.len() && i != j implies order[i]
                != order[j] by {
                assert(self.places@[order[i]] == i);
                assert(self.places@[order[j]] == j);
            }
        }
        assert forall|i: int| 0 <= i < order.len() implies self@.contains_key(
            #[trigger] order[i],
        ) by {
            assert(self.map@.dom().contains(order[i]));
        }
        assert forall|k: Seq<char>| self@.contains_key(k) <==> order.contains(k) by {
            if self@.contains_key(k) {
                assert(self.places@.dom().contains(k));
                assert(self.places@.contains_key(k));
                assert(order[self.places@[k] as int] == k);
            }
        }
        order.unique_seq_to_set();
        assert(self@.dom() =~= order.to_set());
    }
}

} // verus!
