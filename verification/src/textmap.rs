use vstd::prelude::*;
use vstd::utf8::*;
use crate::text::{lemma_bytes_before_asymmetric, lemma_bytes_before_transitive, str_rank, text_before, Rank};

verus! {

/// The names of the entries of an association list, in its order.
pub open spec fn names_of<V>(s: Seq<(String, V)>) -> Seq<Seq<char>> {
    s.map_values(|e: (String, V)| e.0@)
}

/// The values of the entries of an association list, in its order.
pub open spec fn values_of<V>(s: Seq<(String, V)>) -> Seq<V> {
    s.map_values(|e: (String, V)| e.1)
}

/// Whether each name comes strictly before every later one.
pub open spec fn ascending(names: Seq<Seq<char>>) -> bool {
    forall|i: int, j: int|
        #![trigger names[i], names[j]]
        0 <= i < j < names.len() ==> text_before(names[i], names[j])
}

/// A place at which `names` holds `k`.
pub open spec fn place_of(names: Seq<Seq<char>>, k: Seq<char>) -> int {
    choose|i: int| 0 <= i < names.len() && names[i] == k
}

/// In an ascending sequence a name stands at one place only.
pub proof fn lemma_place_unique(names: Seq<Seq<char>>, i: int)
    requires
        ascending(names),
        0 <= i < names.len(),
    ensures
        place_of(names, names[i]) == i,
{
    assert(names[i] == names[i]);
    let p = place_of(names, names[i]);
    assert(0 <= p < names.len() && names[p] == names[i]);
    if p < i {
        lemma_bytes_before_asymmetric(encode_utf8(names[p]), encode_utf8(names[i]));
    } else if i < p {
        lemma_bytes_before_asymmetric(encode_utf8(names[i]), encode_utf8(names[p]));
    }
}

/// In an ascending sequence no name stands at two places.
pub proof fn lemma_distinct(names: Seq<Seq<char>>, i: int, j: int)
    requires
        ascending(names),
        0 <= i < names.len(),
        0 <= j < names.len(),
        i != j,
    ensures
        names[i] != names[j],
{
    if i < j {
        lemma_bytes_before_asymmetric(encode_utf8(names[i]), encode_utf8(names[j]));
    } else {
        lemma_bytes_before_asymmetric(encode_utf8(names[j]), encode_utf8(names[i]));
    }
}

/// A map from texts to values that keeps its entries in the dictionary order
/// of their keys, so that walking it visits the keys in ascending order.
#[derive(Debug, PartialEq)]
pub struct TextMap<V> {
    items: Vec<(String, V)>,
}

impl<V> View for TextMap<V> {
    type V = Map<Seq<char>, V>;

    /// The mapping itself: each key with its value.
    open spec fn view(&self) -> Map<Seq<char>, V> {
        Map::new(
            |k: Seq<char>| self.names().contains(k),
            |k: Seq<char>| self.values()[place_of(self.names(), k)],
        )
    }
}

impl<V> TextMap<V> {
    /// The keys ascend, which every map keeps to.
    #[verifier::type_invariant]
    spec fn sorted(&self) -> bool {
        ascending(names_of(self.items@))
    }

    /// The keys, in the order in which the map is walked.
    pub closed spec fn names(&self) -> Seq<Seq<char>> {
        names_of(self.items@)
    }

    /// The values, each at the place of its key in `names`.
    pub closed spec fn values(&self) -> Seq<V> {
        values_of(self.items@)
    }

    /// What holds of the keys and values of every map: the keys ascend, and
    /// there are as many values as keys.
    pub open spec fn ordered(&self) -> bool {
        &&& self.names().len() == self.values().len()
        &&& ascending(self.names())
    }

    /// In an ordered map the entry at place `i` is the value of the key there.
    pub proof fn lemma_entry(&self, i: int)
        requires
            self.ordered(),
            0 <= i < self.names().len(),
        ensures
            self@.contains_key(self.names()[i]),
            self@[self.names()[i]] == self.values()[i],
    {
        lemma_place_unique(self.names(), i);
    }

    /// An empty map.
    pub fn new() -> (m: Self)
        ensures
            m@ == Map::<Seq<char>, V>::empty(),
            m.names() == Seq::<Seq<char>>::empty(),
            m.values() == Seq::<V>::empty(),
    {
        let m = TextMap { items: Vec::new() };
        assert(m@ =~= Map::<Seq<char>, V>::empty());
        assert(m.names() =~= Seq::<Seq<char>>::empty());
        assert(m.values() =~= Seq::<V>::empty());
        m
    }

    /// The number of entries.
    pub fn len(&self) -> (n: usize)
        ensures
            n == self.names().len(),
            self.ordered(),
    {
        proof {
            use_type_invariant(self);
        }
        self.items.len()
    }

    /// The place at which `name` stands, or the place at which it would have
    /// to be put.
    fn search(&self, name: &str) -> (r: (usize, bool))
        ensures
            r.0 <= self.names().len(),
            r.1 ==> r.0 < self.names().len() && self.names()[r.0 as int] == name@,
            !r.1 ==> !self.names().contains(name@),
            forall|k: int| 0 <= k < r.0 ==> text_before(#[trigger] self.names()[k], name@),
            !r.1 ==> forall|k: int|
                r.0 <= k < self.names().len() ==> text_before(name@, #[trigger] self.names()[k]),
    {
        proof {
            use_type_invariant(self);
        }
        let ghost names = names_of(self.items@);
        let mut lo: usize = 0;
        let mut hi: usize = self.items.len();
        while lo < hi
            invariant
                lo <= hi <= self.items.len(),
                names == names_of(self.items@),
                ascending(names),
                forall|k: int| 0 <= k < lo ==> text_before(#[trigger] names[k], name@),
                forall|k: int| hi <= k < names.len() ==> text_before(name@, #[trigger] names[k]),
            decreases hi - lo,
        {
            let mid = lo + (hi - lo) / 2;
            match str_rank(self.items[mid].0.as_str(), name) {
                Rank::Before => {
                    proof {
                        assert forall|k: int| 0 <= k < mid + 1 implies text_before(
                            #[trigger] names[k],
                            name@,
                        ) by {
                            if k < mid {
                                assert(text_before(names[k], names[mid as int]));
                                lemma_bytes_before_transitive(
                                    encode_utf8(names[k]),
                                    encode_utf8(names[mid as int]),
                                    encode_utf8(name@),
                                );
                            }
                        }
                    }
                    lo = mid + 1;
                },
                Rank::Same => {
                    return (mid, true);
                },
                Rank::After => {
                    proof {
                        assert forall|k: int| mid <= k < names.len() implies text_before(
                            name@,
                            #[trigger] names[k],
                        ) by {
                            if mid < k {
                                assert(text_before(names[mid as int], names[k]));
                                lemma_bytes_before_transitive(
                                    encode_utf8(name@),
                                    encode_utf8(names[mid as int]),
                                    encode_utf8(names[k]),
                                );
                            }
                        }
                    }
                    hi = mid;
                },
            }
        }
        proof {
            assert forall|k: int| 0 <= k < names.len() implies names[k] != name@ by {
                if k < lo {
                    lemma_bytes_before_asymmetric(encode_utf8(names[k]), encode_utf8(name@));
                } else {
                    lemma_bytes_before_asymmetric(encode_utf8(name@), encode_utf8(names[k]));
                }
            }
        }
        (lo, false)
    }

    /// The place of `name` among the keys, if it is one.
    pub fn position(&self, name: &str) -> (r: Option<usize>)
        ensures
            match r {
                Some(i) => i < self.names().len() && self.names()[i as int] == name@,
                None => !self@.contains_key(name@),
            },
    {
        let (i, found) = self.search(name);
        if found {
            Some(i)
        } else {
            None
        }
    }

    /// Whether `name` is a key.
    pub fn contains_key(&self, name: &str) -> (r: bool)
        ensures
            r == self@.contains_key(name@),
    {
        let (_, found) = self.search(name);
        found
    }

    /// The value of `name`, if it is a key.
    pub fn get(&self, name: &str) -> (r: Option<&V>)
        ensures
            match r {
                Some(v) => self@.contains_key(name@) && *v == self@[name@],
                None => !self@.contains_key(name@),
            },
    {
        proof {
            use_type_invariant(self);
        }
        let (i, found) = self.search(name);
        if found {
            proof {
                lemma_place_unique(self.names(), i as int);
            }
            Some(&self.items[i].1)
        } else {
            None
        }
    }

    /// The key at place `i`.
    pub fn name_at(&self, i: usize) -> (r: &str)
        requires
            i < self.names().len(),
        ensures
            r@ == self.names()[i as int],
    {
        self.items[i].0.as_str()
    }

    /// The value at place `i`, which is the value of the key at that place.
    pub fn value_at(&self, i: usize) -> (r: &V)
        requires
            i < self.names().len(),
        ensures
            *r == self.values()[i as int],
            self@.contains_key(self.names()[i as int]),
            *r == self@[self.names()[i as int]],
    {
        proof {
            use_type_invariant(self);
            lemma_place_unique(self.names(), i as int);
        }
        &self.items[i].1
    }

    /// Puts `value` at place `i` and hands back what stood there.
    pub fn replace_at(&mut self, i: usize, value: V) -> (r: V)
        requires
            i < old(self).names().len(),
        ensures
            r == old(self).values()[i as int],
            old(self)@.contains_key(old(self).names()[i as int]),
            r == old(self)@[old(self).names()[i as int]],
            final(self).names() == old(self).names(),
            final(self).values() == old(self).values().update(i as int, value),
            final(self)@ == old(self)@.insert(old(self).names()[i as int], value),
    {
        proof {
            use_type_invariant(&*self);
            lemma_place_unique(self.names(), i as int);
        }
        let mut items: Vec<(String, V)> = Vec::new();
        core::mem::swap(&mut self.items, &mut items);
        let mut held = value;
        core::mem::swap(&mut items[i].1, &mut held);
        assert(names_of(items@) =~= old(self).names());
        assert(values_of(items@) =~= old(self).values().update(i as int, value));
        core::mem::swap(&mut self.items, &mut items);
        proof {
            let names = old(self).names();
            assert forall|k: Seq<char>| names.contains(k) implies #[trigger] self@[k] == old(
                self,
            )@.insert(names[i as int], value)[k] by {
                let p = place_of(names, k);
                lemma_place_unique(names, p);
                lemma_place_unique(names, i as int);
            }
            assert(self@ =~= old(self)@.insert(names[i as int], value));
        }
        held
    }

    /// Gives `name` the value `value`, whether or not it had one.
    pub fn insert(&mut self, name: String, value: V)
        ensures
            final(self)@ == old(self)@.insert(name@, value),
    {
        proof {
            use_type_invariant(&*self);
        }
        let (i, found) = self.search(name.as_str());
        if found {
            let _ = self.replace_at(i, value);
        } else {
            let mut items: Vec<(String, V)> = Vec::new();
            core::mem::swap(&mut self.items, &mut items);
            items.insert(i, (name, value));
            proof {
                let before = old(self).names();
                let after = names_of(items@);
                assert(after =~= before.insert(i as int, name@));
                assert(values_of(items@) =~= old(self).values().insert(i as int, value));
                assert forall|a: int, b: int| 0 <= a < b < after.len() implies text_before(
                    after[a],
                    after[b],
                ) by {
                    if a < i && b > i {
                        assert(after[a] == before[a]);
                        assert(after[b] == before[b - 1]);
                    } else if a < i && b < i {
                        assert(after[a] == before[a]);
                        assert(after[b] == before[b]);
                    } else if a > i {
                        assert(after[a] == before[a - 1]);
                        assert(after[b] == before[b - 1]);
                    } else if a == i {
                        assert(after[b] == before[b - 1]);
                    } else {
                        assert(after[a] == before[a]);
                    }
                }
            }
            core::mem::swap(&mut self.items, &mut items);
            proof {
                let before = old(self).names();
                let after = self.names();
                assert forall|k: Seq<char>| after.contains(k) <==> (before.contains(k) || k
                    == name@) by {
                    if before.contains(k) {
                        let p = place_of(before, k);
                        if p < i {
                            assert(after[p] == k);
                        } else {
                            assert(after[p + 1] == k);
                        }
                    }
                    if k == name@ {
                        assert(after[i as int] == k);
                    }
                    if after.contains(k) {
                        let q = place_of(after, k);
                        if q < i {
                            assert(before[q] == k);
                        } else if q > i {
                            assert(before[q - 1] == k);
                        }
                    }
                }
                assert forall|k: Seq<char>| after.contains(k) implies #[trigger] self@[k] == old(
                    self,
                )@.insert(name@, value)[k] by {
                    let q = place_of(after, k);
                    if q < i {
                        lemma_place_unique(before, q);
                    } else if q > i {
                        lemma_place_unique(before, q - 1);
                    }
                }
                assert(self@ =~= old(self)@.insert(name@, value));
            }
        }
    }
}

} // verus!
