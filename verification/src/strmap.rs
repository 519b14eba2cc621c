use vstd::hash_map::StringHashMap;
use vstd::prelude::*;

verus! {

/// A map keyed by strings that also remembers its keys in insertion order,
/// so that they can be walked.
#[verifier::reject_recursive_types(V)]
pub struct StrMap<V> {
    entries: StringHashMap<V>,
    keys: Vec<String>,
}

impl<V> View for StrMap<V> {
    type V = Map<Seq<char>, V>;

    closed spec fn view(&self) -> Map<Seq<char>, V> {
        self.entries@
    }
}

impl<V> StrMap<V> {
    #[verifier::type_invariant]
    closed spec fn keys_match(self) -> bool {
        &&& forall|i: int, j: int|
            0 <= i < j < self.keys@.len() ==> #[trigger] self.keys@[i]@ != #[trigger] self.keys@[j]@
        &&& forall|i: int| 0 <= i < self.keys@.len() ==> self.entries@.contains_key(#[trigger] self.keys@[i]@)
        &&& forall|k: Seq<char>|
            #[trigger] self.entries@.contains_key(k) ==> exists|i: int|
                0 <= i < self.keys@.len() && #[trigger] self.keys@[i]@ == k
    }

    /// The keys of the map, each once, in the order in which they were first inserted.
    pub closed spec fn key_order(self) -> Seq<Seq<char>> {
        self.keys@.map_values(|s: String| s@)
    }

    pub fn new() -> (m: Self)
        ensures
            m@ == Map::<Seq<char>, V>::empty(),
            m.key_order() == Seq::<Seq<char>>::empty(),
    {
        let m = StrMap { entries: StringHashMap::new(), keys: Vec::new() };
        proof {
            assert(m.key_order() =~= Seq::<Seq<char>>::empty());
        }
        m
    }

    pub fn insert(&mut self, k: String, v: V)
        ensures
            final(self)@ == old(self)@.insert(k@, v),
            final(self).key_order() == if old(self)@.contains_key(k@) {
                old(self).key_order()
            } else {
                old(self).key_order().push(k@)
            },
    {
        proof {
            use_type_invariant(&*self);
        }
        let fresh = !self.entries.contains_key(k.as_str());
        let mut old_self = StrMap::new();
        std::mem::swap(self, &mut old_self);
        proof {
            use_type_invariant(&old_self);
        }
        let StrMap { mut entries, mut keys } = old_self;
        let ghost old_keys = keys@;
        let ghost old_entries = entries@;
        if fresh {
            keys.push(k.clone());
        }
        entries.insert(k, v);
        proof {
            if fresh {
                assert forall|i: int, j: int|
                    0 <= i < j < keys@.len() implies #[trigger] keys@[i]@ != #[trigger] keys@[j]@ by {
                    if j < old_keys.len() {
                        assert(keys@[i] == old_keys[i] && keys@[j] == old_keys[j]);
                    } else {
                        assert(keys@[i] == old_keys[i]);
                        assert(old_entries.contains_key(old_keys[i]@));
                    }
                }
                assert forall|i: int| 0 <= i < keys@.len() implies entries@.contains_key(
                    #[trigger] keys@[i]@,
                ) by {
                    if i < old_keys.len() {
                        assert(keys@[i] == old_keys[i]);
                    }
                }
                assert forall|kk: Seq<char>| #[trigger] entries@.contains_key(kk) implies exists|i: int|
                    0 <= i < keys@.len() && #[trigger] keys@[i]@ == kk by {
                    if kk == k@ {
                        assert(keys@[keys@.len() - 1]@ == kk);
                    } else {
                        let i = choose|i: int| 0 <= i < old_keys.len() && #[trigger] old_keys[i]@ == kk;
                        assert(keys@[i]@ == kk);
                    }
                }
            } else {
                assert forall|kk: Seq<char>| #[trigger] entries@.contains_key(kk) implies exists|i: int|
                    0 <= i < keys@.len() && #[trigger] keys@[i]@ == kk by {
                    let i = choose|i: int| 0 <= i < old_keys.len() && #[trigger] old_keys[i]@ == kk;
                    assert(keys@[i]@ == kk);
                }
            }
        }
        let ghost rebuilt = StrMap { entries, keys };
        assert forall|kk: Seq<char>| #[trigger] rebuilt.entries@.contains_key(kk) implies exists|i: int|
            0 <= i < rebuilt.keys@.len() && #[trigger] rebuilt.keys@[i]@ == kk by {
            let i = choose|i: int| 0 <= i < keys@.len() && #[trigger] keys@[i]@ == kk;
            assert(rebuilt.keys@[i]@ == kk);
        }
        let updated = StrMap { entries, keys };
        *self = updated;
        proof {
            assert(self.key_order() =~= if old(self)@.contains_key(k@) {
                old(self).key_order()
            } else {
                old(self).key_order().push(k@)
            });
        }
    }

    pub fn get(&self, k: &str) -> (r: Option<&V>)
        ensures
            match r {
                Some(v) => self@.contains_key(k@) && *v == self@[k@],
                None => !self@.contains_key(k@),
            },
    {
        self.entries.get(k)
    }

    pub fn contains_key(&self, k: &str) -> (r: bool)
        ensures
            r == self@.contains_key(k@),
    {
        self.entries.contains_key(k)
    }

    /// The keys, each once, in the order in which they were first inserted.
    pub fn keys(&self) -> (r: &Vec<String>)
        ensures
            r@.map_values(|s: String| s@) == self.key_order(),
            forall|i: int, j: int|
                0 <= i < j < r@.len() ==> #[trigger] r@[i]@ != #[trigger] r@[j]@,
            forall|i: int| 0 <= i < r@.len() ==> self@.contains_key(#[trigger] r@[i]@),
            forall|k: Seq<char>|
                #[trigger] self@.contains_key(k) ==> exists|i: int| 0 <= i < r@.len() && #[trigger] r@[i]@ == k,
    {
        proof {
            use_type_invariant(self);
        }
        &self.keys
    }
}

} // verus!
