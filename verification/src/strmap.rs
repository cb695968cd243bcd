//! A map keyed by strings that also remembers its keys in the order they were first added.
use vstd::prelude::*;
use vstd::hash_map::StringHashMap;
use crate::text::views;

verus! {

/// No text occurs twice.
pub open spec fn distinct(s: Seq<Seq<char>>) -> bool {
    forall|i: int, j: int| 0 <= i < s.len() && 0 <= j < s.len() && i != j ==> s[i] != s[j]
}

/// A map from strings to values, modelled by a `Map<Seq<char>, V>`, with the list of its keys.
#[verifier::reject_recursive_types(V)]
pub struct StrMap<V> {
    map: StringHashMap<V>,
    keys: Vec<String>,
}

impl<V> View for StrMap<V> {
    type V = Map<Seq<char>, V>;

    closed spec fn view(&self) -> Map<Seq<char>, V> {
        self.map@
    }
}

impl<V> StrMap<V> {
    #[verifier::type_invariant]
    spec fn keys_match(self) -> bool {
        &&& distinct(views(self.keys@))
        &&& forall|k: Seq<char>| #[trigger]
            self.map@.contains_key(k) <==> views(self.keys@).contains(k)
    }

    /// The keys, in the order in which they were first inserted.
    pub closed spec fn key_list(&self) -> Seq<Seq<char>> {
        views(self.keys@)
    }

    /// An empty map.
    pub fn new() -> (r: Self)
        ensures
            r@ == Map::<Seq<char>, V>::empty(),
            r.key_list() == Seq::<Seq<char>>::empty(),
    {
        let r = StrMap { map: StringHashMap::new(), keys: Vec::new() };
        assert(views(r.keys@) =~= Seq::<Seq<char>>::empty());
        r
    }

    /// Inserts `v` under `k`, replacing an earlier value.
    pub fn insert(&mut self, k: String, v: V)
        ensures
            final(self)@ == old(self)@.insert(k@, v),
            old(self)@.contains_key(k@) ==> final(self).key_list() == old(self).key_list(),
            !old(self)@.contains_key(k@) ==> final(self).key_list() == old(self).key_list().push(
                k@,
            ),
    {
        proof {
            use_type_invariant(&*self);
        }
        let mut tmp = StrMap::new();
        std::mem::swap(self, &mut tmp);
        proof {
            use_type_invariant(&tmp);
        }
        let StrMap { mut map, mut keys } = tmp;
        let ghost old_keys = views(keys@);
        if !map.contains_key(k.as_str()) {
            keys.push(k.clone());
            proof {
                assert(views(keys@) =~= old_keys.push(k@));
            }
        }
        map.insert(k, v);
        proof {
            assert forall|key: Seq<char>| #[trigger]
                map@.contains_key(key) <==> views(keys@).contains(key) by {
                if views(keys@).contains(key) && key != k@ {
                    let i = choose|i: int| 0 <= i < views(keys@).len() && views(keys@)[i] == key;
                    assert(old_keys[i] == key);
                }
                if old_keys.contains(key) {
                    let i = choose|i: int| 0 <= i < old_keys.len() && old_keys[i] == key;
                    assert(views(keys@)[i] == key);
                }
                if key == k@ && !old_keys.contains(key) {
                    assert(views(keys@)[views(keys@).len() - 1] == key);
                }
            }
        }
        *self = StrMap { map, keys };
    }

    /// The value under `k`, if there is one.
    pub fn get(&self, k: &str) -> (r: Option<&V>)
        ensures
            match r {
                Some(v) => self@.contains_key(k@) && *v == self@[k@],
                None => !self@.contains_key(k@),
            },
    {
        self.map.get(k)
    }

    /// Whether some value is stored under `k`.
    pub fn contains_key(&self, k: &str) -> (r: bool)
        ensures
            r == self@.contains_key(k@),
    {
        self.map.contains_key(k)
    }

    /// The keys, in the order in which they were first inserted; each key occurs once, and they
    /// are exactly the keys of the map.
    pub fn keys(&self) -> (r: &Vec<String>)
        ensures
            views(r@) == self.key_list(),
            distinct(self.key_list()),
            forall|k: Seq<char>| #[trigger] self@.contains_key(k) <==> self.key_list().contains(k),
    {
        proof {
            use_type_invariant(self);
        }
        &self.keys
    }

    /// The number of keys.
    pub fn len(&self) -> (r: usize)
        ensures
            r == self.key_list().len(),
    {
        self.keys.len()
    }

    /// Whether the map has no keys.
    pub fn is_empty(&self) -> (r: bool)
        ensures
            r == (self.key_list().len() == 0),
            r == (self@.dom() == Set::<Seq<char>>::empty()),
    {
        proof {
            use_type_invariant(self);
            if self.keys.len() > 0 {
                assert(self@.contains_key(views(self.keys@)[0]));
            } else {
                assert(self@.dom() =~= Set::<Seq<char>>::empty());
            }
        }
        self.keys.len() == 0
    }
}

/// The texts stored in a map of strings.
pub open spec fn text_values(m: Map<Seq<char>, String>) -> Map<Seq<char>, Seq<char>> {
    m.map_values(|v: String| v@)
}

} // verus!
