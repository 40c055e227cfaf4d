//! The method dispatch table: the current implementation of each route,
//! keyed by (HTTP method, path).
use vstd::prelude::*;
use crate::compiler::ast::push_dv;
use crate::text::{str_eq, str_uppercase, string_of, uppercase_str};

verus! {

#[derive(Debug, Clone, Copy, PartialEq, Eq, Structural)]
pub enum InstallOutcome {
    /// First version of this route.
    Registered,
    /// An existing route was replaced by a new implementation.
    Swapped,
}

/// The table's key for a method and a path: the method upper-cased.
pub open spec fn route_key(method: Seq<char>, path: Seq<char>) -> (Seq<char>, Seq<char>) {
    (str_uppercase(method), path)
}

/// Index of `key` among `keys`.
pub open spec fn slot_of(keys: Seq<(Seq<char>, Seq<char>)>, key: (Seq<char>, Seq<char>), i: int) -> Option<int>
    decreases keys.len() - i,
{
    if i < 0 || i >= keys.len() {
        None
    } else if keys[i] == key {
        Some(i)
    } else {
        slot_of(keys, key, i + 1)
    }
}

proof fn lemma_slot_of(keys: Seq<(Seq<char>, Seq<char>)>, key: (Seq<char>, Seq<char>), i: int)
    requires
        0 <= i,
    ensures
        slot_of(keys, key, i) matches Some(j) ==> i <= j < keys.len() && keys[j] == key,
        slot_of(keys, key, i) is None ==> forall|j: int| i <= j < keys.len() ==> keys[j] != key,
    decreases keys.len() - i,
{
    if i < keys.len() && keys[i] != key {
        lemma_slot_of(keys, key, i + 1);
    }
}

/// Route slots keyed by (upper-cased method, path), one slot per key.
///
/// `V` is what a slot holds: in the server, a cell whose route can be
/// swapped atomically while requests already in flight keep the old one.
pub struct RouteTable<V> {
    methods: Vec<String>,
    paths: Vec<String>,
    slots: Vec<V>,
}

impl<V> RouteTable<V> {
    #[verifier::type_invariant]
    spec fn wf(&self) -> bool {
        &&& self.methods@.len() == self.slots@.len()
        &&& self.paths@.len() == self.slots@.len()
        &&& forall|i: int, j: int|
            0 <= i < j < self.slots@.len() ==> #[trigger] self.key_at(i) != #[trigger] self.key_at(j)
    }

    spec fn key_at(&self, i: int) -> (Seq<char>, Seq<char>) {
        (self.methods@[i]@, self.paths@[i]@)
    }

    /// The keys, in the order the routes were first registered.
    pub closed spec fn keys(&self) -> Seq<(Seq<char>, Seq<char>)> {
        Seq::new(self.slots@.len(), |i: int| self.key_at(i))
    }

    /// The slots, in the same order.
    pub closed spec fn slots_spec(&self) -> Seq<V> {
        self.slots@
    }

    pub fn new() -> (r: RouteTable<V>)
        ensures
            r.keys().len() == 0,
            r.slots_spec().len() == 0,
    {
        RouteTable { methods: Vec::new(), paths: Vec::new(), slots: Vec::new() }
    }

    fn find(&self, method: &str, path: &str) -> (r: Option<usize>)
        ensures
            self.keys().len() == self.slots_spec().len(),
            match r {
                Some(i) => slot_of(self.keys(), (method@, path@), 0) == Some(i as int),
                None => slot_of(self.keys(), (method@, path@), 0) is None,
            },
    {
        proof {
            use_type_invariant(self);
        }
        let ghost ks = self.keys();
        let mut i: usize = 0;
        while i < self.slots.len()
            invariant
                i <= self.slots@.len(),
                ks == self.keys(),
                ks.len() == self.slots@.len(),
                self.methods@.len() == self.slots@.len(),
                self.paths@.len() == self.slots@.len(),
                slot_of(ks, (method@, path@), 0) == slot_of(ks, (method@, path@), i as int),
            decreases self.slots.len() - i,
        {
            assert(ks[i as int] == self.key_at(i as int));
            if str_eq(self.methods[i].as_str(), method) && str_eq(self.paths[i].as_str(), path) {
                return Some(i);
            }
            i = i + 1;
        }
        None
    }

    /// Installs `slot` as the implementation of (method, path): it replaces
    /// the route's slot when the route is known, or registers the route.
    pub fn install(&mut self, method: &str, path: &str, slot: V) -> (r: InstallOutcome)
        ensures
            match slot_of(old(self).keys(), route_key(method@, path@), 0) {
                Some(i) => r == InstallOutcome::Swapped && final(self).keys() == old(self).keys()
                    && final(self).slots_spec() == old(self).slots_spec().update(i, slot),
                None => r == InstallOutcome::Registered && final(self).keys() == old(self).keys().push(
                    route_key(method@, path@),
                ) && final(self).slots_spec() == old(self).slots_spec().push(slot),
            },
    {
        proof {
            use_type_invariant(&*self);
        }
        let upper = uppercase_str(method);
        let ghost ks = self.keys();
        let ghost key = route_key(method@, path@);
        let found = self.find(upper.as_str(), path);
        proof {
            lemma_slot_of(ks, key, 0);
        }
        let mut whole = RouteTable::new();
        std::mem::swap(&mut whole, self);
        proof {
            use_type_invariant(&whole);
        }
        let RouteTable { mut methods, mut paths, mut slots } = whole;
        match found {
            Some(i) => {
                let ghost m0 = methods@;
                let ghost p0 = paths@;
                assert forall|a: int, b: int| 0 <= a < b < slots@.len() implies (methods@[a]@, paths@[a]@) != (methods@[b]@, paths@[b]@) by {
                    assert(ks[a] == (m0[a]@, p0[a]@));
                    assert(ks[b] == (m0[b]@, p0[b]@));
                }
                slots.set(i, slot);
                *self = RouteTable { methods, paths, slots };
                assert(self.keys() =~= ks);
                InstallOutcome::Swapped
            },
            None => {
                let ghost m0 = methods@;
                let ghost p0 = paths@;
                assert forall|a: int, b: int| 0 <= a < b < slots@.len() implies ks[a] != ks[b] by {
                }
                methods.push(upper);
                paths.push(string_of(path));
                slots.push(slot);
                assert forall|i: int, j: int| 0 <= i < j < slots@.len() implies (methods@[i]@, paths@[i]@) != (methods@[j]@, paths@[j]@) by {
                    if j < ks.len() {
                        assert(ks[i] == (m0[i]@, p0[i]@));
                        assert(ks[j] == (m0[j]@, p0[j]@));
                    } else {
                        assert(ks[i] == (m0[i]@, p0[i]@));
                    }
                }
                *self = RouteTable { methods, paths, slots };
                assert(self.keys() =~= ks.push(key));
                InstallOutcome::Registered
            },
        }
    }

    /// The slot serving a request: the route of its method, else an `ANY`
    /// route (from `@RequestMapping` without a verb) of its path.
    pub fn resolve(&self, method: &str, path: &str) -> (r: Option<&V>)
        ensures
            match slot_of(self.keys(), route_key(method@, path@), 0) {
                Some(i) => r == Some(&self.slots_spec()[i]),
                None => match slot_of(self.keys(), ("ANY"@, path@), 0) {
                    Some(i) => r == Some(&self.slots_spec()[i]),
                    None => r is None,
                },
            },
    {
        proof {
            use_type_invariant(self);
            lemma_slot_of(self.keys(), route_key(method@, path@), 0);
            lemma_slot_of(self.keys(), ("ANY"@, path@), 0);
        }
        let upper = uppercase_str(method);
        match self.find(upper.as_str(), path) {
            Some(i) => Some(&self.slots[i]),
            None => match self.find("ANY", path) {
                Some(i) => Some(&self.slots[i]),
                None => None,
            },
        }
    }

    /// Number of registered routes.
    pub fn route_count(&self) -> (r: usize)
        ensures
            r == self.keys().len(),
    {
        proof {
            use_type_invariant(self);
        }
        self.slots.len()
    }

    /// The slot at index `i`, in registration order.
    pub fn slot(&self, i: usize) -> (r: &V)
        requires
            i < self.slots_spec().len(),
        ensures
            *r == self.slots_spec()[i as int],
    {
        &self.slots[i]
    }
}

/// A route installed under a key is what the key then resolves to: the
/// slot found for (method, path) after `install` is the slot installed.
pub proof fn lemma_install_then_resolve<V>(
    keys: Seq<(Seq<char>, Seq<char>)>,
    slots: Seq<V>,
    key: (Seq<char>, Seq<char>),
    v: V,
)
    requires
        keys.len() == slots.len(),
    ensures
        match slot_of(keys, key, 0) {
            Some(i) => slot_of(keys, key, 0) == Some(i) && slots.update(i, v)[i] == v,
            None => slot_of(keys.push(key), key, 0) == Some(keys.len() as int)
                && slots.push(v)[keys.len() as int] == v,
        },
{
    lemma_slot_of(keys, key, 0);
    if slot_of(keys, key, 0) is None {
        let kp = keys.push(key);
        lemma_slot_of(kp, key, 0);
        match slot_of(kp, key, 0) {
            Some(j) => {
                if j < keys.len() {
                    assert(kp[j] == keys[j]);
                }
            },
            None => {
                assert(kp[keys.len() as int] == key);
            },
        }
    }
}

} // verus!
