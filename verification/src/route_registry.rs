//! A registry of route types: each type name maps to a factory that builds a route of
//! that type from its data form.
use vstd::prelude::*;
use crate::route_entry::SerializableRoute;
use crate::text::{str_eq, owned};

verus! {

/// Errors of the route-type registry.
#[derive(Debug)]
pub enum RouteRegistryError {
    /// The type name is already registered.
    AlreadyRegistered(String),
    /// The type name is not registered.
    NotFound(String),
    /// A route's data could not be read.
    DeserializationError(String),
}

impl RouteRegistryError {
    /// The error's message.
    pub fn to_message(&self) -> (r: String)
        ensures
            r@ == match self {
                RouteRegistryError::AlreadyRegistered(t) => "Route type '"@ + t@ + "' is already registered"@,
                RouteRegistryError::NotFound(t) => "Route type '"@ + t@ + "' not found in registry"@,
                RouteRegistryError::DeserializationError(m) => "Failed to deserialize route: "@ + m@,
            },
    {
        match self {
            RouteRegistryError::AlreadyRegistered(t) => {
                String::from_str("Route type '").concat(t.as_str()).concat("' is already registered")
            },
            RouteRegistryError::NotFound(t) => {
                String::from_str("Route type '").concat(t.as_str()).concat("' not found in registry")
            },
            RouteRegistryError::DeserializationError(m) => {
                String::from_str("Failed to deserialize route: ").concat(m.as_str())
            },
        }
    }
}

/// The name under which the built-in simple route type is registered.
pub open spec fn simple_route_type() -> Seq<char> {
    "SimpleRoute"@
}

/// Registered route types and their factories, in registration order; each name once.
pub struct RouteRegistry<F> {
    entries: Vec<(String, F)>,
}

/// The position of the entry named `name`, if any.
pub open spec fn entry_index<F>(entries: Seq<(Seq<char>, F)>, name: Seq<char>) -> Option<int> {
    if exists|i: int| 0 <= i < entries.len() && entries[i].0 == name {
        Some(choose|i: int| 0 <= i < entries.len() && entries[i].0 == name)
    } else {
        None
    }
}

/// No two entries share a name.
pub open spec fn names_distinct<F>(entries: Seq<(Seq<char>, F)>) -> bool {
    forall|i: int, j: int| 0 <= i < entries.len() && 0 <= j < entries.len() && i != j
        ==> entries[i].0 != entries[j].0
}

impl<F> View for RouteRegistry<F> {
    type V = Seq<(Seq<char>, F)>;

    closed spec fn view(&self) -> Seq<(Seq<char>, F)> {
        self.entries@.map_values(|e: (String, F)| (e.0@, e.1))
    }
}

impl<F> RouteRegistry<F> {
    #[verifier::type_invariant]
    spec fn inv(self) -> bool {
        names_distinct(self@)
    }

    /// Whether `name` is registered.
    pub open spec fn has(&self, name: Seq<char>) -> bool {
        entry_index(self@, name) is Some
    }

    /// The factory registered under `name` (meaningful when `has(name)`).
    pub open spec fn factory_of(&self, name: Seq<char>) -> F {
        self@[entry_index(self@, name)->0].1
    }

    /// The position of `name` among the entries.
    fn find_index(&self, name: &str) -> (r: Option<usize>)
        ensures
            match r {
                Some(i) => i < self@.len() && self@[i as int].0 == name@,
                None => !self.has(name@),
            },
    {
        let mut i: usize = 0;
        while i < self.entries.len()
            invariant
                i <= self.entries@.len(),
                forall|j: int| 0 <= j < i ==> self@[j].0 != name@,
            decreases self.entries@.len() - i,
        {
            if str_eq(self.entries[i].0.as_str(), name) {
                return Some(i);
            }
            i = i + 1;
        }
        None
    }

    /// A registry with no types.
    pub fn new() -> (r: Self)
        ensures
            r@ == Seq::<(Seq<char>, F)>::empty(),
    {
        let r = RouteRegistry { entries: Vec::new() };
        assert(r@ =~= Seq::<(Seq<char>, F)>::empty());
        r
    }

    /// A registry as it starts out: the simple route type and its factory.
    pub fn with_simple_route(factory: F) -> (r: Self)
        ensures
            r@ == seq![(simple_route_type(), factory)],
    {
        let mut entries: Vec<(String, F)> = Vec::new();
        entries.push((String::from_str("SimpleRoute"), factory));
        let r = RouteRegistry { entries };
        proof {
            reveal_strlit("SimpleRoute");
            assert(r@ =~= seq![(simple_route_type(), factory)]);
        }
        r
    }

    /// Registers `factory` under `route_type`, unless that name is taken.
    pub fn register(&mut self, route_type: &str, factory: F) -> (r: Result<(), RouteRegistryError>)
        ensures
            old(self).has(route_type@) ==> (r matches Err(RouteRegistryError::AlreadyRegistered(t)) && t@ == route_type@)
                && final(self)@ == old(self)@,
            !old(self).has(route_type@) ==> r is Ok && final(self)@ == old(self)@.push((route_type@, factory)),
    {
        proof { use_type_invariant(&*self); }
        if let Some(i) = self.find_index(route_type) {
            return Err(RouteRegistryError::AlreadyRegistered(owned(route_type)));
        }
        let ghost before = self@;
        let mut entries: Vec<(String, F)> = Vec::new();
        std::mem::swap(&mut entries, &mut self.entries);
        entries.push((owned(route_type), factory));
        proof {
            let after = entries@.map_values(|e: (String, F)| (e.0@, e.1));
            assert(after =~= before.push((route_type@, factory)));
            assert forall|a: int, b: int| 0 <= a < after.len() && 0 <= b < after.len() && a != b
                implies after[a].0 != after[b].0 by {
                if a < before.len() && b < before.len() {
                } else if a < before.len() {
                    assert(!(0 <= a < before.len() && before[a].0 == route_type@));
                } else {
                    assert(!(0 <= b < before.len() && before[b].0 == route_type@));
                }
            }
        }
        self.entries = entries;
        Ok(())
    }

    /// The factory registered under `route_type`.
    pub fn get_factory(&self, route_type: &str) -> (r: Option<F>)
        where F: Copy,
        ensures
            self.has(route_type@) ==> r == Some(self.factory_of(route_type@)),
            !self.has(route_type@) ==> r is None,
    {
        proof { use_type_invariant(self); }
        match self.find_index(route_type) {
            Some(i) => {
                proof {
                    let k = entry_index(self@, route_type@)->0;
                    assert(self@[k].0 == route_type@);
                }
                Some(self.entries[i].1)
            },
            None => None,
        }
    }

    /// Whether `route_type` is registered.
    pub fn is_registered(&self, route_type: &str) -> (r: bool)
        ensures
            r == self.has(route_type@),
    {
        self.find_index(route_type).is_some()
    }

    /// Builds a route from its data form with the factory of its type.
    pub fn create_route<T>(&self, data: SerializableRoute) -> (r: Result<T, RouteRegistryError>)
        where F: Copy + Fn(SerializableRoute) -> T,
        requires
            forall|i: int, d: SerializableRoute| 0 <= i < self@.len() ==> #[trigger] call_requires(self@[i].1, (d,)),
        ensures
            self.has(data.route_type@) ==> (r matches Ok(x) && call_ensures(self.factory_of(data.route_type@), (data,), x)),
            !self.has(data.route_type@) ==> (r matches Err(RouteRegistryError::NotFound(t)) && t@ == data.route_type@),
    {
        match self.get_factory(data.route_type.as_str()) {
            Some(factory) => {
                proof {
                    let k = entry_index(self@, data.route_type@)->0;
                    assert(call_requires(self@[k].1, (data,)));
                }
                Ok(factory(data))
            },
            None => Err(RouteRegistryError::NotFound(data.route_type.clone())),
        }
    }

    /// The registered type names, in registration order.
    pub fn list_types(&self) -> (r: Vec<String>)
        ensures
            r@.len() == self@.len(),
            forall|i: int| 0 <= i < r@.len() ==> #[trigger] r@[i]@ == self@[i].0,
    {
        let mut r: Vec<String> = Vec::new();
        let mut i: usize = 0;
        while i < self.entries.len()
            invariant
                i <= self.entries@.len(),
                r@.len() == i,
                forall|j: int| 0 <= j < i ==> #[trigger] r@[j]@ == self@[j].0,
            decreases self.entries@.len() - i,
        {
            r.push(self.entries[i].0.clone());
            i = i + 1;
        }
        r
    }

    /// Removes `route_type` and its factory; returns whether it was registered.
    pub fn unregister(&mut self, route_type: &str) -> (r: bool)
        ensures
            r == old(self).has(route_type@),
            !final(self).has(route_type@),
            r ==> final(self)@ == old(self)@.remove(entry_index(old(self)@, route_type@)->0),
            !r ==> final(self)@ == old(self)@,
    {
        proof { use_type_invariant(&*self); }
        match self.find_index(route_type) {
            Some(i) => {
                let ghost before = self@;
                proof {
                    let k = entry_index(before, route_type@)->0;
                    assert(before[k].0 == route_type@);
                    assert(k == i);
                }
                let mut entries: Vec<(String, F)> = Vec::new();
                std::mem::swap(&mut entries, &mut self.entries);
                let _ = entries.remove(i);
                proof {
                    let after = entries@.map_values(|e: (String, F)| (e.0@, e.1));
                    assert(after =~= before.remove(i as int));
                    assert forall|j: int| 0 <= j < after.len() implies after[j].0 != route_type@ by {
                        if j < i { assert(after[j] == before[j]); } else { assert(after[j] == before[j + 1]); }
                    }
                    assert forall|a: int, b: int| 0 <= a < after.len() && 0 <= b < after.len() && a != b
                        implies after[a].0 != after[b].0 by {
                        let a2 = if a < i { a } else { a + 1 };
                        let b2 = if b < i { b } else { b + 1 };
                        assert(after[a] == before[a2]);
                        assert(after[b] == before[b2]);
                    }
                }
                self.entries = entries;
                true
            },
            None => false,
        }
    }

    /// Removes every type, the simple route type included.
    pub fn clear(&mut self)
        ensures
            final(self)@ == Seq::<(Seq<char>, F)>::empty(),
    {
        self.entries = Vec::new();
        assert(self@ =~= Seq::<(Seq<char>, F)>::empty());
    }
}

} // verus!