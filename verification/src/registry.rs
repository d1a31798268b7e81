//! A registry that assigns dense numeric identifiers to named game elements.

use vstd::prelude::*;

verus! {

/// Error returned when registering a name that is already taken.
#[derive(Debug)]
pub enum RegistryError {
    KeyAlreadyExists { key: String },
}

/// A way to sort elements by name: each registered name receives the next
/// free identifier, and identifiers index the stored values densely.
pub struct Registry<T> {
    id_to_name: Vec<String>,
    id_to_value: Vec<T>,
}

impl<T> Registry<T> {
    /// The registered names, in identifier order.
    pub closed spec fn names(self) -> Seq<Seq<char>> {
        self.id_to_name@.map_values(|s: String| s@)
    }

    /// The registered values, in identifier order.
    pub closed spec fn values(self) -> Seq<T> {
        self.id_to_value@
    }

    /// Whether `name` is already registered.
    pub open spec fn contains_name(self, name: Seq<char>) -> bool {
        exists|i: int| 0 <= i < self.names().len() && self.names()[i] == name
    }

    /// Names are distinct and every identifier has a value.
    pub open spec fn wf(self) -> bool {
        &&& self.names().len() == self.values().len()
        &&& self.names().len() <= u32::MAX
        &&& forall|i: int, j: int|
            0 <= i < j < self.names().len() ==> self.names()[i] != self.names()[j]
    }

    /// Register a value under a fresh name. Fails with `KeyAlreadyExists`
    /// exactly when the name is taken; otherwise the value receives the next
    /// free identifier.
    pub fn register(&mut self, name: String, value: T) -> (r: Result<u32, RegistryError>)
        requires
            old(self).wf(),
            old(self).names().len() < u32::MAX,
        ensures
            final(self).wf(),
            old(self).contains_name(name@) ==> {
                &&& r matches Err(RegistryError::KeyAlreadyExists { key }) && key@ == name@
                &&& final(self).names() == old(self).names()
                &&& final(self).values() == old(self).values()
            },
            !old(self).contains_name(name@) ==> {
                &&& r matches Ok(id) && id == old(self).names().len()
                &&& final(self).names() == old(self).names().push(name@)
                &&& final(self).values() == old(self).values().push(value)
            },
    {
        let mut i: usize = 0;
        let n = self.id_to_name.len();
        while i < n
            invariant
                self == old(self),
                self.wf(),
                n == self.names().len(),
                i <= n,
                forall|j: int| 0 <= j < i ==> self.names()[j] != name@,
            decreases n - i,
        {
            proof {
                assert(self.names()[i as int] == self.id_to_name@[i as int]@);
            }
            if self.id_to_name[i].eq(&name) {
                proof {
                    assert(self.contains_name(name@));
                }
                return Err(RegistryError::KeyAlreadyExists { key: name });
            }
            i = i + 1;
        }
        let id = self.id_to_name.len() as u32;
        self.id_to_name.push(name);
        self.id_to_value.push(value);
        proof {
            assert(final(self).names() =~= old(self).names().push(name@));
        }
        Ok(id)
    }

    /// Look up the identifier registered for `name`, if any.
    pub fn get_id_by_name(&self, name: &String) -> (r: Option<u32>)
        requires
            self.wf(),
        ensures
            match r {
                Some(id) => 0 <= id < self.names().len() && self.names()[id as int] == name@,
                None => !self.contains_name(name@),
            },
    {
        let mut i: usize = 0;
        let n = self.id_to_name.len();
        while i < n
            invariant
                self.wf(),
                n == self.names().len(),
                i <= n,
                forall|j: int| 0 <= j < i ==> self.names()[j] != name@,
            decreases n - i,
        {
            proof {
                assert(self.names()[i as int] == self.id_to_name@[i as int]@);
            }
            if self.id_to_name[i].eq(name) {
                return Some(i as u32);
            }
            i = i + 1;
        }
        None
    }
}

impl<T> Default for Registry<T> {
    /// An empty registry.
    fn default() -> (r: Self)
        ensures
            r.wf(),
            r.names().len() == 0,
            r.values().len() == 0,
    {
        Self { id_to_name: Vec::new(), id_to_value: Vec::new() }
    }
}

} // verus!
