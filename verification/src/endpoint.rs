use vstd::prelude::*;

use crate::errors::BindError;

verus! {

/// The table of endpoint names currently bound by live servers: the model
/// of the platform's named-pipe or domain-socket namespace that `listen`
/// claims a name in and `stop` gives it back to. Binding an already-bound
/// name fails fast; releasing a name makes it bindable again.
pub struct EndpointRegistry {
    bound: Vec<String>,
}

impl EndpointRegistry {
    /// The bound names.
    pub closed spec fn names(&self) -> Seq<Seq<char>> {
        self.bound@.map_values(|s: String| s@)
    }

    /// Whether `name` is currently bound.
    pub open spec fn is_bound(&self, name: Seq<char>) -> bool {
        exists|i: int| 0 <= i < self.names().len() && (#[trigger] self.names()[i]) == name
    }

    /// No name is bound twice.
    pub open spec fn wf(&self) -> bool {
        forall|i: int, j: int|
            0 <= i < j < self.names().len()
                ==> (#[trigger] self.names()[i]) != (#[trigger] self.names()[j])
    }

    /// A namespace with nothing bound.
    pub fn new() -> (r: EndpointRegistry)
        ensures
            r.wf(),
            forall|name: Seq<char>| !r.is_bound(name),
    {
        let r = EndpointRegistry { bound: Vec::new() };
        proof {
            assert(r.names().len() == 0);
        }
        r
    }

    /// Whether `name` is currently bound.
    pub fn contains(&self, name: &String) -> (b: bool)
        ensures
            b == self.is_bound(name@),
    {
        let mut i: usize = 0;
        while i < self.bound.len()
            invariant
                0 <= i <= self.bound.len(),
                forall|j: int| 0 <= j < i ==> (#[trigger] self.names()[j]) != name@,
            decreases self.bound.len() - i,
        {
            if self.bound[i] == *name {
                proof {
                    assert(self.names()[i as int] == name@);
                }
                return true;
            }
            i += 1;
        }
        false
    }

    /// Claim `name`. Fails with `BindError` exactly when the name is
    /// already in use by a live server, and then changes nothing.
    pub fn bind(&mut self, name: &String) -> (r: Result<(), BindError>)
        requires
            old(self).wf(),
        ensures
            final(self).wf(),
            match r {
                Result::Err(_) => old(self).is_bound(name@) && *final(self) == *old(self),
                Result::Ok(_) => {
                    &&& !old(self).is_bound(name@)
                    &&& final(self).names() == old(self).names().push(name@)
                },
            },
    {
        if self.contains(name) {
            Err(BindError)
        } else {
            let ghost before = self.names();
            let owned = name.clone();
            self.bound.push(owned);
            proof {
                assert(self.names() =~= before.push(name@));
                assert forall|i: int, j: int| 0 <= i < j < self.names().len() implies
                    (#[trigger] self.names()[i]) != (#[trigger] self.names()[j]) by {
                    if j == self.names().len() - 1 {
                        assert(self.names()[i] == before[i]);
                    }
                }
            }
            Ok(())
        }
    }

    /// Give `name` back. After the call the name is free to bind again;
    /// every other bound name is untouched. Releasing a name that is not
    /// bound changes nothing.
    pub fn release(&mut self, name: &String)
        requires
            old(self).wf(),
        ensures
            final(self).wf(),
            !final(self).is_bound(name@),
            forall|other: Seq<char>|
                other != name@ ==> (final(self).is_bound(other) == old(self).is_bound(other)),
    {
        let mut i: usize = 0;
        while i < self.bound.len()
            invariant
                0 <= i <= self.bound.len(),
                self.wf(),
                *self == *old(self),
                forall|j: int| 0 <= j < i ==> (#[trigger] self.names()[j]) != name@,
            decreases self.bound.len() - i,
        {
            if self.bound[i] == *name {
                let ghost before = self.names();
                let ghost idx = i as int;
                self.bound.remove(i);
                proof {
                    assert(self.names() =~= before.remove(idx));
                    assert forall|a: int, b: int| 0 <= a < b < self.names().len() implies
                        (#[trigger] self.names()[a]) != (#[trigger] self.names()[b]) by {
                        let oa = if a < idx { a } else { a + 1 };
                        let ob = if b < idx { b } else { b + 1 };
                        assert(self.names()[a] == before[oa]);
                        assert(self.names()[b] == before[ob]);
                    }
                    assert forall|j: int| 0 <= j < self.names().len() implies
                        (#[trigger] self.names()[j]) != name@ by {
                        let oj = if j < idx { j } else { j + 1 };
                        assert(self.names()[j] == before[oj]);
                        assert(before[idx] == name@);
                    }
                    assert forall|other: Seq<char>| other != name@ implies
                        (self.is_bound(other) == old(self).is_bound(other)) by {
                        if self.is_bound(other) {
                            let j = choose|j: int|
                                0 <= j < self.names().len() && self.names()[j] == other;
                            let oj = if j < idx { j } else { j + 1 };
                            assert(before[oj] == other);
                        }
                        if old(self).is_bound(other) {
                            let j = choose|j: int| 0 <= j < before.len() && before[j] == other;
                            let nj = if j < idx { j } else { j - 1 };
                            assert(j != idx);
                            assert(self.names()[nj] == before[j]);
                        }
                    }
                }
                return;
            }
            i += 1;
        }
        proof {
            assert forall|j: int| 0 <= j < self.names().len() implies
                (#[trigger] self.names()[j]) != name@ by {}
        }
    }
}

} // verus!
