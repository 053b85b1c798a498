//! The interpreter's variable state: the store of environments, the current
//! and the global environment, and the scope distances that resolution
//! recorded. Evaluating expressions and running statements work on runtime
//! values (numbers are floating point, functions are objects) and are done
//! by the program around this library; the reads and writes of variables
//! they make, and the switching of environments, are here.
use std::collections::HashMap;
use vstd::prelude::*;

use crate::environment::{
    Environment, Environments, Frame, spec_ancestor, spec_assign, spec_define, spec_get,
    undefined_msg,
};

verus! {

broadcast use vstd::std_specs::hash::group_hash_axioms;

/// The variable state of a running program.
pub struct Interpreter<V> {
    store: Environments<V>,
    environment: usize,
    global: usize,
    /// The scope distance of each resolved variable use, by its id.
    pub locals: HashMap<usize, usize>,
}

/// The message of a failed lookup.
pub open spec fn no_such_variable() -> Seq<char> {
    "no such variable"@
}

/// A lookup result: the value, or the failure message.
pub open spec fn read_res<V>(r: Result<&V, String>, v: Option<V>) -> bool {
    match v {
        Some(x) => r matches Ok(y) && *y == x,
        None => r matches Err(msg) && msg@ == no_such_variable(),
    }
}

impl<V> Interpreter<V> {
    /// The environments.
    pub closed spec fn frames(&self) -> Seq<Frame<V>> {
        self.store.frames()
    }

    /// The recorded scope distances, by variable id.
    pub closed spec fn distances(&self) -> Map<usize, usize> {
        self.locals@
    }

    /// The index of the current environment.
    pub closed spec fn current(&self) -> int {
        self.environment as int
    }

    /// The index of the global environment.
    pub closed spec fn globals(&self) -> int {
        self.global as int
    }

    /// The store is well formed and both environments are in it.
    pub closed spec fn wf(&self) -> bool {
        &&& self.store.wf()
        &&& self.environment < self.store.frames().len()
        &&& self.global < self.store.frames().len()
    }

    /// Where a variable use with id `id` is read: the environment its
    /// recorded distance out from the current one, or the current one
    /// (searched outwards) where no distance was recorded.
    pub open spec fn read_from(&self, id: usize) -> int {
        match self.distances().get(id) {
            Some(d) => spec_ancestor(self.frames(), self.current(), d as nat),
            None => self.current(),
        }
    }

    /// A fresh state: one global environment, which is also the current
    /// one, and no recorded distances.
    pub fn new() -> (i: Self)
        ensures
            i.wf(),
            i.frames() == seq![Frame::<V> { enclosing: None, vars: seq![] }],
            i.current() == 0,
            i.globals() == 0,
            i.distances() == Map::<usize, usize>::empty(),
    {
        let mut store: Environments<V> = Environments::empty();
        let g = Environment::new(&mut store);
        assert(store.frames() =~= seq![Frame::<V> { enclosing: None, vars: seq![] }]);
        Interpreter { store, environment: g, global: g, locals: HashMap::new() }
    }

    /// Records that the variable use `id` is `depth` environments out.
    pub fn resolve(&mut self, id: usize, depth: usize)
        ensures
            final(self).distances() == old(self).distances().insert(id, depth),
            final(self).frames() == old(self).frames(),
            final(self).current() == old(self).current(),
            final(self).globals() == old(self).globals(),
            final(self).wf() == old(self).wf(),
    {
        self.locals.insert(id, depth);
    }

    /// The value of the variable `name` used with id `id`: read at its
    /// recorded distance, or searched from the current environment outwards.
    pub fn look_up_variable(&self, name: &String, id: usize) -> (r: Result<&V, String>)
        requires
            self.wf(),
        ensures
            read_res(r, spec_get(self.frames(), self.read_from(id), name@)),
    {
        match self.locals.get(&id) {
            Some(d) => Environment::get_At(&self.store, self.environment, *d, name),
            None => Environment::get(&self.store, self.environment, name),
        }
    }

    /// Assigns `value` to the variable `name` used with id `id`: defined at
    /// its recorded distance, or rebound where the search from the current
    /// environment outwards finds it (an error where it finds none).
    pub fn assign_variable(&mut self, name: &String, id: usize, value: V) -> (r: Result<(), String>)
        requires
            old(self).wf(),
        ensures
            final(self).wf(),
            final(self).distances() == old(self).distances(),
            final(self).current() == old(self).current(),
            final(self).globals() == old(self).globals(),
            match old(self).distances().get(id) {
                Some(d) => r is Ok && final(self).frames() == spec_define(
                    old(self).frames(),
                    spec_ancestor(old(self).frames(), old(self).current(), d as nat),
                    name@,
                    value,
                ),
                None => match spec_assign(old(self).frames(), old(self).current(), name@, value) {
                    Some(f2) => r is Ok && final(self).frames() == f2,
                    None => r matches Err(msg) && msg@ == undefined_msg(name@)
                        && final(self).frames() == old(self).frames(),
                },
            },
    {
        proof {
            crate::environment::lemma_assign_then_get(
                self.frames(),
                self.current(),
                name@,
                value,
            );
        }
        match self.locals.get(&id) {
            Some(d) => {
                let d = *d;
                proof {
                    crate::environment::lemma_ancestor_in_store(
                        self.frames(),
                        self.current(),
                        d as nat,
                    );
                }
                Environment::ASSIGN_AT(&mut self.store, self.environment, d, name, value);
                Ok(())
            },
            None => Environment::assign(&mut self.store, self.environment, name, value),
        }
    }

    /// Binds `name` to `value` in the current environment.
    pub fn define(&mut self, name: String, value: V)
        requires
            old(self).wf(),
        ensures
            final(self).wf(),
            final(self).frames() == spec_define(old(self).frames(), old(self).current(), name@, value),
            final(self).distances() == old(self).distances(),
            final(self).current() == old(self).current(),
            final(self).globals() == old(self).globals(),
    {
        Environment::define(&mut self.store, self.environment, name, value);
    }

    /// Binds `name` to `value` in the global environment.
    pub fn define_global(&mut self, name: String, value: V)
        requires
            old(self).wf(),
        ensures
            final(self).wf(),
            final(self).frames() == spec_define(old(self).frames(), old(self).globals(), name@, value),
            final(self).distances() == old(self).distances(),
            final(self).current() == old(self).current(),
            final(self).globals() == old(self).globals(),
    {
        Environment::define(&mut self.store, self.global, name, value);
    }

    /// A fresh environment enclosed in environment `parent` (the current one
    /// is unchanged); returns its index.
    pub fn enclose(&mut self, parent: usize) -> (e: usize)
        requires
            old(self).wf(),
            parent < old(self).frames().len(),
        ensures
            final(self).wf(),
            e == old(self).frames().len(),
            final(self).frames() == old(self).frames().push(
                Frame { enclosing: Some(parent), vars: seq![] },
            ),
            final(self).distances() == old(self).distances(),
            final(self).current() == old(self).current(),
            final(self).globals() == old(self).globals(),
    {
        Environment::enclose(&mut self.store, parent)
    }

    /// The index of the current environment.
    pub fn environment(&self) -> (e: usize)
        ensures
            e == self.current(),
    {
        self.environment
    }

    /// The number of environments.
    pub fn env_count(&self) -> (n: usize)
        ensures
            n == self.frames().len(),
    {
        self.store.len()
    }

    /// Makes environment `e` the current one.
    pub fn set_environment(&mut self, e: usize)
        requires
            old(self).wf(),
            e < old(self).frames().len(),
        ensures
            final(self).wf(),
            final(self).current() == e,
            final(self).frames() == old(self).frames(),
            final(self).distances() == old(self).distances(),
            final(self).globals() == old(self).globals(),
    {
        self.environment = e;
    }
}

/// Law: a value assigned to a resolved variable is what a later read of a
/// use resolved to the same distance gives, from the same environment.
pub proof fn lemma_assign_then_look_up<V>(
    frames: Seq<Frame<V>>,
    current: int,
    distance: nat,
    name: Seq<char>,
    value: V,
)
    requires
        crate::environment::store_wf(frames),
        0 <= current < frames.len(),
    ensures
        ({
            let a = spec_ancestor(frames, current, distance);
            let f2 = spec_define(frames, a, name, value);
            &&& spec_ancestor(f2, current, distance) == a
            &&& spec_get(f2, a, name) == Some(value)
        }),
{
    crate::environment::lemma_ancestor_in_store(frames, current, distance);
    let a = spec_ancestor(frames, current, distance);
    crate::environment::lemma_get_after_define(frames, a, name, value);
    let f2 = spec_define(frames, a, name, value);
    assert forall|i: int| 0 <= i < frames.len() implies (#[trigger] frames[i]).enclosing
        == f2[i].enclosing by {}
    crate::environment::lemma_ancestor_same_links(frames, f2, current, distance);
}

} // verus!
