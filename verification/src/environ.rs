use std::collections::HashMap;
use vstd::prelude::*;

use crate::k::{Value, K};
use crate::sym::Sym;

verus! {

broadcast use vstd::std_specs::hash::group_hash_axioms;

/// The global bindings of names to values. A definition replaces an earlier
/// one of the same name; nothing is ever removed.
pub struct Environment {
    map: HashMap<usize, K>,
}

impl View for Environment {
    type V = Map<Sym, Value>;

    /// The value bound to each name that has one.
    closed spec fn view(&self) -> Map<Sym, Value> {
        Map::new(|s: Sym| self.map@.contains_key(s.0), |s: Sym| self.map@[s.0]@)
    }
}

impl Environment {
    pub fn new() -> (env: Self)
        ensures
            env@ == Map::<Sym, Value>::empty(),
    {
        let env = Environment { map: HashMap::new() };
        assert(env@ =~= Map::<Sym, Value>::empty());
        env
    }

    /// Binds `name` to `value`.
    pub fn define(&mut self, name: Sym, value: &K)
        ensures
            final(self)@ == old(self)@.insert(name, value@),
    {
        self.map.insert(name.0, value.clone());
        assert(self@ =~= old(self)@.insert(name, value@));
    }

    /// The value bound to `name`, if there is one.
    pub fn get(&self, name: Sym) -> (r: Option<K>)
        ensures
            r is Some <==> self@.contains_key(name),
            r matches Some(k) ==> k@ == self@[name],
    {
        match self.map.get(&name.0) {
            Some(k) => Some(k.clone()),
            None => None,
        }
    }
}

/// Binds `name` to `value` in `env`.
pub fn define_variable(env: &mut Environment, name: Sym, value: &K)
    ensures
        final(env)@ == old(env)@.insert(name, value@),
{
    env.define(name, value);
}

/// The value bound to `name` in `env`, if there is one.
pub fn get_variable(env: &Environment, name: Sym) -> (r: Option<K>)
    ensures
        r is Some <==> env@.contains_key(name),
        r matches Some(k) ==> k@ == env@[name],
{
    env.get(name)
}

} // verus!
