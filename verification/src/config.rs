//! Configuration records that drive the engine's registrations at startup.

use vstd::prelude::*;

verus! {

/// One registration record: an action name and the key names it is bound to.
pub struct Action {
    pub name: String,
    pub keys: Vec<String>,
}

impl Action {
    /// Copies a name and a borrowed list of key names into an owned record.
    pub fn new(name: &String, keys: &[&String]) -> (r: Self)
        ensures
            r.name@ == name@,
            r.keys.deep_view() == keys.deep_view(),
    {
        let mut owned: Vec<String> = Vec::new();
        let mut i: usize = 0;
        while i < keys.len()
            invariant
                i <= keys@.len(),
                owned@.len() == i,
                forall|j: int| 0 <= j < i ==> owned.deep_view()[j] == keys.deep_view()[j],
            decreases keys@.len() - i,
        {
            let k: &&String = vstd::slice::slice_index_get(keys, i);
            let copy: String = (*k).clone();
            proof {
                assert(copy@ == keys.deep_view()[i as int]);
            }
            owned.push(copy);
            i = i + 1;
        }
        proof {
            assert(owned.deep_view() =~= keys.deep_view());
        }
        Action { name: name.clone(), keys: owned }
    }
}

impl Default for Action {
    fn default() -> (r: Self)
        ensures
            r.name@.len() == 0,
            r.keys@.len() == 0,
    {
        Action { name: String::new(), keys: Vec::new() }
    }
}

/// The persisted settings: whether to run at startup, and the registrations.
pub struct Config {
    pub run_at_startup: bool,
    pub actions: Vec<Action>,
}

impl Config {
    /// A configuration with no registrations.
    pub fn new() -> (r: Self)
        ensures
            !r.run_at_startup,
            r.actions@.len() == 0,
    {
        Config::default()
    }
}

impl Default for Config {
    fn default() -> (r: Self)
        ensures
            !r.run_at_startup,
            r.actions@.len() == 0,
    {
        Config { run_at_startup: false, actions: Vec::new() }
    }
}

} // verus!
