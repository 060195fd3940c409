//! A snapshot of the process environment, taken by the caller, in which
//! configuration secrets are looked up.
use vstd::prelude::*;

verus! {

/// Environment variables as `(name, value)` pairs, in the order given.
pub struct Environment {
    vars: Vec<(String, String)>,
}

/// The first value bound to `name` in `vars`.
pub open spec fn env_lookup(vars: Seq<(Seq<char>, Seq<char>)>, name: Seq<char>) -> Option<
    Seq<char>,
>
    decreases vars.len(),
{
    if vars.len() == 0 {
        None
    } else if vars[0].0 == name {
        Some(vars[0].1)
    } else {
        env_lookup(vars.skip(1), name)
    }
}

impl View for Environment {
    type V = Seq<(Seq<char>, Seq<char>)>;

    closed spec fn view(&self) -> Seq<(Seq<char>, Seq<char>)> {
        self.vars@.map_values(|p: (String, String)| (p.0@, p.1@))
    }
}

impl Environment {
    /// An environment holding exactly `vars`.
    pub fn new(vars: Vec<(String, String)>) -> (e: Environment)
        ensures
            e@ == vars@.map_values(|p: (String, String)| (p.0@, p.1@)),
    {
        Environment { vars }
    }

    /// The value of the variable `name`, if it is set.
    pub fn lookup(&self, name: &str) -> (r: Option<String>)
        ensures
            match r {
                Some(v) => env_lookup(self@, name@) == Some(v@),
                None => env_lookup(self@, name@) is None,
            },
    {
        let key = name.to_owned();
        let mut i: usize = 0;
        assert(self@.skip(0) =~= self@);
        while i < self.vars.len()
            invariant
                i <= self.vars@.len(),
                self@.len() == self.vars@.len(),
                key@ == name@,
                env_lookup(self@, name@) == env_lookup(self@.skip(i as int), name@),
            decreases self.vars@.len() - i,
        {
            assert(self@.skip(i as int).skip(1) =~= self@.skip(i + 1));
            if self.vars[i].0 == key {
                return Some(self.vars[i].1.clone());
            }
            i = i + 1;
        }
        None
    }
}

} // verus!
