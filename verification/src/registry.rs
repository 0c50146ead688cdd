//! The function registry: named callables under a uniform calling
//! convention. Registering a name again replaces the earlier entry.

use vstd::prelude::*;

use crate::attribute::str_eq;
use crate::function::{FunctionDef, FunctionDefModel, ToFunction};

verus! {

/// The entry the latest registration of `name` put into `bs`, if any.
pub open spec fn lookup_spec(
    bs: Seq<(Seq<char>, FunctionDefModel)>,
    name: Seq<char>,
) -> Option<FunctionDefModel>
    decreases bs.len(),
{
    if bs.len() == 0 {
        None
    } else if bs.last().0 == name {
        Some(bs.last().1)
    } else {
        lookup_spec(bs.drop_last(), name)
    }
}

/// Stores the host's named functions.
pub struct FunctionRegistry {
    bindings: Vec<(String, FunctionDef)>,
}

impl View for FunctionRegistry {
    type V = Seq<(Seq<char>, FunctionDefModel)>;

    closed spec fn view(&self) -> Seq<(Seq<char>, FunctionDefModel)> {
        self.bindings@.map_values(|b: (String, FunctionDef)| (b.0@, b.1@))
    }
}

impl FunctionRegistry {
    pub fn new() -> (r: Self)
        ensures
            r@ == Seq::<(Seq<char>, FunctionDefModel)>::empty(),
    {
        let r = Self { bindings: Vec::new() };
        proof {
            assert(r@ =~= Seq::<(Seq<char>, FunctionDefModel)>::empty());
        }
        r
    }

    /// Store `func` under `name`, shadowing any earlier entry of that name.
    pub fn register_function<F: ToFunction>(&mut self, func: F, name: &str)
        ensures
            final(self)@ == old(self)@.push((name@, func.to_function_spec())),
    {
        let entry = (name.to_owned(), func.to_function());
        let ghost before = self.bindings@;
        self.bindings.push(entry);
        proof {
            assert(self@ =~= before.map_values(|b: (String, FunctionDef)| (b.0@, b.1@)).push(
                (name@, func.to_function_spec()),
            ));
        }
    }

    /// Look `name` up: the latest entry registered under it, if any.
    pub fn get(&self, name: &str) -> (r: Option<&FunctionDef>)
        ensures
            match lookup_spec(self@, name@) {
                Some(fm) => r matches Some(f) && f@ == fm,
                None => r is None,
            },
    {
        let n = self.bindings.len();
        let mut i: usize = n;
        proof {
            assert(self@.subrange(0, n as int) =~= self@);
        }
        loop
            invariant
                i <= n,
                n == self.bindings@.len(),
                lookup_spec(self@, name@) == lookup_spec(self@.subrange(0, i as int), name@),
            ensures
                i <= n,
                n == self.bindings@.len(),
                i > 0 ==> self@[i - 1].0 == name@ && lookup_spec(self@, name@) == Some(
                    self@[i - 1].1,
                ),
                i == 0 ==> lookup_spec(self@, name@) is None,
            decreases i,
        {
            proof {
                if i > 0 {
                    assert(self@.subrange(0, i as int).last() == self@[i - 1]);
                    assert(self@.subrange(0, i as int).drop_last() =~= self@.subrange(
                        0,
                        i - 1,
                    ));
                }
            }
            if i == 0 {
                break ;
            }
            let entry = &self.bindings[i - 1];
            if str_eq(entry.0.as_str(), name) {
                break ;
            }
            i = i - 1;
        }
        if i > 0 {
            Some(&self.bindings[i - 1].1)
        } else {
            None
        }
    }
}

} // verus!
