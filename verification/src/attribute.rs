//! Attributes of a function call: presence flags `@key` and key/value pairs
//! `@key(value)`, and the lookup object handed to registered functions.

use vstd::prelude::*;
use vstd::string::StringExecFns;

use crate::argument::Argument;
use crate::error::Error;

verus! {

/// The model of an attribute: its key and, for a value attribute, its value.
pub struct AttrModel {
    pub key: Seq<char>,
    pub value: Option<Seq<char>>,
}

/// One attribute of a function call. A flag has no value.
#[derive(Debug, PartialEq)]
pub struct Attribute {
    pub key: String,
    pub value: Option<String>,
}

impl View for Attribute {
    type V = AttrModel;

    open spec fn view(&self) -> AttrModel {
        AttrModel {
            key: self.key@,
            value: match self.value {
                Some(v) => Some(v@),
                None => None,
            },
        }
    }
}

impl Attribute {
    pub fn new_flag(key: &str) -> (a: Self)
        ensures
            a@.key == key@,
            a@.value is None,
    {
        Self { key: key.to_owned(), value: None }
    }

    pub fn new_value(key: &str, value: &str) -> (a: Self)
        ensures
            a@.key == key@,
            a@.value == Some(value@),
    {
        Self { key: key.to_owned(), value: Some(value.to_owned()) }
    }
}

/// The index of the first attribute with the given key, if any.
pub open spec fn find_attr(attrs: Seq<AttrModel>, key: Seq<char>) -> Option<int>
    decreases attrs.len(),
{
    if attrs.len() == 0 {
        None
    } else if attrs[0].key == key {
        Some(0)
    } else {
        match find_attr(attrs.subrange(1, attrs.len() as int), key) {
            Some(i) => Some(i + 1),
            None => None,
        }
    }
}

/// Whether some attribute is a flag (no value) with the given key.
pub open spec fn has_flag_spec(attrs: Seq<AttrModel>, key: Seq<char>) -> bool {
    exists|i: int| 0 <= i < attrs.len() && (#[trigger] attrs[i]).key == key && attrs[i].value is None
}

/// The ordered attribute list of one function call, as handed to registered
/// functions: a lookup by key.
pub struct Attrs {
    values: Vec<Attribute>,
}

impl View for Attrs {
    type V = Seq<AttrModel>;

    closed spec fn view(&self) -> Seq<AttrModel> {
        self.values@.map_values(|a: Attribute| a@)
    }
}

impl Attrs {
    pub fn new(values: Vec<Attribute>) -> (r: Self)
        ensures
            r@ == values@.map_values(|a: Attribute| a@),
    {
        Self { values }
    }

    /// Whether a flag attribute (one without a value) with this key exists.
    pub fn has_flag(&self, key: &str) -> (r: bool)
        ensures
            r == has_flag_spec(self@, key@),
    {
        let n = self.values.len();
        let mut i: usize = 0;
        loop
            invariant
                i <= n,
                n == self.values.len(),
                forall|j: int|
                    0 <= j < i ==> !((#[trigger] self@[j]).key == key@ && self@[j].value is None),
            ensures
                i <= n,
                n == self.values.len(),
                i < n ==> self@[i as int].key == key@ && self@[i as int].value is None,
                i == n ==> forall|j: int|
                    0 <= j < n ==> !((#[trigger] self@[j]).key == key@ && self@[j].value is None),
            decreases n - i,
        {
            if i >= n {
                break ;
            }
            let a = &self.values[i];
            if a.value.is_none() && str_eq(a.key.as_str(), key) {
                break ;
            }
            i = i + 1;
        }
        i < n
    }

    /// Look up the first attribute with this key and convert its value, if it
    /// has one, to `T`. An absent key or a flag yields `Ok(None)`; a value
    /// that `T` cannot be read from yields a type error.
    pub fn get_value<T: Argument>(&self, key: &str) -> (r: Result<Option<T>, Error>)
        ensures
            match find_attr(self@, key@) {
                None => r matches Ok(v) && v is None,
                Some(i) => match self@[i].value {
                    None => r matches Ok(v) && v is None,
                    Some(s) => {
                        if T::arg_ok(s) {
                            match r {
                                Ok(Some(v)) => T::arg_is(s, &v),
                                _ => false,
                            }
                        } else {
                            r matches Err(e) && e matches Error::Type(m, sp) && m@
                                == "Failed to convert attribute value '"@ + s + "' to "@
                                + T::type_label_spec() && sp is None
                        }
                    },
                },
            },
    {
        let n = self.values.len();
        let mut i: usize = 0;
        proof {
            assert(self@.subrange(0, n as int) =~= self@);
        }
        loop
            invariant
                i <= n,
                n == self.values.len(),
                forall|j: int| 0 <= j < i ==> (#[trigger] self@[j]).key != key@,
                find_attr(self@, key@) == match find_attr(
                    self@.subrange(i as int, n as int),
                    key@,
                ) {
                    Some(k) => Some(k + i),
                    None => None::<int>,
                },
            ensures
                i <= n,
                n == self.values.len(),
                i < n ==> self@[i as int].key == key@ && find_attr(self@, key@) == Some(i as int),
                i == n ==> find_attr(self@, key@) is None,
            decreases n - i,
        {
            proof {
                lemma_find_attr_step(self@, key@, i as int);
            }
            if i >= n {
                break ;
            }
            let a = &self.values[i];
            if str_eq(a.key.as_str(), key) {
                break ;
            }
            i = i + 1;
        }
        if i >= n {
            return Ok(None);
        }
        match &self.values[i].value {
            None => Ok(None),
            Some(v) => match T::parse_arg(v.as_str()) {
                Some(t) => Ok(Some(t)),
                None => Err(
                    Error::Type(
                        String::from_str("Failed to convert attribute value '").concat(
                            v.as_str(),
                        ).concat("' to ").concat(T::type_label().as_str()),
                        None,
                    ),
                ),
            },
        }
    }
}

proof fn lemma_find_attr_step(attrs: Seq<AttrModel>, key: Seq<char>, i: int)
    requires
        0 <= i <= attrs.len(),
    ensures
        i < attrs.len() ==> find_attr(attrs.subrange(i, attrs.len() as int), key) == (if attrs[i].key
            == key {
            Some(0int)
        } else {
            match find_attr(attrs.subrange(i + 1, attrs.len() as int), key) {
                Some(k) => Some(k + 1),
                None => None::<int>,
            }
        }),
        i == attrs.len() ==> find_attr(attrs.subrange(i, attrs.len() as int), key) is None,
{
    let sub = attrs.subrange(i, attrs.len() as int);
    if i < attrs.len() {
        assert(sub[0] == attrs[i]);
        assert(sub.subrange(1, sub.len() as int) =~= attrs.subrange(i + 1, attrs.len() as int));
    }
}

/// Compare two string slices by contents.
pub fn str_eq(a: &str, b: &str) -> (r: bool)
    ensures
        r == (a@ == b@),
{
    let x = a.to_owned();
    let y = b.to_owned();
    x == y
}

} // verus!
