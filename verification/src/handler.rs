//! The identifier of one installed application (a desktop-entry name).

use vstd::prelude::*;

verus! {

/// Characters that may appear in a handler identifier: everything except
/// the separators of the persisted format.
pub open spec fn allowed_handler_char(c: char) -> bool {
    c != ';' && c != '\n' && c != '='
}

/// A valid handler token: nonempty, with no separator characters.
pub open spec fn valid_handler(s: Seq<char>) -> bool {
    s.len() > 0 && forall|i: int| 0 <= i < s.len() ==> allowed_handler_char(#[trigger] s[i])
}

/// One installed application, referenced by the name of its desktop entry.
/// Two handlers are equal exactly when their identifiers are equal.
pub struct Handler {
    pub name: String,
}

impl View for Handler {
    type V = Seq<char>;

    open spec fn view(&self) -> Seq<char> {
        self.name@
    }
}

impl PartialEq for Handler {
    fn eq(&self, other: &Self) -> (r: bool) {
        self.name == other.name
    }
}

impl vstd::std_specs::cmp::PartialEqSpecImpl for Handler {
    open spec fn obeys_eq_spec() -> bool {
        true
    }

    open spec fn eq_spec(&self, other: &Self) -> bool {
        self.name@ == other.name@
    }
}

impl Eq for Handler {

}

impl Clone for Handler {
    fn clone(&self) -> (r: Self)
        ensures
            r@ == self@,
    {
        Handler { name: self.name.clone() }
    }
}

impl Handler {
    /// Wraps a name that the caller vouches for; no record of the name is
    /// looked up.
    pub fn assume_valid(name: String) -> (r: Handler)
        requires
            valid_handler(name@),
        ensures
            r@ == name@,
    {
        Handler { name }
    }

    /// The identifier as owned text.
    pub fn to_string(&self) -> (r: String)
        ensures
            r@ == self@,
    {
        self.name.clone()
    }
}

} // verus!
