//! The phone entry: the two text fields attached to a contact name.

use vstd::prelude::*;

verus! {

/// A contact's phone numbers. Both fields are free-form text; digits are
/// typical but nothing is validated as numeric.
#[derive(Debug, Clone)]
pub struct PhoneEntry {
    pub mobile: String,
    pub work: String,
}

impl View for PhoneEntry {
    type V = (Seq<char>, Seq<char>);

    open spec fn view(&self) -> (Seq<char>, Seq<char>) {
        (self.mobile@, self.work@)
    }
}

impl PhoneEntry {
    /// Builds an entry from the two field values.
    pub fn new(mobile: String, work: String) -> (r: PhoneEntry)
        ensures
            r@ == (mobile@, work@),
    {
        PhoneEntry { mobile, work }
    }

    /// A field-for-field copy with an equal view.
    pub fn duplicate(&self) -> (r: PhoneEntry)
        ensures
            r@ == self@,
    {
        PhoneEntry { mobile: self.mobile.clone(), work: self.work.clone() }
    }
}

impl PartialEq for PhoneEntry {
    fn eq(&self, other: &PhoneEntry) -> (r: bool) {
        self.mobile == other.mobile && self.work == other.work
    }
}

impl vstd::std_specs::cmp::PartialEqSpecImpl for PhoneEntry {
    open spec fn obeys_eq_spec() -> bool {
        true
    }

    open spec fn eq_spec(&self, other: &PhoneEntry) -> bool {
        self@ == other@
    }
}

impl Eq for PhoneEntry {

}

} // verus!
