//! The directory with an interface that takes records by value.

use vstd::prelude::*;
use crate::contact_list;
use crate::contact_list::{page, sorted_by_name};
pub use crate::contact_list::ContactDetails;

verus! {

/// The directory; records are handed over by value.
pub struct ContactList {
    inner: contact_list::ContactList,
}

impl View for ContactList {
    type V = Map<Seq<char>, ContactDetails>;

    /// The records by name.
    closed spec fn view(&self) -> Map<Seq<char>, ContactDetails> {
        self.inner@
    }
}

impl ContactList {
    /// Both indexes agree.
    pub closed spec fn wf(&self) -> bool {
        self.inner.wf()
    }

    /// All records in ascending order of name.
    pub closed spec fn entries(&self) -> Seq<ContactDetails> {
        self.inner.entries()
    }

    /// The listing is in strictly ascending order of name and holds exactly
    /// the directory's records, each under its own name.
    pub proof fn lemma_entries(&self)
        requires
            self.wf(),
        ensures
            sorted_by_name(self.entries()),
            forall|x: ContactDetails| #[trigger] self.entries().contains(x) <==> (self@.contains_key(x.name@) && self@[x.name@] == x),
    {
        self.inner.lemma_entries();
    }

    /// An empty directory.
    pub fn new() -> (r: ContactList)
        ensures
            r.wf(),
            r@ == Map::<Seq<char>, ContactDetails>::empty(),
    {
        ContactList { inner: contact_list::ContactList::new() }
    }

    /// The page of at most three records at position `offset` of the
    /// alphabetical listing.
    pub fn get_contacts(&self, offset: i32) -> (r: Vec<ContactDetails>)
        requires
            self.wf(),
            offset >= 0,
        ensures
            r@ == page(self.entries(), offset as int),
    {
        self.inner.get_contacts(offset)
    }

    /// Every record, in ascending order of name.
    pub fn get_all(&self) -> (r: Vec<ContactDetails>)
        requires
            self.wf(),
        ensures
            r@ == self.entries(),
            sorted_by_name(r@),
    {
        self.inner.get_all()
    }

    /// The records whose name starts with `query`, in ascending order of name.
    pub fn find(&self, query: &String) -> (r: Vec<ContactDetails>)
        requires
            self.wf(),
        ensures
            sorted_by_name(r@),
            forall|x: ContactDetails| #[trigger] r@.contains(x) <==> {
                &&& query@.is_prefix_of(x.name@)
                &&& self@.contains_key(x.name@)
                &&& self@[x.name@] == x
            },
    {
        self.inner.find(query)
    }

    /// Adds the record, or replaces the one of the same name.
    pub fn insert(&mut self, contact_details: ContactDetails)
        requires
            old(self).wf(),
            contact_details.name@.len() > 0,
        ensures
            final(self).wf(),
            final(self)@ == old(self)@.insert(contact_details.name@, contact_details),
    {
        self.inner.insert(&contact_details);
    }

    /// The same as `insert`.
    pub fn edit(&mut self, contact_details: ContactDetails)
        requires
            old(self).wf(),
            contact_details.name@.len() > 0,
        ensures
            final(self).wf(),
            final(self)@ == old(self)@.insert(contact_details.name@, contact_details),
    {
        self.insert(contact_details);
    }

    /// Removes the record of that name, if there is one, and tells whether
    /// there was.
    pub fn delete(&mut self, name: &String) -> (found: bool)
        requires
            old(self).wf(),
        ensures
            final(self).wf(),
            final(self)@ == old(self)@.remove(name@),
            found == old(self)@.contains_key(name@),
    {
        self.inner.delete(name)
    }
}

} // verus!
