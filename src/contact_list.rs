//! The contact directory: an ordered index and a prefix index kept in step.

use vstd::prelude::*;
use crate::lex::{chars_lt, chars_of, lemma_lt_asymmetric, lemma_lt_total, lemma_lt_transitive, name_lt};
use crate::trie::{get_all_contacts, TrieNode};

verus! {

/// One contact. Its identity is its name.
#[derive(Clone, Debug, PartialEq, Eq)]
pub struct ContactDetails {
    pub name: String,
    pub email: String,
    pub phone: String,
}

impl ContactDetails {
    /// A field-by-field copy of this record.
    pub fn copied(&self) -> (r: ContactDetails)
        ensures
            r == *self,
    {
        ContactDetails { name: self.name.clone(), email: self.email.clone(), phone: self.phone.clone() }
    }
}

/// How many records a page holds.
pub const PAGE_SIZE: usize = 3;

/// The page of `s` that starts at position `offset`: at most `PAGE_SIZE`
/// records, fewer at the end, none past it.
pub open spec fn page(s: Seq<ContactDetails>, offset: int) -> Seq<ContactDetails> {
    let lo = if offset < s.len() { offset } else { s.len() as int };
    let hi = if offset + PAGE_SIZE < s.len() { offset + PAGE_SIZE } else { s.len() as int };
    s.subrange(lo, hi)
}

/// The pages of `s` from position `offset` on, one after another.
pub open spec fn pages_from(s: Seq<ContactDetails>, offset: int) -> Seq<ContactDetails>
    decreases s.len() + PAGE_SIZE - offset,
{
    if 0 <= offset < s.len() && PAGE_SIZE > 0 {
        page(s, offset) + pages_from(s, offset + PAGE_SIZE)
    } else {
        Seq::empty()
    }
}

/// The pages at `0`, `PAGE_SIZE`, `2 * PAGE_SIZE`, ... put together give the
/// whole listing, with no gap and no repeat; a page at or past the end is
/// empty.
pub proof fn lemma_pages_cover(s: Seq<ContactDetails>, offset: int)
    requires
        0 <= offset <= s.len(),
    ensures
        pages_from(s, offset) == s.subrange(offset, s.len() as int),
        forall|o: int| o >= s.len() ==> #[trigger] page(s, o).len() == 0,
    decreases s.len() - offset,
{
    if offset < s.len() {
        let next = if offset + PAGE_SIZE < s.len() { offset + PAGE_SIZE } else { s.len() as int };
        lemma_pages_cover(s, next);
        if next == s.len() {
            assert(pages_from(s, offset + PAGE_SIZE) =~= Seq::<ContactDetails>::empty());
            assert(pages_from(s, next) =~= Seq::<ContactDetails>::empty());
        }
        assert(page(s, offset) + s.subrange(next, s.len() as int) =~= s.subrange(offset, s.len() as int));
    } else {
        assert(s.subrange(offset, s.len() as int) =~= Seq::<ContactDetails>::empty());
    }
}

/// The map made by inserting the records of `s` into `m` in order, each
/// under its name.
pub open spec fn with_all(m: Map<Seq<char>, ContactDetails>, s: Seq<ContactDetails>) -> Map<Seq<char>, ContactDetails>
    decreases s.len(),
{
    if s.len() == 0 {
        m
    } else {
        with_all(m, s.drop_last()).insert(s.last().name@, s.last())
    }
}

/// Records in strictly ascending order of name.
pub open spec fn sorted_by_name(s: Seq<ContactDetails>) -> bool {
    forall|i: int, j: int| 0 <= i < j < s.len() ==> name_lt(#[trigger] s[i].name@, #[trigger] s[j].name@)
}

/// Two lists in strictly ascending order of name that hold the same records
/// are the same list.
pub proof fn lemma_sorted_unique(a: Seq<ContactDetails>, b: Seq<ContactDetails>)
    requires
        sorted_by_name(a),
        sorted_by_name(b),
        forall|x: ContactDetails| a.contains(x) <==> b.contains(x),
    ensures
        a == b,
    decreases a.len(),
{
    if a.len() > 0 && b.len() > 0 {
        if a[0] != b[0] {
            assert(b.contains(a[0]));
            assert(a.contains(b[0]));
            let i = choose|i: int| 0 <= i < b.len() && b[i] == a[0];
            let j = choose|j: int| 0 <= j < a.len() && a[j] == b[0];
            lemma_lt_asymmetric(a[0].name@, b[0].name@);
            assert(i > 0 && j > 0) by {
                lemma_lt_asymmetric(a[0].name@, a[0].name@);
            }
            assert(name_lt(b[0].name@, b[i].name@));
            assert(name_lt(a[0].name@, a[j].name@));
        }
        let a1 = a.drop_first();
        let b1 = b.drop_first();
        assert forall|x: ContactDetails| a1.contains(x) <==> b1.contains(x) by {
            if a1.contains(x) {
                let i = choose|i: int| 0 <= i < a1.len() && a1[i] == x;
                assert(a[i + 1] == x);
                assert(b.contains(x));
                let j = choose|j: int| 0 <= j < b.len() && b[j] == x;
                if j == 0 {
                    assert(name_lt(a[0].name@, a[i + 1].name@));
                    lemma_lt_asymmetric(x.name@, x.name@);
                }
                assert(b1[j - 1] == x);
            }
            if b1.contains(x) {
                let i = choose|i: int| 0 <= i < b1.len() && b1[i] == x;
                assert(b[i + 1] == x);
                assert(a.contains(x));
                let j = choose|j: int| 0 <= j < a.len() && a[j] == x;
                if j == 0 {
                    assert(name_lt(b[0].name@, b[i + 1].name@));
                    lemma_lt_asymmetric(x.name@, x.name@);
                }
                assert(a1[j - 1] == x);
            }
        }
        lemma_sorted_unique(a1, b1);
        assert(a =~= seq![a[0]] + a1);
        assert(b =~= seq![b[0]] + b1);
    } else if a.len() > 0 {
        assert(b.contains(a[0]));
    } else if b.len() > 0 {
        assert(a.contains(b[0]));
    } else {
        assert(a =~= b);
    }
}

/// The directory. `contacts` is the ordered index, sorted by name; `root` is
/// the prefix index. Both hold the same records.
pub struct ContactList {
    contacts: Vec<ContactDetails>,
    root: TrieNode,
}

impl View for ContactList {
    type V = Map<Seq<char>, ContactDetails>;

    /// The records by name.
    closed spec fn view(&self) -> Map<Seq<char>, ContactDetails> {
        Map::new(|k: Seq<char>| self.root.lookup(k) is Some, |k: Seq<char>| self.root.lookup(k)->0)
    }
}

impl ContactList {
    /// The two indexes agree: the ordered index lists, in ascending order of
    /// name, exactly the records of the trie, each under its own name, and
    /// no record has an empty name.
    pub closed spec fn wf(&self) -> bool {
        &&& self.root.wf(Seq::empty())
        &&& self.root.contact_details is None
        &&& sorted_by_name(self.contacts@)
        &&& forall|i: int| 0 <= i < self.contacts.len() ==>
                self.root.lookup(#[trigger] self.contacts[i].name@) == Some(self.contacts[i])
        &&& forall|k: Seq<char>| #[trigger] self.root.lookup(k) is Some ==>
                exists|i: int| 0 <= i < self.contacts.len() && #[trigger] self.contacts[i].name@ == k
    }

    /// All records in ascending order of name.
    pub closed spec fn entries(&self) -> Seq<ContactDetails> {
        self.contacts@
    }

    /// The listing is in strictly ascending order of name and holds exactly
    /// the directory's records, each under its own name, which is never empty.
    pub proof fn lemma_entries(&self)
        requires
            self.wf(),
        ensures
            sorted_by_name(self.entries()),
            forall|x: ContactDetails| #[trigger] self.entries().contains(x) <==> (self@.contains_key(x.name@) && self@[x.name@] == x),
            forall|k: Seq<char>| #[trigger] self@.contains_key(k) ==> self@[k].name@ == k && k.len() > 0,
    {
        assert forall|x: ContactDetails| #[trigger] self.entries().contains(x) <==> (self@.contains_key(x.name@) && self@[x.name@] == x) by {
            if self.entries().contains(x) {
                let i = choose|i: int| 0 <= i < self.contacts.len() && self.contacts@[i] == x;
                assert(self.root.lookup(self.contacts[i].name@) == Some(self.contacts[i]));
            }
            if self@.contains_key(x.name@) && self@[x.name@] == x {
                let i = choose|i: int| 0 <= i < self.contacts.len() && #[trigger] self.contacts[i].name@ == x.name@;
                assert(self.root.lookup(self.contacts[i].name@) == Some(self.contacts[i]));
                assert(self.entries()[i] == x);
            }
        }
        assert forall|k: Seq<char>| #[trigger] self@.contains_key(k) implies self@[k].name@ == k && k.len() > 0 by {
            let i = choose|i: int| 0 <= i < self.contacts.len() && #[trigger] self.contacts[i].name@ == k;
            assert(self.root.lookup(self.contacts[i].name@) == Some(self.contacts[i]));
            if k.len() == 0 {
                assert(self.root.lookup(k) == self.root.contact_details);
            }
        }
    }

    /// Two directories with the same records list them the same way.
    pub proof fn lemma_view_determines_entries(a: &ContactList, b: &ContactList)
        requires
            a.wf(),
            b.wf(),
            a@ == b@,
        ensures
            a.entries() == b.entries(),
    {
        a.lemma_entries();
        b.lemma_entries();
        assert forall|x: ContactDetails| a.entries().contains(x) <==> b.entries().contains(x) by {
            assert(a.entries().contains(x) == (a@.contains_key(x.name@) && a@[x.name@] == x));
            assert(b.entries().contains(x) == (b@.contains_key(x.name@) && b@[x.name@] == x));
        }
        lemma_sorted_unique(a.entries(), b.entries());
    }

    /// An empty directory.
    pub fn new() -> (r: ContactList)
        ensures
            r.wf(),
            r@ == Map::<Seq<char>, ContactDetails>::empty(),
            r.entries().len() == 0,
    {
        let r = ContactList { contacts: Vec::new(), root: TrieNode::empty('\0') };
        assert(r@ =~= Map::<Seq<char>, ContactDetails>::empty());
        r
    }

    /// Adds the record, or replaces the one of the same name, in both indexes.
    pub fn insert(&mut self, contact_details: &ContactDetails)
        requires
            old(self).wf(),
            contact_details.name@.len() > 0,
        ensures
            final(self).wf(),
            final(self)@ == old(self)@.insert(contact_details.name@, *contact_details),
    {
        let ghost before = *self;
        let key = chars_of(&contact_details.name);
        let mut j: usize = 0;
        while j < self.contacts.len() && chars_lt(&chars_of(&self.contacts[j].name), &key)
            invariant
                *self == before,
                key@ == contact_details.name@,
                j <= self.contacts.len(),
                forall|m: int| 0 <= m < j ==> name_lt(#[trigger] self.contacts[m].name@, key@),
            decreases self.contacts.len() - j,
        {
            j = j + 1;
        }
        let replace = j < self.contacts.len() && !chars_lt(&key, &chars_of(&self.contacts[j].name));
        proof {
            if j < self.contacts.len() {
                lemma_lt_total(self.contacts[j as int].name@, key@);
                lemma_lt_asymmetric(key@, key@);
                assert forall|m: int| j < m < self.contacts.len() implies name_lt(key@, #[trigger] self.contacts[m].name@) by {
                    assert(name_lt(self.contacts[j as int].name@, self.contacts[m].name@));
                    if !replace {
                        lemma_lt_transitive(key@, self.contacts[j as int].name@, self.contacts[m].name@);
                    }
                }
            }
        }
        if replace {
            self.contacts.remove(j);
        }
        self.contacts.insert(j, contact_details.copied());
        assert(key@.subrange(0, 0) =~= Seq::<char>::empty());
        self.root.insert_at(&key, 0, contact_details.copied());
        proof {
            let rec = *contact_details;
            assert(key@.subrange(0, 0) =~= Seq::<char>::empty());
            assert(key@.subrange(0, key@.len() as int) =~= key@);
            let old_c = before.contacts@;
            let new_c = self.contacts@;
            if replace {
                assert(new_c =~= old_c.update(j as int, rec));
            } else {
                assert(new_c =~= old_c.insert(j as int, rec));
            }
            // where each old entry other than a replaced one now stands
            assert forall|m: int| 0 <= m < old_c.len() && !(replace && m == j) implies
                (#[trigger] old_c[m]).name@ != key@ && new_c[if m < j || replace { m } else { m + 1 }] == old_c[m] by {
                lemma_lt_asymmetric(key@, key@);
            }
            assert(self.root.contact_details is None) by {
                assert(self.root.lookup(Seq::empty()) == before.root.lookup(Seq::empty()));
            }
            assert(sorted_by_name(new_c)) by {
                assert forall|a: int, b: int| 0 <= a < b < new_c.len() implies name_lt(#[trigger] new_c[a].name@, #[trigger] new_c[b].name@) by {
                    if replace {
                        if a != j && b != j {
                            assert(name_lt(old_c[a].name@, old_c[b].name@));
                        }
                    } else {
                        if b < j {
                            assert(name_lt(old_c[a].name@, old_c[b].name@));
                        } else if a > j {
                            assert(name_lt(old_c[a - 1].name@, old_c[b - 1].name@));
                        } else if a < j && b > j {
                            assert(name_lt(old_c[a].name@, old_c[b - 1].name@)) by {
                                lemma_lt_transitive(old_c[a].name@, key@, old_c[b - 1].name@);
                            }
                        }
                    }
                }
            }
            assert forall|i: int| 0 <= i < new_c.len() implies
                self.root.lookup(#[trigger] self.contacts[i].name@) == Some(self.contacts[i]) by {
                if i != j {
                    let m = if i < j || replace { i } else { i - 1 };
                    assert(new_c[i] == old_c[m]);
                    assert(before.root.lookup(before.contacts[m].name@) == Some(before.contacts[m]));
                }
            }
            assert forall|k: Seq<char>| #[trigger] self.root.lookup(k) is Some implies
                exists|i: int| 0 <= i < self.contacts.len() && #[trigger] self.contacts[i].name@ == k by {
                if k == key@ {
                    assert(self.contacts[j as int].name@ == k);
                } else {
                    assert(before.root.lookup(k) is Some);
                    let m = choose|m: int| 0 <= m < before.contacts.len() && #[trigger] before.contacts[m].name@ == k;
                    let i = if m < j || replace { m } else { m + 1 };
                    assert(self.contacts[i].name@ == k);
                }
            }
            assert(self@ =~= before@.insert(key@, rec));
        }
    }

    /// Writes the record over the one of the same name; the same as `insert`,
    /// so a name not yet present is added.
    pub fn edit(&mut self, contact_details: &ContactDetails)
        requires
            old(self).wf(),
            contact_details.name@.len() > 0,
        ensures
            final(self).wf(),
            final(self)@ == old(self)@.insert(contact_details.name@, *contact_details),
    {
        self.insert(contact_details);
    }

    /// Removes the record of that name from both indexes, and tells whether
    /// there was one; a name not present leaves the directory as it was.
    /// Trie nodes are not pruned.
    pub fn delete(&mut self, name: &String) -> (found: bool)
        requires
            old(self).wf(),
        ensures
            final(self).wf(),
            final(self)@ == old(self)@.remove(name@),
            found == old(self)@.contains_key(name@),
    {
        let ghost before = *self;
        let key = chars_of(name);
        let mut j: usize = 0;
        while j < self.contacts.len() && chars_lt(&chars_of(&self.contacts[j].name), &key)
            invariant
                *self == before,
                key@ == name@,
                j <= self.contacts.len(),
                forall|m: int| 0 <= m < j ==> name_lt(#[trigger] self.contacts[m].name@, key@),
            decreases self.contacts.len() - j,
        {
            j = j + 1;
        }
        let found = j < self.contacts.len() && !chars_lt(&key, &chars_of(&self.contacts[j].name));
        proof {
            lemma_lt_asymmetric(key@, key@);
            if j < self.contacts.len() {
                lemma_lt_total(self.contacts[j as int].name@, key@);
                assert forall|m: int| j < m < self.contacts.len() implies name_lt(key@, #[trigger] self.contacts[m].name@) by {
                    assert(name_lt(self.contacts[j as int].name@, self.contacts[m].name@));
                    if !found {
                        lemma_lt_transitive(key@, self.contacts[j as int].name@, self.contacts[m].name@);
                    }
                }
            }
            assert forall|m: int| 0 <= m < self.contacts.len() && !(found && m == j) implies
                (#[trigger] self.contacts[m]).name@ != key@ by {}
        }
        if found {
            self.contacts.remove(j);
        }
        assert(key@.subrange(0, 0) =~= Seq::<char>::empty());
        self.root.delete_at(&key, 0);
        proof {
            assert(key@.subrange(0, key@.len() as int) =~= key@);
            let old_c = before.contacts@;
            let new_c = self.contacts@;
            if found {
                assert(new_c =~= old_c.remove(j as int));
            } else {
                assert(new_c =~= old_c);
            }
            let ghost pos = |i: int| if found && i >= j { i + 1 } else { i };
            assert forall|i: int| 0 <= i < new_c.len() implies #[trigger] new_c[i] == old_c[pos(i)] && old_c[pos(i)].name@ != key@ by {}
            assert(self.root.contact_details is None) by {
                if key@.len() > 0 {
                    assert(self.root.lookup(Seq::empty()) == before.root.lookup(Seq::empty()));
                } else {
                    assert(self.root.lookup(Seq::empty()) is None);
                }
            }
            assert(sorted_by_name(new_c)) by {
                assert forall|a: int, b: int| 0 <= a < b < new_c.len() implies name_lt(#[trigger] new_c[a].name@, #[trigger] new_c[b].name@) by {
                    assert(new_c[a] == old_c[pos(a)]);
                    assert(new_c[b] == old_c[pos(b)]);
                }
            }
            assert forall|i: int| 0 <= i < new_c.len() implies
                self.root.lookup(#[trigger] self.contacts[i].name@) == Some(self.contacts[i]) by {
                assert(new_c[i] == old_c[pos(i)]);
                assert(before.root.lookup(before.contacts[pos(i)].name@) == Some(before.contacts[pos(i)]));
            }
            assert forall|k: Seq<char>| #[trigger] self.root.lookup(k) is Some implies
                exists|i: int| 0 <= i < self.contacts.len() && #[trigger] self.contacts[i].name@ == k by {
                assert(k != key@);
                assert(before.root.lookup(k) is Some);
                let m = choose|m: int| 0 <= m < before.contacts.len() && #[trigger] before.contacts[m].name@ == k;
                let i = if found && m > j { m - 1 } else { m };
                assert(pos(i) == m);
                assert(self.contacts[i].name@ == k);
            }
            assert(self@ =~= before@.remove(key@));
            if before@.contains_key(key@) {
                let m = choose|m: int| 0 <= m < before.contacts.len() && #[trigger] before.contacts[m].name@ == key@;
                assert(found || before.contacts[m].name@ != key@);
            }
        }
        found
    }

    /// The records whose name starts with `query`, in ascending order of
    /// name; all of them for an empty query.
    pub fn find(&self, query: &String) -> (r: Vec<ContactDetails>)
        requires
            self.wf(),
        ensures
            sorted_by_name(r@),
            forall|x: ContactDetails| #[trigger] r@.contains(x) <==> {
                &&& query@.is_prefix_of(x.name@)
                &&& self@.contains_key(x.name@)
                &&& self@[x.name@] == x
            },
    {
        let key = chars_of(query);
        let mut container: Vec<ContactDetails> = Vec::new();
        match self.root.descend(&key) {
            Some(node) => {
                get_all_contacts(node, &mut container);
                proof {
                    let q = query@;
                    node.lemma_collect(q);
                    assert(container@ =~= node.collect());
                    assert forall|x: ContactDetails| #[trigger] container@.contains(x) <==> {
                        &&& q.is_prefix_of(x.name@)
                        &&& self@.contains_key(x.name@)
                        &&& self@[x.name@] == x
                    } by {
                        let rest = x.name@.subrange(q.len() as int, x.name@.len() as int);
                        if container@.contains(x) {
                            let j = choose|j: int| 0 <= j < container@.len() && container@[j] == x;
                            assert(node.collect()[j] == x);
                            assert(q + rest =~= x.name@);
                            assert(node.lookup(rest) == self.root.lookup(q + rest));
                        }
                        if q.is_prefix_of(x.name@) && self@.contains_key(x.name@) && self@[x.name@] == x {
                            assert(q + rest =~= x.name@);
                            assert(node.lookup(rest) == self.root.lookup(q + rest));
                            assert(node.lookup(rest) is Some);
                        }
                    }
                }
            },
            None => {
                proof {
                    assert forall|x: ContactDetails| #[trigger] container@.contains(x) <==> {
                        &&& query@.is_prefix_of(x.name@)
                        &&& self@.contains_key(x.name@)
                        &&& self@[x.name@] == x
                    } by {
                        let q = query@;
                        if q.is_prefix_of(x.name@) {
                            let rest = x.name@.subrange(q.len() as int, x.name@.len() as int);
                            assert(q + rest =~= x.name@);
                            assert(self.root.lookup(q + rest) is None);
                        }
                    }
                }
            },
        }
        container
    }

    /// Every record, in ascending order of name, by a walk of the trie.
    pub fn get_all(&self) -> (r: Vec<ContactDetails>)
        requires
            self.wf(),
        ensures
            r@ == self.entries(),
            sorted_by_name(r@),
    {
        let mut result: Vec<ContactDetails> = Vec::new();
        get_all_contacts(&self.root, &mut result);
        proof {
            let e = Seq::<char>::empty();
            self.root.lemma_collect(e);
            self.lemma_entries();
            assert(result@ =~= self.root.collect());
            assert forall|x: ContactDetails| result@.contains(x) <==> self.entries().contains(x) by {
                let rest = x.name@.subrange(0, x.name@.len() as int);
                assert(rest =~= x.name@);
                if result@.contains(x) {
                    let j = choose|j: int| 0 <= j < result@.len() && result@[j] == x;
                    assert(self.root.collect()[j] == x);
                }
                if self.entries().contains(x) {
                    assert(self.root.lookup(x.name@) is Some);
                }
            }
            lemma_sorted_unique(result@, self.entries());
        }
        result
    }

    /// The page of at most `PAGE_SIZE` records that starts at position
    /// `offset` of the alphabetical listing; empty past its end.
    pub fn get_contacts(&self, offset: i32) -> (r: Vec<ContactDetails>)
        requires
            self.wf(),
            offset >= 0,
        ensures
            r@ == page(self.entries(), offset as int),
    {
        let n = self.contacts.len();
        let start = offset as usize;
        let lo = if start < n { start } else { n };
        let hi = if n - lo < PAGE_SIZE { n } else { lo + PAGE_SIZE };
        let mut result: Vec<ContactDetails> = Vec::new();
        let mut i: usize = lo;
        while i < hi
            invariant
                lo <= i <= hi <= n,
                n == self.contacts.len(),
                result@ == self.contacts@.subrange(lo as int, i as int),
            decreases hi - i,
        {
            result.push(self.contacts[i].copied());
            i = i + 1;
            assert(result@ =~= self.contacts@.subrange(lo as int, i as int));
        }
        result
    }

    /// A directory holding the given records, a later one replacing an
    /// earlier one of the same name.
    pub fn from_contacts(contacts: &Vec<ContactDetails>) -> (r: ContactList)
        requires
            forall|i: int| 0 <= i < contacts.len() ==> (#[trigger] contacts[i]).name@.len() > 0,
        ensures
            r.wf(),
            r@ == with_all(Map::empty(), contacts@),
    {
        let mut cl = ContactList::new();
        let mut i: usize = 0;
        while i < contacts.len()
            invariant
                i <= contacts.len(),
                cl.wf(),
                cl@ == with_all(Map::empty(), contacts@.subrange(0, i as int)),
                forall|m: int| 0 <= m < contacts.len() ==> (#[trigger] contacts[m]).name@.len() > 0,
            decreases contacts.len() - i,
        {
            cl.insert(&contacts[i]);
            proof {
                let t = contacts@.subrange(0, i + 1);
                assert(t.drop_last() =~= contacts@.subrange(0, i as int));
            }
            i = i + 1;
        }
        assert(contacts@.subrange(0, contacts.len() as int) =~= contacts@);
        cl
    }

    /// The names listed are exactly the names held.
    pub proof fn lemma_listed_names(&self)
        requires
            self.wf(),
        ensures
            Set::new(|k: Seq<char>| exists|i: int| 0 <= i < self.entries().len() && #[trigger] self.entries()[i].name@ == k)
                == self@.dom(),
    {
        self.lemma_entries();
        let names = Set::new(|k: Seq<char>| exists|i: int| 0 <= i < self.entries().len() && #[trigger] self.entries()[i].name@ == k);
        assert forall|k: Seq<char>| names.contains(k) <==> self@.dom().contains(k) by {
            if names.contains(k) {
                let i = choose|i: int| 0 <= i < self.entries().len() && #[trigger] self.entries()[i].name@ == k;
                assert(self.entries().contains(self.entries()[i]));
            }
            if self@.dom().contains(k) {
                assert(self.entries().contains(self@[k]));
                let i = choose|i: int| 0 <= i < self.entries().len() && self.entries()[i] == self@[k];
                assert(self.entries()[i].name@ == k);
            }
        }
        assert(names =~= self@.dom());
    }

    /// Inserting a record a second time changes nothing: `b` is `a` after one
    /// insert of `rec`, `c` is `b` after another.
    pub proof fn lemma_insert_idempotent(a: &ContactList, b: &ContactList, c: &ContactList, rec: ContactDetails)
        requires
            a.wf(),
            b.wf(),
            c.wf(),
            b@ == a@.insert(rec.name@, rec),
            c@ == b@.insert(rec.name@, rec),
        ensures
            c@ == b@,
            c.entries() == b.entries(),
    {
        assert(c@ =~= b@);
        ContactList::lemma_view_determines_entries(c, b);
    }
}

} // verus!
