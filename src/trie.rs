//! The prefix index: a trie over the characters of names. Each node keeps its
//! children in a vector sorted by their character, so that a depth-first walk
//! that visits a node's own record before its children lists names in
//! alphabetical order.

use vstd::prelude::*;
use crate::contact_list::{ContactDetails, sorted_by_name};
use crate::lex::{lemma_branch_lt, lemma_prefix_lt, name_lt};

verus! {

/// A trie node: the character on the edge from its parent (unused at the
/// root), its children, and the record of the name that ends here, if any.
pub(crate) struct TrieNode {
    pub(crate) ch: char,
    pub(crate) child: Vec<TrieNode>,
    pub(crate) contact_details: Option<ContactDetails>,
}

impl TrieNode {
    /// The characters of the children strictly increase.
    pub(crate) open spec fn children_sorted(self) -> bool {
        forall|i: int, j: int|
            0 <= i < j < self.child.len() ==> (#[trigger] self.child[i].ch as int) < (#[trigger] self.child[j].ch as int)
    }

    /// The node that `path` leads to from the root: a record held here is
    /// named `path`, and below it the same holds with each child's character
    /// added.
    pub(crate) open spec fn wf(self, path: Seq<char>) -> bool
        decreases self, self.child.len() + 1,
    {
        &&& (self.contact_details matches Some(r) ==> r.name@ == path)
        &&& self.children_sorted()
        &&& self.children_wf(path, 0)
    }

    /// The children from the `i`-th on are well formed, each at `path` and
    /// its own character.
    pub(crate) open spec fn children_wf(self, path: Seq<char>, i: int) -> bool
        decreases self, self.child.len() - i,
    {
        if 0 <= i < self.child.len() {
            self.child[i].wf(path.push(self.child[i].ch)) && self.children_wf(path, i + 1)
        } else {
            true
        }
    }

    /// Each child covered by `children_wf` is well formed.
    pub(crate) proof fn lemma_child_wf(self, path: Seq<char>, i: int, m: int)
        requires
            self.children_wf(path, i),
            0 <= i <= m < self.child.len(),
        ensures
            self.child[m].wf(path.push(self.child[m].ch)),
        decreases m - i,
    {
        if i < m {
            self.lemma_child_wf(path, i + 1, m);
        }
    }

    /// `children_wf` from the `i`-th child on, given each of them.
    pub(crate) proof fn lemma_children_wf(self, path: Seq<char>, i: int)
        requires
            0 <= i <= self.child.len(),
            forall|m: int| i <= m < self.child.len() ==> #[trigger] self.child[m].wf(path.push(self.child[m].ch)),
        ensures
            self.children_wf(path, i),
        decreases self.child.len() - i,
    {
        if i < self.child.len() {
            assert(self.child[i].wf(path.push(self.child[i].ch)));
            self.lemma_children_wf(path, i + 1);
        }
    }

    /// The record that the relative key `k` leads to, if any.
    pub(crate) open spec fn lookup(self, k: Seq<char>) -> Option<ContactDetails>
        decreases k.len(),
    {
        if k.len() == 0 {
            self.contact_details
        } else if exists|i: int| 0 <= i < self.child.len() && #[trigger] self.child[i].ch == k[0] {
            let i = choose|i: int| 0 <= i < self.child.len() && #[trigger] self.child[i].ch == k[0];
            self.child[i].lookup(k.drop_first())
        } else {
            None
        }
    }

    /// The records at and below this node, own record first, then each
    /// child's in the children's order.
    pub(crate) open spec fn collect(self) -> Seq<ContactDetails>
        decreases self, self.child.len() + 1,
    {
        let own = match self.contact_details {
            Some(r) => seq![r],
            None => Seq::empty(),
        };
        own + self.collect_children(0)
    }

    /// The records below the children from the `i`-th on.
    pub(crate) open spec fn collect_children(self, i: int) -> Seq<ContactDetails>
        decreases self, self.child.len() - i,
    {
        if 0 <= i < self.child.len() {
            self.child[i].collect() + self.collect_children(i + 1)
        } else {
            Seq::empty()
        }
    }

    /// A node with no children and no record.
    pub(crate) fn empty(c: char) -> (r: TrieNode)
        ensures
            r.ch == c,
            r.child.len() == 0,
            r.contact_details is None,
            forall|p: Seq<char>| #[trigger] r.wf(p),
            forall|k: Seq<char>| #[trigger] r.lookup(k) is None,
    {
        TrieNode { ch: c, child: Vec::new(), contact_details: None }
    }

    /// The children, in ascending order of their character.
    pub(crate) fn get_child(&self) -> (r: &Vec<TrieNode>)
        ensures
            r == &self.child,
    {
        &self.child
    }

    /// A key that starts with a child's character leads through that child.
    pub(crate) proof fn lemma_lookup_at(self, i: int, k: Seq<char>)
        requires
            self.children_sorted(),
            0 <= i < self.child.len(),
            k.len() > 0,
            self.child[i].ch == k[0],
        ensures
            self.lookup(k) == self.child[i].lookup(k.drop_first()),
    {
        let j = choose|j: int| 0 <= j < self.child.len() && #[trigger] self.child[j].ch == k[0];
        assert(j == i) by {
            if j < i {
                assert((self.child[j].ch as int) < (self.child[i].ch as int));
            } else if i < j {
                assert((self.child[i].ch as int) < (self.child[j].ch as int));
            }
        }
    }

    /// What the walk yields below a well-formed node: names in strictly
    /// ascending order, each extending `path` and leading, relative to this
    /// node, to the record itself; and every record reachable is among them.
    pub(crate) proof fn lemma_collect(self, path: Seq<char>)
        requires
            self.wf(path),
        ensures
            sorted_by_name(self.collect()),
            forall|j: int| 0 <= j < self.collect().len() ==> {
                let r = #[trigger] self.collect()[j];
                &&& path.is_prefix_of(r.name@)
                &&& self.lookup(r.name@.subrange(path.len() as int, r.name@.len() as int)) == Some(r)
            },
            forall|k: Seq<char>| #[trigger] self.lookup(k) is Some ==> self.collect().contains(self.lookup(k)->0),
        decreases self, self.child.len() + 1,
    {
        self.lemma_collect_children(path, 0);
        let own = match self.contact_details {
            Some(r) => seq![r],
            None => Seq::<ContactDetails>::empty(),
        };
        let rest = self.collect_children(0);
        let all = self.collect();
        assert(all == own + rest);
        assert forall|j: int| 0 <= j < all.len() implies {
            let r = #[trigger] all[j];
            &&& path.is_prefix_of(r.name@)
            &&& self.lookup(r.name@.subrange(path.len() as int, r.name@.len() as int)) == Some(r)
        } by {
            let r = all[j];
            if j < own.len() {
                assert(r.name@ == path);
                assert(r.name@.subrange(path.len() as int, r.name@.len() as int) =~= Seq::<char>::empty());
                assert(path.is_prefix_of(r.name@));
            } else {
                assert(r == rest[j - own.len()]);
                let m = choose|m: int| 0 <= m < self.child.len() && {
                    &&& path.push(#[trigger] self.child[m].ch).is_prefix_of(r.name@)
                    &&& self.child[m].lookup(r.name@.subrange(path.len() as int + 1, r.name@.len() as int)) == Some(r)
                };
                let k = r.name@.subrange(path.len() as int, r.name@.len() as int);
                assert(r.name@.subrange(0, path.len() as int + 1) == path.push(self.child[m].ch));
                assert(k[0] == r.name@[path.len() as int]);
                assert(r.name@[path.len() as int] == r.name@.subrange(0, path.len() as int + 1)[path.len() as int]);
                assert(k.drop_first() =~= r.name@.subrange(path.len() as int + 1, r.name@.len() as int));
                self.lemma_lookup_at(m, k);
                assert(r.name@.subrange(0, path.len() as int) =~= path.push(self.child[m].ch).subrange(0, path.len() as int));
            }
        }
        assert forall|i: int, j: int| 0 <= i < j < all.len() implies name_lt(#[trigger] all[i].name@, #[trigger] all[j].name@) by {
            if i < own.len() {
                let r = all[j];
                assert(r == rest[j - own.len()]);
                let m = choose|m: int| 0 <= m < self.child.len() && {
                    &&& path.push(#[trigger] self.child[m].ch).is_prefix_of(r.name@)
                    &&& self.child[m].lookup(r.name@.subrange(path.len() as int + 1, r.name@.len() as int)) == Some(r)
                };
                assert(r.name@.subrange(0, path.len() as int) =~= path.push(self.child[m].ch).subrange(0, path.len() as int));
                lemma_prefix_lt(path, r.name@);
            } else {
                assert(all[i] == rest[i - own.len()]);
                assert(all[j] == rest[j - own.len()]);
            }
        }
        assert forall|k: Seq<char>| #[trigger] self.lookup(k) is Some implies all.contains(self.lookup(k)->0) by {
            if k.len() == 0 {
                assert(all[0] == self.lookup(k)->0);
            } else {
                let m = choose|i: int| 0 <= i < self.child.len() && #[trigger] self.child[i].ch == k[0];
                self.lemma_lookup_at(m, k);
                assert(self.child[m].lookup(k.drop_first()) is Some);
                assert(rest.contains(self.lookup(k)->0));
                let t = choose|t: int| 0 <= t < rest.len() && rest[t] == self.lookup(k)->0;
                assert(all[t + own.len()] == rest[t]);
            }
        }
    }

    /// The same as `lemma_collect`, for the children from the `i`-th on: each
    /// record comes from one of them, and every record reachable through one
    /// of them is there.
    pub(crate) proof fn lemma_collect_children(self, path: Seq<char>, i: int)
        requires
            self.wf(path),
            0 <= i <= self.child.len(),
        ensures
            sorted_by_name(self.collect_children(i)),
            forall|j: int| 0 <= j < self.collect_children(i).len() ==> {
                let r = #[trigger] self.collect_children(i)[j];
                exists|m: int| i <= m < self.child.len() && {
                    &&& path.push(#[trigger] self.child[m].ch).is_prefix_of(r.name@)
                    &&& self.child[m].lookup(r.name@.subrange(path.len() as int + 1, r.name@.len() as int)) == Some(r)
                }
            },
            forall|m: int, k: Seq<char>|
                i <= m < self.child.len() && (#[trigger] self.child[m].lookup(k)) is Some
                    ==> self.collect_children(i).contains(self.child[m].lookup(k)->0),
        decreases self, self.child.len() - i,
    {
        if i < self.child.len() {
            let c = self.child[i];
            let p = path.push(c.ch);
            self.lemma_child_wf(path, 0, i);
            c.lemma_collect(p);
            self.lemma_collect_children(path, i + 1);
            let first = c.collect();
            let rest = self.collect_children(i + 1);
            let all = self.collect_children(i);
            assert(all == first + rest);
            assert forall|j: int| 0 <= j < all.len() implies {
                let r = #[trigger] all[j];
                exists|m: int| i <= m < self.child.len() && {
                    &&& path.push(#[trigger] self.child[m].ch).is_prefix_of(r.name@)
                    &&& self.child[m].lookup(r.name@.subrange(path.len() as int + 1, r.name@.len() as int)) == Some(r)
                }
            } by {
                if j < first.len() {
                    assert(all[j] == first[j]);
                    assert(p.len() == path.len() + 1);
                } else {
                    assert(all[j] == rest[j - first.len()]);
                }
            }
            assert forall|a: int, b: int| 0 <= a < b < all.len() implies name_lt(#[trigger] all[a].name@, #[trigger] all[b].name@) by {
                if a < first.len() && b >= first.len() {
                    let x = all[a];
                    let y = all[b];
                    assert(x == first[a]);
                    assert(y == rest[b - first.len()]);
                    let m = choose|m: int| i + 1 <= m < self.child.len() && {
                        &&& path.push(#[trigger] self.child[m].ch).is_prefix_of(y.name@)
                        &&& self.child[m].lookup(y.name@.subrange(path.len() as int + 1, y.name@.len() as int)) == Some(y)
                    };
                    assert((self.child[i].ch as int) < (self.child[m].ch as int));
                    lemma_branch_lt(path, c.ch, self.child[m].ch, x.name@, y.name@);
                } else if a < first.len() {
                    assert(all[a] == first[a]);
                    assert(all[b] == first[b]);
                } else {
                    assert(all[a] == rest[a - first.len()]);
                    assert(all[b] == rest[b - first.len()]);
                }
            }
            assert forall|m: int, k: Seq<char>|
                i <= m < self.child.len() && (#[trigger] self.child[m].lookup(k)) is Some
                    implies all.contains(self.child[m].lookup(k)->0) by {
                if m == i {
                    let t = choose|t: int| 0 <= t < first.len() && first[t] == c.lookup(k)->0;
                    assert(all[t] == first[t]);
                } else {
                    let t = choose|t: int| 0 <= t < rest.len() && rest[t] == self.child[m].lookup(k)->0;
                    assert(all[t + first.len()] == rest[t]);
                }
            }
        }
    }

    /// A key whose first character no child has leads nowhere.
    pub(crate) proof fn lemma_lookup_absent(self, k: Seq<char>)
        requires
            k.len() > 0,
            forall|m: int| 0 <= m < self.child.len() ==> #[trigger] self.child[m].ch != k[0],
        ensures
            self.lookup(k) is None,
    {
    }

    /// Stores `rec` at the node that `key[pos..]` leads to from this one,
    /// adding the nodes on the way that are missing.
    pub(crate) fn insert_at(&mut self, key: &Vec<char>, pos: usize, rec: ContactDetails)
        requires
            old(self).wf(key@.subrange(0, pos as int)),
            pos <= key.len(),
            rec.name@ == key@,
        ensures
            final(self).wf(key@.subrange(0, pos as int)),
            final(self).ch == old(self).ch,
            forall|k: Seq<char>|
                #[trigger] final(self).lookup(k) == if k == key@.subrange(pos as int, key.len() as int) {
                    Some(rec)
                } else {
                    old(self).lookup(k)
                },
        decreases key.len() - pos,
    {
        let ghost path = key@.subrange(0, pos as int);
        let ghost target = key@.subrange(pos as int, key.len() as int);
        let ghost before = *self;
        if pos == key.len() {
            self.contact_details = Some(rec);
            proof {
                assert(path =~= key@);
                assert forall|m: int| 0 <= m < self.child.len() implies
                    #[trigger] self.child[m].wf(path.push(self.child[m].ch)) by {
                    before.lemma_child_wf(path, 0, m);
                }
                self.lemma_children_wf(path, 0);
                assert forall|k: Seq<char>|
                    #[trigger] self.lookup(k) == (if k == target { Some(rec) } else { before.lookup(k) }) by {
                    if k.len() == 0 {
                        assert(k =~= target);
                    }
                }
            }
        } else {
            let c = key[pos];
            let j = self.child_position(c);
            let ghost p1 = key@.subrange(0, pos + 1);
            assert(p1 =~= path.push(c));
            let found = j < self.child.len() && self.child[j].ch == c;
            let mut node = if found {
                proof { before.lemma_child_wf(path, 0, j as int); }
                self.child.remove(j)
            } else {
                TrieNode::empty(c)
            };
            let ghost sub = node;
            node.insert_at(key, pos + 1, rec);
            self.child.insert(j, node);
            proof {
                let nc = self.child@;
                if found {
                    assert(nc =~= before.child@.update(j as int, node));
                } else {
                    assert(nc =~= before.child@.insert(j as int, node));
                }
                assert(self.children_sorted()) by {
                    assert forall|a: int, b: int| 0 <= a < b < self.child.len() implies
                        (#[trigger] self.child[a].ch as int) < (#[trigger] self.child[b].ch as int) by {
                        if found {
                            if a != j && b != j {
                                assert(self.child[a] == before.child[a]);
                                assert(self.child[b] == before.child[b]);
                            } else if a == j {
                                assert(self.child[b] == before.child[b]);
                                assert((before.child[a].ch as int) < (before.child[b].ch as int));
                            } else {
                                assert(self.child[a] == before.child[a]);
                                assert((before.child[a].ch as int) < (before.child[b].ch as int));
                            }
                        } else {
                            if b < j {
                                assert(self.child[a] == before.child[a]);
                                assert(self.child[b] == before.child[b]);
                            } else if b == j {
                                assert(self.child[a] == before.child[a]);
                            } else if a < j {
                                assert(self.child[a] == before.child[a]);
                                assert(self.child[b] == before.child[b - 1]);
                            } else if a == j {
                                assert(self.child[b] == before.child[b - 1]);
                                assert((before.child[j as int].ch as int) != (c as int));
                            } else {
                                assert(self.child[a] == before.child[a - 1]);
                                assert(self.child[b] == before.child[b - 1]);
                            }
                        }
                    }
                }
                assert forall|m: int| 0 <= m < self.child.len() implies
                    #[trigger] self.child[m].wf(path.push(self.child[m].ch)) by {
                    if m == j {
                        assert(self.child[m] == node);
                    } else if found || m < j {
                        assert(self.child[m] == before.child[m]);
                        before.lemma_child_wf(path, 0, m);
                    } else {
                        assert(self.child[m] == before.child[m - 1]);
                        before.lemma_child_wf(path, 0, m - 1);
                    }
                }
                self.lemma_children_wf(path, 0);
                assert forall|k: Seq<char>|
                    #[trigger] self.lookup(k) == (if k == target { Some(rec) } else { before.lookup(k) }) by {
                    if k.len() > 0 {
                        if k[0] == c {
                            self.lemma_lookup_at(j as int, k);
                            assert(target[0] == c);
                            assert(target.drop_first() =~= key@.subrange(pos + 1, key.len() as int));
                            if k == target {
                            } else {
                                assert(k.drop_first() != target.drop_first()) by {
                                    if k.drop_first() == target.drop_first() {
                                        assert forall|q: int| 0 <= q < k.len() implies k[q] == target[q] by {
                                            if q > 0 {
                                                assert(k[q] == k.drop_first()[q - 1]);
                                                assert(target[q] == target.drop_first()[q - 1]);
                                            }
                                        }
                                        assert(k =~= target);
                                    }
                                }
                                if found {
                                    before.lemma_lookup_at(j as int, k);
                                } else {
                                    before.lemma_lookup_absent(k);
                                }
                            }
                        } else {
                            assert(k != target);
                            if exists|m: int| 0 <= m < before.child.len() && #[trigger] before.child[m].ch == k[0] {
                                let m = choose|m: int| 0 <= m < before.child.len() && #[trigger] before.child[m].ch == k[0];
                                before.lemma_lookup_at(m, k);
                                if found || m < j {
                                    assert(self.child[m] == before.child[m]);
                                    self.lemma_lookup_at(m, k);
                                } else {
                                    assert(self.child[m + 1] == before.child[m]);
                                    self.lemma_lookup_at(m + 1, k);
                                }
                            } else {
                                assert forall|m: int| 0 <= m < self.child.len() implies #[trigger] self.child[m].ch != k[0] by {
                                    if m == j {
                                    } else if found || m < j {
                                        assert(self.child[m] == before.child[m]);
                                    } else {
                                        assert(self.child[m] == before.child[m - 1]);
                                    }
                                }
                                self.lemma_lookup_absent(k);
                            }
                        }
                    } else {
                        assert(k != target);
                    }
                }
            }
        }
    }

    /// Clears the record at the node that `key[pos..]` leads to from this
    /// one, if there is such a node. Nodes stay, even where nothing is left
    /// below them.
    pub(crate) fn delete_at(&mut self, key: &Vec<char>, pos: usize)
        requires
            old(self).wf(key@.subrange(0, pos as int)),
            pos <= key.len(),
        ensures
            final(self).wf(key@.subrange(0, pos as int)),
            final(self).ch == old(self).ch,
            forall|k: Seq<char>|
                #[trigger] final(self).lookup(k) == if k == key@.subrange(pos as int, key.len() as int) {
                    None
                } else {
                    old(self).lookup(k)
                },
        decreases key.len() - pos,
    {
        let ghost path = key@.subrange(0, pos as int);
        let ghost target = key@.subrange(pos as int, key.len() as int);
        let ghost before = *self;
        if pos == key.len() {
            self.contact_details = None;
            proof {
                assert forall|m: int| 0 <= m < self.child.len() implies
                    #[trigger] self.child[m].wf(path.push(self.child[m].ch)) by {
                    before.lemma_child_wf(path, 0, m);
                }
                self.lemma_children_wf(path, 0);
                assert forall|k: Seq<char>|
                    #[trigger] self.lookup(k) == (if k == target { None } else { before.lookup(k) }) by {
                    if k.len() == 0 {
                        assert(k =~= target);
                    }
                }
            }
        } else {
            let c = key[pos];
            let j = self.child_position(c);
            assert(target[0] == c);
            if j < self.child.len() && self.child[j].ch == c {
                proof { before.lemma_child_wf(path, 0, j as int); }
                let mut node = self.child.remove(j);
                assert(key@.subrange(0, pos + 1) =~= path.push(c));
                node.delete_at(key, pos + 1);
                self.child.insert(j, node);
                proof {
                    assert(self.child@ =~= before.child@.update(j as int, node));
                    assert forall|m: int| 0 <= m < self.child.len() implies
                        #[trigger] self.child[m].wf(path.push(self.child[m].ch)) by {
                        if m != j {
                            before.lemma_child_wf(path, 0, m);
                        }
                    }
                    self.lemma_children_wf(path, 0);
                    assert(self.children_sorted()) by {
                        assert forall|a: int, b: int| 0 <= a < b < self.child.len() implies
                            (#[trigger] self.child[a].ch as int) < (#[trigger] self.child[b].ch as int) by {
                            assert((before.child[a].ch as int) < (before.child[b].ch as int));
                        }
                    }
                    assert(target.drop_first() =~= key@.subrange(pos + 1, key.len() as int));
                    assert forall|k: Seq<char>|
                        #[trigger] self.lookup(k) == (if k == target { None } else { before.lookup(k) }) by {
                        if k.len() > 0 {
                            if k[0] == c {
                                self.lemma_lookup_at(j as int, k);
                                before.lemma_lookup_at(j as int, k);
                                if k != target {
                                    assert(k.drop_first() != target.drop_first()) by {
                                        if k.drop_first() == target.drop_first() {
                                            assert forall|q: int| 0 <= q < k.len() implies k[q] == target[q] by {
                                                if q > 0 {
                                                    assert(k[q] == k.drop_first()[q - 1]);
                                                    assert(target[q] == target.drop_first()[q - 1]);
                                                }
                                            }
                                            assert(k =~= target);
                                        }
                                    }
                                }
                            } else {
                                assert(k != target);
                                if exists|m: int| 0 <= m < before.child.len() && #[trigger] before.child[m].ch == k[0] {
                                    let m = choose|m: int| 0 <= m < before.child.len() && #[trigger] before.child[m].ch == k[0];
                                    before.lemma_lookup_at(m, k);
                                    self.lemma_lookup_at(m, k);
                                } else {
                                    self.lemma_lookup_absent(k);
                                }
                            }
                        } else {
                            assert(k != target);
                        }
                    }
                }
            } else {
                proof {
                    assert forall|m: int| 0 <= m < self.child.len() implies #[trigger] self.child[m].ch != target[0] by {
                        if m > j {
                            assert((self.child[j as int].ch as int) < (self.child[m].ch as int));
                        }
                    }
                    self.lemma_lookup_absent(target);
                }
            }
        }
    }

    /// Follows `query` down from this node, the root of a trie.
    pub(crate) fn descend<'a>(&'a self, query: &Vec<char>) -> (r: Option<&'a TrieNode>)
        requires
            self.wf(Seq::empty()),
        ensures
            match r {
                Some(n) => n.wf(query@) && forall|k: Seq<char>| #[trigger] n.lookup(k) == self.lookup(query@ + k),
                None => forall|k: Seq<char>| #[trigger] self.lookup(query@ + k) is None,
            },
    {
        let mut cur: &TrieNode = self;
        let mut i: usize = 0;
        assert forall|k: Seq<char>| #[trigger] cur.lookup(k) == self.lookup(query@.subrange(0, 0) + k) by {
            assert(query@.subrange(0, 0) + k =~= k);
        }
        assert(query@.subrange(0, 0) =~= Seq::<char>::empty());
        while i < query.len()
            invariant
                i <= query.len(),
                cur.wf(query@.subrange(0, i as int)),
                forall|k: Seq<char>| #[trigger] cur.lookup(k) == self.lookup(query@.subrange(0, i as int) + k),
            decreases query.len() - i,
        {
            let c = query[i];
            let ghost p = query@.subrange(0, i as int);
            let j = cur.child_position(c);
            if j < cur.child.len() && cur.child[j].ch == c {
                proof {
                    cur.lemma_child_wf(p, 0, j as int);
                    assert(query@.subrange(0, i + 1) =~= p.push(c));
                    assert forall|k: Seq<char>|
                        #[trigger] cur.child[j as int].lookup(k) == self.lookup(query@.subrange(0, i + 1) + k) by {
                        let k1 = seq![c] + k;
                        assert(k1.drop_first() =~= k);
                        cur.lemma_lookup_at(j as int, k1);
                        assert(p + k1 =~= query@.subrange(0, i + 1) + k);
                    }
                }
                cur = &cur.child[j];
                i = i + 1;
            } else {
                proof {
                    assert forall|k: Seq<char>| #[trigger] self.lookup(query@ + k) is None by {
                        let k1 = query@.subrange(i as int, query@.len() as int) + k;
                        assert(p + k1 =~= query@ + k);
                        assert forall|m: int| 0 <= m < cur.child.len() implies #[trigger] cur.child[m].ch != k1[0] by {
                            if m > j {
                                assert((cur.child[j as int].ch as int) < (cur.child[m].ch as int));
                            }
                        }
                        cur.lemma_lookup_absent(k1);
                    }
                }
                return None;
            }
        }
        proof {
            assert(query@.subrange(0, i as int) =~= query@);
        }
        Some(cur)
    }

    /// Where the children with a character below `c` end.
    pub(crate) fn child_position(&self, c: char) -> (r: usize)
        requires
            self.children_sorted(),
        ensures
            r <= self.child.len(),
            forall|m: int| 0 <= m < r ==> (#[trigger] self.child[m].ch as int) < (c as int),
            forall|m: int| r <= m < self.child.len() ==> (#[trigger] self.child[m].ch as int) >= (c as int),
    {
        let mut j: usize = 0;
        while j < self.child.len() && self.child[j].ch < c
            invariant
                j <= self.child.len(),
                forall|m: int| 0 <= m < j ==> (#[trigger] self.child[m].ch as int) < (c as int),
            decreases self.child.len() - j,
        {
            j = j + 1;
        }
        proof {
            if j < self.child.len() {
                assert forall|m: int| j <= m < self.child.len() implies (#[trigger] self.child[m].ch as int) >= (c as int) by {
                    if m > j {
                        assert((self.child[j as int].ch as int) < (self.child[m].ch as int));
                    }
                }
            }
        }
        j
    }
}

/// Appends every record at or below `start`, in alphabetical order.
pub(crate) fn get_all_contacts(start: &TrieNode, container: &mut Vec<ContactDetails>)
    ensures
        final(container)@ == old(container)@ + start.collect(),
    decreases start,
{
    match &start.contact_details {
        Some(cd) => container.push(cd.copied()),
        None => {},
    }
    let children = start.get_child();
    let mut i: usize = 0;
    while i < children.len()
        invariant
            children == &start.child,
            i <= children.len(),
            container@ + start.collect_children(i as int) == old(container)@ + start.collect(),
        decreases children.len() - i,
    {
        let ghost before = container@;
        get_all_contacts(&children[i], container);
        assert(before + start.collect_children(i as int)
            =~= container@ + start.collect_children(i + 1));
        i = i + 1;
    }
}

} // verus!
