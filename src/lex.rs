//! Lexicographic order on names, by Unicode scalar value.

use vstd::prelude::*;
use vstd::string::StrSliceExecFns;

verus! {

/// `a` sorts strictly before `b`: characters compare by scalar value and a
/// proper prefix sorts before its extensions.
pub open spec fn name_lt(a: Seq<char>, b: Seq<char>) -> bool
    decreases a.len(),
{
    if a.len() == 0 {
        b.len() > 0
    } else if b.len() == 0 {
        false
    } else if a[0] != b[0] {
        (a[0] as int) < (b[0] as int)
    } else {
        name_lt(a.drop_first(), b.drop_first())
    }
}

/// No name sorts before itself, and of two names at most one sorts first.
pub proof fn lemma_lt_asymmetric(a: Seq<char>, b: Seq<char>)
    ensures
        !(name_lt(a, b) && name_lt(b, a)),
    decreases a.len(),
{
    if a.len() > 0 && b.len() > 0 && a[0] == b[0] {
        lemma_lt_asymmetric(a.drop_first(), b.drop_first());
    }
}

/// Two different names are ordered one way or the other.
pub proof fn lemma_lt_total(a: Seq<char>, b: Seq<char>)
    ensures
        a != b ==> name_lt(a, b) || name_lt(b, a),
    decreases a.len(),
{
    if a.len() > 0 && b.len() > 0 && a[0] == b[0] {
        lemma_lt_total(a.drop_first(), b.drop_first());
        if a.drop_first() == b.drop_first() {
            assert(a =~= seq![a[0]] + a.drop_first());
            assert(b =~= seq![b[0]] + b.drop_first());
        }
    } else if a.len() == 0 && b.len() == 0 {
        assert(a =~= b);
    }
}

/// The order is transitive.
pub proof fn lemma_lt_transitive(a: Seq<char>, b: Seq<char>, c: Seq<char>)
    requires
        name_lt(a, b),
        name_lt(b, c),
    ensures
        name_lt(a, c),
    decreases a.len(),
{
    if a.len() > 0 && b.len() > 0 && c.len() > 0 && a[0] == b[0] && b[0] == c[0] {
        lemma_lt_transitive(a.drop_first(), b.drop_first(), c.drop_first());
    }
}

/// Putting the same prefix in front of two names keeps their order.
pub proof fn lemma_lt_common_prefix(p: Seq<char>, a: Seq<char>, b: Seq<char>)
    ensures
        name_lt(p + a, p + b) == name_lt(a, b),
    decreases p.len(),
{
    if p.len() > 0 {
        assert((p + a).drop_first() =~= p.drop_first() + a);
        assert((p + b).drop_first() =~= p.drop_first() + b);
        lemma_lt_common_prefix(p.drop_first(), a, b);
    }
}

/// A name sorts before every longer name that it is a prefix of.
pub proof fn lemma_prefix_lt(p: Seq<char>, s: Seq<char>)
    requires
        p.is_prefix_of(s),
        p.len() < s.len(),
    ensures
        name_lt(p, s),
{
    let rest = s.subrange(p.len() as int, s.len() as int);
    assert(s =~= p + rest);
    assert(p =~= p + Seq::<char>::empty());
    lemma_lt_common_prefix(p, Seq::<char>::empty(), rest);
}

/// Names that branch off a common prefix at characters `c1 < c2` are
/// ordered as those characters are.
pub proof fn lemma_branch_lt(p: Seq<char>, c1: char, c2: char, a: Seq<char>, b: Seq<char>)
    requires
        p.push(c1).is_prefix_of(a),
        p.push(c2).is_prefix_of(b),
        (c1 as int) < (c2 as int),
    ensures
        name_lt(a, b),
{
    let ra = a.subrange(p.len() as int, a.len() as int);
    let rb = b.subrange(p.len() as int, b.len() as int);
    assert(a.subrange(0, p.len() as int + 1) =~= p.push(c1));
    assert(b.subrange(0, p.len() as int + 1) =~= p.push(c2));
    assert(a[p.len() as int] == a.subrange(0, p.len() as int + 1)[p.len() as int]);
    assert(b[p.len() as int] == b.subrange(0, p.len() as int + 1)[p.len() as int]);
    assert forall|j: int| 0 <= j < p.len() implies a[j] == p[j] && b[j] == p[j] by {
        assert(a[j] == a.subrange(0, p.len() as int + 1)[j]);
        assert(b[j] == b.subrange(0, p.len() as int + 1)[j]);
    }
    assert(a =~= p + ra);
    assert(b =~= p + rb);
    assert(ra[0] == c1);
    assert(rb[0] == c2);
    lemma_lt_common_prefix(p, ra, rb);
}

/// The characters of a string, in order.
pub fn chars_of(s: &String) -> (r: Vec<char>)
    ensures
        r@ == s@,
{
    let t = s.as_str();
    let n = t.unicode_len();
    let mut r: Vec<char> = Vec::new();
    let mut i: usize = 0;
    while i < n
        invariant
            n == t@.len(),
            t@ == s@,
            i <= n,
            r@ == t@.subrange(0, i as int),
        decreases n - i,
    {
        let c = t.get_char(i);
        r.push(c);
        i = i + 1;
        assert(r@ =~= t@.subrange(0, i as int));
    }
    assert(r@ =~= t@);
    r
}

/// Whether `a` sorts strictly before `b`.
pub fn chars_lt(a: &Vec<char>, b: &Vec<char>) -> (r: bool)
    ensures
        r == name_lt(a@, b@),
{
    let mut i: usize = 0;
    assert(a@.subrange(0, a@.len() as int) =~= a@);
    assert(b@.subrange(0, b@.len() as int) =~= b@);
    while i < a.len() && i < b.len() && a[i] == b[i]
        invariant
            i <= a.len(),
            i <= b.len(),
            name_lt(a@, b@) == name_lt(
                a@.subrange(i as int, a@.len() as int),
                b@.subrange(i as int, b@.len() as int),
            ),
        decreases a.len() - i,
    {
        let ghost sa = a@.subrange(i as int, a@.len() as int);
        let ghost sb = b@.subrange(i as int, b@.len() as int);
        assert(sa.drop_first() =~= a@.subrange(i + 1, a@.len() as int));
        assert(sb.drop_first() =~= b@.subrange(i + 1, b@.len() as int));
        i = i + 1;
    }
    if i == a.len() {
        i < b.len()
    } else if i == b.len() {
        false
    } else {
        a[i] < b[i]
    }
}

} // verus!
