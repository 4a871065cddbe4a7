//! The order of texts: character by character, as `String`'s own order
//! (UTF-8 byte order and character order agree).

use vstd::prelude::*;
use crate::id::Id;
use crate::pattern::chars_of;

verus! {

/// Whether `a` comes strictly before `b` in lexicographic order.
pub open spec fn seq_lt(a: Seq<char>, b: Seq<char>) -> bool
    decreases a.len(),
{
    if a.len() == 0 {
        b.len() > 0
    } else if b.len() == 0 {
        false
    } else if a[0] < b[0] {
        true
    } else if a[0] == b[0] {
        seq_lt(a.drop_first(), b.drop_first())
    } else {
        false
    }
}

pub proof fn lemma_lt_irreflexive(a: Seq<char>)
    ensures
        !seq_lt(a, a),
    decreases a.len(),
{
    if a.len() > 0 {
        lemma_lt_irreflexive(a.drop_first());
    }
}

pub proof fn lemma_lt_asymmetric(a: Seq<char>, b: Seq<char>)
    requires
        seq_lt(a, b),
    ensures
        !seq_lt(b, a),
    decreases a.len(),
{
    if a.len() > 0 && b.len() > 0 && a[0] == b[0] {
        lemma_lt_asymmetric(a.drop_first(), b.drop_first());
    }
}

pub proof fn lemma_lt_transitive(a: Seq<char>, b: Seq<char>, c: Seq<char>)
    requires
        seq_lt(a, b),
        seq_lt(b, c),
    ensures
        seq_lt(a, c),
    decreases a.len(),
{
    if a.len() > 0 && b.len() > 0 && c.len() > 0 && a[0] == b[0] && b[0] == c[0] {
        lemma_lt_transitive(a.drop_first(), b.drop_first(), c.drop_first());
    }
}

pub proof fn lemma_lt_total(a: Seq<char>, b: Seq<char>)
    ensures
        a == b || seq_lt(a, b) || seq_lt(b, a),
    decreases a.len(),
{
    if a.len() > 0 && b.len() > 0 {
        if a[0] == b[0] {
            lemma_lt_total(a.drop_first(), b.drop_first());
            if a.drop_first() == b.drop_first() {
                assert(a =~= seq![a[0]] + a.drop_first());
                assert(b =~= seq![b[0]] + b.drop_first());
            }
        } else {
        }
    } else if a.len() == 0 && b.len() == 0 {
        assert(a =~= b);
    }
}

/// Whether `a` comes strictly before `b`.
pub fn text_lt(a: &str, b: &str) -> (r: bool)
    ensures
        r == seq_lt(a@, b@),
{
    let x = chars_of(a);
    let y = chars_of(b);
    let mut i: usize = 0;
    assert(x@.skip(0) =~= x@);
    assert(y@.skip(0) =~= y@);
    while i < x.len() && i < y.len() && x[i] == y[i]
        invariant
            i <= x@.len(),
            i <= y@.len(),
            seq_lt(x@, y@) == seq_lt(x@.skip(i as int), y@.skip(i as int)),
        decreases x.len() - i,
    {
        proof {
            assert(x@.skip(i as int).drop_first() =~= x@.skip(i + 1));
            assert(y@.skip(i as int).drop_first() =~= y@.skip(i + 1));
        }
        i += 1;
    }
    if i == x.len() {
        i < y.len()
    } else if i == y.len() {
        false
    } else {
        x[i] < y[i]
    }
}

/// Whether two texts are the same.
pub fn text_eq(a: &str, b: &str) -> (r: bool)
    ensures
        r == (a@ == b@),
{
    proof {
        lemma_lt_total(a@, b@);
        lemma_lt_irreflexive(a@);
    }
    !text_lt(a, b) && !text_lt(b, a)
}

/// Whether a sequence of texts is strictly increasing.
pub open spec fn strictly_sorted(s: Seq<Seq<char>>) -> bool {
    forall|i: int, j: int| 0 <= i < j < s.len() ==> seq_lt(s[i], s[j])
}

pub open spec fn ids_view(s: Seq<Id>) -> Seq<Seq<char>> {
    s.map_values(|i: Id| i@)
}

/// Inserts an id into a strictly increasing list, unless it is there already.
pub fn insert_sorted_unique(v: &mut Vec<Id>, x: &Id)
    requires
        strictly_sorted(ids_view(old(v)@)),
    ensures
        strictly_sorted(ids_view(final(v)@)),
        ids_view(final(v)@).to_set() == ids_view(old(v)@).to_set().insert(x@),
{
    let ghost s0 = ids_view(v@);
    let mut i: usize = 0;
    while i < v.len() && text_lt(v[i].as_str(), x.as_str())
        invariant
            i <= v@.len(),
            ids_view(v@) == s0,
            forall|k: int| 0 <= k < i ==> seq_lt(s0[k], x@),
        decreases v.len() - i,
    {
        i += 1;
    }
    if i < v.len() && v[i].same(x) {
        proof {
            assert(s0[i as int] == x@);
            assert(s0.to_set().insert(x@) =~= s0.to_set());
        }
        return;
    }
    proof {
        if i < v@.len() {
            lemma_lt_total(s0[i as int], x@);
        }
    }
    v.insert(i, x.copy());
    proof {
        let s1 = ids_view(v@);
        assert(s1 =~= s0.take(i as int).push(x@) + s0.skip(i as int));
        assert forall|a: int, b: int| 0 <= a < b < s1.len() implies seq_lt(s1[a], s1[b]) by {
            if b < i {
            } else if a < i && b == i {
            } else if a < i && b > i {
                assert(s1[a] == s0[a]);
                assert(s1[b] == s0[b - 1]);
            } else if a == i {
                assert(s1[b] == s0[b - 1]);
                if b - 1 > i {
                    assert(seq_lt(s0[i as int], s0[b - 1]));
                    lemma_lt_transitive(x@, s0[i as int], s0[b - 1]);
                }
            } else {
                assert(s1[a] == s0[a - 1]);
                assert(s1[b] == s0[b - 1]);
            }
        }
        assert(s1.to_set() =~= s0.to_set().insert(x@)) by {
            assert forall|e: Seq<char>| s1.to_set().contains(e) implies s0.to_set().insert(x@).contains(e) by {
                let k = choose|k: int| 0 <= k < s1.len() && s1[k] == e;
                if k < i {
                    assert(s0[k] == e);
                } else if k > i {
                    assert(s0[k - 1] == e);
                }
            }
            assert forall|e: Seq<char>| s0.to_set().insert(x@).contains(e) implies s1.to_set().contains(e) by {
                if e == x@ {
                    assert(s1[i as int] == e);
                } else {
                    let k = choose|k: int| 0 <= k < s0.len() && s0[k] == e;
                    if k < i {
                        assert(s1[k] == e);
                    } else {
                        assert(s1[k + 1] == e);
                    }
                }
            }
        }
    }
}

} // verus!
