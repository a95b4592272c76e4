//! Lexicographic order on strings, and strictly sorted string lists: the
//! de-duplicated, ordered form in which resolved paths are handed on.
use vstd::prelude::*;
use crate::text::{chars_of, views};

verus! {

/// `a` comes strictly before `b` in lexicographic order of code points.
pub open spec fn lex_lt(a: Seq<char>, b: Seq<char>) -> bool
    decreases a.len(),
{
    if a.len() == 0 {
        b.len() > 0
    } else if b.len() == 0 {
        false
    } else if a[0] != b[0] {
        a[0] < b[0]
    } else {
        lex_lt(a.drop_first(), b.drop_first())
    }
}

/// Each element comes strictly before every later one.
pub open spec fn strictly_sorted(s: Seq<Seq<char>>) -> bool {
    forall|i: int, j: int| 0 <= i < j < s.len() ==> lex_lt(#[trigger] s[i], #[trigger] s[j])
}

pub proof fn lemma_lex_irreflexive(a: Seq<char>)
    ensures
        !lex_lt(a, a),
    decreases a.len(),
{
    if a.len() > 0 {
        lemma_lex_irreflexive(a.drop_first());
    }
}

pub proof fn lemma_lex_transitive(a: Seq<char>, b: Seq<char>, c: Seq<char>)
    requires
        lex_lt(a, b),
        lex_lt(b, c),
    ensures
        lex_lt(a, c),
    decreases a.len(),
{
    if a.len() > 0 && b.len() > 0 && c.len() > 0 && a[0] == b[0] && b[0] == c[0] {
        lemma_lex_transitive(a.drop_first(), b.drop_first(), c.drop_first());
    }
}

pub proof fn lemma_lex_total(a: Seq<char>, b: Seq<char>)
    ensures
        a == b || lex_lt(a, b) || lex_lt(b, a),
    decreases a.len(),
{
    if a.len() > 0 && b.len() > 0 {
        if a[0] == b[0] {
            lemma_lex_total(a.drop_first(), b.drop_first());
            if a.drop_first() == b.drop_first() {
                assert(a =~= seq![a[0]] + a.drop_first());
                assert(b =~= seq![b[0]] + b.drop_first());
            }
        } else {
        }
    } else if a.len() == 0 && b.len() == 0 {
        assert(a =~= b);
    }
}

pub proof fn lemma_lex_asymmetric(a: Seq<char>, b: Seq<char>)
    requires
        lex_lt(a, b),
    ensures
        !lex_lt(b, a),
{
    if lex_lt(b, a) {
        lemma_lex_transitive(a, b, a);
        lemma_lex_irreflexive(a);
    }
}

/// Whether `a` comes strictly before `b`.
pub fn lex_less(a: &str, b: &str) -> (r: bool)
    ensures
        r == lex_lt(a@, b@),
{
    let x = chars_of(a);
    let y = chars_of(b);
    let mut i: usize = 0;
    assert(a@.subrange(0, a@.len() as int) =~= a@);
    assert(b@.subrange(0, b@.len() as int) =~= b@);
    while i < x.len() && i < y.len() && x[i] == y[i]
        invariant
            x@ == a@,
            y@ == b@,
            i <= x@.len(),
            i <= y@.len(),
            lex_lt(a@, b@) == lex_lt(a@.subrange(i as int, a@.len() as int), b@.subrange(i as int, b@.len() as int)),
        decreases x.len() - i,
    {
        proof {
            let sa = a@.subrange(i as int, a@.len() as int);
            let sb = b@.subrange(i as int, b@.len() as int);
            assert(sa.drop_first() =~= a@.subrange(i + 1, a@.len() as int));
            assert(sb.drop_first() =~= b@.subrange(i + 1, b@.len() as int));
        }
        i = i + 1;
    }
    let ghost sa = a@.subrange(i as int, a@.len() as int);
    let ghost sb = b@.subrange(i as int, b@.len() as int);
    if i == x.len() {
        i < y.len()
    } else if i == y.len() {
        false
    } else {
        assert(sa[0] == x@[i as int] && sb[0] == y@[i as int]);
        x[i] < y[i]
    }
}

/// Two strictly sorted lists that hold the same strings are equal.
pub proof fn lemma_sorted_unique(s: Seq<Seq<char>>, t: Seq<Seq<char>>)
    requires
        strictly_sorted(s),
        strictly_sorted(t),
        s.to_set() == t.to_set(),
    ensures
        s == t,
    decreases s.len(),
{
    if s.len() == 0 {
        if t.len() > 0 {
            assert(t.to_set().contains(t[0]));
        }
        assert(s =~= t);
    } else if t.len() == 0 {
        assert(s.to_set().contains(s[0]));
    } else {
        // The first elements are both the least element of the shared set.
        assert(t.to_set().contains(s[0]));
        assert(s.to_set().contains(t[0]));
        let i = choose|i: int| 0 <= i < t.len() && t[i] == s[0];
        let j = choose|j: int| 0 <= j < s.len() && s[j] == t[0];
        if i > 0 {
            assert(lex_lt(t[0], t[i]));
            if j > 0 {
                assert(lex_lt(s[0], s[j]));
                lemma_lex_asymmetric(s[0], t[0]);
            } else {
                lemma_lex_irreflexive(t[0]);
            }
        }
        assert(s[0] == t[0]);
        let s1 = s.drop_first();
        let t1 = t.drop_first();
        assert forall|x: Seq<char>| s1.to_set().contains(x) implies t1.to_set().contains(x) by {
            let a = choose|a: int| 0 <= a < s1.len() && s1[a] == x;
            assert(s.to_set().contains(x));
            assert(t.to_set().contains(x));
            let b = choose|b: int| 0 <= b < t.len() && t[b] == x;
            assert(lex_lt(s[0], s[a + 1]));
            if b == 0 {
                lemma_lex_irreflexive(x);
            }
            assert(t1[b - 1] == x);
        }
        assert forall|x: Seq<char>| t1.to_set().contains(x) implies s1.to_set().contains(x) by {
            let a = choose|a: int| 0 <= a < t1.len() && t1[a] == x;
            assert(t.to_set().contains(x));
            assert(s.to_set().contains(x));
            let b = choose|b: int| 0 <= b < s.len() && s[b] == x;
            assert(lex_lt(t[0], t[a + 1]));
            if b == 0 {
                lemma_lex_irreflexive(x);
            }
            assert(s1[b - 1] == x);
        }
        assert(s1.to_set() =~= t1.to_set());
        lemma_sorted_unique(s1, t1);
        assert(s =~= seq![s[0]] + s1);
        assert(t =~= seq![t[0]] + t1);
    }
}

/// Adds `x` to a strictly sorted list, in its place, unless it is there.
pub fn insert_sorted(v: &mut Vec<String>, x: String)
    requires
        strictly_sorted(views(old(v)@)),
    ensures
        strictly_sorted(views(final(v)@)),
        views(final(v)@).to_set() == views(old(v)@).to_set().insert(x@),
{
    let ghost s = views(v@);
    let mut i: usize = 0;
    while i < v.len() && lex_less(v[i].as_str(), x.as_str())
        invariant
            s == views(v@),
            strictly_sorted(s),
            i <= v@.len(),
            forall|j: int| 0 <= j < i ==> lex_lt(#[trigger] s[j], x@),
        decreases v.len() - i,
    {
        assert(s[i as int] == v@[i as int]@);
        i = i + 1;
    }
    if i < v.len() && v[i] == x {
        assert(s[i as int] == x@);
        assert(s.to_set().insert(x@) =~= s.to_set());
        return;
    }
    proof {
        if i < v@.len() {
            assert(s[i as int] == v@[i as int]@);
            lemma_lex_total(s[i as int], x@);
        }
    }
    let ghost xv = x@;
    v.insert(i, x);
    proof {
        let t = views(v@);
        assert(t =~= s.insert(i as int, xv));
        assert forall|a: int, b: int| 0 <= a < b < t.len() implies lex_lt(#[trigger] t[a], #[trigger] t[b]) by {
            if b < i {
            } else if b == i {
            } else if a < i {
                assert(lex_lt(s[a], xv));
                assert(lex_lt(xv, s[b - 1])) by {
                    if b - 1 > i {
                        assert(lex_lt(s[i as int], s[b - 1]));
                        lemma_lex_transitive(xv, s[i as int], s[b - 1]);
                    }
                }
                lemma_lex_transitive(s[a], xv, s[b - 1]);
            } else if a == i {
                if b - 1 > i {
                    assert(lex_lt(s[i as int], s[b - 1]));
                    lemma_lex_transitive(xv, s[i as int], s[b - 1]);
                }
            } else {
            }
        }
        assert forall|y: Seq<char>| t.to_set().contains(y) <==> s.to_set().insert(xv).contains(y) by {
            if t.to_set().contains(y) {
                let a = choose|a: int| 0 <= a < t.len() && t[a] == y;
                if a < i {
                    assert(s[a] == y);
                } else if a > i {
                    assert(s[a - 1] == y);
                }
            }
            if s.to_set().contains(y) {
                let a = choose|a: int| 0 <= a < s.len() && s[a] == y;
                if a < i {
                    assert(t[a] == y);
                } else {
                    assert(t[a + 1] == y);
                }
            }
            if y == xv {
                assert(t[i as int] == y);
            }
        }
        assert(t.to_set() =~= s.to_set().insert(xv));
    }
}

/// The strings of `items` in lexicographic order, each once.
pub fn sorted_unique(items: &Vec<String>) -> (r: Vec<String>)
    ensures
        strictly_sorted(views(r@)),
        views(r@).to_set() == views(items@).to_set(),
{
    let mut r: Vec<String> = Vec::new();
    let mut i: usize = 0;
    assert(views(r@).to_set() =~= views(items@).subrange(0, 0).to_set());
    while i < items.len()
        invariant
            i <= items@.len(),
            strictly_sorted(views(r@)),
            views(r@).to_set() == views(items@).subrange(0, i as int).to_set(),
        decreases items.len() - i,
    {
        insert_sorted(&mut r, items[i].clone());
        proof {
            let a = views(items@).subrange(0, i as int);
            let b = views(items@).subrange(0, i + 1);
            assert(b =~= a.push(items@[i as int]@));
            assert(b.to_set() =~= a.to_set().insert(items@[i as int]@)) by {
                assert forall|y: Seq<char>| b.to_set().contains(y) <==> a.to_set().insert(items@[i as int]@).contains(y) by {
                    if b.to_set().contains(y) {
                        let k = choose|k: int| 0 <= k < b.len() && b[k] == y;
                        if k < i {
                            assert(a[k] == y);
                        }
                    }
                    if a.to_set().contains(y) {
                        let k = choose|k: int| 0 <= k < a.len() && a[k] == y;
                        assert(b[k] == y);
                    }
                    if y == items@[i as int]@ {
                        assert(b[i as int] == y);
                    }
                }
            }
        }
        i = i + 1;
    }
    assert(views(items@).subrange(0, i as int) =~= views(items@));
    r
}

} // verus!
