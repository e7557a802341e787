//! Names listed once each in string order, as a sorted map iterates its keys.

use vstd::prelude::*;
use crate::materials::views_of;
use crate::reclaim::{
    str_less, str_lt, lemma_str_lt_asymmetric, lemma_str_lt_irreflexive, lemma_str_lt_total, lemma_str_lt_transitive,
};
use crate::text::str_eq;

verus! {

/// Each name sorts strictly before every later one.
pub open spec fn names_sorted(s: Seq<Seq<char>>) -> bool {
    forall|a: int, b: int| 0 <= a < b < s.len() ==> str_lt(s[a], s[b])
}

/// The names of `set`, each once, in string order.
pub open spec fn listing(set: Set<Seq<char>>) -> Seq<Seq<char>> {
    choose|s: Seq<Seq<char>>| names_sorted(s) && forall|x: Seq<char>| #[trigger] s.contains(x) <==> set.contains(x)
}

proof fn lemma_sorted_same(a: Seq<Seq<char>>, b: Seq<Seq<char>>)
    requires
        names_sorted(a),
        names_sorted(b),
        forall|x: Seq<char>| #[trigger] a.contains(x) <==> b.contains(x),
    ensures
        a == b,
    decreases a.len(),
{
    if a.len() == 0 {
        if b.len() > 0 {
            assert(b.contains(b[0]));
            assert(a.contains(b[0]));
        }
        assert(a =~= b);
    } else {
        assert(a.contains(a[0]));
        assert(b.contains(a[0]));
        assert(b.contains(b[0]));
        assert(a.contains(b[0]));
        let ja = choose|j: int| 0 <= j < a.len() && a[j] == b[0];
        let jb = choose|j: int| 0 <= j < b.len() && b[j] == a[0];
        assert(a[0] == b[0]) by {
            if a[0] != b[0] {
                assert(str_lt(a[0], a[ja]));
                assert(str_lt(b[0], b[jb]));
                lemma_str_lt_asymmetric(a[0], b[0]);
            }
        }
        let ta = a.drop_first();
        let tb = b.drop_first();
        assert forall|x: Seq<char>| #[trigger] ta.contains(x) <==> tb.contains(x) by {
            if ta.contains(x) {
                let i = choose|i: int| 0 <= i < ta.len() && ta[i] == x;
                assert(a[i + 1] == x);
                assert(a.contains(x));
                assert(b.contains(x));
                let j = choose|j: int| 0 <= j < b.len() && b[j] == x;
                if j == 0 {
                    assert(str_lt(a[0], a[i + 1]));
                    lemma_str_lt_irreflexive(x);
                }
                assert(tb[j - 1] == x);
            }
            if tb.contains(x) {
                let i = choose|i: int| 0 <= i < tb.len() && tb[i] == x;
                assert(b[i + 1] == x);
                assert(b.contains(x));
                assert(a.contains(x));
                let j = choose|j: int| 0 <= j < a.len() && a[j] == x;
                if j == 0 {
                    assert(str_lt(b[0], b[i + 1]));
                    lemma_str_lt_irreflexive(x);
                }
                assert(ta[j - 1] == x);
            }
        }
        lemma_sorted_same(ta, tb);
        assert(a =~= seq![a[0]] + ta);
        assert(b =~= seq![b[0]] + tb);
    }
}

/// A sorted list of exactly the names of `set` is its listing.
pub proof fn lemma_listing(s: Seq<Seq<char>>, set: Set<Seq<char>>)
    requires
        names_sorted(s),
        forall|x: Seq<char>| #[trigger] s.contains(x) <==> set.contains(x),
    ensures
        s == listing(set),
{
    let l = listing(set);
    assert(names_sorted(l) && forall|x: Seq<char>| #[trigger] l.contains(x) <==> set.contains(x));
    lemma_sorted_same(s, l);
}

/// Put `name` into its place in a sorted list, unless it is there already.
pub fn insert_name(out: &mut Vec<String>, name: &str)
    requires
        names_sorted(views_of(old(out)@)),
    ensures
        names_sorted(views_of(final(out)@)),
        forall|x: Seq<char>| #[trigger] views_of(final(out)@).contains(x) <==> (views_of(old(out)@).contains(x) || x == name@),
{
    let ghost before = views_of(out@);
    let mut p: usize = 0;
    while p < out.len() && str_less(out[p].as_str(), name)
        invariant
            p <= out@.len(),
            before == views_of(out@),
            forall|k: int| 0 <= k < p ==> str_lt(#[trigger] before[k], name@),
        decreases out@.len() - p,
    {
        p = p + 1;
    }
    if p < out.len() && str_eq(out[p].as_str(), name) {
        proof {
            assert(before[p as int] == name@);
            assert forall|x: Seq<char>| #[trigger] views_of(out@).contains(x) <==> (before.contains(x) || x == name@) by {
                if x == name@ {
                    assert(before[p as int] == x);
                }
            }
        }
        return;
    }
    proof {
        if p < before.len() {
            assert(!str_lt(before[p as int], name@));
            assert(before[p as int] != name@);
            lemma_str_lt_total(before[p as int], name@);
        }
    }
    out.insert(p, name.to_owned());
    proof {
        let after = views_of(out@);
        assert(after.len() == before.len() + 1);
        assert forall|k: int| 0 <= k < after.len() implies #[trigger] after[k] == (if k < p {
            before[k]
        } else if k == p {
            name@
        } else {
            before[k - 1]
        }) by {}
        assert forall|a: int, b: int| 0 <= a < b < after.len() implies str_lt(after[a], after[b]) by {
            if b < p {
                assert(after[a] == before[a] && after[b] == before[b]);
            } else if b == p {
                assert(after[a] == before[a]);
            } else if a == p {
                assert(after[b] == before[b - 1]);
                if b - 1 > p {
                    assert(str_lt(before[p as int], before[b - 1]));
                    lemma_str_lt_transitive(name@, before[p as int], before[b - 1]);
                }
            } else if a < p {
                assert(after[a] == before[a]);
                assert(after[b] == before[b - 1]);
                assert(str_lt(before[a], name@));
                if b - 1 > p {
                    assert(str_lt(name@, before[p as int]));
                    assert(str_lt(before[p as int], before[b - 1]));
                    lemma_str_lt_transitive(name@, before[p as int], before[b - 1]);
                }
                lemma_str_lt_transitive(before[a], name@, before[b - 1]);
            } else {
                assert(after[a] == before[a - 1]);
                assert(after[b] == before[b - 1]);
            }
        }
        assert forall|x: Seq<char>| #[trigger] after.contains(x) <==> (before.contains(x) || x == name@) by {
            if after.contains(x) {
                let j = choose|j: int| 0 <= j < after.len() && after[j] == x;
                if j < p {
                    assert(before[j] == x);
                } else if j > p {
                    assert(before[j - 1] == x);
                }
            }
            if before.contains(x) {
                let j = choose|j: int| 0 <= j < before.len() && before[j] == x;
                if j < p {
                    assert(after[j] == x);
                } else {
                    assert(after[j + 1] == x);
                }
            }
            if x == name@ {
                assert(after[p as int] == x);
            }
        }
    }
}

} // verus!
