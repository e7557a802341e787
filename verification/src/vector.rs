//! Material vectors: named material amounts in integer units.
//!
//! A vector maps each material name to a whole number of units. Its
//! abstract view is a finite map from the name's characters to the amount.

use vstd::prelude::*;
use crate::text::str_eq;
use crate::reclaim::{str_lt, str_less, lemma_str_lt_irreflexive, lemma_str_lt_asymmetric, lemma_str_lt_transitive, lemma_str_lt_total};

verus! {

/// Amounts keyed by name. Each name occurs at most once, and the entries
/// are kept in ascending name order, so two vectors with the same amounts
/// hold the same entries in the same order.
#[derive(Debug, PartialEq, Eq)]
pub struct NamedAmounts<V> {
    entries: Vec<(String, V)>,
}

/// Named material amounts in integer units.
pub type MaterialVector = NamedAmounts<u64>;

/// The entries hold pairwise distinct names.
pub open spec fn distinct_names<V>(s: Seq<(String, V)>) -> bool {
    forall|i: int, j: int| 0 <= i < s.len() && 0 <= j < s.len() && i != j ==> s[i].0@ != s[j].0@
}

/// The entries are in strictly ascending name order.
pub open spec fn names_ascending<V>(s: Seq<(String, V)>) -> bool {
    forall|i: int, j: int| 0 <= i < j < s.len() ==> str_lt(#[trigger] s[i].0@, #[trigger] s[j].0@)
}

pub open spec fn has_name<V>(s: Seq<(String, V)>, k: Seq<char>) -> bool {
    exists|i: int| 0 <= i < s.len() && s[i].0@ == k
}

pub open spec fn entries_map<V>(s: Seq<(String, V)>) -> Map<Seq<char>, V> {
    Map::new(
        |k: Seq<char>| has_name(s, k),
        |k: Seq<char>| s[choose|i: int| 0 <= i < s.len() && s[i].0@ == k].1,
    )
}

/// The amount of `k` in a map view, zero where it is absent.
pub open spec fn amt(m: Map<Seq<char>, u64>, k: Seq<char>) -> nat {
    if m.contains_key(k) {
        m[k] as nat
    } else {
        0
    }
}

/// The amount of `k` in a resonance-style view, zero where it is absent.
pub open spec fn amt16(m: Map<Seq<char>, u16>, k: Seq<char>) -> int {
    if m.contains_key(k) {
        m[k] as int
    } else {
        0
    }
}

/// `a + b`, saturating at `u64::MAX`.
pub open spec fn sat_add(a: int, b: int) -> int {
    if a + b > u64::MAX {
        u64::MAX as int
    } else {
        a + b
    }
}

/// `a * b`, saturating at `u64::MAX`.
pub open spec fn sat_mul(a: int, b: int) -> int {
    if a * b > u64::MAX {
        u64::MAX as int
    } else {
        a * b
    }
}

/// Per-material amount after adding `mult` copies of `from` into `into`,
/// each step saturating.
pub open spec fn added_amount(
    into: Map<Seq<char>, u64>,
    from: Map<Seq<char>, u64>,
    mult: int,
    k: Seq<char>,
) -> int {
    if from.contains_key(k) {
        sat_add(amt(into, k) as int, sat_mul(from[k] as int, mult))
    } else {
        amt(into, k) as int
    }
}

/// The view of `into` after adding `mult` copies of `from`, with every zero
/// amount dropped.
pub open spec fn spec_add_vector(
    into: Map<Seq<char>, u64>,
    from: Map<Seq<char>, u64>,
    mult: int,
) -> Map<Seq<char>, u64> {
    Map::new(
        |k: Seq<char>| added_amount(into, from, mult, k) != 0,
        |k: Seq<char>| added_amount(into, from, mult, k) as u64,
    )
}

/// `m` holds no zero amount.
pub open spec fn no_zero(m: Map<Seq<char>, u64>) -> bool {
    forall|k: Seq<char>| m.contains_key(k) ==> m[k] != 0
}

proof fn lemma_unique_index<V>(s: Seq<(String, V)>, i: int, j: int)
    requires
        distinct_names(s),
        0 <= i < s.len(),
        0 <= j < s.len(),
        s[i].0@ == s[j].0@,
    ensures
        i == j,
{
}

proof fn lemma_entry_value<V>(s: Seq<(String, V)>, i: int)
    requires
        distinct_names(s),
        0 <= i < s.len(),
    ensures
        entries_map(s).contains_key(s[i].0@),
        entries_map(s)[s[i].0@] == s[i].1,
{
    let k = s[i].0@;
    assert(has_name(s, k));
    let c = choose|c: int| 0 <= c < s.len() && s[c].0@ == k;
    lemma_unique_index(s, i, c);
}

proof fn lemma_map_push<V>(s: Seq<(String, V)>, name: String, units: V)
    requires
        distinct_names(s),
        !has_name(s, name@),
    ensures
        distinct_names(s.push((name, units))),
        entries_map(s.push((name, units))) =~= entries_map(s).insert(name@, units),
        forall|k: Seq<char>|
            #[trigger] has_name(s.push((name, units)), k) == (has_name(s, k) || k == name@),
{
    let t = s.push((name, units));
    assert forall|i: int, j: int| 0 <= i < t.len() && 0 <= j < t.len() && i != j implies t[i].0@
        != t[j].0@ by {
        if i < s.len() && j < s.len() {
        } else if i == s.len() {
            assert(s[j].0@ == t[j].0@);
        } else {
            assert(s[i].0@ == t[i].0@);
        }
    }
    assert forall|k: Seq<char>| #[trigger] has_name(t, k) == (has_name(s, k) || k == name@) by {
        if has_name(s, k) {
            let i = choose|i: int| 0 <= i < s.len() && s[i].0@ == k;
            assert(t[i].0@ == k);
        }
        if k == name@ {
            assert(t[s.len() as int].0@ == k);
        }
        if has_name(t, k) && k != name@ {
            let i = choose|i: int| 0 <= i < t.len() && t[i].0@ == k;
            assert(s[i].0@ == k);
        }
    }
    assert forall|k: Seq<char>| #[trigger] entries_map(t).contains_key(k) implies entries_map(t)[k]
        == entries_map(s).insert(name@, units)[k] by {
        let i = choose|i: int| 0 <= i < t.len() && t[i].0@ == k;
        lemma_entry_value(t, i);
        if i < s.len() {
            assert(t[i] == s[i]);
            lemma_entry_value(s, i);
        }
    }
}

proof fn lemma_map_update<V>(s: Seq<(String, V)>, i: int, units: V)
    requires
        distinct_names(s),
        0 <= i < s.len(),
    ensures
        distinct_names(s.update(i, (s[i].0, units))),
        names_ascending(s) ==> names_ascending(s.update(i, (s[i].0, units))),
        entries_map(s.update(i, (s[i].0, units))) =~= entries_map(s).insert(s[i].0@, units),
{
    let t = s.update(i, (s[i].0, units));
    if names_ascending(s) {
        assert forall|a: int, b: int| 0 <= a < b < t.len() implies str_lt(#[trigger] t[a].0@, #[trigger] t[b].0@) by {
            assert(t[a].0@ == s[a].0@);
            assert(t[b].0@ == s[b].0@);
        }
    }
    assert forall|k: Seq<char>| #[trigger] has_name(t, k) == has_name(s, k) by {
        if has_name(s, k) {
            let j = choose|j: int| 0 <= j < s.len() && s[j].0@ == k;
            assert(t[j].0@ == k);
        }
        if has_name(t, k) {
            let j = choose|j: int| 0 <= j < t.len() && t[j].0@ == k;
            assert(s[j].0@ == k);
        }
    }
    lemma_entry_value(s, i);
    assert forall|k: Seq<char>| #[trigger] entries_map(t).contains_key(k) implies entries_map(t)[k]
        == entries_map(s).insert(s[i].0@, units)[k] by {
        let j = choose|j: int| 0 <= j < t.len() && t[j].0@ == k;
        lemma_entry_value(t, j);
        if j != i {
            lemma_entry_value(s, j);
        }
    }
}

/// Inserting a new name at its place in the order.
proof fn lemma_map_insert_at<V>(s: Seq<(String, V)>, p: int, name: String, units: V)
    requires
        distinct_names(s),
        names_ascending(s),
        0 <= p <= s.len(),
        forall|j: int| 0 <= j < p ==> str_lt(#[trigger] s[j].0@, name@),
        forall|j: int| p <= j < s.len() ==> str_lt(name@, #[trigger] s[j].0@),
    ensures
        distinct_names(s.insert(p, (name, units))),
        names_ascending(s.insert(p, (name, units))),
        entries_map(s.insert(p, (name, units))) =~= entries_map(s).insert(name@, units),
{
    let x = (name, units);
    let t = s.insert(p, x);
    s.insert_ensures(p, x);
    assert forall|a: int| 0 <= a < t.len() implies #[trigger] t[a] == (if a < p { s[a] } else if a == p { x } else { s[a - 1] }) by {
        if a > p {
            assert(t[(a - 1) + 1] == s[a - 1]);
        }
    }
    assert forall|a: int, b: int| 0 <= a < b < t.len() implies str_lt(#[trigger] t[a].0@, #[trigger] t[b].0@) by {
        if a < p && b == p {
        } else if a == p {
        } else if a < p && b > p {
            lemma_str_lt_transitive(s[a].0@, name@, s[b - 1].0@);
        } else if a < p {
        } else {
        }
    }
    assert forall|a: int, b: int| 0 <= a < t.len() && 0 <= b < t.len() && a != b implies t[a].0@ != t[b].0@ by {
        if a < b {
            lemma_str_lt_irreflexive(t[a].0@);
            assert(str_lt(t[a].0@, t[b].0@));
        } else {
            lemma_str_lt_irreflexive(t[b].0@);
            assert(str_lt(t[b].0@, t[a].0@));
        }
    }
    assert(!has_name(s, name@)) by {
        if has_name(s, name@) {
            let j = choose|j: int| 0 <= j < s.len() && s[j].0@ == name@;
            lemma_str_lt_irreflexive(name@);
            if j < p {
                assert(str_lt(s[j].0@, name@));
            } else {
                assert(str_lt(name@, s[j].0@));
            }
        }
    }
    assert forall|k: Seq<char>| #[trigger] has_name(t, k) == (has_name(s, k) || k == name@) by {
        if has_name(s, k) {
            let j = choose|j: int| 0 <= j < s.len() && s[j].0@ == k;
            if j < p {
                assert(t[j].0@ == k);
            } else {
                assert(t[j + 1].0@ == k);
            }
        }
        if k == name@ {
            assert(t[p].0@ == k);
        }
        if has_name(t, k) && k != name@ {
            let a = choose|a: int| 0 <= a < t.len() && t[a].0@ == k;
            if a < p {
                assert(s[a].0@ == k);
            } else {
                assert(s[a - 1].0@ == k);
            }
        }
    }
    assert forall|k: Seq<char>| #[trigger] entries_map(t).contains_key(k) implies entries_map(t)[k]
        == entries_map(s).insert(name@, units)[k] by {
        let a = choose|a: int| 0 <= a < t.len() && t[a].0@ == k;
        lemma_entry_value(t, a);
        if a < p {
            lemma_entry_value(s, a);
        } else if a > p {
            lemma_entry_value(s, a - 1);
        }
    }
}

/// Removing the entry at `i` keeps the others in order.
proof fn lemma_map_remove_at<V>(s: Seq<(String, V)>, i: int)
    requires
        distinct_names(s),
        names_ascending(s),
        0 <= i < s.len(),
    ensures
        distinct_names(s.remove(i)),
        names_ascending(s.remove(i)),
        entries_map(s.remove(i)) =~= entries_map(s).remove(s[i].0@),
{
    let t = s.remove(i);
    let removed = s[i].0@;
    s.remove_ensures(i);
    assert forall|a: int| 0 <= a < t.len() implies #[trigger] t[a] == (if a < i { s[a] } else { s[a + 1] }) by {}
    assert forall|a: int, b: int| 0 <= a < b < t.len() implies str_lt(#[trigger] t[a].0@, #[trigger] t[b].0@) by {
        let sa = if a < i { a } else { a + 1 };
        let sb = if b < i { b } else { b + 1 };
        assert(t[a] == s[sa]);
        assert(t[b] == s[sb]);
    }
    assert forall|a: int, b: int| 0 <= a < t.len() && 0 <= b < t.len() && a != b implies t[a].0@ != t[b].0@ by {
        let sa = if a < i { a } else { a + 1 };
        let sb = if b < i { b } else { b + 1 };
        assert(t[a] == s[sa]);
        assert(t[b] == s[sb]);
    }
    assert forall|k: Seq<char>| #[trigger] has_name(t, k) == (has_name(s, k) && k != removed) by {
        if has_name(t, k) {
            let a = choose|a: int| 0 <= a < t.len() && t[a].0@ == k;
            let sa = if a < i { a } else { a + 1 };
            assert(t[a] == s[sa]);
            if k == removed {
                lemma_unique_index(s, sa, i);
            }
        }
        if has_name(s, k) && k != removed {
            let a = choose|a: int| 0 <= a < s.len() && s[a].0@ == k;
            if a < i {
                assert(t[a].0@ == k);
            } else {
                assert(a != i);
                assert(t[a - 1] == s[a]);
            }
        }
    }
    assert forall|k: Seq<char>| #[trigger] entries_map(t).contains_key(k) implies entries_map(t)[k]
        == entries_map(s).remove(removed)[k] by {
        let a = choose|a: int| 0 <= a < t.len() && t[a].0@ == k;
        lemma_entry_value(t, a);
        let sa = if a < i { a } else { a + 1 };
        assert(t[a] == s[sa]);
        lemma_entry_value(s, sa);
    }
}

/// Two entry lists in ascending name order with the same view hold the
/// same names and amounts at every position.
proof fn lemma_sorted_same_map<V>(s: Seq<(String, V)>, t: Seq<(String, V)>)
    requires
        distinct_names(s),
        names_ascending(s),
        distinct_names(t),
        names_ascending(t),
        entries_map(s) == entries_map(t),
    ensures
        s.len() == t.len(),
        forall|i: int| 0 <= i < s.len() ==> #[trigger] s[i].0@ == t[i].0@ && s[i].1 == t[i].1,
    decreases s.len(),
{
    lemma_map_len(s);
    lemma_map_len(t);
    if s.len() > 0 {
        let n = s.len() - 1;
        let k = s[n].0@;
        lemma_entry_value(s, n);
        let j = choose|j: int| 0 <= j < t.len() && t[j].0@ == k;
        lemma_entry_value(t, n);
        let i = choose|i: int| 0 <= i < s.len() && s[i].0@ == t[n].0@;
        if j != n {
            assert(str_lt(t[j].0@, t[n].0@));
            if i == n {
                lemma_str_lt_irreflexive(k);
            } else {
                assert(str_lt(s[i].0@, s[n].0@));
                lemma_str_lt_asymmetric(k, t[n].0@);
            }
        }
        assert(t[n].0@ == k);
        lemma_entry_value(t, n);
        let ps = s.drop_last();
        let pt = t.drop_last();
        assert(distinct_names(ps));
        assert(distinct_names(pt));
        assert(names_ascending(ps));
        assert(names_ascending(pt));
        assert(!has_name(ps, k)) by {
            if has_name(ps, k) {
                let a = choose|a: int| 0 <= a < ps.len() && ps[a].0@ == k;
                assert(s[a].0@ == s[n].0@);
            }
        }
        assert(!has_name(pt, k)) by {
            if has_name(pt, k) {
                let a = choose|a: int| 0 <= a < pt.len() && pt[a].0@ == k;
                assert(t[a].0@ == t[n].0@);
            }
        }
        lemma_map_push(ps, s[n].0, s[n].1);
        lemma_map_push(pt, t[n].0, t[n].1);
        assert(ps.push(s[n]) =~= s);
        assert(pt.push(t[n]) =~= t);
        assert(entries_map(ps) =~= entries_map(s).remove(k));
        assert(entries_map(pt) =~= entries_map(t).remove(k));
        lemma_sorted_same_map(ps, pt);
        assert forall|a: int| 0 <= a < s.len() implies #[trigger] s[a].0@ == t[a].0@ && s[a].1 == t[a].1 by {
            if a < n {
                assert(s[a] == ps[a]);
                assert(t[a] == pt[a]);
            }
        }
    }
}

proof fn lemma_map_len<V>(s: Seq<(String, V)>)
    requires
        distinct_names(s),
    ensures
        entries_map(s).dom().finite(),
        entries_map(s).dom().len() == s.len(),
    decreases s.len(),
{
    if s.len() == 0 {
        assert(entries_map(s).dom() =~= Set::empty());
    } else {
        let p = s.drop_last();
        assert(distinct_names(p));
        lemma_map_len(p);
        let l = s.last();
        assert(!has_name(p, l.0@)) by {
            if has_name(p, l.0@) {
                let a = choose|a: int| 0 <= a < p.len() && p[a].0@ == l.0@;
                assert(s[a].0@ == s[s.len() - 1].0@);
            }
        }
        lemma_map_push(p, l.0, l.1);
        assert(p.push(l) =~= s);
    }
}

/// `a * b`, saturating at `u64::MAX`.
pub fn saturating_mul(a: u64, b: u64) -> (r: u64)
    ensures
        r == sat_mul(a as int, b as int),
{
    match a.checked_mul(b) {
        Some(v) => v,
        None => u64::MAX,
    }
}

impl<V> NamedAmounts<V> {
    #[verifier::type_invariant]
    spec fn inv(self) -> bool {
        &&& distinct_names(self.entries@)
        &&& names_ascending(self.entries@)
    }

    pub closed spec fn view(&self) -> Map<Seq<char>, V> {
        entries_map(self.entries@)
    }

    /// Number of stored entries, one per material name.
    pub closed spec fn spec_len(&self) -> nat {
        self.entries@.len()
    }

    /// The name of the `i`th stored entry.
    pub closed spec fn name_at_spec(&self, i: int) -> Seq<char> {
        self.entries@[i].0@
    }

    /// The amount of the `i`th stored entry.
    pub closed spec fn units_at_spec(&self, i: int) -> V {
        self.entries@[i].1
    }

    proof fn lemma_consistent_from_inv(&self)
        requires
            distinct_names(self.entries@),
        ensures
            self.consistent(),
    {
        lemma_map_len(self.entries@);
        assert forall|i: int| 0 <= i < self.spec_len() implies #[trigger] self@.contains_key(
            self.name_at_spec(i),
        ) && self@[self.name_at_spec(i)] == self.units_at_spec(i) by {
            lemma_entry_value(self.entries@, i);
        }
        assert forall|k: Seq<char>| #[trigger] self@.contains_key(k) implies exists|i: int|
            0 <= i < self.spec_len() && self.name_at_spec(i) == k by {
            let i = choose|i: int| 0 <= i < self.entries@.len() && self.entries@[i].0@ == k;
            assert(self.name_at_spec(i) == k);
        }
        assert forall|i: int, j: int|
            0 <= i < self.spec_len() && 0 <= j < self.spec_len() && i != j implies self.name_at_spec(
            i,
        ) != self.name_at_spec(j) by {}
    }

    /// The stored entries are in strictly ascending name order.
    pub open spec fn names_sorted(&self) -> bool {
        forall|i: int, j: int|
            0 <= i < j < self.spec_len() ==> str_lt(#[trigger] self.name_at_spec(i), #[trigger] self.name_at_spec(j))
    }

    /// A vector is determined by its amounts: two vectors with the same view
    /// store the same names and amounts in the same order.
    pub proof fn lemma_canonical(a: NamedAmounts<V>, b: NamedAmounts<V>)
        requires
            a.consistent(),
            b.consistent(),
            a.names_sorted(),
            b.names_sorted(),
            a@ == b@,
        ensures
            a.spec_len() == b.spec_len(),
            forall|i: int|
                0 <= i < a.spec_len() ==> #[trigger] a.name_at_spec(i) == b.name_at_spec(i) && a.units_at_spec(i)
                    == b.units_at_spec(i),
    {
        assert forall|i: int, j: int| 0 <= i < a.entries@.len() && 0 <= j < a.entries@.len() && i != j implies a.entries@[i].0@
            != a.entries@[j].0@ by {
            assert(a.name_at_spec(i) != a.name_at_spec(j));
        }
        assert forall|i: int, j: int| 0 <= i < b.entries@.len() && 0 <= j < b.entries@.len() && i != j implies b.entries@[i].0@
            != b.entries@[j].0@ by {
            assert(b.name_at_spec(i) != b.name_at_spec(j));
        }
        assert(names_ascending(a.entries@)) by {
            assert forall|i: int, j: int| 0 <= i < j < a.entries@.len() implies str_lt(#[trigger] a.entries@[i].0@, #[trigger] a.entries@[j].0@) by {
                assert(str_lt(a.name_at_spec(i), a.name_at_spec(j)));
            }
        }
        assert(names_ascending(b.entries@)) by {
            assert forall|i: int, j: int| 0 <= i < j < b.entries@.len() implies str_lt(#[trigger] b.entries@[i].0@, #[trigger] b.entries@[j].0@) by {
                assert(str_lt(b.name_at_spec(i), b.name_at_spec(j)));
            }
        }
        lemma_sorted_same_map(a.entries@, b.entries@);
    }

    /// The stored entries are exactly the view's entries, one per name.
    pub closed spec fn consistent(&self) -> bool {
        &&& self@.dom().finite()
        &&& self@.dom().len() == self.spec_len()
        &&& forall|i: int|
            0 <= i < self.spec_len() ==> #[trigger] self@.contains_key(self.name_at_spec(i))
                && self@[self.name_at_spec(i)] == self.units_at_spec(i)
        &&& forall|k: Seq<char>|
            #[trigger] self@.contains_key(k) ==> exists|i: int|
                0 <= i < self.spec_len() && self.name_at_spec(i) == k
        &&& forall|i: int, j: int|
            0 <= i < self.spec_len() && 0 <= j < self.spec_len() && i != j
                ==> self.name_at_spec(i) != self.name_at_spec(j)
    }

    /// What `consistent` says.
    #[verifier::spinoff_prover]
    pub proof fn lemma_consistent(&self)
        requires
            self.consistent(),
        ensures
            self@.dom().finite(),
            self@.dom().len() == self.spec_len(),
            forall|i: int|
                0 <= i < self.spec_len() ==> #[trigger] self@.contains_key(self.name_at_spec(i))
                    && self@[self.name_at_spec(i)] == self.units_at_spec(i),
            forall|k: Seq<char>|
                #[trigger] self@.contains_key(k) ==> exists|i: int|
                    0 <= i < self.spec_len() && self.name_at_spec(i) == k,
            forall|i: int, j: int|
                0 <= i < self.spec_len() && 0 <= j < self.spec_len() && i != j
                    ==> self.name_at_spec(i) != self.name_at_spec(j),
    {
    }

    /// The empty vector.
    pub fn new() -> (r: NamedAmounts<V>)
        ensures
            r@ =~= Map::<Seq<char>, V>::empty(),
    {
        let r = NamedAmounts { entries: Vec::new() };
        assert(r@ =~= Map::<Seq<char>, V>::empty());
        r
    }

}

impl<V: Copy> NamedAmounts<V> {
    /// Number of named entries. The stored entries are exactly the view's
    /// entries, one per name.
    pub fn len(&self) -> (r: usize)
        ensures
            r == self@.dom().len(),
            r == self.spec_len(),
            self.consistent(),
            self.names_sorted(),
    {
        proof {
            use_type_invariant(self);
            self.lemma_consistent_from_inv();
        }
        self.entries.len()
    }

    pub fn is_empty(&self) -> (r: bool)
        ensures
            r == (self@.dom().len() == 0),
            r == (self@ =~= Map::<Seq<char>, V>::empty()),
    {
        proof {
            use_type_invariant(self);
            lemma_map_len(self.entries@);
        }
        self.entries.len() == 0
    }

    /// Name of the `i`th entry.
    pub fn name_at(&self, i: usize) -> (r: &str)
        requires
            i < self.spec_len(),
        ensures
            r@ == self.name_at_spec(i as int),
    {
        self.entries[i].0.as_str()
    }

    /// Amount of the `i`th entry.
    pub fn units_at(&self, i: usize) -> (r: V)
        requires
            i < self.spec_len(),
        ensures
            r == self.units_at_spec(i as int),
    {
        self.entries[i].1
    }

    fn position(&self, name: &str) -> (r: Option<usize>)
        ensures
            match r {
                Some(i) => i < self.entries@.len() && self.entries@[i as int].0@ == name@,
                None => !self@.contains_key(name@),
            },
    {
        let n = self.entries.len();
        let mut i: usize = 0;
        while i < n
            invariant
                n == self.entries@.len(),
                i <= n,
                forall|j: int| 0 <= j < i ==> self.entries@[j].0@ != name@,
            decreases n - i,
        {
            if str_eq(self.entries[i].0.as_str(), name) {
                return Some(i);
            }
            i = i + 1;
        }
        None
    }

    /// The amount of `name`, if present.
    pub fn get(&self, name: &str) -> (r: Option<V>)
        ensures
            r == (if self@.contains_key(name@) {
                Some(self@[name@])
            } else {
                None::<V>
            }),
    {
        proof {
            use_type_invariant(self);
        }
        match self.position(name) {
            Some(i) => {
                proof {
                    lemma_entry_value(self.entries@, i as int);
                }
                Some(self.entries[i].1)
            },
            None => None,
        }
    }

    pub fn contains_key(&self, name: &str) -> (r: bool)
        ensures
            r == self@.contains_key(name@),
    {
        self.get(name).is_some()
    }

    /// Set the amount of `name`.
    pub fn insert(&mut self, name: &str, units: V)
        ensures
            final(self)@ == old(self)@.insert(name@, units),
    {
        proof {
            use_type_invariant(&*self);
        }
        let found = self.position(name);
        let mut entries: Vec<(String, V)> = Vec::new();
        std::mem::swap(&mut entries, &mut self.entries);
        proof {
            assert(distinct_names(entries@));
            assert(entries_map(entries@) == old(self)@);
        }
        match found {
            Some(i) => {
                let ghost s = entries@;
                let key = entries[i].0.clone();
                entries[i] = (key, units);
                proof {
                    lemma_map_update(s, i as int, units);
                    assert(entries@ == s.update(i as int, (s[i as int].0, units)));
                }
            },
            None => {
                let ghost s = entries@;
                let key = name.to_owned();
                let n = entries.len();
                let mut p: usize = 0;
                while p < n && str_less(entries[p].0.as_str(), name)
                    invariant
                        n == entries@.len(),
                        entries@ == s,
                        p <= n,
                        forall|j: int| 0 <= j < p ==> str_lt(#[trigger] s[j].0@, name@),
                    decreases n - p,
                {
                    p = p + 1;
                }
                proof {
                    assert(!has_name(s, name@)) by {
                        if has_name(s, name@) {
                            let a = choose|a: int| 0 <= a < s.len() && s[a].0@ == name@;
                            assert(entries_map(s).contains_key(name@));
                        }
                    }
                    if p < n {
                        assert(s[p as int].0@ != name@);
                        lemma_str_lt_total(s[p as int].0@, name@);
                        assert(str_lt(name@, s[p as int].0@));
                    }
                    assert forall|j: int| p <= j < s.len() implies str_lt(name@, #[trigger] s[j].0@) by {
                        if j > p {
                            assert(str_lt(s[p as int].0@, s[j].0@));
                            lemma_str_lt_transitive(name@, s[p as int].0@, s[j].0@);
                        }
                    }
                    lemma_map_insert_at(s, p as int, key, units);
                }
                entries.insert(p, (key, units));
            },
        }
        self.entries = entries;
    }

    /// Remove `name` if present.
    pub fn remove(&mut self, name: &str)
        ensures
            final(self)@ == old(self)@.remove(name@),
    {
        proof {
            use_type_invariant(&*self);
        }
        let found = self.position(name);
        match found {
            Some(i) => {
                let ghost s = self.entries@;
                let n = self.entries.len();
                let mut kept: Vec<(String, V)> = Vec::new();
                let mut j: usize = 0;
                while j < n
                    invariant
                        n == self.entries@.len(),
                        self.entries@ == s,
                        i < n,
                        j <= n,
                        kept@ == (if j <= i { s.subrange(0, j as int) } else { s.subrange(0, i as int) + s.subrange(i + 1, j as int) }),
                    decreases n - j,
                {
                    if j != i {
                        let key = self.entries[j].0.clone();
                        kept.push((key, self.entries[j].1));
                        proof {
                            if j < i {
                                assert(kept@ =~= s.subrange(0, j + 1));
                            } else {
                                assert(kept@ =~= s.subrange(0, i as int) + s.subrange(i + 1, j + 1));
                            }
                        }
                    } else {
                        proof {
                            assert(s.subrange(i + 1, i + 1) =~= Seq::<(String, V)>::empty());
                            assert(kept@ =~= s.subrange(0, i as int) + s.subrange(i + 1, j + 1));
                        }
                    }
                    j = j + 1;
                }
                proof {
                    assert(kept@ =~= s.remove(i as int));
                    lemma_map_remove_at(s, i as int);
                }
                self.entries = kept;
            },
            None => {
                assert(old(self)@.remove(name@) =~= old(self)@);
            },
        }
    }

    /// Replace the amount of the `i`th entry, keeping the entry order.
    pub fn set_units_at(&mut self, i: usize, units: V)
        requires
            i < old(self).spec_len(),
        ensures
            final(self)@ == old(self)@.insert(old(self).name_at_spec(i as int), units),
            final(self).spec_len() == old(self).spec_len(),
            forall|j: int| 0 <= j < final(self).spec_len() ==> #[trigger] final(self).name_at_spec(j) == old(self).name_at_spec(j),
            forall|j: int| 0 <= j < final(self).spec_len() && j != i ==> #[trigger] final(self).units_at_spec(j) == old(self).units_at_spec(j),
            final(self).units_at_spec(i as int) == units,
            final(self).consistent(),
    {
        proof {
            use_type_invariant(&*self);
        }
        let mut entries: Vec<(String, V)> = Vec::new();
        std::mem::swap(&mut entries, &mut self.entries);
        let ghost s = entries@;
        let key = entries[i].0.clone();
        entries[i] = (key, units);
        proof {
            lemma_map_update(s, i as int, units);
            assert(entries@ == s.update(i as int, (s[i as int].0, units)));
        }
        self.entries = entries;
        proof {
            use_type_invariant(&*self);
            self.lemma_consistent_from_inv();
        }
    }

    /// Clone with the same view.
    pub fn duplicate(&self) -> (r: NamedAmounts<V>)
        ensures
            r@ == self@,
    {
        proof {
            use_type_invariant(self);
        }
        let mut out: Vec<(String, V)> = Vec::new();
        let n = self.entries.len();
        let mut i: usize = 0;
        while i < n
            invariant
                n == self.entries@.len(),
                i <= n,
                out@.len() == i,
                forall|j: int| 0 <= j < i ==> #[trigger] out@[j] == self.entries@[j],
            decreases n - i,
        {
            let key = self.entries[i].0.clone();
            out.push((key, self.entries[i].1));
            i = i + 1;
        }
        assert(out@ =~= self.entries@);
        NamedAmounts { entries: out }
    }
}

impl NamedAmounts<u64> {
    /// The amount of `name`, zero where absent.
    pub fn units(&self, name: &str) -> (r: u64)
        ensures
            r == amt(self@, name@),
    {
        match self.get(name) {
            Some(u) => u,
            None => 0,
        }
    }

    /// Drop every entry whose amount is zero.
    pub fn retain_nonzero(&mut self)
        ensures
            final(self)@ == old(self)@.restrict(
                old(self)@.dom().filter(|k: Seq<char>| old(self)@[k] != 0),
            ),
            no_zero(final(self)@),
    {
        proof {
            use_type_invariant(&*self);
        }
        let ghost orig = self@;
        let mut entries: Vec<(String, u64)> = Vec::new();
        std::mem::swap(&mut entries, &mut self.entries);
        let mut kept: Vec<(String, u64)> = Vec::new();
        let n = entries.len();
        let mut i: usize = 0;
        while i < n
            invariant
                n == entries@.len(),
                i <= n,
                distinct_names(entries@),
                names_ascending(entries@),
                entries_map(entries@) == orig,
                distinct_names(kept@),
                names_ascending(kept@),
                forall|k: Seq<char>|
                    #[trigger] has_name(kept@, k) == (exists|j: int|
                        0 <= j < i && entries@[j].0@ == k && entries@[j].1 != 0),
                forall|j: int| 0 <= j < kept@.len() ==> #[trigger] kept@[j].1 != 0,
                forall|k: Seq<char>|
                    #[trigger] entries_map(kept@).contains_key(k) ==> entries_map(kept@)[k]
                        == orig[k],
            decreases n - i,
        {
            let units = entries[i].1;
            if units != 0 {
                let ghost s = kept@;
                let key = entries[i].0.clone();
                proof {
                    assert(!has_name(s, key@)) by {
                        if has_name(s, key@) {
                            let j = choose|j: int|
                                0 <= j < i && entries@[j].0@ == key@ && entries@[j].1 != 0;
                            lemma_unique_index(entries@, j, i as int);
                        }
                    }
                    lemma_map_push(s, key, units);
                    lemma_entry_value(entries@, i as int);
                    assert forall|t: int| 0 <= t < s.len() implies str_lt(#[trigger] s[t].0@, key@) by {
                        assert(has_name(s, s[t].0@));
                        let j = choose|j: int| 0 <= j < i && entries@[j].0@ == s[t].0@ && entries@[j].1 != 0;
                        assert(str_lt(entries@[j].0@, entries@[i as int].0@));
                    }
                }
                kept.push((key, units));
                proof {
                    assert forall|a: int, b: int| 0 <= a < b < kept@.len() implies str_lt(#[trigger] kept@[a].0@, #[trigger] kept@[b].0@) by {
                        if b == s.len() {
                            assert(kept@[a] == s[a]);
                        } else {
                            assert(kept@[a] == s[a]);
                            assert(kept@[b] == s[b]);
                        }
                    }
                }
                proof {
                    assert forall|k: Seq<char>| #[trigger] has_name(kept@, k) == (exists|j: int|
                        0 <= j < i + 1 && entries@[j].0@ == k && entries@[j].1 != 0) by {
                        if k == key@ {
                            assert(entries@[i as int].0@ == k);
                        } else {
                            if exists|j: int|
                                0 <= j < i + 1 && entries@[j].0@ == k && entries@[j].1 != 0 {
                                let j = choose|j: int|
                                    0 <= j < i + 1 && entries@[j].0@ == k && entries@[j].1 != 0;
                                assert(j != i);
                            }
                        }
                    }
                }
            } else {
                proof {
                    assert forall|k: Seq<char>| #[trigger] has_name(kept@, k) == (exists|j: int|
                        0 <= j < i + 1 && entries@[j].0@ == k && entries@[j].1 != 0) by {
                        if exists|j: int|
                            0 <= j < i + 1 && entries@[j].0@ == k && entries@[j].1 != 0 {
                            let j = choose|j: int|
                                0 <= j < i + 1 && entries@[j].0@ == k && entries@[j].1 != 0;
                            assert(j != i);
                        }
                    }
                }
            }
            i = i + 1;
        }
        let ghost expected = orig.restrict(orig.dom().filter(|k: Seq<char>| orig[k] != 0));
        proof {
            assert forall|k: Seq<char>| #[trigger] entries_map(kept@).contains_key(k)
                == expected.contains_key(k) by {
                if expected.contains_key(k) {
                    let j = choose|j: int| 0 <= j < entries@.len() && entries@[j].0@ == k;
                    lemma_entry_value(entries@, j);
                    assert(has_name(kept@, k));
                }
                if entries_map(kept@).contains_key(k) {
                    let j = choose|j: int|
                        0 <= j < n && entries@[j].0@ == k && entries@[j].1 != 0;
                    lemma_entry_value(entries@, j);
                }
            }
            assert(entries_map(kept@) =~= expected);
            assert forall|k: Seq<char>| entries_map(kept@).contains_key(k) implies entries_map(
                kept@,
            )[k] != 0 by {
                let j = choose|j: int| 0 <= j < kept@.len() && kept@[j].0@ == k;
                lemma_entry_value(kept@, j);
            }
        }
        self.entries = kept;
    }

    /// Add `mult` copies of `from`, each step saturating, then drop every
    /// zero amount.
    pub fn add_scaled(&mut self, from: &MaterialVector, mult: u64)
        ensures
            final(self)@ == spec_add_vector(old(self)@, from@, mult as int),
            no_zero(final(self)@),
    {
        let ghost orig = self@;
        let n = from.len();
        proof {
            from.lemma_consistent();
        }
        let mut i: usize = 0;
        while i < n
            invariant
                n == from.spec_len(),
                i <= n,
                forall|k: Seq<char>|
                    self@.contains_key(k) || orig.contains_key(k) || from@.contains_key(k) ==> (
                    #[trigger] amt(self@, k) == if exists|j: int|
                        0 <= j < i && from.name_at_spec(j) == k {
                        added_amount(orig, from@, mult as int, k)
                    } else {
                        amt(orig, k) as int
                    }),
                forall|k: Seq<char>|
                    #[trigger] self@.contains_key(k) ==> orig.contains_key(k) || from@.contains_key(
                        k,
                    ),
                forall|i: int|
                    0 <= i < from.spec_len() ==> #[trigger] from@.contains_key(from.name_at_spec(i))
                        && from@[from.name_at_spec(i)] == from.units_at_spec(i),
                forall|i: int, j: int|
                    0 <= i < from.spec_len() && 0 <= j < from.spec_len() && i != j
                        ==> from.name_at_spec(i) != from.name_at_spec(j),
            decreases n - i,
        {
            let name = from.name_at(i);
            let units = from.units_at(i);
            let add = saturating_mul(units, mult);
            let current = self.units(name);
            let next = current.saturating_add(add);
            let ghost prev = self@;
            proof {
                assert(from@.contains_key(from.name_at_spec(i as int)));
                assert(from@[name@] == units);
                assert(!exists|j: int| 0 <= j < i && from.name_at_spec(j) == name@);
                assert(current == amt(orig, name@));
                assert(next == added_amount(orig, from@, mult as int, name@));
            }
            self.insert(name, next);
            proof {
                assert forall|k: Seq<char>|
                    self@.contains_key(k) || orig.contains_key(k) || from@.contains_key(k) implies (
                    #[trigger] amt(self@, k) == if exists|j: int|
                        0 <= j < i + 1 && from.name_at_spec(j) == k {
                        added_amount(orig, from@, mult as int, k)
                    } else {
                        amt(orig, k) as int
                    }) by {
                    if k == name@ {
                        assert(from.name_at_spec(i as int) == k);
                        assert(amt(self@, k) == next);
                    } else {
                        assert(self@.contains_key(k) == prev.contains_key(k));
                        assert(amt(self@, k) == amt(prev, k));
                        let e1 = exists|j: int| 0 <= j < i + 1 && from.name_at_spec(j) == k;
                        let e0 = exists|j: int| 0 <= j < i && from.name_at_spec(j) == k;
                        if e1 {
                            let j = choose|j: int| 0 <= j < i + 1 && from.name_at_spec(j) == k;
                            assert(j != i);
                            assert(e0);
                        }
                        if e0 {
                            let j = choose|j: int| 0 <= j < i && from.name_at_spec(j) == k;
                            assert(e1);
                        }
                        assert(amt(prev, k) == if e0 {
                            added_amount(orig, from@, mult as int, k)
                        } else {
                            amt(orig, k) as int
                        });
                    }
                }
            }
            i = i + 1;
        }
        let ghost before_retain = self@;
        self.retain_nonzero();
        proof {
            let target = spec_add_vector(orig, from@, mult as int);
            assert forall|k: Seq<char>| #[trigger] self@.contains_key(k) == target.contains_key(k)
                by {
                if before_retain.contains_key(k) || orig.contains_key(k) || from@.contains_key(k) {
                    assert(amt(before_retain, k) == added_amount(orig, from@, mult as int, k));
                }
            }
            assert forall|k: Seq<char>| self@.contains_key(k) implies self@[k] == target[k] by {
                assert(amt(before_retain, k) == added_amount(orig, from@, mult as int, k));
            }
            assert(self@ =~= target);
        }
    }

}

/// The sum of every amount of a vector view.
pub open spec fn map_total(m: Map<Seq<char>, u64>) -> int {
    m.dom().fold(0int, |acc: int, k: Seq<char>| acc + m[k])
}

proof fn lemma_total_commutes(m: Map<Seq<char>, u64>)
    ensures
        vstd::set::fold::is_fun_commutative(|acc: int, k: Seq<char>| acc + m[k]),
{
}

impl NamedAmounts<u64> {
    /// The sum of every amount, unless it passes `u64::MAX`.
    pub fn checked_total(&self) -> (r: Option<u64>)
        ensures
            match r {
                Some(t) => t == map_total(self@),
                None => map_total(self@) > u64::MAX,
            },
    {
        let n = self.len();
        let ghost f = |acc: int, k: Seq<char>| acc + self@[k];
        let ghost mut seen: Set<Seq<char>> = Set::empty();
        let mut total: u64 = 0;
        let mut i: usize = 0;
        proof {
            lemma_total_commutes(self@);
            vstd::set::fold::lemma_fold_empty(0int, f);
        }
        while i < n
            invariant
                n == self.spec_len(),
                self.consistent(),
                i <= n,
                vstd::set::fold::is_fun_commutative(f),
                f == (|acc: int, k: Seq<char>| acc + self@[k]),
                seen.finite(),
                seen == Set::new(|k: Seq<char>| exists|j: int| 0 <= j < i && self.name_at_spec(j) == k),
                total == seen.fold(0int, f),
            decreases n - i,
        {
            let name = self.name_at(i);
            let units = self.units_at(i);
            let ghost k = self.name_at_spec(i as int);
            proof {
                self.lemma_consistent();
                assert(!seen.contains(k)) by {
                    if seen.contains(k) {
                        let j = choose|j: int| 0 <= j < i && self.name_at_spec(j) == k;
                        assert(j != i);
                    }
                }
                vstd::set::fold::lemma_fold_insert(seen, 0int, f, k);
                assert(self@.contains_key(k));
                assert(self@[k] == units);
            }
            match total.checked_add(units) {
                Some(t) => {
                    total = t;
                },
                None => {
                    proof {
                        let grown = seen.insert(k);
                        assert(grown.fold(0int, f) > u64::MAX);
                        lemma_fold_monotone(self, grown);
                    }
                    return None;
                },
            }
            proof {
                let next = Set::new(|x: Seq<char>| exists|j: int| 0 <= j < i + 1 && self.name_at_spec(j) == x);
                assert(next =~= seen.insert(k)) by {
                    assert forall|x: Seq<char>| next.contains(x) <==> seen.insert(k).contains(x) by {
                        if next.contains(x) {
                            let j = choose|j: int| 0 <= j < i + 1 && self.name_at_spec(j) == x;
                            if j < i {
                                assert(seen.contains(x));
                            }
                        }
                        if seen.contains(x) {
                            let j = choose|j: int| 0 <= j < i && self.name_at_spec(j) == x;
                            assert(next.contains(x));
                        }
                        if x == k {
                            assert(next.contains(x));
                        }
                    }
                }
                seen = seen.insert(k);
            }
            i = i + 1;
        }
        proof {
            assert(seen =~= self@.dom()) by {
                self.lemma_consistent();
                assert forall|x: Seq<char>| seen.contains(x) <==> self@.dom().contains(x) by {
                    if self@.contains_key(x) {
                        let j = choose|j: int| 0 <= j < self.spec_len() && self.name_at_spec(j) == x;
                        assert(seen.contains(x));
                    }
                }
            }
        }
        Some(total)
    }
}

/// Adding more names never lowers a vector's running total: a fold over a
/// subset of the names is at most the total.
proof fn lemma_fold_monotone(v: &NamedAmounts<u64>, part: Set<Seq<char>>)
    requires
        v.consistent(),
        part.finite(),
        part.subset_of(v@.dom()),
    ensures
        part.fold(0int, |acc: int, k: Seq<char>| acc + v@[k]) <= map_total(v@),
    decreases v@.dom().len() - part.len(),
{
    let f = |acc: int, k: Seq<char>| acc + v@[k];
    lemma_total_commutes(v@);
    v.lemma_consistent();
    if part =~= v@.dom() {
    } else {
        let extra = v@.dom().difference(part).choose();
        assert(v@.dom().difference(part).contains(extra)) by {
            let d = v@.dom().difference(part);
            vstd::set_lib::lemma_len_subset(part, v@.dom());
            if d.len() == 0 {
                assert forall|x: Seq<char>| v@.dom().contains(x) implies part.contains(x) by {
                    if !part.contains(x) {
                        assert(d.contains(x));
                    }
                }
                assert(part =~= v@.dom());
            }
        }
        vstd::set::fold::lemma_fold_insert(part, 0int, f, extra);
        vstd::set_lib::lemma_len_subset(part.insert(extra), v@.dom());
        lemma_fold_monotone(v, part.insert(extra));
    }
}

} // verus!
