//! The material audit as the text the audit command prints: one row per
//! tracked material, the balance status, the qualification facts, the
//! retrogen policy of each mod resource and the external sources.

use vstd::prelude::*;
use crate::materials::{MaterialAudit, ExternalSource, REQUIRED_TECHNOLOGY_ARCS, spec_is_balanced, views_of};
use crate::vector::{MaterialVector, amt};
use crate::text::{push_decimal, push_decimal_wide, spec_decimal};
use crate::listing::{names_sorted, listing, lemma_listing, insert_name};

verus! {

/// The `Debug` form of a string: quoted, with escapes.
pub uninterp spec fn debug_text(s: Seq<char>) -> Seq<char>;

/// std's `Debug` formatting of a string. Its result is taken as a function
/// of the string alone; the escaping rules are not restated.
#[verifier::external_body]
pub(crate) fn debug_of(s: &str) -> (r: String)
    ensures
        r@ == debug_text(s@),
{
    format!("{:?}", s)
}

// ---------------------------------------------------------------------------
// Columns.

pub open spec fn spaces(n: int) -> Seq<char> {
    Seq::new(n as nat, |i: int| ' ')
}

/// `s` right-aligned in a column of `w` characters.
#[verifier::opaque]
pub open spec fn pad_left(s: Seq<char>, w: int) -> Seq<char> {
    if s.len() < w {
        spaces(w - s.len()) + s
    } else {
        s
    }
}

/// `s` left-aligned in a column of `w` characters.
#[verifier::opaque]
pub open spec fn pad_right(s: Seq<char>, w: int) -> Seq<char> {
    if s.len() < w {
        s + spaces(w - s.len())
    } else {
        s
    }
}

/// Decimal form of a signed amount.
#[verifier::opaque]
pub open spec fn spec_signed(x: int) -> Seq<char> {
    if x < 0 {
        "-"@ + spec_decimal((-x) as nat)
    } else {
        spec_decimal(x as nat)
    }
}

fn push_spaces(out: &mut String, n: usize)
    ensures
        final(out)@ == old(out)@ + spaces(n as int),
{
    proof {
        reveal_strlit(" ");
    }
    let ghost start = out@;
    let mut i: usize = 0;
    assert(start + spaces(0) =~= start);
    while i < n
        invariant
            i <= n,
            out@ == start + spaces(i as int),
        decreases n - i,
    {
        proof {
            reveal_strlit(" ");
        }
        out.append(" ");
        assert(spaces(i as int) + " "@ =~= spaces(i + 1));
        assert(start + spaces(i as int) + " "@ =~= start + spaces(i + 1));
        i = i + 1;
    }
}

fn push_left(out: &mut String, s: &str, w: usize)
    ensures
        final(out)@ == old(out)@ + pad_left(s@, w as int),
{
    let ghost start = out@;
    let n = s.unicode_len();
    proof {
        reveal(pad_left);
    }
    if n < w {
        push_spaces(out, w - n);
        out.append(s);
        assert(out@ =~= start + pad_left(s@, w as int));
    } else {
        out.append(s);
    }
}

fn push_right(out: &mut String, s: &str, w: usize)
    ensures
        final(out)@ == old(out)@ + pad_right(s@, w as int),
{
    let ghost start = out@;
    let n = s.unicode_len();
    proof {
        reveal(pad_right);
    }
    out.append(s);
    if n < w {
        push_spaces(out, w - n);
        assert(out@ =~= start + pad_right(s@, w as int));
    }
}

fn push_amount(out: &mut String, n: u64, w: usize)
    ensures
        final(out)@ == old(out)@ + pad_left(spec_decimal(n as nat), w as int),
{
    let mut d = String::new();
    push_decimal(&mut d, n);
    assert(d@ =~= spec_decimal(n as nat));
    push_left(out, d.as_str(), w);
}

pub fn signed_text(x: i128) -> (r: String)
    ensures
        r@ == spec_signed(x as int),
{
    let mut s = String::new();
    proof {
        reveal(spec_signed);
    }
    if x < 0 {
        s.append("-");
        let mag: u128 = ((-(x + 1)) as u128) + 1;
        push_decimal_wide(&mut s, mag);
        assert(s@ =~= spec_signed(x as int));
    } else {
        push_decimal_wide(&mut s, x as u128);
        assert(s@ =~= spec_signed(x as int));
    }
    s
}

// ---------------------------------------------------------------------------
// Keyed lists read as maps: a later entry for a name replaces an earlier one.

pub open spec fn keys_of<V>(s: Seq<(String, V)>) -> Seq<Seq<char>> {
    s.map_values(|p: (String, V)| p.0@)
}

pub open spec fn source_keys(s: Seq<ExternalSource>) -> Seq<Seq<char>> {
    s.map_values(|e: ExternalSource| e.source@)
}

/// Index of the last `k` in `ks`, or -1.
pub open spec fn last_at(ks: Seq<Seq<char>>, k: Seq<char>) -> int
    decreases ks.len(),
{
    if ks.len() == 0 {
        -1
    } else if ks.last() == k {
        ks.len() - 1
    } else {
        last_at(ks.drop_last(), k)
    }
}

proof fn lemma_last_at(ks: Seq<Seq<char>>, k: Seq<char>)
    ensures
        -1 <= last_at(ks, k) < ks.len(),
        last_at(ks, k) >= 0 ==> ks[last_at(ks, k)] == k,
    decreases ks.len(),
{
    if ks.len() > 0 && ks.last() != k {
        lemma_last_at(ks.drop_last(), k);
    }
}

pub open spec fn gap_value(s: Seq<(String, i128)>, k: Seq<char>) -> int {
    let i = last_at(keys_of(s), k);
    if i < 0 {
        0
    } else {
        s[i].1 as int
    }
}

pub open spec fn count_value(s: Seq<(String, usize)>, k: Seq<char>) -> nat {
    let i = last_at(keys_of(s), k);
    if i < 0 {
        0
    } else {
        s[i].1 as nat
    }
}

pub open spec fn status_value(s: Seq<(String, String)>, k: Seq<char>) -> Seq<char> {
    let i = last_at(keys_of(s), k);
    if i < 0 {
        Seq::empty()
    } else {
        s[i].1@
    }
}

pub open spec fn source_materials(s: Seq<ExternalSource>, k: Seq<char>) -> Map<Seq<char>, u64> {
    let i = last_at(source_keys(s), k);
    if i < 0 {
        Map::empty()
    } else {
        s[i].materials@
    }
}

fn last_pair<V>(s: &Vec<(String, V)>, k: &str) -> (r: Option<usize>)
    ensures
        match r {
            Some(i) => i as int == last_at(keys_of(s@), k@) && i < s@.len(),
            None => last_at(keys_of(s@), k@) == -1,
        },
{
    let ghost ks = keys_of(s@);
    let mut i: usize = s.len();
    assert(ks.take(i as int) =~= ks);
    while i > 0
        invariant
            i <= s@.len(),
            ks == keys_of(s@),
            last_at(ks, k@) == last_at(ks.take(i as int), k@),
        decreases i,
    {
        assert(ks.take(i as int).last() == ks[i - 1]);
        assert(ks.take(i as int).drop_last() =~= ks.take(i - 1));
        if crate::text::str_eq(s[i - 1].0.as_str(), k) {
            return Some(i - 1);
        }
        i = i - 1;
    }
    None
}

fn last_source(s: &Vec<ExternalSource>, k: &str) -> (r: Option<usize>)
    ensures
        match r {
            Some(i) => i as int == last_at(source_keys(s@), k@) && i < s@.len(),
            None => last_at(source_keys(s@), k@) == -1,
        },
{
    let ghost ks = source_keys(s@);
    let mut i: usize = s.len();
    assert(ks.take(i as int) =~= ks);
    while i > 0
        invariant
            i <= s@.len(),
            ks == source_keys(s@),
            last_at(ks, k@) == last_at(ks.take(i as int), k@),
        decreases i,
    {
        assert(ks.take(i as int).last() == ks[i - 1]);
        assert(ks.take(i as int).drop_last() =~= ks.take(i - 1));
        if crate::text::str_eq(s[i - 1].source.as_str(), k) {
            return Some(i - 1);
        }
        i = i - 1;
    }
    None
}

// ---------------------------------------------------------------------------
// Sorted key lists.

fn sorted_pair_keys<V>(s: &Vec<(String, V)>) -> (r: Vec<String>)
    ensures
        views_of(r@) == listing(keys_of(s@).to_set()),
{
    let ghost ks = keys_of(s@);
    let mut out: Vec<String> = Vec::new();
    let mut i: usize = 0;
    while i < s.len()
        invariant
            i <= s@.len(),
            ks == keys_of(s@),
            names_sorted(views_of(out@)),
            forall|x: Seq<char>| #[trigger] views_of(out@).contains(x) <==> ks.take(i as int).contains(x),
        decreases s@.len() - i,
    {
        insert_name(&mut out, s[i].0.as_str());
        proof {
            let t1 = ks.take(i + 1);
            let t0 = ks.take(i as int);
            assert forall|x: Seq<char>| #[trigger] views_of(out@).contains(x) <==> t1.contains(x) by {
                if t1.contains(x) {
                    let j = choose|j: int| 0 <= j < t1.len() && t1[j] == x;
                    if j < i {
                        assert(t0[j] == x);
                    }
                }
                if t0.contains(x) {
                    let j = choose|j: int| 0 <= j < t0.len() && t0[j] == x;
                    assert(t1[j] == x);
                }
                if x == s@[i as int].0@ {
                    assert(t1[i as int] == x);
                }
            }
        }
        i = i + 1;
    }
    proof {
        assert(ks.take(s@.len() as int) =~= ks);
        lemma_listing(views_of(out@), ks.to_set());
    }
    out
}

fn sorted_source_keys(s: &Vec<ExternalSource>) -> (r: Vec<String>)
    ensures
        views_of(r@) == listing(source_keys(s@).to_set()),
{
    let ghost ks = source_keys(s@);
    let mut out: Vec<String> = Vec::new();
    let mut i: usize = 0;
    while i < s.len()
        invariant
            i <= s@.len(),
            ks == source_keys(s@),
            names_sorted(views_of(out@)),
            forall|x: Seq<char>| #[trigger] views_of(out@).contains(x) <==> ks.take(i as int).contains(x),
        decreases s@.len() - i,
    {
        insert_name(&mut out, s[i].source.as_str());
        proof {
            let t1 = ks.take(i + 1);
            let t0 = ks.take(i as int);
            assert forall|x: Seq<char>| #[trigger] views_of(out@).contains(x) <==> t1.contains(x) by {
                if t1.contains(x) {
                    let j = choose|j: int| 0 <= j < t1.len() && t1[j] == x;
                    if j < i {
                        assert(t0[j] == x);
                    }
                }
                if t0.contains(x) {
                    let j = choose|j: int| 0 <= j < t0.len() && t0[j] == x;
                    assert(t1[j] == x);
                }
                if x == s@[i as int].source@ {
                    assert(t1[i as int] == x);
                }
            }
        }
        i = i + 1;
    }
    proof {
        assert(ks.take(s@.len() as int) =~= ks);
        lemma_listing(views_of(out@), ks.to_set());
    }
    out
}

/// Insert every name of `m` into a sorted list.
fn insert_names_of(out: &mut Vec<String>, m: &MaterialVector)
    requires
        names_sorted(views_of(old(out)@)),
    ensures
        names_sorted(views_of(final(out)@)),
        forall|x: Seq<char>| #[trigger] views_of(final(out)@).contains(x) <==> (views_of(old(out)@).contains(x)
            || m@.contains_key(x)),
{
    let ghost start = views_of(out@);
    let n = m.len();
    let mut i: usize = 0;
    while i < n
        invariant
            i <= n,
            n == m.spec_len(),
            m.consistent(),
            names_sorted(views_of(out@)),
            forall|x: Seq<char>| #[trigger] views_of(out@).contains(x) <==> (start.contains(x) || exists|j: int|
                0 <= j < i && m.name_at_spec(j) == x),
        decreases n - i,
    {
        insert_name(out, m.name_at(i));
        proof {
            assert forall|x: Seq<char>| #[trigger] views_of(out@).contains(x) <==> (start.contains(x) || exists|j: int|
                0 <= j < i + 1 && m.name_at_spec(j) == x) by {
                if x == m.name_at_spec(i as int) {
                    assert(exists|j: int| 0 <= j < i + 1 && m.name_at_spec(j) == x);
                }
            }
        }
        i = i + 1;
    }
    proof {
        m.lemma_consistent();
        assert forall|x: Seq<char>| #[trigger] views_of(out@).contains(x) <==> (start.contains(x) || m@.contains_key(x)) by {
            if exists|j: int| 0 <= j < n && m.name_at_spec(j) == x {
                let j = choose|j: int| 0 <= j < n && m.name_at_spec(j) == x;
                assert(m@.contains_key(m.name_at_spec(j)));
            }
            if m@.contains_key(x) {
                let j = choose|j: int| 0 <= j < m.spec_len() && m.name_at_spec(j) == x;
                assert(0 <= j < n && m.name_at_spec(j) == x);
            }
        }
    }
}

// ---------------------------------------------------------------------------
// Debug forms of maps.

/// `"name": count` entries of a count list, for the given keys, comma-joined.
pub open spec fn count_entries(s: Seq<(String, usize)>, ks: Seq<Seq<char>>) -> Seq<char>
    decreases ks.len(),
{
    if ks.len() == 0 {
        Seq::empty()
    } else {
        let k = ks.last();
        let entry = debug_text(k) + ": "@ + spec_decimal(count_value(s, k));
        if ks.len() == 1 {
            entry
        } else {
            count_entries(s, ks.drop_last()) + ", "@ + entry
        }
    }
}

/// A count list shown as a sorted map.
pub open spec fn debug_counts(s: Seq<(String, usize)>) -> Seq<char> {
    "{"@ + count_entries(s, listing(keys_of(s).to_set())) + "}"@
}

/// `"material": units` entries of a vector, for the given keys, comma-joined.
pub open spec fn amount_entries(m: Map<Seq<char>, u64>, ks: Seq<Seq<char>>) -> Seq<char>
    decreases ks.len(),
{
    if ks.len() == 0 {
        Seq::empty()
    } else {
        let k = ks.last();
        let entry = debug_text(k) + ": "@ + spec_decimal(amt(m, k));
        if ks.len() == 1 {
            entry
        } else {
            amount_entries(m, ks.drop_last()) + ", "@ + entry
        }
    }
}

/// A material vector shown as a sorted map.
pub open spec fn debug_amounts(m: Map<Seq<char>, u64>) -> Seq<char> {
    "{"@ + amount_entries(m, listing(m.dom())) + "}"@
}

fn push_counts(out: &mut String, s: &Vec<(String, usize)>)
    ensures
        final(out)@ == old(out)@ + debug_counts(s@),
{
    let ghost start = out@;
    let keys = sorted_pair_keys(s);
    let ghost ks = views_of(keys@);
    out.append("{");
    let mut j: usize = 0;
    assert(ks.take(0) =~= Seq::<Seq<char>>::empty());
    while j < keys.len()
        invariant
            j <= keys@.len(),
            ks == views_of(keys@),
            out@ == start + "{"@ + count_entries(s@, ks.take(j as int)),
        decreases keys@.len() - j,
    {
        let k = keys[j].as_str();
        assert(ks.take(j + 1).drop_last() =~= ks.take(j as int));
        assert(ks.take(j + 1).last() == k@);
        if j > 0 {
            out.append(", ");
        }
        let d = debug_of(k);
        out.append(d.as_str());
        out.append(": ");
        let n = match last_pair(s, k) {
            Some(i) => s[i].1,
            None => 0,
        };
        push_decimal(out, n as u64);
        assert(out@ =~= start + "{"@ + count_entries(s@, ks.take(j + 1)));
        j = j + 1;
    }
    out.append("}");
    assert(ks.take(keys@.len() as int) =~= ks);
}

fn push_amounts(out: &mut String, m: &MaterialVector)
    ensures
        final(out)@ == old(out)@ + debug_amounts(m@),
{
    let ghost start = out@;
    let mut keys: Vec<String> = Vec::new();
    insert_names_of(&mut keys, m);
    let ghost ks = views_of(keys@);
    proof {
        lemma_listing(ks, m@.dom());
    }
    out.append("{");
    let mut j: usize = 0;
    assert(ks.take(0) =~= Seq::<Seq<char>>::empty());
    while j < keys.len()
        invariant
            j <= keys@.len(),
            ks == views_of(keys@),
            out@ == start + "{"@ + amount_entries(m@, ks.take(j as int)),
        decreases keys@.len() - j,
    {
        let k = keys[j].as_str();
        assert(ks.take(j + 1).drop_last() =~= ks.take(j as int));
        assert(ks.take(j + 1).last() == k@);
        if j > 0 {
            out.append(", ");
        }
        let d = debug_of(k);
        out.append(d.as_str());
        out.append(": ");
        push_decimal(out, m.units(k));
        assert(out@ =~= start + "{"@ + amount_entries(m@, ks.take(j + 1)));
        j = j + 1;
    }
    out.append("}");
    assert(ks.take(keys@.len() as int) =~= ks);
}

// ---------------------------------------------------------------------------
// The report.

/// Column headings of the material table.
pub open spec fn audit_header() -> Seq<char> {
    "material              original  unmaterialized  underground  inventory/entity  placed  secondary  consumed/lost  external  unexplained\n"@
}

/// One material's row: every compartment and its unexplained gap.
pub open spec fn audit_row(a: MaterialAudit, name: Seq<char>) -> Seq<char> {
    pad_right(name, 20) + " "@ + pad_left(spec_decimal(amt(a.original@, name)), 10) + " "@ + pad_left(
        spec_decimal(amt(a.unmaterialized@, name)),
        15,
    ) + " "@ + pad_left(spec_decimal(amt(a.underground@, name)), 12) + " "@ + pad_left(
        spec_decimal(amt(a.circulating@, name)),
        17,
    ) + " "@ + pad_left(spec_decimal(amt(a.placed@, name)), 7) + " "@ + pad_left(spec_decimal(amt(a.secondary@, name)), 10)
        + " "@ + pad_left(spec_decimal(amt(a.consumption_loss@, name)), 14) + " "@ + pad_left(
        spec_decimal(amt(a.external_additions@, name)),
        9,
    ) + " "@ + pad_left(spec_signed(gap_value(a.unexplained@, name)), 12) + "\n"@
}

pub open spec fn audit_rows(a: MaterialAudit, ks: Seq<Seq<char>>) -> Seq<char>
    decreases ks.len(),
{
    if ks.len() == 0 {
        Seq::empty()
    } else {
        audit_rows(a, ks.drop_last()) + audit_row(a, ks.last())
    }
}

/// Materials that get a row: those with an original or an external amount.
pub open spec fn row_names(a: MaterialAudit) -> Set<Seq<char>> {
    a.original@.dom().union(a.external_additions@.dom())
}

pub open spec fn status_line(a: MaterialAudit) -> Seq<char> {
    if spec_is_balanced(a) {
        "status: BALANCED (all unexplained deltas are zero)\n"@
    } else {
        "status: CORRUPTION GAP (restore from backup; mass was not invented)\n"@
    }
}

pub open spec fn qualification_lines(a: MaterialAudit) -> Seq<char> {
    "qualification: bronze regions "@ + spec_decimal(a.bronze_bootstrap_regions as nat)
        + ", pessimistic complete technology arcs "@ + spec_decimal(a.pessimistic_technology_arcs as nat) + " (required "@
        + spec_decimal(REQUIRED_TECHNOLOGY_ARCS as nat) + "), critical sites "@ + debug_counts(a.critical_site_counts@)
        + "\n"@ + "qualification: carbonate flux on "@ + spec_decimal(a.major_continents_with_flux as nat) + "/"@
        + spec_decimal(a.major_continents as nat) + " major continents; treasure sites "@ + debug_counts(
        a.treasure_site_counts@,
    ) + "\n"@
}

pub open spec fn failure_lines(f: Seq<String>) -> Seq<char>
    decreases f.len(),
{
    if f.len() == 0 {
        Seq::empty()
    } else {
        failure_lines(f.drop_last()) + "qualification failure: "@ + f.last()@ + "\n"@
    }
}

pub open spec fn verdict_lines(a: MaterialAudit) -> Seq<char> {
    if a.qualification_failures@.len() == 0 {
        "qualification status: PASS\n"@
    } else {
        failure_lines(a.qualification_failures@)
    }
}

pub open spec fn retrogen_lines(s: Seq<(String, String)>, ks: Seq<Seq<char>>) -> Seq<char>
    decreases ks.len(),
{
    if ks.len() == 0 {
        Seq::empty()
    } else {
        retrogen_lines(s, ks.drop_last()) + "retrogen "@ + ks.last() + ": "@ + status_value(s, ks.last()) + "\n"@
    }
}

pub open spec fn source_lines(s: Seq<ExternalSource>, ks: Seq<Seq<char>>) -> Seq<char>
    decreases ks.len(),
{
    if ks.len() == 0 {
        Seq::empty()
    } else {
        source_lines(s, ks.drop_last()) + "external source "@ + ks.last() + ": "@ + debug_amounts(
            source_materials(s, ks.last()),
        ) + "\n"@
    }
}

/// The whole report: the table in material order, the balance status, the
/// qualification facts and failures, then retrogen policies by resource and
/// external sources by name.
pub open spec fn spec_audit_render(a: MaterialAudit) -> Seq<char> {
    audit_header() + audit_rows(a, listing(row_names(a))) + status_line(a) + qualification_lines(a) + verdict_lines(a)
        + retrogen_lines(a.retrogen_status@, listing(keys_of(a.retrogen_status@).to_set())) + source_lines(
        a.external_sources@,
        listing(source_keys(a.external_sources@).to_set()),
    )
}

fn push_row(out: &mut String, a: &MaterialAudit, name: &str)
    ensures
        final(out)@ == old(out)@ + audit_row(*a, name@),
{
    let ghost start = out@;
    push_right(out, name, 20);
    out.append(" ");
    push_amount(out, a.original.units(name), 10);
    out.append(" ");
    push_amount(out, a.unmaterialized.units(name), 15);
    out.append(" ");
    push_amount(out, a.underground.units(name), 12);
    out.append(" ");
    push_amount(out, a.circulating.units(name), 17);
    out.append(" ");
    push_amount(out, a.placed.units(name), 7);
    out.append(" ");
    push_amount(out, a.secondary.units(name), 10);
    out.append(" ");
    push_amount(out, a.consumption_loss.units(name), 14);
    out.append(" ");
    push_amount(out, a.external_additions.units(name), 9);
    out.append(" ");
    let gap: i128 = match last_pair(&a.unexplained, name) {
        Some(i) => a.unexplained[i].1,
        None => 0,
    };
    let g = signed_text(gap);
    push_left(out, g.as_str(), 12);
    out.append("\n");
    assert(out@ =~= start + audit_row(*a, name@));
}

fn push_table(out: &mut String, a: &MaterialAudit)
    ensures
        final(out)@ == old(out)@ + audit_rows(*a, listing(row_names(*a))),
{
    let mut names: Vec<String> = Vec::new();
    insert_names_of(&mut names, &a.original);
    insert_names_of(&mut names, &a.external_additions);
    let ghost ks = views_of(names@);
    proof {
        lemma_listing(ks, row_names(*a));
    }
    let ghost head = out@;
    let mut j: usize = 0;
    assert(ks.take(0) =~= Seq::<Seq<char>>::empty());
    assert(head + audit_rows(*a, ks.take(0)) =~= head);
    while j < names.len()
        invariant
            j <= names@.len(),
            ks == views_of(names@),
            out@ == head + audit_rows(*a, ks.take(j as int)),
        decreases names@.len() - j,
    {
        assert(ks.take(j + 1).drop_last() =~= ks.take(j as int));
        assert(ks.take(j + 1).last() == names@[j as int]@);
        push_row(out, a, names[j].as_str());
        assert(out@ =~= head + audit_rows(*a, ks.take(j + 1)));
        j = j + 1;
    }
    assert(ks.take(names@.len() as int) =~= ks);
}

fn push_summary(out: &mut String, a: &MaterialAudit)
    ensures
        final(out)@ == old(out)@ + status_line(*a) + qualification_lines(*a),
{
    let ghost start = out@;
    if a.is_balanced() {
        out.append("status: BALANCED (all unexplained deltas are zero)\n");
    } else {
        out.append("status: CORRUPTION GAP (restore from backup; mass was not invented)\n");
    }
    out.append("qualification: bronze regions ");
    push_decimal(out, a.bronze_bootstrap_regions as u64);
    out.append(", pessimistic complete technology arcs ");
    push_decimal(out, a.pessimistic_technology_arcs);
    out.append(" (required ");
    push_decimal(out, REQUIRED_TECHNOLOGY_ARCS);
    out.append("), critical sites ");
    push_counts(out, &a.critical_site_counts);
    out.append("\n");
    out.append("qualification: carbonate flux on ");
    push_decimal(out, a.major_continents_with_flux as u64);
    out.append("/");
    push_decimal(out, a.major_continents as u64);
    out.append(" major continents; treasure sites ");
    push_counts(out, &a.treasure_site_counts);
    out.append("\n");
    assert(out@ =~= start + status_line(*a) + qualification_lines(*a));
}

fn push_verdict(out: &mut String, a: &MaterialAudit)
    ensures
        final(out)@ == old(out)@ + verdict_lines(*a),
{
    let ghost start = out@;
    if a.qualification_failures.len() == 0 {
        out.append("qualification status: PASS\n");
    } else {
        let mut f: usize = 0;
        let ghost fs = a.qualification_failures@;
        assert(start + failure_lines(fs.take(0)) =~= start);
        while f < a.qualification_failures.len()
            invariant
                f <= fs.len(),
                fs == a.qualification_failures@,
                out@ == start + failure_lines(fs.take(f as int)),
            decreases fs.len() - f,
        {
            assert(fs.take(f + 1).drop_last() =~= fs.take(f as int));
            assert(fs.take(f + 1).last() == fs[f as int]);
            out.append("qualification failure: ");
            out.append(a.qualification_failures[f].as_str());
            out.append("\n");
            assert(out@ =~= start + failure_lines(fs.take(f + 1)));
            f = f + 1;
        }
        assert(fs.take(fs.len() as int) =~= fs);
    }
}

fn push_retrogen(out: &mut String, s: &Vec<(String, String)>)
    ensures
        final(out)@ == old(out)@ + retrogen_lines(s@, listing(keys_of(s@).to_set())),
{
    let ghost start = out@;
    let resources = sorted_pair_keys(s);
    let ghost rs = views_of(resources@);
    let mut r: usize = 0;
    assert(start + retrogen_lines(s@, rs.take(0)) =~= start);
    while r < resources.len()
        invariant
            r <= rs.len(),
            rs == views_of(resources@),
            out@ == start + retrogen_lines(s@, rs.take(r as int)),
        decreases rs.len() - r,
    {
        let k = resources[r].as_str();
        assert(rs.take(r + 1).drop_last() =~= rs.take(r as int));
        assert(rs.take(r + 1).last() == k@);
        out.append("retrogen ");
        out.append(k);
        out.append(": ");
        match last_pair(s, k) {
            Some(i) => out.append(s[i].1.as_str()),
            None => {},
        }
        out.append("\n");
        assert(out@ =~= start + retrogen_lines(s@, rs.take(r + 1)));
        r = r + 1;
    }
    assert(rs.take(rs.len() as int) =~= rs);
}

fn push_sources(out: &mut String, s: &Vec<ExternalSource>)
    ensures
        final(out)@ == old(out)@ + source_lines(s@, listing(source_keys(s@).to_set())),
{
    let ghost start = out@;
    let sources = sorted_source_keys(s);
    let ghost ss = views_of(sources@);
    let mut e: usize = 0;
    assert(start + source_lines(s@, ss.take(0)) =~= start);
    while e < sources.len()
        invariant
            e <= ss.len(),
            ss == views_of(sources@),
            out@ == start + source_lines(s@, ss.take(e as int)),
        decreases ss.len() - e,
    {
        let k = sources[e].as_str();
        assert(ss.take(e + 1).drop_last() =~= ss.take(e as int));
        assert(ss.take(e + 1).last() == k@);
        out.append("external source ");
        out.append(k);
        out.append(": ");
        match last_source(s, k) {
            Some(i) => push_amounts(out, &s[i].materials),
            None => {
                let empty = MaterialVector::new();
                push_amounts(out, &empty);
            },
        }
        out.append("\n");
        assert(out@ =~= start + source_lines(s@, ss.take(e + 1)));
        e = e + 1;
    }
    assert(ss.take(ss.len() as int) =~= ss);
}

impl MaterialAudit {
    /// The audit as printed text.
    pub fn render(&self) -> (r: String)
        ensures
            r@ == spec_audit_render(*self),
    {
        let mut out = String::from_str(
            "material              original  unmaterialized  underground  inventory/entity  placed  secondary  consumed/lost  external  unexplained\n",
        );
        push_table(&mut out, self);
        push_summary(&mut out, self);
        push_verdict(&mut out, self);
        push_retrogen(&mut out, &self.retrogen_status);
        push_sources(&mut out, &self.external_sources);
        assert(out@ =~= spec_audit_render(*self));
        out
    }
}

} // verus!
