//! Turning recovered fractional stock back into ordinary recipe items.
//!
//! Salvage and dismantling leave fractional material in a forge's stock bank
//! or a region's salvage pool. Consolidation drains whole items from them,
//! choosing among the registry's plain material items by a fixed preference
//! order, so recovered material re-enters the recipe graph without any unit
//! being minted or lost.

use vstd::prelude::*;
use crate::vector::{MaterialVector, amt, spec_add_vector, sat_mul};
use crate::text::{spec_ends_with, spec_starts_with, ends_with, starts_with, contains_char};
use crate::registry::{ItemId, Registry, ItemDef};
use crate::inventory::ItemStack;
use crate::materials::{
    covers, spec_subtract, subtract_vector, scaled, spec_is_secondary, is_secondary_item, seq_sum, MaterialLedger,
    MaterialDelta, MaterialDeltaAction, LedgerError, SalvageRegion, ledger_wf, pool_view, has_region, find_pool,
    lemma_pool_view_at, validate_refused, next_seq,
};
use crate::vector::{sat_add, no_zero};

verus! {

// ---------------------------------------------------------------------------
// Names.

/// The part of a qualified name after its last `:`; the whole name when it
/// has none.
pub open spec fn spec_leaf(s: Seq<char>) -> Seq<char>
    decreases s.len(),
{
    if s.len() == 0 {
        s
    } else if s.last() == ':' {
        Seq::empty()
    } else {
        spec_leaf(s.drop_last()).push(s.last())
    }
}

proof fn lemma_leaf_suffix(s: Seq<char>)
    ensures
        exists|k: int| 0 <= k <= s.len() && spec_leaf(s) == s.subrange(k, s.len() as int),
    decreases s.len(),
{
    if s.len() == 0 {
        assert(spec_leaf(s) == s.subrange(0, 0));
    } else if s.last() == ':' {
        assert(spec_leaf(s) =~= s.subrange(s.len() as int, s.len() as int));
    } else {
        lemma_leaf_suffix(s.drop_last());
        let k = choose|k: int| 0 <= k <= s.drop_last().len() && spec_leaf(s.drop_last()) == s.drop_last().subrange(k, s.drop_last().len() as int);
        assert(spec_leaf(s) =~= s.subrange(k, s.len() as int));
    }
}

/// The leaf of a qualified name.
pub fn leaf_of(s: &str) -> (r: &str)
    ensures
        r@ == spec_leaf(s@),
{
    let n = s.unicode_len();
    let mut start: usize = 0;
    let mut i: usize = 0;
    assert(s@.take(0) =~= Seq::<char>::empty());
    while i < n
        invariant
            n == s@.len(),
            start <= i <= n,
            spec_leaf(s@.take(i as int)) =~= s@.subrange(start as int, i as int),
        decreases n - i,
    {
        let c = s.get_char(i);
        proof {
            assert(s@.take(i + 1).drop_last() =~= s@.take(i as int));
            assert(s@.take(i + 1).last() == c);
        }
        if c == ':' {
            start = i + 1;
        }
        i = i + 1;
        assert(spec_leaf(s@.take(i as int)) =~= s@.subrange(start as int, i as int));
    }
    assert(s@.take(n as int) =~= s@);
    s.substring_char(start, n)
}

/// `a` sorts before `b` character by character, a proper prefix first: the
/// order of `str` comparison.
pub open spec fn str_lt(a: Seq<char>, b: Seq<char>) -> bool
    decreases a.len(),
{
    if b.len() == 0 {
        false
    } else if a.len() == 0 {
        true
    } else if a[0] != b[0] {
        (a[0] as int) < (b[0] as int)
    } else {
        str_lt(a.drop_first(), b.drop_first())
    }
}

pub proof fn lemma_str_lt_irreflexive(a: Seq<char>)
    ensures
        !str_lt(a, a),
    decreases a.len(),
{
    if a.len() > 0 {
        lemma_str_lt_irreflexive(a.drop_first());
    }
}

pub proof fn lemma_str_lt_asymmetric(a: Seq<char>, b: Seq<char>)
    ensures
        !(str_lt(a, b) && str_lt(b, a)),
    decreases a.len(),
{
    if a.len() > 0 && b.len() > 0 && a[0] == b[0] {
        lemma_str_lt_asymmetric(a.drop_first(), b.drop_first());
    }
}

pub proof fn lemma_str_lt_transitive(a: Seq<char>, b: Seq<char>, c: Seq<char>)
    requires
        str_lt(a, b),
        str_lt(b, c),
    ensures
        str_lt(a, c),
    decreases a.len(),
{
    if a.len() > 0 && b.len() > 0 && c.len() > 0 && a[0] == b[0] && b[0] == c[0] {
        lemma_str_lt_transitive(a.drop_first(), b.drop_first(), c.drop_first());
    }
}

pub proof fn lemma_str_lt_total(a: Seq<char>, b: Seq<char>)
    requires
        a != b,
    ensures
        str_lt(a, b) || str_lt(b, a),
    decreases a.len(),
{
    if a.len() == 0 {
        if b.len() == 0 {
            assert(a =~= b);
        }
    } else if b.len() == 0 {
    } else if a[0] != b[0] {
        assert((a[0] as int) != (b[0] as int));
    } else {
        assert(a =~= seq![a[0]] + a.drop_first());
        assert(b =~= seq![b[0]] + b.drop_first());
        lemma_str_lt_total(a.drop_first(), b.drop_first());
    }
}

/// Whether `a` sorts before `b`.
pub fn str_less(a: &str, b: &str) -> (r: bool)
    ensures
        r == str_lt(a@, b@),
{
    let n = a.unicode_len();
    let m = b.unicode_len();
    let mut i: usize = 0;
    assert(a@.skip(0) =~= a@);
    assert(b@.skip(0) =~= b@);
    while i < n && i < m
        invariant
            n == a@.len(),
            m == b@.len(),
            i <= n,
            i <= m,
            str_lt(a@, b@) == str_lt(a@.skip(i as int), b@.skip(i as int)),
        decreases n - i,
    {
        let x = a.get_char(i);
        let y = b.get_char(i);
        assert(a@.skip(i as int)[0] == x);
        assert(b@.skip(i as int)[0] == y);
        if x != y {
            return (x as u32) < (y as u32);
        }
        assert(a@.skip(i as int).drop_first() =~= a@.skip(i + 1));
        assert(b@.skip(i as int).drop_first() =~= b@.skip(i + 1));
        i = i + 1;
    }
    i < m && i == n
}

// ---------------------------------------------------------------------------
// Which items consolidation makes, in which order.

/// Preference of a consolidation output by its leaf name: ingots first, then
/// powders and concentrates, then other stock, raw ores last.
pub open spec fn consolidation_rank(name: Seq<char>) -> int {
    let leaf = spec_leaf(name);
    if spec_ends_with(leaf, "_ingot"@) {
        0
    } else if spec_ends_with(leaf, "_powder"@) || spec_ends_with(leaf, "_concentrate"@) {
        1
    } else if spec_starts_with(leaf, "raw_"@) {
        3
    } else {
        2
    }
}

fn rank_of(name: &str) -> (r: u8)
    ensures
        r == consolidation_rank(name@),
{
    let leaf = leaf_of(name);
    proof {
        reveal_strlit("_ingot");
        reveal_strlit("_powder");
        reveal_strlit("_concentrate");
        reveal_strlit("raw_");
    }
    if ends_with(leaf, "_ingot") {
        0
    } else if ends_with(leaf, "_powder") || ends_with(leaf, "_concentrate") {
        1
    } else if starts_with(leaf, "raw_") {
        3
    } else {
        2
    }
}

/// A plain, declared, non-placeable, non-wearing item with material that is
/// not itself a salvage intermediate or secondary scale.
pub open spec fn consolidation_eligible(d: ItemDef) -> bool {
    &&& d.materials_declared
    &&& d.materials@.dom().len() != 0
    &&& d.durability == 0
    &&& !d.places
    &&& !d.name@.contains('/')
    &&& !spec_is_secondary(d.name@)
}

/// Item `i` is preferred to item `j`: lower rank, then more constituents (an
/// alloy before its parts), then name order, then registry order.
pub open spec fn consolidation_before(reg: Registry, i: int, j: int) -> bool {
    let a = reg.items@[i];
    let b = reg.items@[j];
    let ra = consolidation_rank(a.name@);
    let rb = consolidation_rank(b.name@);
    let la = a.materials@.dom().len();
    let lb = b.materials@.dom().len();
    ra < rb || (ra == rb && (la > lb || (la == lb && (str_lt(a.name@, b.name@) || (a.name@ == b.name@ && i < j)))))
}

proof fn lemma_before_asymmetric(reg: Registry, i: int, j: int)
    ensures
        !(consolidation_before(reg, i, j) && consolidation_before(reg, j, i)),
{
    lemma_str_lt_asymmetric(reg.items@[i].name@, reg.items@[j].name@);
    lemma_str_lt_irreflexive(reg.items@[i].name@);
}

proof fn lemma_before_transitive(reg: Registry, i: int, j: int, k: int)
    requires
        consolidation_before(reg, i, j),
        consolidation_before(reg, j, k),
    ensures
        consolidation_before(reg, i, k),
{
    let (a, b, c) = (reg.items@[i].name@, reg.items@[j].name@, reg.items@[k].name@);
    if str_lt(a, b) && str_lt(b, c) {
        lemma_str_lt_transitive(a, b, c);
    }
}

proof fn lemma_before_total(reg: Registry, i: int, j: int)
    requires
        i != j,
    ensures
        consolidation_before(reg, i, j) || consolidation_before(reg, j, i),
{
    let (a, b) = (reg.items@[i].name@, reg.items@[j].name@);
    if a != b {
        lemma_str_lt_total(a, b);
    }
}

pub open spec fn preference_sorted(reg: Registry, s: Seq<u16>) -> bool {
    forall|a: int, b: int| 0 <= a < b < s.len() ==> consolidation_before(reg, s[a] as int, s[b] as int)
}

pub open spec fn eligible_index(reg: Registry, x: u16) -> bool {
    (x as int) < reg.items@.len() && consolidation_eligible(reg.items@[x as int])
}

/// Every eligible item, most preferred first.
pub open spec fn consolidation_order(reg: Registry) -> Seq<u16> {
    choose|s: Seq<u16>| preference_sorted(reg, s) && forall|x: u16| #[trigger] s.contains(x) <==> eligible_index(reg, x)
}

proof fn lemma_sorted_unique(reg: Registry, a: Seq<u16>, b: Seq<u16>)
    requires
        preference_sorted(reg, a),
        preference_sorted(reg, b),
        forall|x: u16| #[trigger] a.contains(x) <==> b.contains(x),
    ensures
        a == b,
    decreases a.len(),
{
    if a.len() == 0 {
        if b.len() > 0 {
            assert(b.contains(b[0]));
            assert(a.contains(b[0]));
        }
        assert(a =~= b);
    } else {
        assert(a.contains(a[0]));
        assert(b.contains(a[0]));
        assert(b.len() > 0);
        assert(b.contains(b[0]));
        assert(a.contains(b[0]));
        let ja = choose|j: int| 0 <= j < a.len() && a[j] == b[0];
        let jb = choose|j: int| 0 <= j < b.len() && b[j] == a[0];
        assert(a[0] == b[0]) by {
            if a[0] != b[0] {
                assert(ja > 0 && jb > 0);
                assert(consolidation_before(reg, a[0] as int, a[ja] as int));
                assert(consolidation_before(reg, b[0] as int, b[jb] as int));
                lemma_before_asymmetric(reg, a[0] as int, b[0] as int);
            }
        }
        let ta = a.drop_first();
        let tb = b.drop_first();
        assert forall|x: u16| #[trigger] ta.contains(x) <==> tb.contains(x) by {
            if ta.contains(x) {
                let i = choose|i: int| 0 <= i < ta.len() && ta[i] == x;
                assert(a[i + 1] == x);
                assert(a.contains(x));
                assert(b.contains(x));
                let j = choose|j: int| 0 <= j < b.len() && b[j] == x;
                assert(consolidation_before(reg, a[0] as int, a[i + 1] as int));
                if j == 0 {
                    lemma_before_asymmetric(reg, x as int, x as int);
                }
                assert(tb[j - 1] == x);
            }
            if tb.contains(x) {
                let i = choose|i: int| 0 <= i < tb.len() && tb[i] == x;
                assert(b[i + 1] == x);
                assert(b.contains(x));
                assert(a.contains(x));
                let j = choose|j: int| 0 <= j < a.len() && a[j] == x;
                assert(consolidation_before(reg, b[0] as int, b[i + 1] as int));
                if j == 0 {
                    lemma_before_asymmetric(reg, x as int, x as int);
                }
                assert(ta[j - 1] == x);
            }
        }
        lemma_sorted_unique(reg, ta, tb);
        assert(a =~= seq![a[0]] + ta);
        assert(b =~= seq![b[0]] + tb);
    }
}

fn eligible(reg: &Registry, i: usize) -> (r: bool)
    requires
        i < reg.items@.len(),
        i < 0x10000,
    ensures
        r == consolidation_eligible(reg.items@[i as int]),
{
    let d = &reg.items[i];
    d.materials_declared && !d.materials.is_empty() && d.durability == 0 && !d.places && !contains_char(d.name.as_str(), '/')
        && !is_secondary_item(reg, ItemId(i as u16))
}

fn before(reg: &Registry, i: u16, j: u16) -> (r: bool)
    requires
        (i as int) < reg.items@.len(),
        (j as int) < reg.items@.len(),
    ensures
        r == consolidation_before(*reg, i as int, j as int),
{
    let a = &reg.items[i as usize];
    let b = &reg.items[j as usize];
    let ra = rank_of(a.name.as_str());
    let rb = rank_of(b.name.as_str());
    let la = a.materials.len();
    let lb = b.materials.len();
    if ra != rb {
        return ra < rb;
    }
    if la != lb {
        return la > lb;
    }
    if str_less(a.name.as_str(), b.name.as_str()) {
        return true;
    }
    crate::text::str_eq(a.name.as_str(), b.name.as_str()) && i < j
}

/// The eligible items, most preferred first.
fn preference_order(reg: &Registry) -> (r: Vec<u16>)
    requires
        reg.items@.len() <= 0x10000,
    ensures
        r@ == consolidation_order(*reg),
        preference_sorted(*reg, r@),
        forall|x: u16| #[trigger] r@.contains(x) <==> eligible_index(*reg, x),
{
    let n = reg.items.len();
    let mut out: Vec<u16> = Vec::new();
    let mut i: usize = 0;
    while i < n
        invariant
            n == reg.items@.len(),
            n <= 0x10000,
            i <= n,
            preference_sorted(*reg, out@),
            forall|x: u16| #[trigger] out@.contains(x) <==> (x < i && eligible_index(*reg, x)),
        decreases n - i,
    {
        if eligible(reg, i) {
            let x = i as u16;
            let mut p: usize = 0;
            proof {
                assert forall|k: int| 0 <= k < out@.len() implies (#[trigger] out@[k] as int) < reg.items@.len() by {
                    assert(out@.contains(out@[k]));
                }
            }
            while p < out.len() && before(reg, out[p], x)
                invariant
                    p <= out@.len(),
                    (x as int) < reg.items@.len(),
                    forall|k: int| 0 <= k < out@.len() ==> (#[trigger] out@[k] as int) < reg.items@.len(),
                    forall|k: int| 0 <= k < p ==> consolidation_before(*reg, #[trigger] out@[k] as int, x as int),
                decreases out@.len() - p,
            {
                p = p + 1;
            }
            let ghost before_ins = out@;
            proof {
                assert forall|k: int| 0 <= k < before_ins.len() implies before_ins[k] != x by {
                    assert(before_ins.contains(before_ins[k]));
                }
                if p < before_ins.len() {
                    assert(!consolidation_before(*reg, before_ins[p as int] as int, x as int));
                    lemma_before_total(*reg, before_ins[p as int] as int, x as int);
                }
            }
            out.insert(p, x);
            proof {
                let after = out@;
                assert forall|a: int, b: int| 0 <= a < b < after.len() implies consolidation_before(*reg, after[a] as int, after[b] as int) by {
                    if b < p {
                    } else if b == p {
                        assert(after[a] == before_ins[a]);
                    } else if a == p {
                        assert(after[b] == before_ins[b - 1]);
                        if b - 1 > p {
                            lemma_before_transitive(*reg, x as int, before_ins[p as int] as int, before_ins[b - 1] as int);
                        }
                    } else if a < p {
                        assert(after[a] == before_ins[a]);
                        assert(after[b] == before_ins[b - 1]);
                    } else {
                        assert(after[a] == before_ins[a - 1]);
                        assert(after[b] == before_ins[b - 1]);
                    }
                }
                assert forall|y: u16| #[trigger] after.contains(y) <==> (y < i + 1 && eligible_index(*reg, y)) by {
                    if after.contains(y) {
                        let j = choose|j: int| 0 <= j < after.len() && after[j] == y;
                        if j < p {
                            assert(before_ins[j] == y);
                            assert(before_ins.contains(y));
                        } else if j > p {
                            assert(before_ins[j - 1] == y);
                            assert(before_ins.contains(y));
                        }
                    }
                    if y < i + 1 && eligible_index(*reg, y) {
                        if y == x {
                            assert(after[p as int] == y);
                        } else {
                            assert(before_ins.contains(y));
                            let j = choose|j: int| 0 <= j < before_ins.len() && before_ins[j] == y;
                            if j < p {
                                assert(after[j] == y);
                            } else {
                                assert(after[j + 1] == y);
                            }
                        }
                    }
                }
            }
        } else {
            proof {
                assert forall|y: u16| #[trigger] out@.contains(y) <==> (y < i + 1 && eligible_index(*reg, y)) by {
                    if y == i as u16 {
                        assert(!eligible_index(*reg, y));
                    }
                }
            }
        }
        i = i + 1;
    }
    proof {
        let s = out@;
        assert(preference_sorted(*reg, s) && forall|x: u16| #[trigger] s.contains(x) <==> eligible_index(*reg, x));
        lemma_sorted_unique(*reg, s, consolidation_order(*reg));
    }
    out
}

// ---------------------------------------------------------------------------
// Draining the bank.

pub open spec fn max1(u: int) -> int {
    if u < 1 {
        1
    } else {
        u
    }
}

/// `q` whole items of `mats` can be drawn from `bank`, each constituent
/// counting at least one unit.
pub open spec fn fits_stock(bank: Map<Seq<char>, u64>, mats: Map<Seq<char>, u64>, q: nat) -> bool {
    forall|k: Seq<char>| #[trigger] mats.contains_key(k) ==> max1(mats[k] as int) * q <= amt(bank, k)
}

/// The most whole items of `mats`, at most `c`, that `bank` funds.
pub open spec fn stock_avail(bank: Map<Seq<char>, u64>, mats: Map<Seq<char>, u64>, c: nat) -> nat
    decreases c,
{
    if c == 0 {
        0
    } else if fits_stock(bank, mats, c) {
        c
    } else {
        stock_avail(bank, mats, (c - 1) as nat)
    }
}

proof fn lemma_fits_stock_down(bank: Map<Seq<char>, u64>, mats: Map<Seq<char>, u64>, p: nat, q: nat)
    requires
        fits_stock(bank, mats, q),
        p <= q,
    ensures
        fits_stock(bank, mats, p),
{
    assert forall|k: Seq<char>| #[trigger] mats.contains_key(k) implies max1(mats[k] as int) * p <= amt(bank, k) by {
        let u = max1(mats[k] as int);
        assert(u * p <= u * q) by (nonlinear_arith)
            requires
                0 <= u,
                p <= q,
        ;
    }
}

proof fn lemma_stock_avail_is(bank: Map<Seq<char>, u64>, mats: Map<Seq<char>, u64>, c: nat, a: nat)
    requires
        a <= c,
        fits_stock(bank, mats, a),
        a < c ==> !fits_stock(bank, mats, a + 1),
    ensures
        stock_avail(bank, mats, c) == a,
    decreases c,
{
    if c > a {
        if fits_stock(bank, mats, c) {
            lemma_fits_stock_down(bank, mats, a + 1, c);
        }
        lemma_stock_avail_is(bank, mats, (c - 1) as nat, a);
    }
}

proof fn lemma_stock_avail_fits(bank: Map<Seq<char>, u64>, mats: Map<Seq<char>, u64>, c: nat)
    ensures
        stock_avail(bank, mats, c) <= c,
        fits_stock(bank, mats, stock_avail(bank, mats, c)),
    decreases c,
{
    if c == 0 {
        assert forall|k: Seq<char>| #[trigger] mats.contains_key(k) implies max1(mats[k] as int) * 0nat <= amt(bank, k) by {
            assert(max1(mats[k] as int) * 0nat == 0) by (nonlinear_arith);
        }
    } else if !fits_stock(bank, mats, c) {
        lemma_stock_avail_fits(bank, mats, (c - 1) as nat);
    }
}

proof fn lemma_div_fits(x: int, u: int, q: int)
    requires
        u > 0,
        x >= 0,
        0 <= q <= x / u,
    ensures
        u * q <= x,
{
    assert(u * q <= u * (x / u)) by (nonlinear_arith)
        requires
            u > 0,
            q <= x / u,
    ;
    assert(x == u * (x / u) + x % u) by (nonlinear_arith)
        requires
            u > 0,
    ;
    assert(x % u >= 0) by (nonlinear_arith)
        requires
            u > 0,
    ;
}

proof fn lemma_div_tight(x: int, u: int)
    requires
        u > 0,
        x >= 0,
    ensures
        u * (x / u + 1) > x,
{
    assert(x == u * (x / u) + x % u) by (nonlinear_arith)
        requires
            u > 0,
    ;
    assert(x % u < u) by (nonlinear_arith)
        requires
            u > 0,
    ;
    assert(u * (x / u + 1) == u * (x / u) + u) by (nonlinear_arith);
}

/// How many whole items of `mats` the bank funds.
fn stock_count(bank: &MaterialVector, mats: &MaterialVector) -> (r: u64)
    requires
        mats@.dom().len() != 0,
    ensures
        r == stock_avail(bank@, mats@, u64::MAX as nat),
{
    let n = mats.len();
    let mut q: u64 = u64::MAX;
    let mut i: usize = 0;
    while i < n
        invariant
            n == mats.spec_len(),
            mats.consistent(),
            i <= n,
            forall|j: int| 0 <= j < i ==> q <= #[trigger] amt(bank@, mats.name_at_spec(j)) / (max1(mats.units_at_spec(j) as int) as nat),
            q == u64::MAX || exists|j: int| 0 <= j < i && q == #[trigger] amt(bank@, mats.name_at_spec(j)) / (max1(mats.units_at_spec(j) as int) as nat),
        decreases n - i,
    {
        let u = mats.units_at(i);
        let d: u64 = if u < 1 { 1 } else { u };
        let have: u64 = match bank.get(mats.name_at(i)) {
            Some(v) => v,
            None => 0,
        };
        let qi = have / d;
        assert(qi == amt(bank@, mats.name_at_spec(i as int)) / (max1(mats.units_at_spec(i as int) as int) as nat));
        if qi < q {
            q = qi;
        }
        i = i + 1;
    }
    proof {
        mats.lemma_consistent();
        assert forall|k: Seq<char>| #[trigger] mats@.contains_key(k) implies max1(mats@[k] as int) * (q as nat) <= amt(bank@, k) by {
            let j = choose|j: int| 0 <= j < mats.spec_len() && mats.name_at_spec(j) == k;
            lemma_div_fits(amt(bank@, k) as int, max1(mats.units_at_spec(j) as int), q as int);
        }
        if q < u64::MAX {
            let j = choose|j: int| 0 <= j < n && q == #[trigger] amt(bank@, mats.name_at_spec(j)) / (max1(mats.units_at_spec(j) as int) as nat);
            let k = mats.name_at_spec(j);
            lemma_div_tight(amt(bank@, k) as int, max1(mats.units_at_spec(j) as int));
            assert(mats@.contains_key(k));
        }
        lemma_stock_avail_is(bank@, mats@, u64::MAX as nat, q as nat);
    }
    q
}

/// `count` items of `item` in stacks of at most `ms`, full stacks first.
pub open spec fn spec_split(item: ItemId, durability: u32, count: nat, ms: nat) -> Seq<ItemStack>
    decreases count,
{
    if count == 0 || ms == 0 {
        Seq::empty()
    } else {
        let take = if count < ms { count } else { ms };
        seq![ItemStack { item, count: take as u32, durability, arcane_id: 0 }] + spec_split(item, durability, (count - take) as nat, ms)
    }
}

/// Drain the bank along `order`: each item takes as many whole copies as the
/// bank funds, in stacks of its stack size.
pub open spec fn spec_consolidate(reg: Registry, bank: Map<Seq<char>, u64>, order: Seq<u16>) -> (Map<Seq<char>, u64>, Seq<ItemStack>)
    decreases order.len(),
{
    if order.len() == 0 {
        (bank, Seq::empty())
    } else {
        let i = order[0];
        let d = reg.items@[i as int];
        let count = stock_avail(bank, d.materials@, u64::MAX as nat);
        if count == 0 {
            spec_consolidate(reg, bank, order.drop_first())
        } else {
            let bank2 = spec_subtract(bank, spec_add_vector(Map::empty(), d.materials@, count as int));
            let rest = spec_consolidate(reg, bank2, order.drop_first());
            (rest.0, spec_split(ItemId(i), d.durability, count, max1(d.max_stack as int) as nat) + rest.1)
        }
    }
}

/// Drain every complete, recipe-usable item from a forge's fractional stock
/// bank. Mixed vectors (bronze) come before their constituents, so an alloy
/// is preserved where the bank can fund it. Any remainder stays in the bank.
pub fn consolidate_reclaimed_stock(reg: &Registry, bank: &mut MaterialVector) -> (r: Vec<ItemStack>)
    requires
        reg.items@.len() <= 0x10000,
    ensures
        (final(bank)@, r@) == spec_consolidate(*reg, old(bank)@, consolidation_order(*reg)),
        forall|m: Seq<char>| #[trigger] amt(old(bank)@, m) == amt(final(bank)@, m) + seq_sum(r@, f_stack_units(*reg, m)),
        forall|x: u16|
            #[trigger] eligible_index(*reg, x) && no_zero(reg.items@[x as int].materials@) ==> !fits_stock(
                final(bank)@,
                reg.items@[x as int].materials@,
                1,
            ),
{
    let order = preference_order(reg);
    let mut outputs: Vec<ItemStack> = Vec::new();
    let mut k: usize = 0;
    proof {
        assert(order@.skip(0) =~= order@);
        let r0 = spec_consolidate(*reg, bank@, order@);
        assert(outputs@ + r0.1 =~= r0.1);
    }
    while k < order.len()
        invariant
            k <= order@.len(),
            order@ == consolidation_order(*reg),
            forall|x: u16| #[trigger] order@.contains(x) ==> eligible_index(*reg, x),
            ({
                let rest = spec_consolidate(*reg, bank@, order@.skip(k as int));
                spec_consolidate(*reg, old(bank)@, consolidation_order(*reg)) == (rest.0, outputs@ + rest.1)
            }),
        decreases order@.len() - k,
    {
        let ghost rest = order@.skip(k as int);
        let ghost b0 = bank@;
        let ghost out0 = outputs@;
        proof {
            assert(rest[0] == order@[k as int]);
            assert(rest.drop_first() =~= order@.skip(k + 1));
            assert(order@.contains(order@[k as int]));
        }
        let i = order[k];
        let d = &reg.items[i as usize];
        let count = stock_count(bank, &d.materials);
        if count != 0 {
            let debit = scaled(&d.materials, count);
            proof {
                lemma_stock_avail_fits(bank@, d.materials@, u64::MAX as nat);
                assert(covers(bank@, debit@)) by {
                    assert forall|m: Seq<char>| #[trigger] debit@.contains_key(m) implies debit@[m] <= amt(bank@, m) by {
                        assert(d.materials@.contains_key(m));
                        assert(max1(d.materials@[m] as int) * (count as nat) <= amt(bank@, m));
                        assert(d.materials@[m] * (count as nat) <= max1(d.materials@[m] as int) * (count as nat)) by (nonlinear_arith)
                            requires
                                d.materials@[m] <= max1(d.materials@[m] as int),
                        ;
                    }
                }
            }
            let _ = subtract_vector(bank, &debit);
            let ms: u32 = if d.max_stack < 1 { 1 } else { d.max_stack };
            let mut remaining: u64 = count;
            let ghost total = spec_split(ItemId(i), d.durability, count as nat, ms as nat);
            proof {
                assert(outputs@ + total =~= out0 + total);
            }
            while remaining != 0
                invariant
                    ms >= 1,
                    (i as int) < reg.items@.len(),
                    d == reg.items@[i as int],
                    out0 + total == outputs@ + spec_split(ItemId(i), d.durability, remaining as nat, ms as nat),
                decreases remaining,
            {
                let take: u32 = if remaining < ms as u64 { remaining as u32 } else { ms };
                let stack = ItemStack::new(reg, ItemId(i), take);
                let ghost before = outputs@;
                outputs.push(stack);
                proof {
                    let tail = spec_split(ItemId(i), d.durability, (remaining - take) as nat, ms as nat);
                    assert(spec_split(ItemId(i), d.durability, remaining as nat, ms as nat) == seq![stack] + tail);
                    assert(before + (seq![stack] + tail) =~= outputs@ + tail);
                }
                remaining = remaining - take as u64;
            }
            proof {
                let r2 = spec_consolidate(*reg, bank@, order@.skip(k + 1));
                assert(outputs@ + Seq::<ItemStack>::empty() =~= outputs@);
                assert(out0 + (total + r2.1) =~= (out0 + total) + r2.1);
            }
        }
        k = k + 1;
    }
    proof {
        assert(order@.skip(k as int) =~= Seq::<u16>::empty());
        assert(outputs@ + Seq::<ItemStack>::empty() =~= outputs@);
        assert forall|m: Seq<char>| #[trigger] amt(old(bank)@, m) == amt(bank@, m) + seq_sum(outputs@, f_stack_units(*reg, m)) by {
            lemma_consolidation_conserves(*reg, old(bank)@, order@, m);
        }
        lemma_consolidation_exhausts(*reg, old(bank)@, order@);
        assert forall|x: u16|
            #[trigger] eligible_index(*reg, x) && no_zero(reg.items@[x as int].materials@) implies !fits_stock(
                bank@,
                reg.items@[x as int].materials@,
                1,
            ) by {
            assert(order@.contains(x));
            let j = choose|j: int| 0 <= j < order@.len() && order@[j] == x;
            assert(order@[j] == x);
        }
    }
    outputs
}

// ---------------------------------------------------------------------------
// Conservation.

/// Units of `m` that a stack carries.
pub open spec fn f_stack_units(reg: Registry, m: Seq<char>) -> spec_fn(ItemStack) -> int {
    |s: ItemStack| amt(reg.items@[s.item.0 as int].materials@, m) * s.count
}

proof fn lemma_sum_concat<T>(a: Seq<T>, b: Seq<T>, f: spec_fn(T) -> int)
    ensures
        seq_sum(a + b, f) == seq_sum(a, f) + seq_sum(b, f),
    decreases b.len(),
{
    if b.len() == 0 {
        assert(a + b =~= a);
    } else {
        lemma_sum_concat(a, b.drop_last(), f);
        assert((a + b).drop_last() =~= a + b.drop_last());
    }
}

proof fn lemma_split_units(reg: Registry, i: u16, durability: u32, count: nat, ms: nat, m: Seq<char>)
    requires
        1 <= ms <= u32::MAX,
        (i as int) < reg.items@.len(),
    ensures
        seq_sum(spec_split(ItemId(i), durability, count, ms), f_stack_units(reg, m)) == amt(reg.items@[i as int].materials@, m) * count,
    decreases count,
{
    let u = amt(reg.items@[i as int].materials@, m) as int;
    if count == 0 {
        assert(u * 0 == 0) by (nonlinear_arith);
    } else {
        let take: nat = if count < ms { count } else { ms };
        let st = ItemStack { item: ItemId(i), count: take as u32, durability, arcane_id: 0 };
        lemma_split_units(reg, i, durability, (count - take) as nat, ms, m);
        lemma_sum_concat(seq![st], spec_split(ItemId(i), durability, (count - take) as nat, ms), f_stack_units(reg, m));
        let f = f_stack_units(reg, m);
        assert(seq![st].drop_last() =~= Seq::<ItemStack>::empty());
        assert(seq_sum(Seq::<ItemStack>::empty(), f) == 0);
        assert(seq_sum(seq![st], f) == f(st));
        assert(st.count == take);
        assert(f(st) == u * take);
        assert(spec_split(ItemId(i), durability, count, ms) == seq![st] + spec_split(ItemId(i), durability, (count - take) as nat, ms));
        assert(u * take + u * (count - take) == u * count) by (nonlinear_arith);
    }
}

/// Consolidation moves units of each material from the bank into the items
/// it produces, one for one: nothing is minted and nothing is lost.
pub proof fn lemma_consolidation_conserves(reg: Registry, bank: Map<Seq<char>, u64>, order: Seq<u16>, m: Seq<char>)
    requires
        forall|x: u16| #[trigger] order.contains(x) ==> eligible_index(reg, x),
    ensures
        amt(bank, m) == amt(spec_consolidate(reg, bank, order).0, m) + seq_sum(spec_consolidate(reg, bank, order).1, f_stack_units(reg, m)),
    decreases order.len(),
{
    if order.len() > 0 {
        let i = order[0];
        assert(order.contains(i));
        let tail = order.drop_first();
        assert forall|x: u16| #[trigger] tail.contains(x) implies eligible_index(reg, x) by {
            let j = choose|j: int| 0 <= j < tail.len() && tail[j] == x;
            assert(order[j + 1] == x);
            assert(order.contains(x));
        }
        let d = reg.items@[i as int];
        let count = stock_avail(bank, d.materials@, u64::MAX as nat);
        if count == 0 {
            lemma_consolidation_conserves(reg, bank, tail, m);
        } else {
            lemma_stock_avail_fits(bank, d.materials@, u64::MAX as nat);
            let debit = spec_add_vector(Map::empty(), d.materials@, count as int);
            let bank2 = spec_subtract(bank, debit);
            let u = amt(d.materials@, m) as int;
            if d.materials@.contains_key(m) {
                assert(max1(d.materials@[m] as int) * count <= amt(bank, m));
                assert(d.materials@[m] * count <= max1(d.materials@[m] as int) * count) by (nonlinear_arith)
                    requires
                        d.materials@[m] <= max1(d.materials@[m] as int),
                ;
                assert(amt(Map::<Seq<char>, u64>::empty(), m) == 0);
                assert(amt(debit, m) == u * count);
            } else {
                assert(amt(debit, m) == 0);
                assert(u * count == 0) by (nonlinear_arith)
                    requires
                        u == 0,
                ;
            }
            assert(amt(bank2, m) == amt(bank, m) - u * count);
            lemma_consolidation_conserves(reg, bank2, tail, m);
            let ms = max1(d.max_stack as int) as nat;
            lemma_split_units(reg, i, d.durability, count, ms, m);
            let rest = spec_consolidate(reg, bank2, tail);
            lemma_sum_concat(spec_split(ItemId(i), d.durability, count, ms), rest.1, f_stack_units(reg, m));
        }
    }
}

/// The bank after drawing `count` whole items of `mats` from it.
proof fn lemma_draw_amount(bank: Map<Seq<char>, u64>, mats: Map<Seq<char>, u64>, count: nat, m: Seq<char>)
    requires
        fits_stock(bank, mats, count),
    ensures
        amt(spec_subtract(bank, spec_add_vector(Map::empty(), mats, count as int)), m) == amt(bank, m) - amt(mats, m) * count,
{
    let debit = spec_add_vector(Map::empty(), mats, count as int);
    let u = amt(mats, m) as int;
    if mats.contains_key(m) {
        assert(max1(mats[m] as int) * count <= amt(bank, m));
        assert(mats[m] * count <= max1(mats[m] as int) * count) by (nonlinear_arith)
            requires
                mats[m] <= max1(mats[m] as int),
        ;
        assert(amt(Map::<Seq<char>, u64>::empty(), m) == 0);
        assert(amt(debit, m) == u * count);
    } else {
        assert(amt(debit, m) == 0);
        assert(u * count == 0) by (nonlinear_arith)
            requires
                u == 0,
        ;
    }
}

/// A larger bank funds whatever a smaller one funds.
proof fn lemma_fits_stock_grows(small: Map<Seq<char>, u64>, big: Map<Seq<char>, u64>, mats: Map<Seq<char>, u64>, q: nat)
    requires
        fits_stock(small, mats, q),
        forall|k: Seq<char>| #[trigger] amt(small, k) <= amt(big, k),
    ensures
        fits_stock(big, mats, q),
{
    assert forall|k: Seq<char>| #[trigger] mats.contains_key(k) implies max1(mats[k] as int) * q <= amt(big, k) by {
        assert(amt(small, k) <= amt(big, k));
    }
}

/// Below its cap, `stock_avail` is the most the bank funds.
proof fn lemma_stock_avail_max(bank: Map<Seq<char>, u64>, mats: Map<Seq<char>, u64>, c: nat)
    ensures
        stock_avail(bank, mats, c) < c ==> !fits_stock(bank, mats, stock_avail(bank, mats, c) + 1),
    decreases c,
{
    if c > 0 && !fits_stock(bank, mats, c) {
        lemma_stock_avail_max(bank, mats, (c - 1) as nat);
    }
}

/// Consolidation leaves the bank unable to fund one more of any item it
/// considered whose constituents are all positive, and it never adds to the
/// bank.
proof fn lemma_consolidation_exhausts(reg: Registry, bank: Map<Seq<char>, u64>, order: Seq<u16>)
    requires
        forall|x: u16| #[trigger] order.contains(x) ==> eligible_index(reg, x),
    ensures
        forall|k: Seq<char>| #[trigger] amt(spec_consolidate(reg, bank, order).0, k) <= amt(bank, k),
        forall|j: int|
            0 <= j < order.len() && no_zero(reg.items@[order[j] as int].materials@) ==> !fits_stock(
                spec_consolidate(reg, bank, order).0,
                reg.items@[#[trigger] order[j] as int].materials@,
                1,
            ),
    decreases order.len(),
{
    if order.len() > 0 {
        let i = order[0];
        assert(order.contains(i));
        let tail = order.drop_first();
        assert forall|x: u16| #[trigger] tail.contains(x) implies eligible_index(reg, x) by {
            let j = choose|j: int| 0 <= j < tail.len() && tail[j] == x;
            assert(order[j + 1] == x);
            assert(order.contains(x));
        }
        let d = reg.items@[i as int].materials@;
        let cap = u64::MAX as nat;
        let count = stock_avail(bank, d, cap);
        lemma_stock_avail_fits(bank, d, cap);
        lemma_stock_avail_max(bank, d, cap);
        let bank2 = if count == 0 { bank } else { spec_subtract(bank, spec_add_vector(Map::empty(), d, count as int)) };
        assert forall|k: Seq<char>| #[trigger] amt(bank2, k) <= amt(bank, k) by {
            if count != 0 {
                lemma_draw_amount(bank, d, count, k);
                assert(amt(d, k) * count >= 0) by (nonlinear_arith);
            }
        }
        lemma_consolidation_exhausts(reg, bank2, tail);
        let r = spec_consolidate(reg, bank2, tail);
        assert(spec_consolidate(reg, bank, order).0 == r.0);
        assert forall|k: Seq<char>| #[trigger] amt(r.0, k) <= amt(bank, k) by {
            assert(amt(r.0, k) <= amt(bank2, k));
            assert(amt(bank2, k) <= amt(bank, k));
        }
        assert forall|j: int|
            0 <= j < order.len() && no_zero(reg.items@[order[j] as int].materials@) implies !fits_stock(
                r.0,
                reg.items@[#[trigger] order[j] as int].materials@,
                1,
            ) by {
            if j == 0 {
                assert(!fits_stock(bank2, d, 1)) by {
                    assert(d.dom().len() != 0);
                    if count == 0 {
                        assert(!fits_stock(bank, d, 1));
                    } else if count < cap {
                        let k = choose|k: Seq<char>| #[trigger] d.contains_key(k) && !(max1(d[k] as int) * (count + 1) <= amt(bank, k));
                        lemma_draw_amount(bank, d, count, k);
                        assert(d[k] != 0);
                        assert(max1(d[k] as int) == d[k]);
                        assert(d[k] * (count + 1) == d[k] * count + d[k]) by (nonlinear_arith);
                        assert(amt(bank2, k) < d[k]);
                        assert(!(max1(d[k] as int) * 1 <= amt(bank2, k)));
                    } else {
                        let k = d.dom().choose();
                        assert(d.contains_key(k));
                        lemma_draw_amount(bank, d, count, k);
                        assert(max1(d[k] as int) * count <= amt(bank, k));
                        assert(d[k] * count <= amt(bank, k));
                        assert(d[k] == 1) by (nonlinear_arith)
                            requires
                                d[k] >= 1,
                                d[k] * count <= u64::MAX,
                                count == u64::MAX,
                        ;
                        assert(amt(bank2, k) == amt(bank, k) - count);
                        assert(!(max1(d[k] as int) * 1 <= amt(bank2, k)));
                    }
                }
                if fits_stock(r.0, d, 1) {
                    lemma_fits_stock_grows(r.0, bank2, d, 1);
                }
            } else {
                assert(order[j] == tail[j - 1]);
            }
        }
    }
}

// ---------------------------------------------------------------------------
// Regional salvage back into recipe stock.

/// Preference of a single-material recovery output by its leaf name.
pub open spec fn recovery_rank(name: Seq<char>, material: Seq<char>) -> int {
    let leaf = spec_leaf(name);
    if spec_ends_with(leaf, "_ingot"@) {
        0
    } else if spec_ends_with(leaf, "_powder"@) || spec_ends_with(leaf, "_concentrate"@) {
        1
    } else if leaf == material || spec_ends_with(leaf, "_"@ + material) {
        2
    } else if spec_starts_with(leaf, "raw_"@) {
        3
    } else {
        4
    }
}

/// A plain declared item made of `material` alone, in a positive amount.
pub open spec fn recovery_candidate(d: ItemDef, material: Seq<char>) -> bool {
    &&& d.materials_declared
    &&& d.materials@.dom().len() == 1
    &&& d.durability == 0
    &&& !d.places
    &&& !d.name@.contains('/')
    &&& d.materials@.contains_key(material)
    &&& d.materials@[material] != 0
}

/// Item `i` is preferred to item `j` as the output for `material`: lower
/// rank, then fewer units per item, then name order, then registry order.
pub open spec fn recovery_before(reg: Registry, material: Seq<char>, i: int, j: int) -> bool {
    let a = reg.items@[i];
    let b = reg.items@[j];
    let ra = recovery_rank(a.name@, material);
    let rb = recovery_rank(b.name@, material);
    let ua = a.materials@[material];
    let ub = b.materials@[material];
    ra < rb || (ra == rb && (ua < ub || (ua == ub && (str_lt(a.name@, b.name@) || (a.name@ == b.name@ && i < j)))))
}

pub open spec fn has_recovery_item(reg: Registry, material: Seq<char>) -> bool {
    exists|i: int| 0 <= i < reg.items@.len() && #[trigger] recovery_candidate(reg.items@[i], material)
}

/// `i` is the most preferred recovery output for `material`.
pub open spec fn best_recovery_item(reg: Registry, material: Seq<char>, i: int) -> bool {
    &&& 0 <= i < reg.items@.len()
    &&& recovery_candidate(reg.items@[i], material)
    &&& forall|j: int| 0 <= j < reg.items@.len() && j != i && #[trigger] recovery_candidate(reg.items@[j], material)
        ==> recovery_before(reg, material, i, j)
}

proof fn lemma_recovery_total(reg: Registry, material: Seq<char>, i: int, j: int)
    requires
        i != j,
    ensures
        recovery_before(reg, material, i, j) || recovery_before(reg, material, j, i),
        !(recovery_before(reg, material, i, j) && recovery_before(reg, material, j, i)),
{
    let (a, b) = (reg.items@[i].name@, reg.items@[j].name@);
    if a != b {
        lemma_str_lt_total(a, b);
    }
    lemma_str_lt_asymmetric(a, b);
}

proof fn lemma_recovery_transitive(reg: Registry, material: Seq<char>, i: int, j: int, k: int)
    requires
        recovery_before(reg, material, i, j),
        recovery_before(reg, material, j, k),
    ensures
        recovery_before(reg, material, i, k),
{
    let (a, b, c) = (reg.items@[i].name@, reg.items@[j].name@, reg.items@[k].name@);
    if str_lt(a, b) && str_lt(b, c) {
        lemma_str_lt_transitive(a, b, c);
    }
}

/// The best output is unique.
pub proof fn lemma_best_recovery_unique(reg: Registry, material: Seq<char>, i: int, j: int)
    requires
        best_recovery_item(reg, material, i),
        best_recovery_item(reg, material, j),
    ensures
        i == j,
{
    if i != j {
        lemma_recovery_total(reg, material, i, j);
    }
}

fn recovery_rank_of(name: &str, material: &str) -> (r: u8)
    ensures
        r == recovery_rank(name@, material@),
{
    let leaf = leaf_of(name);
    proof {
        reveal_strlit("_ingot");
        reveal_strlit("_powder");
        reveal_strlit("_concentrate");
        reveal_strlit("raw_");
        reveal_strlit("_");
    }
    let mut suffix = String::from_str("_");
    suffix.append(material);
    if ends_with(leaf, "_ingot") {
        0
    } else if ends_with(leaf, "_powder") || ends_with(leaf, "_concentrate") {
        1
    } else if crate::text::str_eq(leaf, material) || ends_with(leaf, suffix.as_str()) {
        2
    } else if starts_with(leaf, "raw_") {
        3
    } else {
        4
    }
}

fn is_recovery_candidate(d: &ItemDef, material: &str) -> (r: bool)
    ensures
        r == recovery_candidate(*d, material@),
{
    if !d.materials_declared || d.materials.len() != 1 || d.durability != 0 || d.places || contains_char(d.name.as_str(), '/') {
        return false;
    }
    match d.materials.get(material) {
        Some(u) => u != 0,
        None => false,
    }
}

fn recovery_less(reg: &Registry, material: &str, i: usize, j: usize) -> (r: bool)
    requires
        i < reg.items@.len(),
        j < reg.items@.len(),
        reg.items@[i as int].materials@.contains_key(material@),
        reg.items@[j as int].materials@.contains_key(material@),
    ensures
        r == recovery_before(*reg, material@, i as int, j as int),
{
    let a = &reg.items[i];
    let b = &reg.items[j];
    let ra = recovery_rank_of(a.name.as_str(), material);
    let rb = recovery_rank_of(b.name.as_str(), material);
    if ra != rb {
        return ra < rb;
    }
    let ua: u64 = match a.materials.get(material) {
        Some(u) => u,
        None => 0,
    };
    let ub: u64 = match b.materials.get(material) {
        Some(u) => u,
        None => 0,
    };
    if ua != ub {
        return ua < ub;
    }
    if str_less(a.name.as_str(), b.name.as_str()) {
        return true;
    }
    crate::text::str_eq(a.name.as_str(), b.name.as_str()) && i < j
}

/// The stable, ordinary item that puts recovered `material` back into the
/// recipe graph, with its units per item: among plain items made of that
/// material alone, ingots first, then powders and concentrates, then items
/// named for the material, then raw stock, then anything else; fewer units
/// per item, then name and registry order break ties.
pub fn recovery_item_for(reg: &Registry, material: &str) -> (r: Option<(ItemId, u64)>)
    requires
        reg.items@.len() <= 0x10000,
    ensures
        r is None <==> !has_recovery_item(*reg, material@),
        r matches Some(p) ==> best_recovery_item(*reg, material@, p.0.0 as int)
            && p.1 == reg.items@[p.0.0 as int].materials@[material@],
{
    let n = reg.items.len();
    let mut best: Option<usize> = None;
    let mut i: usize = 0;
    while i < n
        invariant
            n == reg.items@.len(),
            n <= 0x10000,
            i <= n,
            match best {
                None => forall|j: int| 0 <= j < i ==> !#[trigger] recovery_candidate(reg.items@[j], material@),
                Some(b) => b < i && recovery_candidate(reg.items@[b as int], material@)
                    && forall|j: int| 0 <= j < i && j != b && #[trigger] recovery_candidate(reg.items@[j], material@)
                        ==> recovery_before(*reg, material@, b as int, j),
            },
        decreases n - i,
    {
        if is_recovery_candidate(&reg.items[i], material) {
            match best {
                None => {
                    best = Some(i);
                },
                Some(b) => {
                    if recovery_less(reg, material, i, b) {
                        proof {
                            assert forall|j: int| 0 <= j < i + 1 && j != i && #[trigger] recovery_candidate(reg.items@[j], material@)
                                implies recovery_before(*reg, material@, i as int, j) by {
                                if j != b {
                                    lemma_recovery_transitive(*reg, material@, i as int, b as int, j);
                                }
                            }
                        }
                        best = Some(i);
                    } else {
                        proof {
                            lemma_recovery_total(*reg, material@, i as int, b as int);
                        }
                    }
                },
            }
        }
        i = i + 1;
    }
    match best {
        None => None,
        Some(b) => {
            let u: u64 = match reg.items[b].materials.get(material) {
                Some(u) => u,
                None => 0,
            };
            Some((ItemId(b as u16), u))
        },
    }
}

/// Raw units a regional batch must process to recover one `units`-unit item
/// at `recovery` thousandths, rounded up.
pub open spec fn processed_for(units: u64, recovery: int) -> int {
    let gross = sat_mul(units as int, 1000);
    (gross + recovery - 1) / recovery
}

/// `material` of the pool funds one item of its recovery output.
pub open spec fn salvage_qualifies(reg: Registry, pool: Map<Seq<char>, u64>, material: Seq<char>, recovery: int) -> bool {
    &&& pool.contains_key(material)
    &&& has_recovery_item(reg, material)
    &&& exists|i: int| best_recovery_item(reg, material, i)
        && pool[material] >= processed_for(reg.items@[i].materials@[material], recovery)
}

pub open spec fn spec_clamp_permille(p: u16) -> int {
    if p < 1 {
        1
    } else if p > 1000 {
        1000
    } else {
        p as int
    }
}

impl MaterialLedger {
    /// Stage one regional salvage batch back into recipe stock: of `region`'s
    /// pool, the first material by name whose recovery output the pool funds
    /// at `recovery_permille` (clamped to 1..=1000) is processed, and one
    /// item comes back; the rest of the processed units become process loss.
    /// Sub-item dust stays pooled. Returns the item and the delta to journal;
    /// `None` when no material of the pool funds a whole item.
    pub fn recover_salvage_stack(&self, reg: &Registry, region: SalvageRegion, recovery_permille: u16) -> (r: Result<
        Option<(ItemStack, MaterialDelta)>,
        LedgerError,
    >)
        requires
            ledger_wf(*self),
            reg.items@.len() <= 0x10000,
        ensures
            ({
                let pool = pool_view(self.salvage@, region);
                let recovery = spec_clamp_permille(recovery_permille);
                &&& (r matches Ok(None)) <==> (!has_region(self.salvage@, region)
                    || forall|m: Seq<char>| !#[trigger] salvage_qualifies(*reg, pool, m, recovery))
                &&& r matches Ok(Some(p)) ==> (p.1.seq == next_seq(*self) && (p.1.action matches MaterialDeltaAction::Recover { region: rg, material, processed, recovered }
                    && rg == region
                    && salvage_qualifies(*reg, pool, material@, recovery)
                    && (forall|m: Seq<char>| #[trigger] salvage_qualifies(*reg, pool, m, recovery) && m != material@ ==> str_lt(material@, m))
                    && best_recovery_item(*reg, material@, p.0.item.0 as int)
                    && recovered == reg.items@[p.0.item.0 as int].materials@[material@]
                    && processed == processed_for(recovered, recovery)
                    && p.0 == (ItemStack { item: p.0.item, count: 1, durability: 0, arcane_id: 0 })))
                &&& r is Err ==> has_region(self.salvage@, region) && exists|m: Seq<char>, i: int| #![trigger best_recovery_item(*reg, m, i)] salvage_qualifies(*reg, pool, m, recovery)
                    && (forall|m2: Seq<char>| #[trigger] salvage_qualifies(*reg, pool, m2, recovery) && m2 != m ==> str_lt(m, m2))
                    && best_recovery_item(*reg, m, i)
                    && reg.items@[i].materials@[m] > processed_for(reg.items@[i].materials@[m], recovery)
            }),
    {
        let recovery: u64 = if recovery_permille < 1 {
            1
        } else if recovery_permille > 1000 {
            1000
        } else {
            recovery_permille as u64
        };
        let pi = match find_pool(&self.salvage, region) {
            Some(i) => i,
            None => {
                return Ok(None);
            },
        };
        let ghost pool = pool_view(self.salvage@, region);
        proof {
            lemma_pool_view_at(self.salvage@, pi as int);
        }
        let mats = &self.salvage[pi].1.materials;
        let n = mats.len();
        let mut chosen: Option<(usize, ItemId, u64, u64)> = None;
        let mut j: usize = 0;
        while j < n
            invariant
                n == mats.spec_len(),
                mats.consistent(),
                mats@ == pool,
                1 <= recovery <= 1000,
                recovery == spec_clamp_permille(recovery_permille),
                reg.items@.len() <= 0x10000,
                j <= n,
                match chosen {
                    None => forall|k: int| 0 <= k < j ==> !salvage_qualifies(*reg, pool, #[trigger] mats.name_at_spec(k), recovery as int),
                    Some(c) => c.0 < j && salvage_qualifies(*reg, pool, mats.name_at_spec(c.0 as int), recovery as int)
                        && best_recovery_item(*reg, mats.name_at_spec(c.0 as int), c.1.0 as int)
                        && c.2 == reg.items@[c.1.0 as int].materials@[mats.name_at_spec(c.0 as int)]
                        && c.3 == processed_for(c.2, recovery as int)
                        && forall|k: int| 0 <= k < j && k != c.0 && #[trigger] salvage_qualifies(*reg, pool, mats.name_at_spec(k), recovery as int)
                            ==> str_lt(mats.name_at_spec(c.0 as int), mats.name_at_spec(k)),
                },
            decreases n - j,
        {
            let name = mats.name_at(j);
            let available = mats.units_at(j);
            proof {
                mats.lemma_consistent();
            }
            let later_name = match chosen {
                Some(c) => !str_less(name, mats.name_at(c.0)),
                None => false,
            };
            if !later_name {
                match recovery_item_for(reg, name) {
                    Some((item, units)) => {
                        let gross = crate::vector::saturating_mul(units, 1000);
                        let q = gross / recovery;
                        let processed = if gross % recovery != 0 {
                            assert(q < u64::MAX) by (nonlinear_arith)
                                requires
                                    recovery >= 1,
                                    gross % recovery != 0,
                                    q == gross / recovery,
                                    gross <= u64::MAX,
                            {
                                assert(recovery >= 2);
                                assert(recovery * q <= gross);
                            }
                            q + 1
                        } else {
                            q
                        };
                        proof {
                            assert(processed == processed_for(units, recovery as int)) by (nonlinear_arith)
                                requires
                                    recovery >= 1,
                                    gross == sat_mul(units as int, 1000),
                                    q == gross / recovery,
                                    processed == if gross % recovery != 0 { q + 1 } else { q as int },
                            {
                                assert(gross == recovery * (gross / recovery) + gross % recovery);
                                assert(0 <= gross % recovery < recovery);
                            }
                        }
                        if available >= processed {
                            proof {
                                assert(mats@.contains_key(name@));
                                assert(salvage_qualifies(*reg, pool, name@, recovery as int));
                                match chosen {
                                    Some(c) => {
                                        assert(name@ != mats.name_at_spec(c.0 as int));
                                        lemma_str_lt_total(name@, mats.name_at_spec(c.0 as int));
                                        assert forall|k: int| 0 <= k < j + 1 && k != j && #[trigger] salvage_qualifies(*reg, pool, mats.name_at_spec(k), recovery as int)
                                            implies str_lt(name@, mats.name_at_spec(k)) by {
                                            if k != c.0 {
                                                lemma_str_lt_transitive(name@, mats.name_at_spec(c.0 as int), mats.name_at_spec(k));
                                            }
                                        }
                                    },
                                    None => {},
                                }
                            }
                            chosen = Some((j, item, units, processed));
                        } else {
                            proof {
                                if salvage_qualifies(*reg, pool, name@, recovery as int) {
                                    let b = choose|b: int| best_recovery_item(*reg, name@, b)
                                        && pool[name@] >= processed_for(reg.items@[b].materials@[name@], recovery as int);
                                    lemma_best_recovery_unique(*reg, name@, b, item.0 as int);
                                }
                            }
                        }
                    },
                    None => {},
                }
            } else {
                proof {
                    let c = chosen->Some_0;
                    assert(name@ != mats.name_at_spec(c.0 as int));
                    lemma_str_lt_total(name@, mats.name_at_spec(c.0 as int));
                    lemma_str_lt_asymmetric(name@, mats.name_at_spec(c.0 as int));
                }
            }
            j = j + 1;
        }
        match chosen {
            None => {
                proof {
                    mats.lemma_consistent();
                    assert forall|m: Seq<char>| !#[trigger] salvage_qualifies(*reg, pool, m, recovery as int) by {
                        if salvage_qualifies(*reg, pool, m, recovery as int) {
                            let k = choose|k: int| 0 <= k < mats.spec_len() && mats.name_at_spec(k) == m;
                        }
                    }
                }
                Ok(None)
            },
            Some((k, item, units, processed)) => {
                proof {
                    mats.lemma_consistent();
                    assert forall|m: Seq<char>| #[trigger] salvage_qualifies(*reg, pool, m, recovery as int) && m != mats.name_at_spec(k as int)
                        implies str_lt(mats.name_at_spec(k as int), m) by {
                        let k2 = choose|k2: int| 0 <= k2 < mats.spec_len() && mats.name_at_spec(k2) == m;
                    }
                }
                let action = MaterialDeltaAction::Recover {
                    region,
                    material: mats.name_at(k).to_owned(),
                    processed,
                    recovered: units,
                };
                match self.stage_delta(action) {
                    Ok(d) => Ok(Some((ItemStack::new(reg, item, 1), d))),
                    Err(e) => {
                        proof {
                            let m = mats.name_at_spec(k as int);
                            assert(salvage_qualifies(*reg, pool, m, recovery as int));
                            assert(best_recovery_item(*reg, m, item.0 as int));
                        }
                        Err(e)
                    },
                }
            },
        }
    }
}

} // verus!
