//! Reserving the finite ore of a freshly generated chunk against the deposit
//! accounts that can fund it.
//!
//! Every finite block that terrain generation places draws its material from
//! a deposit's unmaterialized stock: the units move to the deposit's
//! materialized-underground compartment, and the chunk records which deposits
//! fund how many of its blocks. A chunk whose blocks cannot all be funded is
//! refused as a whole and the ledger is left untouched.

use vstd::prelude::*;
use crate::vector::{MaterialVector, amt, spec_add_vector, sat_add, sat_mul};
use crate::materials::{
    covers, spec_subtract, subtract_vector, add_vector, scaled, DepositAccount, ReservationSlice, BlockReservation,
    ChunkReservation, MaterialLedger, PlacedBlock, LedgerError, has_pos, has_chunk, chunk_index, ledger_wf, blocks_wf,
    find_chunk, find_block, find_placed,
};
use crate::planet::{BlockPos, ChunkPos};
use crate::text::str_eq;
use crate::materials::{seq_sum, lemma_sum_update, f_unmaterialized, f_underground, f_original, f_tailings, spec_unexplained};

verus! {

/// `q` blocks of the per-block vector `mats` can be drawn from `rem`.
pub open spec fn fits_blocks(rem: Map<Seq<char>, u64>, mats: Map<Seq<char>, u64>, q: nat) -> bool {
    forall|k: Seq<char>| #[trigger] mats.contains_key(k) ==> mats[k] * q <= amt(rem, k)
}

/// The most blocks, at most `c`, whose material `rem` can fund.
pub open spec fn spec_avail(rem: Map<Seq<char>, u64>, mats: Map<Seq<char>, u64>, c: nat) -> nat
    decreases c,
{
    if c == 0 {
        0
    } else if fits_blocks(rem, mats, c) {
        c
    } else {
        spec_avail(rem, mats, (c - 1) as nat)
    }
}

proof fn lemma_fits_down(rem: Map<Seq<char>, u64>, mats: Map<Seq<char>, u64>, p: nat, q: nat)
    requires
        fits_blocks(rem, mats, q),
        p <= q,
    ensures
        fits_blocks(rem, mats, p),
{
    assert forall|k: Seq<char>| #[trigger] mats.contains_key(k) implies mats[k] * p <= amt(rem, k) by {
        let u = mats[k] as int;
        assert(u * p <= u * q) by (nonlinear_arith)
            requires
                0 <= u,
                p <= q,
        ;
    }
}

proof fn lemma_avail_fits(rem: Map<Seq<char>, u64>, mats: Map<Seq<char>, u64>, c: nat)
    ensures
        spec_avail(rem, mats, c) <= c,
        fits_blocks(rem, mats, spec_avail(rem, mats, c)),
    decreases c,
{
    if c == 0 {
        assert forall|k: Seq<char>| #[trigger] mats.contains_key(k) implies mats[k] * 0nat <= amt(rem, k) by {
            assert(mats[k] * 0nat == 0) by (nonlinear_arith);
        }
    } else if !fits_blocks(rem, mats, c) {
        lemma_avail_fits(rem, mats, (c - 1) as nat);
    }
}

proof fn lemma_avail_is(rem: Map<Seq<char>, u64>, mats: Map<Seq<char>, u64>, c: nat, a: nat)
    requires
        a <= c,
        fits_blocks(rem, mats, a),
        a < c ==> !fits_blocks(rem, mats, a + 1),
    ensures
        spec_avail(rem, mats, c) == a,
    decreases c,
{
    if c > a {
        if fits_blocks(rem, mats, c) {
            lemma_fits_down(rem, mats, a + 1, c);
        }
        lemma_avail_is(rem, mats, (c - 1) as nat, a);
    }
}

proof fn lemma_quotient_fits(x: int, u: int, q: int)
    requires
        u > 0,
        x >= 0,
        0 <= q <= x / u,
    ensures
        u * q <= x,
{
    assert(u * q <= u * (x / u)) by (nonlinear_arith)
        requires
            u > 0,
            q <= x / u,
    ;
    assert(x == u * (x / u) + x % u) by (nonlinear_arith)
        requires
            u > 0,
    ;
    assert(x % u >= 0) by (nonlinear_arith)
        requires
            u > 0,
    ;
}

proof fn lemma_quotient_tight(x: int, u: int)
    requires
        u > 0,
        x >= 0,
    ensures
        u * (x / u + 1) > x,
{
    assert(x == u * (x / u) + x % u) by (nonlinear_arith)
        requires
            u > 0,
    ;
    assert(x % u < u) by (nonlinear_arith)
        requires
            u > 0,
    ;
    assert(u * (x / u + 1) == u * (x / u) + u) by (nonlinear_arith);
}

/// How many blocks of `mats`, at most `count`, the stock `rem` can fund.
fn blocks_available(rem: &MaterialVector, mats: &MaterialVector, count: u32) -> (r: u32)
    ensures
        r == spec_avail(rem@, mats@, count as nat),
{
    let n = mats.len();
    let mut q: u64 = u64::MAX;
    let mut i: usize = 0;
    while i < n
        invariant
            n == mats.spec_len(),
            mats.consistent(),
            i <= n,
            forall|j: int| 0 <= j < i && mats.units_at_spec(j) != 0 ==> q <= #[trigger] amt(rem@, mats.name_at_spec(j)) / (mats.units_at_spec(j) as nat),
            q == u64::MAX || exists|j: int| 0 <= j < i && mats.units_at_spec(j) != 0
                && q == #[trigger] amt(rem@, mats.name_at_spec(j)) / (mats.units_at_spec(j) as nat),
        decreases n - i,
    {
        let u = mats.units_at(i);
        if u != 0 {
            let have: u64 = match rem.get(mats.name_at(i)) {
                Some(v) => v,
                None => 0,
            };
            let qi = have / u;
            assert(qi == amt(rem@, mats.name_at_spec(i as int)) / (mats.units_at_spec(i as int) as nat));
            if qi < q {
                q = qi;
            }
        }
        i = i + 1;
    }
    let avail: u32 = if q < count as u64 {
        q as u32
    } else {
        count
    };
    proof {
        mats.lemma_consistent();
        assert forall|k: Seq<char>| #[trigger] mats@.contains_key(k) implies mats@[k] * (avail as nat) <= amt(rem@, k) by {
            let j = choose|j: int| 0 <= j < mats.spec_len() && mats.name_at_spec(j) == k;
            let u = mats.units_at_spec(j) as int;
            if u != 0 {
                lemma_quotient_fits(amt(rem@, k) as int, u, avail as int);
            }
        }
        if avail < count {
            let j = choose|j: int| 0 <= j < n && mats.units_at_spec(j) != 0
                && q == #[trigger] amt(rem@, mats.name_at_spec(j)) / (mats.units_at_spec(j) as nat);
            let k = mats.name_at_spec(j);
            lemma_quotient_tight(amt(rem@, k) as int, mats.units_at_spec(j) as int);
            assert(mats@.contains_key(k));
        }
        lemma_avail_is(rem@, mats@, count as nat, avail as nat);
    }
    avail
}

// ---------------------------------------------------------------------------
// Candidate deposits in ascending id order.

pub open spec fn strictly_ascending(s: Seq<u32>) -> bool {
    forall|i: int, j: int| 0 <= i < j < s.len() ==> s[i] < s[j]
}

/// The distinct ids of `v` in ascending order.
pub open spec fn ascending_ids(v: Seq<u32>) -> Seq<u32> {
    choose|s: Seq<u32>| strictly_ascending(s) && forall|x: u32| #[trigger] s.contains(x) <==> v.contains(x)
}

proof fn lemma_ascending_unique(a: Seq<u32>, b: Seq<u32>)
    requires
        strictly_ascending(a),
        strictly_ascending(b),
        forall|x: u32| #[trigger] a.contains(x) <==> b.contains(x),
    ensures
        a == b,
    decreases a.len(),
{
    if a.len() == 0 {
        if b.len() > 0 {
            assert(b.contains(b[0]));
            assert(a.contains(b[0]));
        }
        assert(a =~= b);
    } else {
        assert(a.contains(a[0]));
        assert(b.len() > 0);
        assert(b.contains(b[0]));
        assert(a.contains(b[0]));
        assert(b.contains(a[0]));
        let ja = choose|j: int| 0 <= j < a.len() && a[j] == b[0];
        let jb = choose|j: int| 0 <= j < b.len() && b[j] == a[0];
        assert(a[0] == b[0]) by {
            if a[0] < b[0] {
                if jb > 0 {
                    assert(b[0] < b[jb]);
                }
            } else if a[0] > b[0] {
                if ja > 0 {
                    assert(a[0] < a[ja]);
                }
            }
        }
        let ta = a.drop_first();
        let tb = b.drop_first();
        assert forall|x: u32| #[trigger] ta.contains(x) <==> tb.contains(x) by {
            if ta.contains(x) {
                let i = choose|i: int| 0 <= i < ta.len() && ta[i] == x;
                assert(a[i + 1] == x);
                assert(a.contains(x));
                let j = choose|j: int| 0 <= j < b.len() && b[j] == x;
                assert(a[0] < a[i + 1]);
                assert(j != 0);
                assert(tb[j - 1] == x);
            }
            if tb.contains(x) {
                let i = choose|i: int| 0 <= i < tb.len() && tb[i] == x;
                assert(b[i + 1] == x);
                assert(b.contains(x));
                assert(a.contains(x));
                let j = choose|j: int| 0 <= j < a.len() && a[j] == x;
                assert(b[0] < b[i + 1]);
                assert(j != 0);
                assert(ta[j - 1] == x);
            }
        }
        lemma_ascending_unique(ta, tb);
        assert(a =~= seq![a[0]] + ta);
        assert(b =~= seq![b[0]] + tb);
    }
}

/// The distinct ids of `v`, ascending.
fn sorted_ids(v: &Vec<u32>) -> (r: Vec<u32>)
    ensures
        r@ == ascending_ids(v@),
{
    let mut out: Vec<u32> = Vec::new();
    let mut i: usize = 0;
    while i < v.len()
        invariant
            i <= v@.len(),
            strictly_ascending(out@),
            forall|x: u32| #[trigger] out@.contains(x) <==> v@.take(i as int).contains(x),
        decreases v@.len() - i,
    {
        let x = v[i];
        let mut p: usize = 0;
        while p < out.len() && out[p] < x
            invariant
                p <= out@.len(),
                forall|j: int| 0 <= j < p ==> out@[j] < x,
            decreases out@.len() - p,
        {
            p = p + 1;
        }
        let ghost before = out@;
        let ghost pre = v@.take(i as int);
        let ghost post = v@.take(i + 1);
        proof {
            assert(post =~= pre.push(x));
        }
        if p < out.len() && out[p] == x {
            assert forall|y: u32| #[trigger] out@.contains(y) <==> post.contains(y) by {
                if y == x {
                    assert(out@[p as int] == x);
                    assert(post[i as int] == x);
                } else {
                    if post.contains(y) {
                        let j = choose|j: int| 0 <= j < i + 1 && post[j] == y;
                        assert(j != i);
                        assert(pre[j] == y);
                    }
                    if pre.contains(y) {
                        let j = choose|j: int| 0 <= j < i && pre[j] == y;
                        assert(post[j] == y);
                    }
                }
            }
        } else {
            out.insert(p, x);
            proof {
                let after = out@;
                assert forall|a: int, b: int| 0 <= a < b < after.len() implies after[a] < after[b] by {
                    if b < p {
                    } else if b == p {
                    } else if a < p {
                        assert(after[b] == before[b - 1]);
                        assert(before[p as int] > x);
                        if b - 1 > p {
                            assert(before[p as int] < before[b - 1]);
                        }
                    } else if a == p {
                        assert(after[b] == before[b - 1]);
                        assert(before[p as int] > x);
                        if b - 1 > p {
                            assert(before[p as int] < before[b - 1]);
                        }
                    } else {
                        assert(after[a] == before[a - 1]);
                        assert(after[b] == before[b - 1]);
                    }
                }
                assert forall|y: u32| #[trigger] after.contains(y) <==> post.contains(y) by {
                    if after.contains(y) {
                        let j = choose|j: int| 0 <= j < after.len() && after[j] == y;
                        if j < p {
                            assert(before[j] == y);
                            assert(before.contains(y));
                        } else if j == p {
                            assert(post[i as int] == y);
                        } else {
                            assert(before[j - 1] == y);
                            assert(before.contains(y));
                        }
                        if y != x {
                            let k = choose|k: int| 0 <= k < i && pre[k] == y;
                            assert(post[k] == y);
                        } else {
                            assert(post[i as int] == y);
                        }
                    }
                    if post.contains(y) {
                        let k = choose|k: int| 0 <= k < i + 1 && post[k] == y;
                        if k == i {
                            assert(after[p as int] == y);
                        } else {
                            assert(pre[k] == y);
                            assert(before.contains(y));
                            let j = choose|j: int| 0 <= j < before.len() && before[j] == y;
                            if j < p {
                                assert(after[j] == y);
                            } else {
                                assert(after[j + 1] == y);
                            }
                        }
                    }
                }
            }
        }
        i = i + 1;
    }
    proof {
        assert(v@.take(v@.len() as int) =~= v@);
        let s = out@;
        assert(strictly_ascending(s) && forall|x: u32| #[trigger] s.contains(x) <==> v@.contains(x));
        let c = ascending_ids(v@);
        lemma_ascending_unique(s, c);
    }
    out
}

// ---------------------------------------------------------------------------
// Greedy funding of one kind of block.

/// What funding sees of a deposit: its id, unmaterialized stock and
/// materialized-underground stock.
pub open spec fn funding_of(d: DepositAccount) -> (u32, Map<Seq<char>, u64>, Map<Seq<char>, u64>) {
    (d.id, d.remaining_unmaterialized@, d.materialized_underground@)
}

pub open spec fn fundings(s: Seq<DepositAccount>) -> Seq<(u32, Map<Seq<char>, u64>, Map<Seq<char>, u64>)> {
    s.map_values(|d: DepositAccount| funding_of(d))
}

pub open spec fn has_funding(f: Seq<(u32, Map<Seq<char>, u64>, Map<Seq<char>, u64>)>, id: u32) -> bool {
    exists|d: int| 0 <= d < f.len() && #[trigger] f[d].0 == id
}

pub open spec fn funding_index(f: Seq<(u32, Map<Seq<char>, u64>, Map<Seq<char>, u64>)>, id: u32) -> int {
    choose|d: int| 0 <= d < f.len() && #[trigger] f[d].0 == id
}

pub open spec fn ids_distinct(f: Seq<(u32, Map<Seq<char>, u64>, Map<Seq<char>, u64>)>) -> bool {
    forall|i: int, j: int| 0 <= i < f.len() && 0 <= j < f.len() && i != j ==> f[i].0 != f[j].0
}

/// `acct` after `n` blocks of `mats` moved from unmaterialized to
/// materialized-underground stock.
pub open spec fn debit(
    acct: (u32, Map<Seq<char>, u64>, Map<Seq<char>, u64>),
    mats: Map<Seq<char>, u64>,
    n: nat,
) -> (u32, Map<Seq<char>, u64>, Map<Seq<char>, u64>) {
    let moved = spec_add_vector(Map::empty(), mats, n as int);
    (acct.0, spec_subtract(acct.1, moved), spec_add_vector(acct.2, moved, 1))
}

/// Fund `count` blocks of `mats` from the candidate deposits in order: each
/// existing candidate gives as many whole blocks as its unmaterialized stock
/// affords, until the count is met. Returns the updated deposits, the slices
/// taken and the count left unfunded.
pub open spec fn spec_fund(
    f: Seq<(u32, Map<Seq<char>, u64>, Map<Seq<char>, u64>)>,
    mats: Map<Seq<char>, u64>,
    count: nat,
    cands: Seq<u32>,
) -> (Seq<(u32, Map<Seq<char>, u64>, Map<Seq<char>, u64>)>, Seq<ReservationSlice>, nat)
    decreases cands.len(),
{
    if cands.len() == 0 || count == 0 {
        (f, Seq::empty(), count)
    } else if !has_funding(f, cands[0]) {
        spec_fund(f, mats, count, cands.drop_first())
    } else {
        let d = funding_index(f, cands[0]);
        let avail = spec_avail(f[d].1, mats, count);
        if avail == 0 {
            spec_fund(f, mats, count, cands.drop_first())
        } else {
            let next = spec_fund(f.update(d, debit(f[d], mats, avail)), mats, (count - avail) as nat, cands.drop_first());
            (next.0, seq![ReservationSlice { deposit_id: cands[0], count: avail as u32 }] + next.1, next.2)
        }
    }
}

/// The deposits as funding sees them, with staged accounts in place of the
/// stored ones.
pub open spec fn overlay(
    ds: Seq<DepositAccount>,
    st: Seq<Option<(MaterialVector, MaterialVector)>>,
) -> Seq<(u32, Map<Seq<char>, u64>, Map<Seq<char>, u64>)> {
    Seq::new(
        ds.len(),
        |i: int|
            match st[i] {
                Some(p) => (ds[i].id, p.0@, p.1@),
                None => funding_of(ds[i]),
            },
    )
}

/// Whether some deposit has id `id`.
pub(crate) fn account_exists(list: &Vec<DepositAccount>, id: u32) -> (r: bool)
    ensures
        r == exists|i: int| 0 <= i < list@.len() && #[trigger] list@[i].id == id,
{
    match find_account(list, id) {
        Some(_) => true,
        None => false,
    }
}

fn find_account(list: &Vec<DepositAccount>, id: u32) -> (r: Option<usize>)
    ensures
        match r {
            Some(i) => i < list@.len() && list@[i as int].id == id,
            None => forall|i: int| 0 <= i < list@.len() ==> list@[i].id != id,
        },
{
    let mut i: usize = 0;
    while i < list.len()
        invariant
            i <= list@.len(),
            forall|j: int| 0 <= j < i ==> list@[j].id != id,
        decreases list@.len() - i,
    {
        if list[i].id == id {
            return Some(i);
        }
        i = i + 1;
    }
    None
}

/// Fund `count` blocks of `mats` from `cands` (ascending, distinct), staging
/// every debited account in `staged`, which stands beside `deposits` index for
/// index. Returns the slices taken and the count left unfunded.
#[verifier::rlimit(50)]
fn fund_kind(
    deposits: &Vec<DepositAccount>,
    staged: &mut Vec<Option<(MaterialVector, MaterialVector)>>,
    mats: &MaterialVector,
    count: u32,
    cands: &Vec<u32>,
) -> (r: (Vec<ReservationSlice>, u32))
    requires
        old(staged)@.len() == deposits@.len(),
        ids_distinct(overlay(deposits@, old(staged)@)),
    ensures
        final(staged)@.len() == deposits@.len(),
        ({
            let res = spec_fund(overlay(deposits@, old(staged)@), mats@, count as nat, cands@);
            &&& overlay(deposits@, final(staged)@) == res.0
            &&& r.0@ == res.1
            &&& r.1 == res.2
        }),
{
    let ghost f0 = overlay(deposits@, staged@);
    let mut slices: Vec<ReservationSlice> = Vec::new();
    let mut left: u32 = count;
    let mut k: usize = 0;
    proof {
        assert(cands@.skip(0) =~= cands@);
        let r0 = spec_fund(f0, mats@, count as nat, cands@);
        assert(slices@ + r0.1 =~= r0.1);
    }
    while k < cands.len() && left > 0
        invariant
            staged@.len() == deposits@.len(),
            k <= cands@.len(),
            ids_distinct(overlay(deposits@, staged@)),
            forall|i: int| 0 <= i < deposits@.len() ==> #[trigger] overlay(deposits@, staged@)[i].0 == deposits@[i].id,
            ({
                let rest = spec_fund(overlay(deposits@, staged@), mats@, left as nat, cands@.skip(k as int));
                spec_fund(f0, mats@, count as nat, cands@) == (rest.0, slices@ + rest.1, rest.2)
            }),
        decreases cands@.len() - k,
    {
        let ghost fc = overlay(deposits@, staged@);
        let ghost rest = cands@.skip(k as int);
        proof {
            assert(rest[0] == cands@[k as int]);
            assert(rest.drop_first() =~= cands@.skip(k + 1));
        }
        let id = cands[k];
        match find_account(deposits, id) {
            None => {
                proof {
                    assert(!has_funding(fc, id));
                }
            },
            Some(d) => {
                proof {
                    assert(fc[d as int].0 == id);
                    assert(has_funding(fc, id));
                    let c = funding_index(fc, id);
                    assert(c == d as int);
                }
                let (rem, und) = match &staged[d] {
                    Some(p) => (p.0.duplicate(), p.1.duplicate()),
                    None => (deposits[d].remaining_unmaterialized.duplicate(), deposits[d].materialized_underground.duplicate()),
                };
                assert(rem@ == fc[d as int].1 && und@ == fc[d as int].2);
                let avail = blocks_available(&rem, mats, left);
                proof {
                    lemma_avail_fits(rem@, mats@, left as nat);
                }
                if avail > 0 {
                    let moved = scaled(mats, avail as u64);
                    let mut rem2 = rem;
                    let mut und2 = und;
                    proof {
                        assert(covers(rem2@, moved@)) by {
                            assert forall|m: Seq<char>| #[trigger] moved@.contains_key(m) implies moved@[m] <= amt(rem2@, m) by {
                                assert(mats@.contains_key(m));
                                assert(mats@[m] * (avail as nat) <= amt(rem2@, m));
                            }
                        }
                    }
                    let _ = subtract_vector(&mut rem2, &moved);
                    add_vector(&mut und2, &moved, 1);
                    let ghost before = staged@;
                    staged.set(d, Some((rem2, und2)));
                    proof {
                        let fn_ = overlay(deposits@, staged@);
                        assert(fn_ =~= fc.update(d as int, debit(fc[d as int], mats@, avail as nat)));
                        assert forall|i: int, j: int| 0 <= i < fn_.len() && 0 <= j < fn_.len() && i != j implies fn_[i].0 != fn_[j].0 by {
                            assert(fn_[i].0 == fc[i].0);
                            assert(fn_[j].0 == fc[j].0);
                        }
                    }
                    slices.push(ReservationSlice { deposit_id: id, count: avail });
                    proof {
                        assert(seq![ReservationSlice { deposit_id: id, count: avail }] =~= seq![ReservationSlice { deposit_id: cands@[k as int], count: avail as u32 }]);
                    }
                    left = left - avail;
                    proof {
                        let r2 = spec_fund(overlay(deposits@, staged@), mats@, left as nat, cands@.skip(k + 1));
                        assert(slices@ =~= (slices@.drop_last()) + seq![ReservationSlice { deposit_id: id, count: avail }]);
                        assert(slices@ + r2.1 =~= slices@.drop_last() + (seq![ReservationSlice { deposit_id: id, count: avail }] + r2.1));
                    }
                }
            },
        }
        k = k + 1;
    }
    proof {
        let fc = overlay(deposits@, staged@);
        if k == cands.len() {
            assert(cands@.skip(k as int) =~= Seq::<u32>::empty());
        }
        assert(slices@ + Seq::<ReservationSlice>::empty() =~= slices@);
    }
    (slices, left)
}

// ---------------------------------------------------------------------------
// The chunk.

/// One kind of finite block in a freshly generated chunk, as terrain
/// generation placed it: its stable name, whether it resolves to a known
/// mineral kind, its per-block material vector, the positions where it
/// stands, and the deposits whose reach covers the chunk (the caller measures
/// that reach; any order, repeats allowed).
pub struct FreshBlocks {
    pub block_name: String,
    pub mineral: bool,
    pub materials: MaterialVector,
    pub positions: Vec<BlockPos>,
    pub candidates: Vec<u32>,
}

/// How many of `ps` stand where no player-placed block is recorded.
pub open spec fn unplaced_count(ps: Seq<BlockPos>, placed: Seq<PlacedBlock>) -> nat
    decreases ps.len(),
{
    if ps.len() == 0 {
        0
    } else {
        unplaced_count(ps.drop_last(), placed) + if has_pos(placed, ps.last()) {
            0nat
        } else {
            1nat
        }
    }
}

pub open spec fn has_resource(ds: Seq<DepositAccount>, key: Seq<char>) -> bool {
    exists|i: int| 0 <= i < ds.len() && #[trigger] ds[i].resource_key@ == key
}

pub open spec fn names_block(bs: Seq<BlockReservation>, name: Seq<char>) -> bool {
    exists|j: int| 0 <= j < bs.len() && #[trigger] bs[j].block@ == name
}

/// The blocks of kind `b` that the chunk still has to reserve: none when the
/// kind holds no material, is already reserved in the chunk, or is neither a
/// known mineral nor a resource some deposit supplies; otherwise every block
/// not standing on a player-placed position, the count saturating at
/// `u32::MAX`.
pub open spec fn kind_count(l: MaterialLedger, existing: Seq<BlockReservation>, b: FreshBlocks) -> nat {
    if b.materials@.dom().len() == 0 || names_block(existing, b.block_name@) || (!b.mineral && !has_resource(
        l.deposits@,
        b.block_name@,
    )) {
        0
    } else {
        let n = unplaced_count(b.positions@, l.placed_positions@);
        if n > u32::MAX {
            u32::MAX as nat
        } else {
            n
        }
    }
}

/// Fund every kind in order; the first kind that cannot be fully funded is
/// reported with its name and the blocks left unfunded.
pub open spec fn spec_reserve_kinds(
    f: Seq<(u32, Map<Seq<char>, u64>, Map<Seq<char>, u64>)>,
    l: MaterialLedger,
    existing: Seq<BlockReservation>,
    kinds: Seq<FreshBlocks>,
) -> Result<(Seq<(u32, Map<Seq<char>, u64>, Map<Seq<char>, u64>)>, Seq<(Seq<char>, Seq<ReservationSlice>)>), (Seq<char>, nat)>
    decreases kinds.len(),
{
    if kinds.len() == 0 {
        Ok((f, Seq::empty()))
    } else {
        let b = kinds[0];
        let c = kind_count(l, existing, b);
        if c == 0 {
            spec_reserve_kinds(f, l, existing, kinds.drop_first())
        } else {
            let res = spec_fund(f, b.materials@, c, ascending_ids(b.candidates@));
            if res.2 != 0 {
                Err((b.block_name@, res.2))
            } else {
                match spec_reserve_kinds(res.0, l, existing, kinds.drop_first()) {
                    Ok(t) => Ok((t.0, seq![(b.block_name@, res.1)] + t.1)),
                    Err(e) => Err(e),
                }
            }
        }
    }
}

pub open spec fn after_blocks(
    done: Seq<(Seq<char>, Seq<ReservationSlice>)>,
    r: Result<(Seq<(u32, Map<Seq<char>, u64>, Map<Seq<char>, u64>)>, Seq<(Seq<char>, Seq<ReservationSlice>)>), (Seq<char>, nat)>,
) -> Result<(Seq<(u32, Map<Seq<char>, u64>, Map<Seq<char>, u64>)>, Seq<(Seq<char>, Seq<ReservationSlice>)>), (Seq<char>, nat)> {
    match r {
        Ok(t) => Ok((t.0, done + t.1)),
        Err(e) => Err(e),
    }
}

pub open spec fn block_views(bs: Seq<BlockReservation>) -> Seq<(Seq<char>, Seq<ReservationSlice>)> {
    bs.map_values(|b: BlockReservation| (b.block@, b.slices@))
}

/// The blocks already reserved in `chunk`.
pub open spec fn existing_blocks(l: MaterialLedger, chunk: ChunkPos) -> Seq<BlockReservation> {
    if has_chunk(l, chunk) {
        l.chunk_reservations@[chunk_index(l, chunk)].blocks@
    } else {
        Seq::empty()
    }
}

pub open spec fn nothing_fresh(l: MaterialLedger, chunk: ChunkPos, kinds: Seq<FreshBlocks>) -> bool {
    forall|i: int| 0 <= i < kinds.len() ==> kind_count(l, existing_blocks(l, chunk), #[trigger] kinds[i]) == 0
}

/// Some kind among the first `i` is named `name` and still had blocks to reserve.
pub open spec fn kind_named(l: MaterialLedger, ex: Seq<BlockReservation>, kinds: Seq<FreshBlocks>, i: int, name: Seq<char>) -> bool {
    exists|t: int| 0 <= t < i && #[trigger] kinds[t].block_name@ == name && kind_count(l, ex, kinds[t]) > 0
}

/// The kinds come in ascending block-name order, each name once: the order
/// in which a chunk's finite blocks draw on shared deposits.
pub open spec fn kinds_in_name_order(kinds: Seq<FreshBlocks>) -> bool {
    forall|a: int, b: int| 0 <= a < b < kinds.len() ==> crate::reclaim::str_lt(kinds[a].block_name@, kinds[b].block_name@)
}

proof fn lemma_ordered_kinds_distinct(kinds: Seq<FreshBlocks>)
    requires
        kinds_in_name_order(kinds),
    ensures
        kind_names_distinct(kinds),
{
    assert forall|i: int, j: int| 0 <= i < kinds.len() && 0 <= j < kinds.len() && i != j implies kinds[i].block_name@
        != kinds[j].block_name@ by {
        if i < j {
            crate::reclaim::lemma_str_lt_irreflexive(kinds[i].block_name@);
        } else {
            crate::reclaim::lemma_str_lt_irreflexive(kinds[j].block_name@);
        }
    }
}

pub open spec fn kind_names_distinct(kinds: Seq<FreshBlocks>) -> bool {
    forall|i: int, j: int| 0 <= i < kinds.len() && 0 <= j < kinds.len() && i != j ==> kinds[i].block_name@ != kinds[j].block_name@
}

pub open spec fn with_reservations(l: MaterialLedger, d: Vec<DepositAccount>, c: Vec<ChunkReservation>) -> MaterialLedger {
    MaterialLedger { deposits: d, chunk_reservations: c, ..l }
}

/// The deposit `b` is `a` with only its two funding compartments changed.
pub open spec fn same_but_funding(a: DepositAccount, b: DepositAccount) -> bool {
    b == (DepositAccount { remaining_unmaterialized: b.remaining_unmaterialized, materialized_underground: b.materialized_underground, ..a })
}

fn supplies_resource(ds: &Vec<DepositAccount>, key: &str) -> (r: bool)
    ensures
        r == has_resource(ds@, key@),
{
    let mut i: usize = 0;
    while i < ds.len()
        invariant
            i <= ds@.len(),
            forall|j: int| 0 <= j < i ==> ds@[j].resource_key@ != key@,
        decreases ds@.len() - i,
    {
        if str_eq(ds[i].resource_key.as_str(), key) {
            return true;
        }
        i = i + 1;
    }
    false
}

impl MaterialLedger {
    fn count_fresh(&self, existing: &Vec<BlockReservation>, b: &FreshBlocks) -> (r: u32)
        ensures
            r == kind_count(*self, existing@, *b),
    {
        if b.materials.is_empty() {
            return 0;
        }
        match find_block(existing, b.block_name.as_str()) {
            Some(_) => {
                return 0;
            },
            None => {},
        }
        if !b.mineral && !supplies_resource(&self.deposits, b.block_name.as_str()) {
            return 0;
        }
        let mut c: u32 = 0;
        let mut i: usize = 0;
        while i < b.positions.len()
            invariant
                i <= b.positions@.len(),
                c == (if unplaced_count(b.positions@.take(i as int), self.placed_positions@) > u32::MAX {
                    u32::MAX as nat
                } else {
                    unplaced_count(b.positions@.take(i as int), self.placed_positions@)
                }),
            decreases b.positions@.len() - i,
        {
            proof {
                assert(b.positions@.take(i + 1).drop_last() =~= b.positions@.take(i as int));
                assert(b.positions@.take(i + 1).last() == b.positions@[i as int]);
            }
            if find_placed(&self.placed_positions, b.positions[i]).is_none() {
                c = c.saturating_add(1);
            }
            i = i + 1;
        }
        proof {
            assert(b.positions@.take(b.positions@.len() as int) =~= b.positions@);
        }
        c
    }
}

/// `b`'s reservation of `chunk` is `a`'s with the blocks `bs` added, or a new
/// reservation of just `bs` when `a` had none; every other chunk is as it was.
pub open spec fn reservation_recorded(
    a: MaterialLedger,
    b: MaterialLedger,
    chunk: ChunkPos,
    bs: Seq<(Seq<char>, Seq<ReservationSlice>)>,
) -> bool {
    if has_chunk(a, chunk) {
        let ci = chunk_index(a, chunk);
        &&& b.chunk_reservations@.len() == a.chunk_reservations@.len()
        &&& forall|j: int| 0 <= j < a.chunk_reservations@.len() && j != ci ==> #[trigger] b.chunk_reservations@[j] == a.chunk_reservations@[j]
        &&& b.chunk_reservations@[ci].chunk == chunk
        &&& block_views(b.chunk_reservations@[ci].blocks@) == block_views(a.chunk_reservations@[ci].blocks@) + bs
    } else {
        &&& b.chunk_reservations@.len() == a.chunk_reservations@.len() + 1
        &&& b.chunk_reservations@.drop_last() == a.chunk_reservations@
        &&& b.chunk_reservations@.last().chunk == chunk
        &&& block_views(b.chunk_reservations@.last().blocks@) == bs
    }
}

/// `b`'s deposits are `a`'s with only their funding compartments changed, to `f`.
pub open spec fn funding_recorded(a: MaterialLedger, b: MaterialLedger, f: Seq<(u32, Map<Seq<char>, u64>, Map<Seq<char>, u64>)>) -> bool {
    &&& b.deposits@.len() == a.deposits@.len()
    &&& forall|i: int| 0 <= i < a.deposits@.len() ==> same_but_funding(a.deposits@[i], #[trigger] b.deposits@[i])
    &&& fundings(b.deposits@) == f
}

/// What reserving `kinds` in `chunk` yields, from the ledger `l`.
pub open spec fn reserve_outcome(l: MaterialLedger, chunk: ChunkPos, kinds: Seq<FreshBlocks>) -> Result<
    (Seq<(u32, Map<Seq<char>, u64>, Map<Seq<char>, u64>)>, Seq<(Seq<char>, Seq<ReservationSlice>)>),
    (Seq<char>, nat),
> {
    spec_reserve_kinds(fundings(l.deposits@), l, existing_blocks(l, chunk), kinds)
}

impl MaterialLedger {
    /// Reserve the finite blocks of a freshly generated chunk. Each kind that
    /// still needs reserving (see `kind_count`) is funded, in ascending block-name order,
    /// from its candidate deposits in ascending id order, each deposit giving
    /// as many whole blocks as its unmaterialized stock affords; the funded
    /// units move to the deposit's materialized-underground stock. If some
    /// kind cannot be fully funded the chunk is refused and nothing changes.
    /// A chunk with nothing to reserve gets an empty reservation the first
    /// time. Returns whether the ledger changed.
    #[verifier::rlimit(80)]
    #[verifier::spinoff_prover]
    pub fn reserve_fresh_chunk(&mut self, chunk: ChunkPos, kinds: &Vec<FreshBlocks>) -> (r: Result<bool, LedgerError>)
        requires
            ledger_wf(*old(self)),
            kinds_in_name_order(kinds@),
        ensures
            ledger_wf(*final(self)),
            *final(self) == with_reservations(*old(self), final(self).deposits, final(self).chunk_reservations),
            nothing_fresh(*old(self), chunk, kinds@) && has_chunk(*old(self), chunk) ==> r == Ok::<bool, LedgerError>(false)
                && *final(self) == *old(self),
            nothing_fresh(*old(self), chunk, kinds@) && !has_chunk(*old(self), chunk) ==> r == Ok::<bool, LedgerError>(true)
                && final(self).deposits == old(self).deposits && reservation_recorded(*old(self), *final(self), chunk, Seq::empty()),
            !nothing_fresh(*old(self), chunk, kinds@) ==> match reserve_outcome(*old(self), chunk, kinds@) {
                Err(e) => *final(self) == *old(self) && (r matches Err(LedgerError::NoCapacity { block, missing }) && block@ == e.0
                    && missing == e.1),
                Ok(t) => r == Ok::<bool, LedgerError>(true) && funding_recorded(*old(self), *final(self), t.0)
                    && reservation_recorded(*old(self), *final(self), chunk, t.1),
            },
            funding_fits(*old(self)) ==> funding_fits(*final(self))
                && forall|m: Seq<char>| #[trigger] spec_unexplained(*final(self), m) == spec_unexplained(*old(self), m),
    {
        proof {
            lemma_ordered_kinds_distinct(kinds@);
        }
        let ghost l0 = *self;
        let existing_index = find_chunk(&self.chunk_reservations, chunk);
        let empty_blocks: Vec<BlockReservation> = Vec::new();
        let existing: &Vec<BlockReservation> = match existing_index {
            Some(i) => &self.chunk_reservations[i].blocks,
            None => &empty_blocks,
        };
        proof {
            match existing_index {
                Some(i) => {
                    assert(has_chunk(l0, chunk));
                    assert(chunk_index(l0, chunk) == i as int);
                },
                None => {
                    assert(!has_chunk(l0, chunk));
                },
            }
            assert(existing@ == existing_blocks(l0, chunk));
        }
        let ghost ex = existing@;
        let mut counts: Vec<u32> = Vec::new();
        let mut any = false;
        let mut i: usize = 0;
        while i < kinds.len()
            invariant
                *self == l0,
                l0 == *old(self),
                existing@ == ex,
                i <= kinds@.len(),
                counts@.len() == i,
                forall|j: int| 0 <= j < i ==> #[trigger] counts@[j] == kind_count(l0, ex, kinds@[j]),
                any <==> exists|j: int| 0 <= j < i && #[trigger] counts@[j] > 0,
            decreases kinds@.len() - i,
        {
            let c = self.count_fresh(existing, &kinds[i]);
            let ghost before = counts@;
            counts.push(c);
            if c > 0 {
                any = true;
            }
            proof {
                assert(counts@[i as int] == c);
                assert forall|j: int| 0 <= j < i implies #[trigger] counts@[j] == before[j] by {}
                if any {
                    if c > 0 {
                        assert(counts@[i as int] > 0);
                    } else {
                        let j = choose|j: int| 0 <= j < i && #[trigger] before[j] > 0;
                        assert(counts@[j] > 0);
                    }
                } else {
                    assert forall|j: int| 0 <= j < i + 1 implies !(#[trigger] counts@[j] > 0) by {
                        if j < i {
                            assert(counts@[j] == before[j]);
                            if before[j] > 0 {
                                assert(exists|j2: int| 0 <= j2 < i && #[trigger] before[j2] > 0);
                            }
                        }
                    }
                }
            }
            i = i + 1;
        }
        if !any {
            proof {
                assert forall|j: int| 0 <= j < kinds@.len() implies kind_count(l0, existing_blocks(l0, chunk), #[trigger] kinds@[j]) == 0 by {
                    assert(counts@[j] == kind_count(l0, ex, kinds@[j]));
                }
            }
            match existing_index {
                Some(_) => {
                    return Ok(false);
                },
                None => {
                    self.chunk_reservations.push(ChunkReservation { chunk, blocks: Vec::new() });
                    proof {
                        assert(self.chunk_reservations@.drop_last() =~= l0.chunk_reservations@);
                        assert(block_views(self.chunk_reservations@.last().blocks@) =~= Seq::empty());
                    }
                    return Ok(true);
                },
            }
        }
        proof {
            let j = choose|j: int| 0 <= j < i && #[trigger] counts@[j] > 0;
            assert(kind_count(l0, existing_blocks(l0, chunk), kinds@[j]) > 0);
            assert(!nothing_fresh(l0, chunk, kinds@));
        }
        // Stage every debit beside the deposits, index for index.
        let n = self.deposits.len();
        let mut staged: Vec<Option<(MaterialVector, MaterialVector)>> = Vec::new();
        let mut d: usize = 0;
        while d < n
            invariant
                n == self.deposits@.len(),
                d <= n,
                staged@.len() == d,
                forall|k: int| 0 <= k < d ==> #[trigger] staged@[k] is None,
            decreases n - d,
        {
            staged.push(None);
            d = d + 1;
        }
        proof {
            assert(overlay(self.deposits@, staged@) =~= fundings(self.deposits@));
        }
        let mut new_blocks: Vec<BlockReservation> = Vec::new();
        let mut i: usize = 0;
        proof {
            assert(kinds@.skip(0) =~= kinds@);
            match reserve_outcome(l0, chunk, kinds@) {
                Ok(t) => {
                    assert(block_views(new_blocks@) + t.1 =~= t.1);
                },
                Err(_) => {},
            }
        }
        while i < kinds.len()
            invariant
                *self == l0,
                l0 == *old(self),
                ledger_wf(l0),
                kind_names_distinct(kinds@),
                ex == existing_blocks(l0, chunk),
                i <= kinds@.len(),
                counts@.len() == kinds@.len(),
                forall|j: int| 0 <= j < kinds@.len() ==> #[trigger] counts@[j] == kind_count(l0, ex, kinds@[j]),
                staged@.len() == self.deposits@.len(),
                ids_distinct(overlay(self.deposits@, staged@)),
                forall|k: int| 0 <= k < self.deposits@.len() ==> #[trigger] overlay(self.deposits@, staged@)[k].0 == self.deposits@[k].id,
                reserve_outcome(l0, chunk, kinds@) == after_blocks(
                    block_views(new_blocks@),
                    spec_reserve_kinds(overlay(self.deposits@, staged@), l0, ex, kinds@.skip(i as int)),
                ),
                forall|j: int| 0 <= j < new_blocks@.len() ==> kind_named(l0, ex, kinds@, i as int, (#[trigger] new_blocks@[j]).block@),
                forall|a: int, b: int| 0 <= a < new_blocks@.len() && 0 <= b < new_blocks@.len() && a != b ==> new_blocks@[a].block@ != new_blocks@[b].block@,
            decreases kinds@.len() - i,
        {
            let ghost fc = overlay(self.deposits@, staged@);
            let ghost rest = kinds@.skip(i as int);
            proof {
                assert(rest[0] == kinds@[i as int]);
                assert(rest.drop_first() =~= kinds@.skip(i + 1));
            }
            let c = counts[i];
            if c > 0 {
                let cands = sorted_ids(&kinds[i].candidates);
                let (slices, left) = fund_kind(&self.deposits, &mut staged, &kinds[i].materials, c, &cands);
                if left != 0 {
                    return Err(LedgerError::NoCapacity { block: kinds[i].block_name.clone(), missing: left });
                }
                let ghost before = new_blocks@;
                new_blocks.push(BlockReservation { block: kinds[i].block_name.clone(), slices });
                proof {
                    let fnew = overlay(self.deposits@, staged@);
                    assert forall|k: int| 0 <= k < self.deposits@.len() implies #[trigger] fnew[k].0 == self.deposits@[k].id by {
                        lemma_fund_keeps_ids(fc, kinds@[i as int].materials@, c as nat, cands@, k);
                    }
                    assert forall|a: int, b: int| 0 <= a < fnew.len() && 0 <= b < fnew.len() && a != b implies fnew[a].0 != fnew[b].0 by {
                        lemma_fund_keeps_ids(fc, kinds@[i as int].materials@, c as nat, cands@, a);
                        lemma_fund_keeps_ids(fc, kinds@[i as int].materials@, c as nat, cands@, b);
                    }
                    assert(block_views(new_blocks@) =~= block_views(before) + seq![(kinds@[i as int].block_name@, slices@)]);
                    match spec_reserve_kinds(fnew, l0, ex, kinds@.skip(i + 1)) {
                        Ok(t) => {
                            assert(block_views(new_blocks@) + t.1 =~= block_views(before) + (seq![(kinds@[i as int].block_name@, slices@)] + t.1));
                        },
                        Err(_) => {},
                    }
                    assert forall|j: int| 0 <= j < new_blocks@.len() implies kind_named(l0, ex, kinds@, i + 1, (#[trigger] new_blocks@[j]).block@) by {
                        if j < before.len() {
                            assert(new_blocks@[j] == before[j]);
                            assert(kind_named(l0, ex, kinds@, i as int, before[j].block@));
                            let t = choose|t: int| 0 <= t < i && #[trigger] kinds@[t].block_name@ == before[j].block@ && kind_count(l0, ex, kinds@[t]) > 0;
                            assert(0 <= t < i + 1 && kinds@[t].block_name@ == new_blocks@[j].block@ && kind_count(l0, ex, kinds@[t]) > 0);
                        } else {
                            assert(kinds@[i as int].block_name@ == new_blocks@[j].block@);
                            assert(kind_count(l0, ex, kinds@[i as int]) > 0);
                        }
                    }
                    assert forall|a: int, b: int| 0 <= a < new_blocks@.len() && 0 <= b < new_blocks@.len() && a != b implies new_blocks@[a].block@ != new_blocks@[b].block@ by {
                        if a < before.len() && b < before.len() {
                            assert(new_blocks@[a] == before[a]);
                            assert(new_blocks@[b] == before[b]);
                        } else if a < before.len() {
                            assert(new_blocks@[a] == before[a]);
                            assert(kind_named(l0, ex, kinds@, i as int, before[a].block@));
                            let t = choose|t: int| 0 <= t < i && #[trigger] kinds@[t].block_name@ == before[a].block@
                                && kind_count(l0, ex, kinds@[t]) > 0;
                            assert(t != i);
                        } else if b < before.len() {
                            assert(new_blocks@[b] == before[b]);
                            assert(kind_named(l0, ex, kinds@, i as int, before[b].block@));
                            let t = choose|t: int| 0 <= t < i && #[trigger] kinds@[t].block_name@ == before[b].block@
                                && kind_count(l0, ex, kinds@[t]) > 0;
                            assert(t != i);
                        }
                    }
                }
            } else {
                proof {
                    assert forall|j: int| 0 <= j < new_blocks@.len() implies kind_named(l0, ex, kinds@, i + 1, (#[trigger] new_blocks@[j]).block@) by {
                        assert(kind_named(l0, ex, kinds@, i as int, new_blocks@[j].block@));
                        let t = choose|t: int| 0 <= t < i && #[trigger] kinds@[t].block_name@ == new_blocks@[j].block@
                            && kind_count(l0, ex, kinds@[t]) > 0;
                        assert(0 <= t < i + 1 && kinds@[t].block_name@ == new_blocks@[j].block@ && kind_count(l0, ex, kinds@[t]) > 0);
                    }
                }
            }
            i = i + 1;
        }
        proof {
            assert(kinds@.skip(i as int) =~= Seq::<FreshBlocks>::empty());
            assert(block_views(new_blocks@) + Seq::<(Seq<char>, Seq<ReservationSlice>)>::empty() =~= block_views(new_blocks@));
        }
        // Commit the staged accounts.
        let ghost st0 = staged@;
        let ghost d0 = self.deposits@;
        let mut d: usize = n;
        proof {
            assert(st0.take(n as int) =~= st0);
        }
        while d > 0
            invariant
                l0 == *old(self),
                d <= n,
                n == d0.len(),
                st0.len() == n,
                staged@ == st0.take(d as int),
                self.deposits@.len() == n,
                self.chunk_reservations == l0.chunk_reservations,
                *self == with_reservations(l0, self.deposits, self.chunk_reservations),
                forall|k: int| 0 <= k < d ==> #[trigger] self.deposits@[k] == d0[k],
                forall|k: int| d <= k < n ==> same_but_funding(d0[k], #[trigger] self.deposits@[k])
                    && funding_of(self.deposits@[k]) == overlay(d0, st0)[k],
            decreases d,
        {
            d = d - 1;
            let e = staged.pop();
            proof {
                assert(staged@ =~= st0.take(d as int));
                assert(e == Some(st0[d as int]));
            }
            match e {
                Some(Some(p)) => {
                    let (rem, und) = p;
                    let mut acct = self.deposits.remove(d);
                    acct.remaining_unmaterialized = rem;
                    acct.materialized_underground = und;
                    self.deposits.insert(d, acct);
                },
                _ => {},
            }
        }
        proof {
            assert(fundings(self.deposits@) =~= overlay(d0, st0));
            assert forall|k: int, j: int| 0 <= k < self.deposits@.len() && 0 <= j < self.deposits@.len() && k != j
                implies self.deposits@[k].id != self.deposits@[j].id by {
                assert(same_but_funding(d0[k], self.deposits@[k]));
                assert(same_but_funding(d0[j], self.deposits@[j]));
            }
        }
        let ghost blocks_added = block_views(new_blocks@);
        match existing_index {
            Some(ci) => {
                let ghost old_res = self.chunk_reservations@[ci as int];
                let mut res = self.chunk_reservations.remove(ci);
                let ghost added = new_blocks@;
                res.blocks.append(&mut new_blocks);
                proof {
                    assert(block_views(res.blocks@) =~= block_views(old_res.blocks@) + blocks_added);
                    assert(blocks_wf(old_res));
                    assert forall|a: int, b: int| 0 <= a < res.blocks@.len() && 0 <= b < res.blocks@.len() && a != b
                        implies res.blocks@[a].block@ != res.blocks@[b].block@ by {
                        let m = old_res.blocks@.len();
                        if a < m && b < m {
                        } else if a >= m && b >= m {
                            assert(res.blocks@[a] == added[a - m]);
                            assert(res.blocks@[b] == added[b - m]);
                        } else if a < m {
                            assert(res.blocks@[b] == added[b - m]);
                            assert(kind_named(l0, ex, kinds@, kinds@.len() as int, added[b - m].block@));
                            let t = choose|t: int| 0 <= t < kinds@.len() && #[trigger] kinds@[t].block_name@ == added[b - m].block@
                                && kind_count(l0, ex, kinds@[t]) > 0;
                            assert(names_block(ex, old_res.blocks@[a].block@));
                        } else {
                            assert(res.blocks@[a] == added[a - m]);
                            assert(kind_named(l0, ex, kinds@, kinds@.len() as int, added[a - m].block@));
                            let t = choose|t: int| 0 <= t < kinds@.len() && #[trigger] kinds@[t].block_name@ == added[a - m].block@
                                && kind_count(l0, ex, kinds@[t]) > 0;
                            assert(names_block(ex, old_res.blocks@[b].block@));
                        }
                    }
                }
                self.chunk_reservations.insert(ci, res);
                proof {
                    let c2 = self.chunk_reservations@;
                    assert forall|j: int| 0 <= j < l0.chunk_reservations@.len() && j != ci implies #[trigger] c2[j] == l0.chunk_reservations@[j] by {}
                }
            },
            None => {
                let ghost added = new_blocks@;
                self.chunk_reservations.push(ChunkReservation { chunk, blocks: new_blocks });
                proof {
                    assert(self.chunk_reservations@.drop_last() =~= l0.chunk_reservations@);
                    let last = self.chunk_reservations@.last();
                    assert(last.blocks@ == added);
                }
            },
        }
        proof {
            if funding_fits(l0) {
                lemma_reserve_keeps_balance(l0, *self, chunk, kinds@);
            }
        }
        Ok(true)
    }
}

proof fn lemma_fund_keeps_ids(
    f: Seq<(u32, Map<Seq<char>, u64>, Map<Seq<char>, u64>)>,
    mats: Map<Seq<char>, u64>,
    count: nat,
    cands: Seq<u32>,
    k: int,
)
    requires
        0 <= k < f.len(),
    ensures
        spec_fund(f, mats, count, cands).0.len() == f.len(),
        spec_fund(f, mats, count, cands).0[k].0 == f[k].0,
    decreases cands.len(),
{
    if cands.len() == 0 || count == 0 {
    } else if !has_funding(f, cands[0]) {
        lemma_fund_keeps_ids(f, mats, count, cands.drop_first(), k);
    } else {
        let d = funding_index(f, cands[0]);
        let avail = spec_avail(f[d].1, mats, count);
        if avail == 0 {
            lemma_fund_keeps_ids(f, mats, count, cands.drop_first(), k);
        } else {
            let f2 = f.update(d, debit(f[d], mats, avail));
            lemma_fund_keeps_ids(f2, mats, (count - avail) as nat, cands.drop_first(), k);
        }
    }
}

// ---------------------------------------------------------------------------
// Conservation.

/// A deposit's funding stock of `m`: unmaterialized plus materialized underground.
pub open spec fn f_stock(m: Seq<char>) -> spec_fn((u32, Map<Seq<char>, u64>, Map<Seq<char>, u64>)) -> int {
    |x: (u32, Map<Seq<char>, u64>, Map<Seq<char>, u64>)| (amt(x.1, m) + amt(x.2, m)) as int
}

pub open spec fn stock_fits(f: Seq<(u32, Map<Seq<char>, u64>, Map<Seq<char>, u64>)>) -> bool {
    forall|i: int, m: Seq<char>| 0 <= i < f.len() ==> #[trigger] f_stock(m)(f[i]) <= u64::MAX
}

/// Every deposit's unmaterialized plus materialized-underground stock of each
/// material fits in a `u64`, so moving units between the two never saturates.
pub open spec fn funding_fits(l: MaterialLedger) -> bool {
    stock_fits(fundings(l.deposits@))
}

proof fn lemma_debit_conserves(
    acct: (u32, Map<Seq<char>, u64>, Map<Seq<char>, u64>),
    mats: Map<Seq<char>, u64>,
    n: nat,
    m: Seq<char>,
)
    requires
        fits_blocks(acct.1, mats, n),
        f_stock(m)(acct) <= u64::MAX,
    ensures
        f_stock(m)(debit(acct, mats, n)) == f_stock(m)(acct),
        debit(acct, mats, n).0 == acct.0,
{
    let moved = spec_add_vector(Map::empty(), mats, n as int);
    let d = debit(acct, mats, n);
    if mats.contains_key(m) {
        assert(mats[m] * n <= amt(acct.1, m));
        assert(amt(Map::<Seq<char>, u64>::empty(), m) == 0);
        assert(amt(moved, m) == mats[m] * n);
    } else {
        assert(amt(moved, m) == 0);
    }
    assert(amt(moved, m) <= amt(acct.1, m));
    assert(amt(d.1, m) == amt(acct.1, m) - amt(moved, m));
    assert(amt(d.2, m) == amt(acct.2, m) + amt(moved, m));
}

proof fn lemma_fund_conserves(
    f: Seq<(u32, Map<Seq<char>, u64>, Map<Seq<char>, u64>)>,
    mats: Map<Seq<char>, u64>,
    count: nat,
    cands: Seq<u32>,
)
    requires
        stock_fits(f),
    ensures
        spec_fund(f, mats, count, cands).0.len() == f.len(),
        stock_fits(spec_fund(f, mats, count, cands).0),
        forall|m: Seq<char>| #[trigger] seq_sum(spec_fund(f, mats, count, cands).0, f_stock(m)) == seq_sum(f, f_stock(m)),
    decreases cands.len(),
{
    if cands.len() == 0 || count == 0 {
    } else if !has_funding(f, cands[0]) {
        lemma_fund_conserves(f, mats, count, cands.drop_first());
    } else {
        let d = funding_index(f, cands[0]);
        let avail = spec_avail(f[d].1, mats, count);
        if avail == 0 {
            lemma_fund_conserves(f, mats, count, cands.drop_first());
        } else {
            lemma_avail_fits(f[d].1, mats, count);
            let nd = debit(f[d], mats, avail);
            let f2 = f.update(d, nd);
            assert forall|i: int, m: Seq<char>| 0 <= i < f2.len() implies #[trigger] f_stock(m)(f2[i]) <= u64::MAX by {
                assert(f_stock(m)(f[i]) <= u64::MAX);
                if i == d {
                    lemma_debit_conserves(f[d], mats, avail, m);
                }
            }
            assert forall|m: Seq<char>| #[trigger] seq_sum(f2, f_stock(m)) == seq_sum(f, f_stock(m)) by {
                assert(f_stock(m)(f[d]) <= u64::MAX);
                lemma_debit_conserves(f[d], mats, avail, m);
                lemma_sum_update(f, d, nd, f_stock(m));
            }
            lemma_fund_conserves(f2, mats, (count - avail) as nat, cands.drop_first());
        }
    }
}

proof fn lemma_kinds_conserve(
    f: Seq<(u32, Map<Seq<char>, u64>, Map<Seq<char>, u64>)>,
    l: MaterialLedger,
    ex: Seq<BlockReservation>,
    kinds: Seq<FreshBlocks>,
)
    requires
        stock_fits(f),
    ensures
        spec_reserve_kinds(f, l, ex, kinds) matches Ok(t) ==> t.0.len() == f.len() && stock_fits(t.0)
            && forall|m: Seq<char>| #[trigger] seq_sum(t.0, f_stock(m)) == seq_sum(f, f_stock(m)),
    decreases kinds.len(),
{
    if kinds.len() > 0 {
        let b = kinds[0];
        let c = kind_count(l, ex, b);
        if c == 0 {
            lemma_kinds_conserve(f, l, ex, kinds.drop_first());
        } else {
            let res = spec_fund(f, b.materials@, c, ascending_ids(b.candidates@));
            lemma_fund_conserves(f, b.materials@, c, ascending_ids(b.candidates@));
            if res.2 == 0 {
                lemma_kinds_conserve(res.0, l, ex, kinds.drop_first());
            }
        }
    }
}

proof fn lemma_stock_split(ds: Seq<DepositAccount>, m: Seq<char>)
    ensures
        seq_sum(ds, f_unmaterialized(m)) + seq_sum(ds, f_underground(m)) == seq_sum(fundings(ds), f_stock(m)),
    decreases ds.len(),
{
    if ds.len() > 0 {
        lemma_stock_split(ds.drop_last(), m);
        assert(fundings(ds).drop_last() =~= fundings(ds.drop_last()));
    }
}

proof fn lemma_sum_pointwise<T>(s: Seq<T>, t: Seq<T>, f: spec_fn(T) -> int)
    requires
        s.len() == t.len(),
        forall|i: int| 0 <= i < s.len() ==> #[trigger] f(s[i]) == f(t[i]),
    ensures
        seq_sum(s, f) == seq_sum(t, f),
    decreases s.len(),
{
    if s.len() > 0 {
        let p = s.drop_last();
        let q = t.drop_last();
        assert forall|i: int| 0 <= i < p.len() implies #[trigger] f(p[i]) == f(q[i]) by {
            assert(f(s[i]) == f(t[i]));
        }
        lemma_sum_pointwise(p, q, f);
        assert(f(s[s.len() - 1]) == f(t[t.len() - 1]));
    }
}

/// Reserving a chunk only moves units inside deposits, from unmaterialized to
/// materialized-underground stock: the gap the audit reports for every
/// material is unchanged, and stocks still fit.
pub proof fn lemma_reserve_keeps_balance(a: MaterialLedger, b: MaterialLedger, chunk: ChunkPos, kinds: Seq<FreshBlocks>)
    requires
        funding_fits(a),
        reserve_outcome(a, chunk, kinds) is Ok,
        funding_recorded(a, b, reserve_outcome(a, chunk, kinds)->Ok_0.0),
        b == with_reservations(a, b.deposits, b.chunk_reservations),
    ensures
        funding_fits(b),
        forall|m: Seq<char>| #[trigger] spec_unexplained(b, m) == spec_unexplained(a, m),
{
    let t = reserve_outcome(a, chunk, kinds)->Ok_0;
    lemma_kinds_conserve(fundings(a.deposits@), a, existing_blocks(a, chunk), kinds);
    assert forall|m: Seq<char>| #[trigger] spec_unexplained(b, m) == spec_unexplained(a, m) by {
        lemma_stock_split(a.deposits@, m);
        lemma_stock_split(b.deposits@, m);
        assert forall|i: int| 0 <= i < a.deposits@.len() implies #[trigger] f_original(m)(a.deposits@[i]) == f_original(m)(b.deposits@[i]) by {
            assert(same_but_funding(a.deposits@[i], b.deposits@[i]));
        }
        lemma_sum_pointwise(a.deposits@, b.deposits@, f_original(m));
        assert forall|i: int| 0 <= i < a.deposits@.len() implies #[trigger] f_tailings(m)(a.deposits@[i]) == f_tailings(m)(b.deposits@[i]) by {
            assert(same_but_funding(a.deposits@[i], b.deposits@[i]));
        }
        lemma_sum_pointwise(a.deposits@, b.deposits@, f_tailings(m));
    }
}

} // verus!
