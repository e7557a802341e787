//! Checks a ledger read back from disk must pass before it is used: every
//! keyed list holds each key once, and the audit's technology-arc scaling
//! stays in range.

use vstd::prelude::*;
use crate::materials::{
    MaterialLedger, DepositAccount, ChunkReservation, PlacedBlock, SalvageRegion, SalvagePool, ExternalSource,
    ledger_wf, blocks_wf, arcs_fit, sat_fold, f_original,
};
use crate::text::str_eq;
use crate::vector::sat_add;

verus! {

fn deposit_ids_unique(s: &Vec<DepositAccount>) -> (r: bool)
    ensures
        r == forall|i: int, j: int| 0 <= i < s@.len() && 0 <= j < s@.len() && i != j ==> s@[i].id != s@[j].id,
{
    let n = s.len();
    let mut i: usize = 0;
    while i < n
        invariant
            n == s@.len(),
            i <= n,
            forall|a: int, b: int| 0 <= a < i && a < b < n ==> s@[a].id != s@[b].id,
        decreases n - i,
    {
        let mut j: usize = i + 1;
        while j < n
            invariant
                n == s@.len(),
                i < n,
                i < j <= n,
                forall|b: int| i < b < j ==> s@[i as int].id != s@[b].id,
            decreases n - j,
        {
            if s[i].id == s[j].id {
                return false;
            }
            j = j + 1;
        }
        i = i + 1;
    }
    proof {
        assert forall|a: int, b: int| 0 <= a < n && 0 <= b < n && a != b implies s@[a].id != s@[b].id by {
            if b < a {
                assert(s@[b].id != s@[a].id);
            }
        }
    }
    true
}

fn chunks_unique(s: &Vec<ChunkReservation>) -> (r: bool)
    ensures
        r == forall|i: int, j: int| 0 <= i < s@.len() && 0 <= j < s@.len() && i != j ==> s@[i].chunk != s@[j].chunk,
{
    let n = s.len();
    let mut i: usize = 0;
    while i < n
        invariant
            n == s@.len(),
            i <= n,
            forall|a: int, b: int| 0 <= a < i && a < b < n ==> s@[a].chunk != s@[b].chunk,
        decreases n - i,
    {
        let mut j: usize = i + 1;
        while j < n
            invariant
                n == s@.len(),
                i < n,
                i < j <= n,
                forall|b: int| i < b < j ==> s@[i as int].chunk != s@[b].chunk,
            decreases n - j,
        {
            if s[i].chunk == s[j].chunk {
                return false;
            }
            j = j + 1;
        }
        i = i + 1;
    }
    proof {
        assert forall|a: int, b: int| 0 <= a < n && 0 <= b < n && a != b implies s@[a].chunk != s@[b].chunk by {
            if b < a {
                assert(s@[b].chunk != s@[a].chunk);
            }
        }
    }
    true
}

fn positions_unique(s: &Vec<PlacedBlock>) -> (r: bool)
    ensures
        r == forall|i: int, j: int| 0 <= i < s@.len() && 0 <= j < s@.len() && i != j ==> s@[i].pos != s@[j].pos,
{
    let n = s.len();
    let mut i: usize = 0;
    while i < n
        invariant
            n == s@.len(),
            i <= n,
            forall|a: int, b: int| 0 <= a < i && a < b < n ==> s@[a].pos != s@[b].pos,
        decreases n - i,
    {
        let mut j: usize = i + 1;
        while j < n
            invariant
                n == s@.len(),
                i < n,
                i < j <= n,
                forall|b: int| i < b < j ==> s@[i as int].pos != s@[b].pos,
            decreases n - j,
        {
            if s[i].pos == s[j].pos {
                return false;
            }
            j = j + 1;
        }
        i = i + 1;
    }
    proof {
        assert forall|a: int, b: int| 0 <= a < n && 0 <= b < n && a != b implies s@[a].pos != s@[b].pos by {
            if b < a {
                assert(s@[b].pos != s@[a].pos);
            }
        }
    }
    true
}

fn regions_unique(s: &Vec<(SalvageRegion, SalvagePool)>) -> (r: bool)
    ensures
        r == forall|i: int, j: int| 0 <= i < s@.len() && 0 <= j < s@.len() && i != j ==> s@[i].0 != s@[j].0,
{
    let n = s.len();
    let mut i: usize = 0;
    while i < n
        invariant
            n == s@.len(),
            i <= n,
            forall|a: int, b: int| 0 <= a < i && a < b < n ==> s@[a].0 != s@[b].0,
        decreases n - i,
    {
        let mut j: usize = i + 1;
        while j < n
            invariant
                n == s@.len(),
                i < n,
                i < j <= n,
                forall|b: int| i < b < j ==> s@[i as int].0 != s@[b].0,
            decreases n - j,
        {
            if s[i].0 == s[j].0 {
                return false;
            }
            j = j + 1;
        }
        i = i + 1;
    }
    proof {
        assert forall|a: int, b: int| 0 <= a < n && 0 <= b < n && a != b implies s@[a].0 != s@[b].0 by {
            if b < a {
                assert(s@[b].0 != s@[a].0);
            }
        }
    }
    true
}

fn sources_unique(s: &Vec<ExternalSource>) -> (r: bool)
    ensures
        r == forall|i: int, j: int| 0 <= i < s@.len() && 0 <= j < s@.len() && i != j ==> s@[i].source@ != s@[j].source@,
{
    let n = s.len();
    let mut i: usize = 0;
    while i < n
        invariant
            n == s@.len(),
            i <= n,
            forall|a: int, b: int| 0 <= a < i && a < b < n ==> s@[a].source@ != s@[b].source@,
        decreases n - i,
    {
        let mut j: usize = i + 1;
        while j < n
            invariant
                n == s@.len(),
                i < n,
                i < j <= n,
                forall|b: int| i < b < j ==> s@[i as int].source@ != s@[b].source@,
            decreases n - j,
        {
            if str_eq(s[i].source.as_str(), s[j].source.as_str()) {
                return false;
            }
            j = j + 1;
        }
        i = i + 1;
    }
    proof {
        assert forall|a: int, b: int| 0 <= a < n && 0 <= b < n && a != b implies s@[a].source@ != s@[b].source@ by {
            if b < a {
                assert(s@[b].source@ != s@[a].source@);
            }
        }
    }
    true
}

fn block_names_unique(r: &ChunkReservation) -> (ok: bool)
    ensures
        ok == blocks_wf(*r),
{
    let s = &r.blocks;
    let n = s.len();
    let mut i: usize = 0;
    while i < n
        invariant
            s == &r.blocks,
            n == s@.len(),
            i <= n,
            forall|a: int, b: int| 0 <= a < i && a < b < n ==> s@[a].block@ != s@[b].block@,
        decreases n - i,
    {
        let mut j: usize = i + 1;
        while j < n
            invariant
                s == &r.blocks,
                n == s@.len(),
                i < n,
                i < j <= n,
                forall|b: int| i < b < j ==> s@[i as int].block@ != s@[b].block@,
            decreases n - j,
        {
            if str_eq(s[i].block.as_str(), s[j].block.as_str()) {
                return false;
            }
            j = j + 1;
        }
        i = i + 1;
    }
    proof {
        assert forall|a: int, b: int| 0 <= a < n && 0 <= b < n && a != b implies s@[a].block@ != s@[b].block@ by {
            if b < a {
                assert(s@[b].block@ != s@[a].block@);
            }
        }
    }
    true
}

fn original_total(deposits: &Vec<DepositAccount>, material: &str) -> (r: u64)
    ensures
        r == sat_fold(0, deposits@, f_original(material@)),
{
    let mut total: u64 = 0;
    let mut i: usize = 0;
    while i < deposits.len()
        invariant
            i <= deposits@.len(),
            total == sat_fold(0, deposits@.take(i as int), f_original(material@)),
        decreases deposits@.len() - i,
    {
        proof {
            assert(deposits@.take(i + 1).drop_last() =~= deposits@.take(i as int));
            assert(deposits@.take(i + 1).last() == deposits@[i as int]);
        }
        let units = deposits[i].original_recoverable.units(material);
        total = total.saturating_add(units);
        assert(total == sat_add(sat_fold(0, deposits@.take(i as int), f_original(material@)), units as int));
        i = i + 1;
    }
    assert(deposits@.take(deposits@.len() as int) =~= deposits@);
    total
}

impl MaterialLedger {
    /// Whether every keyed list holds each key once: deposit ids, reserved
    /// chunks and the block kinds within each, placed positions, salvage
    /// regions and external source names.
    pub fn keys_unique(&self) -> (r: bool)
        ensures
            r == ledger_wf(*self),
    {
        if !deposit_ids_unique(&self.deposits) || !chunks_unique(&self.chunk_reservations)
            || !positions_unique(&self.placed_positions) || !regions_unique(&self.salvage)
            || !sources_unique(&self.external_sources) {
            return false;
        }
        let mut c: usize = 0;
        while c < self.chunk_reservations.len()
            invariant
                c <= self.chunk_reservations@.len(),
                forall|k: int| 0 <= k < c ==> #[trigger] blocks_wf(self.chunk_reservations@[k]),
            decreases self.chunk_reservations@.len() - c,
        {
            if !block_names_unique(&self.chunk_reservations[c]) {
                return false;
            }
            c = c + 1;
        }
        true
    }

    /// Whether the originals of the four technology metals, summed with
    /// saturation over the deposits, can be scaled by 750 for the audit's
    /// technology-arc count.
    pub fn audit_fits(&self) -> (r: bool)
        ensures
            r == arcs_fit(*self),
    {
        let limit: u64 = u64::MAX / 750;
        let copper = original_total(&self.deposits, "copper");
        let tin = original_total(&self.deposits, "tin");
        let iron = original_total(&self.deposits, "iron");
        let coal = original_total(&self.deposits, "coal");
        copper <= limit && tin <= limit && iron <= limit && coal <= limit
    }
}

} // verus!
