//! The census behind the implements audit: every instance counted by kind,
//! its tracked matter summed, and its Current custody checked against the
//! parent arcane ledger.

use vstd::prelude::*;
use crate::implements::{
    ImplementError, ImplementInstance, ImplementKind, ImplementsAudit, ImplementsState, spec_kind_capacity,
    spec_tracked, spec_usable_charge, tracked_overflows, usable_charge,
};
use crate::vector::{map_total, sat_add};

verus! {

/// What the parent arcane ledger and the encoder report of one implement.
#[derive(Clone, Copy, Debug, Eq, PartialEq, Structural)]
pub struct InstanceCustody {
    /// Total clean Current of its item account; `None` when it has none.
    pub clean: Option<u64>,
    /// Total Current of its retained dross account.
    pub dross: u64,
    /// Whether the ledger's item account names the instance's content.
    pub content_matches: bool,
    /// Encoded size of the instance.
    pub instance_bytes: usize,
    /// Encoded size of its public view at this dross.
    pub public_bytes: usize,
}

/// The audit before any instance is counted.
pub open spec fn census_start(
    s: ImplementsState,
    file_bytes: u64,
    arcane_balanced: bool,
    material_balanced: bool,
) -> ImplementsAudit {
    ImplementsAudit {
        schema_version: s.schema_version,
        resolver_version: s.resolver_version,
        content_hash: s.content_hash,
        file_bytes,
        instances: s.instances@.len() as usize,
        wands: 0,
        charms: 0,
        vessels: 0,
        fragment_bundles: 0,
        creative_marked: 0,
        clean_current: 0,
        retained_dross: 0,
        tracked_material_units: 0,
        missing_accounts: 0,
        content_mismatches: 0,
        over_capacity: 0,
        max_instance_bytes: 0,
        max_public_bytes: 0,
        audit_events: s.audit@.len() as usize,
        arcane_balanced,
        material_balanced,
    }
}

pub open spec fn bump(n: usize, yes: bool) -> usize {
    if yes {
        (n + 1) as usize
    } else {
        n
    }
}

pub open spec fn larger(a: usize, b: usize) -> usize {
    if a < b {
        b
    } else {
        a
    }
}

/// The audit after counting instance `i`: its kind and creative mark, its
/// tracked matter (none when that total would pass `u64::MAX`), then, when
/// it has a clean account, its saturating custody totals, a content
/// mismatch, an over-capacity charge, and its encoded sizes.
pub open spec fn census_step(a: ImplementsAudit, i: ImplementInstance, c: InstanceCustody) -> Option<ImplementsAudit> {
    let total = map_total(spec_tracked(i.construction@));
    if tracked_overflows(i.construction@) || total > u64::MAX || a.tracked_material_units + total > u64::MAX {
        None
    } else {
        let counted = ImplementsAudit {
            wands: bump(a.wands, i.kind is Wand),
            charms: bump(a.charms, i.kind is Charm),
            vessels: bump(a.vessels, i.kind is Vessel),
            fragment_bundles: bump(a.fragment_bundles, i.kind is Fragments),
            creative_marked: bump(a.creative_marked, i.creative),
            tracked_material_units: (a.tracked_material_units + total) as u64,
            ..a
        };
        match c.clean {
            None => Some(ImplementsAudit { missing_accounts: bump(counted.missing_accounts, true), ..counted }),
            Some(clean) => Some(
                ImplementsAudit {
                    clean_current: sat_add(counted.clean_current as int, clean as int) as u64,
                    retained_dross: sat_add(counted.retained_dross as int, c.dross as int) as u64,
                    content_mismatches: bump(counted.content_mismatches, !c.content_matches),
                    over_capacity: bump(counted.over_capacity, spec_usable_charge(clean) > spec_kind_capacity(i.kind)),
                    max_instance_bytes: larger(counted.max_instance_bytes, c.instance_bytes),
                    max_public_bytes: larger(counted.max_public_bytes, c.public_bytes),
                    ..counted
                },
            ),
        }
    }
}

/// The audit after counting the first `n` instances, or `None` when a
/// matter total overflowed.
pub open spec fn census(a: ImplementsAudit, insts: Seq<ImplementInstance>, cs: Seq<InstanceCustody>, n: nat) -> Option<
    ImplementsAudit,
>
    decreases n,
{
    if n == 0 {
        Some(a)
    } else {
        match census(a, insts, cs, (n - 1) as nat) {
            None => None,
            Some(prev) => census_step(prev, insts[n - 1], cs[n - 1]),
        }
    }
}

proof fn lemma_census_stays_none(a: ImplementsAudit, insts: Seq<ImplementInstance>, cs: Seq<InstanceCustody>, k: nat, n: nat)
    requires
        k <= n,
        census(a, insts, cs, k) is None,
    ensures
        census(a, insts, cs, n) is None,
    decreases n,
{
    if n > k {
        lemma_census_stays_none(a, insts, cs, k, (n - 1) as nat);
    }
}

/// Counts never pass the number of instances counted.
pub open spec fn counts_within(a: ImplementsAudit, n: int) -> bool {
    &&& a.wands <= n && a.charms <= n && a.vessels <= n && a.fragment_bundles <= n
    &&& a.creative_marked <= n && a.missing_accounts <= n && a.content_mismatches <= n && a.over_capacity <= n
}

/// Every count can take one more.
pub open spec fn counts_open(a: ImplementsAudit) -> bool {
    &&& a.wands < usize::MAX && a.charms < usize::MAX && a.vessels < usize::MAX && a.fragment_bundles < usize::MAX
    &&& a.creative_marked < usize::MAX && a.missing_accounts < usize::MAX && a.content_mismatches < usize::MAX
    &&& a.over_capacity < usize::MAX
}

/// Count one instance into `a`, as `census_step` says.
fn count_instance(a: &mut ImplementsAudit, inst: &ImplementInstance, c: InstanceCustody) -> (r: Result<(), ImplementError>)
    requires
        counts_open(*old(a)),
    ensures
        match census_step(*old(a), *inst, c) {
            Some(x) => r is Ok && *final(a) == x,
            None => r matches Err(e) && e is Corrupt,
        },
{
    let matter = match inst.tracked_materials() {
        Ok(v) => v,
        Err(e) => {
            return Err(e);
        },
    };
    let total = match matter.checked_total() {
        Some(t) => t,
        None => {
            return Err(ImplementError::Corrupt(String::from_str("tracked implement material audit total overflowed")));
        },
    };
    let units = match a.tracked_material_units.checked_add(total) {
        Some(t) => t,
        None => {
            return Err(ImplementError::Corrupt(String::from_str("tracked implement material census overflowed")));
        },
    };
    match inst.kind {
        ImplementKind::Wand { .. } => {
            a.wands = a.wands + 1;
        },
        ImplementKind::Charm { .. } => {
            a.charms = a.charms + 1;
        },
        ImplementKind::Vessel { .. } => {
            a.vessels = a.vessels + 1;
        },
        ImplementKind::Fragments { .. } => {
            a.fragment_bundles = a.fragment_bundles + 1;
        },
    }
    if inst.creative {
        a.creative_marked = a.creative_marked + 1;
    }
    a.tracked_material_units = units;
    match c.clean {
        None => {
            a.missing_accounts = a.missing_accounts + 1;
        },
        Some(clean) => {
            a.clean_current = a.clean_current.saturating_add(clean);
            a.retained_dross = a.retained_dross.saturating_add(c.dross);
            if !c.content_matches {
                a.content_mismatches = a.content_mismatches + 1;
            }
            if usable_charge(clean) > inst.usable_capacity() {
                a.over_capacity = a.over_capacity + 1;
            }
            if a.max_instance_bytes < c.instance_bytes {
                a.max_instance_bytes = c.instance_bytes;
            }
            if a.max_public_bytes < c.public_bytes {
                a.max_public_bytes = c.public_bytes;
            }
        },
    }
    Ok(())
}

impl ImplementsState {
    /// Count every instance, given one custody report per instance in
    /// order. A matter total that would pass `u64::MAX` is corrupt.
    pub fn census(
        &self,
        custody: &Vec<InstanceCustody>,
        file_bytes: u64,
        arcane_balanced: bool,
        material_balanced: bool,
    ) -> (r: Result<ImplementsAudit, ImplementError>)
        requires
            custody@.len() == self.instances@.len(),
        ensures
            match census(
                census_start(*self, file_bytes, arcane_balanced, material_balanced),
                self.instances@,
                custody@,
                self.instances@.len(),
            ) {
                Some(a) => r matches Ok(x) && x == a,
                None => r matches Err(e) && e is Corrupt,
            },
            r matches Ok(a) ==> a.wands + a.charms + a.vessels + a.fragment_bundles == a.instances
                && a.missing_accounts <= a.instances && a.creative_marked <= a.instances,
    {
        let ghost start = census_start(*self, file_bytes, arcane_balanced, material_balanced);
        let mut a = ImplementsAudit {
            schema_version: self.schema_version,
            resolver_version: self.resolver_version,
            content_hash: self.content_hash,
            file_bytes,
            instances: self.instances.len(),
            wands: 0,
            charms: 0,
            vessels: 0,
            fragment_bundles: 0,
            creative_marked: 0,
            clean_current: 0,
            retained_dross: 0,
            tracked_material_units: 0,
            missing_accounts: 0,
            content_mismatches: 0,
            over_capacity: 0,
            max_instance_bytes: 0,
            max_public_bytes: 0,
            audit_events: self.audit.len(),
            arcane_balanced,
            material_balanced,
        };
        let n = self.instances.len();
        let mut k: usize = 0;
        while k < n
            invariant
                start == census_start(*self, file_bytes, arcane_balanced, material_balanced),
                n == self.instances@.len(),
                n == custody@.len(),
                k <= n,
                census(start, self.instances@, custody@, k as nat) == Some(a),
                counts_within(a, k as int),
                a.wands + a.charms + a.vessels + a.fragment_bundles == k,
                a.instances == n,
            decreases n - k,
        {
            let ghost before = a;
            match count_instance(&mut a, &self.instances[k], custody[k]) {
                Ok(()) => {},
                Err(e) => {
                    proof {
                        assert(census(start, self.instances@, custody@, (k + 1) as nat) is None);
                        lemma_census_stays_none(start, self.instances@, custody@, (k + 1) as nat, n as nat);
                    }
                    return Err(e);
                },
            }
            proof {
                assert(census(start, self.instances@, custody@, (k + 1) as nat) == census_step(
                    before,
                    self.instances@[k as int],
                    custody@[k as int],
                ));
            }
            k = k + 1;
        }
        Ok(a)
    }
}

} // verus!
