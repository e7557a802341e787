//! One fail-closed operator check for the complete magical practice: a closed
//! save qualifies only when every authoritative ledger's audit does.

use vstd::prelude::*;
use crate::audit_text::{signed_text, spec_signed};
use crate::text::{push_decimal, push_decimal_wide, push_hex_fixed, bool_word, spec_decimal, spec_hex_fixed, spec_bool_word};

verus! {

pub const MAGIC_QUALIFICATION_SCHEMA: u32 = 1;

/// The rendered outcome of one qualification run.
#[derive(Clone, Debug, Eq, PartialEq)]
pub struct MagicQualificationReport {
    pub qualified: bool,
    pub elapsed_micros: u128,
    pub text: String,
}

impl MagicQualificationReport {
    /// The operator text.
    pub fn render(&self) -> (r: &str)
        ensures
            r@ == self.text@,
    {
        self.text.as_str()
    }
}

/// What each authoritative audit of one closed save reported.
#[derive(Clone, Copy, Debug, Eq, PartialEq, Structural)]
pub struct MagicAuditOutcomes {
    pub arcane_balanced: bool,
    pub arcane_external_adjustment: i128,
    pub geography_balanced: bool,
    pub geography_custody_matches: bool,
    pub ecology_sites: usize,
    pub ecology_roles: usize,
    pub ecology_variants: usize,
    pub discovery_qualified: bool,
    pub implements_qualified: bool,
    pub workings_qualified: bool,
    pub alchemy_qualified: bool,
    pub dross_balanced: bool,
    pub unexplained_water_delta_hu: i128,
    pub unexplained_salt_delta: i128,
    pub materials_balanced: bool,
    pub materials_qualified: bool,
}

pub open spec fn spec_ecology_breadth(o: MagicAuditOutcomes) -> bool {
    o.ecology_sites != 0 && o.ecology_roles >= 7 && o.ecology_variants >= 6
}

/// Every audit passes: nothing partial counts as success.
pub open spec fn spec_magic_qualified(o: MagicAuditOutcomes) -> bool {
    &&& o.arcane_balanced
    &&& o.arcane_external_adjustment == 0
    &&& o.geography_balanced
    &&& o.geography_custody_matches
    &&& spec_ecology_breadth(o)
    &&& o.discovery_qualified
    &&& o.implements_qualified
    &&& o.workings_qualified
    &&& o.alchemy_qualified
    &&& o.dross_balanced
    &&& o.unexplained_water_delta_hu == 0
    &&& o.unexplained_salt_delta == 0
    &&& o.materials_balanced
    &&& o.materials_qualified
}

impl MagicAuditOutcomes {
    /// The ecology has sites and at least seven roles and six habitat
    /// expressions.
    pub fn ecology_has_required_breadth(&self) -> (r: bool)
        ensures
            r == spec_ecology_breadth(*self),
    {
        self.ecology_sites != 0 && self.ecology_roles >= 7 && self.ecology_variants >= 6
    }

    /// Whether every audit passed.
    pub fn is_qualified(&self) -> (r: bool)
        ensures
            r == spec_magic_qualified(*self),
    {
        self.arcane_balanced && self.arcane_external_adjustment == 0 && self.geography_balanced
            && self.geography_custody_matches && self.ecology_has_required_breadth() && self.discovery_qualified
            && self.implements_qualified && self.workings_qualified && self.alchemy_qualified && self.dross_balanced
            && self.unexplained_water_delta_hu == 0 && self.unexplained_salt_delta == 0 && self.materials_balanced
            && self.materials_qualified
    }
}

/// Qualification is fail-closed: a save qualifies only when every audit
/// passes, so a single failing audit (an unbalanced ledger, any external or
/// unexplained adjustment, missing ecology breadth) disqualifies it, and a
/// save on which every audit passes qualifies.
pub proof fn lemma_qualified_iff_every_audit_passes(o: MagicAuditOutcomes)
    ensures
        spec_magic_qualified(o) ==> o.arcane_balanced,
        spec_magic_qualified(o) ==> o.arcane_external_adjustment == 0,
        spec_magic_qualified(o) ==> o.geography_balanced,
        spec_magic_qualified(o) ==> o.geography_custody_matches,
        spec_magic_qualified(o) ==> o.ecology_sites != 0 && o.ecology_roles >= 7 && o.ecology_variants >= 6,
        spec_magic_qualified(o) ==> o.discovery_qualified,
        spec_magic_qualified(o) ==> o.implements_qualified,
        spec_magic_qualified(o) ==> o.workings_qualified,
        spec_magic_qualified(o) ==> o.alchemy_qualified,
        spec_magic_qualified(o) ==> o.dross_balanced,
        spec_magic_qualified(o) ==> o.unexplained_water_delta_hu == 0,
        spec_magic_qualified(o) ==> o.unexplained_salt_delta == 0,
        spec_magic_qualified(o) ==> o.materials_balanced,
        spec_magic_qualified(o) ==> o.materials_qualified,
        o.arcane_balanced && o.arcane_external_adjustment == 0 && o.geography_balanced && o.geography_custody_matches
            && o.ecology_sites != 0 && o.ecology_roles >= 7 && o.ecology_variants >= 6 && o.discovery_qualified
            && o.implements_qualified && o.workings_qualified && o.alchemy_qualified && o.dross_balanced
            && o.unexplained_water_delta_hu == 0 && o.unexplained_salt_delta == 0 && o.materials_balanced
            && o.materials_qualified ==> spec_magic_qualified(o),
{
}

/// The rendered audit of each authoritative ledger, in report order.
pub struct MagicSections {
    pub arcane: String,
    pub geography: String,
    pub ecology: String,
    pub discovery: String,
    pub implements: String,
    pub workings: String,
    pub alchemy: String,
    pub dross: String,
    pub materials: String,
}

/// The planet's water and salt balance, as the atlas audits it.
#[derive(Clone, Copy, Debug, Eq, PartialEq, Structural)]
pub struct WaterFigures {
    pub expected_water_hu: i128,
    pub current_water_hu: i128,
    pub expected_salt_mass: i128,
    pub current_salt_mass: i128,
}

pub open spec fn spec_report_head(world: Seq<char>, content_hash: u64, elapsed_micros: u128) -> Seq<char> {
    "Wildforge magic qualification schema "@ + spec_decimal(MAGIC_QUALIFICATION_SCHEMA as nat) + "\n"@ + "World: "@
        + world + "\n"@ + "Content hash: "@ + spec_hex_fixed(content_hash as nat, 16) + "\n"@ + "Elapsed: "@
        + spec_decimal(elapsed_micros as nat) + " us\n\n"@
}

pub open spec fn spec_breadth_word(o: MagicAuditOutcomes) -> Seq<char> {
    if spec_ecology_breadth(o) {
        "qualified"@
    } else {
        "FAILED"@
    }
}

pub open spec fn spec_report_ledgers(o: MagicAuditOutcomes, s: MagicSections) -> Seq<char> {
    s.arcane@ + "\n"@ + s.geography@ + "Ledger custody matches: "@ + spec_bool_word(o.geography_custody_matches)
        + "\n\n"@ + s.ecology@ + "Required ecological breadth: "@ + spec_decimal(o.ecology_roles as nat) + " roles, "@
        + spec_decimal(o.ecology_variants as nat) + " habitat expressions, status="@ + spec_breadth_word(o) + "\n\n"@
        + s.discovery@ + "\n"@ + s.implements@ + "\n"@ + s.workings@ + "\n"@ + s.alchemy@ + "\n"@ + s.dross@
        + "\n"@
}

pub open spec fn spec_report_water(o: MagicAuditOutcomes, w: WaterFigures) -> Seq<char> {
    "Planetary water/salt audit\n"@ + "Water expected: "@ + spec_signed(w.expected_water_hu as int) + " HU\n"@
        + "Water accounted: "@ + spec_signed(w.current_water_hu as int) + " HU\n"@ + "Water unexplained delta: "@
        + spec_signed(o.unexplained_water_delta_hu as int) + " HU\n"@ + "Salt expected: "@ + spec_signed(
        w.expected_salt_mass as int,
    ) + "\n"@ + "Salt accounted: "@ + spec_signed(w.current_salt_mass as int) + "\n"@ + "Salt unexplained delta: "@
        + spec_signed(o.unexplained_salt_delta as int) + "\n\n"@
}

pub open spec fn spec_report_tail(o: MagicAuditOutcomes, s: MagicSections) -> Seq<char> {
    s.materials@ + "\nMAGIC QUALIFICATION: "@ + (if spec_magic_qualified(o) {
        "PASS"@
    } else {
        "FAILED"@
    }) + "\n"@
}

/// The whole operator text: header, each ledger's audit, the water and salt
/// balance, the material audit and the verdict.
pub open spec fn spec_report_text(
    world: Seq<char>,
    content_hash: u64,
    elapsed_micros: u128,
    o: MagicAuditOutcomes,
    w: WaterFigures,
    s: MagicSections,
) -> Seq<char> {
    spec_report_head(world, content_hash, elapsed_micros) + spec_report_ledgers(o, s) + spec_report_water(o, w)
        + spec_report_tail(o, s)
}

fn push_head(out: &mut String, world: &str, content_hash: u64, elapsed_micros: u128)
    ensures
        final(out)@ == old(out)@ + spec_report_head(world@, content_hash, elapsed_micros),
{
    let ghost start = out@;
    out.append("Wildforge magic qualification schema ");
    push_decimal(out, MAGIC_QUALIFICATION_SCHEMA as u64);
    out.append("\n");
    out.append("World: ");
    out.append(world);
    out.append("\n");
    out.append("Content hash: ");
    push_hex_fixed(out, content_hash, 16);
    out.append("\n");
    out.append("Elapsed: ");
    push_decimal_wide(out, elapsed_micros);
    out.append(" us\n\n");
    assert(out@ =~= start + spec_report_head(world@, content_hash, elapsed_micros));
}

#[verifier::spinoff_prover]
#[verifier::rlimit(40)]
fn push_ledgers(out: &mut String, o: &MagicAuditOutcomes, s: &MagicSections)
    ensures
        final(out)@ == old(out)@ + spec_report_ledgers(*o, *s),
{
    let ghost start = out@;
    out.append(s.arcane.as_str());
    out.append("\n");
    out.append(s.geography.as_str());
    out.append("Ledger custody matches: ");
    out.append(bool_word(o.geography_custody_matches));
    out.append("\n\n");
    out.append(s.ecology.as_str());
    out.append("Required ecological breadth: ");
    push_decimal(out, o.ecology_roles as u64);
    out.append(" roles, ");
    push_decimal(out, o.ecology_variants as u64);
    out.append(" habitat expressions, status=");
    if o.ecology_has_required_breadth() {
        out.append("qualified");
    } else {
        out.append("FAILED");
    }
    out.append("\n\n");
    out.append(s.discovery.as_str());
    out.append("\n");
    out.append(s.implements.as_str());
    out.append("\n");
    out.append(s.workings.as_str());
    out.append("\n");
    out.append(s.alchemy.as_str());
    out.append("\n");
    out.append(s.dross.as_str());
    out.append("\n");
    assert(out@ =~= start + spec_report_ledgers(*o, *s));
}

fn push_water(out: &mut String, o: &MagicAuditOutcomes, w: &WaterFigures)
    ensures
        final(out)@ == old(out)@ + spec_report_water(*o, *w),
{
    let ghost start = out@;
    out.append("Planetary water/salt audit\n");
    out.append("Water expected: ");
    out.append(signed_text(w.expected_water_hu).as_str());
    out.append(" HU\n");
    out.append("Water accounted: ");
    out.append(signed_text(w.current_water_hu).as_str());
    out.append(" HU\n");
    out.append("Water unexplained delta: ");
    out.append(signed_text(o.unexplained_water_delta_hu).as_str());
    out.append(" HU\n");
    out.append("Salt expected: ");
    out.append(signed_text(w.expected_salt_mass).as_str());
    out.append("\n");
    out.append("Salt accounted: ");
    out.append(signed_text(w.current_salt_mass).as_str());
    out.append("\n");
    out.append("Salt unexplained delta: ");
    out.append(signed_text(o.unexplained_salt_delta).as_str());
    out.append("\n\n");
    assert(out@ =~= start + spec_report_water(*o, *w));
}

impl MagicQualificationReport {
    /// Assemble one run's report: qualified only when every audit passed,
    /// with the operator text laid out section by section.
    pub fn compose(
        world: &str,
        content_hash: u64,
        elapsed_micros: u128,
        outcomes: &MagicAuditOutcomes,
        water: &WaterFigures,
        sections: &MagicSections,
    ) -> (r: MagicQualificationReport)
        ensures
            r.qualified == spec_magic_qualified(*outcomes),
            r.elapsed_micros == elapsed_micros,
            r.text@ == spec_report_text(world@, content_hash, elapsed_micros, *outcomes, *water, *sections),
    {
        let qualified = outcomes.is_qualified();
        let mut text = String::new();
        push_head(&mut text, world, content_hash, elapsed_micros);
        push_ledgers(&mut text, outcomes, sections);
        push_water(&mut text, outcomes, water);
        let ghost before_tail = text@;
        text.append(sections.materials.as_str());
        text.append("\nMAGIC QUALIFICATION: ");
        if qualified {
            text.append("PASS");
        } else {
            text.append("FAILED");
        }
        text.append("\n");
        assert(text@ =~= before_tail + spec_report_tail(*outcomes, *sections));
        assert(text@ =~= spec_report_text(world@, content_hash, elapsed_micros, *outcomes, *water, *sections));
        MagicQualificationReport { qualified, elapsed_micros, text }
    }
}

} // verus!
