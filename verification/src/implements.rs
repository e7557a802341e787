//! Physical magical implements: declarative components, deterministic wand
//! resolution, and durable instance metadata.
//!
//! Current itself lives in the arcane ledger. This sidecar explains what each
//! stable item identity physically is and how quickly it may move that
//! Current, so that no mod or UI path can invent charge by editing item
//! metadata.

use vstd::prelude::*;
use crate::text::{
    ascii_lowercase_chars, bounded_text, contains_chars, spec_ascii_lower, spec_bounded_text,
    spec_contains_seq,
};
use crate::vector::{NamedAmounts, MaterialVector, amt, amt16};
use crate::materials::{seq_sum, agrees_upto, in_prefix, lemma_agree_start, lemma_agree_step, lemma_agree_finish};
use crate::text::{push_decimal, spec_decimal, find_char, spec_first_index_of, str_eq, push_hex_fixed, spec_hex_fixed, bool_word, spec_bool_word};
use vstd::string::StringSliceAdditionalSpecFns;
use crate::arith::{lemma_common_divisor_divides_gcd, lemma_gcd_divides, spec_gcd};

verus! {

pub const IMPLEMENTS_SCHEMA_VERSION: u32 = 2;
pub const IMPLEMENT_RESOLVER_VERSION: u32 = 1;
pub const MAX_IMPLEMENT_INSTANCES: usize = 100_000;
pub const MAX_IMPLEMENT_AUDIT: usize = 4_096;
pub const MAX_IMPLEMENT_FILE_BYTES: u64 = 67_108_864;
pub const MAX_IMPLEMENT_DEFINITIONS: usize = 65_536;
pub const MAX_IMPLEMENT_ID_BYTES: usize = 96;
pub const MAX_IMPLEMENT_PROVENANCE_BYTES: usize = 192;
pub const MAX_IMPLEMENT_AUDIT_TEXT_BYTES: usize = 512;
pub const MAX_IMPLEMENT_RESONANCES: usize = 16;
pub const MAX_IMPLEMENT_COMPONENTS: usize = 16;
pub const MAX_IMPLEMENT_MATERIALS: usize = 64;
pub const MAX_IMPLEMENT_INSTANCE_BYTES: usize = 4_096;
pub const MAX_IMPLEMENT_PUBLIC_BYTES: usize = 1_024;
pub const MAX_IMPLEMENT_TRANSFER_OWNERS: usize = 8;
pub const MAX_COMPONENT_CAPACITY: u64 = 8_192;
pub const MAX_WAND_CAPACITY: u64 = 16_384;
pub const MIN_SAFE_TRANSFER: u64 = 1;
pub const MAX_SAFE_TRANSFER: u64 = 1_024;
pub const STRUCTURAL_SPARK_UNITS: u64 = 1;
pub const MAX_WAND_WEAR: u32 = 1_000;
pub const MAX_WAND_STRAIN: u32 = 10_000;
pub const MAX_CONDUCTOR_NETWORK: usize = 64;
pub const VESSEL_CAPACITY: u64 = 4_096;
pub const VESSEL_SAFE_TRANSFER: u64 = 256;
pub const BARK_CHARM_ARMOR_POINTS: u32 = 1;

/// Resonance weights keyed by resonance id.
pub type Resonance = NamedAmounts<u16>;

#[derive(Clone, Copy, Debug, Eq, PartialEq, Structural)]
pub enum FrameAction {
    /// Host chooses the obvious physical verb from authoritative mounts and
    /// held inventory. This is the ordinary right-click path.
    Contextual,
    ExchangeSelected,
    Assemble,
    BindCharm,
    Transfer,
    SafeDischarge,
    Disassemble,
    SwapFocus,
    Repair,
    Calibrate,
    Inspect,
}

pub struct FrameLayout {
    pub valid: bool,
    pub focus_mounts: u8,
    pub vessels: u8,
    pub conductor_endpoints: u8,
    pub containment: u16,
    pub network_size: u8,
    pub touches_unloaded: bool,
    pub problems: Vec<String>,
}

pub struct FrameResult {
    pub success: bool,
    pub revision: u64,
    pub cue: ImplementCue,
    pub message: String,
    pub preview: Option<ResolvedWand>,
    pub lines: Vec<String>,
}

#[derive(Clone, Copy, Debug, Eq, PartialEq, Structural)]
pub enum ImplementCue {
    Use,
    Transfer,
    Strain,
    Empty,
    Failure,
}

/// Phrases that mark a refusal as an empty or full implement rather than a
/// failure.
pub open spec fn empty_cue_phrases() -> Seq<Seq<char>> {
    seq![
        "dormant"@,
        "not enough"@,
        "no usable"@,
        "already full"@,
        "visibly full"@,
        "depleted"@,
        "no measurable"@,
    ]
}

/// The cue for a refusal message: `Empty` when its ASCII-lowercased text
/// names an empty or full implement, otherwise `Failure`.
pub open spec fn spec_error_cue(message: Seq<char>) -> ImplementCue {
    let lower = message.map_values(|c: char| spec_ascii_lower(c));
    if exists|i: int|
        0 <= i < empty_cue_phrases().len() && spec_contains_seq(
            lower,
            #[trigger] empty_cue_phrases()[i],
        ) {
        ImplementCue::Empty
    } else {
        ImplementCue::Failure
    }
}

pub fn error_cue(message: &str) -> (r: ImplementCue)
    ensures
        r == spec_error_cue(message@),
{
    let lower = ascii_lowercase_chars(message);
    let phrases = [
        "dormant",
        "not enough",
        "no usable",
        "already full",
        "visibly full",
        "depleted",
        "no measurable",
    ];
    let mut i: usize = 0;
    while i < 7
        invariant
            i <= 7,
            lower@ == message@.map_values(|c: char| spec_ascii_lower(c)),
            forall|j: int| 0 <= j < 7 ==> (#[trigger] phrases@[j])@ == empty_cue_phrases()[j],
            forall|j: int| 0 <= j < i ==> !spec_contains_seq(lower@, #[trigger] empty_cue_phrases()[j]),
        decreases 7 - i,
    {
        if contains_chars(&lower, phrases[i]) {
            return ImplementCue::Empty;
        }
        i = i + 1;
    }
    ImplementCue::Failure
}

#[derive(Clone, Copy, Debug, Eq, PartialEq, Structural)]
pub enum ComponentRole {
    Body,
    Reservoir,
    Focus,
    Binding,
}

pub open spec fn spec_role_label(role: ComponentRole) -> Seq<char> {
    match role {
        ComponentRole::Body => "body"@,
        ComponentRole::Reservoir => "reservoir"@,
        ComponentRole::Focus => "focus"@,
        ComponentRole::Binding => "binding"@,
    }
}

/// Position of a role in the fixed resolution order.
pub open spec fn role_index(role: ComponentRole) -> int {
    match role {
        ComponentRole::Body => 0,
        ComponentRole::Reservoir => 1,
        ComponentRole::Focus => 2,
        ComponentRole::Binding => 3,
    }
}

impl ComponentRole {
    /// Every role, in resolution order.
    pub fn all() -> (r: [ComponentRole; 4])
        ensures
            r@ == seq![ComponentRole::Body, ComponentRole::Reservoir, ComponentRole::Focus,
                ComponentRole::Binding],
    {
        [ComponentRole::Body, ComponentRole::Reservoir, ComponentRole::Focus, ComponentRole::Binding]
    }

    pub fn label(self) -> (r: &'static str)
        ensures
            r@ == spec_role_label(self),
    {
        match self {
            ComponentRole::Body => "body",
            ComponentRole::Reservoir => "reservoir",
            ComponentRole::Focus => "focus",
            ComponentRole::Binding => "binding",
        }
    }

    fn index(self) -> (r: usize)
        ensures
            r == role_index(self),
    {
        match self {
            ComponentRole::Body => 0,
            ComponentRole::Reservoir => 1,
            ComponentRole::Focus => 2,
            ComponentRole::Binding => 3,
        }
    }
}

/// A content-defined physical wand part. All values are integers so base and
/// mod content resolve identically on every host platform.
pub struct WandComponentDef {
    pub role: ComponentRole,
    pub capacity: u64,
    pub conductivity: u16,
    pub stability: u16,
    pub resonance: Resonance,
    pub repair_material: String,
    pub heat_sensitive: bool,
    pub saturation_instability: u16,
    pub containment: u16,
}

#[derive(Clone, Copy, Debug, Eq, PartialEq, Structural)]
pub enum CharmEffect {
    Quiet,
    Bark,
    Hunger,
}

pub open spec fn spec_charm_id(effect: CharmEffect) -> Seq<char> {
    match effect {
        CharmEffect::Quiet => "quiet"@,
        CharmEffect::Bark => "bark"@,
        CharmEffect::Hunger => "hunger"@,
    }
}

impl CharmEffect {
    pub fn id(self) -> (r: &'static str)
        ensures
            r@ == spec_charm_id(self),
    {
        match self {
            CharmEffect::Quiet => "quiet",
            CharmEffect::Bark => "bark",
            CharmEffect::Hunger => "hunger",
        }
    }
}

#[derive(Clone, Copy, Debug, Eq, PartialEq, Structural)]
pub struct CharmDef {
    pub effect: CharmEffect,
    pub charge_per_trigger: u64,
    pub capacity: u64,
    pub stability: u16,
    pub dross_per_transfer: u16,
}

/// Stability a charm declares when its content leaves it out.
pub fn default_charm_stability() -> (r: u16)
    ensures
        r == 800,
{
    800
}

/// Dross per transfer a charm declares when its content leaves it out.
pub fn default_charm_dross() -> (r: u16)
    ensures
        r == 25,
{
    25
}

#[derive(Clone, Copy, Debug, Eq, PartialEq, Structural)]
pub enum ImplementItemKind {
    Wand,
    ChargeVessel,
    Fragment,
}

#[derive(Clone, Copy, Debug, Eq, PartialEq, Structural)]
pub struct ImplementItemDef {
    pub kind: ImplementItemKind,
}

#[derive(Clone, Debug, Eq, PartialEq)]
pub struct WandParts {
    pub body: String,
    pub reservoir: String,
    pub focus: String,
    pub binding: String,
}

impl WandParts {
    /// The four part ids in role order.
    pub fn ids(&self) -> (r: [&str; 4])
        ensures
            r@.len() == 4,
            r@[0]@ == self.body@,
            r@[1]@ == self.reservoir@,
            r@[2]@ == self.focus@,
            r@[3]@ == self.binding@,
    {
        [self.body.as_str(), self.reservoir.as_str(), self.focus.as_str(), self.binding.as_str()]
    }
}

#[derive(Debug, PartialEq, Eq)]
pub struct ResolvedWand {
    pub resolver_version: u32,
    pub capacity: u64,
    pub safe_transfer: u64,
    pub stability: u16,
    pub dross_per_thousand: u16,
    pub resonance: Resonance,
    pub heat_sensitive: bool,
    pub saturation_instability: u16,
    pub containment: u16,
}

/// Errors of implement content, operations, and durable state.
#[derive(Debug)]
pub enum ImplementError {
    InvalidContent(String),
    InvalidOperation(String),
    Corrupt(String),
}

impl ImplementError {
    /// The human-readable message.
    pub fn message(&self) -> (r: &str)
        ensures
            r@ == self.spec_message(),
    {
        match self {
            ImplementError::InvalidContent(m) => m.as_str(),
            ImplementError::InvalidOperation(m) => m.as_str(),
            ImplementError::Corrupt(m) => m.as_str(),
        }
    }

    pub open spec fn spec_message(&self) -> Seq<char> {
        match self {
            ImplementError::InvalidContent(m) => m@,
            ImplementError::InvalidOperation(m) => m@,
            ImplementError::Corrupt(m) => m@,
        }
    }
}

/// Every resonance id is bounded text and every weight lies in `1..=max`.
pub open spec fn resonance_entries_ok(r: Resonance, max_weight: int) -> bool {
    forall|k: Seq<char>|
        #[trigger] r@.contains_key(k) ==> spec_bounded_text(k, MAX_IMPLEMENT_ID_BYTES) && 1
            <= r@[k] <= max_weight
}

/// The bounded-range part of a component's validity.
pub open spec fn spec_component_fields_ok(content_id: Seq<char>, d: WandComponentDef) -> bool {
    &&& spec_bounded_text(content_id, MAX_IMPLEMENT_ID_BYTES)
    &&& d.capacity <= MAX_COMPONENT_CAPACITY
    &&& 1 <= d.conductivity <= 1_000
    &&& d.stability <= 1_000
    &&& d.saturation_instability <= 1_000
    &&& d.containment <= 1_000
    &&& spec_bounded_text(d.repair_material@, MAX_IMPLEMENT_ID_BYTES)
    &&& d.resonance@.dom().len() != 0
    &&& d.resonance@.dom().len() <= MAX_IMPLEMENT_RESONANCES
    &&& resonance_entries_ok(d.resonance, 1_000)
}

pub open spec fn spec_component_valid(content_id: Seq<char>, d: WandComponentDef) -> bool {
    spec_component_fields_ok(content_id, d) && !(d.role == ComponentRole::Focus && d.capacity
        > 512)
}

spec fn resonance_prefix_ok(r: Resonance, i: int, max_weight: int) -> bool {
    forall|j: int| 0 <= j < i ==> spec_bounded_text(#[trigger] r.name_at_spec(j), MAX_IMPLEMENT_ID_BYTES)
        && 1 <= r.units_at_spec(j) <= max_weight
}

/// Checks every entry of a resonance table against `max_weight`.
fn resonance_ok(r: &Resonance, max_weight: u16) -> (ok: bool)
    ensures
        ok == resonance_entries_ok(*r, max_weight as int),
{
    let n = r.len();
    let mut i: usize = 0;
    while i < n
        invariant
            n == r.spec_len(),
            i <= n,
            r.consistent(),
            resonance_prefix_ok(*r, i as int, max_weight as int),
        decreases n - i,
    {
        let name = r.name_at(i);
        let w = r.units_at(i);
        if !bounded_text(name, MAX_IMPLEMENT_ID_BYTES) || w == 0 || w > max_weight {
            proof {
                r.lemma_consistent();
            }
            assert(r@.contains_key(r.name_at_spec(i as int)));
            return false;
        }
        assert(resonance_prefix_ok(*r, i + 1, max_weight as int)) by {
            assert forall|j: int| 0 <= j < i + 1 implies spec_bounded_text(#[trigger] r.name_at_spec(j), MAX_IMPLEMENT_ID_BYTES)
                && 1 <= r.units_at_spec(j) <= max_weight by {
                if j < i {
                } else {
                    assert(j == i);
                    assert(r.name_at_spec(j) == name@);
                    assert(r.units_at_spec(j) == w);
                }
            }
        }
        i = i + 1;
    }
    proof {
        r.lemma_consistent();
    }
    true
}

fn append_str(base: &str, suffix: &str) -> (r: String)
    ensures
        r@ == base@ + suffix@,
{
    let mut out = String::from_str(base);
    out.append(suffix);
    out
}

/// The refusal message for an invalid component.
pub open spec fn component_error_message(content_id: Seq<char>, d: WandComponentDef) -> Seq<char> {
    if !spec_component_fields_ok(content_id, d) {
        content_id + ": wand_component fields are absent or outside bounded ranges"@
    } else {
        content_id + ": a focus cannot smuggle in a reservoir-sized capacity"@
    }
}

/// Validates a wand component definition.
pub fn validate_component(content_id: &str, definition: &WandComponentDef) -> (r: Result<
    (),
    ImplementError,
>)
    ensures
        r is Ok <==> spec_component_valid(content_id@, *definition),
        r is Err ==> (r matches Err(ImplementError::InvalidContent(m)) && m@
            == component_error_message(content_id@, *definition)),
{
    let n = definition.resonance.len();
    if !bounded_text(content_id, MAX_IMPLEMENT_ID_BYTES) || definition.capacity
        > MAX_COMPONENT_CAPACITY || definition.conductivity == 0 || definition.conductivity > 1_000
        || definition.stability > 1_000 || definition.saturation_instability > 1_000
        || definition.containment > 1_000 || !bounded_text(
        definition.repair_material.as_str(),
        MAX_IMPLEMENT_ID_BYTES,
    ) || definition.resonance.is_empty() || n > MAX_IMPLEMENT_RESONANCES || !resonance_ok(
        &definition.resonance,
        1_000,
    ) {
        return Err(
            ImplementError::InvalidContent(
                append_str(content_id, ": wand_component fields are absent or outside bounded ranges"),
            ),
        );
    }
    if definition.role == ComponentRole::Focus && definition.capacity > 512 {
        return Err(
            ImplementError::InvalidContent(
                append_str(content_id, ": a focus cannot smuggle in a reservoir-sized capacity"),
            ),
        );
    }
    Ok(())
}

pub open spec fn spec_charm_numbers_ok(
    capacity: u64,
    charge_per_trigger: u64,
    stability: u16,
    dross_per_transfer: u16,
) -> bool {
    &&& 1 <= capacity <= MAX_WAND_CAPACITY
    &&& 1 <= charge_per_trigger <= capacity
    &&& stability <= 1_000
    &&& dross_per_transfer <= 1_000
}

fn validate_charm_numbers(
    capacity: u64,
    charge_per_trigger: u64,
    stability: u16,
    dross_per_transfer: u16,
) -> (r: Result<(), ImplementError>)
    ensures
        r is Ok <==> spec_charm_numbers_ok(capacity, charge_per_trigger, stability, dross_per_transfer),
        r is Err ==> (r matches Err(ImplementError::InvalidContent(m))
            && m@ == "charm values are outside bounded ranges"@),
{
    if capacity == 0 || capacity > MAX_WAND_CAPACITY || charge_per_trigger == 0
        || charge_per_trigger > capacity || stability > 1_000 || dross_per_transfer > 1_000 {
        return Err(
            ImplementError::InvalidContent(String::from_str("charm values are outside bounded ranges")),
        );
    }
    Ok(())
}

pub open spec fn spec_charm_valid(content_id: Seq<char>, d: CharmDef) -> bool {
    spec_bounded_text(content_id, MAX_IMPLEMENT_ID_BYTES) && spec_charm_numbers_ok(
        d.capacity,
        d.charge_per_trigger,
        d.stability,
        d.dross_per_transfer,
    )
}

/// Validates a charm definition.
pub fn validate_charm(content_id: &str, definition: &CharmDef) -> (r: Result<(), ImplementError>)
    ensures
        r is Ok <==> spec_charm_valid(content_id@, *definition),
        !spec_bounded_text(content_id@, MAX_IMPLEMENT_ID_BYTES) ==> (r matches Err(
            ImplementError::InvalidContent(m),
        ) && m@ == content_id@ + ": charm identity exceeds its metadata budget"@),
        spec_bounded_text(content_id@, MAX_IMPLEMENT_ID_BYTES) && !spec_charm_valid(
            content_id@,
            *definition,
        ) ==> (r matches Err(ImplementError::InvalidContent(m)) && m@ == content_id@
            + ": charm requires bounded capacity, debit, stability, and dross"@),
{
    if !bounded_text(content_id, MAX_IMPLEMENT_ID_BYTES) {
        return Err(
            ImplementError::InvalidContent(
                append_str(content_id, ": charm identity exceeds its metadata budget"),
            ),
        );
    }
    match validate_charm_numbers(
        definition.capacity,
        definition.charge_per_trigger,
        definition.stability,
        definition.dross_per_transfer,
    ) {
        Ok(()) => Ok(()),
        Err(_) => Err(
            ImplementError::InvalidContent(
                append_str(content_id, ": charm requires bounded capacity, debit, stability, and dross"),
            ),
        ),
    }
}

pub fn gcd(a: u16, b: u16) -> (r: u16)
    ensures
        r == spec_gcd(a as nat, b as nat),
{
    let mut x = a;
    let mut y = b;
    while y != 0
        invariant
            spec_gcd(x as nat, y as nat) == spec_gcd(a as nat, b as nat),
        decreases y,
    {
        let t = x % y;
        x = y;
        y = t;
    }
    x
}

/// Usable Current of an implement holding `total`: the structural spark
/// of one unit never counts.
pub open spec fn spec_usable_charge(total: u64) -> u64 {
    if total >= STRUCTURAL_SPARK_UNITS {
        (total - STRUCTURAL_SPARK_UNITS) as u64
    } else {
        0
    }
}

pub fn usable_charge(total: u64) -> (r: u64)
    ensures
        r == spec_usable_charge(total),
{
    total.saturating_sub(STRUCTURAL_SPARK_UNITS)
}

/// Qualitative band of a usable charge against a capacity: 0 empty,
/// 1 under a quarter, 2 under three quarters, 3 otherwise.
pub open spec fn spec_current_band(usable: u64, capacity: u64) -> u8 {
    let cap = if capacity == 0 { 1 } else { capacity as int };
    if usable == 0 {
        0
    } else if sat_mul(usable as int, 4) < cap {
        1
    } else if sat_mul(usable as int, 4) < sat_mul(cap, 3) {
        2
    } else {
        3
    }
}

pub open spec fn sat_mul(a: int, b: int) -> int {
    crate::vector::sat_mul(a, b)
}

pub open spec fn spec_charge_band(total: u64, capacity: u64) -> u8 {
    spec_current_band(spec_usable_charge(total), capacity)
}

pub fn charge_band(total: u64, capacity: u64) -> (r: u8)
    ensures
        r == spec_charge_band(total, capacity),
{
    let usable = usable_charge(total);
    let cap = if capacity == 0 {
        1
    } else {
        capacity
    };
    let quarter_test = crate::vector::saturating_mul(usable, 4);
    if usable == 0 {
        0
    } else if quarter_test < cap {
        1
    } else if quarter_test < crate::vector::saturating_mul(cap, 3) {
        2
    } else {
        3
    }
}

pub open spec fn spec_band_word(band: u8) -> Seq<char> {
    if band == 0 {
        "dormant"@
    } else if band == 1 {
        "faint"@
    } else if band == 2 {
        "steady"@
    } else {
        "saturated"@
    }
}

/// The qualitative word for a usable Current against a capacity.
pub fn qualitative_current(usable: u64, capacity: u64) -> (r: &'static str)
    ensures
        r@ == spec_band_word(spec_current_band(usable, capacity)),
{
    let cap = if capacity == 0 {
        1
    } else {
        capacity
    };
    let quarter_test = crate::vector::saturating_mul(usable, 4);
    if usable == 0 {
        "dormant"
    } else if quarter_test < cap {
        "faint"
    } else if quarter_test < crate::vector::saturating_mul(cap, 3) {
        "steady"
    } else {
        "saturated"
    }
}

pub fn qualitative_charge(total: u64, capacity: u64) -> (r: &'static str)
    ensures
        r@ == spec_band_word(spec_charge_band(total, capacity)),
{
    qualitative_current(usable_charge(total), capacity)
}

/// The structural spark alone is no usable charge and reads as dormant.
pub proof fn lemma_structural_spark_is_dormant(capacity: u64)
    ensures
        spec_usable_charge(STRUCTURAL_SPARK_UNITS) == 0,
        spec_charge_band(STRUCTURAL_SPARK_UNITS, capacity) == 0,
        spec_band_word(spec_charge_band(STRUCTURAL_SPARK_UNITS, capacity)) == "dormant"@,
{
}

pub open spec fn min_int(a: int, b: int) -> int {
    if a < b { a } else { b }
}

pub open spec fn clamp_int(x: int, lo: int, hi: int) -> int {
    if x < lo { lo } else if x > hi { hi } else { x }
}

/// Capacity: reservoir plus half the body plus a quarter of the binding;
/// the focus contributes no hidden tank.
pub open spec fn spec_wand_capacity(b: WandComponentDef, r: WandComponentDef, bi: WandComponentDef) -> int {
    clamp_int(
        crate::vector::sat_add(crate::vector::sat_add(r.capacity as int, (b.capacity / 2) as int), (bi.capacity / 4) as int),
        1,
        MAX_WAND_CAPACITY as int,
    )
}

/// Safe transfer: harmonic mean of the body, reservoir and binding
/// conductivities, capped by the focus, in quarters rounded up.
pub open spec fn spec_wand_safe_transfer(
    b: WandComponentDef,
    r: WandComponentDef,
    f: WandComponentDef,
    bi: WandComponentDef,
) -> int {
    let reciprocal_sum = 1_000_000int / (b.conductivity as int) + 1_000_000int / (
    r.conductivity as int) + 1_000_000int / (bi.conductivity as int);
    let harmonic = 3_000_000int / (if reciprocal_sum < 1 { 1int } else { reciprocal_sum });
    let capped = min_int(harmonic, f.conductivity as int);
    clamp_int((capped + 3) / 4, MIN_SAFE_TRANSFER as int, MAX_SAFE_TRANSFER as int)
}

/// Saturation instability: sum over all four parts, capped at 1000.
pub open spec fn spec_wand_saturation(
    b: WandComponentDef,
    r: WandComponentDef,
    f: WandComponentDef,
    bi: WandComponentDef,
) -> int {
    min_int(
        b.saturation_instability + r.saturation_instability + f.saturation_instability
            + bi.saturation_instability,
        1_000,
    )
}

/// Stability: body weighs 4, binding 3, reservoir 2, focus 1, less a fifth
/// of the saturation instability, within `1..=1000`.
pub open spec fn spec_wand_stability(
    b: WandComponentDef,
    r: WandComponentDef,
    f: WandComponentDef,
    bi: WandComponentDef,
) -> int {
    let weighted = (4 * b.stability + 3 * bi.stability + 2 * r.stability + f.stability) / 10;
    let reduced = weighted - spec_wand_saturation(b, r, f, bi) / 5;
    clamp_int(if reduced < 0 { 0 } else { reduced }, 1, 1_000)
}

/// Dross per thousand: a quarter of the stability's complement plus a tenth
/// of the saturation instability, within `1..=500`; never a free path.
pub open spec fn spec_wand_dross(
    b: WandComponentDef,
    r: WandComponentDef,
    f: WandComponentDef,
    bi: WandComponentDef,
) -> int {
    clamp_int(
        (1_000 - spec_wand_stability(b, r, f, bi)) / 4 + spec_wand_saturation(b, r, f, bi) / 10,
        1,
        500,
    )
}

/// Containment: the mean of the four parts rounded up, capped at 1000.
pub open spec fn spec_wand_containment(
    b: WandComponentDef,
    r: WandComponentDef,
    f: WandComponentDef,
    bi: WandComponentDef,
) -> int {
    min_int((b.containment + r.containment + f.containment + bi.containment + 3) / 4, 1_000)
}

/// `acc` after adding `weight` times every resonance of `def`, each total
/// capped at `u16::MAX`.
pub open spec fn spec_accumulate(acc: Map<Seq<char>, u16>, def: Map<Seq<char>, u16>, weight: int) -> Map<
    Seq<char>,
    u16,
> {
    Map::new(
        |k: Seq<char>| acc.contains_key(k) || def.contains_key(k),
        |k: Seq<char>|
            min_int(
                crate::vector::amt16(acc, k) + weight * crate::vector::amt16(def, k),
                u16::MAX as int,
            ) as u16,
    )
}

/// Role-weighted resonance before reduction: focus 4, body 2, others 1.
pub open spec fn spec_raw_resonance(
    b: WandComponentDef,
    r: WandComponentDef,
    f: WandComponentDef,
    bi: WandComponentDef,
) -> Map<Seq<char>, u16> {
    spec_accumulate(
        spec_accumulate(
            spec_accumulate(spec_accumulate(Map::empty(), b.resonance@, 2), r.resonance@, 1),
            f.resonance@,
            4,
        ),
        bi.resonance@,
        1,
    )
}

/// `d` is the greatest common divisor of every amount in `m`.
pub open spec fn is_gcd_of(m: Map<Seq<char>, u16>, d: int) -> bool {
    &&& d > 0
    &&& forall|k: Seq<char>| #[trigger] m.contains_key(k) ==> (m[k] as int) % d == 0
    &&& forall|e: int|
        e > 0 && (forall|k: Seq<char>| #[trigger] m.contains_key(k) ==> (m[k] as int) % e == 0)
            ==> #[trigger] (d % e) == 0
}

/// `m` with every amount divided by `d`.
pub open spec fn spec_divided(m: Map<Seq<char>, u16>, d: int) -> Map<Seq<char>, u16> {
    Map::new(|k: Seq<char>| m.contains_key(k), |k: Seq<char>| ((m[k] as int) / d) as u16)
}

/// The resolution of four parts, one per role.
pub open spec fn resolved_matches(
    w: ResolvedWand,
    b: WandComponentDef,
    r: WandComponentDef,
    f: WandComponentDef,
    bi: WandComponentDef,
) -> bool {
    &&& w.resolver_version == IMPLEMENT_RESOLVER_VERSION
    &&& w.capacity == spec_wand_capacity(b, r, bi)
    &&& w.safe_transfer == spec_wand_safe_transfer(b, r, f, bi)
    &&& w.stability == spec_wand_stability(b, r, f, bi)
    &&& w.dross_per_thousand == spec_wand_dross(b, r, f, bi)
    &&& w.saturation_instability == spec_wand_saturation(b, r, f, bi)
    &&& w.containment == spec_wand_containment(b, r, f, bi)
    &&& w.heat_sensitive == (b.heat_sensitive || r.heat_sensitive || f.heat_sensitive
        || bi.heat_sensitive)
    &&& exists|d: int|
        is_gcd_of(spec_raw_resonance(b, r, f, bi), d) && w.resonance@ == spec_divided(
            spec_raw_resonance(b, r, f, bi),
            d,
        )
}

/// Index of the part holding `role`, if any.
pub open spec fn role_position(parts: Seq<(String, WandComponentDef)>, role: ComponentRole) -> int {
    choose|i: int| 0 <= i < parts.len() && parts[i].1.role == role
}

/// The first part that is invalid or repeats an earlier part's role.
pub open spec fn is_first_problem(parts: Seq<(String, WandComponentDef)>, i: int) -> bool {
    &&& 0 <= i < parts.len()
    &&& (!spec_component_valid(parts[i].0@, parts[i].1) || exists|j: int|
        0 <= j < i && parts[j].1.role == parts[i].1.role)
    &&& forall|j: int|
        0 <= j < i ==> spec_component_valid(#[trigger] parts[j].0@, parts[j].1) && forall|l: int|
            0 <= l < j ==> parts[l].1.role != parts[j].1.role
}

pub open spec fn parts_ok(parts: Seq<(String, WandComponentDef)>) -> bool {
    &&& forall|i: int| 0 <= i < parts.len() ==> spec_component_valid(#[trigger] parts[i].0@, parts[i].1)
    &&& forall|i: int, j: int| 0 <= i < j < parts.len() ==> parts[i].1.role != parts[j].1.role
}

/// Add `weight` times every resonance of `def` into `acc`, capping each
/// total at `u16::MAX`.
fn accumulate(acc: &mut Resonance, def: &Resonance, weight: u16)
    requires
        1 <= weight <= 4,
    ensures
        final(acc)@ == spec_accumulate(old(acc)@, def@, weight as int),
{
    let ghost orig = acc@;
    let n = def.len();
    proof {
        def.lemma_consistent();
    }
    let mut i: usize = 0;
    while i < n
        invariant
            n == def.spec_len(),
            i <= n,
            1 <= weight <= 4,
            def.consistent(),
            forall|k: Seq<char>|
                #[trigger] acc@.contains_key(k) == (orig.contains_key(k) || exists|j: int|
                    0 <= j < i && def.name_at_spec(j) == k),
            forall|k: Seq<char>|
                #[trigger] acc@.contains_key(k) ==> acc@[k] == (if exists|j: int|
                    0 <= j < i && def.name_at_spec(j) == k {
                    spec_accumulate(orig, def@, weight as int)[k]
                } else {
                    orig[k]
                }),
        decreases n - i,
    {
        proof {
            def.lemma_consistent();
        }
        let name = def.name_at(i);
        let amount = def.units_at(i);
        let current: u16 = match acc.get(name) {
            Some(v) => v,
            None => 0,
        };
        proof {
            assert((amount as int) * (weight as int) <= 262140) by (nonlinear_arith)
                requires
                    amount <= 65535,
                    weight <= 4,
            ;
        }
        let total: u32 = (current as u32) + (amount as u32) * (weight as u32);
        let next: u16 = if total > 65535 {
            65535
        } else {
            total as u16
        };
        let ghost prev = acc@;
        proof {
            assert(def@.contains_key(def.name_at_spec(i as int)));
            assert(def@[name@] == amount);
            assert(!exists|j: int| 0 <= j < i && def.name_at_spec(j) == name@);
            assert(crate::vector::amt16(prev, name@) == crate::vector::amt16(orig, name@));
            assert(current == crate::vector::amt16(orig, name@));
            assert(crate::vector::amt16(def@, name@) == amount);
            assert((amount as u32) * (weight as u32) == (weight as int) * (amount as int)) by (nonlinear_arith)
                requires
                    (amount as int) * (weight as int) <= 262140,
            ;
            assert(next == spec_accumulate(orig, def@, weight as int)[name@]);
        }
        acc.insert(name, next);
        proof {
            assert forall|k: Seq<char>| #[trigger] acc@.contains_key(k) == (orig.contains_key(k)
                || exists|j: int| 0 <= j < i + 1 && def.name_at_spec(j) == k) by {
                if k == name@ {
                    assert(def.name_at_spec(i as int) == k);
                } else if exists|j: int| 0 <= j < i + 1 && def.name_at_spec(j) == k {
                    let j = choose|j: int| 0 <= j < i + 1 && def.name_at_spec(j) == k;
                    assert(j != i);
                }
            }
            assert forall|k: Seq<char>| #[trigger] acc@.contains_key(k) implies acc@[k] == (if exists|j: int|
                0 <= j < i + 1 && def.name_at_spec(j) == k {
                spec_accumulate(orig, def@, weight as int)[k]
            } else {
                orig[k]
            }) by {
                if k == name@ {
                    assert(def.name_at_spec(i as int) == k);
                } else {
                    let e1 = exists|j: int| 0 <= j < i + 1 && def.name_at_spec(j) == k;
                    let e0 = exists|j: int| 0 <= j < i && def.name_at_spec(j) == k;
                    if e1 {
                        let j = choose|j: int| 0 <= j < i + 1 && def.name_at_spec(j) == k;
                        assert(j != i);
                        assert(e0);
                    }
                    if e0 {
                        let j = choose|j: int| 0 <= j < i && def.name_at_spec(j) == k;
                        assert(e1);
                    }
                }
            }
        }
        i = i + 1;
    }
    proof {
        let target = spec_accumulate(orig, def@, weight as int);
        assert forall|k: Seq<char>| #[trigger] acc@.contains_key(k) == target.contains_key(k) by {
            if def@.contains_key(k) {
                let j = choose|j: int| 0 <= j < def.spec_len() && def.name_at_spec(j) == k;
            }
            if exists|j: int| 0 <= j < n && def.name_at_spec(j) == k {
                let j = choose|j: int| 0 <= j < n && def.name_at_spec(j) == k;
                assert(def@.contains_key(def.name_at_spec(j)));
            }
        }
        assert forall|k: Seq<char>| acc@.contains_key(k) implies acc@[k] == target[k] by {
            if !(exists|j: int| 0 <= j < n && def.name_at_spec(j) == k) {
                assert(!def@.contains_key(k));
                assert(orig.contains_key(k));
            }
        }
        assert(acc@ =~= target);
    }
}

/// Divide every amount by the greatest common divisor of all amounts, all
/// of which are positive.
fn reduce_by_gcd(res: &mut Resonance) -> (d: Ghost<int>)
    requires
        old(res)@.dom().len() > 0,
        forall|k: Seq<char>| #[trigger] old(res)@.contains_key(k) ==> old(res)@[k] > 0,
    ensures
        is_gcd_of(old(res)@, d@),
        final(res)@ == spec_divided(old(res)@, d@),
{
    let ghost orig = res@;
    let n = res.len();
    proof {
        res.lemma_consistent();
    }
    let mut divisor: u16 = res.units_at(0);
    proof {
        assert(orig.contains_key(res.name_at_spec(0)));
        vstd::arithmetic::div_mod::lemma_mod_self_0(divisor as int);
        assert forall|e: int| e > 0 && (forall|j: int| 0 <= j < 1 ==> (res.units_at_spec(j) as int) % e == 0)
            implies #[trigger] ((divisor as int) % e) == 0 by {
            assert((res.units_at_spec(0) as int) % e == 0);
        }
    }
    let mut i: usize = 1;
    while i < n
        invariant
            n == res.spec_len(),
            1 <= i <= n,
            res@ == orig,
            res.consistent(),
            forall|k: Seq<char>| #[trigger] orig.contains_key(k) ==> orig[k] > 0,
            divisor > 0,
            forall|j: int| 0 <= j < i ==> (#[trigger] res.units_at_spec(j) as int) % (divisor as int) == 0,
            forall|e: int|
                e > 0 && (forall|j: int| 0 <= j < i ==> (#[trigger] res.units_at_spec(j) as int) % e == 0)
                    ==> #[trigger] ((divisor as int) % e) == 0,
        decreases n - i,
    {
        proof {
            res.lemma_consistent();
        }
        let v = res.units_at(i);
        let ghost old_divisor = divisor as nat;
        proof {
            lemma_gcd_divides(divisor as nat, v as nat);
        }
        divisor = gcd(divisor, v);
        proof {
            let g = divisor as int;
            assert forall|j: int| 0 <= j < i + 1 implies (#[trigger] res.units_at_spec(j) as int) % g == 0 by {
                if j < i {
                    let u = res.units_at_spec(j) as int;
                    let od = old_divisor as int;
                    vstd::arithmetic::div_mod::lemma_fundamental_div_mod(u, od);
                    vstd::arithmetic::div_mod::lemma_fundamental_div_mod(od, g);
                    let a = u / od;
                    let b = od / g;
                    assert(u == g * (b * a)) by (nonlinear_arith)
                        requires
                            u == od * a + 0,
                            od == g * b + 0,
                    ;
                    vstd::arithmetic::div_mod::lemma_mod_multiples_basic(b * a, g);
                    assert(g * (b * a) == (b * a) * g) by (nonlinear_arith);
                }
            }
            assert forall|e: int|
                e > 0 && (forall|j: int| 0 <= j < i + 1 ==> (#[trigger] res.units_at_spec(j) as int) % e == 0)
                    implies #[trigger] (g % e) == 0 by {
                assert(forall|j: int| 0 <= j < i ==> (#[trigger] res.units_at_spec(j) as int) % e == 0);
                assert((old_divisor as int) % e == 0);
                assert((res.units_at_spec(i as int) as int) % e == 0);
                lemma_common_divisor_divides_gcd(old_divisor, v as nat, e as nat);
            }
        }
        i = i + 1;
    }
    let ghost d = divisor as int;
    proof {
        assert(is_gcd_of(orig, d)) by {
            assert forall|k: Seq<char>| #[trigger] orig.contains_key(k) implies (orig[k] as int) % d == 0 by {
                let j = choose|j: int| 0 <= j < res.spec_len() && res.name_at_spec(j) == k;
            }
            assert forall|e: int|
                e > 0 && (forall|k: Seq<char>| #[trigger] orig.contains_key(k) ==> (orig[k] as int) % e == 0)
                    implies #[trigger] (d % e) == 0 by {
                assert forall|j: int| 0 <= j < n implies (#[trigger] res.units_at_spec(j) as int) % e == 0 by {
                    assert(orig.contains_key(res.name_at_spec(j)));
                }
            }
        }
    }
    let ghost start = *res;
    proof {
        res.lemma_consistent();
    }
    let mut t: usize = 0;
    while t < n
        invariant
            n == res.spec_len(),
            n == start.spec_len(),
            t <= n,
            divisor > 0,
            d == divisor as int,
            is_gcd_of(orig, d),
            start@ == orig,
            start.consistent(),
            res.consistent(),
            forall|j: int| 0 <= j < n ==> #[trigger] res.name_at_spec(j) == start.name_at_spec(j),
            forall|j: int| 0 <= j < n ==> #[trigger] res.units_at_spec(j) == if j < t {
                ((start.units_at_spec(j) as int) / d) as u16
            } else {
                start.units_at_spec(j)
            },
        decreases n - t,
    {
        proof {
            res.lemma_consistent();
            start.lemma_consistent();
        }
        let v = res.units_at(t);
        let ghost before = *res;
        res.set_units_at(t, v / divisor);
        proof {
            res.lemma_consistent();
            assert forall|j: int| 0 <= j < n implies #[trigger] res.units_at_spec(j) == if j < t + 1 {
                ((start.units_at_spec(j) as int) / d) as u16
            } else {
                start.units_at_spec(j)
            } by {
                if j == t {
                } else {
                    assert(res.units_at_spec(j) == before.units_at_spec(j));
                }
            }
        }
        t = t + 1;
    }
    proof {
        res.lemma_consistent();
        start.lemma_consistent();
        let target = spec_divided(orig, d);
        assert forall|k: Seq<char>| #[trigger] res@.contains_key(k) == target.contains_key(k) by {
            if res@.contains_key(k) {
                let j = choose|j: int| 0 <= j < n && res.name_at_spec(j) == k;
                assert(start@.contains_key(start.name_at_spec(j)));
            }
            if target.contains_key(k) {
                let j = choose|j: int| 0 <= j < n && start.name_at_spec(j) == k;
                assert(res@.contains_key(res.name_at_spec(j)));
            }
        }
        assert forall|k: Seq<char>| res@.contains_key(k) implies res@[k] == target[k] by {
            let j = choose|j: int| 0 <= j < n && res.name_at_spec(j) == k;
            assert(start@.contains_key(start.name_at_spec(j)));
        }
        assert(res@ =~= target);
    }
    Ghost(d)
}

fn clamp_u64(x: u64, lo: u64, hi: u64) -> (r: u64)
    requires
        lo <= hi,
    ensures
        r == clamp_int(x as int, lo as int, hi as int),
{
    if x < lo {
        lo
    } else if x > hi {
        hi
    } else {
        x
    }
}

fn resolve_stats(
    b: &WandComponentDef,
    r: &WandComponentDef,
    f: &WandComponentDef,
    bi: &WandComponentDef,
) -> (out: (u64, u64, u16, u16, u16, u16, bool))
    requires
        b.conductivity >= 1,
        r.conductivity >= 1,
        f.conductivity >= 1,
        bi.conductivity >= 1,
        b.stability <= 1_000,
        r.stability <= 1_000,
        f.stability <= 1_000,
        bi.stability <= 1_000,
    ensures
        out.0 == spec_wand_capacity(*b, *r, *bi),
        out.1 == spec_wand_safe_transfer(*b, *r, *f, *bi),
        out.2 == spec_wand_stability(*b, *r, *f, *bi),
        out.3 == spec_wand_dross(*b, *r, *f, *bi),
        out.4 == spec_wand_saturation(*b, *r, *f, *bi),
        out.5 == spec_wand_containment(*b, *r, *f, *bi),
        out.6 == (b.heat_sensitive || r.heat_sensitive || f.heat_sensitive || bi.heat_sensitive),
{
    let capacity = clamp_u64(
        r.capacity.saturating_add(b.capacity / 2).saturating_add(bi.capacity / 4),
        1,
        MAX_WAND_CAPACITY,
    );
    let reciprocal_sum = 1_000_000 / (b.conductivity as u64) + 1_000_000 / (r.conductivity as u64)
        + 1_000_000 / (bi.conductivity as u64);
    let harmonic = 3_000_000 / (if reciprocal_sum < 1 {
        1
    } else {
        reciprocal_sum
    });
    let capped = if harmonic < (f.conductivity as u64) {
        harmonic
    } else {
        f.conductivity as u64
    };
    let safe_transfer = clamp_u64((capped + 3) / 4, MIN_SAFE_TRANSFER, MAX_SAFE_TRANSFER);
    let weighted = ((b.stability as u64) * 4 + (bi.stability as u64) * 3 + (r.stability as u64) * 2
        + (f.stability as u64)) / 10;
    let sat_sum = b.saturation_instability.saturating_add(r.saturation_instability).saturating_add(
        f.saturation_instability,
    ).saturating_add(bi.saturation_instability);
    let saturation: u16 = if sat_sum < 1_000 {
        sat_sum
    } else {
        1_000
    };
    let reduced = weighted.saturating_sub((saturation / 5) as u64);
    let stability = clamp_u64(reduced, 1, 1_000) as u16;
    let dross = clamp_u64(
        ((1_000u16 - stability) / 4).saturating_add(saturation / 10) as u64,
        1,
        500,
    ) as u16;
    let containment_sum: u32 = (b.containment as u32) + (r.containment as u32) + (
    f.containment as u32) + (bi.containment as u32);
    let containment_ceil = (containment_sum + 3) / 4;
    let containment: u16 = if containment_ceil < 1_000 {
        containment_ceil as u16
    } else {
        1_000
    };
    let heat = b.heat_sensitive || r.heat_sensitive || f.heat_sensitive || bi.heat_sensitive;
    (capacity, safe_transfer, stability, dross, saturation, containment, heat)
}

/// Resolve one part of each physical role into a wand. The formula is
/// compact integer arithmetic:
///
/// - capacity = reservoir + half body + quarter binding (focus contributes
///   no hidden tank), clamped to 1..MAX_WAND_CAPACITY;
/// - throughput = harmonic mean of body/reservoir/binding conductivity, then
///   capped by focus conductivity;
/// - stability weights body 4, binding 3, reservoir 2, focus 1;
/// - transfer dross is the complement of stability plus saturation penalty,
///   never a zero-cost path;
/// - resonance is the role-weighted sum (focus 4, body 2, others 1), reduced
///   by the gcd so equivalent declarations compare identically.
pub fn resolve_wand(parts: &[(String, WandComponentDef); 4]) -> (r: Result<
    (WandParts, ResolvedWand),
    ImplementError,
>)
    ensures
        r is Ok <==> parts_ok(parts@),
        parts_ok(parts@) ==> (r matches Ok((wp, w)) && resolves_to(parts@, wp, w)),
        !parts_ok(parts@) ==> exists|i: int|
            #![trigger parts@[i]]
            is_first_problem(parts@, i) && if !spec_component_valid(parts@[i].0@, parts@[i].1) {
                r matches Err(ImplementError::InvalidContent(m)) && m@ == component_error_message(
                    parts@[i].0@,
                    parts@[i].1,
                )
            } else {
                r matches Err(ImplementError::InvalidOperation(m)) && m@
                    == "wand assembly contains two "@ + spec_role_label(parts@[i].1.role)
                    + " components"@
            },
{
    let mut by_role: [usize; 4] = [4, 4, 4, 4];
    let mut i: usize = 0;
    while i < 4
        invariant
            i <= 4,
            parts@.len() == 4,
            forall|j: int| 0 <= j < i ==> spec_component_valid(#[trigger] parts@[j].0@, parts@[j].1),
            forall|j: int, l: int| 0 <= l < j < i ==> parts@[l].1.role != parts@[j].1.role,
            forall|q: int| 0 <= q < 4 ==> (#[trigger] by_role@[q] < 4 <==> exists|j: int|
                0 <= j < i && role_index(parts@[j].1.role) == q),
            forall|q: int| 0 <= q < 4 && #[trigger] by_role@[q] < 4 ==> by_role@[q] < i
                && role_index(parts@[by_role@[q] as int].1.role) == q,
        decreases 4 - i,
    {
        match validate_component(parts[i].0.as_str(), &parts[i].1) {
            Ok(()) => {},
            Err(e) => {
                proof {
                    assert(is_first_problem(parts@, i as int));
                }
                return Err(e);
            },
        }
        let idx = parts[i].1.role.index();
        if by_role[idx] < 4 {
            let mut message = String::from_str("wand assembly contains two ");
            message.append(parts[i].1.role.label());
            message.append(" components");
            proof {
                let j = choose|j: int| 0 <= j < i && role_index(parts@[j].1.role) == idx;
                assert(parts@[j].1.role == parts@[i as int].1.role);
                assert(is_first_problem(parts@, i as int));
                assert(!parts_ok(parts@));
            }
            return Err(ImplementError::InvalidOperation(message));
        }
        by_role[idx] = i;
        proof {
            assert forall|q: int| 0 <= q < 4 implies (#[trigger] by_role@[q] < 4 <==> exists|j: int|
                0 <= j < i + 1 && role_index(parts@[j].1.role) == q) by {
                if q == idx {
                    assert(role_index(parts@[i as int].1.role) == q);
                } else if exists|j: int| 0 <= j < i + 1 && role_index(parts@[j].1.role) == q {
                    let j = choose|j: int| 0 <= j < i + 1 && role_index(parts@[j].1.role) == q;
                    assert(j != i);
                }
            }
        }
        i = i + 1;
    }
    proof {
        assert forall|q: int| 0 <= q < 4 implies #[trigger] by_role@[q] < 4 by {
            let r0 = role_index(parts@[0].1.role);
            let r1 = role_index(parts@[1].1.role);
            let r2 = role_index(parts@[2].1.role);
            let r3 = role_index(parts@[3].1.role);
            assert(r0 != r1 && r0 != r2 && r0 != r3 && r1 != r2 && r1 != r3 && r2 != r3);
            if r0 == q {
                assert(role_index(parts@[0].1.role) == q);
            } else if r1 == q {
                assert(role_index(parts@[1].1.role) == q);
            } else if r2 == q {
                assert(role_index(parts@[2].1.role) == q);
            } else {
                assert(r3 == q);
                assert(role_index(parts@[3].1.role) == q);
            }
        }
        assert(parts_ok(parts@));
    }
    let bi_b = by_role[0];
    let bi_r = by_role[1];
    let bi_f = by_role[2];
    let bi_bi = by_role[3];
    proof {
        assert(by_role@[0] < 4);
        assert(by_role@[1] < 4);
        assert(by_role@[2] < 4);
        assert(by_role@[3] < 4);
        assert(role_position(parts@, ComponentRole::Body) == bi_b) by {
            let c = role_position(parts@, ComponentRole::Body);
            assert(parts@[bi_b as int].1.role == ComponentRole::Body);
        }
        assert(role_position(parts@, ComponentRole::Reservoir) == bi_r) by {
            assert(parts@[bi_r as int].1.role == ComponentRole::Reservoir);
        }
        assert(role_position(parts@, ComponentRole::Focus) == bi_f) by {
            assert(parts@[bi_f as int].1.role == ComponentRole::Focus);
        }
        assert(role_position(parts@, ComponentRole::Binding) == bi_bi) by {
            assert(parts@[bi_bi as int].1.role == ComponentRole::Binding);
        }
    }
    let body = &parts[bi_b].1;
    let reservoir = &parts[bi_r].1;
    let focus = &parts[bi_f].1;
    let binding = &parts[bi_bi].1;
    proof {
        assert(spec_component_valid(parts@[bi_b as int].0@, parts@[bi_b as int].1));
        assert(spec_component_valid(parts@[bi_r as int].0@, parts@[bi_r as int].1));
        assert(spec_component_valid(parts@[bi_f as int].0@, parts@[bi_f as int].1));
        assert(spec_component_valid(parts@[bi_bi as int].0@, parts@[bi_bi as int].1));
    }
    let stats = resolve_stats(body, reservoir, focus, binding);
    let mut resonance: Resonance = NamedAmounts::new();
    accumulate(&mut resonance, &body.resonance, 2);
    accumulate(&mut resonance, &reservoir.resonance, 1);
    accumulate(&mut resonance, &focus.resonance, 4);
    accumulate(&mut resonance, &binding.resonance, 1);
    let ghost raw = resonance@;
    let body_len = body.resonance.len();
    let total_len = resonance.len();
    proof {
        assert(raw == spec_raw_resonance(*body, *reservoir, *focus, *binding));
        lemma_raw_positive(*body, *reservoir, *focus, *binding);
        body.resonance.lemma_consistent();
        resonance.lemma_consistent();
        let k0 = body.resonance.name_at_spec(0);
        assert(body.resonance@.contains_key(k0));
        assert(raw.contains_key(k0));
        assert(raw.dom().contains(k0));
        if raw.dom().len() == 0 {
            vstd::set_lib::lemma_set_empty_equivalency_len(raw.dom());
            assert(raw.dom() == Set::<Seq<char>>::empty());
            assert(false);
        }
    }
    let d = reduce_by_gcd(&mut resonance);
    let wand_parts = WandParts {
        body: parts[bi_b].0.clone(),
        reservoir: parts[bi_r].0.clone(),
        focus: parts[bi_f].0.clone(),
        binding: parts[bi_bi].0.clone(),
    };
    let resolved = ResolvedWand {
        resolver_version: IMPLEMENT_RESOLVER_VERSION,
        capacity: stats.0,
        safe_transfer: stats.1,
        stability: stats.2,
        dross_per_thousand: stats.3,
        resonance,
        heat_sensitive: stats.6,
        saturation_instability: stats.4,
        containment: stats.5,
    };
    proof {
        assert(is_gcd_of(raw, d@) && resolved.resonance@ == spec_divided(raw, d@));
    }
    Ok((wand_parts, resolved))
}

/// Every raw resonance of four valid parts is positive, and every
/// resonance of the body appears.
proof fn lemma_raw_positive(
    b: WandComponentDef,
    r: WandComponentDef,
    f: WandComponentDef,
    bi: WandComponentDef,
)
    requires
        resonance_entries_ok(b.resonance, 1_000),
        resonance_entries_ok(r.resonance, 1_000),
        resonance_entries_ok(f.resonance, 1_000),
        resonance_entries_ok(bi.resonance, 1_000),
    ensures
        forall|k: Seq<char>| #[trigger] b.resonance@.contains_key(k) ==> spec_raw_resonance(b, r, f, bi).contains_key(k),
        forall|k: Seq<char>|
            #[trigger] spec_raw_resonance(b, r, f, bi).contains_key(k) ==> spec_raw_resonance(
                b,
                r,
                f,
                bi,
            )[k] > 0,
{
    let a1 = spec_accumulate(Map::empty(), b.resonance@, 2);
    let a2 = spec_accumulate(a1, r.resonance@, 1);
    let a3 = spec_accumulate(a2, f.resonance@, 4);
    let a4 = spec_accumulate(a3, bi.resonance@, 1);
    assert forall|k: Seq<char>| #[trigger] a1.contains_key(k) implies a1[k] > 0 by {
        assert(b.resonance@.contains_key(k));
    }
    assert forall|k: Seq<char>| #[trigger] a2.contains_key(k) implies a2[k] > 0 by {
        if r.resonance@.contains_key(k) {
        } else {
            assert(a1.contains_key(k));
        }
    }
    assert forall|k: Seq<char>| #[trigger] a3.contains_key(k) implies a3[k] > 0 by {
        if f.resonance@.contains_key(k) {
        } else {
            assert(a2.contains_key(k));
        }
    }
    assert forall|k: Seq<char>| #[trigger] a4.contains_key(k) implies a4[k] > 0 by {
        if bi.resonance@.contains_key(k) {
        } else {
            assert(a3.contains_key(k));
        }
    }
}

/// Four parts with distinct roles cover every role.
proof fn lemma_roles_covered(parts: Seq<(String, WandComponentDef)>, role: ComponentRole)
    requires
        parts.len() == 4,
        forall|i: int, j: int| 0 <= i < j < parts.len() ==> parts[i].1.role != parts[j].1.role,
    ensures
        exists|i: int| 0 <= i < 4 && parts[i].1.role == role,
{
    let r0 = parts[0].1.role;
    let r1 = parts[1].1.role;
    let r2 = parts[2].1.role;
    let r3 = parts[3].1.role;
    assert(r0 != r1 && r0 != r2 && r0 != r3 && r1 != r2 && r1 != r3 && r2 != r3);
    if r0 == role {
        assert(parts[0].1.role == role);
    } else if r1 == role {
        assert(parts[1].1.role == role);
    } else if r2 == role {
        assert(parts[2].1.role == role);
    } else {
        assert(parts[3].1.role == role);
    }
}

/// The resolver is independent of the order in which the parts are given:
/// any reordering of a valid assembly is valid and picks the same part for
/// every role, so it resolves to the same wand.
pub proof fn lemma_resolution_order_independent(
    p: Seq<(String, WandComponentDef)>,
    q: Seq<(String, WandComponentDef)>,
    perm: Seq<int>,
)
    requires
        p.len() == 4,
        q.len() == 4,
        perm.len() == 4,
        forall|i: int| 0 <= i < 4 ==> 0 <= #[trigger] perm[i] < 4,
        forall|i: int, j: int| 0 <= i < j < 4 ==> perm[i] != perm[j],
        forall|i: int| 0 <= i < 4 ==> #[trigger] q[i] == p[perm[i]],
        parts_ok(p),
    ensures
        parts_ok(q),
        forall|role: ComponentRole| #[trigger] q[role_position(q, role)] == p[role_position(p, role)],
{
    assert forall|i: int| 0 <= i < q.len() implies spec_component_valid(#[trigger] q[i].0@, q[i].1) by {
        assert(q[i] == p[perm[i]]);
        assert(spec_component_valid(p[perm[i]].0@, p[perm[i]].1));
    }
    assert forall|i: int, j: int| 0 <= i < j < q.len() implies q[i].1.role != q[j].1.role by {
        assert(q[i] == p[perm[i]]);
        assert(q[j] == p[perm[j]]);
        if perm[i] < perm[j] {
        } else {
            assert(perm[j] < perm[i]);
        }
    }
    assert forall|role: ComponentRole| #[trigger] q[role_position(q, role)] == p[role_position(p, role)] by {
        lemma_roles_covered(p, role);
        lemma_roles_covered(q, role);
        let iq = role_position(q, role);
        let ip = role_position(p, role);
        assert(q[iq] == p[perm[iq]]);
        assert(p[perm[iq]].1.role == role);
        if perm[iq] != ip {
            if perm[iq] < ip {
            } else {
            }
            assert(false);
        }
    }
}

/// `wp` and `w` are what four parts resolve to: the part ids by role and
/// the resolution of the part definitions by role.
pub open spec fn resolves_to(parts: Seq<(String, WandComponentDef)>, wp: WandParts, w: ResolvedWand) -> bool {
    let pb = parts[role_position(parts, ComponentRole::Body)];
    let pr = parts[role_position(parts, ComponentRole::Reservoir)];
    let pf = parts[role_position(parts, ComponentRole::Focus)];
    let pbi = parts[role_position(parts, ComponentRole::Binding)];
    &&& wp.body@ == pb.0@
    &&& wp.reservoir@ == pr.0@
    &&& wp.focus@ == pf.0@
    &&& wp.binding@ == pbi.0@
    &&& resolved_matches(w, pb.1, pr.1, pf.1, pbi.1)
}

/// A resonance map has one greatest common divisor.
proof fn lemma_gcd_unique(m: Map<Seq<char>, u16>, d1: int, d2: int)
    requires
        is_gcd_of(m, d1),
        is_gcd_of(m, d2),
    ensures
        d1 == d2,
{
    assert(d1 % d2 == 0);
    assert(d2 % d1 == 0);
    assert(d1 == d2) by (nonlinear_arith)
        requires
            d1 > 0,
            d2 > 0,
            d1 % d2 == 0,
            d2 % d1 == 0,
    {
        assert(d1 == (d1 / d2) * d2);
        assert(d2 == (d2 / d1) * d1);
        assert(d1 / d2 >= 1);
        assert(d2 / d1 >= 1);
    }
}

/// Resolving a wand does not depend on the order of its parts: any
/// reordering of an assembly resolves to the same part ids and the same
/// wand, field by field, its resonance holding the same amounts under the
/// same names in the same order.
pub proof fn lemma_reordered_resolution_identical(
    p: Seq<(String, WandComponentDef)>,
    q: Seq<(String, WandComponentDef)>,
    perm: Seq<int>,
    wp1: WandParts,
    w1: ResolvedWand,
    wp2: WandParts,
    w2: ResolvedWand,
)
    requires
        p.len() == 4,
        q.len() == 4,
        perm.len() == 4,
        forall|i: int| 0 <= i < 4 ==> 0 <= #[trigger] perm[i] < 4,
        forall|i: int, j: int| 0 <= i < j < 4 ==> perm[i] != perm[j],
        forall|i: int| 0 <= i < 4 ==> #[trigger] q[i] == p[perm[i]],
        parts_ok(p),
        resolves_to(p, wp1, w1),
        resolves_to(q, wp2, w2),
        w1.resonance.consistent(),
        w1.resonance.names_sorted(),
        w2.resonance.consistent(),
        w2.resonance.names_sorted(),
    ensures
        wp1.body@ == wp2.body@,
        wp1.reservoir@ == wp2.reservoir@,
        wp1.focus@ == wp2.focus@,
        wp1.binding@ == wp2.binding@,
        w1.resolver_version == w2.resolver_version,
        w1.capacity == w2.capacity,
        w1.safe_transfer == w2.safe_transfer,
        w1.stability == w2.stability,
        w1.dross_per_thousand == w2.dross_per_thousand,
        w1.heat_sensitive == w2.heat_sensitive,
        w1.saturation_instability == w2.saturation_instability,
        w1.containment == w2.containment,
        w1.resonance@ == w2.resonance@,
        w1.resonance.spec_len() == w2.resonance.spec_len(),
        forall|i: int|
            0 <= i < w1.resonance.spec_len() ==> #[trigger] w1.resonance.name_at_spec(i) == w2.resonance.name_at_spec(i)
                && w1.resonance.units_at_spec(i) == w2.resonance.units_at_spec(i),
{
    lemma_resolution_order_independent(p, q, perm);
    let b = p[role_position(p, ComponentRole::Body)].1;
    let r = p[role_position(p, ComponentRole::Reservoir)].1;
    let f = p[role_position(p, ComponentRole::Focus)].1;
    let bi = p[role_position(p, ComponentRole::Binding)].1;
    assert(q[role_position(q, ComponentRole::Body)] == p[role_position(p, ComponentRole::Body)]);
    assert(q[role_position(q, ComponentRole::Reservoir)] == p[role_position(p, ComponentRole::Reservoir)]);
    assert(q[role_position(q, ComponentRole::Focus)] == p[role_position(p, ComponentRole::Focus)]);
    assert(q[role_position(q, ComponentRole::Binding)] == p[role_position(p, ComponentRole::Binding)]);
    let raw = spec_raw_resonance(b, r, f, bi);
    let d1 = choose|d: int| is_gcd_of(raw, d) && w1.resonance@ == spec_divided(raw, d);
    let d2 = choose|d: int| is_gcd_of(raw, d) && w2.resonance@ == spec_divided(raw, d);
    lemma_gcd_unique(raw, d1, d2);
    NamedAmounts::lemma_canonical(w1.resonance, w2.resonance);
}

/// A wand's capacity is the reservoir's capacity plus half the body's plus a
/// quarter of the binding's, held within `1..=MAX_WAND_CAPACITY`; the focus
/// adds none. Its saturation instability is the parts' sum capped at 1000,
/// and its containment the parts' mean rounded up, capped at 1000.
pub proof fn lemma_wand_capacity_formula(
    w: ResolvedWand,
    b: WandComponentDef,
    r: WandComponentDef,
    f: WandComponentDef,
    bi: WandComponentDef,
)
    requires
        resolved_matches(w, b, r, f, bi),
    ensures
        ({
            let x = r.capacity + b.capacity / 2 + bi.capacity / 4;
            w.capacity == if x < 1 {
                1
            } else if x > MAX_WAND_CAPACITY {
                MAX_WAND_CAPACITY as int
            } else {
                x
            }
        }),
        ({
            let t = b.saturation_instability + r.saturation_instability + f.saturation_instability
                + bi.saturation_instability;
            w.saturation_instability == if t > 1_000 { 1_000 } else { t }
        }),
        ({
            let t = b.containment + r.containment + f.containment + bi.containment;
            &&& w.containment <= 1_000
            &&& (w.containment < 1_000 ==> 4 * w.containment >= t && 4 * (w.containment - 1) < t)
            &&& (t <= 4_000 ==> 4 * w.containment >= t)
        }),
{
}

/// `e` divides every amount of `m`.
pub open spec fn divides_every(m: Map<Seq<char>, u16>, e: int) -> bool {
    forall|k: Seq<char>| #[trigger] m.contains_key(k) ==> (m[k] as int) % e == 0
}

/// The rest of a wand's numbers from its parts: stability weighs body 4,
/// binding 3, reservoir 2 and focus 1 (in tenths), less a fifth of the
/// saturation instability, within `1..=1000`; dross per thousand is a
/// quarter of the stability's complement plus a tenth of the saturation
/// instability, within `1..=500`; safe transfer is the harmonic mean of the
/// body, reservoir and binding conductivities, capped by the focus's, in
/// quarters rounded up, within `MIN_SAFE_TRANSFER..=MAX_SAFE_TRANSFER`; a
/// wand is heat sensitive when any part is.
pub proof fn lemma_wand_stats_formula(
    w: ResolvedWand,
    b: WandComponentDef,
    r: WandComponentDef,
    f: WandComponentDef,
    bi: WandComponentDef,
)
    requires
        resolved_matches(w, b, r, f, bi),
    ensures
        ({
            let weighted = (4 * b.stability + 3 * bi.stability + 2 * r.stability + f.stability) / 10;
            let reduced = weighted - w.saturation_instability / 5;
            w.stability == if reduced < 1 { 1 } else if reduced > 1_000 { 1_000 } else { reduced }
        }),
        ({
            let d = (1_000 - w.stability) / 4 + w.saturation_instability / 10;
            w.dross_per_thousand == if d < 1 { 1 } else if d > 500 { 500 } else { d }
        }),
        ({
            let sum = 1_000_000int / (b.conductivity as int) + 1_000_000int / (r.conductivity as int) + 1_000_000int / (
            bi.conductivity as int);
            let harmonic = if sum < 1 { 3_000_000int } else { 3_000_000int / sum };
            let capped = if harmonic < f.conductivity { harmonic } else { f.conductivity as int };
            let quarters = (capped + 3) / 4;
            w.safe_transfer == if quarters < MIN_SAFE_TRANSFER { MIN_SAFE_TRANSFER as int } else if quarters
                > MAX_SAFE_TRANSFER { MAX_SAFE_TRANSFER as int } else { quarters }
        }),
        w.heat_sensitive == (b.heat_sensitive || r.heat_sensitive || f.heat_sensitive || bi.heat_sensitive),
{
}

/// A wand resonates with exactly the ids its parts resonate with; while no
/// weighted total passes `u16::MAX`, its amounts are proportional to the
/// role weights (body 2, reservoir 1, focus 4, binding 1) times the parts'
/// amounts, reduced by one common divisor `d` that leaves nothing further
/// in common.
pub proof fn lemma_wand_resonance(
    w: ResolvedWand,
    b: WandComponentDef,
    r: WandComponentDef,
    f: WandComponentDef,
    bi: WandComponentDef,
) -> (d: int)
    requires
        resolved_matches(w, b, r, f, bi),
    ensures
        d > 0,
        forall|k: Seq<char>| #[trigger] w.resonance@.contains_key(k) <==> (b.resonance@.contains_key(k)
            || r.resonance@.contains_key(k) || f.resonance@.contains_key(k) || bi.resonance@.contains_key(k)),
        (forall|k: Seq<char>| 2 * amt16(b.resonance@, k) + amt16(r.resonance@, k) + 4 * amt16(f.resonance@, k)
            + #[trigger] amt16(bi.resonance@, k) <= u16::MAX) ==> forall|k: Seq<char>|
            #[trigger] w.resonance@.contains_key(k) ==> w.resonance@[k] * d == 2 * amt16(b.resonance@, k)
                + amt16(r.resonance@, k) + 4 * amt16(f.resonance@, k) + amt16(bi.resonance@, k),
        forall|e: int| e > 1 ==> !#[trigger] divides_every(w.resonance@, e),
{
    let raw = spec_raw_resonance(b, r, f, bi);
    let d = choose|d: int| is_gcd_of(raw, d) && w.resonance@ == spec_divided(raw, d);
    assert forall|k: Seq<char>| #[trigger] w.resonance@.contains_key(k) implies (w.resonance@[k] as int) * d == raw[k] by {
        let x = raw[k] as int;
        assert(x % d == 0);
        assert((x / d) * d == x) by (nonlinear_arith)
            requires
                d > 0,
                x % d == 0,
        ;
        assert(0 <= x / d <= x) by (nonlinear_arith)
            requires
                d > 0,
                x >= 0,
        ;
    }
    if forall|k: Seq<char>| 2 * amt16(b.resonance@, k) + amt16(r.resonance@, k) + 4 * amt16(f.resonance@, k)
        + #[trigger] amt16(bi.resonance@, k) <= u16::MAX {
        assert forall|k: Seq<char>| #[trigger] w.resonance@.contains_key(k) implies w.resonance@[k] * d == 2 * amt16(b.resonance@, k)
            + amt16(r.resonance@, k) + 4 * amt16(f.resonance@, k) + amt16(bi.resonance@, k) by {
            assert(2 * amt16(b.resonance@, k) + amt16(r.resonance@, k) + 4 * amt16(f.resonance@, k) + amt16(bi.resonance@, k) <= u16::MAX);
        }
    }
    assert forall|e: int| e > 1 implies !#[trigger] divides_every(w.resonance@, e) by {
        if divides_every(w.resonance@, e) {
            let de = d * e;
            assert(de > 0) by (nonlinear_arith)
                requires
                    d > 0,
                    e > 1,
                    de == d * e,
            ;
            assert forall|k: Seq<char>| #[trigger] raw.contains_key(k) implies (raw[k] as int) % de == 0 by {
                assert(w.resonance@.contains_key(k));
                let q = w.resonance@[k] as int;
                assert(q * d == raw[k]);
                assert(q % e == 0);
                assert((q * d) % (d * e) == 0) by (nonlinear_arith)
                    requires
                        d > 0,
                        e > 1,
                        q % e == 0,
                        q >= 0,
                {
                    assert(q == (q / e) * e);
                    assert(q * d == (q / e) * (d * e));
                    vstd::arithmetic::div_mod::lemma_mod_multiples_basic(q / e, d * e);
                }
            }
            assert(d % de == 0);
            assert(false) by (nonlinear_arith)
                requires
                    d > 0,
                    e > 1,
                    de == d * e,
                    d % de == 0,
            {
                assert(d < de);
                assert(d % de == d);
            }
        }
    }
    d
}

/// Body capacity counts: between two wands that differ only in the body's
/// capacity, the larger body never gives the smaller wand, and below the
/// cap two more units of body capacity give exactly one more unit of wand
/// capacity.
pub proof fn lemma_body_capacity_counts(
    w1: ResolvedWand,
    w2: ResolvedWand,
    b1: WandComponentDef,
    b2: WandComponentDef,
    r: WandComponentDef,
    f: WandComponentDef,
    bi: WandComponentDef,
)
    requires
        resolved_matches(w1, b1, r, f, bi),
        resolved_matches(w2, b2, r, f, bi),
        b1.capacity <= b2.capacity,
    ensures
        w1.capacity <= w2.capacity,
        b2.capacity == b1.capacity + 2 && 1 <= r.capacity + b1.capacity / 2 + bi.capacity / 4
            && r.capacity + b2.capacity / 2 + bi.capacity / 4 <= MAX_WAND_CAPACITY ==> w2.capacity == w1.capacity + 1,
{
    lemma_wand_capacity_formula(w1, b1, r, f, bi);
    lemma_wand_capacity_formula(w2, b2, r, f, bi);
    assert(b1.capacity / 2 <= b2.capacity / 2);
    if b2.capacity == b1.capacity + 2 {
        assert(b2.capacity / 2 == b1.capacity / 2 + 1);
    }
}

/// Every resolved quantity lies in its documented range.
pub proof fn lemma_resolution_bounded(
    b: WandComponentDef,
    r: WandComponentDef,
    f: WandComponentDef,
    bi: WandComponentDef,
)
    ensures
        1 <= spec_wand_capacity(b, r, bi) <= MAX_WAND_CAPACITY,
        MIN_SAFE_TRANSFER <= spec_wand_safe_transfer(b, r, f, bi) <= MAX_SAFE_TRANSFER,
        1 <= spec_wand_stability(b, r, f, bi) <= 1_000,
        1 <= spec_wand_dross(b, r, f, bi) <= 500,
        0 <= spec_wand_saturation(b, r, f, bi) <= 1_000,
        0 <= spec_wand_containment(b, r, f, bi) <= 1_000,
{
}


// ---------------------------------------------------------------------------
// Durable implement instances.

/// What an implement physically is.
pub enum ImplementKind {
    Wand { parts: WandParts, resolved: ResolvedWand },
    Charm {
        effect: CharmEffect,
        capacity: u64,
        charge_per_trigger: u64,
        stability: u16,
        dross_per_transfer: u16,
    },
    Vessel { capacity: u64, safe_transfer: u64, containment: u16 },
    /// A physically conserved bundle left by catastrophic failure or by safe
    /// disassembly; the instance's construction keeps every component.
    Fragments { source: Box<ImplementKind>, pieces: u8 },
}

pub open spec fn spec_kind_capacity(k: ImplementKind) -> u64 {
    match k {
        ImplementKind::Wand { resolved, .. } => resolved.capacity,
        ImplementKind::Charm { capacity, .. } => capacity,
        ImplementKind::Vessel { capacity, .. } => capacity,
        ImplementKind::Fragments { .. } => 0,
    }
}

pub open spec fn parts_same(a: WandParts, b: WandParts) -> bool {
    a.body@ == b.body@ && a.reservoir@ == b.reservoir@ && a.focus@ == b.focus@ && a.binding@ == b.binding@
}

pub open spec fn resolved_same(a: ResolvedWand, b: ResolvedWand) -> bool {
    &&& a.resolver_version == b.resolver_version
    &&& a.capacity == b.capacity
    &&& a.safe_transfer == b.safe_transfer
    &&& a.stability == b.stability
    &&& a.dross_per_thousand == b.dross_per_thousand
    &&& a.resonance@ == b.resonance@
    &&& a.heat_sensitive == b.heat_sensitive
    &&& a.saturation_instability == b.saturation_instability
    &&& a.containment == b.containment
}

/// Two kinds describe the same physical implement.
pub open spec fn kind_same(a: ImplementKind, b: ImplementKind) -> bool
    decreases a,
{
    match a {
        ImplementKind::Wand { parts: pa, resolved: ra } => match b {
            ImplementKind::Wand { parts: pb, resolved: rb } => parts_same(pa, pb) && resolved_same(ra, rb),
            _ => false,
        },
        ImplementKind::Charm { effect: e1, capacity: c1, charge_per_trigger: t1, stability: s1, dross_per_transfer: d1 } => match b {
            ImplementKind::Charm { effect: e2, capacity: c2, charge_per_trigger: t2, stability: s2, dross_per_transfer: d2 } =>
                e1 == e2 && c1 == c2 && t1 == t2 && s1 == s2 && d1 == d2,
            _ => false,
        },
        ImplementKind::Vessel { capacity: c1, safe_transfer: t1, containment: k1 } => match b {
            ImplementKind::Vessel { capacity: c2, safe_transfer: t2, containment: k2 } => c1 == c2 && t1 == t2 && k1 == k2,
            _ => false,
        },
        ImplementKind::Fragments { source: sa, pieces: pa } => match b {
            ImplementKind::Fragments { source: sb, pieces: pb } => pa == pb && kind_same(*sa, *sb),
            _ => false,
        },
    }
}

impl WandParts {
    pub fn duplicate(&self) -> (r: WandParts)
        ensures
            parts_same(r, *self),
    {
        WandParts {
            body: self.body.clone(),
            reservoir: self.reservoir.clone(),
            focus: self.focus.clone(),
            binding: self.binding.clone(),
        }
    }
}

impl ResolvedWand {
    pub fn duplicate(&self) -> (r: ResolvedWand)
        ensures
            resolved_same(r, *self),
    {
        ResolvedWand {
            resolver_version: self.resolver_version,
            capacity: self.capacity,
            safe_transfer: self.safe_transfer,
            stability: self.stability,
            dross_per_thousand: self.dross_per_thousand,
            resonance: self.resonance.duplicate(),
            heat_sensitive: self.heat_sensitive,
            saturation_instability: self.saturation_instability,
            containment: self.containment,
        }
    }
}

impl ImplementKind {
    /// The Current the implement can hold; fragments hold none.
    pub fn capacity(&self) -> (r: u64)
        ensures
            r == spec_kind_capacity(*self),
    {
        match self {
            ImplementKind::Wand { resolved, .. } => resolved.capacity,
            ImplementKind::Charm { capacity, .. } => *capacity,
            ImplementKind::Vessel { capacity, .. } => *capacity,
            ImplementKind::Fragments { .. } => 0,
        }
    }

    /// A copy describing the same physical implement.
    pub fn duplicate(&self) -> (r: ImplementKind)
        ensures
            kind_same(r, *self),
            spec_kind_capacity(r) == spec_kind_capacity(*self),
        decreases self,
    {
        match self {
            ImplementKind::Wand { parts, resolved } => ImplementKind::Wand {
                parts: parts.duplicate(),
                resolved: resolved.duplicate(),
            },
            ImplementKind::Charm { effect, capacity, charge_per_trigger, stability, dross_per_transfer } => ImplementKind::Charm {
                effect: *effect,
                capacity: *capacity,
                charge_per_trigger: *charge_per_trigger,
                stability: *stability,
                dross_per_transfer: *dross_per_transfer,
            },
            ImplementKind::Vessel { capacity, safe_transfer, containment } => ImplementKind::Vessel {
                capacity: *capacity,
                safe_transfer: *safe_transfer,
                containment: *containment,
            },
            ImplementKind::Fragments { source, pieces } => {
                let inner = (**source).duplicate();
                ImplementKind::Fragments { source: Box::new(inner), pieces: *pieces }
            },
        }
    }
}

/// The tracked matter one physical construction part contributes.
pub struct ImplementComponent {
    pub content_id: String,
    pub materials: MaterialVector,
}

/// The durable record of one implement identity.
pub struct ImplementInstance {
    pub instance_id: u64,
    pub content_id: String,
    pub kind: ImplementKind,
    pub construction: Vec<ImplementComponent>,
    pub wear: u32,
    pub strain: u32,
    pub provenance: String,
    pub created_day: u32,
    pub format_version: u32,
    pub creative: bool,
}

/// Wear and strain together: ten per point of wear plus strain up to its
/// bound.
pub open spec fn spec_burden(wear: u32, strain: u32) -> int {
    wear * 10 + if strain < MAX_WAND_STRAIN { strain as int } else { MAX_WAND_STRAIN as int }
}

pub open spec fn spec_condition_band(wear: u32, strain: u32) -> Seq<char> {
    let burden = spec_burden(wear, strain);
    if burden == 0 {
        "sound"@
    } else if burden < 2_500 {
        "worn"@
    } else if burden < 7_500 {
        "strained"@
    } else {
        "critical"@
    }
}

pub open spec fn f_component(m: Seq<char>) -> spec_fn(ImplementComponent) -> int {
    |c: ImplementComponent| amt(c.materials@, m) as int
}

/// Some component names material `m`.
pub open spec fn names_material(cs: Seq<ImplementComponent>, m: Seq<char>) -> bool {
    exists|i: int| 0 <= i < cs.len() && cs[i].materials@.contains_key(m)
}

/// The summed tracked matter of a construction.
pub open spec fn spec_tracked(cs: Seq<ImplementComponent>) -> Map<Seq<char>, u64> {
    Map::new(|m: Seq<char>| names_material(cs, m), |m: Seq<char>| seq_sum(cs, f_component(m)) as u64)
}

/// Some material's total over the construction exceeds `u64::MAX`.
pub open spec fn tracked_overflows(cs: Seq<ImplementComponent>) -> bool {
    exists|m: Seq<char>| seq_sum(cs, #[trigger] f_component(m)) > u64::MAX
}

proof fn lemma_sum_prefix_le(cs: Seq<ImplementComponent>, i: int, m: Seq<char>)
    requires
        0 <= i <= cs.len(),
    ensures
        seq_sum(cs.take(i), f_component(m)) <= seq_sum(cs, f_component(m)),
    decreases cs.len() - i,
{
    if i < cs.len() {
        lemma_sum_prefix_le(cs, i + 1, m);
        assert(cs.take(i + 1).drop_last() =~= cs.take(i));
    } else {
        assert(cs.take(i) =~= cs);
    }
}

proof fn lemma_sum_unnamed(cs: Seq<ImplementComponent>, m: Seq<char>)
    requires
        !names_material(cs, m),
    ensures
        seq_sum(cs, f_component(m)) == 0,
    decreases cs.len(),
{
    if cs.len() > 0 {
        let p = cs.drop_last();
        assert(!names_material(p, m)) by {
            if names_material(p, m) {
                let x = choose|x: int| 0 <= x < p.len() && #[trigger] p[x].materials@.contains_key(m);
                assert(cs[x] == p[x]);
            }
        }
        lemma_sum_unnamed(p, m);
        assert(!cs[cs.len() - 1].materials@.contains_key(m));
    }
}

proof fn lemma_tracked_amt(cs: Seq<ImplementComponent>, m: Seq<char>)
    requires
        seq_sum(cs, f_component(m)) <= u64::MAX,
    ensures
        amt(spec_tracked(cs), m) == seq_sum(cs, f_component(m)),
{
    if !names_material(cs, m) {
        lemma_sum_unnamed(cs, m);
    } else {
        assert forall|i: int| 0 <= i < cs.len() implies 0 <= #[trigger] f_component(m)(cs[i]) by {}
        crate::materials::lemma_sum_nonneg(cs, f_component(m));
    }
}

impl ImplementInstance {
    pub fn usable_capacity(&self) -> (r: u64)
        ensures
            r == spec_kind_capacity(self.kind),
    {
        self.kind.capacity()
    }

    /// The qualitative condition shown to players.
    pub fn condition_band(&self) -> (r: &'static str)
        ensures
            r@ == spec_condition_band(self.wear, self.strain),
    {
        let strain: u64 = if (self.strain as u64) < (MAX_WAND_STRAIN as u64) {
            self.strain as u64
        } else {
            MAX_WAND_STRAIN as u64
        };
        let burden = crate::vector::saturating_mul(self.wear as u64, 10) + strain;
        if burden == 0 {
            "sound"
        } else if burden < 2_500 {
            "worn"
        } else if burden < 7_500 {
            "strained"
        } else {
            "critical"
        }
    }

    /// The construction's summed tracked matter; refused when a total
    /// would pass `u64::MAX`.
    pub fn tracked_materials(&self) -> (r: Result<MaterialVector, ImplementError>)
        ensures
            r is Err <==> tracked_overflows(self.construction@),
            r matches Ok(v) ==> v@ == spec_tracked(self.construction@),
            r matches Err(e) ==> e is Corrupt,
    {
        let ghost cs = self.construction@;
        let mut total = MaterialVector::new();
        let mut i: usize = 0;
        assert(total@ =~= spec_tracked(cs.take(0)));
        while i < self.construction.len()
            invariant
                cs == self.construction@,
                i <= cs.len(),
                total@ == spec_tracked(cs.take(i as int)),
                forall|m: Seq<char>| #[trigger] seq_sum(cs.take(i as int), f_component(m)) <= u64::MAX,
            decreases cs.len() - i,
        {
            let component = &self.construction[i];
            let ghost before = total@;
            let ghost target = spec_tracked(cs.take(i + 1));
            proof {
                assert(cs.take(i + 1).drop_last() =~= cs.take(i as int));
                assert(cs.take(i + 1).last() == cs[i as int]);
                lemma_agree_start(before, target, component.materials);
            }
            let n = component.materials.len();
            let mut j: usize = 0;
            while j < n
                invariant
                    cs == self.construction@,
                    i < cs.len(),
                    *component == cs[i as int],
                    n == component.materials.spec_len(),
                    component.materials.consistent(),
                    j <= n,
                    before == spec_tracked(cs.take(i as int)),
                    target == spec_tracked(cs.take(i + 1)),
                    cs.take(i + 1).drop_last() == cs.take(i as int),
                    cs.take(i + 1).last() == cs[i as int],
                    agrees_upto(total@, before, target, component.materials, j as int),
                    forall|m: Seq<char>| #[trigger] seq_sum(cs.take(i as int), f_component(m)) <= u64::MAX,
                    forall|m: Seq<char>| in_prefix(component.materials, j as int, m) ==> #[trigger] seq_sum(cs.take(i + 1), f_component(m)) <= u64::MAX,
                decreases n - j,
            {
                let name = component.materials.name_at(j);
                let units = component.materials.units_at(j);
                proof {
                    component.materials.lemma_consistent();
                    assert(component.materials@.contains_key(component.materials.name_at_spec(j as int)));
                    assert(!in_prefix(component.materials, j as int, name@)) by {
                        if in_prefix(component.materials, j as int, name@) {
                            let x = choose|x: int| 0 <= x < j && component.materials.name_at_spec(x) == name@;
                        }
                    }
                }
                let current = match total.get(name) {
                    Some(v) => v,
                    None => 0,
                };
                proof {
                    assert(current == amt(before, name@));
                    lemma_tracked_amt(cs.take(i as int), name@);
                    assert(component.materials@[name@] == units);
                    assert(seq_sum(cs.take(i + 1), f_component(name@)) == current + units);
                }
                let ghost prev = total@;
                match current.checked_add(units) {
                    Some(sum) => {
                        total.insert(name, sum);
                        proof {
                            assert(names_material(cs.take(i + 1), name@)) by {
                                assert(cs.take(i + 1)[i as int].materials@.contains_key(name@));
                            }
                            lemma_agree_step(prev, total@, before, target, component.materials, j as int);
                            assert forall|m: Seq<char>| in_prefix(component.materials, j + 1, m) implies #[trigger] seq_sum(cs.take(i + 1), f_component(m)) <= u64::MAX by {
                                if m != name@ {
                                    let x = choose|x: int| 0 <= x < j + 1 && component.materials.name_at_spec(x) == m;
                                    assert(x != j);
                                    assert(in_prefix(component.materials, j as int, m));
                                }
                            }
                        }
                    },
                    None => {
                        proof {
                            lemma_sum_prefix_le(cs, i + 1, name@);
                            assert(seq_sum(cs, f_component(name@)) > u64::MAX);
                        }
                        let mut message = String::from_str("implement ");
                        push_decimal(&mut message, self.instance_id);
                        message.append(" tracked material total overflowed");
                        return Err(ImplementError::Corrupt(message));
                    },
                }
                j = j + 1;
            }
            proof {
                assert forall|k: Seq<char>| !component.materials@.contains_key(k) implies (#[trigger] target.contains_key(k) == before.contains_key(k)
                    && (target.contains_key(k) ==> target[k] == before[k])) by {
                    assert(names_material(cs.take(i + 1), k) == names_material(cs.take(i as int), k)) by {
                        if names_material(cs.take(i + 1), k) {
                            let x = choose|x: int| 0 <= x < i + 1 && #[trigger] cs.take(i + 1)[x].materials@.contains_key(k);
                            assert(x != i);
                            assert(cs.take(i as int)[x] == cs.take(i + 1)[x]);
                        }
                        if names_material(cs.take(i as int), k) {
                            let x = choose|x: int| 0 <= x < i && #[trigger] cs.take(i as int)[x].materials@.contains_key(k);
                            assert(cs.take(i as int)[x] == cs.take(i + 1)[x]);
                        }
                    }
                }
                lemma_agree_finish(total@, before, target, component.materials);
                assert forall|m: Seq<char>| #[trigger] seq_sum(cs.take(i + 1), f_component(m)) <= u64::MAX by {
                    component.materials.lemma_consistent();
                    if component.materials@.contains_key(m) {
                        let x = choose|x: int| 0 <= x < component.materials.spec_len() && component.materials.name_at_spec(x) == m;
                        assert(in_prefix(component.materials, n as int, m));
                    } else {
                        assert(seq_sum(cs.take(i + 1), f_component(m)) == seq_sum(cs.take(i as int), f_component(m)));
                    }
                }
            }
            i = i + 1;
        }
        proof {
            assert(cs.take(cs.len() as int) =~= cs);
        }
        Ok(total)
    }
}

/// Bounded state a client may know of an implement it owns or inspects:
/// no provenance and no exact resonance.
pub struct ImplementPublicState {
    pub instance_id: u64,
    pub kind: ImplementKind,
    pub wear: u32,
    pub strain: u32,
    pub dross: u64,
}

#[derive(Clone, Copy, Debug, Eq, PartialEq, Structural)]
pub struct ImplementVisual {
    /// Host registry item ids; guests remap them through the item map.
    pub body: u16,
    pub reservoir: u16,
    pub focus: u16,
    pub binding: u16,
    /// 1 slate/reading, 2 choirstone/movement, 3 iron/change, 4 living/binding.
    pub focus_shape: u8,
    /// Authoritative qualitative usable-charge band, 0..=3.
    pub charge_band: u8,
}

/// Qualitative state of visible embodied apparatus, with no exact Current
/// or provenance.
#[derive(Clone, Copy, Debug, Eq, PartialEq, Structural)]
pub struct ApparatusCue {
    pub pos: crate::planet::BlockPos,
    /// 0 dormant, 1 faint, 2 steady, 3 saturated.
    pub charge_band: u8,
    /// 0 sound, 1 worn, 2 strained, 3 critical.
    pub strain_band: u8,
}

/// One entry of the bounded implement audit trail.
pub struct ImplementAuditEvent {
    pub operation_id: u64,
    pub kind: String,
    pub instance_id: u64,
    pub units: u64,
    pub dross: u64,
    pub actor: String,
    pub note: String,
}

/// An id without its namespace: what follows the first `:`.
pub open spec fn spec_short_id(id: Seq<char>) -> Seq<char> {
    match spec_first_index_of(id, ':') {
        Some(i) => id.subrange(i + 1, id.len() as int),
        None => id,
    }
}

pub fn short_id(id: &str) -> (r: &str)
    ensures
        r@ == spec_short_id(id@),
{
    let n = id.unicode_len();
    match find_char(id, ':') {
        Some(i) => id.substring_char(i + 1, n),
        None => id,
    }
}

/// The first tooltip line: what the implement is.
pub open spec fn spec_kind_line(kind: ImplementKind) -> Seq<char> {
    match kind {
        ImplementKind::Wand { parts, .. } => "Bound wand \u{2014} body "@ + spec_short_id(parts.body@) + ", reservoir "@
            + spec_short_id(parts.reservoir@) + ", focus "@ + spec_short_id(parts.focus@) + ", binding "@
            + spec_short_id(parts.binding@),
        ImplementKind::Charm { effect, .. } => "Charm of "@ + spec_charm_id(effect),
        ImplementKind::Vessel { .. } => "Stationary charge vessel"@,
        ImplementKind::Fragments { pieces, .. } => "Conserved implement fragment bundle \u{2014} "@ + spec_decimal(
            pieces as nat,
        ) + " piece(s)"@,
    }
}

/// Every tooltip line of an implement; the exact lens lines only when
/// `exact`.
pub open spec fn spec_tooltip(kind: ImplementKind, wear: u32, strain: u32, ledger_total: u64, dross: u64, exact: bool) -> Seq<Seq<char>> {
    let base = seq![
        spec_kind_line(kind),
        "Condition: "@ + spec_condition_band(wear, strain),
        "Charge: "@ + spec_band_word(spec_charge_band(ledger_total, spec_kind_capacity(kind))),
    ];
    if !exact {
        base
    } else {
        let lens = "Lens: "@ + spec_decimal(spec_usable_charge(ledger_total) as nat) + " / "@ + spec_decimal(
            spec_kind_capacity(kind) as nat,
        ) + " usable Current; "@ + spec_decimal(dross as nat) + " dross; wear "@ + spec_decimal(wear as nat)
            + "; strain "@ + spec_decimal(strain as nat);
        match kind {
            ImplementKind::Wand { resolved, .. } => base.push(lens).push(
                "Lens: transfer "@ + spec_decimal(resolved.safe_transfer as nat) + ", stability "@ + spec_decimal(
                    resolved.stability as nat,
                ) + ", containment "@ + spec_decimal(resolved.containment as nat) + " permille"@,
            ),
            _ => base.push(lens),
        }
    }
}

fn kind_line(kind: &ImplementKind) -> (r: String)
    ensures
        r@ == spec_kind_line(*kind),
{
    match kind {
        ImplementKind::Wand { parts, .. } => {
            proof {
                reveal_strlit("Bound wand \u{2014} body ");
                reveal_strlit(", reservoir ");
                reveal_strlit(", focus ");
                reveal_strlit(", binding ");
            }
            let mut line = String::from_str("Bound wand \u{2014} body ");
            line.append(short_id(parts.body.as_str()));
            line.append(", reservoir ");
            line.append(short_id(parts.reservoir.as_str()));
            line.append(", focus ");
            line.append(short_id(parts.focus.as_str()));
            line.append(", binding ");
            line.append(short_id(parts.binding.as_str()));
            line
        },
        ImplementKind::Charm { effect, .. } => {
            proof {
                reveal_strlit("Charm of ");
            }
            let mut line = String::from_str("Charm of ");
            line.append(effect.id());
            line
        },
        ImplementKind::Vessel { .. } => {
            proof {
                reveal_strlit("Stationary charge vessel");
            }
            String::from_str("Stationary charge vessel")
        },
        ImplementKind::Fragments { pieces, .. } => {
            proof {
                reveal_strlit("Conserved implement fragment bundle \u{2014} ");
                reveal_strlit(" piece(s)");
            }
            let mut line = String::from_str("Conserved implement fragment bundle \u{2014} ");
            push_decimal(&mut line, *pieces as u64);
            line.append(" piece(s)");
            line
        },
    }
}

pub open spec fn views(v: Seq<String>) -> Seq<Seq<char>> {
    v.map_values(|s: String| s@)
}

fn condition_word(wear: u32, strain: u32) -> (r: &'static str)
    ensures
        r@ == spec_condition_band(wear, strain),
{
    let capped: u64 = if (strain as u64) < (MAX_WAND_STRAIN as u64) {
        strain as u64
    } else {
        MAX_WAND_STRAIN as u64
    };
    let burden = crate::vector::saturating_mul(wear as u64, 10) + capped;
    if burden == 0 {
        "sound"
    } else if burden < 2_500 {
        "worn"
    } else if burden < 7_500 {
        "strained"
    } else {
        "critical"
    }
}

fn kind_tooltip(kind: &ImplementKind, wear: u32, strain: u32, ledger_total: u64, dross: u64, exact: bool) -> (r: Vec<String>)
    ensures
        views(r@) == spec_tooltip(*kind, wear, strain, ledger_total, dross, exact),
{
    let mut lines: Vec<String> = Vec::new();
    lines.push(kind_line(kind));
    proof {
        reveal_strlit("Condition: ");
        reveal_strlit("Charge: ");
    }
    let mut condition = String::from_str("Condition: ");
    condition.append(condition_word(wear, strain));
    lines.push(condition);
    let capacity = kind.capacity();
    let mut charge = String::from_str("Charge: ");
    charge.append(qualitative_charge(ledger_total, capacity));
    lines.push(charge);
    if exact {
        proof {
            reveal_strlit("Lens: ");
            reveal_strlit(" / ");
            reveal_strlit(" usable Current; ");
            reveal_strlit(" dross; wear ");
            reveal_strlit("; strain ");
        }
        let mut lens = String::from_str("Lens: ");
        push_decimal(&mut lens, usable_charge(ledger_total));
        lens.append(" / ");
        push_decimal(&mut lens, capacity);
        lens.append(" usable Current; ");
        push_decimal(&mut lens, dross);
        lens.append(" dross; wear ");
        push_decimal(&mut lens, wear as u64);
        lens.append("; strain ");
        push_decimal(&mut lens, strain as u64);
        lines.push(lens);
        if let ImplementKind::Wand { resolved, .. } = kind {
            proof {
                reveal_strlit("Lens: transfer ");
                reveal_strlit(", stability ");
                reveal_strlit(", containment ");
                reveal_strlit(" permille");
            }
            let mut physics = String::from_str("Lens: transfer ");
            push_decimal(&mut physics, resolved.safe_transfer);
            physics.append(", stability ");
            push_decimal(&mut physics, resolved.stability as u64);
            physics.append(", containment ");
            push_decimal(&mut physics, resolved.containment as u64);
            physics.append(" permille");
            lines.push(physics);
        }
    }
    proof {
        assert(views(lines@) =~= spec_tooltip(*kind, wear, strain, ledger_total, dross, exact));
    }
    lines
}

/// Tooltip lines for an implement: what it is, its condition, its
/// qualitative charge and, through a lens, the exact figures.
pub fn tooltip(instance: &ImplementInstance, ledger_total: u64, dross: u64, exact: bool) -> (r: Vec<String>)
    ensures
        views(r@) == spec_tooltip(instance.kind, instance.wear, instance.strain, ledger_total, dross, exact),
{
    kind_tooltip(&instance.kind, instance.wear, instance.strain, ledger_total, dross, exact)
}

impl ImplementPublicState {
    /// The public view of an authoritative instance.
    pub fn from_authority(instance: &ImplementInstance, dross: u64) -> (r: ImplementPublicState)
        ensures
            r.instance_id == instance.instance_id,
            kind_same(r.kind, instance.kind),
            spec_kind_capacity(r.kind) == spec_kind_capacity(instance.kind),
            r.wear == instance.wear,
            r.strain == instance.strain,
            r.dross == dross,
    {
        ImplementPublicState {
            instance_id: instance.instance_id,
            kind: instance.kind.duplicate(),
            wear: instance.wear,
            strain: instance.strain,
            dross,
        }
    }

    /// The tooltip a client shows, from public state alone.
    pub fn tooltip(&self, ledger_total: u64, exact: bool) -> (r: Vec<String>)
        ensures
            views(r@) == spec_tooltip(self.kind, self.wear, self.strain, ledger_total, self.dross, exact),
    {
        kind_tooltip(&self.kind, self.wear, self.strain, ledger_total, self.dross, exact)
    }
}

// ---------------------------------------------------------------------------
// Validation of durable implement state.

/// A tracked material vector fits the bounded schema: at most the material
/// budget of entries, each a bounded id with a nonzero amount.
pub open spec fn spec_material_vector_ok(m: Map<Seq<char>, u64>) -> bool {
    &&& m.dom().len() <= MAX_IMPLEMENT_MATERIALS
    &&& forall|k: Seq<char>| #[trigger] m.contains_key(k) ==> spec_bounded_text(k, MAX_IMPLEMENT_ID_BYTES) && m[k] != 0
}

pub fn validate_material_vector(materials: &MaterialVector) -> (r: Result<(), ImplementError>)
    ensures
        r is Ok <==> spec_material_vector_ok(materials@),
        r matches Err(e) ==> (e matches ImplementError::InvalidContent(m) && m@ == "tracked implement matter exceeds its bounded material schema"@),
{
    let n = materials.len();
    proof {
        materials.lemma_consistent();
    }
    if n > MAX_IMPLEMENT_MATERIALS {
        return Err(ImplementError::InvalidContent(String::from_str("tracked implement matter exceeds its bounded material schema")));
    }
    let mut i: usize = 0;
    while i < n
        invariant
            n == materials.spec_len(),
            materials.consistent(),
            i <= n,
            forall|j: int| 0 <= j < i ==> spec_bounded_text(#[trigger] materials.name_at_spec(j), MAX_IMPLEMENT_ID_BYTES)
                && materials.units_at_spec(j) != 0,
        decreases n - i,
    {
        let name = materials.name_at(i);
        if !bounded_text(name, MAX_IMPLEMENT_ID_BYTES) || materials.units_at(i) == 0 {
            proof {
                materials.lemma_consistent();
                assert(materials@.contains_key(materials.name_at_spec(i as int)));
            }
            return Err(ImplementError::InvalidContent(String::from_str("tracked implement matter exceeds its bounded material schema")));
        }
        assert(spec_bounded_text(materials.name_at_spec(i as int), MAX_IMPLEMENT_ID_BYTES));
        assert(materials.units_at_spec(i as int) != 0);
        assert forall|j: int| 0 <= j < i + 1 implies spec_bounded_text(#[trigger] materials.name_at_spec(j), MAX_IMPLEMENT_ID_BYTES)
            && materials.units_at_spec(j) != 0 by {
            if j < i {
            } else {
                assert(j == i);
            }
        }
        i = i + 1;
    }
    proof {
        materials.lemma_consistent();
        assert forall|k: Seq<char>| #[trigger] materials@.contains_key(k) implies spec_bounded_text(k, MAX_IMPLEMENT_ID_BYTES) && materials@[k] != 0 by {
            let j = choose|j: int| 0 <= j < materials.spec_len() && materials.name_at_spec(j) == k;
        }
    }
    Ok(())
}

pub open spec fn spec_transfer_ok(t: u64) -> bool {
    MIN_SAFE_TRANSFER <= t <= MAX_SAFE_TRANSFER
}

/// A stored wand resolution is within every bound the resolver produces.
pub open spec fn spec_resolution_ok(parts: WandParts, r: ResolvedWand) -> bool {
    &&& spec_bounded_text(parts.body@, MAX_IMPLEMENT_ID_BYTES)
    &&& spec_bounded_text(parts.reservoir@, MAX_IMPLEMENT_ID_BYTES)
    &&& spec_bounded_text(parts.focus@, MAX_IMPLEMENT_ID_BYTES)
    &&& spec_bounded_text(parts.binding@, MAX_IMPLEMENT_ID_BYTES)
    &&& r.resolver_version == IMPLEMENT_RESOLVER_VERSION
    &&& r.capacity <= MAX_WAND_CAPACITY
    &&& spec_transfer_ok(r.safe_transfer)
    &&& r.stability <= 1_000
    &&& 1 <= r.dross_per_thousand <= 500
    &&& r.resonance@.dom().len() != 0
    &&& r.resonance@.dom().len() <= MAX_IMPLEMENT_RESONANCES
    &&& forall|k: Seq<char>| #[trigger] r.resonance@.contains_key(k) ==> spec_bounded_text(k, MAX_IMPLEMENT_ID_BYTES) && r.resonance@[k] != 0
}

/// A stored kind is within its bounds; a fragment bundle only where
/// allowed, and never of another bundle.
pub open spec fn spec_kind_ok(kind: ImplementKind, allow_fragments: bool) -> bool
    decreases kind,
{
    match kind {
        ImplementKind::Wand { parts, resolved } => spec_resolution_ok(parts, resolved),
        ImplementKind::Charm { capacity, charge_per_trigger, stability, dross_per_transfer, .. } => spec_charm_numbers_ok(
            capacity,
            charge_per_trigger,
            stability,
            dross_per_transfer,
        ),
        ImplementKind::Vessel { capacity, safe_transfer, containment } => 1 <= capacity <= MAX_WAND_CAPACITY
            && spec_transfer_ok(safe_transfer) && containment <= 1_000,
        ImplementKind::Fragments { source, pieces } => allow_fragments && 1 <= pieces <= MAX_IMPLEMENT_COMPONENTS
            && !(*source is Fragments) && spec_kind_ok(*source, false),
    }
}

/// The refusal for a kind out of bounds.
pub open spec fn spec_kind_error(id: u64, kind: ImplementKind, allow_fragments: bool) -> Seq<char>
    decreases kind,
{
    match kind {
        ImplementKind::Wand { .. } => "wand "@ + spec_decimal(id as nat) + " has invalid stored resolution"@,
        ImplementKind::Charm { .. } => "charm values are outside bounded ranges"@,
        ImplementKind::Vessel { .. } => "vessel "@ + spec_decimal(id as nat) + " has invalid bounds"@,
        ImplementKind::Fragments { source, pieces } => if !(allow_fragments && 1 <= pieces <= MAX_IMPLEMENT_COMPONENTS
            && !(*source is Fragments)) {
            "fragment bundle "@ + spec_decimal(id as nat) + " has invalid or recursive provenance"@
        } else {
            spec_kind_error(id, *source, false)
        },
    }
}

fn resonance_all_nonzero(r: &Resonance) -> (ok: bool)
    ensures
        ok == forall|k: Seq<char>| #[trigger] r@.contains_key(k) ==> spec_bounded_text(k, MAX_IMPLEMENT_ID_BYTES) && r@[k] != 0,
{
    let n = r.len();
    let mut i: usize = 0;
    while i < n
        invariant
            n == r.spec_len(),
            r.consistent(),
            i <= n,
            forall|j: int| 0 <= j < i ==> spec_bounded_text(#[trigger] r.name_at_spec(j), MAX_IMPLEMENT_ID_BYTES) && r.units_at_spec(j) != 0,
        decreases n - i,
    {
        let name = r.name_at(i);
        if !bounded_text(name, MAX_IMPLEMENT_ID_BYTES) || r.units_at(i) == 0 {
            proof {
                r.lemma_consistent();
                assert(r@.contains_key(r.name_at_spec(i as int)));
            }
            return false;
        }
        assert(spec_bounded_text(r.name_at_spec(i as int), MAX_IMPLEMENT_ID_BYTES));
        assert(r.units_at_spec(i as int) != 0);
        assert forall|j: int| 0 <= j < i + 1 implies spec_bounded_text(#[trigger] r.name_at_spec(j), MAX_IMPLEMENT_ID_BYTES)
            && r.units_at_spec(j) != 0 by {
            if j < i {
            } else {
                assert(j == i);
            }
        }
        i = i + 1;
    }
    proof {
        r.lemma_consistent();
        assert forall|k: Seq<char>| #[trigger] r@.contains_key(k) implies spec_bounded_text(k, MAX_IMPLEMENT_ID_BYTES) && r@[k] != 0 by {
            let j = choose|j: int| 0 <= j < r.spec_len() && r.name_at_spec(j) == k;
        }
    }
    true
}

fn message_with_id(prefix: &str, id: u64, suffix: &str) -> (r: String)
    ensures
        r@ == prefix@ + spec_decimal(id as nat) + suffix@,
{
    let mut m = String::from_str(prefix);
    push_decimal(&mut m, id);
    m.append(suffix);
    m
}

/// Check a stored kind against its bounds.
pub fn validate_kind_bounds(id: u64, kind: &ImplementKind, allow_fragments: bool) -> (r: Result<(), ImplementError>)
    ensures
        r is Ok <==> spec_kind_ok(*kind, allow_fragments),
        r matches Err(e) ==> e.spec_message() == spec_kind_error(id, *kind, allow_fragments),
        r matches Err(e) ==> (e is Corrupt || (e is InvalidContent && *kind is Charm) || (e is InvalidContent && *kind is Fragments)),
    decreases kind,
{
    match kind {
        ImplementKind::Wand { parts, resolved } => {
            if !bounded_text(parts.body.as_str(), MAX_IMPLEMENT_ID_BYTES) || !bounded_text(parts.reservoir.as_str(), MAX_IMPLEMENT_ID_BYTES)
                || !bounded_text(parts.focus.as_str(), MAX_IMPLEMENT_ID_BYTES) || !bounded_text(parts.binding.as_str(), MAX_IMPLEMENT_ID_BYTES)
                || resolved.resolver_version != IMPLEMENT_RESOLVER_VERSION || resolved.capacity > MAX_WAND_CAPACITY
                || resolved.safe_transfer < MIN_SAFE_TRANSFER || resolved.safe_transfer > MAX_SAFE_TRANSFER
                || resolved.stability > 1_000 || resolved.dross_per_thousand == 0 || resolved.dross_per_thousand > 500
                || resolved.resonance.is_empty() || resolved.resonance.len() > MAX_IMPLEMENT_RESONANCES
                || !resonance_all_nonzero(&resolved.resonance) {
                proof {
                    reveal_strlit("wand ");
                    reveal_strlit(" has invalid stored resolution");
                }
                return Err(ImplementError::Corrupt(message_with_id("wand ", id, " has invalid stored resolution")));
            }
            Ok(())
        },
        ImplementKind::Charm { capacity, charge_per_trigger, stability, dross_per_transfer, .. } => {
            proof {
                reveal_strlit("charm values are outside bounded ranges");
            }
            validate_charm_numbers(*capacity, *charge_per_trigger, *stability, *dross_per_transfer)
        },
        ImplementKind::Vessel { capacity, safe_transfer, containment } => {
            if *capacity == 0 || *capacity > MAX_WAND_CAPACITY || *safe_transfer < MIN_SAFE_TRANSFER
                || *safe_transfer > MAX_SAFE_TRANSFER || *containment > 1_000 {
                proof {
                    reveal_strlit("vessel ");
                    reveal_strlit(" has invalid bounds");
                }
                return Err(ImplementError::Corrupt(message_with_id("vessel ", id, " has invalid bounds")));
            }
            Ok(())
        },
        ImplementKind::Fragments { source, pieces } => {
            let nested = match **source {
                ImplementKind::Fragments { .. } => true,
                _ => false,
            };
            if !allow_fragments || *pieces == 0 || *pieces as usize > MAX_IMPLEMENT_COMPONENTS || nested {
                proof {
                    reveal_strlit("fragment bundle ");
                    reveal_strlit(" has invalid or recursive provenance");
                }
                return Err(ImplementError::Corrupt(message_with_id("fragment bundle ", id, " has invalid or recursive provenance")));
            }
            validate_kind_bounds(id, source, false)
        },
    }
}

pub open spec fn count_id(s: Seq<Seq<char>>, x: Seq<char>) -> nat
    decreases s.len(),
{
    if s.len() == 0 {
        0
    } else {
        count_id(s.drop_last(), x) + if s.last() == x { 1nat } else { 0nat }
    }
}

pub open spec fn part_ids(p: WandParts) -> Seq<Seq<char>> {
    seq![p.body@, p.reservoir@, p.focus@, p.binding@]
}

pub open spec fn construction_ids(cs: Seq<ImplementComponent>) -> Seq<Seq<char>> {
    cs.map_values(|c: ImplementComponent| c.content_id@)
}

/// The physical construction is what the kind says it is: a wand holds
/// exactly its four parts (in any order), a charm something, a vessel one
/// shell, and a fragment bundle as many pieces as it declares.
pub open spec fn spec_construction_matches(i: ImplementInstance) -> bool {
    match i.kind {
        ImplementKind::Wand { parts, .. } => forall|x: Seq<char>| #[trigger] count_id(part_ids(parts), x) == count_id(construction_ids(i.construction@), x),
        ImplementKind::Charm { .. } => i.construction@.len() != 0,
        ImplementKind::Vessel { .. } => i.construction@.len() == 1,
        ImplementKind::Fragments { pieces, .. } => i.construction@.len() != 0 && pieces as int == i.construction@.len()
            && i.content_id@ == "base:implement_fragment"@,
    }
}

/// Every durable bound one instance must meet, apart from its encoded size.
pub open spec fn spec_instance_ok(i: ImplementInstance) -> bool {
    &&& i.instance_id != 0
    &&& spec_bounded_text(i.content_id@, MAX_IMPLEMENT_ID_BYTES)
    &&& spec_bounded_text(i.provenance@, MAX_IMPLEMENT_PROVENANCE_BYTES)
    &&& i.format_version == IMPLEMENT_RESOLVER_VERSION
    &&& i.wear <= MAX_WAND_WEAR
    &&& i.strain <= MAX_WAND_STRAIN
    &&& i.construction@.len() <= MAX_IMPLEMENT_COMPONENTS
    &&& forall|c: int| 0 <= c < i.construction@.len() ==> spec_bounded_text(#[trigger] i.construction@[c].content_id@, MAX_IMPLEMENT_ID_BYTES)
        && spec_material_vector_ok(i.construction@[c].materials@)
    &&& !tracked_overflows(i.construction@)
    &&& spec_material_vector_ok(spec_tracked(i.construction@))
    &&& spec_kind_ok(i.kind, true)
    &&& spec_construction_matches(i)
}

proof fn lemma_count_absent(s: Seq<Seq<char>>, x: Seq<char>)
    requires
        !s.contains(x),
    ensures
        count_id(s, x) == 0,
    decreases s.len(),
{
    if s.len() > 0 {
        assert(!s.drop_last().contains(x)) by {
            if s.drop_last().contains(x) {
                let j = choose|j: int| 0 <= j < s.drop_last().len() && s.drop_last()[j] == x;
                assert(s[j] == x);
            }
        }
        lemma_count_absent(s.drop_last(), x);
        assert(s[s.len() - 1] != x);
    }
}

fn count_in(s: &Vec<&str>, x: &str) -> (r: usize)
    ensures
        r == count_id(s@.map_values(|t: &str| t@), x@),
{
    let ghost v = s@.map_values(|t: &str| t@);
    let mut n: usize = 0;
    let mut i: usize = 0;
    assert(v.take(0) =~= Seq::<Seq<char>>::empty());
    while i < s.len()
        invariant
            v == s@.map_values(|t: &str| t@),
            i <= s@.len(),
            n == count_id(v.take(i as int), x@),
            n <= i,
        decreases s@.len() - i,
    {
        proof {
            assert(v.take(i + 1).drop_last() =~= v.take(i as int));
        }
        if str_eq(s[i], x) {
            n = n + 1;
        }
        i = i + 1;
    }
    proof {
        assert(v.take(v.len() as int) =~= v);
    }
    n
}

/// Whether a wand's construction holds exactly its four parts.
fn wand_construction_matches(parts: &WandParts, construction: &Vec<ImplementComponent>) -> (r: bool)
    ensures
        r == forall|x: Seq<char>| #[trigger] count_id(part_ids(*parts), x) == count_id(construction_ids(construction@), x),
{
    let expected: Vec<&str> = vec![parts.body.as_str(), parts.reservoir.as_str(), parts.focus.as_str(), parts.binding.as_str()];
    let mut actual: Vec<&str> = Vec::new();
    let mut i: usize = 0;
    while i < construction.len()
        invariant
            i <= construction@.len(),
            actual@.len() == i,
            forall|j: int| 0 <= j < i ==> #[trigger] actual@[j]@ == construction@[j].content_id@,
        decreases construction@.len() - i,
    {
        actual.push(construction[i].content_id.as_str());
        i = i + 1;
    }
    let ghost ev = expected@.map_values(|t: &str| t@);
    let ghost av = actual@.map_values(|t: &str| t@);
    proof {
        assert(ev =~= part_ids(*parts));
        assert(av =~= construction_ids(construction@));
    }
    let mut k: usize = 0;
    while k < expected.len()
        invariant
            k <= expected@.len(),
            ev == expected@.map_values(|t: &str| t@),
            av == actual@.map_values(|t: &str| t@),
            ev == part_ids(*parts),
            av == construction_ids(construction@),
            forall|j: int| 0 <= j < k ==> #[trigger] count_id(ev, ev[j]) == count_id(av, ev[j]),
        decreases expected@.len() - k,
    {
        if count_in(&expected, expected[k]) != count_in(&actual, expected[k]) {
            assert(count_id(part_ids(*parts), ev[k as int]) != count_id(construction_ids(construction@), ev[k as int]));
            return false;
        }
        k = k + 1;
    }
    let mut k: usize = 0;
    while k < actual.len()
        invariant
            k <= actual@.len(),
            ev == expected@.map_values(|t: &str| t@),
            av == actual@.map_values(|t: &str| t@),
            ev == part_ids(*parts),
            av == construction_ids(construction@),
            forall|j: int| 0 <= j < ev.len() ==> #[trigger] count_id(ev, ev[j]) == count_id(av, ev[j]),
            forall|j: int| 0 <= j < k ==> #[trigger] count_id(ev, av[j]) == count_id(av, av[j]),
        decreases actual@.len() - k,
    {
        if count_in(&expected, actual[k]) != count_in(&actual, actual[k]) {
            assert(count_id(part_ids(*parts), av[k as int]) != count_id(construction_ids(construction@), av[k as int]));
            return false;
        }
        k = k + 1;
    }
    proof {
        assert forall|x: Seq<char>| #[trigger] count_id(ev, x) == count_id(av, x) by {
            if ev.contains(x) {
                let j = choose|j: int| 0 <= j < ev.len() && ev[j] == x;
            } else if av.contains(x) {
                let j = choose|j: int| 0 <= j < av.len() && av[j] == x;
            } else {
                lemma_count_absent(ev, x);
                lemma_count_absent(av, x);
            }
        }
    }
    true
}

// ---------------------------------------------------------------------------
// The implements sidecar state.

/// The durable implement sidecar of a world.
pub struct ImplementsState {
    pub schema_version: u32,
    pub resolver_version: u32,
    pub content_hash: u64,
    pub next_operation_id: u64,
    /// Instances in ascending id order.
    pub instances: Vec<ImplementInstance>,
    pub component_manifests: Vec<(String, WandComponentDef)>,
    pub charm_manifests: Vec<(String, CharmDef)>,
    pub migrated_legacy: Vec<String>,
    pub audit: std::collections::VecDeque<ImplementAuditEvent>,
}

pub open spec fn ids_ascending(s: Seq<ImplementInstance>) -> bool {
    forall|i: int, j: int| 0 <= i < j < s.len() ==> s[i].instance_id < s[j].instance_id
}

pub open spec fn spec_event_ok(e: ImplementAuditEvent) -> bool {
    spec_bounded_text(e.kind@, MAX_IMPLEMENT_ID_BYTES) && spec_bounded_text(e.actor@, MAX_IMPLEMENT_PROVENANCE_BYTES)
        && spec_bounded_text(e.note@, MAX_IMPLEMENT_AUDIT_TEXT_BYTES)
}

/// Every durable bound of the sidecar, apart from encoded sizes.
pub open spec fn spec_state_ok(s: ImplementsState) -> bool {
    &&& s.schema_version == IMPLEMENTS_SCHEMA_VERSION
    &&& s.resolver_version == IMPLEMENT_RESOLVER_VERSION
    &&& s.instances@.len() <= MAX_IMPLEMENT_INSTANCES
    &&& s.audit@.len() <= MAX_IMPLEMENT_AUDIT
    &&& s.component_manifests@.len() <= MAX_IMPLEMENT_DEFINITIONS
    &&& s.charm_manifests@.len() <= MAX_IMPLEMENT_DEFINITIONS
    &&& s.migrated_legacy@.len() <= MAX_IMPLEMENT_INSTANCES
    &&& forall|i: int| 0 <= i < s.component_manifests@.len() ==> spec_component_valid(
        #[trigger] s.component_manifests@[i].0@,
        s.component_manifests@[i].1,
    )
    &&& forall|i: int| 0 <= i < s.charm_manifests@.len() ==> spec_charm_valid(#[trigger] s.charm_manifests@[i].0@, s.charm_manifests@[i].1)
    &&& forall|i: int| 0 <= i < s.migrated_legacy@.len() ==> spec_bounded_text(#[trigger] s.migrated_legacy@[i]@, MAX_IMPLEMENT_AUDIT_TEXT_BYTES)
    &&& forall|i: int| 0 <= i < s.audit@.len() ==> spec_event_ok(#[trigger] s.audit@[i])
    &&& forall|i: int| 0 <= i < s.instances@.len() ==> spec_instance_ok(#[trigger] s.instances@[i])
    &&& ids_ascending(s.instances@)
}

/// The sidecar was written by this schema and resolver.
pub open spec fn header_ok(s: ImplementsState) -> bool {
    s.schema_version == IMPLEMENTS_SCHEMA_VERSION && s.resolver_version == IMPLEMENT_RESOLVER_VERSION
}

/// The instance and audit counts are within their census.
pub open spec fn census_ok(s: ImplementsState) -> bool {
    s.instances@.len() <= MAX_IMPLEMENT_INSTANCES && s.audit@.len() <= MAX_IMPLEMENT_AUDIT
}

/// The manifest counts are within their census.
pub open spec fn manifest_census_ok(s: ImplementsState) -> bool {
    &&& s.component_manifests@.len() <= MAX_IMPLEMENT_DEFINITIONS
    &&& s.charm_manifests@.len() <= MAX_IMPLEMENT_DEFINITIONS
    &&& s.migrated_legacy@.len() <= MAX_IMPLEMENT_INSTANCES
}

/// Entry `j` is the first component manifest that fails validation.
pub open spec fn first_bad_component(s: ImplementsState, j: int) -> bool {
    &&& 0 <= j < s.component_manifests@.len()
    &&& !spec_component_valid(s.component_manifests@[j].0@, s.component_manifests@[j].1)
    &&& forall|k: int| 0 <= k < j ==> spec_component_valid(#[trigger] s.component_manifests@[k].0@, s.component_manifests@[k].1)
}

/// Entry `j` is the first charm manifest that fails validation.
pub open spec fn first_bad_charm(s: ImplementsState, j: int) -> bool {
    &&& 0 <= j < s.charm_manifests@.len()
    &&& !spec_charm_valid(s.charm_manifests@[j].0@, s.charm_manifests@[j].1)
    &&& forall|k: int| 0 <= k < j ==> spec_charm_valid(#[trigger] s.charm_manifests@[k].0@, s.charm_manifests@[k].1)
}

/// The message a refused charm definition is reported with.
pub open spec fn charm_error_message(content_id: Seq<char>) -> Seq<char> {
    if !spec_bounded_text(content_id, MAX_IMPLEMENT_ID_BYTES) {
        content_id + ": charm identity exceeds its metadata budget"@
    } else {
        content_id + ": charm requires bounded capacity, debit, stability, and dross"@
    }
}

/// Entry `j` is the first legacy migration key over its budget.
pub open spec fn first_bad_legacy(s: ImplementsState, j: int) -> bool {
    &&& 0 <= j < s.migrated_legacy@.len()
    &&& !spec_bounded_text(s.migrated_legacy@[j]@, MAX_IMPLEMENT_AUDIT_TEXT_BYTES)
    &&& forall|k: int| 0 <= k < j ==> spec_bounded_text(#[trigger] s.migrated_legacy@[k]@, MAX_IMPLEMENT_AUDIT_TEXT_BYTES)
}

/// Entry `j` is the first audit event over its metadata budget.
pub open spec fn first_bad_event(s: ImplementsState, j: int) -> bool {
    &&& 0 <= j < s.audit@.len()
    &&& !spec_event_ok(s.audit@[j])
    &&& forall|k: int| 0 <= k < j ==> spec_event_ok(#[trigger] s.audit@[k])
}

/// Instance `j` is in order after the one before it.
pub open spec fn follows_previous(s: Seq<ImplementInstance>, j: int) -> bool {
    j == 0 || s[j - 1].instance_id < s[j].instance_id
}

/// Instance `j` is the first that is out of order or fails validation.
pub open spec fn first_bad_instance(s: ImplementsState, j: int) -> bool {
    &&& 0 <= j < s.instances@.len()
    &&& !(follows_previous(s.instances@, j) && spec_instance_ok(s.instances@[j]))
    &&& forall|k: int| 0 <= k < j ==> follows_previous(s.instances@, k) && spec_instance_ok(#[trigger] s.instances@[k])
}

/// Every check `validate` makes before the component manifests passes.
pub open spec fn checks_before_manifests(s: ImplementsState) -> bool {
    header_ok(s) && census_ok(s) && manifest_census_ok(s)
}

pub open spec fn components_ok(s: ImplementsState) -> bool {
    forall|k: int| 0 <= k < s.component_manifests@.len() ==> spec_component_valid(#[trigger] s.component_manifests@[k].0@, s.component_manifests@[k].1)
}

pub open spec fn charms_ok(s: ImplementsState) -> bool {
    forall|k: int| 0 <= k < s.charm_manifests@.len() ==> spec_charm_valid(#[trigger] s.charm_manifests@[k].0@, s.charm_manifests@[k].1)
}

pub open spec fn legacy_ok(s: ImplementsState) -> bool {
    forall|k: int| 0 <= k < s.migrated_legacy@.len() ==> spec_bounded_text(#[trigger] s.migrated_legacy@[k]@, MAX_IMPLEMENT_AUDIT_TEXT_BYTES)
}

pub open spec fn events_ok(s: ImplementsState) -> bool {
    forall|k: int| 0 <= k < s.audit@.len() ==> spec_event_ok(#[trigger] s.audit@[k])
}

/// What `validate` returns for `s`: `Ok` exactly when every bound holds,
/// otherwise the error of the first check that fails, in the order the
/// checks are made (the message of a failing instance is not stated here).
pub open spec fn spec_validated(s: ImplementsState, r: Result<(), ImplementError>) -> bool {
    &&& (r is Ok <==> spec_state_ok(s))
    &&& (!header_ok(s) ==> (r matches Err(ImplementError::Corrupt(m)) && m@ == "unsupported implements schema "@
        + spec_decimal(s.schema_version as nat) + "/"@ + spec_decimal(s.resolver_version as nat)))
    &&& (header_ok(s) && !census_ok(s) ==> (r matches Err(ImplementError::Corrupt(m)) && m@
        == "implements state exceeds its bounded census"@))
    &&& (header_ok(s) && census_ok(s) && !manifest_census_ok(s) ==> (r matches Err(ImplementError::Corrupt(m)) && m@
        == "implements manifests exceed their bounded census"@))
    &&& (forall|j: int|
        checks_before_manifests(s) && #[trigger] first_bad_component(s, j) ==> (r matches Err(
            ImplementError::Corrupt(m),
        ) && m@ == component_error_message(s.component_manifests@[j].0@, s.component_manifests@[j].1)))
    &&& (forall|j: int|
        checks_before_manifests(s) && components_ok(s) && #[trigger] first_bad_charm(s, j) ==> (r matches Err(
            ImplementError::Corrupt(m),
        ) && m@ == charm_error_message(s.charm_manifests@[j].0@)))
    &&& (forall|j: int|
        checks_before_manifests(s) && components_ok(s) && charms_ok(s) && #[trigger] first_bad_legacy(s, j)
            ==> (r matches Err(ImplementError::Corrupt(m)) && m@
            == "legacy implement migration key exceeds its metadata budget"@))
    &&& (forall|j: int|
        checks_before_manifests(s) && components_ok(s) && charms_ok(s) && legacy_ok(s)
            && #[trigger] first_bad_event(s, j) ==> (r matches Err(ImplementError::Corrupt(m)) && m@
            == "implement audit event "@ + spec_decimal(s.audit@[j].operation_id as nat)
            + " exceeds its metadata budget"@))
    &&& (forall|j: int|
        checks_before_manifests(s) && components_ok(s) && charms_ok(s) && legacy_ok(s)
            && events_ok(s) && #[trigger] first_bad_instance(s, j) && !follows_previous(s.instances@, j)
            ==> (r matches Err(ImplementError::Corrupt(m)) && m@ == "implement instance identity/content is invalid"@))
}

fn corrupt(text: &str) -> (r: ImplementError)
    ensures
        r matches ImplementError::Corrupt(m) && m@ == text@,
{
    ImplementError::Corrupt(String::from_str(text))
}

spec fn components_prefix_ok(cs: Seq<ImplementComponent>, c: int) -> bool {
    forall|k: int| 0 <= k < c ==> spec_bounded_text(#[trigger] cs[k].content_id@, MAX_IMPLEMENT_ID_BYTES)
        && spec_material_vector_ok(cs[k].materials@)
}

/// Check one instance against every durable bound but its encoded size.
pub fn validate_instance(instance: &ImplementInstance) -> (r: Result<(), ImplementError>)
    ensures
        r is Ok <==> spec_instance_ok(*instance),
{
    let id = instance.instance_id;
    if id == 0 || !bounded_text(instance.content_id.as_str(), MAX_IMPLEMENT_ID_BYTES)
        || !bounded_text(instance.provenance.as_str(), MAX_IMPLEMENT_PROVENANCE_BYTES)
        || instance.format_version != IMPLEMENT_RESOLVER_VERSION {
        return Err(corrupt("implement instance identity/content is invalid"));
    }
    if instance.wear > MAX_WAND_WEAR || instance.strain > MAX_WAND_STRAIN {
        return Err(ImplementError::Corrupt(message_with_id("implement ", id, " exceeds wear/strain bounds")));
    }
    if instance.construction.len() > MAX_IMPLEMENT_COMPONENTS {
        return Err(ImplementError::Corrupt(message_with_id("implement ", id, " exceeds its physical component budget")));
    }
    let mut c: usize = 0;
    while c < instance.construction.len()
        invariant
            c <= instance.construction@.len(),
            components_prefix_ok(instance.construction@, c as int),
        decreases instance.construction@.len() - c,
    {
        let component = &instance.construction[c];
        if !bounded_text(component.content_id.as_str(), MAX_IMPLEMENT_ID_BYTES) {
            return Err(ImplementError::Corrupt(message_with_id("implement ", id, " has an invalid physical component id")));
        }
        match validate_material_vector(&component.materials) {
            Ok(()) => {},
            Err(e) => {
                let mut m = message_with_id("implement ", id, " has invalid tracked matter: ");
                m.append(e.message());
                return Err(ImplementError::Corrupt(m));
            },
        }
        assert(components_prefix_ok(instance.construction@, c + 1)) by {
            assert forall|k: int| 0 <= k < c + 1 implies spec_bounded_text(#[trigger] instance.construction@[k].content_id@, MAX_IMPLEMENT_ID_BYTES)
                && spec_material_vector_ok(instance.construction@[k].materials@) by {
                if k < c {
                } else {
                    assert(k == c);
                }
            }
        }
        c = c + 1;
    }
    let totals = match instance.tracked_materials() {
        Ok(v) => v,
        Err(e) => {
            return Err(e);
        },
    };
    match validate_material_vector(&totals) {
        Ok(()) => {},
        Err(e) => {
            let mut m = message_with_id("implement ", id, " aggregate tracked matter is invalid: ");
            m.append(e.message());
            return Err(ImplementError::Corrupt(m));
        },
    }
    match validate_kind_bounds(id, &instance.kind, true) {
        Ok(()) => {},
        Err(e) => {
            return Err(e);
        },
    }
    match &instance.kind {
        ImplementKind::Wand { parts, .. } => {
            if !wand_construction_matches(parts, &instance.construction) {
                return Err(ImplementError::Corrupt(message_with_id("wand ", id, " construction does not match its resolved parts")));
            }
        },
        ImplementKind::Charm { .. } => {
            if instance.construction.len() == 0 {
                return Err(ImplementError::Corrupt(message_with_id("charm ", id, " has no physical construction")));
            }
        },
        ImplementKind::Vessel { .. } => {
            if instance.construction.len() != 1 {
                return Err(ImplementError::Corrupt(message_with_id("vessel ", id, " does not name exactly one physical shell")));
            }
        },
        ImplementKind::Fragments { pieces, .. } => {
            proof {
                reveal_strlit("base:implement_fragment");
            }
            if instance.construction.len() == 0 || *pieces as usize != instance.construction.len()
                || !str_eq(instance.content_id.as_str(), "base:implement_fragment") {
                return Err(ImplementError::Corrupt(message_with_id("fragment bundle ", id, " does not match its conserved construction")));
            }
        },
    }
    Ok(())
}

/// The limits on an instance's encoded size and on its public view's.
pub open spec fn spec_sizes_ok(instance_bytes: usize, public_bytes: usize) -> bool {
    instance_bytes <= MAX_IMPLEMENT_INSTANCE_BYTES && public_bytes <= MAX_IMPLEMENT_PUBLIC_BYTES
}

/// Check the encoded sizes of instance `id` and of its public view.
pub fn check_encoded_sizes(id: u64, instance_bytes: usize, public_bytes: usize) -> (r: Result<(), ImplementError>)
    ensures
        r is Ok <==> spec_sizes_ok(instance_bytes, public_bytes),
        r matches Err(e) ==> e is Corrupt,
{
    if instance_bytes > MAX_IMPLEMENT_INSTANCE_BYTES {
        let mut m = message_with_id("implement ", id, " metadata is ");
        push_decimal(&mut m, instance_bytes as u64);
        m.append(" bytes; limit is ");
        push_decimal(&mut m, MAX_IMPLEMENT_INSTANCE_BYTES as u64);
        return Err(ImplementError::Corrupt(m));
    }
    if public_bytes > MAX_IMPLEMENT_PUBLIC_BYTES {
        let mut m = message_with_id("implement ", id, " public metadata is ");
        push_decimal(&mut m, public_bytes as u64);
        m.append(" bytes; limit is ");
        push_decimal(&mut m, MAX_IMPLEMENT_PUBLIC_BYTES as u64);
        return Err(ImplementError::Corrupt(m));
    }
    Ok(())
}

pub open spec fn with_operation(s: ImplementsState, n: u64) -> ImplementsState {
    ImplementsState { next_operation_id: n, ..s }
}

impl ImplementsState {
    /// The sidecar of a world that has none yet.
    pub fn new(content_hash: u64) -> (r: ImplementsState)
        ensures
            r.schema_version == IMPLEMENTS_SCHEMA_VERSION,
            r.resolver_version == IMPLEMENT_RESOLVER_VERSION,
            r.content_hash == content_hash,
            r.next_operation_id == 1,
            r.instances@.len() == 0,
            r.component_manifests@.len() == 0,
            r.charm_manifests@.len() == 0,
            r.migrated_legacy@.len() == 0,
            r.audit@.len() == 0,
            spec_state_ok(r),
    {
        ImplementsState {
            schema_version: IMPLEMENTS_SCHEMA_VERSION,
            resolver_version: IMPLEMENT_RESOLVER_VERSION,
            content_hash,
            next_operation_id: 1,
            instances: Vec::new(),
            component_manifests: Vec::new(),
            charm_manifests: Vec::new(),
            migrated_legacy: Vec::new(),
            audit: std::collections::VecDeque::new(),
        }
    }

    /// Check every durable bound of the sidecar except encoded sizes, which
    /// `check_encoded_sizes` checks once the caller has measured them.
    pub fn validate(&self) -> (r: Result<(), ImplementError>)
        ensures
            spec_validated(*self, r),
    {
        if self.schema_version != IMPLEMENTS_SCHEMA_VERSION || self.resolver_version != IMPLEMENT_RESOLVER_VERSION {
            let mut m = String::from_str("unsupported implements schema ");
            push_decimal(&mut m, self.schema_version as u64);
            m.append("/");
            push_decimal(&mut m, self.resolver_version as u64);
            return Err(ImplementError::Corrupt(m));
        }
        if self.instances.len() > MAX_IMPLEMENT_INSTANCES || self.audit.len() > MAX_IMPLEMENT_AUDIT {
            return Err(corrupt("implements state exceeds its bounded census"));
        }
        if self.component_manifests.len() > MAX_IMPLEMENT_DEFINITIONS || self.charm_manifests.len() > MAX_IMPLEMENT_DEFINITIONS
            || self.migrated_legacy.len() > MAX_IMPLEMENT_INSTANCES {
            return Err(corrupt("implements manifests exceed their bounded census"));
        }
        let mut i: usize = 0;
        while i < self.component_manifests.len()
            invariant
                i <= self.component_manifests@.len(),
                checks_before_manifests(*self),
                forall|k: int| 0 <= k < i ==> spec_component_valid(#[trigger] self.component_manifests@[k].0@, self.component_manifests@[k].1),
            decreases self.component_manifests@.len() - i,
        {
            match validate_component(self.component_manifests[i].0.as_str(), &self.component_manifests[i].1) {
                Ok(()) => {},
                Err(e) => {
                    return Err(ImplementError::Corrupt(String::from_str(e.message())));
                },
            }
            i = i + 1;
        }
        let mut i: usize = 0;
        while i < self.charm_manifests.len()
            invariant
                i <= self.charm_manifests@.len(),
                checks_before_manifests(*self),
                components_ok(*self),
                forall|k: int| 0 <= k < i ==> spec_charm_valid(#[trigger] self.charm_manifests@[k].0@, self.charm_manifests@[k].1),
            decreases self.charm_manifests@.len() - i,
        {
            match validate_charm(self.charm_manifests[i].0.as_str(), &self.charm_manifests[i].1) {
                Ok(()) => {},
                Err(e) => {
                    return Err(ImplementError::Corrupt(String::from_str(e.message())));
                },
            }
            i = i + 1;
        }
        let mut i: usize = 0;
        while i < self.migrated_legacy.len()
            invariant
                i <= self.migrated_legacy@.len(),
                checks_before_manifests(*self),
                components_ok(*self),
                charms_ok(*self),
                forall|k: int| 0 <= k < i ==> spec_bounded_text(#[trigger] self.migrated_legacy@[k]@, MAX_IMPLEMENT_AUDIT_TEXT_BYTES),
            decreases self.migrated_legacy@.len() - i,
        {
            if !bounded_text(self.migrated_legacy[i].as_str(), MAX_IMPLEMENT_AUDIT_TEXT_BYTES) {
                return Err(corrupt("legacy implement migration key exceeds its metadata budget"));
            }
            i = i + 1;
        }
        let mut i: usize = 0;
        while i < self.audit.len()
            invariant
                i <= self.audit@.len(),
                checks_before_manifests(*self),
                components_ok(*self),
                charms_ok(*self),
                legacy_ok(*self),
                forall|k: int| 0 <= k < i ==> spec_event_ok(#[trigger] self.audit@[k]),
            decreases self.audit@.len() - i,
        {
            let event = &self.audit[i];
            if !bounded_text(event.kind.as_str(), MAX_IMPLEMENT_ID_BYTES) || !bounded_text(event.actor.as_str(), MAX_IMPLEMENT_PROVENANCE_BYTES)
                || !bounded_text(event.note.as_str(), MAX_IMPLEMENT_AUDIT_TEXT_BYTES) {
                return Err(ImplementError::Corrupt(message_with_id("implement audit event ", event.operation_id, " exceeds its metadata budget")));
            }
            i = i + 1;
        }
        let mut i: usize = 0;
        while i < self.instances.len()
            invariant
                i <= self.instances@.len(),
                checks_before_manifests(*self),
                components_ok(*self),
                charms_ok(*self),
                legacy_ok(*self),
                events_ok(*self),
                forall|k: int| 0 <= k < i ==> spec_instance_ok(#[trigger] self.instances@[k]),
                forall|a: int, b: int| 0 <= a < b < i ==> self.instances@[a].instance_id < self.instances@[b].instance_id,
            decreases self.instances@.len() - i,
        {
            if i > 0 && self.instances[i - 1].instance_id >= self.instances[i].instance_id {
                return Err(corrupt("implement instance identity/content is invalid"));
            }
            match validate_instance(&self.instances[i]) {
                Ok(()) => {},
                Err(e) => {
                    return Err(e);
                },
            }
            i = i + 1;
        }
        Ok(())
    }

    /// Take the next operation id; refused when the counter would overflow.
    pub fn operation_id(&mut self) -> (r: Result<u64, ImplementError>)
        ensures
            old(self).next_operation_id == u64::MAX ==> *final(self) == *old(self)
                && (r matches Err(ImplementError::Corrupt(m)) && m@ == "implement operation id overflow"@),
            old(self).next_operation_id < u64::MAX ==> r == Ok::<u64, ImplementError>(old(self).next_operation_id)
                && final(self).next_operation_id == old(self).next_operation_id + 1,
            *final(self) == with_operation(*old(self), final(self).next_operation_id),
    {
        let id = self.next_operation_id;
        match self.next_operation_id.checked_add(1) {
            Some(n) => {
                self.next_operation_id = n;
                Ok(id)
            },
            None => Err(corrupt("implement operation id overflow")),
        }
    }
}

/// The last `n` entries of `s`, or all of them when there are fewer.
pub open spec fn keep_last<T>(s: Seq<T>, n: nat) -> Seq<T> {
    if s.len() > n {
        s.subrange(s.len() - n, s.len() as int)
    } else {
        s
    }
}

/// The position of instance `id` in an instance sequence, if it is there.
pub open spec fn instance_index(s: Seq<ImplementInstance>, id: u64) -> Option<int> {
    if exists|k: int| 0 <= k < s.len() && #[trigger] s[k].instance_id == id {
        Some(choose|k: int| 0 <= k < s.len() && #[trigger] s[k].instance_id == id)
    } else {
        None
    }
}

pub open spec fn has_instance(s: Seq<ImplementInstance>, id: u64) -> bool {
    exists|k: int| 0 <= k < s.len() && #[trigger] s[k].instance_id == id
}

/// The instances whose physical owner still has a Current account.
pub open spec fn accounted_instances(s: Seq<ImplementInstance>, accounted: Seq<u64>) -> Seq<ImplementInstance> {
    s.filter(|x: ImplementInstance| accounted.contains(x.instance_id))
}

pub open spec fn with_audit(s: ImplementsState, a: std::collections::VecDeque<ImplementAuditEvent>) -> ImplementsState {
    ImplementsState { audit: a, ..s }
}

pub open spec fn with_instances(s: ImplementsState, v: Vec<ImplementInstance>) -> ImplementsState {
    ImplementsState { instances: v, ..s }
}

/// The note of a crash-recovery event that removed `n` orphaned records.
pub open spec fn spec_recovery_note(n: nat) -> Seq<char> {
    "removed "@ + spec_decimal(n)
        + " construction record(s) whose unpersisted physical owner was rolled back by the Current ledger"@
}

impl ImplementsState {
    /// Append an audit event, keeping only the newest `MAX_IMPLEMENT_AUDIT`.
    pub fn record(&mut self, event: ImplementAuditEvent)
        ensures
            final(self).audit@ == keep_last(old(self).audit@.push(event), MAX_IMPLEMENT_AUDIT as nat),
            *final(self) == with_audit(*old(self), final(self).audit),
    {
        let ghost pushed = self.audit@.push(event);
        self.audit.push_back(event);
        while self.audit.len() > MAX_IMPLEMENT_AUDIT
            invariant
                pushed.len() >= self.audit@.len(),
                self.audit@ == pushed.subrange(pushed.len() - self.audit@.len(), pushed.len() as int),
                self.audit@.len() > MAX_IMPLEMENT_AUDIT ==> pushed.len() > MAX_IMPLEMENT_AUDIT,
                self.audit@.len() >= MAX_IMPLEMENT_AUDIT || self.audit@ == pushed,
                *self == with_audit(*old(self), self.audit),
            decreases self.audit@.len(),
        {
            self.audit.pop_front();
        }
        proof {
            if pushed.len() <= MAX_IMPLEMENT_AUDIT {
                assert(self.audit@ == pushed);
            } else {
                assert(self.audit@.len() == MAX_IMPLEMENT_AUDIT);
            }
        }
    }

    /// The instance with identity `id`.
    pub fn instance(&self, id: u64) -> (r: Option<&ImplementInstance>)
        requires
            ids_ascending(self.instances@),
        ensures
            match r {
                Some(x) => has_instance(self.instances@, id) && *x == self.instances@[instance_index(self.instances@, id).unwrap()],
                None => !has_instance(self.instances@, id),
            },
            r matches Some(x) ==> x.instance_id == id,
    {
        let mut k: usize = 0;
        while k < self.instances.len()
            invariant
                k <= self.instances@.len(),
                ids_ascending(self.instances@),
                forall|j: int| 0 <= j < k ==> #[trigger] self.instances@[j].instance_id != id,
            decreases self.instances@.len() - k,
        {
            if self.instances[k].instance_id == id {
                proof {
                    let c = choose|j: int| 0 <= j < self.instances@.len() && #[trigger] self.instances@[j].instance_id == id;
                    if c != k as int {
                        if c < k {
                        } else {
                            assert(self.instances@[k as int].instance_id < self.instances@[c].instance_id);
                        }
                    }
                }
                return Some(&self.instances[k]);
            }
            k = k + 1;
        }
        None
    }

    /// Add an instance at its place in id order, then check the whole state.
    /// Refused, and nothing changes, when the id is zero or already present
    /// or the census is full.
    pub fn insert(&mut self, instance: ImplementInstance) -> (r: Result<(), ImplementError>)
        ensures
            instance.instance_id == 0 || has_instance(old(self).instances@, instance.instance_id) ==> *final(self) == *old(self)
                && (r matches Err(ImplementError::InvalidOperation(m)) && m@ == "implement identity is zero or already exists"@),
            !(instance.instance_id == 0 || has_instance(old(self).instances@, instance.instance_id))
                && old(self).instances@.len() >= MAX_IMPLEMENT_INSTANCES ==> *final(self) == *old(self)
                && (r matches Err(ImplementError::InvalidOperation(m)) && m@ == "world implement census is full"@),
            !(instance.instance_id == 0 || has_instance(old(self).instances@, instance.instance_id))
                && old(self).instances@.len() < MAX_IMPLEMENT_INSTANCES ==> {
                &&& *final(self) == with_instances(*old(self), final(self).instances)
                &&& exists|p: int| 0 <= p <= old(self).instances@.len()
                    && final(self).instances@ == old(self).instances@.insert(p, instance)
                    && (forall|j: int| 0 <= j < p ==> #[trigger] old(self).instances@[j].instance_id < instance.instance_id)
                    && (p < old(self).instances@.len() ==> old(self).instances@[p].instance_id > instance.instance_id)
                &&& spec_validated(*final(self), r)
            },
            ids_ascending(old(self).instances@) && !(instance.instance_id == 0 || has_instance(old(self).instances@, instance.instance_id))
                && old(self).instances@.len() < MAX_IMPLEMENT_INSTANCES ==> ids_ascending(final(self).instances@)
                && has_instance(final(self).instances@, instance.instance_id)
                && final(self).instances@[instance_index(final(self).instances@, instance.instance_id).unwrap()] == instance,
    {
        let id = instance.instance_id;
        let n = self.instances.len();
        let mut k: usize = 0;
        let mut present = false;
        while k < n
            invariant
                n == self.instances@.len(),
                k <= n,
                present <==> exists|j: int| 0 <= j < k && #[trigger] self.instances@[j].instance_id == id,
            decreases n - k,
        {
            if self.instances[k].instance_id == id {
                present = true;
            }
            k = k + 1;
        }
        if id == 0 || present {
            return Err(ImplementError::InvalidOperation(String::from_str("implement identity is zero or already exists")));
        }
        if n >= MAX_IMPLEMENT_INSTANCES {
            return Err(ImplementError::InvalidOperation(String::from_str("world implement census is full")));
        }
        let mut p: usize = 0;
        while p < n && self.instances[p].instance_id < id
            invariant
                n == self.instances@.len(),
                p <= n,
                forall|j: int| 0 <= j < p ==> #[trigger] self.instances@[j].instance_id < id,
            decreases n - p,
        {
            p = p + 1;
        }
        proof {
            if p < n {
                assert(self.instances@[p as int].instance_id != id);
            }
        }
        let ghost before = self.instances@;
        let ghost inst = instance;
        self.instances.insert(p, instance);
        proof {
            let after = self.instances@;
            assert(after[p as int] == inst);
            if ids_ascending(before) {
                assert forall|a: int, b: int| 0 <= a < b < after.len() implies after[a].instance_id < after[b].instance_id by {
                    if b < p {
                    } else if b == p {
                    } else if a < p {
                        assert(after[b] == before[b - 1]);
                        if p < before.len() {
                            assert(before[p as int].instance_id > id);
                            if b - 1 > p {
                                assert(before[p as int].instance_id < before[b - 1].instance_id);
                            }
                        }
                    } else if a == p {
                        assert(after[b] == before[b - 1]);
                        if b - 1 > p {
                            assert(before[p as int].instance_id < before[b - 1].instance_id);
                        }
                    } else {
                        assert(after[a] == before[a - 1]);
                        assert(after[b] == before[b - 1]);
                    }
                }
                assert(has_instance(after, id));
                let c = choose|j: int| 0 <= j < after.len() && #[trigger] after[j].instance_id == id;
                if c != p as int {
                    if c < p {
                        assert(after[c].instance_id < after[p as int].instance_id);
                    } else {
                        assert(after[p as int].instance_id < after[c].instance_id);
                    }
                }
            }
        }
        self.validate()
    }
}

fn contains_id(ids: &Vec<u64>, id: u64) -> (r: bool)
    ensures
        r == ids@.contains(id),
{
    let mut k: usize = 0;
    while k < ids.len()
        invariant
            k <= ids@.len(),
            forall|j: int| 0 <= j < k ==> ids@[j] != id,
        decreases ids@.len() - k,
    {
        if ids[k] == id {
            return true;
        }
        k = k + 1;
    }
    false
}

impl ImplementsState {
    /// Remove the construction records whose physical owner has neither an
    /// item account nor an item-dross account in the Current ledger any more
    /// (`accounted` lists the owner ids that still have one), and record one
    /// crash-recovery event for them. Returns how many were removed; nothing
    /// changes when none is orphaned. No charge is ever reconstructed.
    pub fn reconcile_ledger(&mut self, accounted: &Vec<u64>) -> (r: Result<usize, ImplementError>)
        ensures
            ({
                let kept = accounted_instances(old(self).instances@, accounted@);
                let n = old(self).instances@.len() - kept.len();
                &&& n == 0 ==> final(self).instances@ == old(self).instances@
                    && *final(self) == with_instances(*old(self), final(self).instances) && r == Ok::<usize, ImplementError>(0)
                &&& n > 0 ==> {
                    &&& final(self).instances@ == kept
                    &&& old(self).next_operation_id == u64::MAX ==> *final(self) == with_instances(*old(self), final(self).instances)
                        && (r matches Err(ImplementError::Corrupt(m)) && m@ == "implement operation id overflow"@)
                    &&& old(self).next_operation_id < u64::MAX ==> {
                        &&& final(self).next_operation_id == old(self).next_operation_id + 1
                        &&& final(self).audit@ == keep_last(old(self).audit@.push(final(self).audit@.last()), MAX_IMPLEMENT_AUDIT as nat)
                        &&& final(self).audit@.last().operation_id == old(self).next_operation_id
                        &&& final(self).audit@.last().kind@ == "crash_recovery"@
                        &&& final(self).audit@.last().instance_id == 0
                        &&& final(self).audit@.last().units == 0
                        &&& final(self).audit@.last().dross == 0
                        &&& final(self).audit@.last().actor@ == "system"@
                        &&& final(self).audit@.last().note@ == spec_recovery_note(n as nat)
                        &&& final(self).schema_version == old(self).schema_version
                        &&& final(self).resolver_version == old(self).resolver_version
                        &&& final(self).content_hash == old(self).content_hash
                        &&& final(self).component_manifests == old(self).component_manifests
                        &&& final(self).charm_manifests == old(self).charm_manifests
                        &&& final(self).migrated_legacy == old(self).migrated_legacy
                        &&& (r is Ok <==> spec_state_ok(*final(self)))
                        &&& r is Ok ==> r == Ok::<usize, ImplementError>(n as usize)
                    }
                }
            }),
    {
        let ghost pred = |x: ImplementInstance| accounted@.contains(x.instance_id);
        let mut rest: Vec<ImplementInstance> = Vec::new();
        std::mem::swap(&mut rest, &mut self.instances);
        let ghost orig = rest@;
        let mut kept: Vec<ImplementInstance> = Vec::new();
        let mut removed: usize = 0;
        let ghost mut i: int = 0;
        assert(orig.take(0) =~= Seq::<ImplementInstance>::empty());
        proof {
            reveal(Seq::filter);
        }
        let total: usize = rest.len();
        while rest.len() > 0
            invariant
                0 <= i <= orig.len(),
                orig.len() == total,
                rest@ == orig.skip(i),
                kept@ == orig.take(i).filter(pred),
                removed == i - kept@.len(),
                kept@.len() <= i,
                pred == (|x: ImplementInstance| accounted@.contains(x.instance_id)),
            decreases rest@.len(),
        {
            let entry = rest.remove(0);
            proof {
                assert(entry == orig[i]);
                assert(orig.take(i + 1) =~= orig.take(i).push(orig[i]));
                orig.take(i).lemma_filter_push(orig[i], pred);
                assert(rest@ =~= orig.skip(i + 1));
            }
            if contains_id(accounted, entry.instance_id) {
                kept.push(entry);
            } else {
                removed = removed + 1;
            }
            proof {
                i = i + 1;
            }
        }
        proof {
            assert(orig.take(i) =~= orig);
        }
        if removed == 0 {
            proof {
                lemma_filter_all_kept(orig, pred);
            }
            self.instances = kept;
            return Ok(0);
        }
        self.instances = kept;
        let operation_id = match self.operation_id() {
            Ok(v) => v,
            Err(e) => {
                return Err(e);
            },
        };
        let mut note = String::from_str("removed ");
        push_decimal(&mut note, removed as u64);
        note.append(" construction record(s) whose unpersisted physical owner was rolled back by the Current ledger");
        let event = ImplementAuditEvent {
            operation_id,
            kind: String::from_str("crash_recovery"),
            instance_id: 0,
            units: 0,
            dross: 0,
            actor: String::from_str("system"),
            note,
        };
        self.record(event);
        match self.validate() {
            Ok(()) => Ok(removed),
            Err(e) => Err(e),
        }
    }
}

proof fn lemma_filter_all_kept(s: Seq<ImplementInstance>, pred: spec_fn(ImplementInstance) -> bool)
    requires
        s.filter(pred).len() == s.len(),
    ensures
        s.filter(pred) == s,
    decreases s.len(),
{
    reveal(Seq::filter);
    if s.len() > 0 {
        let p = s.drop_last();
        p.lemma_filter_len(pred);
        if !pred(s.last()) {
            assert(s.filter(pred) == p.filter(pred));
        }
        lemma_filter_all_kept(p, pred);
        assert(s =~= p.push(s.last()));
    }
}

// ---------------------------------------------------------------------------
// Operator evidence.

/// Closed-world operator evidence for implement metadata and its parent
/// Current custody. Saved component manifests stay authoritative after a
/// content pack is removed, so nothing here depends on loaded content.
#[derive(Clone, Debug, Eq, PartialEq)]
pub struct ImplementsAudit {
    pub schema_version: u32,
    pub resolver_version: u32,
    pub content_hash: u64,
    pub file_bytes: u64,
    pub instances: usize,
    pub wands: usize,
    pub charms: usize,
    pub vessels: usize,
    pub fragment_bundles: usize,
    pub creative_marked: usize,
    pub clean_current: u64,
    pub retained_dross: u64,
    pub tracked_material_units: u64,
    pub missing_accounts: usize,
    pub content_mismatches: usize,
    pub over_capacity: usize,
    pub max_instance_bytes: usize,
    pub max_public_bytes: usize,
    pub audit_events: usize,
    pub arcane_balanced: bool,
    pub material_balanced: bool,
}

pub open spec fn spec_implements_qualified(a: ImplementsAudit) -> bool {
    &&& a.schema_version == IMPLEMENTS_SCHEMA_VERSION
    &&& a.resolver_version == IMPLEMENT_RESOLVER_VERSION
    &&& a.file_bytes <= MAX_IMPLEMENT_FILE_BYTES
    &&& a.instances <= MAX_IMPLEMENT_INSTANCES
    &&& a.missing_accounts == 0
    &&& a.content_mismatches == 0
    &&& a.over_capacity == 0
    &&& a.max_instance_bytes <= MAX_IMPLEMENT_INSTANCE_BYTES
    &&& a.max_public_bytes <= MAX_IMPLEMENT_PUBLIC_BYTES
    &&& a.audit_events <= MAX_IMPLEMENT_AUDIT
    &&& a.arcane_balanced
    &&& a.material_balanced
}

/// An implements audit is qualified only when nothing is wrong: every
/// instance has a Current account and matching content, none holds more
/// than its capacity, every size and count is within its bound, the schema
/// is current and both parent ledgers balance; and an audit meeting all of
/// that is qualified.
pub proof fn lemma_implements_qualified_iff_clean(a: ImplementsAudit)
    ensures
        spec_implements_qualified(a) ==> a.over_capacity == 0,
        spec_implements_qualified(a) ==> a.missing_accounts == 0,
        spec_implements_qualified(a) ==> a.content_mismatches == 0,
        spec_implements_qualified(a) ==> a.schema_version == IMPLEMENTS_SCHEMA_VERSION && a.resolver_version
            == IMPLEMENT_RESOLVER_VERSION,
        spec_implements_qualified(a) ==> a.file_bytes <= MAX_IMPLEMENT_FILE_BYTES && a.instances
            <= MAX_IMPLEMENT_INSTANCES,
        spec_implements_qualified(a) ==> a.max_instance_bytes <= MAX_IMPLEMENT_INSTANCE_BYTES && a.max_public_bytes
            <= MAX_IMPLEMENT_PUBLIC_BYTES && a.audit_events <= MAX_IMPLEMENT_AUDIT,
        spec_implements_qualified(a) ==> a.arcane_balanced && a.material_balanced,
        a.schema_version == IMPLEMENTS_SCHEMA_VERSION && a.resolver_version == IMPLEMENT_RESOLVER_VERSION
            && a.file_bytes <= MAX_IMPLEMENT_FILE_BYTES && a.instances <= MAX_IMPLEMENT_INSTANCES
            && a.missing_accounts == 0 && a.content_mismatches == 0 && a.over_capacity == 0
            && a.max_instance_bytes <= MAX_IMPLEMENT_INSTANCE_BYTES && a.max_public_bytes <= MAX_IMPLEMENT_PUBLIC_BYTES
            && a.audit_events <= MAX_IMPLEMENT_AUDIT && a.arcane_balanced && a.material_balanced
            ==> spec_implements_qualified(a),
{
}

pub open spec fn dec(n: int) -> Seq<char> {
    spec_decimal(n as nat)
}

/// The operator report of an implements audit, line by line.
pub open spec fn spec_implements_render(a: ImplementsAudit) -> Seq<char> {
    "Implements audit schema "@ + dec(a.schema_version as int) + " resolver "@ + dec(a.resolver_version as int) + "\n"@
        + "Content hash: "@ + spec_hex_fixed(a.content_hash as nat, 16) + "\n"@
        + "Sidecar: "@ + dec(a.file_bytes as int) + " / "@ + dec(MAX_IMPLEMENT_FILE_BYTES as int) + " bytes\n"@
        + "Instances: "@ + dec(a.instances as int) + " ("@ + dec(a.wands as int) + " wands, "@ + dec(a.charms as int)
        + " charms, "@ + dec(a.vessels as int) + " vessels, "@ + dec(a.fragment_bundles as int) + " fragment bundles; "@
        + dec(a.creative_marked as int) + " creative-marked)\n"@
        + "Custody: "@ + dec(a.clean_current as int) + " clean Current, "@ + dec(a.retained_dross as int) + " retained dross\n"@
        + "Tracked construction matter: "@ + dec(a.tracked_material_units as int) + " material units\n"@
        + "Integrity: "@ + dec(a.missing_accounts as int) + " missing accounts, "@ + dec(a.content_mismatches as int)
        + " content mismatches, "@ + dec(a.over_capacity as int) + " over capacity\n"@
        + "Metadata: max instance "@ + dec(a.max_instance_bytes as int) + " / "@ + dec(MAX_IMPLEMENT_INSTANCE_BYTES as int)
        + " bytes, max public "@ + dec(a.max_public_bytes as int) + " / "@ + dec(MAX_IMPLEMENT_PUBLIC_BYTES as int) + " bytes\n"@
        + "Audit events: "@ + dec(a.audit_events as int) + " / "@ + dec(MAX_IMPLEMENT_AUDIT as int) + "\n"@
        + "Parent arcane audit balanced: "@ + spec_bool_word(a.arcane_balanced) + "\n"@
        + "Parent material audit balanced: "@ + spec_bool_word(a.material_balanced) + "\n"@
        + "Qualified: "@ + spec_bool_word(spec_implements_qualified(a)) + "\n"@
}

impl ImplementsAudit {
    /// Whether the sidecar is within every bound and its parent ledgers balance.
    pub fn is_qualified(&self) -> (r: bool)
        ensures
            r == spec_implements_qualified(*self),
    {
        self.schema_version == IMPLEMENTS_SCHEMA_VERSION && self.resolver_version == IMPLEMENT_RESOLVER_VERSION
            && self.file_bytes <= MAX_IMPLEMENT_FILE_BYTES && self.instances <= MAX_IMPLEMENT_INSTANCES
            && self.missing_accounts == 0 && self.content_mismatches == 0 && self.over_capacity == 0
            && self.max_instance_bytes <= MAX_IMPLEMENT_INSTANCE_BYTES && self.max_public_bytes <= MAX_IMPLEMENT_PUBLIC_BYTES
            && self.audit_events <= MAX_IMPLEMENT_AUDIT && self.arcane_balanced && self.material_balanced
    }

    /// The operator report.
    pub fn render(&self) -> (r: String)
        ensures
            r@ == spec_implements_render(*self),
    {
        let mut m = String::from_str("Implements audit schema ");
        push_decimal(&mut m, self.schema_version as u64);
        m.append(" resolver ");
        push_decimal(&mut m, self.resolver_version as u64);
        m.append("\n");
        m.append("Content hash: ");
        push_hex_fixed(&mut m, self.content_hash, 16);
        m.append("\n");
        m.append("Sidecar: ");
        push_decimal(&mut m, self.file_bytes);
        m.append(" / ");
        push_decimal(&mut m, MAX_IMPLEMENT_FILE_BYTES);
        m.append(" bytes\n");
        m.append("Instances: ");
        push_decimal(&mut m, self.instances as u64);
        m.append(" (");
        push_decimal(&mut m, self.wands as u64);
        m.append(" wands, ");
        push_decimal(&mut m, self.charms as u64);
        m.append(" charms, ");
        push_decimal(&mut m, self.vessels as u64);
        m.append(" vessels, ");
        push_decimal(&mut m, self.fragment_bundles as u64);
        m.append(" fragment bundles; ");
        push_decimal(&mut m, self.creative_marked as u64);
        m.append(" creative-marked)\n");
        m.append("Custody: ");
        push_decimal(&mut m, self.clean_current);
        m.append(" clean Current, ");
        push_decimal(&mut m, self.retained_dross);
        m.append(" retained dross\n");
        m.append("Tracked construction matter: ");
        push_decimal(&mut m, self.tracked_material_units);
        m.append(" material units\n");
        m.append("Integrity: ");
        push_decimal(&mut m, self.missing_accounts as u64);
        m.append(" missing accounts, ");
        push_decimal(&mut m, self.content_mismatches as u64);
        m.append(" content mismatches, ");
        push_decimal(&mut m, self.over_capacity as u64);
        m.append(" over capacity\n");
        m.append("Metadata: max instance ");
        push_decimal(&mut m, self.max_instance_bytes as u64);
        m.append(" / ");
        push_decimal(&mut m, MAX_IMPLEMENT_INSTANCE_BYTES as u64);
        m.append(" bytes, max public ");
        push_decimal(&mut m, self.max_public_bytes as u64);
        m.append(" / ");
        push_decimal(&mut m, MAX_IMPLEMENT_PUBLIC_BYTES as u64);
        m.append(" bytes\n");
        m.append("Audit events: ");
        push_decimal(&mut m, self.audit_events as u64);
        m.append(" / ");
        push_decimal(&mut m, MAX_IMPLEMENT_AUDIT as u64);
        m.append("\n");
        m.append("Parent arcane audit balanced: ");
        m.append(bool_word(self.arcane_balanced));
        m.append("\n");
        m.append("Parent material audit balanced: ");
        m.append(bool_word(self.material_balanced));
        m.append("\n");
        m.append("Qualified: ");
        m.append(bool_word(self.is_qualified()));
        m.append("\n");
        m
    }
}

} // verus!
