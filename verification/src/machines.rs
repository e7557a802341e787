//! The closed set of native machine handlers that data-driven machine kinds
//! bind to.

use vstd::prelude::*;
use crate::text::{str_eq, contains_char};

verus! {

pub const COLON: char = ':';

/// The closed native machine handlers. Each handler drives one engine
/// behavior set; a declared machine kind binds to exactly one of them.
#[derive(Clone, Copy, PartialEq, Eq, Debug, Hash, Structural)]
pub enum MachineHandler {
    Bloomery,
    Forge,
    Kiln,
    Separator,
    Workbench,
}

pub open spec fn spec_handler_name(h: MachineHandler) -> Seq<char> {
    match h {
        MachineHandler::Bloomery => "bloomery"@,
        MachineHandler::Forge => "forge"@,
        MachineHandler::Kiln => "kiln"@,
        MachineHandler::Separator => "separator"@,
        MachineHandler::Workbench => "workbench"@,
    }
}

impl MachineHandler {
    /// Every handler, in declaration order.
    pub fn all() -> (r: [MachineHandler; 5])
        ensures
            r@ == seq![MachineHandler::Bloomery, MachineHandler::Forge, MachineHandler::Kiln,
                MachineHandler::Separator, MachineHandler::Workbench],
    {
        [
            MachineHandler::Bloomery,
            MachineHandler::Forge,
            MachineHandler::Kiln,
            MachineHandler::Separator,
            MachineHandler::Workbench,
        ]
    }

    pub fn name(self) -> (r: &'static str)
        ensures
            r@ == spec_handler_name(self),
    {
        match self {
            MachineHandler::Bloomery => "bloomery",
            MachineHandler::Forge => "forge",
            MachineHandler::Kiln => "kiln",
            MachineHandler::Separator => "separator",
            MachineHandler::Workbench => "workbench",
        }
    }

    /// The handler whose name is `name`, if any.
    pub fn from_name(name: &str) -> (r: Option<MachineHandler>)
        ensures
            match r {
                Some(h) => spec_handler_name(h) == name@,
                None => forall|h: MachineHandler| spec_handler_name(h) != name@,
            },
    {
        let all = Self::all();
        let mut i: usize = 0;
        while i < 5
            invariant
                all@ == seq![MachineHandler::Bloomery, MachineHandler::Forge, MachineHandler::Kiln,
                    MachineHandler::Separator, MachineHandler::Workbench],
                i <= 5,
                forall|j: int| 0 <= j < i ==> spec_handler_name(#[trigger] all@[j]) != name@,
            decreases 5 - i,
        {
            let handler = all[i];
            if str_eq(handler.name(), name) {
                return Some(handler);
            }
            i = i + 1;
        }
        assert forall|h: MachineHandler| spec_handler_name(h) != name@ by {
            match h {
                MachineHandler::Bloomery => assert(all@[0] == h),
                MachineHandler::Forge => assert(all@[1] == h),
                MachineHandler::Kiln => assert(all@[2] == h),
                MachineHandler::Separator => assert(all@[3] == h),
                MachineHandler::Workbench => assert(all@[4] == h),
            }
        }
        None
    }

    /// Whether this handler fires a lit face and must be lit with an ember.
    pub fn has_fire(self) -> (r: bool)
        ensures
            r == (self == MachineHandler::Bloomery || self == MachineHandler::Forge
                || self == MachineHandler::Kiln),
    {
        match self {
            MachineHandler::Bloomery | MachineHandler::Forge | MachineHandler::Kiln => true,
            _ => false,
        }
    }

    /// Whether this handler is hand-fed: inputs go in and outputs come out
    /// by hand, with no container screen.
    pub fn hand_fed(self) -> (r: bool)
        ensures
            r == (self == MachineHandler::Separator),
    {
        self == MachineHandler::Separator
    }

    /// Whether this handler is a recipe-list station.
    pub fn is_station(self) -> (r: bool)
        ensures
            r == (self == MachineHandler::Workbench),
    {
        self == MachineHandler::Workbench
    }

    /// Whether a chimney over the core upgrades this kind.
    pub fn reads_chimney(self) -> (r: bool)
        ensures
            r == (self == MachineHandler::Kiln),
    {
        self == MachineHandler::Kiln
    }

    /// Whether a chimney and an anvil must sit within the shell for this
    /// kind to validate.
    pub fn requires_anvil(self) -> (r: bool)
        ensures
            r == (self == MachineHandler::Forge),
    {
        self == MachineHandler::Forge
    }
}

/// Distinct handlers carry distinct names.
pub proof fn lemma_handler_names_distinct(a: MachineHandler, b: MachineHandler)
    ensures
        spec_handler_name(a) == spec_handler_name(b) ==> a == b,
{
    reveal_strlit("bloomery");
    reveal_strlit("forge");
    reveal_strlit("kiln");
    reveal_strlit("separator");
    reveal_strlit("workbench");
    if spec_handler_name(a) == spec_handler_name(b) && a != b {
        let x = spec_handler_name(a);
        let y = spec_handler_name(b);
        assert(x.len() == y.len());
        assert(x[0] == y[0]);
        assert(x[1] == y[1]);
        assert(false);
    }
}

/// Looking a handler up by its own name gives the handler back, and a name
/// that no handler carries finds nothing.
pub proof fn lemma_handler_name_round_trip(h: MachineHandler, r: Option<MachineHandler>)
    requires
        r is Some ==> spec_handler_name(r->0) == spec_handler_name(h),
        r is None ==> forall|g: MachineHandler| #[trigger] spec_handler_name(g) != spec_handler_name(h),
    ensures
        r == Some(h),
{
    if r is Some {
        lemma_handler_names_distinct(r->0, h);
    } else {
        let name = spec_handler_name(h);
        assert(spec_handler_name(h) != name);
    }
}

/// A content id qualified by its mod: a name that already names a mod is kept.
pub open spec fn spec_qualify(modid: Seq<char>, name: Seq<char>) -> Seq<char> {
    if name.contains(COLON) {
        name
    } else {
        modid + seq![COLON] + name
    }
}

/// A content id qualified by its mod.
pub fn qualify(modid: &str, name: &str) -> (r: String)
    ensures
        r@ == spec_qualify(modid@, name@),
{
    if contains_char(name, COLON) {
        String::from_str(name)
    } else {
        proof {
            reveal_strlit(":");
        }
        let mut out = String::from_str(modid);
        out.append(":");
        out
            .append(name);
        assert(out@ =~= modid@ + seq![COLON] + name@);
        out
    }
}

pub const MACHINES_SCHEMA_VERSION: u32 = 1;

/// One `[[machine]]` entry as a mod declares it. Whether its fire time is
/// negative is all that resolution reads of that number; the caller keeps
/// the number itself.
#[derive(Clone, Debug)]
pub struct RawMachine {
    pub id: String,
    pub label: String,
    pub handler: String,
    pub mouth: String,
    pub mouth_lit: Option<String>,
    pub fire_secs_negative: bool,
    pub charge_slots: u8,
    pub fuel_slots: u8,
    pub reagent_slots: u8,
    pub items_per_fuel: u32,
    pub min_charge: u8,
    pub min_fuel: u8,
}

/// One mod's `machines.toml`.
#[derive(Clone, Debug)]
pub struct RawMachineToml {
    pub schema_version: Option<u32>,
    pub machine: Vec<RawMachine>,
}

/// One declared machine kind, qualified and validated.
#[derive(Clone, Debug)]
pub struct MachineDef {
    /// Qualified id, e.g. `base:bloomery`.
    pub id: String,
    pub label: String,
    pub handler: MachineHandler,
    /// Qualified block id of the mouth block.
    pub mouth: String,
    /// Qualified block id of the lit face, if the handler has fire.
    pub mouth_lit: Option<String>,
    pub charge_slots: u8,
    pub fuel_slots: u8,
    pub reagent_slots: u8,
    pub items_per_fuel: u32,
    pub min_charge: u8,
    pub min_fuel: u8,
}

pub open spec fn spec_from_name(name: Seq<char>) -> Option<MachineHandler> {
    if exists|h: MachineHandler| spec_handler_name(h) == name {
        Some(choose|h: MachineHandler| spec_handler_name(h) == name)
    } else {
        None
    }
}

/// Why a raw machine is refused, checked in order; `None` when it is valid.
pub open spec fn spec_build_error(modid: Seq<char>, m: RawMachine) -> Option<Seq<char>> {
    let id = spec_qualify(modid, m.id@);
    if m.id@.len() == 0 {
        Some(modid + ": machine id must not be empty"@)
    } else if m.label@.len() == 0 {
        Some(id + ": machine label must not be empty"@)
    } else if spec_from_name(m.handler@) is None {
        Some(id + ": unknown machine handler \""@ + m.handler@ + "\" (expected one of bloomery, forge, kiln, separator, workbench)"@)
    } else if m.mouth@.len() == 0 {
        Some(id + ": machine mouth block must not be empty"@)
    } else if (m.mouth_lit matches Some(l) && l@.len() == 0) {
        Some(id + ": mouth_lit block must not be empty"@)
    } else if m.fire_secs_negative {
        Some(id + ": fire_secs must not be negative"@)
    } else if m.charge_slots > 4 || m.fuel_slots > 4 {
        Some(id + ": charge_slots and fuel_slots are capped at 4"@)
    } else if m.reagent_slots > 1 {
        Some(id + ": reagent_slots must be 0 or 1"@)
    } else if m.items_per_fuel == 0 {
        Some(id + ": items_per_fuel must be at least 1"@)
    } else {
        None
    }
}

/// `d` is the definition built from `m` of mod `modid`.
pub open spec fn built_from(d: MachineDef, modid: Seq<char>, m: RawMachine) -> bool {
    &&& d.id@ == spec_qualify(modid, m.id@)
    &&& d.label@ == m.label@
    &&& Some(d.handler) == spec_from_name(m.handler@)
    &&& d.mouth@ == spec_qualify(modid, m.mouth@)
    &&& match (d.mouth_lit, m.mouth_lit) {
        (Some(a), Some(b)) => a@ == spec_qualify(modid, b@),
        (None, None) => true,
        _ => false,
    }
    &&& d.charge_slots == m.charge_slots
    &&& d.fuel_slots == m.fuel_slots
    &&& d.reagent_slots == m.reagent_slots
    &&& d.items_per_fuel == m.items_per_fuel
    &&& d.min_charge == m.min_charge
    &&& d.min_fuel == m.min_fuel
}

proof fn lemma_from_name(name: Seq<char>, r: Option<MachineHandler>)
    requires
        match r {
            Some(h) => spec_handler_name(h) == name,
            None => forall|h: MachineHandler| spec_handler_name(h) != name,
        },
    ensures
        r == spec_from_name(name),
{
    if let Some(h) = r {
        let c = choose|g: MachineHandler| spec_handler_name(g) == name;
        lemma_handler_names_distinct(c, h);
    }
}

fn build(modid: &str, machine: &RawMachine) -> (r: Result<MachineDef, String>)
    ensures
        match r {
            Ok(d) => spec_build_error(modid@, *machine) is None && built_from(d, modid@, *machine),
            Err(e) => spec_build_error(modid@, *machine) == Some(e@),
        },
{
    let id = qualify(modid, machine.id.as_str());
    proof {
        reveal_strlit(": machine id must not be empty");
    }
    if machine.id.unicode_len() == 0 {
        let mut e = String::from_str(modid);
        e.append(": machine id must not be empty");
        return Err(e);
    }
    if machine.label.unicode_len() == 0 {
        let mut e = id.clone();
        e.append(": machine label must not be empty");
        return Err(e);
    }
    let found = MachineHandler::from_name(machine.handler.as_str());
    proof {
        lemma_from_name(machine.handler@, found);
    }
    let handler = match found {
        Some(h) => h,
        None => {
            let mut e = id.clone();
            e.append(": unknown machine handler \"");
            e.append(machine.handler.as_str());
            e.append("\" (expected one of bloomery, forge, kiln, separator, workbench)");
            return Err(e);
        },
    };
    let mouth = qualify(modid, machine.mouth.as_str());
    if machine.mouth.unicode_len() == 0 {
        let mut e = id.clone();
        e.append(": machine mouth block must not be empty");
        return Err(e);
    }
    let mouth_lit = match &machine.mouth_lit {
        Some(lit) => {
            if lit.unicode_len() == 0 {
                let mut e = id.clone();
                e.append(": mouth_lit block must not be empty");
                return Err(e);
            }
            Some(qualify(modid, lit.as_str()))
        },
        None => None,
    };
    if machine.fire_secs_negative {
        let mut e = id.clone();
        e.append(": fire_secs must not be negative");
        return Err(e);
    }
    if machine.charge_slots > 4 || machine.fuel_slots > 4 {
        let mut e = id.clone();
        e.append(": charge_slots and fuel_slots are capped at 4");
        return Err(e);
    }
    if machine.reagent_slots > 1 {
        let mut e = id.clone();
        e.append(": reagent_slots must be 0 or 1");
        return Err(e);
    }
    if machine.items_per_fuel == 0 {
        let mut e = id.clone();
        e.append(": items_per_fuel must be at least 1");
        return Err(e);
    }
    Ok(MachineDef {
        id,
        label: machine.label.clone(),
        handler,
        mouth,
        mouth_lit,
        charge_slots: machine.charge_slots,
        fuel_slots: machine.fuel_slots,
        reagent_slots: machine.reagent_slots,
        items_per_fuel: machine.items_per_fuel,
        min_charge: machine.min_charge,
        min_fuel: machine.min_fuel,
    })
}

/// Every raw machine of the pack with its mod id, in declaration order.
pub open spec fn flat_machines(raws: Seq<(String, RawMachineToml)>) -> Seq<(Seq<char>, RawMachine)>
    decreases raws.len(),
{
    if raws.len() == 0 {
        Seq::empty()
    } else {
        flat_machines(raws.drop_last()) + raws.last().1.machine@.map_values(|m: RawMachine| (raws.last().0@, m))
    }
}

/// The machines accepted so far, and the errors met so far.
pub open spec fn resolve_state(f: Seq<(Seq<char>, RawMachine)>) -> (Seq<(Seq<char>, RawMachine)>, Seq<Seq<char>>)
    decreases f.len(),
{
    if f.len() == 0 {
        (Seq::empty(), Seq::empty())
    } else {
        let prev = resolve_state(f.drop_last());
        let modid = f.last().0;
        let m = f.last().1;
        match spec_build_error(modid, m) {
            Some(e) => (prev.0, prev.1.push(e)),
            None => {
                let id = spec_qualify(modid, m.id@);
                if exists|k: int| 0 <= k < prev.0.len() && spec_qualify(prev.0[k].0, prev.0[k].1.id@) == id {
                    (prev.0, prev.1.push(id + ": duplicate machine identity"@))
                } else {
                    (prev.0.push((modid, m)), prev.1)
                }
            },
        }
    }
}

pub open spec fn string_views(v: Seq<String>) -> Seq<Seq<char>> {
    v.map_values(|s: String| s@)
}

/// Qualify and validate every raw machine across the pack, in declaration
/// order; an identity declared twice is refused the second time. The
/// returned index is the stable machine kind id.
#[verifier::rlimit(40)]
pub fn resolve(raws: &Vec<(String, RawMachineToml)>) -> (r: Result<Vec<MachineDef>, Vec<String>>)
    ensures
        ({
            let st = resolve_state(flat_machines(raws@));
            &&& r is Ok <==> st.1.len() == 0
            &&& r matches Ok(out) ==> out@.len() == st.0.len() && forall|i: int| 0 <= i < out@.len() ==> built_from(
                #[trigger] out@[i],
                st.0[i].0,
                st.0[i].1,
            )
            &&& r matches Err(es) ==> string_views(es@) == st.1
        }),
{
    let mut errors: Vec<String> = Vec::new();
    let mut out: Vec<MachineDef> = Vec::new();
    let mut t: usize = 0;
    assert(raws@.take(0) =~= Seq::<(String, RawMachineToml)>::empty());
    while t < raws.len()
        invariant
            t <= raws@.len(),
            ({
                let st = resolve_state(flat_machines(raws@.take(t as int)));
                &&& out@.len() == st.0.len()
                &&& forall|i: int| 0 <= i < out@.len() ==> built_from(#[trigger] out@[i], st.0[i].0, st.0[i].1)
                &&& string_views(errors@) == st.1
            }),
        decreases raws@.len() - t,
    {
        let modid = raws[t].0.as_str();
        let machines = &raws[t].1.machine;
        let ghost base = flat_machines(raws@.take(t as int));
        let ghost entries = machines@.map_values(|m: RawMachine| (raws@[t as int].0@, m));
        proof {
            assert(raws@.take(t + 1).drop_last() =~= raws@.take(t as int));
            assert(raws@.take(t + 1).last() == raws@[t as int]);
            assert(flat_machines(raws@.take(t + 1)) == base + entries);
            assert(base + entries.take(0) =~= base);
        }
        let mut k: usize = 0;
        while k < machines.len()
            invariant
                k <= machines@.len(),
                machines@ == raws@[t as int].1.machine@,
                modid@ == raws@[t as int].0@,
                entries == machines@.map_values(|m: RawMachine| (raws@[t as int].0@, m)),
                ({
                    let st = resolve_state(base + entries.take(k as int));
                    &&& out@.len() == st.0.len()
                    &&& forall|i: int| 0 <= i < out@.len() ==> built_from(#[trigger] out@[i], st.0[i].0, st.0[i].1)
                    &&& string_views(errors@) == st.1
                }),
            decreases machines@.len() - k,
        {
            let ghost pre = base + entries.take(k as int);
            let ghost post = base + entries.take(k + 1);
            proof {
                assert(post.drop_last() =~= pre);
                assert(post.last() == (modid@, machines@[k as int]));
            }
            let ghost st = resolve_state(pre);
            match build(modid, &machines[k]) {
                Ok(def) => {
                    let mut dup = false;
                    let mut j: usize = 0;
                    while j < out.len()
                        invariant
                            j <= out@.len(),
                            out@.len() == st.0.len(),
                            forall|i: int| 0 <= i < out@.len() ==> built_from(#[trigger] out@[i], st.0[i].0, st.0[i].1),
                            dup <==> exists|i: int| 0 <= i < j && spec_qualify(st.0[i].0, st.0[i].1.id@) == def.id@,
                        decreases out@.len() - j,
                    {
                        proof {
                            assert(built_from(out@[j as int], st.0[j as int].0, st.0[j as int].1));
                        }
                        if str_eq(out[j].id.as_str(), def.id.as_str()) {
                            dup = true;
                        }
                        j = j + 1;
                    }
                    if dup {
                        let mut e = def.id.clone();
                        e.append(": duplicate machine identity");
                        errors.push(e);
                        proof {
                            assert(string_views(errors@) =~= st.1.push(e@));
                        }
                    } else {
                        let ghost d = def;
                        out.push(def);
                        proof {
                            assert forall|i: int| 0 <= i < out@.len() implies built_from(#[trigger] out@[i], resolve_state(post).0[i].0, resolve_state(post).0[i].1) by {
                                if i < st.0.len() {
                                    assert(out@[i] == out@.drop_last()[i]);
                                }
                            }
                        }
                    }
                },
                Err(e) => {
                    errors.push(e);
                    proof {
                        assert(string_views(errors@) =~= st.1.push(e@));
                    }
                },
            }
            k = k + 1;
        }
        proof {
            assert(entries.take(machines@.len() as int) =~= entries);
        }
        t = t + 1;
    }
    proof {
        assert(raws@.take(raws@.len() as int) =~= raws@);
    }
    if errors.len() == 0 {
        Ok(out)
    } else {
        Err(errors)
    }
}

} // verus!
