//! Structural and reachability problems in loaded content: malformed
//! recipes and loot tables, structures and brushable blocks that name
//! missing tables or unmapped cells, wanderers without a real habitat,
//! items a survival player can never obtain, and a furnace or husbandry
//! loop that cannot run.

use vstd::prelude::*;
use crate::content_graph::{ContentGraph, alt_met, obtainable_items, spec_obtainable};
use crate::mod_lint::texts;
use crate::audit_text::{debug_of, debug_text};
use crate::text::str_eq;

verus! {

/// The shape of one crafting recipe.
pub struct RecipeShape {
    /// Name of the item it makes.
    pub output: String,
    pub pattern_len: usize,
    pub w: usize,
    pub h: usize,
    pub count: u32,
    /// Whether any pattern cell holds an ingredient.
    pub has_ingredient: bool,
}

/// One entry of a loot table: its weight and its count range.
#[derive(Clone, Copy, Debug, PartialEq, Eq, Structural)]
pub struct LootEntry {
    pub weight: u32,
    pub min: u32,
    pub max: u32,
}

pub struct LootTable {
    pub name: String,
    pub entries: Vec<LootEntry>,
}

/// A structure template: the loot table it asks for, every cell character
/// of its layers in order, and its palette's characters.
pub struct StructureDef {
    pub name: String,
    pub loot: Option<String>,
    pub cells: Vec<char>,
    pub palette: Vec<char>,
}

/// A block that brushes into a loot table.
pub struct BrushBlock {
    pub name: String,
    pub table: String,
}

/// An animal species as the checks read it.
pub struct AnimalDef {
    pub name: String,
    /// A peaceful, non-vehicle, non-NPC species that spawns naturally.
    pub wanders: bool,
    pub biomes: Vec<String>,
    pub breed_food: Option<u16>,
}

/// An item as the reachability check reads it; the item's id is its index.
pub struct ItemEntry {
    pub name: String,
    pub creative_only: bool,
    /// Its block deliberately drops something else or nothing (the
    /// silk-touch category), so it need not be obtainable.
    pub world_only: bool,
}

/// Everything the content checks read besides the content graph.
pub struct ContentChecks {
    pub recipes: Vec<RecipeShape>,
    pub loots: Vec<LootTable>,
    pub structures: Vec<StructureDef>,
    pub brushes: Vec<BrushBlock>,
    pub animals: Vec<AnimalDef>,
    pub items: Vec<ItemEntry>,
    /// The ingredient alternatives of every fuel that burns.
    pub fuels: Vec<Vec<u16>>,
}

/// The one-character text of `c`: std's `char::to_string`.
#[verifier::external_body]
fn char_text(c: char) -> (r: String)
    ensures
        r@ == seq![c],
{
    c.to_string()
}

fn push_text(out: &mut Vec<String>, s: String)
    ensures
        texts(final(out)@) == texts(old(out)@).push(s@),
{
    let ghost before = texts(out@);
    let ghost v = s@;
    out.push(s);
    assert(texts(out@) =~= before.push(v));
}

// ---------------------------------------------------------------------------
// Recipes.

pub open spec fn recipe_msgs(r: RecipeShape) -> Seq<Seq<char>> {
    (if r.pattern_len != r.w * r.h {
        seq!["recipe for "@ + r.output@ + " malformed"@]
    } else {
        Seq::empty()
    }) + (if r.count == 0 || r.w > 3 || r.h > 3 {
        seq!["recipe for "@ + r.output@ + " malformed"@]
    } else {
        Seq::empty()
    }) + (if !r.has_ingredient {
        seq!["recipe for "@ + r.output@ + " is empty"@]
    } else {
        Seq::empty()
    })
}

pub open spec fn all_recipe_msgs(rs: Seq<RecipeShape>) -> Seq<Seq<char>>
    decreases rs.len(),
{
    if rs.len() == 0 {
        Seq::empty()
    } else {
        all_recipe_msgs(rs.drop_last()) + recipe_msgs(rs.last())
    }
}

fn push_recipe_errors(out: &mut Vec<String>, rs: &Vec<RecipeShape>)
    ensures
        texts(final(out)@) == texts(old(out)@) + all_recipe_msgs(rs@),
{
    let ghost head = texts(out@);
    let mut i: usize = 0;
    assert(rs@.take(0) =~= Seq::<RecipeShape>::empty());
    assert(head + all_recipe_msgs(rs@.take(0)) =~= head);
    while i < rs.len()
        invariant
            i <= rs@.len(),
            texts(out@) == head + all_recipe_msgs(rs@.take(i as int)),
        decreases rs@.len() - i,
    {
        let r = &rs[i];
        let ghost mid = texts(out@);
        let w = r.w as u128;
        let h = r.h as u128;
        assert(w * h <= 0xffff_ffff_ffff_ffff * 0xffff_ffff_ffff_ffffu128) by (nonlinear_arith)
            requires
                w <= 0xffff_ffff_ffff_ffff,
                h <= 0xffff_ffff_ffff_ffff,
        ;
        if (r.pattern_len as u128) != w * h {
            let mut m = String::from_str("recipe for ");
            m.append(r.output.as_str());
            m.append(" malformed");
            push_text(out, m);
        }
        if r.count == 0 || r.w > 3 || r.h > 3 {
            let mut m = String::from_str("recipe for ");
            m.append(r.output.as_str());
            m.append(" malformed");
            push_text(out, m);
        }
        if !r.has_ingredient {
            let mut m = String::from_str("recipe for ");
            m.append(r.output.as_str());
            m.append(" is empty");
            push_text(out, m);
        }
        assert(texts(out@) =~= mid + recipe_msgs(rs@[i as int]));
        assert(rs@.take(i + 1).drop_last() =~= rs@.take(i as int));
        i = i + 1;
        assert(texts(out@) =~= head + all_recipe_msgs(rs@.take(i as int)));
    }
    assert(rs@.take(rs@.len() as int) =~= rs@);
}

// ---------------------------------------------------------------------------
// Loot tables.

pub open spec fn entry_msgs(name: Seq<char>, es: Seq<LootEntry>) -> Seq<Seq<char>>
    decreases es.len(),
{
    if es.len() == 0 {
        Seq::empty()
    } else {
        entry_msgs(name, es.drop_last()) + if es.last().weight == 0 || es.last().min > es.last().max {
            seq!["loot table "@ + name + " entry malformed"@]
        } else {
            Seq::empty()
        }
    }
}

pub open spec fn loot_msgs(t: LootTable) -> Seq<Seq<char>> {
    (if t.entries@.len() == 0 {
        seq!["loot table "@ + t.name@ + " is empty"@]
    } else {
        Seq::empty()
    }) + entry_msgs(t.name@, t.entries@)
}

pub open spec fn all_loot_msgs(ts: Seq<LootTable>) -> Seq<Seq<char>>
    decreases ts.len(),
{
    if ts.len() == 0 {
        Seq::empty()
    } else {
        all_loot_msgs(ts.drop_last()) + loot_msgs(ts.last())
    }
}

fn push_loot_errors(out: &mut Vec<String>, ts: &Vec<LootTable>)
    ensures
        texts(final(out)@) == texts(old(out)@) + all_loot_msgs(ts@),
{
    let ghost head = texts(out@);
    let mut i: usize = 0;
    assert(ts@.take(0) =~= Seq::<LootTable>::empty());
    assert(head + all_loot_msgs(ts@.take(0)) =~= head);
    while i < ts.len()
        invariant
            i <= ts@.len(),
            texts(out@) == head + all_loot_msgs(ts@.take(i as int)),
        decreases ts@.len() - i,
    {
        let t = &ts[i];
        let ghost mid = texts(out@);
        if t.entries.len() == 0 {
            let mut m = String::from_str("loot table ");
            m.append(t.name.as_str());
            m.append(" is empty");
            push_text(out, m);
        }
        let ghost mid2 = texts(out@);
        let mut k: usize = 0;
        assert(t.entries@.take(0) =~= Seq::<LootEntry>::empty());
        assert(mid2 + entry_msgs(t.name@, t.entries@.take(0)) =~= mid2);
        while k < t.entries.len()
            invariant
                k <= t.entries@.len(),
                texts(out@) == mid2 + entry_msgs(t.name@, t.entries@.take(k as int)),
            decreases t.entries@.len() - k,
        {
            let e = t.entries[k];
            if e.weight == 0 || e.min > e.max {
                let mut m = String::from_str("loot table ");
                m.append(t.name.as_str());
                m.append(" entry malformed");
                push_text(out, m);
            }
            assert(t.entries@.take(k + 1).drop_last() =~= t.entries@.take(k as int));
            k = k + 1;
            assert(texts(out@) =~= mid2 + entry_msgs(t.name@, t.entries@.take(k as int)));
        }
        assert(t.entries@.take(t.entries@.len() as int) =~= t.entries@);
        assert(texts(out@) =~= mid + loot_msgs(ts@[i as int]));
        assert(ts@.take(i + 1).drop_last() =~= ts@.take(i as int));
        i = i + 1;
        assert(texts(out@) =~= head + all_loot_msgs(ts@.take(i as int)));
    }
    assert(ts@.take(ts@.len() as int) =~= ts@);
}

pub open spec fn table_names(ts: Seq<LootTable>) -> Seq<Seq<char>> {
    ts.map_values(|t: LootTable| t.name@)
}

fn has_table(ts: &Vec<LootTable>, name: &str) -> (r: bool)
    ensures
        r == table_names(ts@).contains(name@),
{
    let mut i: usize = 0;
    while i < ts.len()
        invariant
            i <= ts@.len(),
            forall|k: int| 0 <= k < i ==> ts@[k].name@ != name@,
        decreases ts@.len() - i,
    {
        if str_eq(ts[i].name.as_str(), name) {
            assert(table_names(ts@)[i as int] == name@);
            return true;
        }
        i = i + 1;
    }
    proof {
        if table_names(ts@).contains(name@) {
            let k = choose|k: int| 0 <= k < table_names(ts@).len() && table_names(ts@)[k] == name@;
            assert(ts@[k].name@ == name@);
        }
    }
    false
}

// ---------------------------------------------------------------------------
// Structures and brushable blocks.

pub open spec fn cell_ok(c: char, palette: Seq<char>) -> bool {
    c == '.' || c == '~' || c == 'C' || palette.contains(c)
}

pub open spec fn cell_msgs(name: Seq<char>, cells: Seq<char>, palette: Seq<char>) -> Seq<Seq<char>>
    decreases cells.len(),
{
    if cells.len() == 0 {
        Seq::empty()
    } else {
        cell_msgs(name, cells.drop_last(), palette) + if cell_ok(cells.last(), palette) {
            Seq::empty()
        } else {
            seq!["structure "@ + name + " uses unmapped char '"@ + seq![cells.last()] + "'"@]
        }
    }
}

pub open spec fn structure_msgs(st: StructureDef, tables: Seq<Seq<char>>) -> Seq<Seq<char>> {
    (match st.loot {
        Some(l) => if tables.contains(l@) {
            Seq::empty()
        } else {
            seq!["structure "@ + st.name@ + " wants missing loot table "@ + l@]
        },
        None => Seq::empty(),
    }) + cell_msgs(st.name@, st.cells@, st.palette@)
}

pub open spec fn all_structure_msgs(sts: Seq<StructureDef>, tables: Seq<Seq<char>>) -> Seq<Seq<char>>
    decreases sts.len(),
{
    if sts.len() == 0 {
        Seq::empty()
    } else {
        all_structure_msgs(sts.drop_last(), tables) + structure_msgs(sts.last(), tables)
    }
}

fn in_palette(palette: &Vec<char>, c: char) -> (r: bool)
    ensures
        r == palette@.contains(c),
{
    let mut i: usize = 0;
    while i < palette.len()
        invariant
            i <= palette@.len(),
            forall|k: int| 0 <= k < i ==> palette@[k] != c,
        decreases palette@.len() - i,
    {
        if palette[i] == c {
            return true;
        }
        i = i + 1;
    }
    false
}

fn push_structure_errors(out: &mut Vec<String>, sts: &Vec<StructureDef>, ts: &Vec<LootTable>)
    ensures
        texts(final(out)@) == texts(old(out)@) + all_structure_msgs(sts@, table_names(ts@)),
{
    let ghost head = texts(out@);
    let ghost tables = table_names(ts@);
    let mut i: usize = 0;
    assert(sts@.take(0) =~= Seq::<StructureDef>::empty());
    assert(head + all_structure_msgs(sts@.take(0), tables) =~= head);
    while i < sts.len()
        invariant
            i <= sts@.len(),
            tables == table_names(ts@),
            texts(out@) == head + all_structure_msgs(sts@.take(i as int), tables),
        decreases sts@.len() - i,
    {
        let st = &sts[i];
        let ghost mid = texts(out@);
        match &st.loot {
            Some(l) => {
                if !has_table(ts, l.as_str()) {
                    let mut m = String::from_str("structure ");
                    m.append(st.name.as_str());
                    m.append(" wants missing loot table ");
                    m.append(l.as_str());
                    push_text(out, m);
                }
            },
            None => {},
        }
        let ghost mid2 = texts(out@);
        let mut k: usize = 0;
        assert(st.cells@.take(0) =~= Seq::<char>::empty());
        assert(mid2 + cell_msgs(st.name@, st.cells@.take(0), st.palette@) =~= mid2);
        while k < st.cells.len()
            invariant
                k <= st.cells@.len(),
                texts(out@) == mid2 + cell_msgs(st.name@, st.cells@.take(k as int), st.palette@),
            decreases st.cells@.len() - k,
        {
            let c = st.cells[k];
            if !(c == '.' || c == '~' || c == 'C' || in_palette(&st.palette, c)) {
                let mut m = String::from_str("structure ");
                m.append(st.name.as_str());
                m.append(" uses unmapped char '");
                let ct = char_text(c);
                m.append(ct.as_str());
                m.append("'");
                push_text(out, m);
            }
            assert(st.cells@.take(k + 1).drop_last() =~= st.cells@.take(k as int));
            k = k + 1;
            assert(texts(out@) =~= mid2 + cell_msgs(st.name@, st.cells@.take(k as int), st.palette@));
        }
        assert(st.cells@.take(st.cells@.len() as int) =~= st.cells@);
        assert(texts(out@) =~= mid + structure_msgs(sts@[i as int], tables));
        assert(sts@.take(i + 1).drop_last() =~= sts@.take(i as int));
        i = i + 1;
        assert(texts(out@) =~= head + all_structure_msgs(sts@.take(i as int), tables));
    }
    assert(sts@.take(sts@.len() as int) =~= sts@);
}

pub open spec fn all_brush_msgs(bs: Seq<BrushBlock>, tables: Seq<Seq<char>>) -> Seq<Seq<char>>
    decreases bs.len(),
{
    if bs.len() == 0 {
        Seq::empty()
    } else {
        all_brush_msgs(bs.drop_last(), tables) + if tables.contains(bs.last().table@) {
            Seq::empty()
        } else {
            seq![bs.last().name@ + " brushes into missing table "@ + bs.last().table@]
        }
    }
}

fn push_brush_errors(out: &mut Vec<String>, bs: &Vec<BrushBlock>, ts: &Vec<LootTable>)
    ensures
        texts(final(out)@) == texts(old(out)@) + all_brush_msgs(bs@, table_names(ts@)),
{
    let ghost head = texts(out@);
    let ghost tables = table_names(ts@);
    let mut i: usize = 0;
    assert(bs@.take(0) =~= Seq::<BrushBlock>::empty());
    assert(head + all_brush_msgs(bs@.take(0), tables) =~= head);
    while i < bs.len()
        invariant
            i <= bs@.len(),
            tables == table_names(ts@),
            texts(out@) == head + all_brush_msgs(bs@.take(i as int), tables),
        decreases bs@.len() - i,
    {
        if !has_table(ts, bs[i].table.as_str()) {
            let mut m = String::from_str(bs[i].name.as_str());
            m.append(" brushes into missing table ");
            m.append(bs[i].table.as_str());
            push_text(out, m);
        }
        assert(bs@.take(i + 1).drop_last() =~= bs@.take(i as int));
        i = i + 1;
        assert(texts(out@) =~= head + all_brush_msgs(bs@.take(i as int), tables));
    }
    assert(bs@.take(bs@.len() as int) =~= bs@);
}

// ---------------------------------------------------------------------------
// Habitats.

/// The province cultures a wanderer's habitat may name.
pub open spec fn known_biome(b: Seq<char>) -> bool {
    b == "forest"@ || b == "plains"@ || b == "desert"@ || b == "jungle"@ || b == "scrubland"@ || b == "taiga"@ || b
        == "arctic"@ || b == "mountains"@ || b == "tundra"@ || b == "savanna"@ || b == "badlands"@ || b == "swamp"@ || b
        == "underground"@ || b == "ocean"@
}

fn is_known_biome(b: &str) -> (r: bool)
    ensures
        r == known_biome(b@),
{
    str_eq(b, "forest") || str_eq(b, "plains") || str_eq(b, "desert") || str_eq(b, "jungle") || str_eq(b, "scrubland")
        || str_eq(b, "taiga") || str_eq(b, "arctic") || str_eq(b, "mountains") || str_eq(b, "tundra") || str_eq(
        b,
        "savanna",
    ) || str_eq(b, "badlands") || str_eq(b, "swamp") || str_eq(b, "underground") || str_eq(b, "ocean")
}

/// The `Debug` form of a list of names: `["a", "b"]`.
pub open spec fn debug_names(bs: Seq<String>) -> Seq<char> {
    "["@ + joined_debug(bs) + "]"@
}

pub open spec fn joined_debug(bs: Seq<String>) -> Seq<char>
    decreases bs.len(),
{
    if bs.len() == 0 {
        Seq::empty()
    } else if bs.len() == 1 {
        debug_text(bs[0]@)
    } else {
        joined_debug(bs.drop_last()) + ", "@ + debug_text(bs.last()@)
    }
}

pub open spec fn habitat_bad(a: AnimalDef) -> bool {
    a.wanders && (a.biomes@.len() == 0 || exists|k: int| 0 <= k < a.biomes@.len() && !known_biome(#[trigger] a.biomes@[k]@))
}

pub open spec fn all_biome_msgs(animals: Seq<AnimalDef>) -> Seq<Seq<char>>
    decreases animals.len(),
{
    if animals.len() == 0 {
        Seq::empty()
    } else {
        let a = animals.last();
        all_biome_msgs(animals.drop_last()) + if habitat_bad(a) {
            seq!["animal "@ + a.name@ + " has invalid biomes "@ + debug_names(a.biomes@)]
        } else {
            Seq::empty()
        }
    }
}

fn push_debug_names(out: &mut String, bs: &Vec<String>)
    ensures
        final(out)@ == old(out)@ + debug_names(bs@),
{
    let ghost start = out@;
    out.append("[");
    let mut i: usize = 0;
    assert(bs@.take(0) =~= Seq::<String>::empty());
    while i < bs.len()
        invariant
            i <= bs@.len(),
            out@ == start + "["@ + joined_debug(bs@.take(i as int)),
        decreases bs@.len() - i,
    {
        if i > 0 {
            out.append(", ");
        }
        let d = debug_of(bs[i].as_str());
        out.append(d.as_str());
        proof {
            let t = bs@.take(i + 1);
            assert(t.drop_last() =~= bs@.take(i as int));
            if i == 0 {
                assert(t[0] == bs@[0]);
            }
        }
        i = i + 1;
        assert(out@ =~= start + "["@ + joined_debug(bs@.take(i as int)));
    }
    assert(bs@.take(bs@.len() as int) =~= bs@);
    out.append("]");
}

fn push_biome_errors(out: &mut Vec<String>, animals: &Vec<AnimalDef>)
    ensures
        texts(final(out)@) == texts(old(out)@) + all_biome_msgs(animals@),
{
    let ghost head = texts(out@);
    let mut i: usize = 0;
    assert(animals@.take(0) =~= Seq::<AnimalDef>::empty());
    assert(head + all_biome_msgs(animals@.take(0)) =~= head);
    while i < animals.len()
        invariant
            i <= animals@.len(),
            texts(out@) == head + all_biome_msgs(animals@.take(i as int)),
        decreases animals@.len() - i,
    {
        let a = &animals[i];
        let mut all_known = true;
        let mut k: usize = 0;
        while k < a.biomes.len()
            invariant
                k <= a.biomes@.len(),
                all_known == forall|j: int| 0 <= j < k ==> known_biome(#[trigger] a.biomes@[j]@),
            decreases a.biomes@.len() - k,
        {
            if !is_known_biome(a.biomes[k].as_str()) {
                all_known = false;
            }
            k = k + 1;
        }
        if a.wanders && (a.biomes.len() == 0 || !all_known) {
            let mut m = String::from_str("animal ");
            m.append(a.name.as_str());
            m.append(" has invalid biomes ");
            push_debug_names(&mut m, &a.biomes);
            push_text(out, m);
        }
        assert(animals@.take(i + 1).drop_last() =~= animals@.take(i as int));
        i = i + 1;
        assert(texts(out@) =~= head + all_biome_msgs(animals@.take(i as int)));
    }
    assert(animals@.take(animals@.len() as int) =~= animals@);
}

// ---------------------------------------------------------------------------
// Reachability.

/// Item `i` must be obtainable in survival but is not.
pub open spec fn unobtainable(d: ItemEntry, i: int, ok: Set<u16>) -> bool {
    !d.creative_only && !ok.contains(i as u16) && !d.world_only
}

pub open spec fn unobtainable_msgs(items: Seq<ItemEntry>, ok: Set<u16>) -> Seq<Seq<char>>
    decreases items.len(),
{
    if items.len() == 0 {
        Seq::empty()
    } else {
        unobtainable_msgs(items.drop_last(), ok) + if unobtainable(items.last(), items.len() - 1, ok) {
            seq!["unobtainable in survival: "@ + items.last().name@]
        } else {
            Seq::empty()
        }
    }
}

/// The reachability check names exactly the items that must be obtainable
/// in survival and are not, in item order, once each: item `i` is named if
/// and only if it is neither creative-only nor world-only and its id is not
/// in `ok`. `idx` lists the named items' ids in message order.
pub proof fn lemma_unobtainable_messages(items: Seq<ItemEntry>, ok: Set<u16>) -> (idx: Seq<int>)
    ensures
        idx.len() == unobtainable_msgs(items, ok).len(),
        forall|j: int|
            0 <= j < idx.len() ==> 0 <= #[trigger] idx[j] < items.len() && unobtainable_msgs(items, ok)[j]
                == "unobtainable in survival: "@ + items[idx[j]].name@,
        forall|j: int, k: int| 0 <= j < k < idx.len() ==> idx[j] < idx[k],
        forall|i: int|
            0 <= i < items.len() ==> (idx.contains(i) <==> (!items[i].creative_only && !items[i].world_only
                && !ok.contains(i as u16))),
    decreases items.len(),
{
    if items.len() == 0 {
        Seq::empty()
    } else {
        let p = items.drop_last();
        let idx0 = lemma_unobtainable_messages(p, ok);
        let last = items.len() - 1;
        let msgs0 = unobtainable_msgs(p, ok);
        let named = !items[last].creative_only && !items[last].world_only && !ok.contains(last as u16);
        assert(items.last() == items[last]);
        if named {
            let idx = idx0.push(last);
            assert(unobtainable_msgs(items, ok) == msgs0 + seq!["unobtainable in survival: "@ + items[last].name@]);
            assert forall|j: int| 0 <= j < idx.len() implies 0 <= #[trigger] idx[j] < items.len() && unobtainable_msgs(items, ok)[j]
                == "unobtainable in survival: "@ + items[idx[j]].name@ by {
                if j < idx0.len() {
                    assert(idx[j] == idx0[j]);
                    assert(p[idx0[j]] == items[idx0[j]]);
                }
            }
            assert forall|i: int| 0 <= i < items.len() implies (idx.contains(i) <==> (!items[i].creative_only
                && !items[i].world_only && !ok.contains(i as u16))) by {
                if i < last {
                    assert(p[i] == items[i]);
                    if idx0.contains(i) {
                        let j = choose|j: int| 0 <= j < idx0.len() && idx0[j] == i;
                        assert(idx[j] == i);
                    }
                    if idx.contains(i) {
                        let j = choose|j: int| 0 <= j < idx.len() && idx[j] == i;
                        assert(j < idx0.len());
                        assert(idx0[j] == i);
                    }
                } else {
                    assert(idx[idx.len() - 1] == last);
                }
            }
            idx
        } else {
            assert(unobtainable_msgs(items, ok) =~= msgs0);
            assert forall|j: int| 0 <= j < idx0.len() implies 0 <= #[trigger] idx0[j] < items.len() && unobtainable_msgs(items, ok)[j]
                == "unobtainable in survival: "@ + items[idx0[j]].name@ by {
                assert(p[idx0[j]] == items[idx0[j]]);
            }
            assert forall|i: int| 0 <= i < items.len() implies (idx0.contains(i) <==> (!items[i].creative_only
                && !items[i].world_only && !ok.contains(i as u16))) by {
                if i < last {
                    assert(p[i] == items[i]);
                } else {
                    if idx0.contains(i) {
                        let j = choose|j: int| 0 <= j < idx0.len() && idx0[j] == i;
                    }
                }
            }
            idx0
        }
    }
}

pub open spec fn fuel_msgs(fuels: Seq<Vec<u16>>, ok: Set<u16>) -> Seq<Seq<char>> {
    if exists|k: int| 0 <= k < fuels.len() && alt_met(#[trigger] fuels[k]@, ok) {
        Seq::empty()
    } else {
        seq!["no obtainable fuel"@]
    }
}

pub open spec fn breed_msgs(animals: Seq<AnimalDef>, ok: Set<u16>) -> Seq<Seq<char>>
    decreases animals.len(),
{
    if animals.len() == 0 {
        Seq::empty()
    } else {
        let a = animals.last();
        breed_msgs(animals.drop_last(), ok) + match a.breed_food {
            Some(f) => if ok.contains(f) {
                Seq::empty()
            } else {
                seq!["breed food for "@ + a.name@ + " unobtainable"@]
            },
            None => Seq::empty(),
        }
    }
}

/// Every content problem, in check order: recipes, loot tables,
/// structures, brushable blocks, habitats, unobtainable items, fuel and
/// breeding food.
pub open spec fn spec_content_errors(g: ContentGraph, c: ContentChecks) -> Seq<Seq<char>> {
    let ok = spec_obtainable(g);
    all_recipe_msgs(c.recipes@) + all_loot_msgs(c.loots@) + all_structure_msgs(c.structures@, table_names(c.loots@))
        + all_brush_msgs(c.brushes@, table_names(c.loots@)) + all_biome_msgs(c.animals@) + unobtainable_msgs(c.items@, ok)
        + fuel_msgs(c.fuels@, ok) + breed_msgs(c.animals@, ok)
}

/// The content errors carry the reachability messages for the survival
/// obtainable set of the graph, together and in item order, after the
/// structural messages: `o` is where they start.
pub proof fn lemma_content_errors_report_unobtainable(g: ContentGraph, c: ContentChecks) -> (o: int)
    ensures
        ({
            let e = spec_content_errors(g, c);
            let u = unobtainable_msgs(c.items@, spec_obtainable(g));
            &&& 0 <= o
            &&& o + u.len() <= e.len()
            &&& forall|j: int| 0 <= j < u.len() ==> e[o + j] == #[trigger] u[j]
        }),
{
    let ok = spec_obtainable(g);
    let head = all_recipe_msgs(c.recipes@) + all_loot_msgs(c.loots@) + all_structure_msgs(c.structures@, table_names(c.loots@))
        + all_brush_msgs(c.brushes@, table_names(c.loots@)) + all_biome_msgs(c.animals@);
    let u = unobtainable_msgs(c.items@, ok);
    let tail = fuel_msgs(c.fuels@, ok) + breed_msgs(c.animals@, ok);
    assert(spec_content_errors(g, c) =~= head + u + tail);
    head.len() as int
}

fn mark_of(seen: &Vec<bool>, x: u16) -> (r: bool)
    requires
        seen@.len() == 0x10000,
    ensures
        r == seen@[x as int],
{
    seen[x as usize]
}

/// Every structural and reachability problem of the content.
pub fn content_errors(g: &ContentGraph, c: &ContentChecks) -> (e: Vec<String>)
    requires
        c.items@.len() <= 0x10000,
    ensures
        texts(e@) == spec_content_errors(*g, *c),
{
    let mut out: Vec<String> = Vec::new();
    push_recipe_errors(&mut out, &c.recipes);
    push_loot_errors(&mut out, &c.loots);
    push_structure_errors(&mut out, &c.structures, &c.loots);
    push_brush_errors(&mut out, &c.brushes, &c.loots);
    push_biome_errors(&mut out, &c.animals);
    let ok = obtainable_items(g);
    let ghost oks = spec_obtainable(*g);
    let mut seen: Vec<bool> = Vec::new();
    let mut z: usize = 0;
    while z < 0x10000
        invariant
            z <= 0x10000,
            seen@.len() == z,
            forall|k: int| 0 <= k < z ==> !seen@[k],
        decreases 0x10000 - z,
    {
        seen.push(false);
        z = z + 1;
    }
    let mut q: usize = 0;
    while q < ok.len()
        invariant
            q <= ok@.len(),
            seen@.len() == 0x10000,
            forall|x: u16| #[trigger] seen@[x as int] <==> ok@.take(q as int).contains(x),
        decreases ok@.len() - q,
    {
        let x = ok[q];
        seen.set(x as usize, true);
        proof {
            let t0 = ok@.take(q as int);
            let t1 = ok@.take(q + 1);
            assert forall|y: u16| #[trigger] seen@[y as int] <==> t1.contains(y) by {
                if t0.contains(y) {
                    let k = choose|k: int| 0 <= k < t0.len() && t0[k] == y;
                    assert(t1[k] == y);
                }
                if t1.contains(y) {
                    let k = choose|k: int| 0 <= k < t1.len() && t1[k] == y;
                    if k < q {
                        assert(t0[k] == y);
                    }
                }
                if y == x {
                    assert(t1[q as int] == y);
                }
            }
        }
        q = q + 1;
    }
    proof {
        assert(ok@.take(ok@.len() as int) =~= ok@);
        assert forall|x: u16| #[trigger] seen@[x as int] <==> oks.contains(x) by {
            assert(ok@.to_set().contains(x) == ok@.contains(x));
        }
    }
    let ghost head = texts(out@);
    let mut i: usize = 0;
    assert(c.items@.take(0) =~= Seq::<ItemEntry>::empty());
    assert(head + unobtainable_msgs(c.items@.take(0), oks) =~= head);
    while i < c.items.len()
        invariant
            i <= c.items@.len(),
            c.items@.len() <= 0x10000,
            seen@.len() == 0x10000,
            forall|x: u16| #[trigger] seen@[x as int] <==> oks.contains(x),
            texts(out@) == head + unobtainable_msgs(c.items@.take(i as int), oks),
        decreases c.items@.len() - i,
    {
        let d = &c.items[i];
        if !d.creative_only && !mark_of(&seen, i as u16) && !d.world_only {
            let mut m = String::from_str("unobtainable in survival: ");
            m.append(d.name.as_str());
            push_text(&mut out, m);
        }
        proof {
            let t = c.items@.take(i + 1);
            assert(t.drop_last() =~= c.items@.take(i as int));
            assert(t.last() == c.items@[i as int]);
            assert(t.len() - 1 == i);
        }
        i = i + 1;
        assert(texts(out@) =~= head + unobtainable_msgs(c.items@.take(i as int), oks));
    }
    assert(c.items@.take(c.items@.len() as int) =~= c.items@);
    let mut burns = false;
    let mut f: usize = 0;
    while f < c.fuels.len()
        invariant
            f <= c.fuels@.len(),
            seen@.len() == 0x10000,
            forall|x: u16| #[trigger] seen@[x as int] <==> oks.contains(x),
            burns == exists|k: int| 0 <= k < f && alt_met(#[trigger] c.fuels@[k]@, oks),
        decreases c.fuels@.len() - f,
    {
        let alts = &c.fuels[f];
        let mut any = false;
        let mut j: usize = 0;
        while j < alts.len()
            invariant
                j <= alts@.len(),
                seen@.len() == 0x10000,
                forall|x: u16| #[trigger] seen@[x as int] <==> oks.contains(x),
                any == exists|b: int| 0 <= b < j && oks.contains(#[trigger] alts@[b]),
            decreases alts@.len() - j,
        {
            if mark_of(&seen, alts[j]) {
                any = true;
            }
            j = j + 1;
        }
        if any {
            burns = true;
        }
        proof {
            if burns {
                if any {
                    assert(alt_met(c.fuels@[f as int]@, oks));
                }
            } else {
                assert forall|k: int| 0 <= k < f + 1 implies !alt_met(#[trigger] c.fuels@[k]@, oks) by {
                    if k == f as int {
                        assert(!any);
                    }
                }
            }
        }
        f = f + 1;
    }
    if !burns {
        push_text(&mut out, String::from_str("no obtainable fuel"));
    }
    let ghost head2 = texts(out@);
    assert(head2 == head + unobtainable_msgs(c.items@, oks) + fuel_msgs(c.fuels@, oks));
    let mut a: usize = 0;
    assert(c.animals@.take(0) =~= Seq::<AnimalDef>::empty());
    assert(head2 + breed_msgs(c.animals@.take(0), oks) =~= head2);
    while a < c.animals.len()
        invariant
            a <= c.animals@.len(),
            seen@.len() == 0x10000,
            forall|x: u16| #[trigger] seen@[x as int] <==> oks.contains(x),
            texts(out@) == head2 + breed_msgs(c.animals@.take(a as int), oks),
        decreases c.animals@.len() - a,
    {
        match c.animals[a].breed_food {
            Some(food) => {
                if !mark_of(&seen, food) {
                    let mut m = String::from_str("breed food for ");
                    m.append(c.animals[a].name.as_str());
                    m.append(" unobtainable");
                    push_text(&mut out, m);
                }
            },
            None => {},
        }
        assert(c.animals@.take(a + 1).drop_last() =~= c.animals@.take(a as int));
        a = a + 1;
        assert(texts(out@) =~= head2 + breed_msgs(c.animals@.take(a as int), oks));
    }
    assert(c.animals@.take(c.animals@.len() as int) =~= c.animals@);
    assert(texts(out@) =~= spec_content_errors(*g, *c));
    out
}

} // verus!
