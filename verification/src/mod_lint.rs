//! The report of one mod-tree qualification run.

use vstd::prelude::*;

verus! {

/// One mod tree qualification. `failures` are hard gates (the mod must not be
/// installed into a world that claims them); `warnings` are advisories.
#[derive(Clone, Debug)]
pub struct ModLintReport {
    /// The mods directory, as displayed.
    pub mods_dir: String,
    pub failures: Vec<String>,
    pub warnings: Vec<String>,
}

pub open spec fn prefixed_lines(prefix: Seq<char>, lines: Seq<String>) -> Seq<char>
    decreases lines.len(),
{
    if lines.len() == 0 {
        Seq::empty()
    } else {
        prefixed_lines(prefix, lines.drop_last()) + prefix + lines.last()@ + "\n"@
    }
}

/// The report as operators read it.
pub open spec fn spec_lint_render(r: ModLintReport) -> Seq<char> {
    "mods: "@ + r.mods_dir@ + "\n"@ + (if r.failures@.len() == 0 {
        "failures: none\n"@
    } else {
        prefixed_lines("failure: "@, r.failures@)
    }) + prefixed_lines("warning: "@, r.warnings@) + (if r.failures@.len() == 0 {
        "qualification status: PASS\n"@
    } else {
        "qualification status: FAIL\n"@
    })
}

fn push_prefixed_lines(out: &mut String, prefix: &str, lines: &Vec<String>)
    ensures
        final(out)@ == old(out)@ + prefixed_lines(prefix@, lines@),
{
    let ghost start = out@;
    let mut i: usize = 0;
    assert(lines@.take(0) =~= Seq::<String>::empty());
    assert(out@ =~= start + prefixed_lines(prefix@, lines@.take(0)));
    while i < lines.len()
        invariant
            i <= lines@.len(),
            out@ == start + prefixed_lines(prefix@, lines@.take(i as int)),
        decreases lines@.len() - i,
    {
        proof {
            assert(lines@.take(i + 1).drop_last() =~= lines@.take(i as int));
            assert(lines@.take(i + 1).last() == lines@[i as int]);
        }
        out.append(prefix);
        out.append(lines[i].as_str());
        out.append("\n");
        i = i + 1;
        assert(out@ =~= start + prefixed_lines(prefix@, lines@.take(i as int)));
    }
    assert(lines@.take(lines@.len() as int) =~= lines@);
}

impl ModLintReport {
    /// Whether no hard gate failed.
    pub fn is_qualified(&self) -> (r: bool)
        ensures
            r == (self.failures@.len() == 0),
    {
        self.failures.len() == 0
    }

    /// The report: the directory, each failure (or none), each warning and
    /// the verdict, one per line.
    pub fn render(&self) -> (r: String)
        ensures
            r@ == spec_lint_render(*self),
    {
        let mut out = String::from_str("mods: ");
        out.append(self.mods_dir.as_str());
        out.append("\n");
        if self.failures.len() == 0 {
            out.append("failures: none\n");
        } else {
            push_prefixed_lines(&mut out, "failure: ", &self.failures);
        }
        push_prefixed_lines(&mut out, "warning: ", &self.warnings);
        if self.is_qualified() {
            out.append("qualification status: PASS\n");
        } else {
            out.append("qualification status: FAIL\n");
        }
        out
    }
}

/// A loaded mod, with the error that kept it from loading, if any.
pub struct LoadedMod {
    pub id: String,
    pub error: Option<String>,
}

/// The texture tiles a block resolved to.
pub struct BlockTextures {
    pub name: String,
    pub tiles: Vec<u16>,
}

/// The icon tile an item resolved to.
pub struct ItemTexture {
    pub name: String,
    pub icon: u16,
}

/// Name of the placeholder block, which may show the missing-texture tile.
pub open spec fn unknown_block_name() -> Seq<char> {
    "base:unknown"@
}

pub open spec fn block_untextured(b: BlockTextures, unknown: u16) -> bool {
    b.name@ != unknown_block_name() && b.tiles@.contains(unknown)
}

pub open spec fn block_texture_msgs(bs: Seq<BlockTextures>, unknown: u16) -> Seq<Seq<char>>
    decreases bs.len(),
{
    if bs.len() == 0 {
        Seq::empty()
    } else {
        let b = bs.last();
        block_texture_msgs(bs.drop_last(), unknown) + if block_untextured(b, unknown) {
            seq!["block "@ + b.name@ + " has no real texture"@]
        } else {
            Seq::empty()
        }
    }
}

pub open spec fn item_texture_msgs(is: Seq<ItemTexture>, unknown: u16) -> Seq<Seq<char>>
    decreases is.len(),
{
    if is.len() == 0 {
        Seq::empty()
    } else {
        let i = is.last();
        item_texture_msgs(is.drop_last(), unknown) + if i.icon == unknown {
            seq!["item "@ + i.name@ + " has no real texture"@]
        } else {
            Seq::empty()
        }
    }
}

pub open spec fn mod_error_msgs(ms: Seq<LoadedMod>) -> Seq<Seq<char>>
    decreases ms.len(),
{
    if ms.len() == 0 {
        Seq::empty()
    } else {
        let m = ms.last();
        mod_error_msgs(ms.drop_last()) + match m.error {
            Some(e) => seq!["mod "@ + m.id@ + ": "@ + e@],
            None => Seq::empty(),
        }
    }
}

pub open spec fn texts(v: Seq<String>) -> Seq<Seq<char>> {
    v.map_values(|s: String| s@)
}

fn push_all(out: &mut Vec<String>, from: &Vec<String>)
    ensures
        texts(final(out)@) == texts(old(out)@) + texts(from@),
{
    let ghost start = texts(out@);
    let mut i: usize = 0;
    assert(texts(from@.take(0)) =~= Seq::<Seq<char>>::empty());
    assert(texts(out@) =~= start + texts(from@.take(0)));
    while i < from.len()
        invariant
            i <= from@.len(),
            texts(out@) == start + texts(from@.take(i as int)),
        decreases from@.len() - i,
    {
        let ghost prev = texts(out@);
        let item = from[i].clone();
        assert(item@ == from@[i as int]@);
        out.push(item);
        assert(texts(out@) =~= prev.push(from@[i as int]@));
        assert(texts(from@.take(i + 1)) =~= texts(from@.take(i as int)).push(from@[i as int]@));
        i = i + 1;
        assert(texts(out@) =~= start + texts(from@.take(i as int)));
    }
    assert(from@.take(from@.len() as int) =~= from@);
}

/// Blocks (other than the placeholder) and items that resolved to the
/// missing-texture tile `unknown`, blocks first, in content order.
pub fn missing_textures(blocks: &Vec<BlockTextures>, items: &Vec<ItemTexture>, unknown: u16) -> (r: Vec<String>)
    ensures
        texts(r@) == block_texture_msgs(blocks@, unknown) + item_texture_msgs(items@, unknown),
{
    let mut out: Vec<String> = Vec::new();
    let mut i: usize = 0;
    assert(blocks@.take(0) =~= Seq::<BlockTextures>::empty());
    assert(texts(out@) =~= block_texture_msgs(blocks@.take(0), unknown));
    while i < blocks.len()
        invariant
            i <= blocks@.len(),
            texts(out@) == block_texture_msgs(blocks@.take(i as int), unknown),
        decreases blocks@.len() - i,
    {
        let b = &blocks[i];
        proof {
            assert(blocks@.take(i + 1).drop_last() =~= blocks@.take(i as int));
            assert(blocks@.take(i + 1).last() == blocks@[i as int]);
        }
        let mut unknown_tile = false;
        let mut t: usize = 0;
        while t < b.tiles.len()
            invariant
                t <= b.tiles@.len(),
                unknown_tile == b.tiles@.take(t as int).contains(unknown),
            decreases b.tiles@.len() - t,
        {
            proof {
                assert(b.tiles@.take(t + 1) =~= b.tiles@.take(t as int).push(b.tiles@[t as int]));
            }
            if b.tiles[t] == unknown {
                unknown_tile = true;
            }
            proof {
                let s0 = b.tiles@.take(t as int);
                let s1 = b.tiles@.take(t + 1);
                if s0.contains(unknown) {
                    let k = choose|k: int| 0 <= k < s0.len() && s0[k] == unknown;
                    assert(s1[k] == unknown);
                }
                if b.tiles@[t as int] == unknown {
                    assert(s1[t as int] == unknown);
                }
                if s1.contains(unknown) {
                    let k = choose|k: int| 0 <= k < s1.len() && s1[k] == unknown;
                    if k < t {
                        assert(s0[k] == unknown);
                    }
                }
            }
            t = t + 1;
        }
        assert(b.tiles@.take(b.tiles@.len() as int) =~= b.tiles@);
        proof {
            reveal_strlit("base:unknown");
        }
        if unknown_tile && !crate::text::str_eq(b.name.as_str(), "base:unknown") {
            let mut line = String::from_str("block ");
            line.append(b.name.as_str());
            line.append(" has no real texture");
            out.push(line);
        }
        i = i + 1;
        assert(texts(out@) =~= block_texture_msgs(blocks@.take(i as int), unknown));
    }
    assert(blocks@.take(blocks@.len() as int) =~= blocks@);
    let ghost head = texts(out@);
    let mut j: usize = 0;
    assert(items@.take(0) =~= Seq::<ItemTexture>::empty());
    assert(texts(out@) =~= head + item_texture_msgs(items@.take(0), unknown));
    while j < items.len()
        invariant
            j <= items@.len(),
            texts(out@) == head + item_texture_msgs(items@.take(j as int), unknown),
        decreases items@.len() - j,
    {
        proof {
            assert(items@.take(j + 1).drop_last() =~= items@.take(j as int));
            assert(items@.take(j + 1).last() == items@[j as int]);
        }
        if items[j].icon == unknown {
            let mut line = String::from_str("item ");
            line.append(items[j].name.as_str());
            line.append(" has no real texture");
            let ghost prev = texts(out@);
            let ghost lv = line@;
            out.push(line);
            assert(texts(out@) =~= prev.push(lv));
        }
        j = j + 1;
        assert(texts(out@) =~= head + item_texture_msgs(items@.take(j as int), unknown));
    }
    assert(items@.take(items@.len() as int) =~= items@);
    out
}

/// Qualify a loaded mod tree: each mod that failed to load, then the
/// material and arcane contract errors the loader reported, missing
/// textures, every content-graph problem (`content_errors`), and script
/// compile errors, in that order.
pub fn qualify_mods(
    mods_dir: &str,
    mods: &Vec<LoadedMod>,
    material_errors: &Vec<String>,
    arcane_errors: &Vec<String>,
    blocks: &Vec<BlockTextures>,
    items: &Vec<ItemTexture>,
    unknown_tile: u16,
    graph: &crate::content_graph::ContentGraph,
    checks: &crate::content_checks::ContentChecks,
    script_errors: &Vec<String>,
) -> (r: ModLintReport)
    requires
        checks.items@.len() <= 0x10000,
    ensures
        r.mods_dir@ == mods_dir@,
        texts(r.failures@) == mod_error_msgs(mods@) + texts(material_errors@) + texts(arcane_errors@)
            + block_texture_msgs(blocks@, unknown_tile) + item_texture_msgs(items@, unknown_tile)
            + crate::content_checks::spec_content_errors(*graph, *checks) + texts(script_errors@),
        r.warnings@.len() == 0,
{
    let mut failures: Vec<String> = Vec::new();
    let mut i: usize = 0;
    assert(mods@.take(0) =~= Seq::<LoadedMod>::empty());
    assert(texts(failures@) =~= mod_error_msgs(mods@.take(0)));
    while i < mods.len()
        invariant
            i <= mods@.len(),
            texts(failures@) == mod_error_msgs(mods@.take(i as int)),
        decreases mods@.len() - i,
    {
        proof {
            assert(mods@.take(i + 1).drop_last() =~= mods@.take(i as int));
            assert(mods@.take(i + 1).last() == mods@[i as int]);
        }
        match &mods[i].error {
            Some(e) => {
                let mut line = String::from_str("mod ");
                line.append(mods[i].id.as_str());
                line.append(": ");
                line.append(e.as_str());
                failures.push(line);
            },
            None => {},
        }
        i = i + 1;
        assert(texts(failures@) =~= mod_error_msgs(mods@.take(i as int)));
    }
    assert(mods@.take(mods@.len() as int) =~= mods@);
    push_all(&mut failures, material_errors);
    push_all(&mut failures, arcane_errors);
    let missing = missing_textures(blocks, items, unknown_tile);
    push_all(&mut failures, &missing);
    let content = crate::content_checks::content_errors(graph, checks);
    push_all(&mut failures, &content);
    push_all(&mut failures, script_errors);
    ModLintReport { mods_dir: String::from_str(mods_dir), failures, warnings: Vec::new() }
}

} // verus!
