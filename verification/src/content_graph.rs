//! The survival content graph: which items a solo player can reach from the
//! world's sources by closing over every way content converts items into
//! others (crafting, smelting, the steelworks, anvil work, wear and
//! dismantling, forge salvage, implements, the apothecary, code-path
//! converters, the kiln and the separator).

use vstd::prelude::*;

verus! {

/// One way content turns items into others: when, for each of `needs`, the
/// player holds some item of that list, every item of `gives` becomes
/// obtainable. An empty alternatives list can never be met.
pub struct Conversion {
    pub needs: Vec<Vec<u16>>,
    pub gives: Vec<u16>,
}

/// The content graph by item id: the world's sources and each kind of
/// conversion.
pub struct ContentGraph {
    /// Block drops and bonus drops of breakable blocks, harvests, animal
    /// drops, loot entries, and items the world gives outright.
    pub sources: Vec<u16>,
    /// Crafting recipes: pattern ingredients to the output and byproducts.
    pub recipes: Vec<Conversion>,
    /// Smelting: input to output and spit.
    pub smelts: Vec<Conversion>,
    /// The steelworks: charge and fuel to bloom (and slag).
    pub bloomery: Vec<Conversion>,
    /// Anvil work: input to worked output.
    pub worked: Vec<Conversion>,
    /// Wear and dismantling: an item to what it breaks or dismantles into.
    pub wear: Vec<Conversion>,
    /// Forge salvage: input to output and byproduct.
    pub forge_salvage: Vec<Conversion>,
    /// Implement assembly and failure.
    pub implements: Vec<Conversion>,
    /// Apothecary preparations and carriers.
    pub alchemy: Vec<Conversion>,
    /// Code-path converters: buckets, curing, spoilage, dung, compost.
    pub code_paths: Vec<Conversion>,
    /// The kiln: sand and fuel to clear glass, powders to coloured glass.
    pub kiln: Vec<Conversion>,
    /// The separator: mixed powders to their elements.
    pub separation: Vec<Conversion>,
}

pub open spec fn conv_view(c: Conversion) -> (Seq<Seq<u16>>, Seq<u16>) {
    (c.needs@.map_values(|n: Vec<u16>| n@), c.gives@)
}

/// Every conversion of the graph, kind after kind.
pub open spec fn conversions(g: ContentGraph) -> Seq<Conversion> {
    g.recipes@ + g.smelts@ + g.bloomery@ + g.worked@ + g.wear@ + g.forge_salvage@ + g.implements@ + g.alchemy@
        + g.code_paths@ + g.kiln@ + g.separation@
}

/// `s` holds some item of `alts`.
pub open spec fn alt_met(alts: Seq<u16>, s: Set<u16>) -> bool {
    exists|j: int| 0 <= j < alts.len() && s.contains(#[trigger] alts[j])
}

/// `s` holds some item of every alternatives list of `c`.
pub open spec fn needs_met(c: Conversion, s: Set<u16>) -> bool {
    forall|k: int| 0 <= k < c.needs@.len() ==> alt_met(#[trigger] c.needs@[k]@, s)
}

/// `s` is closed under every conversion of `cs`.
pub open spec fn closed_under(cs: Seq<Conversion>, s: Set<u16>) -> bool {
    forall|i: int| 0 <= i < cs.len() && needs_met(#[trigger] cs[i], s) ==> forall|j: int|
        0 <= j < cs[i].gives@.len() ==> s.contains(#[trigger] cs[i].gives@[j])
}

/// `s` holds every source and is closed under every conversion.
pub open spec fn closed(g: ContentGraph, s: Set<u16>) -> bool {
    &&& forall|i: int| 0 <= i < g.sources@.len() ==> s.contains(#[trigger] g.sources@[i])
    &&& closed_under(conversions(g), s)
}

/// The obtainable items: the least set of item ids that holds every source
/// and is closed under every conversion.
pub open spec fn spec_obtainable(g: ContentGraph) -> Set<u16> {
    Set::new(|x: u16| forall|s: Set<u16>| #[trigger] closed(g, s) ==> s.contains(x))
}

/// The set of ids marked in `seen`.
pub open spec fn marked(seen: Seq<bool>) -> Set<u16> {
    Set::new(|x: u16| seen[x as int])
}

pub open spec fn state_ok(found: Seq<u16>, seen: Seq<bool>) -> bool {
    &&& seen.len() == 0x10000
    &&& found.no_duplicates()
    &&& forall|x: u16| #[trigger] seen[x as int] <==> found.contains(x)
}

proof fn lemma_found_bounded(found: Seq<u16>)
    requires
        found.no_duplicates(),
    ensures
        found.len() <= 0x10000,
{
    let ints = found.map_values(|x: u16| x as int);
    assert(ints.no_duplicates()) by {
        assert forall|a: int, b: int| 0 <= a < b < ints.len() implies ints[a] != ints[b] by {
            assert(found[a] != found[b]);
        }
    }
    ints.unique_seq_to_set();
    vstd::set_lib::lemma_int_range(0, 0x10000);
    assert(ints.to_set().subset_of(vstd::set_lib::set_int_range(0, 0x10000))) by {
        assert forall|v: int| ints.to_set().contains(v) implies vstd::set_lib::set_int_range(0, 0x10000).contains(v) by {
            let k = choose|k: int| 0 <= k < ints.len() && ints[k] == v;
        }
    }
    vstd::set_lib::lemma_len_subset(ints.to_set(), vstd::set_lib::set_int_range(0, 0x10000));
}

/// Mark `x` obtainable unless it already is.
fn mark(found: &mut Vec<u16>, seen: &mut Vec<bool>, x: u16) -> (added: bool)
    requires
        state_ok(old(found)@, old(seen)@),
    ensures
        state_ok(final(found)@, final(seen)@),
        marked(final(seen)@) == marked(old(seen)@).insert(x),
        added == !marked(old(seen)@).contains(x),
        final(found)@.len() == old(found)@.len() + if added { 1int } else { 0int },
{
    if seen[x as usize] {
        assert(marked(seen@) =~= marked(seen@).insert(x));
        return false;
    }
    let ghost f0 = found@;
    let ghost s0 = seen@;
    proof {
        lemma_found_bounded(f0);
    }
    seen.set(x as usize, true);
    found.push(x);
    proof {
        assert forall|y: u16| #[trigger] seen@[y as int] <==> found@.contains(y) by {
            if y == x {
                assert(found@[f0.len() as int] == x);
            } else {
                assert(seen@[y as int] == s0[y as int]);
                if f0.contains(y) {
                    let k = choose|k: int| 0 <= k < f0.len() && f0[k] == y;
                    assert(found@[k] == y);
                }
                if found@.contains(y) {
                    let k = choose|k: int| 0 <= k < found@.len() && found@[k] == y;
                    assert(f0[k] == y);
                }
            }
        }
        assert(found@.no_duplicates()) by {
            assert forall|a: int, b: int| 0 <= a < b < found@.len() implies found@[a] != found@[b] by {
                if b == f0.len() {
                    assert(found@[a] == f0[a]);
                    assert(f0.contains(f0[a]));
                }
            }
        }
        assert(marked(seen@) =~= marked(s0).insert(x));
    }
    true
}

fn conversion_ready(c: &Conversion, seen: &Vec<bool>) -> (r: bool)
    requires
        seen@.len() == 0x10000,
    ensures
        r == needs_met(*c, marked(seen@)),
{
    let mut k: usize = 0;
    while k < c.needs.len()
        invariant
            seen@.len() == 0x10000,
            k <= c.needs@.len(),
            forall|a: int| 0 <= a < k ==> alt_met(#[trigger] c.needs@[a]@, marked(seen@)),
        decreases c.needs@.len() - k,
    {
        let alternatives = &c.needs[k];
        let mut any = false;
        let mut j: usize = 0;
        while j < alternatives.len()
            invariant
                seen@.len() == 0x10000,
                j <= alternatives@.len(),
                !any ==> forall|b: int| 0 <= b < j ==> !marked(seen@).contains(alternatives@[b]),
                any ==> exists|b: int| 0 <= b < alternatives@.len() && marked(seen@).contains(#[trigger] alternatives@[b]),
            decreases alternatives@.len() - j,
        {
            if seen[alternatives[j] as usize] {
                any = true;
                assert(marked(seen@).contains(alternatives@[j as int]));
            }
            j = j + 1;
        }
        if !any {
            return false;
        }
        k = k + 1;
    }
    true
}

/// Apply each conversion of `cs` once, in order, against the growing set.
fn apply_pass(cs: &Vec<Conversion>, found: &mut Vec<u16>, seen: &mut Vec<bool>) -> (grew: bool)
    requires
        state_ok(old(found)@, old(seen)@),
    ensures
        state_ok(final(found)@, final(seen)@),
        marked(old(seen)@).subset_of(marked(final(seen)@)),
        forall|s: Set<u16>| marked(old(seen)@).subset_of(s) && #[trigger] closed_under(cs@, s) ==> marked(final(seen)@).subset_of(s),
        !grew ==> marked(final(seen)@) == marked(old(seen)@) && closed_under(cs@, marked(old(seen)@)),
        grew ==> final(found)@.len() > old(found)@.len(),
        final(found)@.len() >= old(found)@.len(),
{
    let ghost start = marked(seen@);
    let ghost n0 = found@.len();
    let mut grew = false;
    let mut i: usize = 0;
    while i < cs.len()
        invariant
            i <= cs@.len(),
            state_ok(found@, seen@),
            start.subset_of(marked(seen@)),
            forall|s: Set<u16>| start.subset_of(s) && #[trigger] closed_under(cs@, s) ==> marked(seen@).subset_of(s),
            !grew ==> marked(seen@) == start,
            !grew ==> forall|a: int| 0 <= a < i && needs_met(#[trigger] cs@[a], start) ==> forall|j: int|
                0 <= j < cs@[a].gives@.len() ==> start.contains(#[trigger] cs@[a].gives@[j]),
            grew ==> found@.len() > n0,
            found@.len() >= n0,
        decreases cs@.len() - i,
    {
        let c = &cs[i];
        if conversion_ready(c, seen) {
            let ghost before = marked(seen@);
            let ghost grew_before = grew;
            let mut j: usize = 0;
            while j < c.gives.len()
                invariant
                    j <= c.gives@.len(),
                    state_ok(found@, seen@),
                    start.subset_of(before),
                    before.subset_of(marked(seen@)),
                    forall|b: int| 0 <= b < j ==> marked(seen@).contains(#[trigger] c.gives@[b]),
                    forall|s: Set<u16>| before.subset_of(s) && (forall|b: int| 0 <= b < c.gives@.len() ==> s.contains(
                        #[trigger] c.gives@[b],
                    )) ==> marked(seen@).subset_of(s),
                    !grew ==> marked(seen@) == before,
                    grew_before ==> grew,
                    grew ==> found@.len() > n0,
                    found@.len() >= n0,
                    !grew_before ==> before == start,
                decreases c.gives@.len() - j,
            {
                let added = mark(found, seen, c.gives[j]);
                if added {
                    grew = true;
                }
                j = j + 1;
            }
            proof {
                assert forall|s: Set<u16>| start.subset_of(s) && #[trigger] closed_under(cs@, s) implies marked(seen@).subset_of(s) by {
                    assert(before.subset_of(s));
                    if needs_met(cs@[i as int], before) {
                        assert forall|k: int| 0 <= k < c.needs@.len() implies alt_met(#[trigger] c.needs@[k]@, s) by {
                            assert(alt_met(c.needs@[k]@, before));
                            let jj = choose|jj: int| 0 <= jj < c.needs@[k]@.len() && before.contains(#[trigger] c.needs@[k]@[jj]);
                        }
                        assert(needs_met(cs@[i as int], s));
                    }
                }
                if !grew {
                    assert forall|a: int| 0 <= a < i + 1 && needs_met(#[trigger] cs@[a], start) implies forall|j: int|
                        0 <= j < cs@[a].gives@.len() ==> start.contains(#[trigger] cs@[a].gives@[j]) by {
                        if a == i {
                            assert forall|jj: int| 0 <= jj < cs@[a].gives@.len() implies start.contains(#[trigger] cs@[a].gives@[jj]) by {
                                assert(marked(seen@).contains(c.gives@[jj]));
                            }
                        }
                    }
                }
            }
        } else {
            proof {
                if !grew {
                    assert forall|a: int| 0 <= a < i + 1 && needs_met(#[trigger] cs@[a], start) implies forall|j: int|
                        0 <= j < cs@[a].gives@.len() ==> start.contains(#[trigger] cs@[a].gives@[j]) by {
                        if a == i {
                            assert(!needs_met(cs@[a], marked(seen@)));
                        }
                    }
                }
            }
        }
        i = i + 1;
    }
    grew
}

proof fn lemma_closed_parts(g: ContentGraph, s: Set<u16>)
    ensures
        closed_under(conversions(g), s) <==> (closed_under(g.recipes@, s) && closed_under(g.smelts@, s) && closed_under(
            g.bloomery@,
            s,
        ) && closed_under(g.worked@, s) && closed_under(g.wear@, s) && closed_under(g.forge_salvage@, s) && closed_under(
            g.implements@,
            s,
        ) && closed_under(g.alchemy@, s) && closed_under(g.code_paths@, s) && closed_under(g.kiln@, s) && closed_under(
            g.separation@,
            s,
        )),
{
    lemma_closed_concat(g.recipes@, g.smelts@, s);
    lemma_closed_concat(g.recipes@ + g.smelts@, g.bloomery@, s);
    lemma_closed_concat(g.recipes@ + g.smelts@ + g.bloomery@, g.worked@, s);
    lemma_closed_concat(g.recipes@ + g.smelts@ + g.bloomery@ + g.worked@, g.wear@, s);
    lemma_closed_concat(g.recipes@ + g.smelts@ + g.bloomery@ + g.worked@ + g.wear@, g.forge_salvage@, s);
    lemma_closed_concat(g.recipes@ + g.smelts@ + g.bloomery@ + g.worked@ + g.wear@ + g.forge_salvage@, g.implements@, s);
    lemma_closed_concat(
        g.recipes@ + g.smelts@ + g.bloomery@ + g.worked@ + g.wear@ + g.forge_salvage@ + g.implements@,
        g.alchemy@,
        s,
    );
    lemma_closed_concat(
        g.recipes@ + g.smelts@ + g.bloomery@ + g.worked@ + g.wear@ + g.forge_salvage@ + g.implements@ + g.alchemy@,
        g.code_paths@,
        s,
    );
    lemma_closed_concat(
        g.recipes@ + g.smelts@ + g.bloomery@ + g.worked@ + g.wear@ + g.forge_salvage@ + g.implements@ + g.alchemy@
            + g.code_paths@,
        g.kiln@,
        s,
    );
    lemma_closed_concat(
        g.recipes@ + g.smelts@ + g.bloomery@ + g.worked@ + g.wear@ + g.forge_salvage@ + g.implements@ + g.alchemy@
            + g.code_paths@ + g.kiln@,
        g.separation@,
        s,
    );
}

proof fn lemma_closed_concat(a: Seq<Conversion>, b: Seq<Conversion>, s: Set<u16>)
    ensures
        closed_under(a + b, s) <==> (closed_under(a, s) && closed_under(b, s)),
{
    let ab = a + b;
    if closed_under(ab, s) {
        assert forall|i: int| 0 <= i < a.len() && needs_met(#[trigger] a[i], s) implies forall|j: int|
            0 <= j < a[i].gives@.len() ==> s.contains(#[trigger] a[i].gives@[j]) by {
            assert(ab[i] == a[i]);
        }
        assert forall|i: int| 0 <= i < b.len() && needs_met(#[trigger] b[i], s) implies forall|j: int|
            0 <= j < b[i].gives@.len() ==> s.contains(#[trigger] b[i].gives@[j]) by {
            assert(ab[a.len() + i] == b[i]);
        }
    }
    if closed_under(a, s) && closed_under(b, s) {
        assert forall|i: int| 0 <= i < ab.len() && needs_met(#[trigger] ab[i], s) implies forall|j: int|
            0 <= j < ab[i].gives@.len() ==> s.contains(#[trigger] ab[i].gives@[j]) by {
            if i < a.len() {
                assert(ab[i] == a[i]);
            } else {
                assert(ab[i] == b[i - a.len()]);
            }
        }
    }
}

/// Every item a solo player can reach, each once: exactly the least set
/// that holds the world's sources and is closed under every conversion.
pub fn obtainable_items(g: &ContentGraph) -> (ok: Vec<u16>)
    ensures
        ok@.no_duplicates(),
        ok@.to_set() == spec_obtainable(*g),
{
    let mut found: Vec<u16> = Vec::new();
    let mut seen: Vec<bool> = Vec::new();
    let mut z: usize = 0;
    while z < 0x10000
        invariant
            z <= 0x10000,
            seen@.len() == z,
            forall|k: int| 0 <= k < z ==> !seen@[k],
        decreases 0x10000 - z,
    {
        seen.push(false);
        z = z + 1;
    }
    let mut i: usize = 0;
    while i < g.sources.len()
        invariant
            i <= g.sources@.len(),
            state_ok(found@, seen@),
            forall|s: Set<u16>| #[trigger] closed(*g, s) ==> marked(seen@).subset_of(s),
            forall|k: int| 0 <= k < i ==> marked(seen@).contains(#[trigger] g.sources@[k]),
        decreases g.sources@.len() - i,
    {
        mark(&mut found, &mut seen, g.sources[i]);
        i = i + 1;
    }
    loop
        invariant
            state_ok(found@, seen@),
            forall|s: Set<u16>| #[trigger] closed(*g, s) ==> marked(seen@).subset_of(s),
            forall|k: int| 0 <= k < g.sources@.len() ==> marked(seen@).contains(#[trigger] g.sources@[k]),
        decreases 0x10000 - found@.len(),
    {
        let ghost n0 = found@.len();
        let ghost m0 = marked(seen@);
        proof {
            lemma_found_bounded(found@);
            assert forall|s: Set<u16>| #[trigger] closed(*g, s) implies closed_under(g.recipes@, s) && closed_under(g.smelts@, s)
                && closed_under(g.bloomery@, s) && closed_under(g.worked@, s) && closed_under(g.wear@, s) && closed_under(
                g.forge_salvage@,
                s,
            ) && closed_under(g.implements@, s) && closed_under(g.alchemy@, s) && closed_under(g.code_paths@, s)
                && closed_under(g.kiln@, s) && closed_under(g.separation@, s) by {
                lemma_closed_parts(*g, s);
            }
        }
        let g1 = apply_pass(&g.recipes, &mut found, &mut seen);
        let g2 = apply_pass(&g.smelts, &mut found, &mut seen);
        let g3 = apply_pass(&g.bloomery, &mut found, &mut seen);
        let g4 = apply_pass(&g.worked, &mut found, &mut seen);
        let g5 = apply_pass(&g.wear, &mut found, &mut seen);
        let g6 = apply_pass(&g.forge_salvage, &mut found, &mut seen);
        let g7 = apply_pass(&g.implements, &mut found, &mut seen);
        let g8 = apply_pass(&g.alchemy, &mut found, &mut seen);
        let g9 = apply_pass(&g.code_paths, &mut found, &mut seen);
        let g10 = apply_pass(&g.kiln, &mut found, &mut seen);
        let g11 = apply_pass(&g.separation, &mut found, &mut seen);
        let grew = g1 || g2 || g3 || g4 || g5 || g6 || g7 || g8 || g9 || g10 || g11;
        if !grew {
            proof {
                assert(marked(seen@) == m0);
                lemma_closed_parts(*g, m0);
                assert(closed(*g, m0));
                assert(found@.to_set() =~= spec_obtainable(*g)) by {
                    assert forall|x: u16| found@.to_set().contains(x) <==> spec_obtainable(*g).contains(x) by {
                        assert(seen@[x as int] <==> found@.contains(x));
                        if found@.contains(x) {
                            assert forall|s: Set<u16>| #[trigger] closed(*g, s) implies s.contains(x) by {
                                assert(marked(seen@).contains(x));
                            }
                        }
                        if spec_obtainable(*g).contains(x) {
                            assert(closed(*g, m0) ==> m0.contains(x));
                        }
                    }
                }
            }
            return found;
        }
        proof {
            lemma_found_bounded(found@);
        }
    }
}

proof fn lemma_closed_under_concat(a: Seq<Conversion>, b: Seq<Conversion>, s: Set<u16>)
    ensures
        closed_under(a + b, s) <==> (closed_under(a, s) && closed_under(b, s)),
{
    let ab = a + b;
    if closed_under(ab, s) {
        assert forall|i: int| 0 <= i < a.len() && needs_met(#[trigger] a[i], s) implies forall|j: int|
            0 <= j < a[i].gives@.len() ==> s.contains(#[trigger] a[i].gives@[j]) by {
            assert(ab[i] == a[i]);
        }
        assert forall|i: int| 0 <= i < b.len() && needs_met(#[trigger] b[i], s) implies forall|j: int|
            0 <= j < b[i].gives@.len() ==> s.contains(#[trigger] b[i].gives@[j]) by {
            assert(ab[a.len() + i] == b[i]);
        }
    }
    if closed_under(a, s) && closed_under(b, s) {
        assert forall|i: int| 0 <= i < ab.len() && needs_met(#[trigger] ab[i], s) implies forall|j: int|
            0 <= j < ab[i].gives@.len() ==> s.contains(#[trigger] ab[i].gives@[j]) by {
            if i < a.len() {
                assert(ab[i] == a[i]);
            } else {
                assert(ab[i] == b[i - a.len()]);
            }
        }
    }
}

/// `s` holds every source and is closed under each kind of conversion.
pub open spec fn closed_by_kind(g: ContentGraph, s: Set<u16>) -> bool {
    &&& forall|i: int| 0 <= i < g.sources@.len() ==> s.contains(#[trigger] g.sources@[i])
    &&& closed_under(g.recipes@, s)
    &&& closed_under(g.smelts@, s)
    &&& closed_under(g.bloomery@, s)
    &&& closed_under(g.worked@, s)
    &&& closed_under(g.wear@, s)
    &&& closed_under(g.forge_salvage@, s)
    &&& closed_under(g.implements@, s)
    &&& closed_under(g.alchemy@, s)
    &&& closed_under(g.code_paths@, s)
    &&& closed_under(g.kiln@, s)
    &&& closed_under(g.separation@, s)
}

proof fn lemma_closed_iff_by_kind(g: ContentGraph, s: Set<u16>)
    ensures
        closed(g, s) <==> closed_by_kind(g, s),
{
    let c1 = g.recipes@ + g.smelts@;
    let c2 = c1 + g.bloomery@;
    let c3 = c2 + g.worked@;
    let c4 = c3 + g.wear@;
    let c5 = c4 + g.forge_salvage@;
    let c6 = c5 + g.implements@;
    let c7 = c6 + g.alchemy@;
    let c8 = c7 + g.code_paths@;
    let c9 = c8 + g.kiln@;
    lemma_closed_under_concat(g.recipes@, g.smelts@, s);
    lemma_closed_under_concat(c1, g.bloomery@, s);
    lemma_closed_under_concat(c2, g.worked@, s);
    lemma_closed_under_concat(c3, g.wear@, s);
    lemma_closed_under_concat(c4, g.forge_salvage@, s);
    lemma_closed_under_concat(c5, g.implements@, s);
    lemma_closed_under_concat(c6, g.alchemy@, s);
    lemma_closed_under_concat(c7, g.code_paths@, s);
    lemma_closed_under_concat(c8, g.kiln@, s);
    lemma_closed_under_concat(c9, g.separation@, s);
    assert(conversions(g) == c9 + g.separation@);
}

/// The obtainable items hold every world source and everything each kind
/// of conversion (crafting, smelting, the steelworks, anvil work, wear and
/// dismantling, forge salvage, implements, the apothecary, code paths, the
/// kiln, the separator) makes from obtainable items; and every set with
/// those properties holds all of them, so nothing else is obtainable.
pub proof fn lemma_obtainable_is_least_closed(g: ContentGraph)
    ensures
        closed_by_kind(g, spec_obtainable(g)),
        forall|s: Set<u16>| #[trigger] closed_by_kind(g, s) ==> spec_obtainable(g).subset_of(s),
{
    let ob = spec_obtainable(g);
    assert forall|s: Set<u16>| #[trigger] closed_by_kind(g, s) implies ob.subset_of(s) by {
        lemma_closed_iff_by_kind(g, s);
    }
    assert forall|i: int| 0 <= i < g.sources@.len() implies ob.contains(#[trigger] g.sources@[i]) by {
        assert forall|s: Set<u16>| #[trigger] closed(g, s) implies s.contains(g.sources@[i]) by {}
    }
    let cs = conversions(g);
    assert(closed_under(cs, ob)) by {
        assert forall|i: int| 0 <= i < cs.len() && needs_met(#[trigger] cs[i], ob) implies forall|j: int|
            0 <= j < cs[i].gives@.len() ==> ob.contains(#[trigger] cs[i].gives@[j]) by {
            assert forall|j: int| 0 <= j < cs[i].gives@.len() implies ob.contains(#[trigger] cs[i].gives@[j]) by {
                assert forall|s: Set<u16>| #[trigger] closed(g, s) implies s.contains(cs[i].gives@[j]) by {
                    assert forall|k: int| 0 <= k < cs[i].needs@.len() implies alt_met(#[trigger] cs[i].needs@[k]@, s) by {
                        assert(alt_met(cs[i].needs@[k]@, ob));
                        let t = choose|t: int| 0 <= t < cs[i].needs@[k]@.len() && ob.contains(#[trigger] cs[i].needs@[k]@[t]);
                        assert(s.contains(cs[i].needs@[k]@[t]));
                    }
                    assert(needs_met(cs[i], s));
                }
            }
        }
    }
    assert(closed(g, ob));
    lemma_closed_iff_by_kind(g, ob);
}

} // verus!
