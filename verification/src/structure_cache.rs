//! Cell structures as the router needs them: their pins, and where their block types landed
//! in the output palette.

use vstd::prelude::*;

use itertools::Itertools;

use crate::block_storage::{entries_view, keys_distinct, Block, BlockStorage, BlockTypeIndex, BlockView, PropertyValue, PropertyValueView};
use crate::cell_params::{assoc_get, assoc_lookup};
use crate::netlist::{PinDirection, PinMetadata};
use crate::design::Cell;
use crate::text::{ends_with, int_literal, parse_u32_decimal, spec_ends_with, split_after, str_eq, text_after, value_within};
use crate::wire_segment::{add_material, is_first_index, lemma_first_index_kept, palette_with};

verus! {

/// A property value of a structure's palette entry.
pub enum NbtTag {
    Byte(i8),
    String(String),
    /// Any other kind of tag.
    Other,
}

/// A palette entry of a structure.
pub struct PaletteBlock {
    pub name: String,
    pub properties: Option<Vec<(String, NbtTag)>>,
}

/// The three first lines of a pin sign as stored: each a JSON text component, whose text is
/// the port name, the direction, and the derating.
pub struct SignText {
    pub text1: String,
    pub text2: String,
    pub text3: String,
}

/// A block of a structure: its palette entry, its position within the structure, and the
/// text of the sign it is, if it is one.
pub struct StructureBlock {
    pub state: i32,
    pub pos: [i32; 3],
    pub sign: Option<SignText>,
}

/// A cell structure: its size, palette and blocks.
pub struct Structure {
    pub data_version: i32,
    pub size: [i32; 3],
    pub palette: Vec<PaletteBlock>,
    pub blocks: Vec<StructureBlock>,
}

/// A cell structure prepared for routing.
pub struct RoutableStructure {
    /// The structure itself.
    pub structure: Structure,
    /// Output palette index of each entry of the structure's own palette.
    pub palette_palette_map: Vec<BlockTypeIndex>,
    /// The structure's pins, by port name.
    pub pins: Vec<(String, PinMetadata)>,
}

/// The routable structures of the cell types of a design, by name.
pub struct StructureCache {
    pub structures: Vec<(String, RoutableStructure)>,
}

/// The distinct cell types of `cells` that name structure files, in order of first use.
pub open spec fn structure_names_of(cells: Seq<Cell>) -> Seq<Seq<char>>
    decreases cells.len(),
{
    if cells.len() == 0 {
        Seq::empty()
    } else {
        let prev = structure_names_of(cells.drop_last());
        let ty = cells.last().ty@;
        if spec_ends_with(ty, ".nbt"@) && !prev.contains(ty) {
            prev.push(ty)
        } else {
            prev
        }
    }
}

/// The distinct cell types of `cells` that name structure files (those ending in `.nbt`), in
/// order of first use: the structures a design needs loaded.
pub fn structure_names(cells: &Vec<Cell>) -> (r: Vec<String>)
    ensures
        r@.map_values(|s: String| s@) == structure_names_of(cells@),
{
    let mut out: Vec<String> = Vec::new();
    let n = cells.len();
    let mut i: usize = 0;
    proof {
        reveal_strlit(".nbt");
        assert(cells@.take(0) =~= Seq::<Cell>::empty());
        assert(out@.map_values(|s: String| s@) =~= Seq::<Seq<char>>::empty());
    }
    while i < n
        invariant
            n == cells@.len(),
            i <= n,
            out@.map_values(|s: String| s@) == structure_names_of(cells@.take(i as int)),
        decreases n - i,
    {
        proof {
            assert(cells@.take(i + 1).drop_last() =~= cells@.take(i as int));
            assert(cells@.take(i + 1).last() == cells@[i as int]);
        }
        let ty = &cells[i].ty;
        if ends_with(ty.as_str(), ".nbt") {
            let ghost names = out@.map_values(|s: String| s@);
            let mut seen = false;
            let m = out.len();
            let mut j: usize = 0;
            while j < m
                invariant
                    m == out@.len(),
                    names == out@.map_values(|s: String| s@),
                    j <= m,
                    seen <==> exists|k: int| 0 <= k < j && names[k] == ty@,
                decreases m - j,
            {
                proof {
                    assert(names[j as int] == out@[j as int]@);
                }
                if str_eq(out[j].as_str(), ty.as_str()) {
                    seen = true;
                }
                j = j + 1;
            }
            proof {
                assert(seen <==> names.contains(ty@));
            }
            if !seen {
                out.push(ty.clone());
                proof {
                    assert(out@.map_values(|s: String| s@) =~= names.push(ty@));
                }
            }
        }
        i = i + 1;
    }
    proof {
        assert(cells@.take(n as int) =~= cells@);
    }
    out
}

/// The first structure of `ls` whose signs describe no pins is the `i`th, failing with `e`.
pub open spec fn first_pin_error(ls: Seq<(String, Structure)>, i: int, e: StructureError) -> bool {
    &&& 0 <= i < ls.len()
    &&& structure_pins(ls[i].1.blocks@) == Err::<Seq<(Seq<char>, PinMetadata)>, StructureError>(e)
    &&& forall|j: int| 0 <= j < i ==> structure_pins(#[trigger] ls[j].1.blocks@) is Ok
}

/// `rs` is the structure `s` prepared for routing, with no palette map yet.
pub open spec fn prepared_from(rs: RoutableStructure, s: Structure) -> bool {
    &&& rs.structure == s
    &&& rs.palette_palette_map@.len() == 0
    &&& structure_pins(s.blocks@) matches Ok(ps) && pins_view(rs.pins@) == ps && names_distinct(ps)
}

/// The sum of the palette lengths of the structures of `ss`.
pub open spec fn palettes_len(ss: Seq<(String, RoutableStructure)>) -> nat
    decreases ss.len(),
{
    if ss.len() == 0 {
        0
    } else {
        palettes_len(ss.drop_last()) + ss.last().1.structure.palette@.len()
    }
}

/// The output palette after adding the palettes of the structures of `ss`, in order.
pub open spec fn cache_palette_after(p: Seq<BlockView>, ss: Seq<(String, RoutableStructure)>) -> Seq<BlockView>
    decreases ss.len(),
{
    if ss.len() == 0 {
        p
    } else {
        palette_after(cache_palette_after(p, ss.drop_last()), ss.last().1.structure.palette@)
    }
}

/// Every palette entry of the structure is of a supported kind.
pub open spec fn structure_supported(rs: RoutableStructure) -> bool {
    forall|k: int| 0 <= k < rs.structure.palette@.len() ==> entry_supported(#[trigger] rs.structure.palette@[k])
}

/// The structure's palette map sends each palette entry to the first slot of its block type in
/// output palette `p`.
pub open spec fn palette_map_into(p: Seq<BlockView>, rs: RoutableStructure) -> bool {
    &&& rs.palette_palette_map@.len() == rs.structure.palette@.len()
    &&& forall|k: int| 0 <= k < rs.structure.palette@.len() ==> is_first_index(p,
        entry_view(rs.structure.palette@[k]), #[trigger] rs.palette_palette_map@[k].0 as int)
}

proof fn lemma_palette_after_extends(p: Seq<BlockView>, es: Seq<PaletteBlock>)
    ensures
        p.len() <= palette_after(p, es).len() <= p.len() + es.len(),
        palette_after(p, es).subrange(0, p.len() as int) == p,
    decreases es.len(),
{
    if es.len() > 0 {
        lemma_palette_after_extends(p, es.drop_last());
        let q = palette_after(p, es.drop_last());
        assert(q.push(entry_view(es.last())).subrange(0, p.len() as int) =~= q.subrange(0, p.len() as int));
    }
}

proof fn lemma_palette_map_kept(p: Seq<BlockView>, q: Seq<BlockView>, rs: RoutableStructure)
    requires
        palette_map_into(p, rs),
        p.len() <= q.len(),
        q.subrange(0, p.len() as int) == p,
    ensures
        palette_map_into(q, rs),
{
    assert forall|k: int| 0 <= k < rs.structure.palette@.len() implies is_first_index(q,
        entry_view(rs.structure.palette@[k]), #[trigger] rs.palette_palette_map@[k].0 as int) by {
        let i = rs.palette_palette_map@[k].0 as int;
        assert(is_first_index(p, entry_view(rs.structure.palette@[k]), i));
        assert forall|j: int| 0 <= j <= i implies q[j] == p[j] by {
            assert(q.subrange(0, p.len() as int)[j] == q[j]);
        }
    }
}

proof fn lemma_palettes_len_prefix(ss: Seq<(String, RoutableStructure)>, i: int)
    requires
        0 <= i < ss.len(),
    ensures
        palettes_len(ss.take(i)) + ss[i].1.structure.palette@.len() <= palettes_len(ss),
    decreases ss.len(),
{
    assert(ss.take(i + 1).drop_last() =~= ss.take(i));
    if i + 1 < ss.len() {
        lemma_palettes_len_prefix(ss.drop_last(), i);
        assert(ss.drop_last().take(i) =~= ss.take(i));
        assert(ss.drop_last()[i] == ss[i]);
    } else {
        assert(ss.take(i + 1) =~= ss);
    }
}

proof fn lemma_palette_after_contains(p: Seq<BlockView>, es: Seq<PaletteBlock>)
    ensures
        forall|i: int| 0 <= i < es.len() ==> palette_after(p, es).contains(#[trigger] entry_view(es[i])),
        forall|b: BlockView| p.contains(b) ==> palette_after(p, es).contains(b),
    decreases es.len(),
{
    if es.len() > 0 {
        let d = es.drop_last();
        lemma_palette_after_contains(p, d);
        let q = palette_after(p, d);
        let v = entry_view(es.last());
        assert forall|i: int| 0 <= i < es.len() implies palette_after(p, es).contains(#[trigger] entry_view(es[i])) by {
            if i < es.len() - 1 {
                assert(es[i] == d[i]);
                assert(q.contains(entry_view(d[i])));
                let k = choose|k: int| 0 <= k < q.len() && q[k] == entry_view(d[i]);
                if !q.contains(v) {
                    assert(q.push(v)[k] == entry_view(es[i]));
                }
            } else if !q.contains(v) {
                assert(q.push(v)[q.len() as int] == v);
            }
        }
        assert forall|b: BlockView| p.contains(b) implies palette_after(p, es).contains(b) by {
            assert(q.contains(b));
            let k = choose|k: int| 0 <= k < q.len() && q[k] == b;
            if !q.contains(v) {
                assert(q.push(v)[k] == b);
            }
        }
    }
}

proof fn lemma_palette_after_noop(q: Seq<BlockView>, es: Seq<PaletteBlock>)
    requires
        forall|i: int| 0 <= i < es.len() ==> q.contains(#[trigger] entry_view(es[i])),
    ensures
        palette_after(q, es) == q,
    decreases es.len(),
{
    if es.len() > 0 {
        let d = es.drop_last();
        assert forall|i: int| 0 <= i < d.len() implies q.contains(#[trigger] entry_view(d[i])) by {
            assert(d[i] == es[i]);
        }
        lemma_palette_after_noop(q, d);
        assert(q.contains(entry_view(es[es.len() - 1])));
    }
}

/// Every block type of every structure palette of `ss` is in `q`.
pub open spec fn holds_all_palettes(q: Seq<BlockView>, ss: Seq<(String, RoutableStructure)>) -> bool {
    forall|j: int, k: int| 0 <= j < ss.len() && 0 <= k < ss[j].1.structure.palette@.len()
        ==> q.contains(#[trigger] entry_view(ss[j].1.structure.palette@[k]))
}

proof fn lemma_cache_palette_after_holds(p: Seq<BlockView>, ss: Seq<(String, RoutableStructure)>)
    ensures
        holds_all_palettes(cache_palette_after(p, ss), ss),
        forall|b: BlockView| p.contains(b) ==> cache_palette_after(p, ss).contains(b),
    decreases ss.len(),
{
    if ss.len() > 0 {
        let d = ss.drop_last();
        lemma_cache_palette_after_holds(p, d);
        let q = cache_palette_after(p, d);
        let es = ss.last().1.structure.palette@;
        lemma_palette_after_contains(q, es);
        assert forall|j: int, k: int| 0 <= j < ss.len() && 0 <= k < ss[j].1.structure.palette@.len()
            implies cache_palette_after(p, ss).contains(#[trigger] entry_view(ss[j].1.structure.palette@[k])) by {
            if j < ss.len() - 1 {
                assert(ss[j] == d[j]);
                assert(q.contains(entry_view(d[j].1.structure.palette@[k])));
            } else {
                assert(es[k] == ss[j].1.structure.palette@[k]);
            }
        }
    }
}

proof fn lemma_cache_palette_after_noop(q: Seq<BlockView>, ss: Seq<(String, RoutableStructure)>)
    requires
        holds_all_palettes(q, ss),
    ensures
        cache_palette_after(q, ss) == q,
    decreases ss.len(),
{
    if ss.len() > 0 {
        let d = ss.drop_last();
        assert(holds_all_palettes(q, d)) by {
            assert forall|j: int, k: int| 0 <= j < d.len() && 0 <= k < d[j].1.structure.palette@.len()
                implies q.contains(#[trigger] entry_view(d[j].1.structure.palette@[k])) by {
                assert(d[j] == ss[j]);
            }
        }
        lemma_cache_palette_after_noop(q, d);
        let es = ss.last().1.structure.palette@;
        assert forall|i: int| 0 <= i < es.len() implies q.contains(#[trigger] entry_view(es[i])) by {
            assert(ss[ss.len() - 1].1.structure.palette@[i] == es[i]);
        }
        lemma_palette_after_noop(q, es);
    }
}

/// Building the palette maps a second time adds nothing to the output palette: after the
/// first time every block type of every structure is already there.
pub proof fn lemma_palette_maps_idempotent(p: Seq<BlockView>, ss: Seq<(String, RoutableStructure)>)
    ensures
        cache_palette_after(cache_palette_after(p, ss), ss) == cache_palette_after(p, ss),
{
    lemma_cache_palette_after_holds(p, ss);
    lemma_cache_palette_after_noop(cache_palette_after(p, ss), ss);
}

impl StructureCache {
    /// Prepares the loaded structures `loaded` (named by cell type) for routing, failing with
    /// the error of the first whose signs describe no pins.
    pub fn new(loaded: Vec<(String, Structure)>) -> (r: Result<StructureCache, StructureError>)
        ensures
            match r {
                Ok(c) => c.structures@.len() == loaded@.len() && forall|i: int| 0 <= i < loaded@.len() ==>
                    (#[trigger] c.structures@[i]).0 == loaded@[i].0 && prepared_from(c.structures@[i].1, loaded@[i].1),
                Err(e) => exists|i: int| first_pin_error(loaded@, i, e),
            },
    {
        let ghost ls = loaded@;
        let mut rest = loaded;
        let mut out: Vec<(String, RoutableStructure)> = Vec::new();
        let n = rest.len();
        let mut i: usize = 0;
        proof {
            assert(ls.subrange(0, n as int) =~= ls);
        }
        while i < n
            invariant
                n == ls.len(),
                ls == loaded@,
                i <= n,
                rest@ == ls.subrange(i as int, n as int),
                out@.len() == i,
                forall|j: int| 0 <= j < i ==> (#[trigger] out@[j]).0 == ls[j].0 && prepared_from(out@[j].1, ls[j].1),
                forall|j: int| 0 <= j < i ==> structure_pins(#[trigger] ls[j].1.blocks@) is Ok,
            decreases n - i,
        {
            let (name, s) = rest.remove(0);
            proof {
                assert(rest@ =~= ls.subrange(i + 1, n as int));
            }
            match RoutableStructure::new(s) {
                Ok(rs) => out.push((name, rs)),
                Err(e) => {
                    proof {
                        assert(first_pin_error(ls, i as int, e));
                    }
                    return Err(e);
                },
            }
            i = i + 1;
        }
        Ok(StructureCache { structures: out })
    }

    /// Adds the palettes of all structures to the output palette (where their block types are
    /// not there yet), recording each structure's palette map.
    pub fn build_palette_maps(&mut self, output: &mut BlockStorage) -> (r: Result<(), StructureError>)
        requires
            old(output).wf(),
            old(output)@.palette.len() + palettes_len(old(self).structures@) < u32::MAX,
            forall|i: int| 0 <= i < old(self).structures@.len() ==>
                palette_keys_distinct((#[trigger] old(self).structures@[i]).1.structure.palette@),
        ensures
            final(output).wf(),
            final(output)@.extents == old(output)@.extents,
            final(output)@.blocks == old(output)@.blocks,
            final(self).structures@.len() == old(self).structures@.len(),
            forall|i: int| 0 <= i < old(self).structures@.len() ==> {
                &&& (#[trigger] final(self).structures@[i]).0 == old(self).structures@[i].0
                &&& final(self).structures@[i].1.structure == old(self).structures@[i].1.structure
                &&& final(self).structures@[i].1.pins == old(self).structures@[i].1.pins
            },
            match r {
                Ok(()) => {
                    &&& final(output)@.palette == cache_palette_after(old(output)@.palette, old(self).structures@)
                    &&& forall|i: int| 0 <= i < old(self).structures@.len() ==> structure_supported(#[trigger] old(self).structures@[i].1)
                    &&& forall|i: int| 0 <= i < old(self).structures@.len() ==> palette_map_into(final(output)@.palette, #[trigger] final(self).structures@[i].1)
                },
                Err(e) => e == StructureError::UnsupportedTag
                    && exists|i: int| 0 <= i < old(self).structures@.len() && !structure_supported(#[trigger] old(self).structures@[i].1),
            },
    {
        let ghost ss = self.structures@;
        let ghost p0 = output@.palette;
        let n = self.structures.len();
        let mut i: usize = 0;
        proof {
            assert(ss.take(0) =~= Seq::<(String, RoutableStructure)>::empty());
        }
        while i < n
            invariant
                n == ss.len(),
                ss == old(self).structures@,
                p0 == old(output)@.palette,
                p0.len() + palettes_len(ss) < u32::MAX,
                forall|j: int| 0 <= j < n ==> palette_keys_distinct((#[trigger] ss[j]).1.structure.palette@),
                i <= n,
                output.wf(),
                output@.extents == old(output)@.extents,
                output@.blocks == old(output)@.blocks,
                output@.palette == cache_palette_after(p0, ss.take(i as int)),
                output@.palette.len() <= p0.len() + palettes_len(ss.take(i as int)),
                self.structures@.len() == n,
                forall|j: int| 0 <= j < n ==> {
                    &&& (#[trigger] self.structures@[j]).0 == ss[j].0
                    &&& self.structures@[j].1.structure == ss[j].1.structure
                    &&& self.structures@[j].1.pins == ss[j].1.pins
                },
                forall|j: int| i <= j < n ==> (#[trigger] self.structures@[j]) == ss[j],
                forall|j: int| 0 <= j < i ==> structure_supported(#[trigger] ss[j].1),
                forall|j: int| 0 <= j < i ==> palette_map_into(output@.palette, #[trigger] self.structures@[j].1),
            decreases n - i,
        {
            proof {
                assert(ss.take(i + 1).drop_last() =~= ss.take(i as int));
                assert(ss.take(i + 1).last() == ss[i as int]);
                lemma_palettes_len_prefix(ss, i as int);
            }
            let ghost before = self.structures@;
            let ghost pb = output@.palette;
            let (name, mut st) = self.structures.remove(i);
            let res = st.build_palette_map(output);
            self.structures.insert(i, (name, st));
            proof {
                assert(self.structures@ =~= before.update(i as int, (name, st)));
            }
            match res {
                Ok(()) => {
                    proof {
                        lemma_palette_after_extends(pb, ss[i as int].1.structure.palette@);
                        assert forall|j: int| 0 <= j < i + 1 implies palette_map_into(output@.palette, #[trigger] self.structures@[j].1) by {
                            if j < i {
                                lemma_palette_map_kept(pb, output@.palette, self.structures@[j].1);
                            }
                        }
                        assert forall|j: int| 0 <= j < i + 1 implies structure_supported(#[trigger] ss[j].1) by {
                            if j == i {
                                assert(st.structure == ss[j].1.structure);
                            }
                        }
                    }
                },
                Err(e) => {
                    proof {
                        assert(!structure_supported(ss[i as int].1));
                    }
                    return Err(e);
                },
            }
            i = i + 1;
        }
        proof {
            assert(ss.take(n as int) =~= ss);
        }
        Ok(())
    }

    /// The pins of cell type `name`, if the cache holds it.
    pub open spec fn pins_of(&self, name: Seq<char>) -> Option<Seq<(String, PinMetadata)>> {
        match assoc_lookup(self.structures@, name) {
            Some(s) => Some(s.pins@),
            None => None,
        }
    }

    /// The structure of cell type `name`, if the cache holds it.
    pub fn get(&self, name: &str) -> (r: Option<&RoutableStructure>)
        ensures
            match r {
                Some(s) => assoc_lookup(self.structures@, name@) == Some(*s),
                None => assoc_lookup(self.structures@, name@) is None,
            },
    {
        assoc_get(&self.structures, name)
    }
}

/// The block property value of a tag, if it is of a supported kind.
pub open spec fn tag_value(t: NbtTag) -> Option<PropertyValueView> {
    match t {
        NbtTag::Byte(b) => Some(PropertyValueView::Byte(b)),
        NbtTag::String(s) => Some(PropertyValueView::String(s@)),
        NbtTag::Other => None,
    }
}

/// Every tag of `ps` is of a supported kind.
pub open spec fn tags_supported(ps: Seq<(String, NbtTag)>) -> bool {
    forall|i: int| 0 <= i < ps.len() ==> tag_value(#[trigger] ps[i].1) is Some
}

/// The block type of a palette entry whose tags are all supported.
pub open spec fn entry_view(p: PaletteBlock) -> BlockView {
    BlockView {
        name: p.name@,
        properties: match p.properties {
            Some(ps) => Some(ps@.map_values(|e: (String, NbtTag)| (e.0@, tag_value(e.1).unwrap())).to_set()),
            None => None,
        },
    }
}

/// The palette entry has only supported tags.
pub open spec fn entry_supported(p: PaletteBlock) -> bool {
    match p.properties {
        Some(ps) => tags_supported(ps@),
        None => true,
    }
}

/// The property keys of every palette entry are distinct.
pub open spec fn palette_keys_distinct(p: Seq<PaletteBlock>) -> bool {
    forall|i: int| 0 <= i < p.len() ==> match (#[trigger] p[i]).properties {
        Some(ps) => forall|a: int, b: int| 0 <= a < ps@.len() && 0 <= b < ps@.len() && a != b ==> ps@[a].0@ != ps@[b].0@,
        None => true,
    }
}

/// The output palette after adding the block types of the palette entries `es`, in order.
pub open spec fn palette_after(p: Seq<BlockView>, es: Seq<PaletteBlock>) -> Seq<BlockView>
    decreases es.len(),
{
    if es.len() == 0 {
        p
    } else {
        palette_with(palette_after(p, es.drop_last()), entry_view(es.last()))
    }
}

/// Errors preparing a structure.
#[derive(Debug, PartialEq, Eq, Structural)]
pub enum StructureError {
    /// A palette entry has a property of a kind blocks do not have.
    UnsupportedTag,
    /// A pin sign's second line is neither `INPUT` nor `OUTPUT`.
    UnknownPinDirection,
    /// The derating after the dash on a pin sign's third line is not a number.
    DeratingUnparsable,
    /// A pin sign lies at a negative position within its structure.
    NegativeOffset(i32),
    /// Line 1, 2 or 3 of a pin sign is not a JSON text component with a string `text`.
    SignTextUnreadable(u8),
}

/// Converts a palette entry into a block type, refusing unsupported tags.
fn entry_block(p: &PaletteBlock) -> (r: Result<Block, StructureError>)
    requires
        match p.properties {
            Some(ps) => forall|a: int, b: int| 0 <= a < ps@.len() && 0 <= b < ps@.len() && a != b ==> ps@[a].0@ != ps@[b].0@,
            None => true,
        },
    ensures
        entry_supported(*p) ==> (r matches Ok(b) && b@ == entry_view(*p) && b.wf()),
        !entry_supported(*p) ==> r == Err::<Block, StructureError>(StructureError::UnsupportedTag),
{
    let properties = match &p.properties {
        None => None,
        Some(ps) => {
            let mut out: Vec<(String, PropertyValue)> = Vec::new();
            let mut i: usize = 0;
            while i < ps.len()
                invariant
                    p.properties == Some(*ps),
                    i <= ps@.len(),
                    out@.len() == i,
                    forall|j: int| 0 <= j < i ==> tag_value(#[trigger] ps@[j].1) is Some,
                    forall|j: int| 0 <= j < i ==> (#[trigger] out@[j]).0@ == ps@[j].0@ && Some(out@[j].1@) == tag_value(ps@[j].1),
                decreases ps@.len() - i,
            {
                let v = match &ps[i].1 {
                    NbtTag::Byte(b) => PropertyValue::Byte(*b),
                    NbtTag::String(s) => PropertyValue::String(s.clone()),
                    NbtTag::Other => {
                        proof {
                            assert(tag_value(ps@[i as int].1) is None);
                            assert(!tags_supported(ps@));
                        }
                        return Err(StructureError::UnsupportedTag);
                    },
                };
                out.push((ps[i].0.clone(), v));
                i = i + 1;
            }
            proof {
                assert(out@.map_values(|e: (String, PropertyValue)| crate::block_storage::entry_view(e))
                    =~= ps@.map_values(|e: (String, NbtTag)| (e.0@, tag_value(e.1).unwrap())));
                assert(keys_distinct(out@));
            }
            Some(out)
        },
    };
    Ok(Block { name: p.name.clone(), properties })
}

/// The pin direction a sign's second line names.
pub open spec fn sign_direction(text2: Seq<char>) -> Option<PinDirection> {
    if text2 == "INPUT"@ {
        Some(PinDirection::Input)
    } else if text2 == "OUTPUT"@ {
        Some(PinDirection::Output)
    } else {
        None
    }
}

/// The derating a sign's third line gives: the number after its first dash, or 0 without a
/// dash.
pub open spec fn sign_derating(text3: Seq<char>) -> Result<u32, StructureError> {
    match text_after(text3, '-') {
        None => Ok(0),
        Some(d) => if value_within(int_literal(d, 10, false), 0, u32::MAX as int) {
            Ok(int_literal(d, 10, false).unwrap() as u32)
        } else {
            Err(StructureError::DeratingUnparsable)
        },
    }
}

/// The pin that a sign with text `t` at position `pos` of a structure describes.
/// The text of the JSON text component `s` (a JSON object whose `text` member is a string),
/// if `s` is one.
pub uninterp spec fn json_component_text(s: Seq<char>) -> Option<Seq<char>>;

/// `serde_json::from_str::<serde_json::Value>`, then `Value::get("text")` and
/// `Value::as_str`: the text of a JSON text component. The result is named, as a function of
/// the string alone, by [`json_component_text`]; nothing more is claimed of it.
#[verifier::external_body]
fn component_text(s: &str) -> (r: Option<String>)
    ensures
        r is Some <==> json_component_text(s@) is Some,
        r matches Some(t) ==> json_component_text(s@) == Some(t@),
{
    match serde_json::from_str::<serde_json::Value>(s) {
        Ok(v) => v.get("text").and_then(|t| t.as_str()).map(|t| t.to_string()),
        Err(_) => None,
    }
}

/// The pin described by a sign with stored lines `t` at position `pos`: its name and its
/// metadata, or the first error met.
pub open spec fn sign_pin(pos: [i32; 3], t: SignText) -> Result<(Seq<char>, PinMetadata), StructureError> {
    match (json_component_text(t.text1@), json_component_text(t.text2@), json_component_text(t.text3@)) {
        (None, _, _) => Err(StructureError::SignTextUnreadable(1)),
        (Some(_), None, _) => Err(StructureError::SignTextUnreadable(2)),
        (Some(_), Some(_), None) => Err(StructureError::SignTextUnreadable(3)),
        (Some(name), Some(text2), Some(text3)) => match sign_lines_pin(pos, text2, text3) {
            Ok(p) => Ok((name, p)),
            Err(e) => Err(e),
        },
    }
}

/// The pin metadata described by sign lines `text2` and `text3` at position `pos`.
pub open spec fn sign_lines_pin(pos: [i32; 3], text2: Seq<char>, text3: Seq<char>) -> Result<PinMetadata, StructureError> {
    match sign_direction(text2) {
        None => Err(StructureError::UnknownPinDirection),
        Some(direction) => match sign_derating(text3) {
            Err(e) => Err(e),
            Ok(sig_derating) => if pos@[0] < 0 {
                Err(StructureError::NegativeOffset(pos@[0]))
            } else if pos@[1] < 0 {
                Err(StructureError::NegativeOffset(pos@[1]))
            } else if pos@[2] < 0 {
                Err(StructureError::NegativeOffset(pos@[2]))
            } else {
                Ok(PinMetadata {
                    offset_x: pos@[0] as u32,
                    offset_y: pos@[1] as u32,
                    offset_z: pos@[2] as u32,
                    sig_derating,
                    direction,
                })
            },
        },
    }
}

/// The pins by name, with names as character sequences.
pub open spec fn pins_view(ps: Seq<(String, PinMetadata)>) -> Seq<(Seq<char>, PinMetadata)> {
    ps.map_values(|e: (String, PinMetadata)| (e.0@, e.1))
}

/// No two entries share a name.
pub open spec fn names_distinct(ps: Seq<(Seq<char>, PinMetadata)>) -> bool {
    forall|a: int, b: int| 0 <= a < ps.len() && 0 <= b < ps.len() && a != b ==> ps[a].0 != ps[b].0
}

/// `ps` with pin `name` set to `p`: replaced where the name is there, appended where not.
pub open spec fn pin_put(ps: Seq<(Seq<char>, PinMetadata)>, name: Seq<char>, p: PinMetadata) -> Seq<(Seq<char>, PinMetadata)> {
    if exists|i: int| 0 <= i < ps.len() && ps[i].0 == name {
        ps.update(choose|i: int| 0 <= i < ps.len() && ps[i].0 == name, (name, p))
    } else {
        ps.push((name, p))
    }
}

/// The pins that the sign blocks of `bs` describe, in order, a later sign of a name replacing
/// an earlier one; or the error of the first sign that describes none.
pub open spec fn structure_pins(bs: Seq<StructureBlock>) -> Result<Seq<(Seq<char>, PinMetadata)>, StructureError>
    decreases bs.len(),
{
    if bs.len() == 0 {
        Ok(Seq::empty())
    } else {
        match structure_pins(bs.drop_last()) {
            Err(e) => Err(e),
            Ok(ps) => match bs.last().sign {
                None => Ok(ps),
                Some(t) => match sign_pin(bs.last().pos, t) {
                    Err(e) => Err(e),
                    Ok((name, p)) => Ok(pin_put(ps, name, p)),
                },
            },
        }
    }
}

/// An error on a prefix of the blocks is the error on all of them.
proof fn lemma_structure_pins_err(bs: Seq<StructureBlock>, k: int, e: StructureError)
    requires
        0 <= k <= bs.len(),
        structure_pins(bs.take(k)) == Err::<Seq<(Seq<char>, PinMetadata)>, StructureError>(e),
    ensures
        structure_pins(bs) == Err::<Seq<(Seq<char>, PinMetadata)>, StructureError>(e),
    decreases bs.len() - k,
{
    if k < bs.len() {
        assert(bs.take(k + 1).drop_last() =~= bs.take(k));
        lemma_structure_pins_err(bs, k + 1, e);
    } else {
        assert(bs.take(k) =~= bs);
    }
}

/// Reads the pin described by a sign with stored lines `t` at position `pos`: its name and
/// metadata.
fn read_sign(pos: [i32; 3], t: &SignText) -> (r: Result<(String, PinMetadata), StructureError>)
    ensures
        match r {
            Ok((name, p)) => sign_pin(pos, *t) == Ok::<(Seq<char>, PinMetadata), StructureError>((name@, p)),
            Err(e) => sign_pin(pos, *t) == Err::<(Seq<char>, PinMetadata), StructureError>(e),
        },
{
    let name = match component_text(t.text1.as_str()) {
        Some(x) => x,
        None => return Err(StructureError::SignTextUnreadable(1)),
    };
    let text2 = match component_text(t.text2.as_str()) {
        Some(x) => x,
        None => return Err(StructureError::SignTextUnreadable(2)),
    };
    let text3 = match component_text(t.text3.as_str()) {
        Some(x) => x,
        None => return Err(StructureError::SignTextUnreadable(3)),
    };
    match read_sign_lines(pos, &text2, &text3) {
        Ok(p) => Ok((name, p)),
        Err(e) => Err(e),
    }
}

/// Reads the pin metadata described by sign lines `text2` and `text3` at position `pos`.
fn read_sign_lines(pos: [i32; 3], text2: &String, text3: &String) -> (r: Result<PinMetadata, StructureError>)
    ensures
        r == sign_lines_pin(pos, text2@, text3@),
{
    proof {
        reveal_strlit("INPUT");
        reveal_strlit("OUTPUT");
    }
    let direction = if str_eq(text2.as_str(), "INPUT") {
        PinDirection::Input
    } else if str_eq(text2.as_str(), "OUTPUT") {
        PinDirection::Output
    } else {
        return Err(StructureError::UnknownPinDirection);
    };
    let sig_derating: u32 = match split_after(text3.as_str(), '-') {
        None => 0,
        Some(d) => match parse_u32_decimal(d) {
            Ok(v) => v,
            Err(_) => return Err(StructureError::DeratingUnparsable),
        },
    };
    if pos[0] < 0 {
        return Err(StructureError::NegativeOffset(pos[0]));
    }
    if pos[1] < 0 {
        return Err(StructureError::NegativeOffset(pos[1]));
    }
    if pos[2] < 0 {
        return Err(StructureError::NegativeOffset(pos[2]));
    }
    Ok(PinMetadata {
        offset_x: pos[0] as u32,
        offset_y: pos[1] as u32,
        offset_z: pos[2] as u32,
        sig_derating,
        direction,
    })
}

/// Sets pin `name` of `pins` to `p`, replacing an entry of that name.
fn put_pin(pins: &mut Vec<(String, PinMetadata)>, name: &String, p: PinMetadata)
    requires
        names_distinct(pins_view(old(pins)@)),
    ensures
        pins_view(final(pins)@) == pin_put(pins_view(old(pins)@), name@, p),
        names_distinct(pins_view(final(pins)@)),
{
    let ghost v = pins_view(pins@);
    let n = pins.len();
    let mut i: usize = 0;
    while i < n
        invariant
            n == pins@.len(),
            pins@ == old(pins)@,
            v == pins_view(pins@),
            names_distinct(v),
            i <= n,
            forall|j: int| 0 <= j < i ==> v[j].0 != name@,
        decreases n - i,
    {
        if str_eq(pins[i].0.as_str(), name.as_str()) {
            proof {
                assert(v[i as int].0 == name@);
                let k = choose|k: int| 0 <= k < v.len() && v[k].0 == name@;
                assert(0 <= k < v.len() && v[k].0 == name@);
                assert(k == i);
            }
            pins.set(i, (name.clone(), p));
            proof {
                assert(pins_view(pins@) =~= v.update(i as int, (name@, p)));
                assert(exists|k: int| 0 <= k < v.len() && v[k].0 == name@);
                assert(pin_put(v, name@, p) == v.update(i as int, (name@, p)));
            }
            return;
        }
        i = i + 1;
    }
    pins.push((name.clone(), p));
    proof {
        assert(pins_view(pins@) =~= v.push((name@, p)));
        assert(!exists|k: int| 0 <= k < v.len() && v[k].0 == name@);
    }
}

impl RoutableStructure {
    /// Prepares a structure for routing: reads its pins off its sign blocks.
    pub fn new(base: Structure) -> (r: Result<RoutableStructure, StructureError>)
        ensures
            match structure_pins(base.blocks@) {
                Ok(ps) => r matches Ok(rs) && rs.structure == base && rs.palette_palette_map@.len() == 0
                    && pins_view(rs.pins@) == ps && names_distinct(ps),
                Err(e) => r == Err::<RoutableStructure, StructureError>(e),
            },
    {
        let mut pins: Vec<(String, PinMetadata)> = Vec::new();
        let n = base.blocks.len();
        let mut i: usize = 0;
        proof {
            assert(base.blocks@.take(0) =~= Seq::<StructureBlock>::empty());
            assert(pins_view(pins@) =~= Seq::<(Seq<char>, PinMetadata)>::empty());
        }
        while i < n
            invariant
                n == base.blocks@.len(),
                i <= n,
                structure_pins(base.blocks@.take(i as int)) == Ok::<Seq<(Seq<char>, PinMetadata)>, StructureError>(pins_view(pins@)),
                names_distinct(pins_view(pins@)),
            decreases n - i,
        {
            proof {
                assert(base.blocks@.take(i + 1).drop_last() =~= base.blocks@.take(i as int));
                assert(base.blocks@.take(i + 1).last() == base.blocks@[i as int]);
            }
            let b = &base.blocks[i];
            match &b.sign {
                None => {},
                Some(t) => {
                    match read_sign(b.pos, t) {
                        Ok((name, p)) => put_pin(&mut pins, &name, p),
                        Err(e) => {
                            proof {
                                lemma_structure_pins_err(base.blocks@, i as int + 1, e);
                            }
                            return Err(e);
                        },
                    }
                },
            }
            i = i + 1;
        }
        proof {
            assert(base.blocks@.take(n as int) =~= base.blocks@);
        }
        Ok(RoutableStructure { structure: base, palette_palette_map: Vec::new(), pins })
    }
    /// Add the block types of the structure's palette to the output palette (where they are
    /// not there yet), recording for each palette entry its output palette index.
    pub fn build_palette_map(&mut self, output: &mut BlockStorage) -> (r: Result<(), StructureError>)
        requires
            old(output).wf(),
            old(output)@.palette.len() + old(self).structure.palette@.len() < u32::MAX,
            palette_keys_distinct(old(self).structure.palette@),
        ensures
            final(output).wf(),
            final(output)@.extents == old(output)@.extents,
            final(output)@.blocks == old(output)@.blocks,
            final(self).structure == old(self).structure,
            final(self).pins == old(self).pins,
            ({
                let es = old(self).structure.palette@;
                match r {
                    Ok(()) => (forall|i: int| 0 <= i < es.len() ==> entry_supported(#[trigger] es[i]))
                        && final(output)@.palette == palette_after(old(output)@.palette, es)
                        && final(self).palette_palette_map@.len() == es.len()
                        && forall|i: int| 0 <= i < es.len() ==> is_first_index(final(output)@.palette, entry_view(es[i]),
                            #[trigger] final(self).palette_palette_map@[i].0 as int),
                    Err(e) => e == StructureError::UnsupportedTag && exists|i: int| 0 <= i < es.len() && !entry_supported(#[trigger] es[i]),
                }
            }),
    {
        let ghost es = self.structure.palette@;
        let ghost p0 = output@.palette;
        let mut map: Vec<BlockTypeIndex> = Vec::new();
        let n = self.structure.palette.len();
        let mut i: usize = 0;
        while i < n
            invariant
                n == es.len(),
                es == self.structure.palette@,
                self.structure == old(self).structure,
                self.pins == old(self).pins,
                palette_keys_distinct(es),
                i <= n,
                output.wf(),
                output@.extents == old(output)@.extents,
                output@.blocks == old(output)@.blocks,
                p0 == old(output)@.palette,
                p0.len() + n < u32::MAX,
                output@.palette == palette_after(p0, es.take(i as int)),
                output@.palette.len() <= p0.len() + i,
                map@.len() == i,
                forall|j: int| 0 <= j < i ==> entry_supported(#[trigger] es[j]),
                forall|j: int| 0 <= j < i ==> is_first_index(output@.palette, entry_view(es[j]), #[trigger] map@[j].0 as int),
            decreases n - i,
        {
            proof {
                assert(es.take(i + 1).drop_last() =~= es.take(i as int));
                assert(es.take(i + 1).last() == es[i as int]);
            }
            let b = match entry_block(&self.structure.palette[i]) {
                Ok(b) => b,
                Err(e) => {
                    self.palette_palette_map = map;
                    return Err(e);
                },
            };
            let ghost before = output@.palette;
            let idx = add_material(output, b);
            proof {
                assert forall|j: int| 0 <= j < i implies is_first_index(output@.palette, entry_view(es[j]), #[trigger] map@[j].0 as int) by {
                    lemma_first_index_kept(before, entry_view(es[j]), map@[j].0 as int, entry_view(es[i as int]));
                }
            }
            map.push(idx);
            i = i + 1;
        }
        proof {
            assert(es.take(n as int) =~= es);
        }
        self.palette_palette_map = map;
        Ok(())
    }
}

} // verus!
