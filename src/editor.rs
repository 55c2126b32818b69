//! The labelling session: the registry of the current image, the cursor that
//! numbers automatic labels, and the export of labelled tiles as assembly.

use vstd::prelude::*;
use vstd::string::*;
use crate::codec::{
    TileError, tile_to_pattern, pattern_text, palette_size, first_channel, lemma_five_value_tile,
};
use crate::config::Coord;
use crate::raster::{Raster, cell_inside, cell_bytes};
use crate::registry::{TileRegistry, assigned, without_coord, coords_unique};
use crate::text::{hex_label, hex_label_of, append_chars, chars_of};

verus! {

/// `s` with every `0x`, read left to right, written as `$`.
pub open spec fn hex_marked(s: Seq<char>) -> Seq<char>
    decreases s.len(),
{
    if s.len() == 0 {
        s
    } else if s.len() >= 2 && s[0] == '0' && s[1] == 'x' {
        seq!['$'] + hex_marked(s.skip(2))
    } else {
        seq![s[0]] + hex_marked(s.skip(1))
    }
}

/// `label` with every `0x` written as `$`.
pub fn mark_hex(label: &[char]) -> (r: Vec<char>)
    ensures
        r@ == hex_marked(label@),
{
    let mut out: Vec<char> = Vec::new();
    let mut i: usize = 0;
    assert(label@.skip(0) =~= label@);
    while i < label.len()
        invariant
            i <= label@.len(),
            out@ + hex_marked(label@.skip(i as int)) == hex_marked(label@),
        decreases label.len() - i,
    {
        let ghost rest = label@.skip(i as int);
        if i + 1 < label.len() && label[i] == '0' && label[i + 1] == 'x' {
            assert(rest.skip(2) =~= label@.skip(i + 2));
            assert(out@.push('$') + hex_marked(label@.skip(i + 2)) =~= out@ + hex_marked(rest));
            out.push('$');
            i = i + 2;
        } else {
            assert(rest.skip(1) =~= label@.skip(i + 1));
            assert(out@.push(label@[i as int]) + hex_marked(label@.skip(i + 1)) =~= out@
                + hex_marked(rest));
            out.push(label[i]);
            i = i + 1;
        }
    }
    assert(label@.skip(label@.len() as int) =~= Seq::<char>::empty());
    assert(out@ + Seq::<char>::empty() =~= out@);
    out
}

/// What exporting the cell `c` of `image` as a pattern gives.
pub open spec fn tile_result(image: &Raster, c: Coord) -> Result<Seq<char>, TileError> {
    if !cell_inside(image.width as nat, image.height as nat, c) {
        Err(TileError::OutsideImage)
    } else {
        let vals = first_channel(cell_bytes(image.data@, image.width as nat, c));
        if palette_size(vals) > 4 {
            Err(TileError::UnsupportedPalette)
        } else {
            Ok(pattern_text(vals))
        }
    }
}

/// The assembly block of one tile: a comment line, the origin at the label
/// read as hexadecimal times 16, the symbol, and the pattern rows.
pub open spec fn asm_block(prefix: Seq<char>, label: Seq<char>, pattern: Seq<char>) -> Seq<char> {
    "\n;\n       .org "@ + hex_marked(label) + " * 16\n        "@ + prefix + label + ":"@
        + pattern + "\n"@
}

/// The blocks of the entries that could be encoded, in their order.
pub open spec fn asm_body(prefix: Seq<char>, image: &Raster, pairs: Seq<(Seq<char>, Coord)>) -> Seq<
    char,
>
    decreases pairs.len(),
{
    if pairs.len() == 0 {
        Seq::empty()
    } else {
        let before = asm_body(prefix, image, pairs.drop_last());
        match tile_result(image, pairs.last().1) {
            Ok(p) => before + asm_block(prefix, pairs.last().0, p),
            Err(_) => before,
        }
    }
}

/// The entries that could not be encoded, with the reason, in their order.
pub open spec fn asm_failures(image: &Raster, pairs: Seq<(Seq<char>, Coord)>) -> Seq<
    (Seq<char>, Coord, TileError),
>
    decreases pairs.len(),
{
    if pairs.len() == 0 {
        Seq::empty()
    } else {
        let before = asm_failures(image, pairs.drop_last());
        match tile_result(image, pairs.last().1) {
            Ok(_) => before,
            Err(e) => before.push((pairs.last().0, pairs.last().1, e)),
        }
    }
}

/// A labelled cell inside the image whose first channel takes five distinct
/// values adds no text to the assembly export, and is reported as an
/// unsupported palette, wherever it stands in the entries.
pub proof fn lemma_five_value_cell_left_out(
    prefix: Seq<char>,
    image: &Raster,
    pairs: Seq<(Seq<char>, Coord)>,
    label: Seq<char>,
    c: Coord,
    v: Seq<u8>,
)
    requires
        image.wf(),
        cell_inside(image.width as nat, image.height as nat, c),
        v.len() == 5,
        forall|i: int, j: int| 0 <= i < j < 5 ==> v[i] != v[j],
        forall|i: int|
            0 <= i < 5 ==> first_channel(cell_bytes(image.data@, image.width as nat, c)).contains(
                #[trigger] v[i],
            ),
    ensures
        tile_result(image, c) == Err::<Seq<char>, TileError>(TileError::UnsupportedPalette),
        asm_body(prefix, image, pairs.push((label, c))) == asm_body(prefix, image, pairs),
        asm_failures(image, pairs.push((label, c))) == asm_failures(image, pairs).push(
            (label, c, TileError::UnsupportedPalette),
        ),
{
    lemma_five_value_tile(cell_bytes(image.data@, image.width as nat, c), v);
    assert(pairs.push((label, c)).drop_last() =~= pairs);
}

/// A tile that the assembly export left out.
pub struct TileFailure {
    pub label: String,
    pub coord: Coord,
    pub error: TileError,
}

/// The assembly text and the tiles that could not be encoded.
pub struct AsmExport {
    pub text: String,
    pub failures: Vec<TileFailure>,
}

/// The session state: the registry of the current image, the cursor of the
/// next automatic label, and the prefix of the exported symbols.
pub struct Editor {
    pub registry: TileRegistry,
    pub cursor: u32,
    pub prefix: String,
}

impl Editor {
    pub open spec fn wf(&self) -> bool {
        self.registry.wf()
    }

    /// A session with an empty registry and the cursor at zero.
    pub fn new(prefix: &str) -> (r: Editor)
        ensures
            r.wf(),
            r.registry@ == Map::<Seq<char>, Coord>::empty(),
            r.cursor == 0,
            r.prefix@ == prefix@,
    {
        Editor { registry: TileRegistry::new(), cursor: 0, prefix: String::from_str(prefix) }
    }

    /// A new image was loaded: labels of the previous one mean nothing now.
    pub fn reset_tiles(&mut self)
        ensures
            final(self).wf(),
            final(self).registry@ == Map::<Seq<char>, Coord>::empty(),
            final(self).cursor == old(self).cursor,
            final(self).prefix == old(self).prefix,
    {
        self.registry = TileRegistry::new();
    }

    /// The cursor was edited directly.
    pub fn set_cursor(&mut self, cursor: u32)
        ensures
            final(self).cursor == cursor,
            final(self).registry == old(self).registry,
            final(self).prefix == old(self).prefix,
    {
        self.cursor = cursor;
    }

    /// A click on cell `c`. With `remove` the cell loses its label; otherwise it
    /// gets the automatic label of the cursor, which then moves on by one.
    pub fn click(&mut self, c: Coord, remove: bool)
        requires
            old(self).wf(),
            !remove ==> old(self).cursor < u32::MAX,
        ensures
            final(self).wf(),
            coords_unique(final(self).registry@),
            final(self).prefix == old(self).prefix,
            remove ==> final(self).registry@ == without_coord(old(self).registry@, c)
                && final(self).cursor == old(self).cursor,
            !remove ==> final(self).registry@ == assigned(
                old(self).registry@,
                hex_label(old(self).cursor as nat),
                c,
            ) && final(self).cursor == old(self).cursor + 1,
    {
        if remove {
            self.registry.clear(c);
        } else {
            let label = hex_label_of(self.cursor);
            self.registry.assign(label.as_str(), c);
            self.cursor = self.cursor + 1;
        }
    }

    /// The assembly text of every labelled tile of `image`, in label order,
    /// closed by `;`, and the tiles that could not be encoded. A failing tile
    /// is left out of the text and does not stop the others.
    pub fn export_asm(&self, image: &Raster) -> (r: AsmExport)
        requires
            self.wf(),
            image.wf(),
        ensures
            r.text@ == asm_body(self.prefix@, image, self.registry.pairs()) + ";"@,
            r.failures@.len() == asm_failures(image, self.registry.pairs()).len(),
            forall|i: int|
                0 <= i < r.failures@.len() ==> (
                #[trigger] r.failures@[i].label@,
                r.failures@[i].coord,
                r.failures@[i].error,
            ) == asm_failures(image, self.registry.pairs())[i],
    {
        let entries = self.registry.entries();
        let ghost pairs = self.registry.pairs();
        let prefix = chars_of(self.prefix.as_str());
        let mut text = String::new();
        let mut failures: Vec<TileFailure> = Vec::new();
        let mut i: usize = 0;
        while i < entries.len()
            invariant
                self.wf(),
                image.wf(),
                pairs == self.registry.pairs(),
                prefix@ == self.prefix@,
                entries@.len() == pairs.len(),
                forall|k: int|
                    0 <= k < entries@.len() ==> (#[trigger] entries@[k].0@, entries@[k].1)
                        == pairs[k],
                i <= entries@.len(),
                text@ == asm_body(self.prefix@, image, pairs.take(i as int)),
                failures@.len() == asm_failures(image, pairs.take(i as int)).len(),
                forall|k: int|
                    0 <= k < failures@.len() ==> (
                    #[trigger] failures@[k].label@,
                    failures@[k].coord,
                    failures@[k].error,
                ) == asm_failures(image, pairs.take(i as int))[k],
            decreases entries.len() - i,
        {
            let label = &entries[i].0;
            let c = entries[i].1;
            assert(pairs.take(i + 1).drop_last() =~= pairs.take(i as int));
            assert(pairs.take(i + 1).last() == pairs[i as int]);
            assert((label@, c) == pairs[i as int]);
            let outcome = match image.tile_pixels(c) {
                None => Err(TileError::OutsideImage),
                Some(tile) => tile_to_pattern(tile.as_slice()),
            };
            assert(outcome matches Ok(p) ==> tile_result(image, c) == Ok::<Seq<char>, TileError>(p@));
            assert(outcome matches Err(e) ==> tile_result(image, c) == Err::<Seq<char>, TileError>(e));
            match outcome {
                Ok(pattern) => {
                    let ghost before = text@;
                    let chars = chars_of(label.as_str());
                    text.append("\n;\n       .org ");
                    let marked = mark_hex(chars.as_slice());
                    append_chars(&mut text, marked.as_slice());
                    text.append(" * 16\n        ");
                    append_chars(&mut text, prefix.as_slice());
                    append_chars(&mut text, chars.as_slice());
                    text.append(":");
                    text.append(pattern.as_str());
                    text.append("\n");
                    assert(text@ =~= before + asm_block(self.prefix@, label@, pattern@));
                },
                Err(e) => {
                    let ghost before = failures@;
                    let chars = chars_of(label.as_str());
                    let copy = crate::text::string_of(chars.as_slice());
                    failures.push(TileFailure { label: copy, coord: c, error: e });
                    assert forall|k: int| 0 <= k < failures@.len() implies (
                        #[trigger] failures@[k].label@,
                        failures@[k].coord,
                        failures@[k].error,
                    ) == asm_failures(image, pairs.take(i + 1))[k] by {
                        if k < before.len() {
                            assert(failures@[k] == before[k]);
                        }
                    }
                },
            }
            i = i + 1;
        }
        assert(pairs.take(pairs.len() as int) =~= pairs);
        text.append(";");
        AsmExport { text, failures }
    }
}

} // verus!
