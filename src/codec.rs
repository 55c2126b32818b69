//! Encoding of one 8x8 RGBA tile as two bit-planes of assembly source.
//!
//! Each pixel is sampled by its first channel. The distinct sampled values of
//! the tile, in ascending order, form its palette; a pixel's palette index is
//! the number of distinct values below its own. The low bit of every index
//! goes to the first plane, the high bit to the second.

use vstd::prelude::*;
use vstd::string::*;
use crate::text::push_char;

verus! {

/// Bytes in one tile: 64 pixels of four channels.
pub const TILE_BYTES: usize = 256;

/// Why a tile could not be encoded or exported.
#[derive(Clone, Copy, Debug, PartialEq, Eq, Structural)]
pub enum TileError {
    /// The tile has more than four distinct sampled values.
    UnsupportedPalette,
    /// The cell does not lie inside the image.
    OutsideImage,
}

/// The sampled (first-channel) value of each of the 64 pixels.
pub open spec fn first_channel(tile: Seq<u8>) -> Seq<u8> {
    Seq::new(64, |k: int| tile[4 * k])
}

/// All byte values in ascending order.
pub open spec fn byte_values() -> Seq<u8> {
    Seq::new(256, |i: int| i as u8)
}

pub open spec fn occurs_in(vals: Seq<u8>) -> spec_fn(u8) -> bool {
    |x: u8| vals.contains(x)
}

/// Number of distinct values of `vals` below `n`.
pub open spec fn rank(vals: Seq<u8>, n: int) -> nat {
    byte_values().take(n).filter(occurs_in(vals)).len()
}

/// Number of distinct values in `vals`.
pub open spec fn palette_size(vals: Seq<u8>) -> nat {
    rank(vals, 256)
}

/// Position of `v` among the distinct values of `vals`, in ascending order.
pub open spec fn palette_index(vals: Seq<u8>, v: u8) -> nat {
    rank(vals, v as int)
}

/// Bit `plane` (0: low, 1: high) of a palette index.
pub open spec fn index_bit(i: nat, plane: nat) -> bool {
    if plane == 0 {
        i % 2 == 1
    } else {
        (i / 2) % 2 == 1
    }
}

pub open spec fn bit_char(b: bool) -> char {
    if b {
        '1'
    } else {
        '0'
    }
}

/// Bit `plane` of the palette index of pixel `k`.
pub open spec fn pixel_bit(vals: Seq<u8>, k: int, plane: nat) -> bool {
    index_bit(palette_index(vals, vals[k]), plane)
}

/// The directive that opens each row of a plane.
pub open spec fn row_directive() -> Seq<char> {
    "\n        .db     %"@
}

/// One row of a plane: the directive and the eight bits, column by column.
pub open spec fn row_text(vals: Seq<u8>, plane: nat, r: int) -> Seq<char> {
    row_directive() + Seq::new(8, |c: int| bit_char(pixel_bit(vals, 8 * r + c, plane)))
}

/// The first `n` rows of a plane.
pub open spec fn plane_text(vals: Seq<u8>, plane: nat, n: int) -> Seq<char>
    decreases n,
{
    if n <= 0 {
        Seq::empty()
    } else {
        plane_text(vals, plane, n - 1) + row_text(vals, plane, n - 1)
    }
}

/// Both planes of a tile whose sampled values are `vals`, low bits first.
pub open spec fn pattern_text(vals: Seq<u8>) -> Seq<char> {
    plane_text(vals, 0, 8) + plane_text(vals, 1, 8)
}

proof fn lemma_rank_step(vals: Seq<u8>, n: int)
    requires
        0 <= n < 256,
    ensures
        rank(vals, n + 1) == rank(vals, n) + if vals.contains(n as u8) {
            1int
        } else {
            0int
        },
{
    reveal(Seq::filter);
    let post = byte_values().take(n + 1);
    assert(post.drop_last() =~= byte_values().take(n));
    assert(post.last() == n as u8);
}

proof fn lemma_rank_two(vals: Seq<u8>, a: u8, b: u8, n: int)
    requires
        a < b,
        vals.contains(a),
        vals.contains(b),
        forall|k: int| 0 <= k < vals.len() ==> vals[k] == a || vals[k] == b,
        0 <= n <= 256,
    ensures
        rank(vals, n) == if n <= a {
            0int
        } else if n <= b {
            1int
        } else {
            2int
        },
    decreases n,
{
    if n == 0 {
        reveal(Seq::filter);
        assert(byte_values().take(0) =~= Seq::<u8>::empty());
    } else {
        lemma_rank_two(vals, a, b, n - 1);
        lemma_rank_step(vals, n - 1);
        let x = (n - 1) as u8;
        if x != a && x != b && vals.contains(x) {
            let k = choose|k: int| 0 <= k < vals.len() && vals[k] == x;
        }
    }
}

/// A tile whose first channel takes exactly two values `a < b` has a palette
/// of two: the first plane holds 1 exactly at the pixels of value `b`, and
/// the second plane is all zero.
pub proof fn lemma_two_value_tile(tile: Seq<u8>, a: u8, b: u8)
    requires
        tile.len() == TILE_BYTES,
        a < b,
        first_channel(tile).contains(a),
        first_channel(tile).contains(b),
        forall|k: int| 0 <= k < 64 ==> first_channel(tile)[k] == a || first_channel(tile)[k] == b,
    ensures
        palette_size(first_channel(tile)) == 2,
        forall|k: int|
            0 <= k < 64 ==> (pixel_bit(first_channel(tile), k, 0) <==> first_channel(tile)[k]
                == b) && !pixel_bit(first_channel(tile), k, 1),
{
    let vals = first_channel(tile);
    lemma_rank_two(vals, a, b, 256);
    lemma_rank_two(vals, a, b, a as int);
    lemma_rank_two(vals, a, b, b as int);
}

/// Indicator of `x < n`.
pub open spec fn below(x: u8, n: int) -> int {
    if (x as int) < n {
        1
    } else {
        0
    }
}

proof fn lemma_rank_five(vals: Seq<u8>, v: Seq<u8>, n: int)
    requires
        v.len() == 5,
        forall|i: int, j: int| 0 <= i < j < 5 ==> v[i] != v[j],
        forall|i: int| 0 <= i < 5 ==> vals.contains(#[trigger] v[i]),
        0 <= n <= 256,
    ensures
        rank(vals, n) >= below(v[0], n) + below(v[1], n) + below(v[2], n) + below(v[3], n)
            + below(v[4], n),
    decreases n,
{
    if n == 0 {
    } else {
        lemma_rank_five(vals, v, n - 1);
        lemma_rank_step(vals, n - 1);
        assert(vals.contains(v[0]) && vals.contains(v[1]) && vals.contains(v[2])
            && vals.contains(v[3]) && vals.contains(v[4]));
    }
}

/// A tile whose first channel takes five distinct values has a palette of
/// more than four, so it cannot be encoded.
pub proof fn lemma_five_value_tile(tile: Seq<u8>, v: Seq<u8>)
    requires
        tile.len() == TILE_BYTES,
        v.len() == 5,
        forall|i: int, j: int| 0 <= i < j < 5 ==> v[i] != v[j],
        forall|i: int| 0 <= i < 5 ==> first_channel(tile).contains(#[trigger] v[i]),
    ensures
        palette_size(first_channel(tile)) > 4,
{
    lemma_rank_five(first_channel(tile), v, 256);
}

/// The palette index of every byte value (meaningful for those that occur).
fn rank_table(vals: &Vec<u8>) -> (r: (Vec<u8>, u32))
    ensures
        r.0@.len() == 256,
        r.1 == palette_size(vals@),
        forall|x: int| 0 <= x < 256 ==> r.0@[x] == rank(vals@, x),
{
    let mut seen: Vec<bool> = vec![false; 256];
    let mut k: usize = 0;
    while k < vals.len()
        invariant
            k <= vals@.len(),
            seen@.len() == 256,
            forall|x: u8| #[trigger] seen@[x as int] <==> vals@.take(k as int).contains(x),
        decreases vals.len() - k,
    {
        let v = vals[k];
        seen.set(v as usize, true);
        proof {
            let before = vals@.take(k as int);
            let after = vals@.take(k + 1);
            assert(after =~= before.push(v));
            assert forall|x: u8| #[trigger] seen@[x as int] <==> after.contains(x) by {
                if before.contains(x) {
                    let j = choose|j: int| 0 <= j < before.len() && before[j] == x;
                    assert(after[j] == x);
                }
                if after.contains(x) && x != v {
                    let j = choose|j: int| 0 <= j < after.len() && after[j] == x;
                    assert(before[j] == x);
                }
                if x == v {
                    assert(after[k as int] == x);
                }
            }
        }
        k = k + 1;
    }
    assert(vals@.take(vals@.len() as int) =~= vals@);
    let mut table: Vec<u8> = Vec::new();
    let mut count: u32 = 0;
    let mut x: usize = 0;
    reveal(Seq::filter);
    while x < 256
        invariant
            x <= 256,
            seen@.len() == 256,
            forall|y: u8| #[trigger] seen@[y as int] <==> vals@.contains(y),
            table@.len() == x,
            count == rank(vals@, x as int),
            count <= x,
            forall|y: int| 0 <= y < x ==> table@[y] == rank(vals@, y),
        decreases 256 - x,
    {
        table.push(count as u8);
        let ghost pre = byte_values().take(x as int);
        assert(byte_values().take(x + 1).drop_last() =~= pre);
        assert(byte_values().take(x + 1).last() == x as u8);
        assert(seen@[(x as u8) as int] == seen@[x as int]);
        proof {
            reveal(Seq::filter);
            let post = byte_values().take(x + 1);
            assert(post.filter(occurs_in(vals@)) == if occurs_in(vals@)(post.last()) {
                pre.filter(occurs_in(vals@)).push(post.last())
            } else {
                pre.filter(occurs_in(vals@))
            });
        }
        if seen[x] {
            count = count + 1;
        }
        x = x + 1;
    }
    (table, count)
}

/// Appends the eight rows of one plane to `s`.
fn append_plane(s: &mut String, vals: &Vec<u8>, table: &Vec<u8>, plane: u8)
    requires
        vals@.len() == 64,
        table@.len() == 256,
        forall|x: int| 0 <= x < 256 ==> table@[x] == rank(vals@, x),
        plane < 2,
    ensures
        final(s)@ == old(s)@ + plane_text(vals@, plane as nat, 8),
{
    let mut r: usize = 0;
    while r < 8
        invariant
            r <= 8,
            vals@.len() == 64,
            table@.len() == 256,
            forall|x: int| 0 <= x < 256 ==> table@[x] == rank(vals@, x),
            plane < 2,
            s@ == old(s)@ + plane_text(vals@, plane as nat, r as int),
        decreases 8 - r,
    {
        let ghost before = s@;
        s.append("\n        .db     %");
        let mut c: usize = 0;
        while c < 8
            invariant
                r < 8,
                c <= 8,
                vals@.len() == 64,
                table@.len() == 256,
                forall|x: int| 0 <= x < 256 ==> table@[x] == rank(vals@, x),
                plane < 2,
                s@ == before + row_directive() + Seq::new(
                    8,
                    |c: int| bit_char(pixel_bit(vals@, 8 * r + c, plane as nat)),
                ).take(c as int),
            decreases 8 - c,
        {
            let i = table[vals[8 * r + c] as usize];
            let bit = if plane == 0 {
                i % 2 == 1
            } else {
                (i / 2) % 2 == 1
            };
            push_char(s, if bit { '1' } else { '0' });
            c = c + 1;
        }
        assert(Seq::new(8, |c: int| bit_char(pixel_bit(vals@, 8 * r + c, plane as nat))).take(8)
            =~= Seq::new(8, |c: int| bit_char(pixel_bit(vals@, 8 * r + c, plane as nat))));
        assert(s@ =~= old(s)@ + plane_text(vals@, plane as nat, r + 1));
        r = r + 1;
    }
}

/// Encodes one tile of 64 RGBA pixels as two bit-planes of `.db` rows.
///
/// Succeeds exactly when the tile's first channel takes at most four distinct
/// values; otherwise nothing is emitted and the palette is reported as
/// unsupported.
pub fn tile_to_pattern(tile: &[u8]) -> (r: Result<String, TileError>)
    requires
        tile@.len() == TILE_BYTES,
    ensures
        r is Ok <==> palette_size(first_channel(tile@)) <= 4,
        r matches Ok(s) ==> s@ == pattern_text(first_channel(tile@)),
        r matches Err(e) ==> e == TileError::UnsupportedPalette,
{
    let mut vals: Vec<u8> = Vec::new();
    let mut k: usize = 0;
    while k < 64
        invariant
            k <= 64,
            tile@.len() == TILE_BYTES,
            vals@ == first_channel(tile@).take(k as int),
        decreases 64 - k,
    {
        vals.push(tile[4 * k]);
        k = k + 1;
    }
    assert(vals@ =~= first_channel(tile@));
    let (table, size) = rank_table(&vals);
    if size > 4 {
        return Err(TileError::UnsupportedPalette);
    }
    let mut s = String::new();
    append_plane(&mut s, &vals, &table, 0);
    append_plane(&mut s, &vals, &table, 1);
    assert(s@ =~= pattern_text(vals@));
    Ok(s)
}

} // verus!
