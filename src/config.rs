//! The configuration text: entries `label:row_col` separated by commas.

use vstd::prelude::*;
use crate::text::{decimal, field_value, is_digit, all_digits, lemma_decimal_value, lemma_field_value_decimal};

verus! {

/// A cell of the tile grid.
#[derive(Clone, Copy, Debug, PartialEq, Eq, Structural)]
pub struct Coord {
    pub row: u32,
    pub col: u32,
}

pub const ENTRY_SEPARATOR: char = ',';

pub const FIELD_SEPARATOR: char = ':';

pub const COORD_SEPARATOR: char = '_';

/// The pieces of `s` between occurrences of `sep`; always at least one.
pub open spec fn split(s: Seq<char>, sep: char) -> Seq<Seq<char>>
    decreases s.len(),
{
    if s.len() == 0 {
        seq![Seq::empty()]
    } else {
        let rest = split(s.drop_last(), sep);
        if s.last() == sep {
            rest.push(Seq::empty())
        } else {
            rest.update(rest.len() - 1, rest.last().push(s.last()))
        }
    }
}

pub proof fn lemma_split_len(s: Seq<char>, sep: char)
    ensures
        split(s, sep).len() >= 1,
    decreases s.len(),
{
    if s.len() > 0 {
        lemma_split_len(s.drop_last(), sep);
    }
}

/// The pieces joined with `sep` between neighbours.
pub open spec fn join(pieces: Seq<Seq<char>>, sep: char) -> Seq<char>
    decreases pieces.len(),
{
    if pieces.len() == 0 {
        Seq::empty()
    } else if pieces.len() == 1 {
        pieces[0]
    } else {
        join(pieces.drop_last(), sep).push(sep) + pieces.last()
    }
}

/// One entry of the configuration text.
pub open spec fn entry_text(label: Seq<char>, c: Coord) -> Seq<char> {
    label.push(FIELD_SEPARATOR) + decimal(c.row as nat).push(COORD_SEPARATOR) + decimal(
        c.col as nat,
    )
}

/// The configuration text of a sequence of entries, in their order.
pub open spec fn config_text(entries: Seq<(Seq<char>, Coord)>) -> Seq<char> {
    join(entries.map_values(|e: (Seq<char>, Coord)| entry_text(e.0, e.1)), ENTRY_SEPARATOR)
}

/// Tokens of at most this many characters are skipped on import.
pub const SHORT_TOKEN: usize = 3;

/// The label of an entry token: the part before the first field separator.
pub open spec fn token_label(t: Seq<char>) -> Seq<char> {
    split(t, FIELD_SEPARATOR)[0]
}

/// The coordinate of an entry token. Missing or malformed numbers count as 0.
pub open spec fn token_coord(t: Seq<char>) -> Coord {
    let parts = split(t, FIELD_SEPARATOR);
    let rc = if parts.len() > 1 {
        split(parts[1], COORD_SEPARATOR)
    } else {
        seq![Seq::empty()]
    };
    Coord { row: field_value(rc[0]), col: if rc.len() > 1 { field_value(rc[1]) } else { 0 } }
}

/// `s` holds no `c`.
pub open spec fn free_of(s: Seq<char>, c: char) -> bool {
    forall|i: int| 0 <= i < s.len() ==> s[i] != c
}

proof fn lemma_split_single(s: Seq<char>, sep: char)
    requires
        free_of(s, sep),
    ensures
        split(s, sep) == seq![s],
    decreases s.len(),
{
    if s.len() > 0 {
        lemma_split_single(s.drop_last(), sep);
        assert(s[s.len() - 1] != sep);
        assert(s.drop_last().push(s.last()) =~= s);
        assert(split(s, sep) =~= seq![s]);
    } else {
        assert(s =~= Seq::<char>::empty());
    }
}

proof fn lemma_split_concat(x: Seq<char>, y: Seq<char>, sep: char)
    ensures
        split(x.push(sep) + y, sep) == split(x, sep) + split(y, sep),
    decreases y.len(),
{
    lemma_split_len(x, sep);
    if y.len() == 0 {
        assert(x.push(sep) + y =~= x.push(sep));
        assert(x.push(sep).drop_last() =~= x);
        assert(split(x, sep) + split(y, sep) =~= split(x, sep).push(Seq::empty()));
    } else {
        lemma_split_concat(x, y.drop_last(), sep);
        lemma_split_len(y.drop_last(), sep);
        let whole = x.push(sep) + y;
        assert(whole.drop_last() =~= x.push(sep) + y.drop_last());
        assert(whole.last() == y.last());
        assert(split(whole, sep) =~= split(x, sep) + split(y, sep));
    }
}

/// Splitting joined pieces that hold no separator gives the pieces back.
pub proof fn lemma_split_join(ts: Seq<Seq<char>>, sep: char)
    requires
        ts.len() >= 1,
        forall|i: int| 0 <= i < ts.len() ==> free_of(#[trigger] ts[i], sep),
    ensures
        split(join(ts, sep), sep) == ts,
    decreases ts.len(),
{
    if ts.len() == 1 {
        lemma_split_single(ts[0], sep);
        assert(ts =~= seq![ts[0]]);
    } else {
        let front = ts.drop_last();
        assert forall|i: int| 0 <= i < front.len() implies free_of(#[trigger] front[i], sep) by {
            assert(front[i] == ts[i]);
        }
        lemma_split_join(front, sep);
        lemma_split_concat(join(front, sep), ts.last(), sep);
        lemma_split_single(ts.last(), sep);
        assert(ts =~= front + seq![ts.last()]);
    }
}

proof fn lemma_digits_free(s: Seq<char>, c: char)
    requires
        all_digits(s),
        !is_digit(c),
    ensures
        free_of(s, c),
{
    assert forall|i: int| 0 <= i < s.len() implies s[i] != c by {
        assert(is_digit(s[i]));
    }
}

/// An entry token whose label holds no field separator reads back as its
/// label and its cell, and is long enough not to be skipped.
pub proof fn lemma_entry_token(label: Seq<char>, c: Coord)
    requires
        free_of(label, FIELD_SEPARATOR),
    ensures
        entry_text(label, c).len() > SHORT_TOKEN,
        token_label(entry_text(label, c)) == label,
        token_coord(entry_text(label, c)) == c,
        free_of(label, ENTRY_SEPARATOR) ==> free_of(entry_text(label, c), ENTRY_SEPARATOR),
{
    let dr = decimal(c.row as nat);
    let dc = decimal(c.col as nat);
    lemma_decimal_value(c.row as nat);
    lemma_decimal_value(c.col as nat);
    lemma_field_value_decimal(c.row);
    lemma_field_value_decimal(c.col);
    let rest = dr.push(COORD_SEPARATOR) + dc;
    let t = entry_text(label, c);
    assert(t =~= label.push(FIELD_SEPARATOR) + rest);
    lemma_digits_free(dr, FIELD_SEPARATOR);
    lemma_digits_free(dc, FIELD_SEPARATOR);
    lemma_digits_free(dr, COORD_SEPARATOR);
    lemma_digits_free(dc, COORD_SEPARATOR);
    lemma_digits_free(dr, ENTRY_SEPARATOR);
    lemma_digits_free(dc, ENTRY_SEPARATOR);
    assert(free_of(rest, FIELD_SEPARATOR)) by {
        assert forall|i: int| 0 <= i < rest.len() implies rest[i] != FIELD_SEPARATOR by {
            if i < dr.len() {
                assert(rest[i] == dr[i]);
            } else if i > dr.len() {
                assert(rest[i] == dc[i - dr.len() - 1]);
            }
        }
    }
    lemma_split_concat(label, rest, FIELD_SEPARATOR);
    lemma_split_single(label, FIELD_SEPARATOR);
    lemma_split_single(rest, FIELD_SEPARATOR);
    assert(split(t, FIELD_SEPARATOR) =~= seq![label, rest]);
    lemma_split_concat(dr, dc, COORD_SEPARATOR);
    lemma_split_single(dr, COORD_SEPARATOR);
    lemma_split_single(dc, COORD_SEPARATOR);
    assert(split(rest, COORD_SEPARATOR) =~= seq![dr, dc]);
    if free_of(label, ENTRY_SEPARATOR) {
        assert forall|i: int| 0 <= i < t.len() implies t[i] != ENTRY_SEPARATOR by {
            if i < label.len() {
                assert(t[i] == label[i]);
            } else if i == label.len() {
            } else if i < label.len() + 1 + dr.len() {
                assert(t[i] == dr[i - label.len() - 1]);
            } else if i > label.len() + 1 + dr.len() {
                assert(t[i] == dc[i - label.len() - 2 - dr.len()]);
            }
        }
    }
}

/// The pieces of `s` between occurrences of `sep`.
pub fn split_chars(s: &[char], sep: char) -> (r: Vec<Vec<char>>)
    ensures
        r@.len() >= 1,
        r@.len() == split(s@, sep).len(),
        forall|i: int| 0 <= i < r@.len() ==> #[trigger] r@[i]@ == split(s@, sep)[i],
{
    let mut out: Vec<Vec<char>> = Vec::new();
    let mut cur: Vec<char> = Vec::new();
    let mut i: usize = 0;
    assert(s@.take(0) =~= Seq::<char>::empty());
    while i < s.len()
        invariant
            i <= s@.len(),
            out@.len() + 1 == split(s@.take(i as int), sep).len(),
            forall|j: int| 0 <= j < out@.len() ==> #[trigger] out@[j]@ == split(s@.take(i as int), sep)[j],
            cur@ == split(s@.take(i as int), sep).last(),
        decreases s.len() - i,
    {
        let c = s[i];
        assert(s@.take(i + 1).drop_last() =~= s@.take(i as int));
        if c == sep {
            out.push(cur);
            cur = Vec::new();
        } else {
            cur.push(c);
        }
        i = i + 1;
    }
    assert(s@.take(s@.len() as int) =~= s@);
    out.push(cur);
    proof {
        lemma_split_len(s@, sep);
    }
    out
}

} // verus!
