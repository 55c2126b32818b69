//! The registry of labelled tiles: each label names one cell, and each cell
//! carries at most one label.

use vstd::prelude::*;
use crate::config::{
    Coord, split, join, split_chars, entry_text, config_text, token_label, token_coord, SHORT_TOKEN,
    ENTRY_SEPARATOR, FIELD_SEPARATOR, COORD_SEPARATOR, free_of, lemma_entry_token, lemma_split_join,
};
use crate::order::{
    label_lt, compare_labels, lemma_label_lt_transitive,
    lemma_label_lt_irreflexive,
};
use crate::text::{chars_of, string_of, append_chars, push_char, decimal_chars, parse_field};

verus! {

/// One labelled cell.
struct Entry {
    label: Vec<char>,
    coord: Coord,
}

/// `m` with the entry at cell `c`, if any, taken out.
pub open spec fn without_coord(m: Map<Seq<char>, Coord>, c: Coord) -> Map<Seq<char>, Coord> {
    Map::new(|l: Seq<char>| m.contains_key(l) && m[l] != c, |l: Seq<char>| m[l])
}

/// What assigning `label` to cell `c` makes of `m`.
pub open spec fn assigned(m: Map<Seq<char>, Coord>, label: Seq<char>, c: Coord) -> Map<
    Seq<char>,
    Coord,
> {
    without_coord(m, c).insert(label, c)
}

/// No two labels share a cell.
pub open spec fn coords_unique(m: Map<Seq<char>, Coord>) -> bool {
    forall|a: Seq<char>, b: Seq<char>|
        m.contains_key(a) && m.contains_key(b) && #[trigger] m[a] == #[trigger] m[b] ==> a == b
}

/// The label at cell `c`, if any.
pub open spec fn label_at(m: Map<Seq<char>, Coord>, c: Coord) -> Option<Seq<char>> {
    if exists|l: Seq<char>| m.contains_key(l) && m[l] == c {
        Some(choose|l: Seq<char>| m.contains_key(l) && m[l] == c)
    } else {
        None
    }
}

/// Assigning keeps every cell to at most one label.
pub proof fn lemma_assigned_coords_unique(m: Map<Seq<char>, Coord>, label: Seq<char>, c: Coord)
    requires
        coords_unique(m),
    ensures
        coords_unique(assigned(m, label, c)),
{
}

/// Clearing keeps every cell to at most one label.
pub proof fn lemma_cleared_coords_unique(m: Map<Seq<char>, Coord>, c: Coord)
    requires
        coords_unique(m),
    ensures
        coords_unique(without_coord(m, c)),
{
}

/// Right after `label` is assigned to cell `c`, the label at `c` is `label`.
pub proof fn lemma_lookup_after_assign(m: Map<Seq<char>, Coord>, label: Seq<char>, c: Coord)
    ensures
        label_at(assigned(m, label, c), c) == Some(label),
{
    let a = assigned(m, label, c);
    assert(a.contains_key(label) && a[label] == c);
    let w = choose|w: Seq<char>| a.contains_key(w) && a[w] == c;
    assert(w == label);
}

/// Right after cell `c` is cleared, no label is at `c`.
pub proof fn lemma_lookup_after_clear(m: Map<Seq<char>, Coord>, c: Coord)
    ensures
        label_at(without_coord(m, c), c) is None,
{
}

/// What importing the tokens `toks`, in order, makes of `m`.
pub open spec fn imported(m: Map<Seq<char>, Coord>, toks: Seq<Seq<char>>) -> Map<
    Seq<char>,
    Coord,
>
    decreases toks.len(),
{
    if toks.len() == 0 {
        m
    } else {
        let before = imported(m, toks.drop_last());
        let t = toks.last();
        if t.len() <= SHORT_TOKEN {
            before
        } else {
            assigned(before, token_label(t), token_coord(t))
        }
    }
}

/// The labelled cells of one image, kept in label order.
pub struct TileRegistry {
    entries: Vec<Entry>,
    model: Ghost<Map<Seq<char>, Coord>>,
}

impl View for TileRegistry {
    type V = Map<Seq<char>, Coord>;

    closed spec fn view(&self) -> Map<Seq<char>, Coord> {
        self.model@
    }
}

impl TileRegistry {
    /// The entries as (label, cell) pairs, in label order.
    pub closed spec fn pairs(&self) -> Seq<(Seq<char>, Coord)> {
        self.entries@.map_values(|e: Entry| (e.label@, e.coord))
    }

    pub closed spec fn wf(&self) -> bool {
        &&& forall|i: int, j: int|
            0 <= i < j < self.entries@.len() ==> label_lt(
                #[trigger] self.entries@[i].label@,
                #[trigger] self.entries@[j].label@,
            )
        &&& forall|i: int, j: int|
            0 <= i < j < self.entries@.len() ==> #[trigger] self.entries@[i].coord
                != #[trigger] self.entries@[j].coord
        &&& forall|l: Seq<char>|
            #[trigger] self.model@.contains_key(l) <==> exists|i: int|
                0 <= i < self.entries@.len() && #[trigger] self.entries@[i].label@ == l
        &&& forall|i: int|
            0 <= i < self.entries@.len() ==> self.model@[#[trigger] self.entries@[i].label@]
                == self.entries@[i].coord
    }

    /// What the well-formedness of a registry gives its callers: the pairs are
    /// the map's entries in strictly ascending label order, and no two labels
    /// share a cell.
    pub proof fn lemma_wf(&self)
        requires
            self.wf(),
        ensures
            coords_unique(self@),
            forall|i: int, j: int|
                0 <= i < j < self.pairs().len() ==> label_lt(
                    #[trigger] self.pairs()[i].0,
                    #[trigger] self.pairs()[j].0,
                ),
            forall|i: int|
                0 <= i < self.pairs().len() ==> #[trigger] self@.contains_key(self.pairs()[i].0)
                    && self@[self.pairs()[i].0] == self.pairs()[i].1,
            forall|l: Seq<char>|
                #[trigger] self@.contains_key(l) ==> exists|i: int|
                    0 <= i < self.pairs().len() && #[trigger] self.pairs()[i].0 == l,
    {
        assert forall|a: Seq<char>, b: Seq<char>|
            self@.contains_key(a) && self@.contains_key(b) && #[trigger] self@[a]
                == #[trigger] self@[b] implies a == b by {
            let i = choose|i: int| 0 <= i < self.entries@.len() && self.entries@[i].label@ == a;
            let j = choose|j: int| 0 <= j < self.entries@.len() && self.entries@[j].label@ == b;
            if i < j {
                assert(self.entries@[i].coord != self.entries@[j].coord);
            } else if j < i {
                assert(self.entries@[j].coord != self.entries@[i].coord);
            }
        }
        assert forall|l: Seq<char>| #[trigger] self@.contains_key(l) implies exists|i: int|
            0 <= i < self.pairs().len() && #[trigger] self.pairs()[i].0 == l by {
            let i = choose|i: int| 0 <= i < self.entries@.len() && self.entries@[i].label@ == l;
            assert(self.pairs()[i].0 == l);
        }
    }

    /// An empty registry.
    pub fn new() -> (r: TileRegistry)
        ensures
            r.wf(),
            r@ == Map::<Seq<char>, Coord>::empty(),
    {
        let r = TileRegistry { entries: Vec::new(), model: Ghost(Map::empty()) };
        assert(r.model@ =~= Map::empty());
        r
    }

    /// Number of labelled cells.
    pub fn len(&self) -> (n: usize)
        requires
            self.wf(),
        ensures
            n == self@.len(),
            n == self.pairs().len(),
    {
        proof {
            self.lemma_model_len();
        }
        self.entries.len()
    }

    proof fn lemma_model_len(&self)
        requires
            self.wf(),
        ensures
            self.model@.len() == self.entries@.len(),
            self.model@.dom().finite(),
    {
        let labels = self.entries@.map_values(|e: Entry| e.label@);
        assert forall|l: Seq<char>| #[trigger] self.model@.dom().contains(l) <==> labels.contains(l) by {
            if self.model@.dom().contains(l) {
                let k = choose|k: int| 0 <= k < self.entries@.len() && self.entries@[k].label@ == l;
                assert(labels[k] == l);
            }
            if labels.contains(l) {
                let k = choose|k: int| 0 <= k < labels.len() && labels[k] == l;
                assert(self.entries@[k].label@ == l);
            }
        }
        assert(self.model@.dom() =~= labels.to_set());
        assert forall|i: int, j: int| 0 <= i < labels.len() && 0 <= j < labels.len() && i != j
            implies labels[i] != labels[j] by {
            lemma_label_lt_irreflexive(labels[i]);
            if i < j {
                assert(label_lt(self.entries@[i].label@, self.entries@[j].label@));
            } else {
                assert(label_lt(self.entries@[j].label@, self.entries@[i].label@));
            }
        }
        assert(labels.no_duplicates());
        labels.unique_seq_to_set();
        vstd::seq_lib::seq_to_set_is_finite(labels);
    }

    /// Removes the entry at cell `c`, if there is one.
    pub fn clear(&mut self, c: Coord)
        requires
            old(self).wf(),
        ensures
            final(self).wf(),
            final(self)@ == without_coord(old(self)@, c),
            coords_unique(final(self)@),
    {
        let mut i: usize = 0;
        while i < self.entries.len() && self.entries[i].coord != c
            invariant
                i <= self.entries@.len(),
                forall|j: int| 0 <= j < i ==> #[trigger] self.entries@[j].coord != c,
            decreases self.entries.len() - i,
        {
            i = i + 1;
        }
        let ghost m = self.model@;
        if i < self.entries.len() {
            let ghost gone = self.entries@[i as int].label@;
            let ghost es = self.entries@;
            let removed = self.entries.remove(i);
            self.model = Ghost(self.model@.remove(gone));
            proof {
                assert forall|l: Seq<char>| #[trigger] self.model@.contains_key(l) <==> exists|
                    k: int,
                |
                    0 <= k < self.entries@.len() && #[trigger] self.entries@[k].label@ == l by {
                    if self.model@.contains_key(l) {
                        let k = choose|k: int| 0 <= k < es.len() && es[k].label@ == l;
                        if k < i {
                            assert(self.entries@[k].label@ == l);
                        } else {
                            assert(k != i);
                            assert(self.entries@[k - 1].label@ == l);
                        }
                    }
                    if exists|k: int|
                        0 <= k < self.entries@.len() && #[trigger] self.entries@[k].label@ == l {
                        let k = choose|k: int|
                            0 <= k < self.entries@.len() && self.entries@[k].label@ == l;
                        let ko = if k < i {
                            k
                        } else {
                            k + 1
                        };
                        assert(es[ko].label@ == l);
                        lemma_label_lt_irreflexive(l);
                        if ko < i {
                            assert(label_lt(es[ko].label@, es[i as int].label@));
                        } else {
                            assert(label_lt(es[i as int].label@, es[ko].label@));
                        }
                    }
                }
                assert forall|k: int| 0 <= k < self.entries@.len() implies self.model@[
                    #[trigger] self.entries@[k].label@] == self.entries@[k].coord by {
                    let ko = if k < i {
                        k
                    } else {
                        k + 1
                    };
                    assert(self.entries@[k] == es[ko]);
                    lemma_label_lt_irreflexive(gone);
                    if ko < i {
                        assert(label_lt(es[ko].label@, gone));
                    } else {
                        assert(label_lt(gone, es[ko].label@));
                    }
                }
                assert forall|l: Seq<char>| #[trigger]
                    self.model@.contains_key(l) == without_coord(m, c).contains_key(l) by {
                    if m.contains_key(l) && m[l] == c && l != gone {
                        let k = choose|k: int| 0 <= k < es.len() && es[k].label@ == l;
                        if k < i {
                            assert(es[k].coord != es[i as int].coord);
                        } else {
                            assert(es[i as int].coord != es[k].coord);
                        }
                    }
                }
                assert(self.model@ =~= without_coord(m, c));
                let ns = self.entries@;
                assert forall|a: int, b: int| 0 <= a < b < ns.len() implies label_lt(
                    #[trigger] ns[a].label@,
                    #[trigger] ns[b].label@,
                ) && ns[a].coord != ns[b].coord by {
                    let ao = if a < i { a } else { a + 1 };
                    let bo = if b < i { b } else { b + 1 };
                    assert(ns[a] == es[ao] && ns[b] == es[bo]);
                    assert(label_lt(es[ao].label@, es[bo].label@));
                    assert(es[ao].coord != es[bo].coord);
                }
                assert(self.wf());
            }
        } else {
            proof {
                assert forall|l: Seq<char>| #[trigger] m.contains_key(l) implies m[l] != c by {
                    let k = choose|k: int| 0 <= k < self.entries@.len() && self.entries@[k].label@ == l;
                    assert(self.entries@[k].coord != c);
                }
                assert(self.model@ =~= without_coord(m, c));
            }
        }
        proof {
            self.lemma_wf();
        }
    }

    /// Gives `label` to cell `c`: any entry at `c` goes first, and an entry that
    /// already has `label` moves to `c`.
    pub fn assign_chars(&mut self, label: Vec<char>, c: Coord)
        requires
            old(self).wf(),
        ensures
            final(self).wf(),
            final(self)@ == assigned(old(self)@, label@, c),
            coords_unique(final(self)@),
    {
        self.clear(c);
        let ghost m = self.model@;
        let ghost es = self.entries@;
        let ghost l = label@;
        proof {
            assert forall|k: int| 0 <= k < es.len() implies #[trigger] es[k].coord != c by {
                assert(m.contains_key(es[k].label@));
            }
        }
        let mut j: usize = 0;
        while j < self.entries.len()
            && compare_labels(self.entries[j].label.as_slice(), label.as_slice()) < 0
            invariant
                self.entries@ == es,
                j <= es.len(),
                forall|k: int| 0 <= k < j ==> label_lt(#[trigger] es[k].label@, l),
                label@ == l,
            decreases es.len() - j,
        {
            j = j + 1;
        }
        let ord: i8 = if j < self.entries.len() {
            compare_labels(self.entries[j].label.as_slice(), label.as_slice())
        } else {
            1
        };
        let found = j < self.entries.len() && ord == 0;
        proof {
            if j < es.len() && !found {
                assert(label_lt(l, es[j as int].label@));
                assert forall|k: int| j <= k < es.len() implies label_lt(l, #[trigger] es[k].label@) by {
                    if k > j {
                        lemma_label_lt_transitive(l, es[j as int].label@, es[k].label@);
                    }
                }
            }
            if found {
                assert(es[j as int].label@ == l);
            }
        }
        let entry = Entry { label, coord: c };
        if found {
            self.entries.set(j, entry);
        } else {
            self.entries.insert(j, entry);
        }
        self.model = Ghost(m.insert(l, c));
        proof {
            let ns = self.entries@;
            assert forall|a: int, b: int| 0 <= a < b < ns.len() implies label_lt(
                #[trigger] ns[a].label@,
                #[trigger] ns[b].label@,
            ) by {
                if found {
                    assert(label_lt(es[a].label@, es[b].label@));
                } else if b < j {
                    assert(label_lt(es[a].label@, es[b].label@));
                } else if a == j {
                    assert(label_lt(l, es[b - 1].label@));
                } else if b == j {
                } else if a > j {
                    assert(label_lt(es[a - 1].label@, es[b - 1].label@));
                } else {
                    assert(label_lt(es[a].label@, es[b - 1].label@));
                }
            }
            assert forall|a: int, b: int| 0 <= a < b < ns.len() implies #[trigger] ns[a].coord
                != #[trigger] ns[b].coord by {
                if found {
                    assert(es[a].coord != es[b].coord);
                } else if b < j {
                    assert(es[a].coord != es[b].coord);
                } else if a == j {
                    assert(es[b - 1].coord != c);
                } else if b == j {
                    assert(es[a].coord != c);
                } else if a > j {
                    assert(es[a - 1].coord != es[b - 1].coord);
                } else {
                    assert(es[a].coord != es[b - 1].coord);
                }
            }
            assert forall|x: Seq<char>| #[trigger] self.model@.contains_key(x) <==> exists|k: int|
                0 <= k < ns.len() && #[trigger] ns[k].label@ == x by {
                if x == l {
                    assert(ns[j as int].label@ == l);
                } else {
                    if m.contains_key(x) {
                        let k = choose|k: int| 0 <= k < es.len() && es[k].label@ == x;
                        if found || k < j {
                            assert(ns[k].label@ == x);
                        } else {
                            assert(ns[k + 1].label@ == x);
                        }
                    }
                    if exists|k: int| 0 <= k < ns.len() && #[trigger] ns[k].label@ == x {
                        let k = choose|k: int| 0 <= k < ns.len() && ns[k].label@ == x;
                        if found || k < j {
                            assert(es[k].label@ == x);
                        } else {
                            assert(es[k - 1].label@ == x);
                        }
                    }
                }
            }
            assert forall|k: int| 0 <= k < ns.len() implies self.model@[#[trigger] ns[k].label@]
                == ns[k].coord by {
                if k != j {
                    let ko = if found || k < j {
                        k
                    } else {
                        k - 1
                    };
                    assert(ns[k] == es[ko]);
                    lemma_label_lt_irreflexive(l);
                    if ko < j {
                        assert(label_lt(es[ko].label@, l));
                    } else if found {
                        assert(label_lt(es[j as int].label@, es[ko].label@));
                    } else {
                        assert(label_lt(l, es[ko].label@));
                    }
                }
            }
            assert(self.model@ =~= assigned(old(self)@, l, c));
            self.lemma_wf();
        }
    }

    /// Gives `label` to cell `c`, as `assign_chars` does.
    pub fn assign(&mut self, label: &str, c: Coord)
        requires
            old(self).wf(),
        ensures
            final(self).wf(),
            final(self)@ == assigned(old(self)@, label@, c),
            coords_unique(final(self)@),
    {
        let chars = chars_of(label);
        self.assign_chars(chars, c);
    }

    /// The label at cell `c`, if any.
    pub fn lookup_by_coord(&self, c: Coord) -> (r: Option<String>)
        requires
            self.wf(),
        ensures
            r matches Some(s) ==> label_at(self@, c) == Some(s@),
            r is None ==> label_at(self@, c) is None,
    {
        let mut i: usize = 0;
        while i < self.entries.len()
            invariant
                self.wf(),
                i <= self.entries@.len(),
                forall|j: int| 0 <= j < i ==> #[trigger] self.entries@[j].coord != c,
            decreases self.entries.len() - i,
        {
            if self.entries[i].coord == c {
                proof {
                    self.lemma_wf();
                    let l = self.entries@[i as int].label@;
                    assert(self@.contains_key(l) && self@[l] == c);
                    let w = choose|w: Seq<char>| self@.contains_key(w) && self@[w] == c;
                    assert(w == l);
                }
                return Some(string_of(self.entries[i].label.as_slice()));
            }
            i = i + 1;
        }
        proof {
            assert forall|l: Seq<char>| self@.contains_key(l) implies self@[l] != c by {
                let k = choose|k: int| 0 <= k < self.entries@.len() && self.entries@[k].label@ == l;
                assert(self.entries@[k].coord != c);
            }
        }
        None
    }

    /// The cell that carries `label`, if any.
    pub fn coord_of(&self, label: &str) -> (r: Option<Coord>)
        requires
            self.wf(),
        ensures
            r == (if self@.contains_key(label@) {
                Some(self@[label@])
            } else {
                None::<Coord>
            }),
    {
        let chars = chars_of(label);
        let mut i: usize = 0;
        while i < self.entries.len()
            invariant
                self.wf(),
                i <= self.entries@.len(),
                chars@ == label@,
                forall|j: int| 0 <= j < i ==> #[trigger] self.entries@[j].label@ != label@,
            decreases self.entries.len() - i,
        {
            if compare_labels(self.entries[i].label.as_slice(), chars.as_slice()) == 0 {
                return Some(self.entries[i].coord);
            }
            i = i + 1;
        }
        proof {
            if self@.contains_key(label@) {
                let k = choose|k: int|
                    0 <= k < self.entries@.len() && self.entries@[k].label@ == label@;
                assert(self.entries@[k].label@ != label@);
            }
        }
        None
    }

    /// The labelled cells as (label, cell) pairs, in label order.
    pub fn entries(&self) -> (r: Vec<(String, Coord)>)
        requires
            self.wf(),
        ensures
            r@.len() == self.pairs().len(),
            forall|i: int|
                0 <= i < r@.len() ==> (#[trigger] r@[i].0@, r@[i].1) == self.pairs()[i],
    {
        let mut r: Vec<(String, Coord)> = Vec::new();
        let mut i: usize = 0;
        while i < self.entries.len()
            invariant
                i <= self.entries@.len(),
                r@.len() == i,
                forall|k: int|
                    0 <= k < i ==> (#[trigger] r@[k].0@, r@[k].1) == self.pairs()[k],
            decreases self.entries.len() - i,
        {
            r.push((string_of(self.entries[i].label.as_slice()), self.entries[i].coord));
            i = i + 1;
        }
        r
    }

    /// The configuration text: one `label:row_col` entry per labelled cell, in
    /// label order, separated by commas.
    pub fn export_config(&self) -> (r: String)
        requires
            self.wf(),
        ensures
            r@ == config_text(self.pairs()),
    {
        let ghost toks = self.pairs().map_values(|e: (Seq<char>, Coord)| entry_text(e.0, e.1));
        let mut s = String::new();
        let mut i: usize = 0;
        while i < self.entries.len()
            invariant
                self.wf(),
                i <= self.entries@.len(),
                toks == self.pairs().map_values(|e: (Seq<char>, Coord)| entry_text(e.0, e.1)),
                s@ == join(toks.take(i as int), ENTRY_SEPARATOR),
            decreases self.entries.len() - i,
        {
            let ghost before = s@;
            if i > 0 {
                push_char(&mut s, ENTRY_SEPARATOR);
            }
            let e = &self.entries[i];
            append_chars(&mut s, e.label.as_slice());
            push_char(&mut s, FIELD_SEPARATOR);
            let row = decimal_chars(e.coord.row);
            append_chars(&mut s, row.as_slice());
            push_char(&mut s, COORD_SEPARATOR);
            let col = decimal_chars(e.coord.col);
            append_chars(&mut s, col.as_slice());
            proof {
                let t = toks.take(i + 1);
                assert(t.drop_last() =~= toks.take(i as int));
                assert(t.last() == entry_text(e.label@, e.coord));
                assert(s@ =~= join(t, ENTRY_SEPARATOR));
            }
            i = i + 1;
        }
        assert(toks.take(self.entries@.len() as int) =~= toks);
        s
    }

    /// Reads a configuration text into the registry. The text is cut at the
    /// entry separators; tokens of at most three characters are skipped; every
    /// other token is assigned, in order, as `token_label` and `token_coord`
    /// read it.
    pub fn import_config(&mut self, cfg: &str)
        requires
            old(self).wf(),
        ensures
            final(self).wf(),
            final(self)@ == imported(old(self)@, split(cfg@, ENTRY_SEPARATOR)),
            coords_unique(final(self)@),
    {
        let chars = chars_of(cfg);
        let tokens = split_chars(chars.as_slice(), ENTRY_SEPARATOR);
        let ghost toks = split(cfg@, ENTRY_SEPARATOR);
        let mut k: usize = 0;
        assert(toks.take(0) =~= Seq::<Seq<char>>::empty());
        while k < tokens.len()
            invariant
                self.wf(),
                k <= tokens@.len(),
                tokens@.len() == toks.len(),
                forall|i: int| 0 <= i < tokens@.len() ==> #[trigger] tokens@[i]@ == toks[i],
                self@ == imported(old(self)@, toks.take(k as int)),
            decreases tokens.len() - k,
        {
            let t = &tokens[k];
            assert(toks.take(k + 1).drop_last() =~= toks.take(k as int));
            assert(toks.take(k + 1).last() == t@);
            if t.len() > SHORT_TOKEN {
                let mut parts = split_chars(t.as_slice(), FIELD_SEPARATOR);
                let rc = if parts.len() > 1 {
                    split_chars(parts[1].as_slice(), COORD_SEPARATOR)
                } else {
                    let empty: Vec<char> = Vec::new();
                    let v = vec![empty];
                    assert(v@[0]@ =~= Seq::<char>::empty());
                    v
                };
                let row = parse_field(rc[0].as_slice());
                let col = if rc.len() > 1 {
                    parse_field(rc[1].as_slice())
                } else {
                    0
                };
                let label = parts.remove(0);
                self.assign_chars(label, Coord { row, col });
            }
            k = k + 1;
        }
        assert(toks.take(toks.len() as int) =~= toks);
    }

    /// Importing the exported text into an empty registry gives back the same
    /// labelled cells, provided no label holds an entry or field separator.
    pub proof fn lemma_config_round_trip(&self)
        requires
            self.wf(),
            forall|l: Seq<char>|
                #[trigger] self@.contains_key(l) ==> !l.contains(ENTRY_SEPARATOR) && !l.contains(
                    FIELD_SEPARATOR,
                ),
        ensures
            imported(Map::empty(), split(config_text(self.pairs()), ENTRY_SEPARATOR)) == self@,
    {
        self.lemma_wf();
        let pairs = self.pairs();
        let toks = pairs.map_values(|e: (Seq<char>, Coord)| entry_text(e.0, e.1));
        assert forall|i: int| 0 <= i < pairs.len() implies free_of(#[trigger] pairs[i].0, ENTRY_SEPARATOR)
            && free_of(pairs[i].0, FIELD_SEPARATOR) && #[trigger] toks[i] == entry_text(pairs[i].0, pairs[i].1)
            && token_label(toks[i]) == pairs[i].0 && token_coord(toks[i]) == pairs[i].1
            && toks[i].len() > SHORT_TOKEN && free_of(toks[i], ENTRY_SEPARATOR) by {
            let l = pairs[i].0;
            assert(self@.contains_key(l));
            assert forall|k: int| 0 <= k < l.len() implies l[k] != ENTRY_SEPARATOR && l[k]
                != FIELD_SEPARATOR by {
                if l[k] == ENTRY_SEPARATOR {
                    assert(l.contains(ENTRY_SEPARATOR));
                }
                if l[k] == FIELD_SEPARATOR {
                    assert(l.contains(FIELD_SEPARATOR));
                }
            }
            lemma_entry_token(l, pairs[i].1);
        }
        if pairs.len() == 0 {
            let empty = Seq::<Seq<char>>::empty().push(Seq::empty());
            assert(split(config_text(pairs), ENTRY_SEPARATOR) =~= empty);
            assert(empty.drop_last() =~= Seq::<Seq<char>>::empty());
            assert(imported(Map::empty(), Seq::<Seq<char>>::empty()) == Map::<Seq<char>, Coord>::empty());
            assert(imported(Map::empty(), empty) == Map::<Seq<char>, Coord>::empty());
            assert(self@ =~= Map::empty()) by {
                assert forall|l: Seq<char>| !self@.contains_key(l) by {
                    if self@.contains_key(l) {
                        let i = choose|i: int| 0 <= i < pairs.len() && pairs[i].0 == l;
                    }
                }
            }
        } else {
            lemma_split_join(toks, ENTRY_SEPARATOR);
            self.lemma_import_prefix(toks, toks.len() as int);
            assert(toks.take(toks.len() as int) =~= toks);
            let m = imported(Map::empty(), toks);
            assert forall|l: Seq<char>| #[trigger] m.contains_key(l) == self@.contains_key(l) by {
                if self@.contains_key(l) {
                    let i = choose|i: int| 0 <= i < pairs.len() && pairs[i].0 == l;
                }
            }
            assert(m =~= self@);
            assert(config_text(pairs) == join(toks, ENTRY_SEPARATOR));
        }
    }

    proof fn lemma_import_prefix(&self, toks: Seq<Seq<char>>, k: int)
        requires
            self.wf(),
            0 <= k <= toks.len(),
            toks.len() == self.pairs().len(),
            forall|i: int|
                0 <= i < toks.len() ==> token_label(#[trigger] toks[i]) == self.pairs()[i].0
                    && token_coord(toks[i]) == self.pairs()[i].1 && toks[i].len() > SHORT_TOKEN,
        ensures
            forall|l: Seq<char>|
                #[trigger] imported(Map::empty(), toks.take(k)).contains_key(l) <==> exists|i: int|
                    0 <= i < k && #[trigger] self.pairs()[i].0 == l,
            forall|i: int|
                0 <= i < k ==> imported(Map::empty(), toks.take(k))[#[trigger] self.pairs()[i].0]
                    == self.pairs()[i].1,
        decreases k,
    {
        self.lemma_wf();
        let pairs = self.pairs();
        if k == 0 {
            assert(toks.take(0) =~= Seq::<Seq<char>>::empty());
        } else {
            self.lemma_import_prefix(toks, k - 1);
            assert(toks.take(k).drop_last() =~= toks.take(k - 1));
            assert(toks.take(k).last() == toks[k - 1]);
            let before = imported(Map::empty(), toks.take(k - 1));
            let l = pairs[k - 1].0;
            let c = pairs[k - 1].1;
            assert forall|x: Seq<char>| #[trigger] before.contains_key(x) implies before[x] != c && x != l by {
                let i = choose|i: int| 0 <= i < k - 1 && pairs[i].0 == x;
                assert(label_lt(pairs[i].0, pairs[k - 1].0));
                lemma_label_lt_irreflexive(x);
                assert(self@[x] == pairs[i].1);
                assert(self@[l] == c);
            }
            assert(without_coord(before, c) =~= before);
            let after = imported(Map::empty(), toks.take(k));
            assert(after == assigned(before, l, c));
            assert forall|x: Seq<char>| #[trigger] after.contains_key(x) implies exists|i: int|
                0 <= i < k && #[trigger] pairs[i].0 == x by {
                if x == l {
                    assert(pairs[k - 1].0 == x);
                } else {
                    let i = choose|i: int| 0 <= i < k - 1 && pairs[i].0 == x;
                    assert(pairs[i].0 == x);
                }
            }
            assert forall|i: int| 0 <= i < k implies after[#[trigger] pairs[i].0] == pairs[i].1 by {
                if i < k - 1 {
                    assert(label_lt(pairs[i].0, pairs[k - 1].0));
                    lemma_label_lt_irreflexive(l);
                }
            }
        }
    }
}

} // verus!
