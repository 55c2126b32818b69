//! Lexicographic order on labels, by code point, as `String`'s `Ord` has it.

use vstd::prelude::*;

verus! {

/// `a` sorts strictly before `b`.
pub open spec fn label_lt(a: Seq<char>, b: Seq<char>) -> bool
    decreases a.len(),
{
    if a.len() == 0 {
        b.len() > 0
    } else if b.len() == 0 {
        false
    } else if a[0] != b[0] {
        a[0] < b[0]
    } else {
        label_lt(a.skip(1), b.skip(1))
    }
}

pub proof fn lemma_label_lt_irreflexive(a: Seq<char>)
    ensures
        !label_lt(a, a),
    decreases a.len(),
{
    if a.len() > 0 {
        lemma_label_lt_irreflexive(a.skip(1));
    }
}

pub proof fn lemma_label_lt_asymmetric(a: Seq<char>, b: Seq<char>)
    requires
        label_lt(a, b),
    ensures
        !label_lt(b, a),
    decreases a.len(),
{
    if a.len() > 0 && b.len() > 0 && a[0] == b[0] {
        lemma_label_lt_asymmetric(a.skip(1), b.skip(1));
    }
}

pub proof fn lemma_label_lt_transitive(a: Seq<char>, b: Seq<char>, c: Seq<char>)
    requires
        label_lt(a, b),
        label_lt(b, c),
    ensures
        label_lt(a, c),
    decreases a.len(),
{
    if a.len() > 0 && b.len() > 0 && c.len() > 0 && a[0] == b[0] && b[0] == c[0] {
        lemma_label_lt_transitive(a.skip(1), b.skip(1), c.skip(1));
    }
}

/// Three-way comparison of two labels: negative, zero or positive as `a`
/// sorts before, equals, or sorts after `b`.
pub fn compare_labels(a: &[char], b: &[char]) -> (r: i8)
    ensures
        r < 0 <==> label_lt(a@, b@),
        r == 0 <==> a@ == b@,
        r > 0 <==> label_lt(b@, a@),
{
    let mut i: usize = 0;
    assert(a@.skip(0) =~= a@);
    assert(b@.skip(0) =~= b@);
    while i < a.len() && i < b.len() && a[i] == b[i]
        invariant
            i <= a@.len(),
            i <= b@.len(),
            a@.take(i as int) == b@.take(i as int),
            label_lt(a@, b@) == label_lt(a@.skip(i as int), b@.skip(i as int)),
            label_lt(b@, a@) == label_lt(b@.skip(i as int), a@.skip(i as int)),
        decreases a.len() - i,
    {
        assert(a@.skip(i as int).skip(1) =~= a@.skip(i + 1));
        assert(b@.skip(i as int).skip(1) =~= b@.skip(i + 1));
        assert(a@.take(i + 1) =~= a@.take(i as int).push(a@[i as int]));
        assert(b@.take(i + 1) =~= b@.take(i as int).push(b@[i as int]));
        i = i + 1;
    }
    if i == a.len() && i == b.len() {
        assert(a@ =~= a@.take(i as int));
        assert(b@ =~= b@.take(i as int));
        proof {
            lemma_label_lt_irreflexive(a@);
        }
        0
    } else if i == a.len() {
        proof {
            lemma_label_lt_asymmetric(a@, b@);
        }
        assert(a@.len() != b@.len());
        -1
    } else if i == b.len() {
        proof {
            lemma_label_lt_asymmetric(b@, a@);
        }
        assert(a@.len() != b@.len());
        1
    } else {
        assert(a@.skip(i as int)[0] == a@[i as int]);
        assert(b@.skip(i as int)[0] == b@[i as int]);
        assert(a@[i as int] != b@[i as int]);
        if a[i] < b[i] {
            assert(a@ != b@);
            -1
        } else {
            assert(a@ != b@);
            1
        }
    }
}

} // verus!
