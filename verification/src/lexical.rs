//! Lexicographic order on strings.
//!
//! The sorted category listing needs a total order on category paths.  The
//! order is defined on character sequences and decided executably character
//! by character.

use vstd::prelude::*;
use vstd::string::StrSliceExecFns;

verus! {

/// Strict lexicographic order on character sequences: `a` comes before `b`
/// when at the first differing position `a` holds the smaller code point,
/// or when `a` is a proper prefix of `b`.
pub open spec fn lex_lt(a: Seq<char>, b: Seq<char>) -> bool
    decreases a.len(),
{
    if b.len() == 0 {
        false
    } else if a.len() == 0 {
        true
    } else if (a[0] as int) < (b[0] as int) {
        true
    } else if (b[0] as int) < (a[0] as int) {
        false
    } else {
        lex_lt(a.skip(1), b.skip(1))
    }
}

/// A sequence of strings in strictly increasing lexicographic order;
/// strictness makes the sequence free of duplicates.
pub open spec fn strictly_sorted(s: Seq<Seq<char>>) -> bool {
    forall|i: int, j: int| 0 <= i < j < s.len() ==> lex_lt(s[i], s[j])
}

/// No sequence comes lexicographically before itself.
pub proof fn lemma_lex_lt_irreflexive(a: Seq<char>)
    ensures
        !lex_lt(a, a),
    decreases a.len(),
{
    if a.len() > 0 {
        lemma_lex_lt_irreflexive(a.skip(1));
    }
}

/// Any two distinct sequences are ordered one way or the other.
pub proof fn lemma_lex_lt_connected(a: Seq<char>, b: Seq<char>)
    ensures
        lex_lt(a, b) || lex_lt(b, a) || a == b,
    decreases a.len(),
{
    if a.len() == 0 && b.len() == 0 {
        assert(a =~= b);
    } else if a.len() > 0 && b.len() > 0 && a[0] == b[0] {
        lemma_lex_lt_connected(a.skip(1), b.skip(1));
        if a.skip(1) == b.skip(1) {
            assert(a.skip(1).len() == a.len() - 1);
            assert(b.skip(1).len() == b.len() - 1);
            assert forall|i: int| 0 <= i < a.len() implies a[i] == b[i] by {
                if i > 0 {
                    assert(a.skip(1)[i - 1] == a[i]);
                    assert(b.skip(1)[i - 1] == b[i]);
                }
            }
            assert(a =~= b);
        }
    }
}

/// The order is asymmetric: at most one direction holds.
pub proof fn lemma_lex_lt_asymmetric(a: Seq<char>, b: Seq<char>)
    ensures
        !(lex_lt(a, b) && lex_lt(b, a)),
    decreases a.len(),
{
    if a.len() > 0 && b.len() > 0 && a[0] == b[0] {
        lemma_lex_lt_asymmetric(a.skip(1), b.skip(1));
    }
}

/// The order is transitive.
pub proof fn lemma_lex_lt_transitive(a: Seq<char>, b: Seq<char>, c: Seq<char>)
    requires
        lex_lt(a, b),
        lex_lt(b, c),
    ensures
        lex_lt(a, c),
    decreases a.len(),
{
    if a.len() > 0 && b.len() > 0 && c.len() > 0 && a[0] == b[0] && b[0] == c[0] {
        lemma_lex_lt_transitive(a.skip(1), b.skip(1), c.skip(1));
    }
}

/// Skipping one position of an agreeing prefix leaves the order unchanged.
proof fn lemma_lex_lt_skip_step(a: Seq<char>, b: Seq<char>, i: int)
    requires
        0 <= i < a.len(),
        i < b.len(),
        a[i] == b[i],
    ensures
        lex_lt(a.skip(i), b.skip(i)) == lex_lt(a.skip(i + 1), b.skip(i + 1)),
{
    assert(a.skip(i)[0] == a[i]);
    assert(b.skip(i)[0] == b[i]);
    assert(a.skip(i).skip(1) =~= a.skip(i + 1));
    assert(b.skip(i).skip(1) =~= b.skip(i + 1));
}

/// Decides the strict lexicographic order between two strings.
pub fn str_lex_lt(a: &str, b: &str) -> (r: bool)
    ensures
        r == lex_lt(a@, b@),
{
    let na = a.unicode_len();
    let nb = b.unicode_len();
    proof {
        assert(a@.skip(0) =~= a@);
        assert(b@.skip(0) =~= b@);
    }
    let mut i: usize = 0;
    while i < na && i < nb
        invariant
            i <= na,
            i <= nb,
            na == a@.len(),
            nb == b@.len(),
            lex_lt(a@, b@) == lex_lt(a@.skip(i as int), b@.skip(i as int)),
        decreases na - i,
    {
        let ca = a.get_char(i);
        let cb = b.get_char(i);
        proof {
            assert(a@.skip(i as int)[0] == a@[i as int]);
            assert(b@.skip(i as int)[0] == b@[i as int]);
        }
        if (ca as u32) < (cb as u32) {
            return true;
        }
        if (cb as u32) < (ca as u32) {
            return false;
        }
        proof {
            lemma_lex_lt_skip_step(a@, b@, i as int);
        }
        i = i + 1;
    }
    proof {
        assert(a@.skip(i as int).len() == na - i);
        assert(b@.skip(i as int).len() == nb - i);
    }
    na < nb
}

/// Decides whether two strings hold the same character sequence.
pub fn str_eq(a: &str, b: &str) -> (r: bool)
    ensures
        r == (a@ == b@),
{
    let na = a.unicode_len();
    let nb = b.unicode_len();
    if na != nb {
        return false;
    }
    let mut i: usize = 0;
    while i < na
        invariant
            i <= na,
            na == a@.len(),
            na == b@.len(),
            forall|j: int| 0 <= j < i ==> a@[j] == b@[j],
        decreases na - i,
    {
        let ca = a.get_char(i);
        let cb = b.get_char(i);
        if (ca as u32) != (cb as u32) {
            proof {
                assert(a@[i as int] != b@[i as int]);
            }
            return false;
        }
        i = i + 1;
    }
    proof {
        assert(a@ =~= b@);
    }
    true
}

/// A strictly sorted sequence is determined by the set of its elements:
/// two strictly sorted sequences over the same set are equal.  This is what
/// makes the category listing independent of the order and multiplicity of
/// its inputs.
pub proof fn lemma_strictly_sorted_unique(r1: Seq<Seq<char>>, r2: Seq<Seq<char>>)
    requires
        strictly_sorted(r1),
        strictly_sorted(r2),
        r1.to_set() == r2.to_set(),
    ensures
        r1 == r2,
    decreases r1.len(),
{
    if r1.len() == 0 {
        if r2.len() > 0 {
            assert(r2.to_set().contains(r2[0]));
            assert(r1.contains(r2[0]));
        }
        assert(r1 =~= r2);
    } else {
        if r2.len() == 0 {
            assert(r1.to_set().contains(r1[0]));
            assert(r2.contains(r1[0]));
        }
        let h1 = r1[0];
        let h2 = r2[0];
        assert(r1.to_set().contains(h1));
        assert(r2.contains(h1));
        let k = choose|k: int| 0 <= k < r2.len() && r2[k] == h1;
        assert(r2.to_set().contains(h2));
        assert(r1.contains(h2));
        let m = choose|m: int| 0 <= m < r1.len() && r1[m] == h2;
        if k > 0 && m > 0 {
            assert(lex_lt(h2, h1));
            assert(lex_lt(h1, h2));
            lemma_lex_lt_asymmetric(h1, h2);
        }
        assert(h1 == h2);
        lemma_skip_head_set(r1);
        lemma_skip_head_set(r2);
        assert(r1.skip(1).to_set() =~= r2.skip(1).to_set()) by {
            assert(r1.skip(1).to_set() == r1.to_set().remove(h1));
            assert(r2.skip(1).to_set() == r2.to_set().remove(h1));
        }
        assert(strictly_sorted(r1.skip(1))) by {
            assert(forall|i: int, j: int|
                0 <= i < j < r1.skip(1).len() ==> lex_lt(
                    #[trigger] r1.skip(1)[i],
                    #[trigger] r1.skip(1)[j],
                ));
        }
        assert(strictly_sorted(r2.skip(1))) by {
            assert(forall|i: int, j: int|
                0 <= i < j < r2.skip(1).len() ==> lex_lt(
                    #[trigger] r2.skip(1)[i],
                    #[trigger] r2.skip(1)[j],
                ));
        }
        lemma_strictly_sorted_unique(r1.skip(1), r2.skip(1));
        assert(r1.skip(1).len() == r1.len() - 1);
        assert(r2.skip(1).len() == r2.len() - 1);
        assert forall|i: int| 0 <= i < r1.len() implies r1[i] == r2[i] by {
            if i > 0 {
                assert(r1.skip(1)[i - 1] == r1[i]);
                assert(r2.skip(1)[i - 1] == r2[i]);
            }
        }
        assert(r1 =~= r2);
    }
}

/// In a strictly sorted sequence the tail's element set is the whole set
/// without the head.
proof fn lemma_skip_head_set(r: Seq<Seq<char>>)
    requires
        strictly_sorted(r),
        r.len() > 0,
    ensures
        r.skip(1).to_set() == r.to_set().remove(r[0]),
{
    lemma_lex_lt_irreflexive(r[0]);
    assert(r.skip(1).len() == r.len() - 1);
    assert forall|x: Seq<char>|
        r.skip(1).to_set().contains(x) implies r.to_set().remove(r[0]).contains(x) by {
        let i = choose|i: int| 0 <= i < r.skip(1).len() && r.skip(1)[i] == x;
        assert(r.skip(1)[i] == r[i + 1]);
        assert(r.contains(x));
        assert(lex_lt(r[0], r[i + 1]));
    }
    assert forall|x: Seq<char>|
        r.to_set().remove(r[0]).contains(x) implies r.skip(1).to_set().contains(x) by {
        let i = choose|i: int| 0 <= i < r.len() && r[i] == x;
        assert(i != 0);
        assert(r.skip(1)[i - 1] == x);
        assert(r.skip(1).contains(x));
    }
    assert(r.skip(1).to_set() =~= r.to_set().remove(r[0]));
}

} // verus!
