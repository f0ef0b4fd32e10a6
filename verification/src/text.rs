//! Lexicographic order on strings, by Unicode code point.
//!
//! Sorting expenses and categories by name needs one total order on
//! strings; `lex_lt` defines it over character sequences, and `str_lt`
//! decides it for string slices.

use vstd::prelude::*;

verus! {

/// Strict lexicographic order on character sequences: a proper prefix comes
/// first; otherwise the first differing character, compared as a code
/// point, decides.
pub open spec fn lex_lt(a: Seq<char>, b: Seq<char>) -> bool
    decreases a.len(),
{
    if b.len() == 0 {
        false
    } else if a.len() == 0 {
        true
    } else if a[0] != b[0] {
        (a[0] as int) < (b[0] as int)
    } else {
        lex_lt(a.skip(1), b.skip(1))
    }
}

/// Dropping a common prefix does not change the order.
pub proof fn lemma_lex_lt_common_prefix(a: Seq<char>, b: Seq<char>, i: int)
    requires
        0 <= i <= a.len(),
        i <= b.len(),
        forall|j: int| 0 <= j < i ==> a[j] == b[j],
    ensures
        lex_lt(a, b) == lex_lt(a.skip(i), b.skip(i)),
    decreases i,
{
    if i == 0 {
        assert(a.skip(0) =~= a);
        assert(b.skip(0) =~= b);
    } else {
        assert(a.len() > 0 && b.len() > 0);
        assert(a[0] == b[0]);
        lemma_lex_lt_common_prefix(a.skip(1), b.skip(1), i - 1);
        assert(a.skip(1).skip(i - 1) =~= a.skip(i));
        assert(b.skip(1).skip(i - 1) =~= b.skip(i));
    }
}

/// The order is irreflexive and asymmetric.
pub proof fn lemma_lex_lt_asymmetric(a: Seq<char>, b: Seq<char>)
    ensures
        !(lex_lt(a, b) && lex_lt(b, a)),
        !lex_lt(a, a),
    decreases a.len(),
{
    if a.len() > 0 && b.len() > 0 && a[0] == b[0] {
        lemma_lex_lt_asymmetric(a.skip(1), b.skip(1));
    }
    if a.len() > 0 {
        lemma_lex_lt_asymmetric(a.skip(1), a.skip(1));
    }
}

/// The order is transitive.
pub proof fn lemma_lex_lt_transitive(a: Seq<char>, b: Seq<char>, c: Seq<char>)
    requires
        lex_lt(a, b),
        lex_lt(b, c),
    ensures
        lex_lt(a, c),
    decreases a.len(),
{
    if a.len() > 0 && b.len() > 0 && c.len() > 0 {
        if a[0] == b[0] && b[0] == c[0] {
            lemma_lex_lt_transitive(a.skip(1), b.skip(1), c.skip(1));
        }
    }
}

/// Insertion into a sorted sequence of labels.
pub open spec fn insert_label(x: Seq<char>, s: Seq<Seq<char>>) -> Seq<Seq<char>>
    decreases s.len(),
{
    if s.len() == 0 {
        seq![x]
    } else if lex_lt(x, s[0]) {
        seq![x] + s
    } else {
        seq![s[0]] + insert_label(x, s.drop_first())
    }
}

/// Insertion sort of labels, ascending.
pub open spec fn sort_labels(s: Seq<Seq<char>>) -> Seq<Seq<char>>
    decreases s.len(),
{
    if s.len() == 0 {
        s
    } else {
        insert_label(s.last(), sort_labels(s.drop_last()))
    }
}

/// Decides `lex_lt` on two string slices.
pub fn str_lt(a: &str, b: &str) -> (r: bool)
    ensures
        r == lex_lt(a@, b@),
{
    let a_len: usize = a.unicode_len();
    let b_len: usize = b.unicode_len();
    let mut i: usize = 0;
    loop
        invariant
            0 <= i <= a_len,
            i <= b_len,
            a_len == a@.len(),
            b_len == b@.len(),
            forall|j: int| 0 <= j < i ==> a@[j] == b@[j],
        decreases a_len - i,
    {
        if i == a_len || i == b_len {
            proof {
                lemma_lex_lt_common_prefix(a@, b@, i as int);
            }
            return a_len < b_len;
        }
        let ca: char = a.get_char(i);
        let cb: char = b.get_char(i);
        if ca != cb {
            proof {
                lemma_lex_lt_common_prefix(a@, b@, i as int);
            }
            return (ca as u32) < (cb as u32);
        }
        i = i + 1;
    }
}

} // verus!
