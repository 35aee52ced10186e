//! Verified helpers over strings: equality, prefix tests, lexicographic
//! order, and character membership. The proxy table and the resolver state
//! their contracts over `Seq<char>` views, and these functions bridge the
//! executable strings to those views.

use vstd::prelude::*;

verus! {

/// `p` is a prefix of `s`.
pub open spec fn is_prefix_of(p: Seq<char>, s: Seq<char>) -> bool {
    p.len() <= s.len() && s.subrange(0, p.len() as int) == p
}

/// Some character of `s` is `c`.
pub open spec fn has_char(s: Seq<char>, c: char) -> bool {
    exists|i: int| 0 <= i < s.len() && s[i] == c
}

/// Strict lexicographic order on character sequences, by code point.
/// This is the order in which the proxy table keeps its keys.
pub open spec fn lex_lt(a: Seq<char>, b: Seq<char>) -> bool
    decreases a.len(),
{
    if b.len() == 0 {
        false
    } else if a.len() == 0 {
        true
    } else if a[0] != b[0] {
        a[0] < b[0]
    } else {
        lex_lt(a.skip(1), b.skip(1))
    }
}

/// Dropping an equal prefix of both sequences does not change their order.
pub proof fn lemma_lex_lt_skip(a: Seq<char>, b: Seq<char>, i: int)
    requires
        0 <= i <= a.len(),
        i <= b.len(),
        a.subrange(0, i) == b.subrange(0, i),
    ensures
        lex_lt(a, b) == lex_lt(a.skip(i), b.skip(i)),
    decreases i,
{
    if i > 0 {
        assert(a.subrange(0, i)[0] == a[0]);
        assert(b.subrange(0, i)[0] == b[0]);
        assert forall|j: int| 0 <= j < i - 1 implies #[trigger] a.skip(1)[j] == b.skip(1)[j] by {
            assert(a.subrange(0, i)[j + 1] == a[j + 1]);
            assert(b.subrange(0, i)[j + 1] == b[j + 1]);
            assert(a.skip(1)[j] == a[j + 1]);
            assert(b.skip(1)[j] == b[j + 1]);
        }
        assert forall|j: int|
            0 <= j < i - 1 implies #[trigger] a.skip(1).subrange(0, i - 1)[j] == b.skip(1).subrange(
            0,
            i - 1,
        )[j] by {
            assert(a.skip(1).subrange(0, i - 1)[j] == a.skip(1)[j]);
            assert(b.skip(1).subrange(0, i - 1)[j] == b.skip(1)[j]);
        }
        assert(a.skip(1).subrange(0, i - 1) =~= b.skip(1).subrange(0, i - 1));
        lemma_lex_lt_skip(a.skip(1), b.skip(1), i - 1);
        assert forall|j: int| 0 <= j < a.len() - i implies #[trigger] a.skip(1).skip(i - 1)[j]
            == a.skip(i)[j] by {
            assert(a.skip(1).skip(i - 1)[j] == a.skip(1)[j + i - 1]);
            assert(a.skip(1)[j + i - 1] == a[j + i]);
            assert(a.skip(i)[j] == a[j + i]);
        }
        assert(a.skip(1).skip(i - 1) =~= a.skip(i));
        assert forall|j: int| 0 <= j < b.len() - i implies #[trigger] b.skip(1).skip(i - 1)[j]
            == b.skip(i)[j] by {
            assert(b.skip(1).skip(i - 1)[j] == b.skip(1)[j + i - 1]);
            assert(b.skip(1)[j + i - 1] == b[j + i]);
            assert(b.skip(i)[j] == b[j + i]);
        }
        assert(b.skip(1).skip(i - 1) =~= b.skip(i));
        assert(lex_lt(a, b) == lex_lt(a.skip(1), b.skip(1)));
    } else {
        assert(a.skip(0) =~= a);
        assert(b.skip(0) =~= b);
    }
}

/// The order `lex_lt` is trichotomous: two sequences are equal, or one of
/// them is strictly below the other.
pub proof fn lemma_lex_trichotomy(a: Seq<char>, b: Seq<char>)
    ensures
        a == b || lex_lt(a, b) || lex_lt(b, a),
    decreases a.len(),
{
    if a.len() == 0 && b.len() == 0 {
        assert(a =~= b);
    } else if a.len() != 0 && b.len() != 0 && a[0] == b[0] {
        lemma_lex_trichotomy(a.skip(1), b.skip(1));
        assert(a.skip(1).len() == a.len() - 1);
        assert(b.skip(1).len() == b.len() - 1);
        if a.skip(1) == b.skip(1) {
            assert(a.len() == b.len());
            assert forall|j: int| 0 <= j < a.len() implies a[j] == b[j] by {
                if j > 0 {
                    assert(a.skip(1)[j - 1] == a[j]);
                    assert(b.skip(1)[j - 1] == b[j]);
                }
            }
            assert(a =~= b);
        }
    }
}

/// At most one of `lex_lt(a, b)` and `lex_lt(b, a)` holds, and neither
/// holds between a sequence and itself.
pub proof fn lemma_lex_asymmetry(a: Seq<char>, b: Seq<char>)
    ensures
        lex_lt(a, b) ==> !lex_lt(b, a),
        lex_lt(a, b) ==> a != b,
    decreases a.len(),
{
    if a.len() != 0 && b.len() != 0 && a[0] == b[0] {
        lemma_lex_asymmetry(a.skip(1), b.skip(1));
        assert(a.skip(1).len() == a.len() - 1);
        assert(b.skip(1).len() == b.len() - 1);
        if lex_lt(a, b) && a.skip(1) == b.skip(1) {
            assert forall|j: int| 0 <= j < a.len() implies a[j] == b[j] by {
                if j > 0 {
                    assert(a.skip(1)[j - 1] == a[j]);
                    assert(b.skip(1)[j - 1] == b[j]);
                }
            }
            assert(a =~= b);
        }
    }
}

/// The order `lex_lt` is transitive.
pub proof fn lemma_lex_transitive(a: Seq<char>, b: Seq<char>, c: Seq<char>)
    requires
        lex_lt(a, b),
        lex_lt(b, c),
    ensures
        lex_lt(a, c),
    decreases a.len(),
{
    if a.len() != 0 && b.len() != 0 && c.len() != 0 {
        if a[0] == b[0] && b[0] == c[0] {
            lemma_lex_transitive(a.skip(1), b.skip(1), c.skip(1));
        }
    }
}

/// Whether the strings `a` and `b` hold the same characters.
pub fn str_eq(a: &str, b: &str) -> (r: bool)
    ensures
        r == (a@ == b@),
{
    let a_len = a.unicode_len();
    let b_len = b.unicode_len();
    if a_len != b_len {
        return false;
    }
    let mut i: usize = 0;
    while i < a_len
        invariant
            0 <= i <= a_len,
            a_len == a@.len(),
            a_len == b@.len(),
            forall|j: int| 0 <= j < i ==> a@[j] == b@[j],
        decreases a_len - i,
    {
        if a.get_char(i) != b.get_char(i) {
            return false;
        }
        i = i + 1;
    }
    proof {
        assert(a@ =~= b@);
    }
    true
}

/// Whether the string `s` starts with the prefix `p`.
pub fn str_starts_with(s: &str, p: &str) -> (r: bool)
    ensures
        r == is_prefix_of(p@, s@),
{
    let s_len = s.unicode_len();
    let p_len = p.unicode_len();
    if p_len > s_len {
        assert(!is_prefix_of(p@, s@));
        return false;
    }
    let mut i: usize = 0;
    while i < p_len
        invariant
            0 <= i <= p_len,
            p_len == p@.len(),
            p_len <= s@.len(),
            forall|j: int| 0 <= j < i ==> s@[j] == p@[j],
        decreases p_len - i,
    {
        if s.get_char(i) != p.get_char(i) {
            assert(s@.subrange(0, p@.len() as int)[i as int] != p@[i as int]);
            return false;
        }
        i = i + 1;
    }
    proof {
        assert(s@.subrange(0, p@.len() as int) =~= p@);
    }
    true
}

/// Whether some character of `s` is `c`.
pub fn str_has_char(s: &str, c: char) -> (r: bool)
    ensures
        r == has_char(s@, c),
{
    let len = s.unicode_len();
    let mut i: usize = 0;
    while i < len
        invariant
            0 <= i <= len,
            len == s@.len(),
            forall|j: int| 0 <= j < i ==> s@[j] != c,
        decreases len - i,
    {
        if s.get_char(i) == c {
            return true;
        }
        i = i + 1;
    }
    false
}

/// Whether `a` comes strictly before `b` in lexicographic order.
pub fn str_lt(a: &str, b: &str) -> (r: bool)
    ensures
        r == lex_lt(a@, b@),
{
    let a_len = a.unicode_len();
    let b_len = b.unicode_len();
    let mut i: usize = 0;
    loop
        invariant
            0 <= i <= a_len,
            i <= b_len,
            a_len == a@.len(),
            b_len == b@.len(),
            a@.subrange(0, i as int) == b@.subrange(0, i as int),
        ensures
            lex_lt(a@, b@) == lex_lt(a@.skip(i as int), b@.skip(i as int)),
            i <= a@.len() && i <= b@.len(),
            i < a@.len() && i < b@.len() ==> a@[i as int] != b@[i as int],
            (i < a@.len() && i < b@.len()) || i == a@.len() || i == b@.len(),
        decreases a_len - i,
    {
        proof {
            lemma_lex_lt_skip(a@, b@, i as int);
        }
        if i >= a_len || i >= b_len {
            break;
        }
        let ca = a.get_char(i);
        let cb = b.get_char(i);
        if ca != cb {
            break;
        }
        proof {
            assert(a@.subrange(0, i + 1 as int) =~= b@.subrange(0, i + 1 as int)) by {
                assert forall|j: int| 0 <= j < i + 1 implies #[trigger] a@[j] == b@[j] by {
                    if j < i {
                        assert(a@.subrange(0, i as int)[j] == b@.subrange(0, i as int)[j]);
                    }
                }
            }
        }
        i = i + 1;
    }
    if i < a_len && i < b_len {
        let ca = a.get_char(i);
        let cb = b.get_char(i);
        ca < cb
    } else {
        i >= a_len && i < b_len
    }
}

/// Copies the characters of `s` from `from` (inclusive) to the end into a
/// fresh string.
pub fn str_tail(s: &str, from: usize) -> (r: String)
    requires
        from <= s@.len(),
    ensures
        r@ == s@.skip(from as int),
{
    let len = s.unicode_len();
    let sub = s.substring_char(from, len);
    let r = String::from_str(sub);
    proof {
        assert(s@.subrange(from as int, s@.len() as int) =~= s@.skip(from as int));
    }
    r
}

} // verus!
