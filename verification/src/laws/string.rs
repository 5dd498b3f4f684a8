//! Where a string ends: at its first quote that no backslash escapes.
use vstd::prelude::*;
use crate::grammar::string_close;

verus! {

/// How many backslashes stand right before `j`, counting no further back than `a`.
pub open spec fn backslashes_before(s: Seq<char>, a: int, j: int) -> nat
    decreases j - a,
{
    if a < j && s[j - 1] == '\\' {
        1 + backslashes_before(s, a, j - 1)
    } else {
        0
    }
}

/// `s[j]` is a quote after an even number of backslashes (counting from `a`).
pub open spec fn unescaped_quote(s: Seq<char>, a: int, j: int) -> bool {
    s[j] == '"' && backslashes_before(s, a, j) % 2 == 0
}

/// `c` is the first position from `a` on that holds an unescaped quote.
pub open spec fn first_unescaped_quote(s: Seq<char>, a: int, c: int) -> bool {
    &&& a <= c < s.len()
    &&& unescaped_quote(s, a, c)
    &&& forall|m: int| a <= m < c ==> !unescaped_quote(s, a, m)
}

proof fn lemma_scan_state(s: Seq<char>, a: int, j: int)
    requires
        0 <= a <= j <= s.len(),
        forall|m: int| a <= m < j ==> !unescaped_quote(s, a, m),
    ensures
        string_close(s, a, false) == string_close(s, j, backslashes_before(s, a, j) % 2 == 1),
    decreases j - a,
{
    if a < j {
        lemma_scan_state(s, a, j - 1);
        assert(!unescaped_quote(s, a, j - 1));
    }
}

proof fn lemma_scan_search(s: Seq<char>, a: int, j: int, c: int)
    requires
        0 <= a <= j <= s.len(),
        forall|m: int| a <= m < j ==> !unescaped_quote(s, a, m),
    ensures
        string_close(s, a, false) == Some(c) <==> first_unescaped_quote(s, a, c),
    decreases s.len() - j,
{
    lemma_scan_state(s, a, j);
    if j < s.len() {
        if unescaped_quote(s, a, j) {
            if first_unescaped_quote(s, a, c) && c != j {
                if c > j {
                    assert(!unescaped_quote(s, a, j));
                }
            }
        } else {
            assert forall|m: int| a <= m < j + 1 implies !unescaped_quote(s, a, m) by {
                if m < j {
                }
            }
            lemma_scan_search(s, a, j + 1, c);
        }
    } else {
        if first_unescaped_quote(s, a, c) {
            assert(!unescaped_quote(s, a, c));
        }
    }
}

/// A string whose opening quote stands before `a` closes at `c` exactly when
/// `c` is the first quote from `a` on that is not escaped, that is, that an
/// even number of backslashes precedes.
pub proof fn law_string_close(s: Seq<char>, a: int, c: int)
    requires
        0 <= a <= s.len(),
    ensures
        string_close(s, a, false) == Some(c) <==> first_unescaped_quote(s, a, c),
{
    lemma_scan_search(s, a, a, c);
}

} // verus!
