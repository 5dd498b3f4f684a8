//! The numbers the grammar reads are exactly the JSON numbers without an
//! exponent, `-?(0|[1-9][0-9]*)(\.[0-9]+)?`, that no digit or dot follows.
use vstd::prelude::*;
use crate::grammar::{is_digit, number_may_end, number_stop};

verus! {

/// Every character of `s` in `[a, b)` is a digit.
pub open spec fn digits_between(s: Seq<char>, a: int, b: int) -> bool {
    forall|m: int| a <= m < b ==> is_digit(#[trigger] s[m])
}

/// Where the integer digits of a number starting at `i` begin.
pub open spec fn int_start(s: Seq<char>, i: int) -> int {
    if s[i] == '-' {
        i + 1
    } else {
        i
    }
}

/// `s[i..e]` is `-?(0|[1-9][0-9]*)(\.[0-9]+)?`, its integer digits ending at
/// `k`, where a dot stands unless `k == e`.
pub open spec fn number_shape(s: Seq<char>, i: int, k: int, e: int) -> bool {
    let d = int_start(s, i);
    &&& 0 <= i < s.len()
    &&& d < k <= e <= s.len()
    &&& digits_between(s, d, k)
    &&& (s[d] == '0' ==> k == d + 1)
    &&& (k == e || (s[k] == '.' && k + 1 < e && digits_between(s, k + 1, e)))
}

/// A number stands in `s` from `i` to `e`, and no digit or dot follows it.
pub open spec fn number_token(s: Seq<char>, i: int, e: int) -> bool {
    &&& exists|k: int| number_shape(s, i, k, e)
    &&& (e == s.len() || !(s[e] == '.' || is_digit(s[e])))
}

/// What the scan has read when it stands at `j`.
spec fn scanned(s: Seq<char>, i: int, j: int, dot: bool) -> bool {
    let d = int_start(s, i);
    &&& 0 <= i < j <= s.len()
    &&& (s[i] == '-' || is_digit(s[i]))
    &&& if !dot {
        &&& d <= j
        &&& digits_between(s, d, j)
        &&& (d < j && s[d] == '0' ==> j == d + 1)
    } else {
        exists|k: int|
            #![trigger s[k]]
            d < k < j && digits_between(s, d, k) && (s[d] == '0' ==> k == d + 1) && s[k] == '.'
                && digits_between(s, k + 1, j)
    }
}

proof fn lemma_scan_sound(s: Seq<char>, i: int, j: int, dot: bool)
    requires
        scanned(s, i, j, dot),
    ensures
        number_stop(s, i, j, dot) matches Some(e) ==> number_token(s, i, e),
    decreases s.len() - j,
{
    let d = int_start(s, i);
    if let Some(e) = number_stop(s, i, j, dot) {
        if j < s.len() && (s[j] == '.' || is_digit(s[j])) {
            if s[j] == '.' {
                assert(scanned(s, i, j + 1, true)) by {
                    assert(j > d) by {
                        if j <= d {
                            assert(s[j - 1] == '-');
                        }
                    }
                    assert(d < j && digits_between(s, d, j) && (s[d] == '0' ==> j == d + 1)
                        && s[j] == '.' && digits_between(s, j + 1, j + 1));
                }
                lemma_scan_sound(s, i, j + 1, true);
            } else {
                if !dot {
                    assert(scanned(s, i, j + 1, false));
                } else {
                    let k = choose|k: int|
                        #![trigger s[k]]
                        d < k < j && digits_between(s, d, k) && (s[d] == '0' ==> k == d + 1)
                            && s[k] == '.' && digits_between(s, k + 1, j);
                    assert(s[k] == '.' && digits_between(s, k + 1, j + 1));
                    assert(scanned(s, i, j + 1, true));
                }
                lemma_scan_sound(s, i, j + 1, dot);
            }
        } else {
            assert(e == j);
            assert(number_may_end(s, j));
            if !dot {
                assert(d < j) by {
                    if d == j {
                        assert(s[j - 1] == '-');
                    }
                }
                assert(number_shape(s, i, j, e));
            } else {
                let k = choose|k: int|
                    #![trigger s[k]]
                    d < k < j && digits_between(s, d, k) && (s[d] == '0' ==> k == d + 1)
                        && s[k] == '.' && digits_between(s, k + 1, j);
                assert(k + 1 < e);
                assert(number_shape(s, i, k, e));
            }
        }
    }
}

proof fn lemma_scan_complete(s: Seq<char>, i: int, k: int, e: int, j: int)
    requires
        number_shape(s, i, k, e),
        e == s.len() || !(s[e] == '.' || is_digit(s[e])),
        i + 1 <= j <= e,
    ensures
        number_stop(s, i, j, j > k) == Some(e),
    decreases e - j,
{
    let d = int_start(s, i);
    assert(j - 1 >= d ==> is_digit(s[j - 1]) || s[j - 1] == '.');
    if j < e {
        if j < k {
            assert(is_digit(s[j]));
            lemma_scan_complete(s, i, k, e, j + 1);
        } else if j == k {
            assert(is_digit(s[k - 1]));
            lemma_scan_complete(s, i, k, e, j + 1);
        } else {
            assert(is_digit(s[j]));
            lemma_scan_complete(s, i, k, e, j + 1);
        }
    } else {
        assert(is_digit(s[e - 1]));
        assert(number_may_end(s, e));
    }
}

/// The grammar's scan of a number that starts at `i` stops at `e` exactly
/// when a JSON number without exponent, `-?(0|[1-9][0-9]*)(\.[0-9]+)?`,
/// stands from `i` to `e` and no digit or dot follows it.
pub proof fn law_number_token(s: Seq<char>, i: int, e: int)
    requires
        0 <= i < s.len(),
        s[i] == '-' || is_digit(s[i]),
    ensures
        number_stop(s, i, i + 1, false) == Some(e) <==> number_token(s, i, e),
{
    let d = int_start(s, i);
    assert(scanned(s, i, i + 1, false));
    lemma_scan_sound(s, i, i + 1, false);
    if number_token(s, i, e) {
        let k = choose|k: int| number_shape(s, i, k, e);
        lemma_scan_complete(s, i, k, e, i + 1);
    }
}

} // verus!
