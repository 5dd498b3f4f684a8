//! Characters after the input keep what is parsed; whitespace after a text changes nothing.
use vstd::prelude::*;
use crate::grammar::{
    false_lit, has_literal, is_digit, is_ws, lemma_skip_ws, lemma_string_close, null_lit,
    number_stop, skip_ws, spec_array, spec_boolean, spec_items, spec_null, spec_number, spec_object,
    spec_parse, spec_properties, spec_string, spec_value, string_close, true_lit,
};
use crate::text::lemma_byte_offset_prefix;
use crate::laws::leading::{law_leading_whitespace, shift_node};
use crate::laws::bounds::{
    lemma_items_bounds, lemma_properties_bounds, lemma_scalar_bounds, lemma_value_bounds,
    lemma_value_ends_solid, lemma_array_bounds, lemma_object_bounds,
};

verus! {

/// A character that would continue a number that ends where it stands.
pub open spec fn continues_number(c: char) -> bool {
    c == '.' || is_digit(c)
}

/// What may follow `s` without changing a number that ends with `s`.
pub open spec fn ends_number_safely(w: Seq<char>) -> bool {
    w.len() == 0 || !continues_number(w[0])
}

proof fn lemma_skip_ws_extend(s: Seq<char>, w: Seq<char>, i: int)
    requires
        0 <= i,
        skip_ws(s, i) < s.len(),
    ensures
        skip_ws(s + w, i) == skip_ws(s, i),
    decreases s.len() - i,
{
    if i < s.len() {
        assert((s + w)[i] == s[i]);
        if is_ws(s[i]) {
            lemma_skip_ws_extend(s, w, i + 1);
        }
    }
}

proof fn lemma_string_close_extend_any(s: Seq<char>, w: Seq<char>, j: int)
    ensures
        string_close(s, j, true) is Some ==> string_close(s + w, j, true) == string_close(s, j, true),
        string_close(s, j, false) is Some ==> string_close(s + w, j, false) == string_close(s, j, false),
    decreases s.len() - j,
{
    if 0 <= j < s.len() {
        assert((s + w)[j] == s[j]);
        lemma_string_close_extend_any(s, w, j + 1);
    }
}

proof fn lemma_number_stop_extend(s: Seq<char>, w: Seq<char>, i: int, j: int, dot: bool)
    requires
        0 <= i < j,
        number_stop(s, i, j, dot) matches Some(e) && (e < s.len() || ends_number_safely(w)),
    ensures
        number_stop(s + w, i, j, dot) == number_stop(s, i, j, dot),
    decreases s.len() - j,
{
    let t = s + w;
    if j - 1 < s.len() {
        assert(t[j - 1] == s[j - 1]);
    }
    if i < s.len() {
        assert(t[i] == s[i]);
    }
    if i + 1 < s.len() {
        assert(t[i + 1] == s[i + 1]);
    }
    if j < s.len() {
        assert(t[j] == s[j]);
        if s[j] == '.' {
            lemma_number_stop_extend(s, w, i, j + 1, true);
        } else if is_digit(s[j]) {
            lemma_number_stop_extend(s, w, i, j + 1, dot);
        }
    } else if w.len() > 0 {
        assert(t[j] == w[0]);
    }
}

proof fn lemma_literal_extend(s: Seq<char>, w: Seq<char>, i: int, lit: Seq<char>)
    requires
        has_literal(s, i, lit),
    ensures
        has_literal(s + w, i, lit),
{
    assert((s + w).subrange(i, i + lit.len()) =~= s.subrange(i, i + lit.len()));
}

proof fn lemma_scalar_extend(s: Seq<char>, w: Seq<char>, i: int)
    ensures
        spec_string(s, i) is Some ==> spec_string(s + w, i) == spec_string(s, i),
        spec_null(s, i) is Some ==> spec_null(s + w, i) == spec_null(s, i),
        spec_boolean(s, i) is Some ==> spec_boolean(s + w, i) == spec_boolean(s, i),
        spec_number(s, i) matches Some((_, q)) && (q < s.len() || ends_number_safely(w))
            ==> spec_number(s + w, i) == spec_number(s, i),
{
    let t = s + w;
    if 0 <= i < s.len() {
        assert(t[i] == s[i]);
        lemma_byte_offset_prefix(s, w, i);
        lemma_scalar_bounds(s, i);
        if let Some(c) = string_close(s, i + 1, false) {
            lemma_string_close(s, i + 1, false);
            lemma_string_close_extend_any(s, w, i + 1);
            lemma_byte_offset_prefix(s, w, c);
            assert(t.subrange(i + 1, c) =~= s.subrange(i + 1, c));
        }
        if has_literal(s, i, null_lit()) {
            lemma_literal_extend(s, w, i, null_lit());
            lemma_byte_offset_prefix(s, w, i + 3);
        }
        if has_literal(s, i, true_lit()) {
            lemma_literal_extend(s, w, i, true_lit());
            lemma_byte_offset_prefix(s, w, i + 3);
        } else if has_literal(s, i, false_lit()) {
            lemma_literal_extend(s, w, i, false_lit());
            lemma_byte_offset_prefix(s, w, i + 4);
            if has_literal(t, i, true_lit()) {
                assert(t.subrange(i, i + 4)[0] == t[i]);
                assert(s.subrange(i, i + 5)[0] == s[i]);
            }
        }
        if (s[i] == '-' || is_digit(s[i])) {
            if let Some(e) = number_stop(s, i, i + 1, false) {
                if e < s.len() || ends_number_safely(w) {
                    lemma_number_stop_extend(s, w, i, i + 1, false);
                    lemma_byte_offset_prefix(s, w, e);
                    assert(t.subrange(i, e) =~= s.subrange(i, e));
                }
            }
        }
    }
}

/// A value keeps what it parses to when characters follow the input,
/// unless it is a number at the very end and they continue it.
pub proof fn lemma_value_extend(s: Seq<char>, w: Seq<char>, i: int)
    requires
        spec_value(s, i) matches Some((_, q)) && (q < s.len() || ends_number_safely(w)),
    ensures
        spec_value(s + w, i) == spec_value(s, i),
    decreases s.len() - i, 1int,
{
    assert((s + w)[i] == s[i]);
    lemma_scalar_extend(s, w, i);
    if s[i] == '[' {
        lemma_array_extend(s, w, i);
    } else if s[i] == '{' {
        lemma_object_extend(s, w, i);
    }
}

proof fn lemma_array_extend(s: Seq<char>, w: Seq<char>, i: int)
    requires
        spec_array(s, i) is Some,
    ensures
        spec_array(s + w, i) == spec_array(s, i),
    decreases s.len() - i, 0int,
{
    let t = s + w;
    assert(t[i] == s[i]);
    lemma_byte_offset_prefix(s, w, i);
    let j = skip_ws(s, i + 1);
    lemma_skip_ws(s, i + 1);
    lemma_skip_ws_extend(s, w, i + 1);
    assert(t[j] == s[j]);
    lemma_byte_offset_prefix(s, w, j);
    if s[j] != ']' {
        let (items, q) = spec_items(s, j).unwrap();
        let k = skip_ws(s, q);
        lemma_items_bounds(s, j);
        lemma_skip_ws(s, q);
        lemma_skip_ws_extend(s, w, q);
        lemma_items_extend(s, w, j);
        assert(t[k] == s[k]);
        lemma_byte_offset_prefix(s, w, k);
    }
}

proof fn lemma_object_extend(s: Seq<char>, w: Seq<char>, i: int)
    requires
        spec_object(s, i) is Some,
    ensures
        spec_object(s + w, i) == spec_object(s, i),
    decreases s.len() - i, 0int,
{
    let t = s + w;
    assert(t[i] == s[i]);
    lemma_byte_offset_prefix(s, w, i);
    let j = skip_ws(s, i + 1);
    lemma_skip_ws(s, i + 1);
    lemma_skip_ws_extend(s, w, i + 1);
    assert(t[j] == s[j]);
    lemma_byte_offset_prefix(s, w, j);
    if s[j] != '}' {
        let (props, q) = spec_properties(s, j).unwrap();
        let k = skip_ws(s, q);
        lemma_properties_bounds(s, j);
        lemma_skip_ws(s, q);
        lemma_skip_ws_extend(s, w, q);
        lemma_properties_extend(s, w, j);
        assert(t[k] == s[k]);
        lemma_byte_offset_prefix(s, w, k);
    }
}

proof fn lemma_items_extend(s: Seq<char>, w: Seq<char>, j: int)
    requires
        spec_items(s, j) matches Some((_, q)) && q < s.len(),
    ensures
        spec_items(s + w, j) == spec_items(s, j),
    decreases s.len() - j, 2int,
{
    let t = s + w;
    let a = skip_ws(s, j);
    lemma_skip_ws(s, j);
    lemma_value_bounds(s, a);
    lemma_skip_ws_extend(s, w, j);
    let (v, p) = spec_value(s, a).unwrap();
    let b = skip_ws(s, p);
    lemma_skip_ws(s, p);
    lemma_value_extend(s, w, a);
    lemma_skip_ws_extend(s, w, p);
    assert(t[b] == s[b]);
    if s[b] == ',' {
        lemma_items_extend(s, w, b + 1);
    }
}

proof fn lemma_properties_extend(s: Seq<char>, w: Seq<char>, j: int)
    requires
        spec_properties(s, j) is Some,
    ensures
        spec_properties(s + w, j) == spec_properties(s, j),
    decreases s.len() - j, 2int,
{
    let t = s + w;
    let a = skip_ws(s, j);
    lemma_skip_ws(s, j);
    lemma_scalar_bounds(s, a);
    lemma_skip_ws_extend(s, w, j);
    lemma_scalar_extend(s, w, a);
    lemma_byte_offset_prefix(s, w, a);
    let (key, kp) = spec_string(s, a).unwrap();
    let b = skip_ws(s, kp);
    lemma_skip_ws(s, kp);
    lemma_skip_ws_extend(s, w, kp);
    assert(t[b] == s[b]);
    let c = skip_ws(s, b + 1);
    lemma_skip_ws(s, b + 1);
    lemma_value_bounds(s, c);
    lemma_skip_ws_extend(s, w, b + 1);
    let (v, q) = spec_value(s, c).unwrap();
    lemma_value_extend(s, w, c);
    assert(t[q] == s[q]);
    lemma_byte_offset_prefix(s, w, q);
    if s[q] == ',' {
        lemma_properties_extend(s, w, q + 1);
    }
}

proof fn lemma_ws_tail_skipped(s: Seq<char>, w: Seq<char>, p: int)
    requires
        0 <= p <= s.len(),
        skip_ws(s, p) >= s.len(),
        forall|k: int| 0 <= k < w.len() ==> is_ws(#[trigger] w[k]),
    ensures
        skip_ws(s + w, p) == s.len() + w.len(),
    decreases s.len() + w.len() - p,
{
    let t = s + w;
    lemma_skip_ws(s, p);
    if p < s.len() {
        assert(t[p] == s[p]);
        assert(is_ws(s[p]));
        lemma_ws_tail_skipped(s, w, p + 1);
    } else {
        lemma_ws_tail_from(s, w, 0);
    }
}

proof fn lemma_ws_tail_from(s: Seq<char>, w: Seq<char>, k: int)
    requires
        0 <= k <= w.len(),
        forall|m: int| 0 <= m < w.len() ==> is_ws(#[trigger] w[m]),
    ensures
        skip_ws(s + w, s.len() + k) == s.len() + w.len(),
    decreases w.len() - k,
{
    if k < w.len() {
        assert((s + w)[s.len() + k] == w[k]);
        lemma_ws_tail_from(s, w, k + 1);
    }
}

proof fn lemma_skip_ws_restrict(s: Seq<char>, w: Seq<char>, i: int)
    requires
        0 <= i,
        skip_ws(s + w, i) < s.len(),
    ensures
        skip_ws(s, i) == skip_ws(s + w, i),
    decreases s.len() - i,
{
    lemma_skip_ws(s + w, i);
    if i < s.len() {
        assert((s + w)[i] == s[i]);
        if is_ws(s[i]) {
            lemma_skip_ws_restrict(s, w, i + 1);
        }
    }
}

proof fn lemma_string_close_restrict(s: Seq<char>, w: Seq<char>, j: int, escaped: bool)
    requires
        string_close(s + w, j, escaped) matches Some(c) && c < s.len(),
    ensures
        string_close(s, j, escaped) == string_close(s + w, j, escaped),
    decreases s.len() - j,
{
    let t = s + w;
    lemma_string_close(t, j, escaped);
    if 0 <= j < s.len() {
        assert(t[j] == s[j]);
        if escaped {
            lemma_string_close_restrict(s, w, j + 1, false);
        } else if s[j] == '\\' {
            lemma_string_close_restrict(s, w, j + 1, true);
        } else if s[j] != '"' {
            lemma_string_close_restrict(s, w, j + 1, false);
        }
    }
}

proof fn lemma_number_stop_after(s: Seq<char>, i: int, j: int, dot: bool)
    ensures
        number_stop(s, i, j, dot) matches Some(e) ==> j <= e,
    decreases s.len() - j,
{
    if 1 <= j < s.len() {
        lemma_number_stop_after(s, i, j + 1, true);
        lemma_number_stop_after(s, i, j + 1, dot);
    }
}

proof fn lemma_number_stop_restrict(s: Seq<char>, w: Seq<char>, i: int, j: int, dot: bool)
    requires
        0 <= i < j <= s.len(),
        number_stop(s + w, i, j, dot) matches Some(e) && e <= s.len(),
    ensures
        number_stop(s, i, j, dot) == number_stop(s + w, i, j, dot),
    decreases s.len() - j,
{
    let t = s + w;
    assert(t[j - 1] == s[j - 1]);
    assert(t[i] == s[i]);
    if i + 1 < s.len() {
        assert(t[i + 1] == s[i + 1]);
    }
    if j < s.len() {
        assert(t[j] == s[j]);
        if s[j] == '.' {
            lemma_number_stop_restrict(s, w, i, j + 1, true);
        } else if is_digit(s[j]) {
            lemma_number_stop_restrict(s, w, i, j + 1, dot);
        }
    } else if w.len() > 0 {
        assert(t[j] == w[0]);
        lemma_number_stop_after(t, i, j + 1, true);
        lemma_number_stop_after(t, i, j + 1, dot);
    }
}

proof fn lemma_literal_restrict(s: Seq<char>, w: Seq<char>, i: int, lit: Seq<char>)
    requires
        has_literal(s + w, i, lit),
        i + lit.len() <= s.len(),
    ensures
        has_literal(s, i, lit),
{
    assert((s + w).subrange(i, i + lit.len()) =~= s.subrange(i, i + lit.len()));
}

proof fn lemma_scalar_restrict(s: Seq<char>, w: Seq<char>, i: int)
    requires
        0 <= i,
    ensures
        spec_string(s + w, i) matches Some((_, q)) && q <= s.len() ==> spec_string(s, i)
            == spec_string(s + w, i),
        spec_null(s + w, i) matches Some((_, q)) && q <= s.len() ==> spec_null(s, i) == spec_null(
            s + w,
            i,
        ),
        spec_boolean(s + w, i) matches Some((_, q)) && q <= s.len() ==> spec_boolean(s, i)
            == spec_boolean(s + w, i),
        spec_number(s + w, i) matches Some((_, q)) && q <= s.len() ==> spec_number(s, i)
            == spec_number(s + w, i),
{
    let t = s + w;
    lemma_scalar_bounds(t, i);
    if 0 <= i < s.len() {
        assert(t[i] == s[i]);
        lemma_byte_offset_prefix(s, w, i);
        if let Some(c) = string_close(t, i + 1, false) {
            if c < s.len() {
                lemma_string_close(t, i + 1, false);
                lemma_string_close_restrict(s, w, i + 1, false);
                lemma_byte_offset_prefix(s, w, c);
                assert(t.subrange(i + 1, c) =~= s.subrange(i + 1, c));
            }
        }
        if has_literal(t, i, null_lit()) && i + 4 <= s.len() {
            lemma_literal_restrict(s, w, i, null_lit());
            lemma_byte_offset_prefix(s, w, i + 3);
        }
        if has_literal(t, i, true_lit()) && i + 4 <= s.len() {
            lemma_literal_restrict(s, w, i, true_lit());
            lemma_byte_offset_prefix(s, w, i + 3);
        }
        if has_literal(s, i, true_lit()) {
            lemma_literal_extend(s, w, i, true_lit());
        }
        if has_literal(t, i, false_lit()) && i + 5 <= s.len() {
            lemma_literal_restrict(s, w, i, false_lit());
            lemma_byte_offset_prefix(s, w, i + 4);
        }
        if (s[i] == '-' || is_digit(s[i])) {
            if let Some(e) = number_stop(t, i, i + 1, false) {
                lemma_number_stop_after(t, i, i + 1, false);
                if e <= s.len() {
                    lemma_number_stop_restrict(s, w, i, i + 1, false);
                    lemma_byte_offset_prefix(s, w, e);
                    assert(t.subrange(i, e) =~= s.subrange(i, e));
                }
            }
        }
    }
}

/// A value parsed from the input with characters after it, that ends within
/// the input, parses to the same from the input alone.
pub proof fn lemma_value_restrict(s: Seq<char>, w: Seq<char>, i: int)
    requires
        0 <= i,
        spec_value(s + w, i) matches Some((_, q)) && q <= s.len(),
    ensures
        spec_value(s, i) == spec_value(s + w, i),
    decreases s.len() - i, 1int,
{
    lemma_value_bounds(s + w, i);
    assert((s + w)[i] == s[i]);
    lemma_scalar_restrict(s, w, i);
    if s[i] == '[' {
        lemma_array_restrict(s, w, i);
    } else if s[i] == '{' {
        lemma_object_restrict(s, w, i);
    }
}

proof fn lemma_array_restrict(s: Seq<char>, w: Seq<char>, i: int)
    requires
        0 <= i,
        spec_array(s + w, i) matches Some((_, q)) && q <= s.len(),
    ensures
        spec_array(s, i) == spec_array(s + w, i),
    decreases s.len() - i, 0int,
{
    let t = s + w;
    lemma_array_bounds(t, i);
    assert(t[i] == s[i]);
    lemma_byte_offset_prefix(s, w, i);
    let j = skip_ws(t, i + 1);
    lemma_skip_ws(t, i + 1);
    if t[j] == ']' {
        lemma_skip_ws_restrict(s, w, i + 1);
        assert(t[j] == s[j]);
        lemma_byte_offset_prefix(s, w, j);
    } else {
        let (items, q) = spec_items(t, j).unwrap();
        let k = skip_ws(t, q);
        lemma_items_bounds(t, j);
        lemma_skip_ws(t, q);
        lemma_skip_ws_restrict(s, w, i + 1);
        lemma_skip_ws_restrict(s, w, q);
        lemma_items_restrict(s, w, j);
        assert(t[j] == s[j]);
        assert(t[k] == s[k]);
        lemma_byte_offset_prefix(s, w, k);
    }
}

proof fn lemma_object_restrict(s: Seq<char>, w: Seq<char>, i: int)
    requires
        0 <= i,
        spec_object(s + w, i) matches Some((_, q)) && q <= s.len(),
    ensures
        spec_object(s, i) == spec_object(s + w, i),
    decreases s.len() - i, 0int,
{
    let t = s + w;
    lemma_object_bounds(t, i);
    assert(t[i] == s[i]);
    lemma_byte_offset_prefix(s, w, i);
    let j = skip_ws(t, i + 1);
    lemma_skip_ws(t, i + 1);
    if t[j] == '}' {
        lemma_skip_ws_restrict(s, w, i + 1);
        assert(t[j] == s[j]);
        lemma_byte_offset_prefix(s, w, j);
    } else {
        let (props, q) = spec_properties(t, j).unwrap();
        let k = skip_ws(t, q);
        lemma_properties_bounds(t, j);
        lemma_skip_ws(t, q);
        lemma_skip_ws_restrict(s, w, i + 1);
        lemma_skip_ws_restrict(s, w, q);
        lemma_properties_restrict(s, w, j);
        assert(t[j] == s[j]);
        assert(t[k] == s[k]);
        lemma_byte_offset_prefix(s, w, k);
    }
}

proof fn lemma_items_restrict(s: Seq<char>, w: Seq<char>, j: int)
    requires
        0 <= j,
        spec_items(s + w, j) matches Some((_, q)) && q < s.len(),
    ensures
        spec_items(s, j) == spec_items(s + w, j),
    decreases s.len() - j, 2int,
{
    let t = s + w;
    let a = skip_ws(t, j);
    lemma_skip_ws(t, j);
    lemma_items_bounds(t, j);
    lemma_value_bounds(t, a);
    let (v, p) = spec_value(t, a).unwrap();
    let b = skip_ws(t, p);
    lemma_skip_ws(t, p);
    if 0 <= b < t.len() && t[b] == ',' && j <= b {
        lemma_items_bounds(t, b + 1);
        let (rest, r) = spec_items(t, b + 1).unwrap();
        lemma_items_restrict(s, w, b + 1);
    }
    // every position read lies before the end of the items, within `s`
    lemma_skip_ws_restrict(s, w, j);
    lemma_value_restrict(s, w, a);
    lemma_skip_ws_restrict(s, w, p);
    if b < s.len() {
        assert(t[b] == s[b]);
    }
}

proof fn lemma_properties_restrict(s: Seq<char>, w: Seq<char>, j: int)
    requires
        0 <= j,
        spec_properties(s + w, j) matches Some((_, q)) && q < s.len(),
    ensures
        spec_properties(s, j) == spec_properties(s + w, j),
    decreases s.len() - j, 2int,
{
    let t = s + w;
    let a = skip_ws(t, j);
    lemma_skip_ws(t, j);
    lemma_properties_bounds(t, j);
    lemma_scalar_bounds(t, a);
    let (key, kp) = spec_string(t, a).unwrap();
    let b = skip_ws(t, kp);
    lemma_skip_ws(t, kp);
    let c = skip_ws(t, b + 1);
    lemma_skip_ws(t, b + 1);
    lemma_value_bounds(t, c);
    let (v, q) = spec_value(t, c).unwrap();
    if t[q] == ',' && j <= q {
        lemma_properties_bounds(t, q + 1);
        lemma_properties_restrict(s, w, q + 1);
    }
    lemma_skip_ws_restrict(s, w, j);
    lemma_scalar_restrict(s, w, a);
    lemma_byte_offset_prefix(s, w, a);
    lemma_skip_ws_restrict(s, w, kp);
    assert(t[b] == s[b]);
    lemma_skip_ws_restrict(s, w, b + 1);
    lemma_value_restrict(s, w, c);
    assert(t[q] == s[q]);
    lemma_byte_offset_prefix(s, w, q);
}

/// Whitespace after a JSON text changes nothing: the text with it is
/// accepted exactly when the text alone is, and parses to the same tree.
pub proof fn law_trailing_whitespace(s: Seq<char>, w: Seq<char>)
    requires
        forall|k: int| 0 <= k < w.len() ==> is_ws(#[trigger] w[k]),
    ensures
        spec_parse(s + w) == spec_parse(s),
{
    if spec_parse(s) is Some {
        lemma_accepted_keeps(s, w);
    } else if spec_parse(s + w) is Some {
        lemma_accepted_restricts(s, w);
    }
}

/// Whitespace around a JSON text only moves the offsets of every node by the
/// bytes of the whitespace before it: the text with it is accepted exactly
/// when the text alone is.
pub proof fn law_surrounding_whitespace(w1: Seq<char>, s: Seq<char>, w2: Seq<char>)
    requires
        forall|k: int| 0 <= k < w1.len() ==> is_ws(#[trigger] w1[k]),
        forall|k: int| 0 <= k < w2.len() ==> is_ws(#[trigger] w2[k]),
    ensures
        spec_parse(w1 + s + w2) == match spec_parse(s) {
            Some(m) => Some(shift_node(m, w1.len() as int)),
            None => None,
        },
{
    law_trailing_whitespace(w1 + s, w2);
    law_leading_whitespace(w1, s);
}

/// An accepted text stays accepted, as it was, with whitespace after it.
proof fn lemma_accepted_keeps(s: Seq<char>, w: Seq<char>)
    requires
        forall|k: int| 0 <= k < w.len() ==> is_ws(#[trigger] w[k]),
        spec_parse(s) is Some,
    ensures
        spec_parse(s + w) == spec_parse(s),
{
    let a = skip_ws(s, 0);
    lemma_skip_ws(s, 0);
    lemma_value_bounds(s, a);
    lemma_skip_ws_extend(s, w, 0);
    let (m, p) = spec_value(s, a).unwrap();
    if w.len() > 0 {
        assert(is_ws(w[0]));
    }
    lemma_value_extend(s, w, a);
    lemma_ws_tail_skipped(s, w, p);
}

/// A text that is accepted with whitespace after it is accepted without.
proof fn lemma_accepted_restricts(s: Seq<char>, w: Seq<char>)
    requires
        forall|k: int| 0 <= k < w.len() ==> is_ws(#[trigger] w[k]),
        spec_parse(s + w) is Some,
    ensures
        spec_parse(s) is Some,
{
    let t = s + w;
    let a = skip_ws(t, 0);
    lemma_skip_ws(t, 0);
    lemma_value_bounds(t, a);
    lemma_value_ends_solid(t, a);
    let (m, q) = spec_value(t, a).unwrap();
    if q > s.len() {
        assert(t[q - 1] == w[q - 1 - s.len()]);
    }
    lemma_skip_ws_restrict(s, w, 0);
    lemma_value_restrict(s, w, a);
    lemma_skip_ws(t, q);
    lemma_ws_then_end(s, w, q);
}

/// Where only whitespace follows `q` in `s + w`, only whitespace follows it in `s`.
proof fn lemma_ws_then_end(s: Seq<char>, w: Seq<char>, q: int)
    requires
        0 <= q <= s.len(),
        skip_ws(s + w, q) >= (s + w).len(),
    ensures
        skip_ws(s, q) >= s.len(),
    decreases s.len() - q,
{
    if q < s.len() {
        assert((s + w)[q] == s[q]);
        lemma_skip_ws(s + w, q);
        assert(is_ws(s[q]));
        lemma_ws_then_end(s, w, q + 1);
    }
}

} // verus!
