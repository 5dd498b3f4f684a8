//! Where a parse that succeeds ends: after its start and within the input.
use vstd::prelude::*;
use crate::grammar::{
    false_lit, has_literal, is_number_char, is_ws, null_lit, number_stop, string_close, true_lit,
    is_digit, lemma_number_stop, lemma_skip_ws, lemma_string_close, skip_ws, spec_array,
    spec_boolean, spec_items, spec_null, spec_number, spec_object, spec_properties, spec_string,
    spec_value,
};

verus! {

pub proof fn lemma_scalar_bounds(s: Seq<char>, i: int)
    ensures
        spec_string(s, i) matches Some((_, q)) ==> i < q <= s.len(),
        spec_null(s, i) matches Some((_, q)) ==> i < q <= s.len(),
        spec_boolean(s, i) matches Some((_, q)) ==> i < q <= s.len(),
        spec_number(s, i) matches Some((_, q)) ==> i < q <= s.len(),
{
    lemma_string_close(s, i + 1, false);
    if 0 <= i < s.len() && (s[i] == '-' || is_digit(s[i])) {
        assert((s[i] as u32) < 0x80);
        lemma_number_stop(s, i, i + 1, false);
    }
}

/// A value that parses from `i` ends after `i` and within the input.
pub proof fn lemma_value_bounds(s: Seq<char>, i: int)
    ensures
        spec_value(s, i) matches Some((_, q)) ==> i < q <= s.len(),
    decreases s.len() - i, 1int,
{
    if 0 <= i < s.len() {
        lemma_scalar_bounds(s, i);
        lemma_array_bounds(s, i);
        lemma_object_bounds(s, i);
    }
}

pub proof fn lemma_array_bounds(s: Seq<char>, i: int)
    ensures
        spec_array(s, i) matches Some((_, q)) ==> i < q <= s.len(),
    decreases s.len() - i, 0int,
{
    if 0 <= i < s.len() && s[i] == '[' {
        let j = skip_ws(s, i + 1);
        lemma_skip_ws(s, i + 1);
        if j < s.len() && s[j] != ']' {
            lemma_items_bounds(s, j);
            if let Some((_, p)) = spec_items(s, j) {
                lemma_skip_ws(s, p);
            }
        }
    }
}

pub proof fn lemma_object_bounds(s: Seq<char>, i: int)
    ensures
        spec_object(s, i) matches Some((_, q)) ==> i < q <= s.len(),
    decreases s.len() - i, 0int,
{
    if 0 <= i < s.len() && s[i] == '{' {
        let j = skip_ws(s, i + 1);
        lemma_skip_ws(s, i + 1);
        if j < s.len() && s[j] != '}' {
            lemma_properties_bounds(s, j);
            if let Some((_, p)) = spec_properties(s, j) {
                lemma_skip_ws(s, p);
            }
        }
    }
}

pub proof fn lemma_items_bounds(s: Seq<char>, j: int)
    ensures
        spec_items(s, j) matches Some((_, q)) ==> j < q <= s.len(),
    decreases s.len() - j, 2int,
{
    let a = skip_ws(s, j);
    lemma_skip_ws(s, j);
    if 0 <= j <= s.len() {
        lemma_value_bounds(s, a);
        if let Some((v, p)) = spec_value(s, a) {
            let b = skip_ws(s, p);
            lemma_skip_ws(s, p);
            if 0 <= b < s.len() && s[b] == ',' && j <= b {
                lemma_items_bounds(s, b + 1);
            }
        }
    }
}

pub proof fn lemma_properties_bounds(s: Seq<char>, j: int)
    ensures
        spec_properties(s, j) matches Some((_, q)) ==> j < q < s.len(),
    decreases s.len() - j, 2int,
{
    let a = skip_ws(s, j);
    lemma_skip_ws(s, j);
    lemma_scalar_bounds(s, a);
    if let Some((key, p)) = spec_string(s, a) {
        let b = skip_ws(s, p);
        lemma_skip_ws(s, p);
        if 0 <= b < s.len() && s[b] == ':' {
            let c = skip_ws(s, b + 1);
            lemma_skip_ws(s, b + 1);
            lemma_value_bounds(s, c);
            if let Some((v, q)) = spec_value(s, c) {
                if 0 <= q < s.len() && s[q] == ',' && j <= q {
                    lemma_properties_bounds(s, q + 1);
                }
            }
        }
    }
}

/// A value ends with a character that is not whitespace.
pub proof fn lemma_value_ends_solid(s: Seq<char>, i: int)
    ensures
        spec_value(s, i) matches Some((_, q)) ==> 0 < q <= s.len() && !is_ws(s[q - 1]),
{
    lemma_value_bounds(s, i);
    if 0 <= i < s.len() {
        lemma_string_close(s, i + 1, false);
        if has_literal(s, i, null_lit()) || has_literal(s, i, true_lit()) {
            assert(s.subrange(i, i + 4)[3] == s[i + 3]);
        }
        if has_literal(s, i, false_lit()) {
            assert(s.subrange(i, i + 5)[4] == s[i + 4]);
        }
        if (s[i] == '-' || is_digit(s[i])) {
            assert((s[i] as u32) < 0x80);
            lemma_number_stop(s, i, i + 1, false);
            if let Some(e) = number_stop(s, i, i + 1, false) {
                assert(is_number_char(s[e - 1]));
            }
        }
        if s[i] == '[' || s[i] == '{' {
            let j = skip_ws(s, i + 1);
            lemma_skip_ws(s, i + 1);
            if s[i] == '[' {
                if let Some((_, p)) = spec_items(s, j) {
                    lemma_skip_ws(s, p);
                }
            } else {
                if let Some((_, p)) = spec_properties(s, j) {
                    lemma_skip_ws(s, p);
                }
            }
        }
    }
}

} // verus!
