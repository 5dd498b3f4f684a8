//! The text of every scalar is what the input holds at its offsets.
use vstd::prelude::*;
use vstd::utf8::encode_utf8;
use crate::grammar::{
    false_lit, has_literal, lemma_skip_ws, lemma_string_close, null_lit, number_stop, property,
    skip_ws, spec_array, spec_boolean, spec_items, spec_null, spec_number, spec_object, spec_parse,
    spec_properties, spec_string, spec_value, string_close, true_lit,
};
use crate::node::{NodeModel, TokenKind, ValueModel};
use crate::text::{byte_offset, lemma_byte_offset_ascii, lemma_encode_subrange};
use crate::laws::bounds::{lemma_scalar_bounds, lemma_value_bounds};

verus! {

/// The text of every scalar in `m` is what the bytes of the input hold at
/// its offsets: from `start` to `end` for numbers, booleans and null, and
/// between the quotes for strings.
pub open spec fn texts_from_source(m: NodeModel, bytes: Seq<u8>) -> bool
    decreases m, 1int,
{
    &&& match m.value {
        Some(ValueModel::Text(t)) => if m.kind == TokenKind::String {
            bytes.subrange(m.start + 1, m.end) == encode_utf8(t)
        } else {
            bytes.subrange(m.start, m.end + 1) == encode_utf8(t)
        },
        Some(ValueModel::Node(v)) => texts_from_source(*v, bytes),
        None => true,
    }
    &&& match m.key {
        Some(k) => texts_from_source(*k, bytes),
        None => true,
    }
    &&& match m.children {
        Some(cs) => all_texts_from_source(cs, bytes),
        None => true,
    }
}

/// `texts_from_source` for each of `cs`.
pub open spec fn all_texts_from_source(cs: Seq<NodeModel>, bytes: Seq<u8>) -> bool
    decreases cs, 0int,
{
    if cs.len() == 0 {
        true
    } else {
        all_texts_from_source(cs.drop_last(), bytes) && texts_from_source(cs.last(), bytes)
    }
}

proof fn lemma_all_texts_cons(v: NodeModel, rest: Seq<NodeModel>, bytes: Seq<u8>)
    requires
        texts_from_source(v, bytes),
        all_texts_from_source(rest, bytes),
    ensures
        all_texts_from_source(seq![v] + rest, bytes),
    decreases rest.len(),
{
    let all = seq![v] + rest;
    if rest.len() == 0 {
        assert(all =~= seq![v]);
        assert(seq![v].drop_last() =~= Seq::<NodeModel>::empty());
        assert(all_texts_from_source(Seq::<NodeModel>::empty(), bytes));
    } else {
        lemma_all_texts_cons(v, rest.drop_last(), bytes);
        assert(all.drop_last() =~= seq![v] + rest.drop_last());
        assert(all.last() == rest.last());
        assert(texts_from_source(rest.last(), bytes));
        assert(all_texts_from_source(all.drop_last(), bytes));
    }
}

proof fn lemma_all_texts_single(v: NodeModel, bytes: Seq<u8>)
    requires
        texts_from_source(v, bytes),
    ensures
        all_texts_from_source(seq![v], bytes),
{
    assert(seq![v].drop_last() =~= Seq::<NodeModel>::empty());
    assert(all_texts_from_source(Seq::<NodeModel>::empty(), bytes));
    assert(seq![v].last() == v);
}

proof fn lemma_scalar_texts(s: Seq<char>, i: int)
    requires
        0 <= i,
    ensures
        spec_string(s, i) matches Some((m, _)) ==> texts_from_source(m, encode_utf8(s)),
        spec_null(s, i) matches Some((m, _)) ==> texts_from_source(m, encode_utf8(s)),
        spec_boolean(s, i) matches Some((m, _)) ==> texts_from_source(m, encode_utf8(s)),
        spec_number(s, i) matches Some((m, _)) ==> texts_from_source(m, encode_utf8(s)),
{
    lemma_scalar_bounds(s, i);
    if spec_string(s, i) is Some {
        let c = string_close(s, i + 1, false).unwrap();
        lemma_string_close(s, i + 1, false);
        assert((s[i] as u32) < 0x80);
        lemma_byte_offset_ascii(s, i, i + 1);
        lemma_encode_subrange(s, i + 1, c);
    }
    if has_literal(s, i, null_lit()) {
        assert((s.subrange(i, i + 4)[3] as u32) < 0x80);
        lemma_byte_offset_ascii(s, i + 3, i + 4);
        lemma_encode_subrange(s, i, i + 4);
    }
    if has_literal(s, i, true_lit()) {
        assert((s.subrange(i, i + 4)[3] as u32) < 0x80);
        lemma_byte_offset_ascii(s, i + 3, i + 4);
        lemma_encode_subrange(s, i, i + 4);
    } else if has_literal(s, i, false_lit()) {
        assert((s.subrange(i, i + 5)[4] as u32) < 0x80);
        lemma_byte_offset_ascii(s, i + 4, i + 5);
        lemma_encode_subrange(s, i, i + 5);
    }
    if spec_number(s, i) is Some {
        let e = number_stop(s, i, i + 1, false).unwrap();
        lemma_encode_subrange(s, i, e);
    }
}

/// Every scalar in a value parsed from `i` has its text from the input.
pub proof fn lemma_value_texts(s: Seq<char>, i: int)
    requires
        0 <= i,
    ensures
        spec_value(s, i) matches Some((m, _)) ==> texts_from_source(m, encode_utf8(s)),
    decreases s.len() - i, 1int,
{
    if i < s.len() {
        lemma_scalar_texts(s, i);
        lemma_array_texts(s, i);
        lemma_object_texts(s, i);
    }
}

proof fn lemma_array_texts(s: Seq<char>, i: int)
    requires
        0 <= i,
    ensures
        spec_array(s, i) matches Some((m, _)) ==> texts_from_source(m, encode_utf8(s)),
    decreases s.len() - i, 0int,
{
    if 0 <= i < s.len() && s[i] == '[' {
        let j = skip_ws(s, i + 1);
        lemma_skip_ws(s, i + 1);
        if j < s.len() {
            if s[j] == ']' {
                assert(all_texts_from_source(Seq::<NodeModel>::empty(), encode_utf8(s)));
            } else {
                lemma_items_texts(s, j);
            }
        }
    }
}

proof fn lemma_object_texts(s: Seq<char>, i: int)
    requires
        0 <= i,
    ensures
        spec_object(s, i) matches Some((m, _)) ==> texts_from_source(m, encode_utf8(s)),
    decreases s.len() - i, 0int,
{
    if 0 <= i < s.len() && s[i] == '{' {
        let j = skip_ws(s, i + 1);
        lemma_skip_ws(s, i + 1);
        if j < s.len() {
            if s[j] == '}' {
                assert(all_texts_from_source(Seq::<NodeModel>::empty(), encode_utf8(s)));
            } else {
                lemma_properties_texts(s, j);
            }
        }
    }
}

proof fn lemma_items_texts(s: Seq<char>, j: int)
    requires
        0 <= j,
    ensures
        spec_items(s, j) matches Some((cs, _)) ==> all_texts_from_source(cs, encode_utf8(s)),
    decreases s.len() - j, 2int,
{
    let a = skip_ws(s, j);
    lemma_skip_ws(s, j);
    if j <= s.len() {
        lemma_value_texts(s, a);
        lemma_value_bounds(s, a);
        if let Some((v, p)) = spec_value(s, a) {
            let b = skip_ws(s, p);
            lemma_skip_ws(s, p);
            if 0 <= b < s.len() && s[b] == ',' {
                if j <= b {
                    lemma_items_texts(s, b + 1);
                    if let Some((rest, r)) = spec_items(s, b + 1) {
                        lemma_all_texts_cons(v, rest, encode_utf8(s));
                    }
                }
            } else {
                lemma_all_texts_single(v, encode_utf8(s));
            }
        }
    }
}

proof fn lemma_properties_texts(s: Seq<char>, j: int)
    requires
        0 <= j,
    ensures
        spec_properties(s, j) matches Some((cs, _)) ==> all_texts_from_source(cs, encode_utf8(s)),
    decreases s.len() - j, 2int,
{
    let a = skip_ws(s, j);
    lemma_skip_ws(s, j);
    lemma_scalar_texts(s, a);
    lemma_scalar_bounds(s, a);
    if let Some((key, kp)) = spec_string(s, a) {
        let b = skip_ws(s, kp);
        lemma_skip_ws(s, kp);
        if 0 <= b < s.len() && s[b] == ':' {
            let c = skip_ws(s, b + 1);
            lemma_skip_ws(s, b + 1);
            lemma_value_texts(s, c);
            lemma_value_bounds(s, c);
            if let Some((v, q)) = spec_value(s, c) {
                if 0 <= q < s.len() {
                    let prop = property(
                        key,
                        v,
                        byte_offset(s, a) as int,
                        byte_offset(s, q) as int,
                    );
                    assert(texts_from_source(prop, encode_utf8(s)));
                    if s[q] == ',' {
                        if j <= q {
                            lemma_properties_texts(s, q + 1);
                            if let Some((rest, r)) = spec_properties(s, q + 1) {
                                lemma_all_texts_cons(prop, rest, encode_utf8(s));
                            }
                        }
                    } else {
                        lemma_all_texts_single(prop, encode_utf8(s));
                    }
                }
            }
        }
    }
}

/// The text of every string, number, boolean and null of a parsed JSON text
/// is what the input holds at the node's offsets: for a string, the bytes
/// between its quotes, escapes kept as written; for the others, the bytes
/// from `start` to `end`.
pub proof fn law_texts_from_source(s: Seq<char>)
    requires
        spec_parse(s) is Some,
    ensures
        texts_from_source(spec_parse(s).unwrap(), encode_utf8(s)),
{
    lemma_skip_ws(s, 0);
    lemma_value_texts(s, skip_ws(s, 0));
}

} // verus!
