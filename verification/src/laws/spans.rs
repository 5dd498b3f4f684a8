//! Every node lies within its parent and within the input.
use vstd::prelude::*;
use crate::grammar::{
    container, false_lit, has_literal, is_ws, lemma_skip_ws, lemma_string_close, null_lit, number_stop,
    property, skip_ws, spec_array, spec_boolean, spec_items, spec_null, spec_number, spec_object,
    spec_parse, spec_properties, spec_string, spec_value, string_close, true_lit,
};
use crate::node::{NodeModel, TokenKind, ValueModel};
use crate::text::{byte_offset, lemma_byte_offset_ascii, lemma_byte_offset_mono};
use crate::laws::bounds::{
    lemma_items_bounds, lemma_properties_bounds, lemma_scalar_bounds, lemma_value_bounds,
    lemma_value_ends_solid,
};

verus! {

/// `m` lies within the bytes `[lo, hi]`, and so does everything in it within
/// `m`: its key, its value and its children, which come one after another.
pub open spec fn nested_within(m: NodeModel, lo: int, hi: int) -> bool
    decreases m, 1int,
{
    &&& lo <= m.start <= m.end <= hi
    &&& match m.key {
        Some(k) => nested_within(*k, m.start, m.end),
        None => true,
    }
    &&& match m.value {
        Some(ValueModel::Node(v)) => nested_within(*v, m.start, m.end),
        _ => true,
    }
    &&& match m.children {
        Some(cs) => all_nested_within(cs, m.start, m.end),
        None => true,
    }
}

/// Each of `cs` lies within `[lo, hi]` as `nested_within` says, and each ends
/// before the next starts.
pub open spec fn all_nested_within(cs: Seq<NodeModel>, lo: int, hi: int) -> bool
    decreases cs, 0int,
{
    if cs.len() == 0 {
        true
    } else {
        &&& all_nested_within(cs.drop_last(), lo, hi)
        &&& nested_within(cs.last(), lo, hi)
        &&& (cs.len() >= 2 ==> cs[cs.len() - 2].end < cs.last().start)
    }
}

proof fn lemma_all_nested_widen(cs: Seq<NodeModel>, lo: int, hi: int, lo2: int, hi2: int)
    requires
        all_nested_within(cs, lo, hi),
        lo2 <= lo,
        hi <= hi2,
    ensures
        all_nested_within(cs, lo2, hi2),
    decreases cs.len(),
{
    if cs.len() > 0 {
        lemma_all_nested_widen(cs.drop_last(), lo, hi, lo2, hi2);
        assert(all_nested_within(cs.drop_last(), lo, hi));
        assert(nested_within(cs.last(), lo, hi));
        assert(lo <= cs.last().start);
        assert(nested_within(cs.last(), lo2, hi2));
    }
}

proof fn lemma_nested_widen(m: NodeModel, lo: int, hi: int, lo2: int, hi2: int)
    requires
        nested_within(m, lo, hi),
        lo2 <= lo,
        hi <= hi2,
    ensures
        nested_within(m, lo2, hi2),
{
}

proof fn lemma_all_nested_cons(v: NodeModel, rest: Seq<NodeModel>, lo: int, hi: int)
    requires
        nested_within(v, lo, hi),
        all_nested_within(rest, lo, hi),
        rest.len() > 0 ==> v.end < rest[0].start,
    ensures
        all_nested_within(seq![v] + rest, lo, hi),
    decreases rest.len(),
{
    let all = seq![v] + rest;
    if rest.len() == 0 {
        lemma_all_nested_single(v, lo, hi);
        assert(all =~= seq![v]);
    } else {
        lemma_all_nested_cons(v, rest.drop_last(), lo, hi);
        assert(all.drop_last() =~= seq![v] + rest.drop_last());
        assert(all.last() == rest.last());
        assert(nested_within(rest.last(), lo, hi));
        if rest.len() >= 2 {
            assert(all[all.len() - 2] == rest[rest.len() - 2]);
        } else {
            assert(all[all.len() - 2] == v);
        }
        assert(all_nested_within(all.drop_last(), lo, hi));
    }
}

proof fn lemma_all_nested_single(v: NodeModel, lo: int, hi: int)
    requires
        nested_within(v, lo, hi),
    ensures
        all_nested_within(seq![v], lo, hi),
{
    assert(seq![v].drop_last() =~= Seq::<NodeModel>::empty());
    assert(all_nested_within(Seq::<NodeModel>::empty(), lo, hi));
    assert(seq![v].last() == v);
    assert(nested_within(v, lo, hi));
}

proof fn lemma_all_nested_first(cs: Seq<NodeModel>, lo: int, hi: int)
    requires
        all_nested_within(cs, lo, hi),
        cs.len() > 0,
    ensures
        lo <= cs[0].start,
    decreases cs.len(),
{
    if cs.len() > 1 {
        lemma_all_nested_first(cs.drop_last(), lo, hi);
        assert(cs.drop_last()[0] == cs[0]);
    } else {
        assert(nested_within(cs.last(), lo, hi));
    }
}

proof fn lemma_scalar_spans(s: Seq<char>, i: int)
    requires
        0 <= i,
    ensures
        spec_string(s, i) matches Some((m, q)) ==> m.start == byte_offset(s, i) && m.end
            == byte_offset(s, q) - 1 && nested_within(m, m.start, m.end),
        spec_null(s, i) matches Some((m, q)) ==> m.start == byte_offset(s, i) && m.end
            == byte_offset(s, q) - 1 && nested_within(m, m.start, m.end),
        spec_boolean(s, i) matches Some((m, q)) ==> m.start == byte_offset(s, i) && m.end
            == byte_offset(s, q) - 1 && nested_within(m, m.start, m.end),
        spec_number(s, i) matches Some((m, q)) ==> m.start == byte_offset(s, i) && m.end
            == byte_offset(s, q) - 1 && nested_within(m, m.start, m.end),
{
    lemma_scalar_bounds(s, i);
    if let Some(c) = string_close(s, i + 1, false) {
        lemma_string_close(s, i + 1, false);
        lemma_byte_offset_mono(s, i, c);
        assert((s[c] as u32) < 0x80);
        lemma_byte_offset_ascii(s, c, c + 1);
    }
    if has_literal(s, i, null_lit()) || has_literal(s, i, true_lit()) {
        assert(s.subrange(i, i + 4)[3] == s[i + 3]);
        assert((s[i + 3] as u32) < 0x80);
        lemma_byte_offset_ascii(s, i + 3, i + 4);
        lemma_byte_offset_mono(s, i, i + 3);
    }
    if has_literal(s, i, false_lit()) {
        assert(s.subrange(i, i + 5)[4] == s[i + 4]);
        assert((s[i + 4] as u32) < 0x80);
        lemma_byte_offset_ascii(s, i + 4, i + 5);
        lemma_byte_offset_mono(s, i, i + 4);
    }
    if spec_number(s, i) is Some {
        let e = number_stop(s, i, i + 1, false).unwrap();
        lemma_byte_offset_mono(s, i, e);
    }
}

/// A value parsed from `i` to `q` spans the bytes from the offset of `i` to
/// the byte before the offset of `q`, and is nested.
pub proof fn lemma_value_spans(s: Seq<char>, i: int)
    requires
        0 <= i,
    ensures
        spec_value(s, i) matches Some((m, q)) ==> m.start == byte_offset(s, i) && m.end
            == byte_offset(s, q) - 1 && nested_within(m, m.start, m.end),
    decreases s.len() - i, 1int,
{
    if i < s.len() {
        lemma_scalar_spans(s, i);
        lemma_array_spans(s, i);
        lemma_object_spans(s, i);
    }
}

proof fn lemma_array_spans(s: Seq<char>, i: int)
    requires
        0 <= i,
    ensures
        spec_array(s, i) matches Some((m, q)) ==> m.start == byte_offset(s, i) && m.end
            == byte_offset(s, q) - 1 && nested_within(m, m.start, m.end),
    decreases s.len() - i, 0int,
{
    if 0 <= i < s.len() && s[i] == '[' {
        let j = skip_ws(s, i + 1);
        lemma_skip_ws(s, i + 1);
        if j < s.len() {
            lemma_byte_offset_mono(s, i, j);
            if s[j] == ']' {
                assert((s[j] as u32) < 0x80);
                lemma_byte_offset_ascii(s, j, j + 1);
                assert(all_nested_within(
                    Seq::<NodeModel>::empty(),
                    byte_offset(s, i) as int,
                    byte_offset(s, j) as int,
                ));
            } else {
                lemma_items_spans(s, j);
                lemma_items_bounds(s, j);
                if let Some((items, q)) = spec_items(s, j) {
                    let k = skip_ws(s, q);
                    lemma_skip_ws(s, q);
                    if 0 <= k < s.len() && s[k] == ']' {
                        assert((s[k] as u32) < 0x80);
                        lemma_byte_offset_ascii(s, k, k + 1);
                        lemma_byte_offset_mono(s, i + 1, j);
                        lemma_byte_offset_mono(s, q, k);
                        lemma_byte_offset_mono(s, j, q);
                        lemma_byte_offset_mono(s, i, i + 1);
                        lemma_all_nested_widen(
                            items,
                            byte_offset(s, j) as int,
                            byte_offset(s, q) - 1,
                            byte_offset(s, i) as int,
                            byte_offset(s, k) as int,
                        );
                        let m = container(
                            TokenKind::Array,
                            items,
                            byte_offset(s, i) as int,
                            byte_offset(s, k) as int,
                        );
                        assert(nested_within(m, m.start, m.end));
                    }
                }
            }
        }
    }
}

proof fn lemma_object_spans(s: Seq<char>, i: int)
    requires
        0 <= i,
    ensures
        spec_object(s, i) matches Some((m, q)) ==> m.start == byte_offset(s, i) && m.end
            == byte_offset(s, q) - 1 && nested_within(m, m.start, m.end),
    decreases s.len() - i, 0int,
{
    if 0 <= i < s.len() && s[i] == '{' {
        let j = skip_ws(s, i + 1);
        lemma_skip_ws(s, i + 1);
        if j < s.len() {
            lemma_byte_offset_mono(s, i, j);
            if s[j] == '}' {
                assert((s[j] as u32) < 0x80);
                lemma_byte_offset_ascii(s, j, j + 1);
                assert(all_nested_within(
                    Seq::<NodeModel>::empty(),
                    byte_offset(s, i) as int,
                    byte_offset(s, j) as int,
                ));
            } else {
                lemma_properties_spans(s, j);
                lemma_properties_bounds(s, j);
                if let Some((props, q)) = spec_properties(s, j) {
                    let k = skip_ws(s, q);
                    lemma_skip_ws(s, q);
                    if 0 <= k < s.len() && s[k] == '}' {
                        assert((s[k] as u32) < 0x80);
                        lemma_byte_offset_ascii(s, k, k + 1);
                        lemma_byte_offset_mono(s, i + 1, j);
                        lemma_byte_offset_mono(s, q, k);
                        lemma_byte_offset_mono(s, j, q);
                        lemma_byte_offset_mono(s, i, i + 1);
                        lemma_all_nested_widen(
                            props,
                            byte_offset(s, j) as int,
                            byte_offset(s, q) as int,
                            byte_offset(s, i) as int,
                            byte_offset(s, k) as int,
                        );
                        let m = container(
                            TokenKind::Object,
                            props,
                            byte_offset(s, i) as int,
                            byte_offset(s, k) as int,
                        );
                        assert(nested_within(m, m.start, m.end));
                    }
                }
            }
        }
    }
}

proof fn lemma_items_spans(s: Seq<char>, j: int)
    requires
        0 <= j,
    ensures
        spec_items(s, j) matches Some((cs, q)) ==> all_nested_within(
            cs,
            byte_offset(s, j) as int,
            byte_offset(s, q) - 1,
        ) && cs.len() > 0 && cs[0].start == byte_offset(s, skip_ws(s, j)),
    decreases s.len() - j, 2int,
{
    let a = skip_ws(s, j);
    lemma_skip_ws(s, j);
    if j <= s.len() {
        lemma_value_spans(s, a);
        lemma_value_bounds(s, a);
        if let Some((v, p)) = spec_value(s, a) {
            let b = skip_ws(s, p);
            lemma_skip_ws(s, p);
            lemma_byte_offset_mono(s, j, a);
            lemma_byte_offset_mono(s, p, b);
            if 0 <= b < s.len() && s[b] == ',' {
                if j <= b {
                    lemma_items_spans(s, b + 1);
                    lemma_items_bounds(s, b + 1);
                    if let Some((rest, r)) = spec_items(s, b + 1) {
                        let c = skip_ws(s, b + 1);
                        lemma_skip_ws(s, b + 1);
                        lemma_byte_offset_mono(s, b, b + 1);
                        lemma_byte_offset_mono(s, b + 1, c);
                        lemma_byte_offset_mono(s, b + 1, r);
                        lemma_byte_offset_mono(s, p, r);
                        lemma_all_nested_widen(
                            rest,
                            byte_offset(s, b + 1) as int,
                            byte_offset(s, r) - 1,
                            byte_offset(s, j) as int,
                            byte_offset(s, r) - 1,
                        );
                        lemma_all_nested_cons(
                            v,
                            rest,
                            byte_offset(s, j) as int,
                            byte_offset(s, r) - 1,
                        );
                    }
                }
            } else {
                lemma_all_nested_single(v, byte_offset(s, j) as int, byte_offset(s, b) - 1);
            }
        }
    }
}

proof fn lemma_properties_spans(s: Seq<char>, j: int)
    requires
        0 <= j,
    ensures
        spec_properties(s, j) matches Some((cs, q)) ==> all_nested_within(
            cs,
            byte_offset(s, j) as int,
            byte_offset(s, q) as int,
        ) && cs.len() > 0 && cs[0].start == byte_offset(s, skip_ws(s, j)),
    decreases s.len() - j, 2int,
{
    let a = skip_ws(s, j);
    lemma_skip_ws(s, j);
    lemma_scalar_spans(s, a);
    lemma_scalar_bounds(s, a);
    if let Some((key, kp)) = spec_string(s, a) {
        let b = skip_ws(s, kp);
        lemma_skip_ws(s, kp);
        if 0 <= b < s.len() && s[b] == ':' {
            let c = skip_ws(s, b + 1);
            lemma_skip_ws(s, b + 1);
            lemma_value_spans(s, c);
            lemma_value_bounds(s, c);
            if let Some((v, q)) = spec_value(s, c) {
                if 0 <= q < s.len() {
                    lemma_byte_offset_mono(s, j, a);
                    lemma_byte_offset_mono(s, a, kp);
                    lemma_byte_offset_mono(s, kp, c);
                    lemma_byte_offset_mono(s, c, q);
                    let prop = property(
                        key,
                        v,
                        byte_offset(s, a) as int,
                        byte_offset(s, q) as int,
                    );
                    lemma_nested_widen(
                        key,
                        key.start,
                        key.end,
                        byte_offset(s, a) as int,
                        byte_offset(s, q) as int,
                    );
                    lemma_nested_widen(
                        v,
                        v.start,
                        v.end,
                        byte_offset(s, a) as int,
                        byte_offset(s, q) as int,
                    );
                    assert(nested_within(prop, byte_offset(s, j) as int, byte_offset(s, q) as int));
                    if s[q] == ',' {
                        if j <= q {
                            lemma_properties_spans(s, q + 1);
                            lemma_properties_bounds(s, q + 1);
                            if let Some((rest, r)) = spec_properties(s, q + 1) {
                                let d = skip_ws(s, q + 1);
                                lemma_skip_ws(s, q + 1);
                                lemma_byte_offset_mono(s, q, q + 1);
                                lemma_byte_offset_mono(s, q + 1, d);
                                lemma_byte_offset_mono(s, q, r);
                                lemma_all_nested_widen(
                                    rest,
                                    byte_offset(s, q + 1) as int,
                                    byte_offset(s, r) as int,
                                    byte_offset(s, j) as int,
                                    byte_offset(s, r) as int,
                                );
                                assert(nested_within(
                                    prop,
                                    byte_offset(s, j) as int,
                                    byte_offset(s, r) as int,
                                ));
                                lemma_all_nested_cons(
                                    prop,
                                    rest,
                                    byte_offset(s, j) as int,
                                    byte_offset(s, r) as int,
                                );
                            }
                        }
                    } else {
                        lemma_all_nested_single(
                            prop,
                            byte_offset(s, j) as int,
                            byte_offset(s, q) as int,
                        );
                    }
                }
            }
        }
    }
}

/// Every node of a parsed JSON text lies within the input: the root within
/// its bytes, and every key, value and child within its node, the children
/// one after another in input order.
pub proof fn law_nested_spans(s: Seq<char>)
    requires
        spec_parse(s) is Some,
    ensures
        nested_within(spec_parse(s).unwrap(), 0, byte_offset(s, s.len() as int) - 1),
{
    let a = skip_ws(s, 0);
    lemma_skip_ws(s, 0);
    lemma_value_spans(s, a);
    lemma_value_bounds(s, a);
    let (m, q) = spec_value(s, a).unwrap();
    lemma_byte_offset_mono(s, 0, a);
    lemma_byte_offset_mono(s, q, s.len() as int);
}

/// The root of a parsed JSON text spans exactly the text without the
/// whitespace around it: from the first byte of its first character that is
/// not whitespace to the last byte of its last such character.
pub proof fn law_root_span(s: Seq<char>)
    requires
        spec_parse(s) is Some,
    ensures
        ({
            let m = spec_parse(s).unwrap();
            let a = skip_ws(s, 0);
            &&& 0 <= a < s.len()
            &&& forall|k: int| 0 <= k < a ==> is_ws(#[trigger] s[k])
            &&& !is_ws(s[a])
            &&& m.start == byte_offset(s, a)
            &&& exists|z: int|
                a <= z < s.len() && !is_ws(s[z]) && (forall|k: int|
                    z < k < s.len() ==> is_ws(#[trigger] s[k])) && m.end == byte_offset(s, z + 1)
                    - 1
        }),
{
    let a = skip_ws(s, 0);
    lemma_skip_ws(s, 0);
    lemma_value_spans(s, a);
    lemma_value_bounds(s, a);
    lemma_value_ends_solid(s, a);
    let (m, q) = spec_value(s, a).unwrap();
    lemma_skip_ws(s, q);
    let z = q - 1;
    assert(forall|k: int| z < k < s.len() ==> is_ws(#[trigger] s[k]));
}

} // verus!
