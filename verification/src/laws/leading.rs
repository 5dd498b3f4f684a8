//! Characters before the input only move what is parsed; whitespace before it moves offsets only.
use vstd::prelude::*;
use crate::grammar::{
    Parsed, false_lit, has_literal, is_digit, is_ws, lemma_skip_ws, lemma_string_close, null_lit,
    number_stop, property, skip_ws, spec_array, spec_boolean, spec_items, spec_null, spec_number,
    spec_object, spec_parse, spec_properties, spec_string, spec_value, string_close, true_lit,
};
use crate::node::{NodeModel, ValueModel};
use crate::text::{byte_offset, lemma_byte_offset_shift};
use crate::laws::bounds::{
    lemma_items_bounds, lemma_properties_bounds, lemma_scalar_bounds, lemma_value_bounds,
};

verus! {

/// `m` with every offset in it moved by `d`.
pub open spec fn shift_node(m: NodeModel, d: int) -> NodeModel
    decreases m, 1int,
{
    NodeModel {
        kind: m.kind,
        key: match m.key {
            Some(k) => Some(Box::new(shift_node(*k, d))),
            None => None,
        },
        value: match m.value {
            Some(ValueModel::Node(v)) => Some(ValueModel::Node(Box::new(shift_node(*v, d)))),
            Some(ValueModel::Text(t)) => Some(ValueModel::Text(t)),
            None => None,
        },
        children: match m.children {
            Some(cs) => Some(shift_nodes(cs, d)),
            None => None,
        },
        start: m.start + d,
        end: m.end + d,
    }
}

/// `shift_node` on each of `cs`.
pub open spec fn shift_nodes(cs: Seq<NodeModel>, d: int) -> Seq<NodeModel>
    decreases cs, 0int,
{
    if cs.len() == 0 {
        Seq::empty()
    } else {
        shift_nodes(cs.drop_last(), d).push(shift_node(cs.last(), d))
    }
}

pub proof fn lemma_shift_nodes(cs: Seq<NodeModel>, d: int)
    ensures
        shift_nodes(cs, d).len() == cs.len(),
        forall|k: int| 0 <= k < cs.len() ==> #[trigger] shift_nodes(cs, d)[k] == shift_node(cs[k], d),
    decreases cs.len(),
{
    if cs.len() > 0 {
        lemma_shift_nodes(cs.drop_last(), d);
    }
}

proof fn lemma_shift_nodes_cons(v: NodeModel, rest: Seq<NodeModel>, d: int)
    ensures
        shift_nodes(seq![v] + rest, d) == seq![shift_node(v, d)] + shift_nodes(rest, d),
{
    lemma_shift_nodes(seq![v] + rest, d);
    lemma_shift_nodes(rest, d);
    assert(shift_nodes(seq![v] + rest, d) =~= seq![shift_node(v, d)] + shift_nodes(rest, d));
}

/// A parse result with its node moved by `d` bytes and its position by `n` characters.
pub open spec fn shift_parsed(r: Parsed, n: int, d: int) -> Parsed {
    match r {
        Some((m, q)) => Some((shift_node(m, d), q + n)),
        None => None,
    }
}

/// A parse result for a list of nodes, moved in the same way.
pub open spec fn shift_list(r: Option<(Seq<NodeModel>, int)>, n: int, d: int) -> Option<(Seq<NodeModel>, int)> {
    match r {
        Some((ms, q)) => Some((shift_nodes(ms, d), q + n)),
        None => None,
    }
}

proof fn lemma_skip_ws_prefix(p: Seq<char>, s: Seq<char>, i: int)
    requires
        0 <= i,
    ensures
        skip_ws(p + s, p.len() + i) == p.len() + skip_ws(s, i),
    decreases s.len() - i,
{
    if i < s.len() {
        assert((p + s)[p.len() + i] == s[i]);
        lemma_skip_ws_prefix(p, s, i + 1);
    }
}

proof fn lemma_string_close_prefix(p: Seq<char>, s: Seq<char>, j: int, escaped: bool)
    requires
        0 <= j,
    ensures
        string_close(p + s, p.len() + j, escaped) == match string_close(s, j, escaped) {
            Some(c) => Some(c + p.len()),
            None => None,
        },
    decreases s.len() - j,
{
    if j < s.len() {
        assert((p + s)[p.len() + j] == s[j]);
        lemma_string_close_prefix(p, s, j + 1, true);
        lemma_string_close_prefix(p, s, j + 1, false);
    }
}

proof fn lemma_number_stop_prefix(p: Seq<char>, s: Seq<char>, i: int, j: int, dot: bool)
    requires
        0 <= i < j,
    ensures
        number_stop(p + s, p.len() + i, p.len() + j, dot) == match number_stop(s, i, j, dot) {
            Some(e) => Some(e + p.len()),
            None => None,
        },
    decreases s.len() - j,
{
    let t = p + s;
    let n = p.len() as int;
    if j - 1 < s.len() {
        assert(t[n + j - 1] == s[j - 1]);
    }
    if i < s.len() {
        assert(t[n + i] == s[i]);
    }
    if i + 1 < s.len() {
        assert(t[n + i + 1] == s[i + 1]);
    }
    if j < s.len() {
        assert(t[n + j] == s[j]);
        lemma_number_stop_prefix(p, s, i, j + 1, true);
        lemma_number_stop_prefix(p, s, i, j + 1, dot);
    }
}

proof fn lemma_literal_prefix(p: Seq<char>, s: Seq<char>, i: int, lit: Seq<char>)
    requires
        0 <= i,
    ensures
        has_literal(p + s, p.len() + i, lit) == has_literal(s, i, lit),
{
    let t = p + s;
    let n = p.len() as int;
    if i + lit.len() <= s.len() {
        assert(t.subrange(n + i, n + i + lit.len()) =~= s.subrange(i, i + lit.len()));
    }
}

proof fn lemma_scalar_prefix(p: Seq<char>, s: Seq<char>, i: int)
    requires
        0 <= i,
    ensures
        spec_string(p + s, p.len() + i) == shift_parsed(
            spec_string(s, i),
            p.len() as int,
            byte_offset(p, p.len() as int) as int,
        ),
        spec_null(p + s, p.len() + i) == shift_parsed(
            spec_null(s, i),
            p.len() as int,
            byte_offset(p, p.len() as int) as int,
        ),
        spec_boolean(p + s, p.len() + i) == shift_parsed(
            spec_boolean(s, i),
            p.len() as int,
            byte_offset(p, p.len() as int) as int,
        ),
        spec_number(p + s, p.len() + i) == shift_parsed(
            spec_number(s, i),
            p.len() as int,
            byte_offset(p, p.len() as int) as int,
        ),
{
    let t = p + s;
    let n = p.len() as int;
    if i < s.len() {
        assert(t[n + i] == s[i]);
        lemma_byte_offset_shift(p, s, i);
        lemma_scalar_bounds(s, i);
        // strings
        lemma_string_close_prefix(p, s, i + 1, false);
        if let Some(c) = string_close(s, i + 1, false) {
            lemma_string_close(s, i + 1, false);
            lemma_byte_offset_shift(p, s, c);
            assert(t.subrange(n + i + 1, n + c) =~= s.subrange(i + 1, c));
        }
        // literals
        lemma_literal_prefix(p, s, i, null_lit());
        lemma_literal_prefix(p, s, i, true_lit());
        lemma_literal_prefix(p, s, i, false_lit());
        if has_literal(s, i, null_lit()) {
            lemma_byte_offset_shift(p, s, i + 3);
        }
        if has_literal(s, i, true_lit()) {
            lemma_byte_offset_shift(p, s, i + 3);
        }
        if has_literal(s, i, false_lit()) {
            lemma_byte_offset_shift(p, s, i + 4);
        }
        // numbers
        lemma_number_stop_prefix(p, s, i, i + 1, false);
        if (s[i] == '-' || is_digit(s[i])) {
            if let Some(e) = number_stop(s, i, i + 1, false) {
                assert(spec_number(s, i) is Some);
                lemma_byte_offset_shift(p, s, e);
                assert(t.subrange(n + i, n + e) =~= s.subrange(i, e));
            }
        }
    } else {
        lemma_literal_prefix(p, s, i, null_lit());
        lemma_literal_prefix(p, s, i, true_lit());
        lemma_literal_prefix(p, s, i, false_lit());
    }
}

/// Characters before a value only move what is parsed from it: its
/// position by their number and its offsets by the bytes they take.
pub proof fn lemma_value_prefix(p: Seq<char>, s: Seq<char>, i: int)
    requires
        0 <= i,
    ensures
        spec_value(p + s, p.len() + i) == shift_parsed(
            spec_value(s, i),
            p.len() as int,
            byte_offset(p, p.len() as int) as int,
        ),
    decreases s.len() - i, 1int,
{
    let t = p + s;
    let n = p.len() as int;
    if i < s.len() {
        assert(t[n + i] == s[i]);
        lemma_scalar_prefix(p, s, i);
        lemma_array_prefix(p, s, i);
        lemma_object_prefix(p, s, i);
    }
}

proof fn lemma_array_prefix(p: Seq<char>, s: Seq<char>, i: int)
    requires
        0 <= i,
    ensures
        spec_array(p + s, p.len() + i) == shift_parsed(
            spec_array(s, i),
            p.len() as int,
            byte_offset(p, p.len() as int) as int,
        ),
    decreases s.len() - i, 0int,
{
    let t = p + s;
    let n = p.len() as int;
    let d = byte_offset(p, n) as int;
    if 0 <= i < s.len() && s[i] == '[' {
        assert(t[n + i] == s[i]);
        lemma_byte_offset_shift(p, s, i);
        let j = skip_ws(s, i + 1);
        lemma_skip_ws(s, i + 1);
        lemma_skip_ws_prefix(p, s, i + 1);
        if j < s.len() {
            assert(t[n + j] == s[j]);
            lemma_byte_offset_shift(p, s, j);
            if s[j] != ']' {
                lemma_items_prefix(p, s, j);
                lemma_items_bounds(s, j);
                if let Some((items, q)) = spec_items(s, j) {
                    let k = skip_ws(s, q);
                    lemma_skip_ws(s, q);
                    lemma_skip_ws_prefix(p, s, q);
                    if 0 <= k < s.len() {
                        assert(t[n + k] == s[k]);
                        lemma_byte_offset_shift(p, s, k);
                    }
                }
            } else {
                lemma_shift_nodes(Seq::empty(), d);
            }
        }
    } else if 0 <= i < s.len() {
        assert(t[n + i] == s[i]);
    }
}

proof fn lemma_object_prefix(p: Seq<char>, s: Seq<char>, i: int)
    requires
        0 <= i,
    ensures
        spec_object(p + s, p.len() + i) == shift_parsed(
            spec_object(s, i),
            p.len() as int,
            byte_offset(p, p.len() as int) as int,
        ),
    decreases s.len() - i, 0int,
{
    let t = p + s;
    let n = p.len() as int;
    let d = byte_offset(p, n) as int;
    if 0 <= i < s.len() && s[i] == '{' {
        assert(t[n + i] == s[i]);
        lemma_byte_offset_shift(p, s, i);
        let j = skip_ws(s, i + 1);
        lemma_skip_ws(s, i + 1);
        lemma_skip_ws_prefix(p, s, i + 1);
        if j < s.len() {
            assert(t[n + j] == s[j]);
            lemma_byte_offset_shift(p, s, j);
            if s[j] != '}' {
                lemma_properties_prefix(p, s, j);
                lemma_properties_bounds(s, j);
                if let Some((props, q)) = spec_properties(s, j) {
                    let k = skip_ws(s, q);
                    lemma_skip_ws(s, q);
                    lemma_skip_ws_prefix(p, s, q);
                    if 0 <= k < s.len() {
                        assert(t[n + k] == s[k]);
                        lemma_byte_offset_shift(p, s, k);
                    }
                }
            } else {
                lemma_shift_nodes(Seq::empty(), d);
            }
        }
    } else if 0 <= i < s.len() {
        assert(t[n + i] == s[i]);
    }
}

proof fn lemma_items_prefix(p: Seq<char>, s: Seq<char>, j: int)
    requires
        0 <= j,
    ensures
        spec_items(p + s, p.len() + j) == shift_list(
            spec_items(s, j),
            p.len() as int,
            byte_offset(p, p.len() as int) as int,
        ),
    decreases s.len() - j, 2int,
{
    let t = p + s;
    let n = p.len() as int;
    let d = byte_offset(p, n) as int;
    let a = skip_ws(s, j);
    lemma_skip_ws(s, j);
    lemma_skip_ws_prefix(p, s, j);
    if j <= s.len() {
        lemma_value_prefix(p, s, a);
        lemma_value_bounds(s, a);
        match spec_value(s, a) {
            Some((v, q)) => {
                let b = skip_ws(s, q);
                lemma_skip_ws(s, q);
                lemma_skip_ws_prefix(p, s, q);
                assert(skip_ws(t, n + q) == n + b);
                if 0 <= b < s.len() && s[b] == ',' {
                    assert(t[n + b] == s[b]);
                    if j <= b {
                        lemma_items_prefix(p, s, b + 1);
                        match spec_items(s, b + 1) {
                            Some((rest, r)) => {
                                lemma_shift_nodes_cons(v, rest, d);
                                assert(spec_items(t, n + j) == Some(
                                    (seq![shift_node(v, d)] + shift_nodes(rest, d), r + n),
                                ));
                            },
                            None => {
                                assert(spec_items(t, n + j) is None);
                            },
                        }
                    }
                } else {
                    if 0 <= b < s.len() {
                        assert(t[n + b] == s[b]);
                    }
                    assert(!(0 <= n + b < t.len() && t[n + b] == ','));
                    assert(spec_value(t, n + a) == Some((shift_node(v, d), q + n)));
                    lemma_shift_nodes(seq![v], d);
                    assert(shift_nodes(seq![v], d) =~= seq![shift_node(v, d)]);
                    assert(spec_items(t, n + j) == Some((seq![shift_node(v, d)], b + n)));
                }
            },
            None => {
            },
        }
    }
}

proof fn lemma_properties_prefix(p: Seq<char>, s: Seq<char>, j: int)
    requires
        0 <= j,
    ensures
        spec_properties(p + s, p.len() + j) == shift_list(
            spec_properties(s, j),
            p.len() as int,
            byte_offset(p, p.len() as int) as int,
        ),
    decreases s.len() - j, 2int,
{
    let t = p + s;
    let n = p.len() as int;
    let d = byte_offset(p, n) as int;
    let a = skip_ws(s, j);
    lemma_skip_ws(s, j);
    lemma_skip_ws_prefix(p, s, j);
    lemma_scalar_prefix(p, s, a);
    lemma_scalar_bounds(s, a);
    if let Some((key, kp)) = spec_string(s, a) {
        lemma_byte_offset_shift(p, s, a);
        let b = skip_ws(s, kp);
        lemma_skip_ws(s, kp);
        lemma_skip_ws_prefix(p, s, kp);
        if 0 <= b < s.len() {
            assert(t[n + b] == s[b]);
            if s[b] == ':' {
                let c = skip_ws(s, b + 1);
                lemma_skip_ws(s, b + 1);
                lemma_skip_ws_prefix(p, s, b + 1);
                lemma_value_prefix(p, s, c);
                lemma_value_bounds(s, c);
                if let Some((v, q)) = spec_value(s, c) {
                    if q < s.len() {
                        assert(t[n + q] == s[q]);
                        lemma_byte_offset_shift(p, s, q);
                        let prop = property(
                            key,
                            v,
                            byte_offset(s, a) as int,
                            byte_offset(s, q) as int,
                        );
                        if s[q] == ',' && j <= q {
                            lemma_properties_prefix(p, s, q + 1);
                            if let Some((rest, r)) = spec_properties(s, q + 1) {
                                lemma_shift_nodes_cons(prop, rest, d);
                            }
                        }
                        if s[q] != ',' {
                            lemma_shift_nodes(seq![prop], d);
                            assert(shift_nodes(seq![prop], d) =~= seq![shift_node(prop, d)]);
                        }
                    }
                }
            }
        }
    }
}

/// Whitespace before a JSON text moves the offsets of every node by the
/// bytes that whitespace takes, and changes nothing else: the text with the
/// whitespace is accepted exactly when the text alone is.
pub proof fn law_leading_whitespace(w: Seq<char>, s: Seq<char>)
    requires
        forall|k: int| 0 <= k < w.len() ==> is_ws(#[trigger] w[k]),
    ensures
        spec_parse(w + s) == match spec_parse(s) {
            Some(m) => Some(shift_node(m, w.len() as int)),
            None => None,
        },
{
    let t = w + s;
    let n = w.len() as int;
    lemma_ws_prefix_skipped(w, s);
    lemma_skip_ws(s, 0);
    let a = skip_ws(s, 0);
    lemma_value_prefix(w, s, a);
    lemma_value_bounds(s, a);
    lemma_ws_byte_len(w, n);
    if let Some((m, q)) = spec_value(s, a) {
        lemma_skip_ws_prefix(w, s, q);
    }
}

/// Skipping whitespace from the start of `w + s`, with `w` all whitespace,
/// skips `w` and then what `s` starts with.
proof fn lemma_ws_prefix_skipped(w: Seq<char>, s: Seq<char>)
    requires
        forall|k: int| 0 <= k < w.len() ==> is_ws(#[trigger] w[k]),
    ensures
        skip_ws(w + s, 0) == w.len() + skip_ws(s, 0),
{
    lemma_ws_prefix_skipped_from(w, s, 0);
}

proof fn lemma_ws_prefix_skipped_from(w: Seq<char>, s: Seq<char>, k: int)
    requires
        forall|m: int| 0 <= m < w.len() ==> is_ws(#[trigger] w[m]),
        0 <= k <= w.len(),
    ensures
        skip_ws(w + s, k) == w.len() + skip_ws(s, 0),
    decreases w.len() - k,
{
    if k < w.len() {
        assert((w + s)[k] == w[k]);
        lemma_ws_prefix_skipped_from(w, s, k + 1);
    } else {
        lemma_skip_ws_prefix(w, s, 0);
    }
}

/// Whitespace takes one byte per character.
proof fn lemma_ws_byte_len(w: Seq<char>, k: int)
    requires
        forall|m: int| 0 <= m < w.len() ==> is_ws(#[trigger] w[m]),
        0 <= k <= w.len(),
    ensures
        byte_offset(w, k) == k,
    decreases k,
{
    if k > 0 {
        assert(is_ws(w[k - 1]));
        lemma_ws_byte_len(w, k - 1);
    }
}

} // verus!
