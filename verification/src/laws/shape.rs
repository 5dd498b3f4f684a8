//! Every node has the shape its kind gives, and arrays and objects stand
//! between their brackets.
use vstd::prelude::*;
use vstd::utf8::encode_utf8;
use crate::grammar::{
    is_digit, lemma_skip_ws, property, skip_ws, spec_array, spec_boolean, spec_items, spec_null,
    spec_number, spec_object, spec_parse, spec_properties, spec_string, spec_value,
};
use crate::node::{NodeModel, TokenKind, ValueModel};
use crate::text::{byte_offset, lemma_ascii_byte};
use crate::laws::bounds::{lemma_scalar_bounds, lemma_value_bounds};
use crate::laws::spans::lemma_value_spans;

verus! {

/// A string, number, boolean or null: a text and nothing else.
pub open spec fn is_scalar_kind(k: TokenKind) -> bool {
    k == TokenKind::String || k == TokenKind::Number || k == TokenKind::Boolean || k
        == TokenKind::Null
}

/// `m` has the shape its kind gives:
/// - a scalar holds a text, and neither key nor children; a string starts
///   and ends at a `"` of `bytes`;
/// - an array holds children and no key or value, starts at a `[` and ends
///   at a `]` of `bytes`, and no child of it is a property;
/// - an object is the same between `{` and `}`, and every child is a property;
/// - a property holds a string key that starts where it starts, and a value
///   that is no property and ends one byte before it ends;
/// and so does everything in `m`.
pub open spec fn well_shaped(m: NodeModel, bytes: Seq<u8>) -> bool
    decreases m, 1int,
{
    if is_scalar_kind(m.kind) {
        &&& m.key is None
        &&& m.children is None
        &&& m.value matches Some(ValueModel::Text(_))
        &&& (m.kind == TokenKind::String ==> {
            &&& 0 <= m.start < m.end < bytes.len()
            &&& bytes[m.start] == 0x22u8
            &&& bytes[m.end] == 0x22u8
        })
    } else if m.kind == TokenKind::Array || m.kind == TokenKind::Object {
        let is_object = m.kind == TokenKind::Object;
        &&& m.key is None
        &&& m.value is None
        &&& 0 <= m.start < m.end < bytes.len()
        &&& bytes[m.start] == (if is_object { 0x7bu8 } else { 0x5bu8 })
        &&& bytes[m.end] == (if is_object { 0x7du8 } else { 0x5du8 })
        &&& match m.children {
            Some(cs) => all_well_shaped(cs, bytes, is_object),
            None => false,
        }
    } else {
        &&& m.children is None
        &&& match m.key {
            Some(k) => k.kind == TokenKind::String && k.start == m.start && well_shaped(*k, bytes),
            None => false,
        }
        &&& match m.value {
            Some(ValueModel::Node(v)) => v.kind != TokenKind::Property && m.end == v.end + 1
                && well_shaped(*v, bytes),
            _ => false,
        }
    }
}

/// Each of `cs` is well shaped, and is a property exactly when `properties`.
pub open spec fn all_well_shaped(cs: Seq<NodeModel>, bytes: Seq<u8>, properties: bool) -> bool
    decreases cs, 0int,
{
    if cs.len() == 0 {
        true
    } else {
        &&& all_well_shaped(cs.drop_last(), bytes, properties)
        &&& well_shaped(cs.last(), bytes)
        &&& (cs.last().kind == TokenKind::Property) == properties
    }
}

proof fn lemma_all_shaped_cons(v: NodeModel, rest: Seq<NodeModel>, bytes: Seq<u8>, p: bool)
    requires
        well_shaped(v, bytes),
        (v.kind == TokenKind::Property) == p,
        all_well_shaped(rest, bytes, p),
    ensures
        all_well_shaped(seq![v] + rest, bytes, p),
    decreases rest.len(),
{
    let all = seq![v] + rest;
    if rest.len() == 0 {
        lemma_all_shaped_single(v, bytes, p);
        assert(all =~= seq![v]);
    } else {
        lemma_all_shaped_cons(v, rest.drop_last(), bytes, p);
        assert(all.drop_last() =~= seq![v] + rest.drop_last());
        assert(all.last() == rest.last());
        assert(well_shaped(rest.last(), bytes));
        assert(all_well_shaped(all.drop_last(), bytes, p));
    }
}

proof fn lemma_all_shaped_single(v: NodeModel, bytes: Seq<u8>, p: bool)
    requires
        well_shaped(v, bytes),
        (v.kind == TokenKind::Property) == p,
    ensures
        all_well_shaped(seq![v], bytes, p),
{
    assert(seq![v].drop_last() =~= Seq::<NodeModel>::empty());
    assert(all_well_shaped(Seq::<NodeModel>::empty(), bytes, p));
    assert(seq![v].last() == v);
}

proof fn lemma_scalar_shapes(s: Seq<char>, i: int)
    requires
        0 <= i,
    ensures
        spec_string(s, i) matches Some((m, _)) ==> m.kind == TokenKind::String && well_shaped(
            m,
            encode_utf8(s),
        ),
        spec_null(s, i) matches Some((m, _)) ==> m.kind != TokenKind::Property && well_shaped(
            m,
            encode_utf8(s),
        ),
        spec_boolean(s, i) matches Some((m, _)) ==> m.kind != TokenKind::Property && well_shaped(
            m,
            encode_utf8(s),
        ),
        spec_number(s, i) matches Some((m, _)) ==> m.kind != TokenKind::Property && well_shaped(
            m,
            encode_utf8(s),
        ),
{
    if 0 <= i < s.len() && s[i] == '"' {
        crate::grammar::lemma_string_close(s, i + 1, false);
        if let Some(c) = crate::grammar::string_close(s, i + 1, false) {
            lemma_container_brackets(s, i, c);
        }
    }
}

/// Every value parsed from `i` is no property, and is well shaped.
pub proof fn lemma_value_shapes(s: Seq<char>, i: int)
    requires
        0 <= i,
    ensures
        spec_value(s, i) matches Some((m, _)) ==> m.kind != TokenKind::Property && well_shaped(
            m,
            encode_utf8(s),
        ),
    decreases s.len() - i, 1int,
{
    if i < s.len() {
        lemma_scalar_shapes(s, i);
        lemma_array_shapes(s, i);
        lemma_object_shapes(s, i);
    }
}

proof fn lemma_container_brackets(s: Seq<char>, i: int, k: int)
    requires
        0 <= i < k < s.len(),
        (s[i] as u32) < 0x80,
        (s[k] as u32) < 0x80,
    ensures
        0 <= byte_offset(s, i) < byte_offset(s, k) < encode_utf8(s).len(),
        encode_utf8(s)[byte_offset(s, i) as int] == (s[i] as u32) as u8,
        encode_utf8(s)[byte_offset(s, k) as int] == (s[k] as u32) as u8,
{
    lemma_ascii_byte(s, i);
    lemma_ascii_byte(s, k);
    crate::text::lemma_byte_offset_mono(s, i + 1, k);
    crate::text::lemma_byte_offset_mono(s, i, i + 1);
}

proof fn lemma_array_shapes(s: Seq<char>, i: int)
    requires
        0 <= i,
    ensures
        spec_array(s, i) matches Some((m, _)) ==> m.kind == TokenKind::Array && well_shaped(
            m,
            encode_utf8(s),
        ),
    decreases s.len() - i, 0int,
{
    if 0 <= i < s.len() && s[i] == '[' {
        let j = skip_ws(s, i + 1);
        lemma_skip_ws(s, i + 1);
        if j < s.len() {
            if s[j] == ']' {
                lemma_container_brackets(s, i, j);
                assert(all_well_shaped(Seq::<NodeModel>::empty(), encode_utf8(s), false));
            } else {
                lemma_items_shapes(s, j);
                if let Some((items, q)) = spec_items(s, j) {
                    crate::laws::bounds::lemma_items_bounds(s, j);
                    let k = skip_ws(s, q);
                    lemma_skip_ws(s, q);
                    if 0 <= k < s.len() && s[k] == ']' {
                        lemma_container_brackets(s, i, k);
                    }
                }
            }
        }
    }
}

proof fn lemma_object_shapes(s: Seq<char>, i: int)
    requires
        0 <= i,
    ensures
        spec_object(s, i) matches Some((m, _)) ==> m.kind == TokenKind::Object && well_shaped(
            m,
            encode_utf8(s),
        ),
    decreases s.len() - i, 0int,
{
    if 0 <= i < s.len() && s[i] == '{' {
        let j = skip_ws(s, i + 1);
        lemma_skip_ws(s, i + 1);
        if j < s.len() {
            if s[j] == '}' {
                lemma_container_brackets(s, i, j);
                assert(all_well_shaped(Seq::<NodeModel>::empty(), encode_utf8(s), true));
            } else {
                lemma_properties_shapes(s, j);
                if let Some((props, q)) = spec_properties(s, j) {
                    crate::laws::bounds::lemma_properties_bounds(s, j);
                    let k = skip_ws(s, q);
                    lemma_skip_ws(s, q);
                    if 0 <= k < s.len() && s[k] == '}' {
                        lemma_container_brackets(s, i, k);
                    }
                }
            }
        }
    }
}

proof fn lemma_items_shapes(s: Seq<char>, j: int)
    requires
        0 <= j,
    ensures
        spec_items(s, j) matches Some((cs, _)) ==> all_well_shaped(cs, encode_utf8(s), false),
    decreases s.len() - j, 2int,
{
    let a = skip_ws(s, j);
    lemma_skip_ws(s, j);
    if j <= s.len() {
        lemma_value_shapes(s, a);
        lemma_value_bounds(s, a);
        if let Some((v, p)) = spec_value(s, a) {
            let b = skip_ws(s, p);
            lemma_skip_ws(s, p);
            if 0 <= b < s.len() && s[b] == ',' {
                if j <= b {
                    lemma_items_shapes(s, b + 1);
                    if let Some((rest, r)) = spec_items(s, b + 1) {
                        lemma_all_shaped_cons(v, rest, encode_utf8(s), false);
                    }
                }
            } else {
                lemma_all_shaped_single(v, encode_utf8(s), false);
            }
        }
    }
}

proof fn lemma_properties_shapes(s: Seq<char>, j: int)
    requires
        0 <= j,
    ensures
        spec_properties(s, j) matches Some((cs, _)) ==> all_well_shaped(cs, encode_utf8(s), true),
    decreases s.len() - j, 2int,
{
    let a = skip_ws(s, j);
    lemma_skip_ws(s, j);
    lemma_scalar_shapes(s, a);
    lemma_scalar_bounds(s, a);
    if let Some((key, kp)) = spec_string(s, a) {
        let b = skip_ws(s, kp);
        lemma_skip_ws(s, kp);
        if 0 <= b < s.len() && s[b] == ':' {
            let c = skip_ws(s, b + 1);
            lemma_skip_ws(s, b + 1);
            lemma_value_shapes(s, c);
            lemma_value_bounds(s, c);
            lemma_value_spans(s, c);
            if let Some((v, q)) = spec_value(s, c) {
                if 0 <= q < s.len() {
                    let prop = property(key, v, byte_offset(s, a) as int, byte_offset(s, q) as int);
                    assert(well_shaped(prop, encode_utf8(s)));
                    if s[q] == ',' {
                        if j <= q {
                            lemma_properties_shapes(s, q + 1);
                            if let Some((rest, r)) = spec_properties(s, q + 1) {
                                lemma_all_shaped_cons(prop, rest, encode_utf8(s), true);
                            }
                        }
                    } else {
                        lemma_all_shaped_single(prop, encode_utf8(s), true);
                    }
                }
            }
        }
    }
}

/// Every node of a parsed JSON text has the shape its kind gives (see
/// `well_shaped`), and the root is no property.
pub proof fn law_node_shapes(s: Seq<char>)
    requires
        spec_parse(s) is Some,
    ensures
        spec_parse(s).unwrap().kind != TokenKind::Property,
        well_shaped(spec_parse(s).unwrap(), encode_utf8(s)),
{
    lemma_skip_ws(s, 0);
    lemma_value_shapes(s, skip_ws(s, 0));
}

/// The kind of value that a character starts, if any.
pub open spec fn kind_started_by(c: char) -> Option<TokenKind> {
    if c == '"' {
        Some(TokenKind::String)
    } else if c == 'n' {
        Some(TokenKind::Null)
    } else if c == '{' {
        Some(TokenKind::Object)
    } else if c == '[' {
        Some(TokenKind::Array)
    } else if c == 't' || c == 'f' {
        Some(TokenKind::Boolean)
    } else if c == '-' || is_digit(c) {
        Some(TokenKind::Number)
    } else {
        None
    }
}

/// A value is chosen by its first character: none is read at the end of the
/// input or from a character that starts no value, and one that is read has
/// the kind its first character starts and begins at that character.
pub proof fn law_value_kind(s: Seq<char>, i: int)
    requires
        0 <= i,
    ensures
        i >= s.len() ==> spec_value(s, i) is None,
        i < s.len() && kind_started_by(s[i]) is None ==> spec_value(s, i) is None,
        spec_value(s, i) matches Some((m, _)) ==> i < s.len() && kind_started_by(s[i]) == Some(
            m.kind,
        ) && m.start == byte_offset(s, i),
{
    lemma_value_spans(s, i);
    if i < s.len() {
        lemma_array_shapes(s, i);
        lemma_object_shapes(s, i);
    }
}

} // verus!
