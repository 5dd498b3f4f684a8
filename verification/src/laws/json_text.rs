//! The JSON texts, written as a grammar of their own with derivation trees:
//! the texts that this grammar derives are exactly those that are accepted.
use vstd::prelude::*;
use crate::grammar::{
    false_lit, has_literal, is_digit, is_ws, lemma_skip_ws, null_lit, number_stop, skip_ws,
    spec_items, spec_parse, spec_properties, spec_value, true_lit,
};
use crate::laws::bounds::{lemma_value_bounds};
use crate::laws::spans::lemma_value_spans;
use crate::node::{NodeModel, ValueModel};
use crate::text::byte_offset;
use crate::laws::number::{law_number_token, number_shape};
use crate::grammar::{lemma_string_close, spec_array, spec_object, spec_string, string_close};
use crate::laws::shape::{kind_started_by, law_value_kind};
use crate::laws::string::{first_unescaped_quote, law_string_close};

verus! {

/// Only whitespace stands in `s` between `a` and `b`.
pub open spec fn blank(s: Seq<char>, a: int, b: int) -> bool {
    &&& 0 <= a <= b <= s.len()
    &&& forall|k: int| a <= k < b ==> is_ws(#[trigger] s[k])
}

/// `s[a..b]` is a string: a quote, then characters up to the first quote
/// that no backslash escapes.
pub open spec fn string_text(s: Seq<char>, a: int, b: int) -> bool {
    &&& 0 <= a
    &&& a + 2 <= b <= s.len()
    &&& s[a] == '"'
    &&& first_unescaped_quote(s, a + 1, b - 1)
}

/// `s[a..b]` is `lit`.
pub open spec fn literal_text(s: Seq<char>, a: int, b: int, lit: Seq<char>) -> bool {
    0 <= a && b == a + lit.len() && b <= s.len() && s.subrange(a, b) == lit
}

/// How a text derives from the grammar: a scalar, or an array or object
/// whose contents are blank or a list of items or members. Each item and
/// member records where its parts stand, and whether a comma and more follow.
pub enum Syntax {
    Scalar,
    Blank,
    Array(Box<Syntax>),
    Object(Box<Syntax>),
    Item { x: int, y: int, value: Box<Syntax>, c: int, more: bool, next: Box<Syntax> },
    Member {
        x: int,
        y: int,
        c: int,
        v: int,
        w: int,
        value: Box<Syntax>,
        more: bool,
        next: Box<Syntax>,
    },
}

/// `s[a..b]` is a scalar: a string, a number `-?(0|[1-9][0-9]*)(\.[0-9]+)?`,
/// `null`, `true` or `false`.
pub open spec fn scalar_text(s: Seq<char>, a: int, b: int) -> bool {
    &&& 0 <= a < b <= s.len()
    &&& {
        ||| string_text(s, a, b)
        ||| (exists|k: int| number_shape(s, a, k, b))
        ||| literal_text(s, a, b, null_lit())
        ||| literal_text(s, a, b, true_lit())
        ||| literal_text(s, a, b, false_lit())
    }
}

/// `s[a..b]` is a JSON value as `d` derives it: a scalar, an array
/// `[` W (items)? `]` or an object `{` W (members)? `}`, where W is whitespace.
pub open spec fn value_text(s: Seq<char>, a: int, b: int, d: Syntax) -> bool
    decreases d,
{
    match d {
        Syntax::Scalar => scalar_text(s, a, b),
        Syntax::Array(inner) => {
            &&& 0 <= a && a + 2 <= b <= s.len()
            &&& s[a] == '['
            &&& s[b - 1] == ']'
            &&& match *inner {
                Syntax::Blank => blank(s, a + 1, b - 1),
                _ => items_text(s, a + 1, b - 1, *inner),
            }
        },
        Syntax::Object(inner) => {
            &&& 0 <= a && a + 2 <= b <= s.len()
            &&& s[a] == '{'
            &&& s[b - 1] == '}'
            &&& match *inner {
                Syntax::Blank => blank(s, a + 1, b - 1),
                _ => members_text(s, a + 1, b - 1, *inner),
            }
        },
        _ => false,
    }
}

/// `s[a..b]` is W value W, then either nothing or `,` and items again.
pub open spec fn items_text(s: Seq<char>, a: int, b: int, d: Syntax) -> bool
    decreases d,
{
    match d {
        Syntax::Item { x, y, value, c, more, next } => {
            &&& a <= x < y <= b
            &&& blank(s, a, x)
            &&& value_text(s, x, y, *value)
            &&& if more {
                y <= c < b && blank(s, y, c) && s[c] == ',' && items_text(s, c + 1, b, *next)
            } else {
                blank(s, y, b)
            }
        },
        _ => false,
    }
}

/// `s[a..b]` is W string W `:` W value, then either W, or `,` right after
/// the value and members again.
pub open spec fn members_text(s: Seq<char>, a: int, b: int, d: Syntax) -> bool
    decreases d,
{
    match d {
        Syntax::Member { x, y, c, v, w, value, more, next } => {
            &&& a <= x < y <= c < v < w <= b
            &&& blank(s, a, x)
            &&& string_text(s, x, y)
            &&& blank(s, y, c)
            &&& s[c] == ':'
            &&& blank(s, c + 1, v)
            &&& value_text(s, v, w, *value)
            &&& if more {
                w < b && s[w] == ',' && members_text(s, w + 1, b, *next)
            } else {
                blank(s, w, b)
            }
        },
        _ => false,
    }
}

/// `s` is a JSON text: a value with whitespace around it.
pub open spec fn json_text(s: Seq<char>) -> bool {
    exists|a: int, b: int, d: Syntax|
        blank(s, 0, a) && #[trigger] value_text(s, a, b, d) && blank(s, b, s.len() as int)
}

/// `m` spans the bytes of the characters `s[a..b]`.
pub open spec fn spans(s: Seq<char>, m: NodeModel, a: int, b: int) -> bool {
    m.start == byte_offset(s, a) && m.end == byte_offset(s, b) - 1
}

/// `m` is the node that `d` derives from `s[a..b]`: it spans those bytes, its
/// kind is the one its first character starts, and the children of an array
/// or object are, in order, the values or members that `d` derives between
/// its brackets.
pub open spec fn tree_of(s: Seq<char>, m: NodeModel, a: int, b: int, d: Syntax) -> bool
    decreases d,
{
    &&& spans(s, m, a, b)
    &&& 0 <= a < s.len()
    &&& kind_started_by(s[a]) == Some(m.kind)
    &&& match d {
        Syntax::Array(inner) => m.children matches Some(cs) && match *inner {
            Syntax::Blank => cs.len() == 0,
            _ => items_tree(s, cs, *inner),
        },
        Syntax::Object(inner) => m.children matches Some(cs) && match *inner {
            Syntax::Blank => cs.len() == 0,
            _ => members_tree(s, cs, *inner),
        },
        _ => true,
    }
}

/// `cs` are, in order, the values that the items `d` derive, each the node of
/// its own part of the text and exactly what a value read there gives.
pub open spec fn items_tree(s: Seq<char>, cs: Seq<NodeModel>, d: Syntax) -> bool
    decreases d,
{
    match d {
        Syntax::Item { x, y, value, more, next, .. } => {
            &&& cs.len() >= 1
            &&& spec_value(s, x) == Some((cs[0], y))
            &&& tree_of(s, cs[0], x, y, *value)
            &&& if more {
                items_tree(s, cs.drop_first(), *next)
            } else {
                cs.len() == 1
            }
        },
        _ => false,
    }
}

/// `cs` are, in order, the properties that the members `d` derive: each spans
/// from the first byte of its key to the byte right after its value; its key
/// is exactly the string read at the key, and its value exactly the value
/// read at the member's value, the node of that part of the text.
pub open spec fn members_tree(s: Seq<char>, cs: Seq<NodeModel>, d: Syntax) -> bool
    decreases d,
{
    match d {
        Syntax::Member { x, y, v, w, value, more, next, .. } => {
            &&& cs.len() >= 1
            &&& cs[0].start == byte_offset(s, x)
            &&& cs[0].end == byte_offset(s, w)
            &&& cs[0].key matches Some(k) && spans(s, *k, x, y) && spec_string(s, x) == Some(
                (*k, y),
            )
            &&& cs[0].value matches Some(ValueModel::Node(n)) && spec_value(s, v) == Some((*n, w))
                && tree_of(s, *n, v, w, *value)
            &&& if more {
                members_tree(s, cs.drop_first(), *next)
            } else {
                cs.len() == 1
            }
        },
        _ => false,
    }
}

/// A character after a value that does not continue it.
pub open spec fn ends_value(c: char) -> bool {
    !(c == '.' || is_digit(c))
}

proof fn lemma_skip_blank(s: Seq<char>, a: int, x: int)
    requires
        blank(s, a, x),
        x < s.len() ==> !is_ws(s[x]),
    ensures
        skip_ws(s, a) == x,
    decreases x - a,
{
    if a < x {
        lemma_skip_blank(s, a + 1, x);
    }
}

proof fn lemma_skip_twice(s: Seq<char>, a: int)
    requires
        0 <= a <= s.len(),
    ensures
        skip_ws(s, skip_ws(s, a)) == skip_ws(s, a),
{
    lemma_skip_ws(s, a);
}

proof fn lemma_value_start(s: Seq<char>, a: int, b: int, d: Syntax)
    requires
        value_text(s, a, b, d),
    ensures
        kind_started_by(s[a]) is Some,
{
    if d is Scalar {
        if exists|k: int| number_shape(s, a, k, b) {
            let k = choose|k: int| number_shape(s, a, k, b);
            if s[a] != '-' {
                assert(is_digit(s[a]));
            }
        }
        if literal_text(s, a, b, null_lit()) || literal_text(s, a, b, true_lit()) || literal_text(
            s,
            a,
            b,
            false_lit(),
        ) {
            assert(s.subrange(a, b)[0] == s[a]);
        }
    }
}

/// Reading items from `a` is reading them from where whitespace after `a` ends.
proof fn lemma_items_from_skip(s: Seq<char>, a: int)
    requires
        0 <= a <= s.len(),
    ensures
        spec_items(s, a) == spec_items(s, skip_ws(s, a)),
{
    lemma_skip_ws(s, a);
    lemma_skip_twice(s, a);
    let x = skip_ws(s, a);
    lemma_value_bounds(s, x);
    if let Some((v, p)) = spec_value(s, x) {
        lemma_skip_ws(s, p);
    }
}

/// Reading members from `a` is reading them from where whitespace after `a` ends.
proof fn lemma_properties_from_skip(s: Seq<char>, a: int)
    requires
        0 <= a <= s.len(),
    ensures
        spec_properties(s, a) == spec_properties(s, skip_ws(s, a)),
{
    lemma_skip_ws(s, a);
    lemma_skip_twice(s, a);
}

/// A value of this grammar, followed by the end or by a character that does
/// not continue it, is read by the parser to its end.
proof fn lemma_value_text_accepted(s: Seq<char>, a: int, b: int, d: Syntax)
    requires
        value_text(s, a, b, d),
        b == s.len() || ends_value(s[b]),
    ensures
        spec_value(s, a) matches Some((_, q)) && q == b,
    decreases d,
{
    lemma_value_start(s, a, b, d);
    match d {
        Syntax::Scalar => {
            if string_text(s, a, b) {
                law_string_close(s, a + 1, b - 1);
            } else if exists|k: int| number_shape(s, a, k, b) {
                let k = choose|k: int| number_shape(s, a, k, b);
                if s[a] != '-' {
                    assert(is_digit(s[a]));
                }
                law_number_token(s, a, b);
                assert(number_stop(s, a, a + 1, false) == Some(b));
            } else if literal_text(s, a, b, null_lit()) {
                assert(has_literal(s, a, null_lit()));
            } else if literal_text(s, a, b, true_lit()) {
                assert(has_literal(s, a, true_lit()));
            } else {
                assert(literal_text(s, a, b, false_lit()));
                assert(has_literal(s, a, false_lit()));
                assert(s.subrange(a, b)[0] == s[a]);
                if has_literal(s, a, true_lit()) {
                    assert(s.subrange(a, a + 4)[0] == s[a]);
                }
            }
        },
        Syntax::Array(inner) => {
            match *inner {
                Syntax::Blank => {
                    lemma_skip_blank(s, a + 1, b - 1);
                },
                Syntax::Item { x, y, value, .. } => {
                    lemma_value_start(s, x, y, *value);
                    lemma_skip_blank(s, a + 1, x);
                    lemma_items_text_accepted(s, a + 1, b - 1, *inner);
                    lemma_items_from_skip(s, a + 1);
                    lemma_skip_blank(s, b - 1, b - 1);
                },
                _ => {},
            }
        },
        Syntax::Object(inner) => {
            match *inner {
                Syntax::Blank => {
                    lemma_skip_blank(s, a + 1, b - 1);
                },
                Syntax::Member { x, .. } => {
                    lemma_skip_blank(s, a + 1, x);
                    lemma_members_text_accepted(s, a + 1, b - 1, *inner);
                    lemma_properties_from_skip(s, a + 1);
                },
                _ => {},
            }
        },
        _ => {},
    }
}

proof fn lemma_items_text_accepted(s: Seq<char>, a: int, b: int, d: Syntax)
    requires
        items_text(s, a, b, d),
        b < s.len(),
        s[b] == ']',
    ensures
        spec_items(s, a) matches Some((_, q)) && q == b,
    decreases d,
{
    if let Syntax::Item { x, y, value, c, more, next } = d {
        lemma_value_start(s, x, y, *value);
        lemma_skip_blank(s, a, x);
        if !more {
            if y < b {
                assert(is_ws(s[y]));
            }
            lemma_value_text_accepted(s, x, y, *value);
            lemma_skip_blank(s, y, b);
        } else {
            if y < c {
                assert(is_ws(s[y]));
            }
            lemma_value_text_accepted(s, x, y, *value);
            lemma_skip_blank(s, y, c);
            lemma_items_text_accepted(s, c + 1, b, *next);
        }
    }
}

proof fn lemma_members_text_accepted(s: Seq<char>, a: int, b: int, d: Syntax)
    requires
        members_text(s, a, b, d),
        b < s.len(),
        s[b] == '}',
    ensures
        spec_properties(s, a) matches Some((_, q)) && q <= b && skip_ws(s, q) == b,
    decreases d,
{
    if let Syntax::Member { x, y, c, v, w, value, more, next } = d {
        lemma_skip_blank(s, a, x);
        law_string_close(s, x + 1, y - 1);
        lemma_skip_blank(s, y, c);
        lemma_value_start(s, v, w, *value);
        lemma_skip_blank(s, c + 1, v);
        if !more {
            if w < b {
                assert(is_ws(s[w]));
            }
            lemma_value_text_accepted(s, v, w, *value);
            lemma_skip_blank(s, w, b);
        } else {
            lemma_value_text_accepted(s, v, w, *value);
            lemma_members_text_accepted(s, w + 1, b, *next);
        }
    }
}

/// Every JSON text of this grammar is accepted.
pub proof fn law_json_text_accepted(s: Seq<char>)
    requires
        json_text(s),
    ensures
        spec_parse(s) is Some,
{
    let (a, b, d) = choose|a: int, b: int, d: Syntax|
        blank(s, 0, a) && #[trigger] value_text(s, a, b, d) && blank(s, b, s.len() as int);
    lemma_value_start(s, a, b, d);
    lemma_skip_blank(s, 0, a);
    if b < s.len() {
        assert(is_ws(s[b]));
    }
    lemma_value_text_accepted(s, a, b, d);
    lemma_skip_blank(s, b, s.len() as int);
}

/// A derivation of the value that the parser reads at `i`, up to where it
/// stops.
proof fn lemma_value_derived(s: Seq<char>, i: int) -> (d: Syntax)
    requires
        spec_value(s, i) is Some,
    ensures
        spec_value(s, i) matches Some((m, q)) && value_text(s, i, q, d) && tree_of(s, m, i, q, d),
    decreases s.len() - i, 1int,
{
    lemma_value_spans(s, i);
    law_value_kind(s, i);
    let c = s[i];
    if c == '"' {
        lemma_string_close(s, i + 1, false);
        let e = string_close(s, i + 1, false)->0;
        law_string_close(s, i + 1, e);
        Syntax::Scalar
    } else if c == 'n' || c == 't' || c == 'f' {
        Syntax::Scalar
    } else if c == '{' {
        let j = skip_ws(s, i + 1);
        lemma_skip_ws(s, i + 1);
        if s[j] == '}' {
            Syntax::Object(Box::new(Syntax::Blank))
        } else {
            lemma_properties_from_skip(s, i + 1);
            let inner = lemma_members_derived(s, i + 1);
            lemma_skip_ws(s, (spec_properties(s, j)->0).1);
            Syntax::Object(Box::new(inner))
        }
    } else if c == '[' {
        let j = skip_ws(s, i + 1);
        lemma_skip_ws(s, i + 1);
        if s[j] == ']' {
            Syntax::Array(Box::new(Syntax::Blank))
        } else {
            lemma_items_from_skip(s, i + 1);
            let inner = lemma_items_derived(s, i + 1);
            Syntax::Array(Box::new(inner))
        }
    } else {
        let e = number_stop(s, i, i + 1, false)->0;
        law_number_token(s, i, e);
        Syntax::Scalar
    }
}

/// A derivation of the items that the parser reads from `a`, up to where it
/// stops, after the whitespace that follows the last one.
proof fn lemma_items_derived(s: Seq<char>, a: int) -> (d: Syntax)
    requires
        spec_items(s, a) is Some,
    ensures
        spec_items(s, a) matches Some((cs, q)) && items_text(s, a, q, d) && items_tree(s, cs, d)
            && skip_ws(s, q) == q && (q < s.len() ==> s[q] != ','),
    decreases s.len() - a, 2int,
{
    let x = skip_ws(s, a);
    lemma_skip_ws(s, a);
    let value = lemma_value_derived(s, x);
    let p = (spec_value(s, x)->0).1;
    let b = skip_ws(s, p);
    lemma_skip_ws(s, p);
    if 0 <= b < s.len() && s[b] == ',' {
        let next = lemma_items_derived(s, b + 1);
        let node = (spec_value(s, x)->0).0;
        let rest = (spec_items(s, b + 1)->0).0;
        assert((seq![node] + rest).drop_first() =~= rest);
        assert((seq![node] + rest)[0] == node);
        Syntax::Item { x, y: p, value: Box::new(value), c: b, more: true, next: Box::new(next) }
    } else {
        lemma_skip_twice(s, p);
        Syntax::Item { x, y: p, value: Box::new(value), c: b, more: false, next: Box::new(Syntax::Blank) }
    }
}

/// A derivation of the members that the parser reads from `a`, up to the
/// whitespace after the last value.
proof fn lemma_members_derived(s: Seq<char>, a: int) -> (d: Syntax)
    requires
        spec_properties(s, a) is Some,
    ensures
        spec_properties(s, a) matches Some((cs, q)) && members_text(s, a, skip_ws(s, q), d)
            && members_tree(s, cs, d) && (q < s.len() ==> s[q] != ','),
    decreases s.len() - a, 2int,
{
    let x = skip_ws(s, a);
    lemma_skip_ws(s, a);
    lemma_string_close(s, x + 1, false);
    let e = string_close(s, x + 1, false)->0;
    law_string_close(s, x + 1, e);
    let y = e + 1;
    let c = skip_ws(s, y);
    lemma_skip_ws(s, y);
    let v = skip_ws(s, c + 1);
    lemma_skip_ws(s, c + 1);
    let value = lemma_value_derived(s, v);
    let w = (spec_value(s, v)->0).1;
    lemma_value_spans(s, x);
    if s[w] == ',' {
        let next = lemma_members_derived(s, w + 1);
        let prop = (spec_properties(s, a)->0).0[0];
        let rest = (spec_properties(s, w + 1)->0).0;
        assert((seq![prop] + rest).drop_first() =~= rest);
        Syntax::Member { x, y, c, v, w, value: Box::new(value), more: true, next: Box::new(next) }
    } else {
        lemma_skip_ws(s, w);
        Syntax::Member {
            x,
            y,
            c,
            v,
            w,
            value: Box::new(value),
            more: false,
            next: Box::new(Syntax::Blank),
        }
    }
}

/// Every text that is accepted is a JSON text of this grammar.
pub proof fn law_accepted_is_json_text(s: Seq<char>)
    requires
        spec_parse(s) is Some,
    ensures
        json_text(s),
{
    let a = skip_ws(s, 0);
    lemma_skip_ws(s, 0);
    let d = lemma_value_derived(s, a);
    let p = (spec_value(s, a)->0).1;
    lemma_skip_ws(s, p);
    assert(blank(s, p, s.len() as int));
    assert(value_text(s, a, p, d));
}

/// What the parser reads as a value from any position has the layout of a
/// value of this grammar up to where it stops, and the node built is the
/// tree of that derivation: every node spans its part of the text, and the
/// children of arrays and objects are their values and members in order.
pub proof fn law_value_layout(s: Seq<char>, i: int)
    requires
        spec_value(s, i) is Some,
    ensures
        spec_value(s, i) matches Some((m, q)) && exists|d: Syntax|
            value_text(s, i, q, d) && tree_of(s, m, i, q, d),
{
    let d = lemma_value_derived(s, i);
}

/// An array read from any position: it spans from its `[` to its `]`, and
/// its children are, in order, the values between them, with whitespace,
/// then a comma and whitespace, between one value and the next.
pub proof fn law_array_layout(s: Seq<char>, i: int)
    requires
        spec_array(s, i) is Some,
    ensures
        spec_array(s, i) matches Some((m, q)) && exists|d: Syntax|
            d is Array && value_text(s, i, q, d) && tree_of(s, m, i, q, d),
{
    let d = lemma_value_derived(s, i);
}

/// An object read from any position: it spans from its `{` to its `}`, and
/// its children are, in order, the members between them, each a property
/// from its key to the byte after its value, a comma right after each value
/// but the last.
pub proof fn law_object_layout(s: Seq<char>, i: int)
    requires
        spec_object(s, i) is Some,
    ensures
        spec_object(s, i) matches Some((m, q)) && exists|d: Syntax|
            d is Object && value_text(s, i, q, d) && tree_of(s, m, i, q, d),
{
    let d = lemma_value_derived(s, i);
}

/// What the parser reads as items from any position has the layout of items
/// of this grammar: whitespace before each value, whitespace then a comma
/// and whitespace between values, each node spanning its value. It stops
/// after the whitespace that follows the last value, before a character
/// that is not a comma.
pub proof fn law_items_layout(s: Seq<char>, a: int)
    requires
        spec_items(s, a) is Some,
    ensures
        spec_items(s, a) matches Some((cs, q)) && (exists|d: Syntax|
            items_text(s, a, q, d) && items_tree(s, cs, d)) && skip_ws(s, q) == q && (q < s.len()
            ==> s[q] != ','),
{
    let d = lemma_items_derived(s, a);
}

/// What the parser reads as members from any position has the layout of
/// members of this grammar, each property spanning from its key to the byte
/// after its value; it stops right after the last value, at a character
/// that is not a comma.
pub proof fn law_members_layout(s: Seq<char>, a: int)
    requires
        spec_properties(s, a) is Some,
    ensures
        spec_properties(s, a) matches Some((cs, q)) && (exists|d: Syntax|
            members_text(s, a, skip_ws(s, q), d) && members_tree(s, cs, d)) && (q < s.len()
            ==> s[q] != ','),
{
    let d = lemma_members_derived(s, a);
}

} // verus!
