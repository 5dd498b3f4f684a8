//! What the parser accepts and what it builds, as functions on the input
//! characters. Positions are character indices into the input; the offsets
//! stored in nodes are byte offsets (see `byte_offset`).
use vstd::prelude::*;
use crate::node::{NodeModel, TokenKind, ValueModel};
use crate::text::{ascii_between, byte_offset};

verus! {

/// A result of parsing from a position: the node and the position after it.
pub type Parsed = Option<(NodeModel, int)>;

/// Space, tab, line feed or carriage return.
pub open spec fn is_ws(c: char) -> bool {
    c == ' ' || c == '\t' || c == '\n' || c == '\r'
}

/// `0` to `9`.
pub open spec fn is_digit(c: char) -> bool {
    '0' <= c && c <= '9'
}

/// First position at or after `i` that does not hold whitespace.
pub open spec fn skip_ws(s: Seq<char>, i: int) -> int
    decreases s.len() - i,
{
    if 0 <= i < s.len() && is_ws(s[i]) {
        skip_ws(s, i + 1)
    } else {
        i
    }
}

pub proof fn lemma_skip_ws(s: Seq<char>, i: int)
    ensures
        i <= skip_ws(s, i),
        0 <= i <= s.len() ==> skip_ws(s, i) <= s.len(),
        0 <= i ==> forall|k: int| i <= k < skip_ws(s, i) ==> is_ws(#[trigger] s[k]),
        0 <= i ==> (skip_ws(s, i) < s.len() ==> !is_ws(s[skip_ws(s, i)])),
    decreases s.len() - i,
{
    if 0 <= i < s.len() && is_ws(s[i]) {
        lemma_skip_ws(s, i + 1);
    }
}

/// A node without children: a string, number, boolean or null.
pub open spec fn leaf(kind: TokenKind, text: Seq<char>, start: int, end: int) -> NodeModel {
    NodeModel {
        kind,
        key: None,
        value: Some(ValueModel::Text(text)),
        children: None,
        start,
        end,
    }
}

/// An array or an object.
pub open spec fn container(kind: TokenKind, children: Seq<NodeModel>, start: int, end: int) -> NodeModel {
    NodeModel { kind, key: None, value: None, children: Some(children), start, end }
}

/// A property of an object: its key and its value.
pub open spec fn property(key: NodeModel, value: NodeModel, start: int, end: int) -> NodeModel {
    NodeModel {
        kind: TokenKind::Property,
        key: Some(Box::new(key)),
        value: Some(ValueModel::Node(Box::new(value))),
        children: None,
        start,
        end,
    }
}

/// Position of the quote that closes a string, scanning from `j`; `escaped`
/// when the character before `j` was an unescaped backslash.
pub open spec fn string_close(s: Seq<char>, j: int, escaped: bool) -> Option<int>
    decreases s.len() - j,
{
    if j < 0 || j >= s.len() {
        None
    } else if escaped {
        string_close(s, j + 1, false)
    } else if s[j] == '\\' {
        string_close(s, j + 1, true)
    } else if s[j] == '"' {
        Some(j)
    } else {
        string_close(s, j + 1, false)
    }
}

pub proof fn lemma_string_close(s: Seq<char>, j: int, escaped: bool)
    ensures
        string_close(s, j, escaped) matches Some(c) ==> j <= c < s.len() && s[c] == '"',
    decreases s.len() - j,
{
    if 0 <= j < s.len() {
        lemma_string_close(s, j + 1, true);
        lemma_string_close(s, j + 1, false);
    }
}

/// A string: a quote, then characters up to the next quote that no backslash
/// escapes. Its text is everything between the quotes, backslashes included.
pub open spec fn spec_string(s: Seq<char>, i: int) -> Parsed {
    if 0 <= i < s.len() && s[i] == '"' {
        match string_close(s, i + 1, false) {
            Some(c) => Some(
                (
                    leaf(
                        TokenKind::String,
                        s.subrange(i + 1, c),
                        byte_offset(s, i) as int,
                        byte_offset(s, c) as int,
                    ),
                    c + 1,
                ),
            ),
            None => None,
        }
    } else {
        None
    }
}

/// True when `lit` stands in `s` at `i`.
pub open spec fn has_literal(s: Seq<char>, i: int, lit: Seq<char>) -> bool {
    0 <= i && i + lit.len() <= s.len() && s.subrange(i, i + lit.len()) == lit
}

pub open spec fn null_lit() -> Seq<char> {
    seq!['n', 'u', 'l', 'l']
}

pub open spec fn true_lit() -> Seq<char> {
    seq!['t', 'r', 'u', 'e']
}

pub open spec fn false_lit() -> Seq<char> {
    seq!['f', 'a', 'l', 's', 'e']
}

/// A literal of the given kind, standing in `s` at `i`.
pub open spec fn spec_literal(s: Seq<char>, i: int, kind: TokenKind, lit: Seq<char>) -> Parsed {
    Some(
        (
            leaf(
                kind,
                lit,
                byte_offset(s, i) as int,
                byte_offset(s, i + lit.len() - 1) as int,
            ),
            i + lit.len(),
        ),
    )
}

/// `null`.
pub open spec fn spec_null(s: Seq<char>, i: int) -> Parsed {
    if has_literal(s, i, null_lit()) {
        spec_literal(s, i, TokenKind::Null, null_lit())
    } else {
        None
    }
}

/// `true` or `false`.
pub open spec fn spec_boolean(s: Seq<char>, i: int) -> Parsed {
    if has_literal(s, i, true_lit()) {
        spec_literal(s, i, TokenKind::Boolean, true_lit())
    } else if has_literal(s, i, false_lit()) {
        spec_literal(s, i, TokenKind::Boolean, false_lit())
    } else {
        None
    }
}

/// True when what was read of a number before `j` may end there: its last
/// character is neither a dot nor a minus.
pub open spec fn number_may_end(s: Seq<char>, j: int) -> bool {
    0 < j && j - 1 < s.len() && s[j - 1] != '.' && s[j - 1] != '-'
}

/// Where a number that starts at `i` stops, having read it up to `j`
/// (`dot` when a dot was read): at the end of the input or at the first
/// character that is neither a digit nor a dot. `None` where the number is
/// malformed: a second dot, a dot not after a digit, a digit after a leading
/// zero, or a last character that is a dot or a minus.
pub open spec fn number_stop(s: Seq<char>, i: int, j: int, dot: bool) -> Option<int>
    decreases s.len() - j,
{
    if j >= s.len() {
        if number_may_end(s, j) {
            Some(j)
        } else {
            None
        }
    } else if j < 1 {
        None
    } else if s[j] == '.' {
        if !dot && is_digit(s[j - 1]) {
            number_stop(s, i, j + 1, true)
        } else {
            None
        }
    } else if is_digit(s[j]) {
        let lead = if 0 <= i < s.len() && s[i] == '-' { i + 1 } else { i };
        if !dot && lead < j && s[lead] == '0' {
            None
        } else {
            number_stop(s, i, j + 1, dot)
        }
    } else if number_may_end(s, j) {
        Some(j)
    } else {
        None
    }
}

/// A character a number may hold.
pub open spec fn is_number_char(c: char) -> bool {
    c == '-' || c == '.' || is_digit(c)
}

pub proof fn lemma_number_stop(s: Seq<char>, i: int, j: int, dot: bool)
    requires
        0 <= i < j,
        ascii_between(s, i, j),
        forall|k: int| i <= k < j ==> is_number_char(#[trigger] s[k]),
    ensures
        number_stop(s, i, j, dot) matches Some(e) ==> {
            &&& j <= e <= s.len()
            &&& ascii_between(s, i, e)
            &&& forall|k: int| i <= k < e ==> is_number_char(#[trigger] s[k])
            &&& (e < s.len() ==> !is_digit(s[e]) && s[e] != '.')
        },
    decreases s.len() - j,
{
    if j < s.len() && (s[j] == '.' || is_digit(s[j])) {
        assert((s[j] as u32) < 0x80);
        lemma_number_stop(s, i, j + 1, true);
        lemma_number_stop(s, i, j + 1, dot);
    }
}

/// A number: a minus or a digit, then digits with at most one dot, up to
/// the first other character or the end of the input, and not ending in a
/// dot or a minus. Its text is those characters; it ends at the byte before
/// where it stops.
pub open spec fn spec_number(s: Seq<char>, i: int) -> Parsed {
    if 0 <= i < s.len() && (s[i] == '-' || is_digit(s[i])) {
        match number_stop(s, i, i + 1, false) {
            Some(e) => Some(
                (
                    leaf(
                        TokenKind::Number,
                        s.subrange(i, e),
                        byte_offset(s, i) as int,
                        byte_offset(s, e) - 1,
                    ),
                    e,
                ),
            ),
            None => None,
        }
    } else {
        None
    }
}

/// A value at `i`, chosen by its first character.
pub open spec fn spec_value(s: Seq<char>, i: int) -> Parsed
    decreases s.len() - i, 1int,
{
    if 0 <= i < s.len() {
        let c = s[i];
        if c == '"' {
            spec_string(s, i)
        } else if c == 'n' {
            spec_null(s, i)
        } else if c == '{' {
            spec_object(s, i)
        } else if c == '[' {
            spec_array(s, i)
        } else if c == 't' || c == 'f' {
            spec_boolean(s, i)
        } else if c == '-' || is_digit(c) {
            spec_number(s, i)
        } else {
            None
        }
    } else {
        None
    }
}

/// An array: `[`, then `]` or items and `]`, with whitespace between.
pub open spec fn spec_array(s: Seq<char>, i: int) -> Parsed
    decreases s.len() - i, 0int,
{
    if 0 <= i < s.len() && s[i] == '[' {
        let j = skip_ws(s, i + 1);
        proof {
            lemma_skip_ws(s, i + 1);
        }
        if j < s.len() {
            if s[j] == ']' {
                Some(
                    (
                        container(
                            TokenKind::Array,
                            Seq::empty(),
                            byte_offset(s, i) as int,
                            byte_offset(s, j) as int,
                        ),
                        j + 1,
                    ),
                )
            } else {
                match spec_items(s, j) {
                    Some((items, p)) => {
                        let k = skip_ws(s, p);
                        if 0 <= k < s.len() && s[k] == ']' {
                            Some(
                                (
                                    container(
                                        TokenKind::Array,
                                        items,
                                        byte_offset(s, i) as int,
                                        byte_offset(s, k) as int,
                                    ),
                                    k + 1,
                                ),
                            )
                        } else {
                            None
                        }
                    },
                    None => None,
                }
            }
        } else {
            None
        }
    } else {
        None
    }
}

/// Values separated by commas, with whitespace around them. The position
/// returned is after the whitespace that follows the last value.
pub open spec fn spec_items(s: Seq<char>, j: int) -> Option<(Seq<NodeModel>, int)>
    decreases s.len() - j, 2int,
{
    let a = skip_ws(s, j);
    proof {
        lemma_skip_ws(s, j);
    }
    if 0 <= j <= s.len() {
        match spec_value(s, a) {
            Some((v, p)) => {
                let b = skip_ws(s, p);
                if 0 <= b < s.len() && s[b] == ',' {
                    if j <= b {
                        match spec_items(s, b + 1) {
                            Some((rest, q)) => Some((seq![v] + rest, q)),
                            None => None,
                        }
                    } else {
                        None
                    }
                } else {
                    Some((seq![v], b))
                }
            },
            None => None,
        }
    } else {
        None
    }
}

/// An object: `{`, then `}` or properties and `}`, with whitespace between.
pub open spec fn spec_object(s: Seq<char>, i: int) -> Parsed
    decreases s.len() - i, 0int,
{
    if 0 <= i < s.len() && s[i] == '{' {
        let j = skip_ws(s, i + 1);
        proof {
            lemma_skip_ws(s, i + 1);
        }
        if j < s.len() {
            if s[j] == '}' {
                Some(
                    (
                        container(
                            TokenKind::Object,
                            Seq::empty(),
                            byte_offset(s, i) as int,
                            byte_offset(s, j) as int,
                        ),
                        j + 1,
                    ),
                )
            } else {
                match spec_properties(s, j) {
                    Some((props, p)) => {
                        let k = skip_ws(s, p);
                        if 0 <= k < s.len() && s[k] == '}' {
                            Some(
                                (
                                    container(
                                        TokenKind::Object,
                                        props,
                                        byte_offset(s, i) as int,
                                        byte_offset(s, k) as int,
                                    ),
                                    k + 1,
                                ),
                            )
                        } else {
                            None
                        }
                    },
                    None => None,
                }
            }
        } else {
            None
        }
    } else {
        None
    }
}

/// Properties separated by commas: a string key, `:`, a value. A property
/// spans from its key to the character right after its value, which must
/// exist; a comma must follow the value directly. The position returned is
/// right after the last value.
pub open spec fn spec_properties(s: Seq<char>, j: int) -> Option<(Seq<NodeModel>, int)>
    decreases s.len() - j, 2int,
{
    let a = skip_ws(s, j);
    proof {
        lemma_skip_ws(s, j);
    }
    match spec_string(s, a) {
        Some((key, p)) => {
            let b = skip_ws(s, p);
            proof {
                lemma_string_close(s, a + 1, false);
                lemma_skip_ws(s, p);
            }
            if 0 <= b < s.len() && s[b] == ':' {
                let c = skip_ws(s, b + 1);
                proof {
                    lemma_skip_ws(s, b + 1);
                }
                match spec_value(s, c) {
                    Some((v, q)) => {
                        if 0 <= q < s.len() {
                            let prop = property(
                                key,
                                v,
                                byte_offset(s, a) as int,
                                byte_offset(s, q) as int,
                            );
                            if s[q] == ',' {
                                if j <= q {
                                    match spec_properties(s, q + 1) {
                                        Some((rest, r)) => Some((seq![prop] + rest, r)),
                                        None => None,
                                    }
                                } else {
                                    None
                                }
                            } else {
                                Some((seq![prop], q))
                            }
                        } else {
                            None
                        }
                    },
                    None => None,
                }
            } else {
                None
            }
        },
        None => None,
    }
}

/// What parsing the whole input gives: a value with only whitespace around it.
pub open spec fn spec_parse(s: Seq<char>) -> Option<NodeModel> {
    match spec_value(s, skip_ws(s, 0)) {
        Some((v, p)) => if skip_ws(s, p) >= s.len() {
            Some(v)
        } else {
            None
        },
        None => None,
    }
}

} // verus!
