//! The parser: one function per construct, each reading from a cursor.
use vstd::prelude::*;
use crate::cursor::CharCursor;
use crate::grammar::{
    Parsed, false_lit, has_literal, is_digit, is_number_char, is_ws, lemma_skip_ws,
    lemma_string_close, null_lit, number_stop, skip_ws, spec_boolean, spec_null, spec_number,
    spec_array, spec_items, spec_parse, spec_object, spec_properties, spec_string, spec_value,
    string_close, true_lit,
};
use crate::node::{JsonNode, JsonValue, TokenKind, models_of};
use crate::text::{
    ascii_between, byte_offset, lemma_byte_offset_ascii, lemma_byte_offset_mono,
    lemma_byte_offset_total, push_char,
};

verus! {

/// `res` and the cursor position `pos` are what `expected` says: the node
/// and the position after it, or nothing where the input is refused.
pub open spec fn parsed_as(res: Option<JsonNode>, pos: int, expected: Parsed) -> bool {
    match expected {
        Some((m, p)) => res matches Some(n) && n.model() == m && pos == p,
        None => res is None,
    }
}

/// Appending a node appends its model.
pub proof fn lemma_models_push(s: Seq<JsonNode>, n: JsonNode)
    ensures
        models_of(s.push(n)) == models_of(s).push(n.model()),
{
    assert(s.push(n).drop_last() =~= s);
}

fn char_is_ws(c: char) -> (b: bool)
    ensures
        b == is_ws(c),
{
    c == ' ' || c == '\t' || c == '\n' || c == '\r'
}

fn char_is_digit(c: char) -> (b: bool)
    ensures
        b == is_digit(c),
{
    '0' <= c && c <= '9'
}

/// A JSON parser that records, for each node, where it stands in the input.
pub struct JsonParser {}

impl JsonParser {
    /// A parser.
    pub fn new() -> (p: Self)
        ensures
            p == (JsonParser {  }),
    {
        JsonParser {  }
    }

    /// Parses `json_str`: a value with only whitespace around it. Gives
    /// `None` where the input is not accepted.
    pub fn try_parse(&self, json_str: &str) -> (res: Option<JsonNode>)
        ensures
            match spec_parse(json_str@) {
                Some(m) => res matches Some(n) && n.model() == m,
                None => res is None,
            },
    {
        let mut chars = CharCursor::new(json_str);
        self.skip_white_space(&mut chars);
        let node = match self.read_value(&mut chars) {
            Some(node) => node,
            None => {
                return None;
            },
        };
        self.skip_white_space(&mut chars);
        if let Some(_) = chars.next() {
            return None;
        }
        Some(node)
    }

    /// Parses `json_str`, which must be accepted (see `try_parse`).
    pub fn parse(&self, json_str: &str) -> (node: JsonNode)
        requires
            spec_parse(json_str@) is Some,
        ensures
            spec_parse(json_str@) == Some(node.model()),
    {
        self.try_parse(json_str).unwrap()
    }

    /// Moves past spaces, tabs, line feeds and carriage returns.
    pub fn skip_white_space(&self, chars: &mut CharCursor)
        requires
            old(chars).wf(),
        ensures
            final(chars).wf(),
            final(chars).text() == old(chars).text(),
            final(chars).pos() == skip_ws(old(chars).text(), old(chars).pos()),
    {
        proof {
            chars.lemma_bounds();
        }
        loop
            invariant
                chars.wf(),
                chars.text() == old(chars).text(),
                0 <= old(chars).pos() <= chars.pos() <= chars.text().len(),
                skip_ws(chars.text(), chars.pos()) == skip_ws(
                    old(chars).text(),
                    old(chars).pos(),
                ),
            decreases chars.text().len() - chars.pos(),
        {
            match chars.peek() {
                Some((_, c)) => {
                    if char_is_ws(c) {
                        let ghost j = chars.pos();
                        chars.next();
                        assert(skip_ws(chars.text(), j) == skip_ws(chars.text(), j + 1));
                    } else {
                        return ;
                    }
                },
                None => {
                    return ;
                },
            }
        }
    }

    /// A string (`spec_string`), or `None` where none stands at the cursor.
    fn read_string(&self, chars: &mut CharCursor) -> (res: Option<JsonNode>)
        requires
            old(chars).wf(),
        ensures
            final(chars).wf(),
            final(chars).text() == old(chars).text(),
            parsed_as(res, final(chars).pos(), spec_string(old(chars).text(), old(chars).pos())),
            res is Some ==> old(chars).pos() < final(chars).pos(),
    {
        let ghost s = chars.text();
        let ghost i0 = chars.pos();
        proof {
            chars.lemma_bounds();
        }
        if let Some((start, q)) = chars.next() {
            if q == '"' {
                let mut text = String::new();
                let mut escaped = false;
                proof {
                    lemma_string_close(s, i0 + 1, false);
                }
                loop
                    invariant
                        chars.wf(),
                        chars.text() == s,
                        s == old(chars).text(),
                        i0 == old(chars).pos(),
                        i0 < chars.pos() <= s.len(),
                        0 <= i0 < s.len(),
                        s[i0] == '"',
                        start == byte_offset(s, i0),
                        text@ == s.subrange(i0 + 1, chars.pos()),
                        string_close(s, i0 + 1, false) == string_close(
                            s,
                            chars.pos(),
                            escaped,
                        ),
                    decreases s.len() - chars.pos(),
                {
                    let ghost j = chars.pos();
                    match chars.next() {
                        Some((end, c)) => {
                            if escaped {
                                push_char(&mut text, c);
                                escaped = false;
                                assert(text@ =~= s.subrange(i0 + 1, chars.pos()));
                                continue ;
                            }
                            if c == '\\' {
                                escaped = true;
                                push_char(&mut text, c);
                                assert(text@ =~= s.subrange(i0 + 1, chars.pos()));
                                continue ;
                            }
                            if c != '"' {
                                push_char(&mut text, c);
                                assert(text@ =~= s.subrange(i0 + 1, chars.pos()));
                                continue ;
                            }
                            return Some(
                                JsonNode {
                                    kind: TokenKind::String,
                                    key: None,
                                    value: Some(JsonValue::String(text)),
                                    children: None,
                                    start,
                                    end,
                                },
                            );
                        },
                        None => {
                            return None;
                        },
                    }
                }
            } else {
                None
            }
        } else {
            None
        }
    }

    /// Reads `lit` character by character, as long as what was read begins it.
    /// Gives the text read and the offsets of its first and last bytes.
    fn read_literal(&self, chars: &mut CharCursor, lit: &[char]) -> (res: Option<(String, usize, usize)>)
        requires
            old(chars).wf(),
            1 <= lit@.len(),
            ascii_between(lit@, 0, lit@.len() as int),
        ensures
            final(chars).wf(),
            final(chars).text() == old(chars).text(),
            has_literal(old(chars).text(), old(chars).pos(), lit@) ==> (res matches Some((t, a, b))
                && t@ == lit@ && a == byte_offset(old(chars).text(), old(chars).pos()) && b
                == byte_offset(old(chars).text(), old(chars).pos() + lit@.len() - 1)
                && final(chars).pos() == old(chars).pos() + lit@.len()),
            !has_literal(old(chars).text(), old(chars).pos(), lit@) ==> res is None,
    {
        let ghost s = chars.text();
        let ghost i0 = chars.pos();
        proof {
            chars.lemma_bounds();
        }
        let mut text = String::new();
        let mut k: usize = 0;
        loop
            invariant
                chars.wf(),
                chars.text() == s,
                s == old(chars).text(),
                i0 == old(chars).pos(),
                0 <= i0 <= s.len(),
                k < lit@.len(),
                ascii_between(lit@, 0, lit@.len() as int),
                chars.pos() == i0 + k,
                i0 + k <= s.len(),
                text@ == lit@.take(k as int),
                s.subrange(i0, i0 + k) == lit@.take(k as int),
            decreases lit@.len() - k,
        {
            match chars.next() {
                Some((pos, c)) => {
                    push_char(&mut text, c);
                    if c != lit[k] {
                        assert(!has_literal(s, i0, lit@)) by {
                            if has_literal(s, i0, lit@) {
                                assert(s.subrange(i0, i0 + lit@.len())[k as int] == s[i0 + k]);
                            }
                        }
                        return None;
                    }
                    k = k + 1;
                    assert(text@ =~= lit@.take(k as int));
                    assert(s.subrange(i0, i0 + k) =~= lit@.take(k as int));
                    if k == lit.len() {
                        proof {
                            assert(lit@.take(k as int) =~= lit@);
                            assert(ascii_between(s, i0, i0 + k - 1)) by {
                                assert forall|m: int| i0 <= m < i0 + k - 1 implies (#[trigger] s[m]
                                    as u32) < 0x80 by {
                                    assert(s[m] == s.subrange(i0, i0 + k)[m - i0]);
                                    assert((lit@[m - i0] as u32) < 0x80);
                                }
                            }
                            lemma_byte_offset_ascii(s, i0, i0 + k - 1);
                        }
                        return Some((text, pos - (k - 1), pos));
                    }
                },
                None => {
                    return None;
                },
            }
        }
    }

    /// `null` (`spec_null`), or `None`.
    fn read_null(&self, chars: &mut CharCursor) -> (res: Option<JsonNode>)
        requires
            old(chars).wf(),
        ensures
            final(chars).wf(),
            final(chars).text() == old(chars).text(),
            parsed_as(res, final(chars).pos(), spec_null(old(chars).text(), old(chars).pos())),
            res is Some ==> old(chars).pos() < final(chars).pos(),
    {
        let lit: [char; 4] = ['n', 'u', 'l', 'l'];
        assert(lit@ =~= null_lit());
        match self.read_literal(chars, &lit) {
            Some((text, start, end)) => Some(
                JsonNode {
                    kind: TokenKind::Null,
                    key: None,
                    value: Some(JsonValue::String(text)),
                    children: None,
                    start,
                    end,
                },
            ),
            None => None,
        }
    }

    /// `true` or `false` (`spec_boolean`), or `None`.
    fn read_boolean(&self, chars: &mut CharCursor) -> (res: Option<JsonNode>)
        requires
            old(chars).wf(),
        ensures
            final(chars).wf(),
            final(chars).text() == old(chars).text(),
            parsed_as(res, final(chars).pos(), spec_boolean(old(chars).text(), old(chars).pos())),
            res is Some ==> old(chars).pos() < final(chars).pos(),
    {
        let ghost s = chars.text();
        let ghost i = chars.pos();
        let t: [char; 4] = ['t', 'r', 'u', 'e'];
        let f: [char; 5] = ['f', 'a', 'l', 's', 'e'];
        assert(t@ =~= true_lit());
        assert(f@ =~= false_lit());
        proof {
            if has_literal(s, i, true_lit()) {
                assert(s.subrange(i, i + 4)[0] == s[i]);
            }
            if has_literal(s, i, false_lit()) {
                assert(s.subrange(i, i + 5)[0] == s[i]);
            }
        }
        let read = match chars.peek() {
            Some((_, c)) => {
                if c == 't' {
                    self.read_literal(chars, &t)
                } else {
                    self.read_literal(chars, &f)
                }
            },
            None => None,
        };
        match read {
            Some((text, start, end)) => Some(
                JsonNode {
                    kind: TokenKind::Boolean,
                    key: None,
                    value: Some(JsonValue::String(text)),
                    children: None,
                    start,
                    end,
                },
            ),
            None => None,
        }
    }

    /// A number (`spec_number`), or `None` where it is malformed.
    fn read_number(&self, chars: &mut CharCursor) -> (res: Option<JsonNode>)
        requires
            old(chars).wf(),
        ensures
            final(chars).wf(),
            final(chars).text() == old(chars).text(),
            parsed_as(res, final(chars).pos(), spec_number(old(chars).text(), old(chars).pos())),
            res is Some ==> old(chars).pos() < final(chars).pos(),
    {
        let ghost s = chars.text();
        let ghost i0 = chars.pos();
        proof {
            chars.lemma_bounds();
        }
        match chars.next() {
            None => None,
            Some((start, first_char)) => {
                if !(first_char == '-' || char_is_digit(first_char)) {
                    return None;
                }
                let ghost lead_idx = if first_char == '-' {
                    i0 + 1
                } else {
                    i0
                };
                let mut text = String::new();
                push_char(&mut text, first_char);
                let mut has_dot = false;
                let mut last = first_char;
                let mut lead: Option<char> = if first_char == '-' {
                    None
                } else {
                    Some(first_char)
                };
                assert(text@ =~= s.subrange(i0, i0 + 1));
                loop
                    invariant
                        chars.wf(),
                        chars.text() == s,
                        s == old(chars).text(),
                        i0 == old(chars).pos(),
                        0 <= i0 < s.len(),
                        s.len() <= usize::MAX,
                        byte_offset(s, s.len() as int) <= usize::MAX,
                        i0 < chars.pos() <= s.len(),
                        s[i0] == first_char,
                        first_char == '-' || is_digit(first_char),
                        lead_idx == if s[i0] == '-' {
                            i0 + 1
                        } else {
                            i0
                        },
                        start == byte_offset(s, i0),
                        text@ == s.subrange(i0, chars.pos()),
                        last == s[chars.pos() - 1],
                        lead == if lead_idx < chars.pos() {
                            Some(s[lead_idx])
                        } else {
                            None::<char>
                        },
                        number_stop(s, i0, i0 + 1, false) == number_stop(
                            s,
                            i0,
                            chars.pos(),
                            has_dot,
                        ),
                        ascii_between(s, i0, chars.pos()),
                        forall|k: int| i0 <= k < chars.pos() ==> is_number_char(#[trigger] s[k]),
                    decreases s.len() - chars.pos(),
                {
                    let ghost j = chars.pos();
                    match chars.peek() {
                        None => {
                            if last != '.' && last != '-' {
                                proof {
                                    let sub = s.subrange(i0, j);
                                    lemma_byte_offset_total(sub);
                                    assert(ascii_between(sub, 0, sub.len() as int)) by {
                                        assert forall|m: int| 0 <= m < sub.len() implies (
                                        #[trigger] sub[m] as u32) < 0x80 by {
                                            assert(sub[m] == s[i0 + m]);
                                        }
                                    }
                                    lemma_byte_offset_ascii(sub, 0, sub.len() as int);
                                    lemma_byte_offset_ascii(s, i0, j);
                                    lemma_byte_offset_mono(s, j, s.len() as int);
                                }
                                let end = start + text.as_str().len() - 1;
                                return Some(
                                    JsonNode {
                                        kind: TokenKind::Number,
                                        key: None,
                                        value: Some(JsonValue::String(text)),
                                        children: None,
                                        start,
                                        end,
                                    },
                                );
                            } else {
                                return None;
                            }
                        },
                        Some((pos, c)) => {
                            if c == '.' {
                                if has_dot {
                                    return None;
                                }
                                if !char_is_digit(last) {
                                    return None;
                                }
                                chars.next();
                                has_dot = true;
                            } else if char_is_digit(c) {
                                if !has_dot {
                                    match lead {
                                        Some(z) => {
                                            if z == '0' {
                                                return None;
                                            }
                                        },
                                        None => {},
                                    }
                                }
                                chars.next();
                            } else {
                                if last == '.' || last == '-' {
                                    return None;
                                }
                                proof {
                                    lemma_byte_offset_mono(s, i0, j);
                                }
                                return Some(
                                    JsonNode {
                                        kind: TokenKind::Number,
                                        key: None,
                                        value: Some(JsonValue::String(text)),
                                        children: None,
                                        start,
                                        end: pos - 1,
                                    },
                                );
                            }
                            push_char(&mut text, c);
                            last = c;
                            if lead.is_none() {
                                lead = Some(c);
                            }
                            assert(text@ =~= s.subrange(i0, chars.pos()));
                        },
                    }
                }
            },
        }
    }

    /// An array (`spec_array`), or `None`.
    fn read_array(&self, chars: &mut CharCursor) -> (res: Option<JsonNode>)
        requires
            old(chars).wf(),
        ensures
            final(chars).wf(),
            final(chars).text() == old(chars).text(),
            parsed_as(res, final(chars).pos(), spec_array(old(chars).text(), old(chars).pos())),
            res is Some ==> old(chars).pos() < final(chars).pos(),
        decreases old(chars).text().len() - old(chars).pos(), 0int,
    {
        let ghost s = chars.text();
        let ghost i = chars.pos();
        proof {
            chars.lemma_bounds();
        }
        if let Some((start, open)) = chars.next() {
            if open == '[' {
                let mut node = JsonNode {
                    kind: TokenKind::Array,
                    key: None,
                    value: None,
                    children: Some(vec![]),
                    start,
                    end: start,
                };
                let mut children: Vec<JsonNode> = vec![];
                self.skip_white_space(chars);
                proof {
                    lemma_skip_ws(s, i + 1);
                }
                match chars.peek() {
                    Some((_, c)) => {
                        if c == ']' {
                            let (end, _) = chars.next().unwrap();
                            node.children = Some(children);
                            node.end = end;
                            assert(models_of(Seq::<JsonNode>::empty()) =~= Seq::empty());
                            return Some(node);
                        }
                        assert(models_of(children@) =~= Seq::empty());
                        if !self.read_items(chars, &mut children) {
                            return None;
                        }
                        let ghost p = chars.pos();
                        self.skip_white_space(chars);
                        proof {
                            lemma_skip_ws(s, p);
                        }
                        if let Some((end, close)) = chars.next() {
                            if close == ']' {
                                node.children = Some(children);
                                node.end = end;
                                return Some(node);
                            }
                        }
                        None
                    },
                    None => None,
                }
            } else {
                None
            }
        } else {
            None
        }
    }

    /// Reads values separated by commas, appending them to `children`;
    /// `false` where they are malformed.
    fn read_items(&self, chars: &mut CharCursor, children: &mut Vec<JsonNode>) -> (ok: bool)
        requires
            old(chars).wf(),
        ensures
            final(chars).wf(),
            final(chars).text() == old(chars).text(),
            ok == spec_items(old(chars).text(), old(chars).pos()) is Some,
            ok ==> (spec_items(old(chars).text(), old(chars).pos()) matches Some((nodes, q))
                && models_of(final(children)@) == models_of(old(children)@) + nodes
                && final(chars).pos() == q && old(chars).pos() < q),
        decreases old(chars).text().len() - old(chars).pos(), 2int,
    {
        let ghost s = chars.text();
        let ghost j = chars.pos();
        let ghost old_children = children@;
        proof {
            chars.lemma_bounds();
            lemma_skip_ws(s, j);
        }
        self.skip_white_space(chars);
        match self.read_value(chars) {
            None => false,
            Some(v) => {
                let ghost vm = v.model();
                let ghost p = chars.pos();
                children.push(v);
                proof {
                    lemma_models_push(old_children, v);
                }
                self.skip_white_space(chars);
                proof {
                    lemma_skip_ws(s, p);
                }
                match chars.peek() {
                    Some((_, c)) => {
                        if c == ',' {
                            chars.next();
                            let ok = self.read_items(chars, children);
                            proof {
                                if ok {
                                    let rest = spec_items(s, skip_ws(s, p) + 1).unwrap().0;
                                    assert(seq![vm] + rest =~= spec_items(s, j).unwrap().0);
                                }
                            }
                            return ok;
                        }
                        true
                    },
                    None => true,
                }
            },
        }
    }

    /// An object (`spec_object`), or `None`.
    fn read_object(&self, chars: &mut CharCursor) -> (res: Option<JsonNode>)
        requires
            old(chars).wf(),
        ensures
            final(chars).wf(),
            final(chars).text() == old(chars).text(),
            parsed_as(res, final(chars).pos(), spec_object(old(chars).text(), old(chars).pos())),
            res is Some ==> old(chars).pos() < final(chars).pos(),
        decreases old(chars).text().len() - old(chars).pos(), 0int,
    {
        let ghost s = chars.text();
        let ghost i = chars.pos();
        proof {
            chars.lemma_bounds();
        }
        if let Some((start, open)) = chars.next() {
            if open == '{' {
                let mut node = JsonNode {
                    kind: TokenKind::Object,
                    key: None,
                    value: None,
                    children: Some(vec![]),
                    start,
                    end: start,
                };
                let mut children: Vec<JsonNode> = vec![];
                self.skip_white_space(chars);
                proof {
                    lemma_skip_ws(s, i + 1);
                }
                match chars.peek() {
                    Some((_, c)) => {
                        if c == '}' {
                            let (end, _) = chars.next().unwrap();
                            node.children = Some(children);
                            node.end = end;
                            assert(models_of(Seq::<JsonNode>::empty()) =~= Seq::empty());
                            return Some(node);
                        }
                        assert(models_of(children@) =~= Seq::empty());
                        if !self.read_members(chars, &mut children) {
                            return None;
                        }
                        let ghost p = chars.pos();
                        self.skip_white_space(chars);
                        proof {
                            lemma_skip_ws(s, p);
                        }
                        if let Some((end, close)) = chars.next() {
                            if close == '}' {
                                node.children = Some(children);
                                node.end = end;
                                return Some(node);
                            }
                        }
                        None
                    },
                    None => None,
                }
            } else {
                None
            }
        } else {
            None
        }
    }

    /// Reads properties separated by commas, appending them to `children`;
    /// `false` where they are malformed.
    fn read_members(&self, chars: &mut CharCursor, children: &mut Vec<JsonNode>) -> (ok: bool)
        requires
            old(chars).wf(),
        ensures
            final(chars).wf(),
            final(chars).text() == old(chars).text(),
            ok == spec_properties(old(chars).text(), old(chars).pos()) is Some,
            ok ==> (spec_properties(old(chars).text(), old(chars).pos()) matches Some((nodes, q))
                && models_of(final(children)@) == models_of(old(children)@) + nodes
                && final(chars).pos() == q && old(chars).pos() < q),
        decreases old(chars).text().len() - old(chars).pos(), 2int,
    {
        let ghost s = chars.text();
        let ghost j = chars.pos();
        let ghost old_children = children@;
        proof {
            chars.lemma_bounds();
            lemma_skip_ws(s, j);
        }
        self.skip_white_space(chars);
        let start = match chars.peek() {
            Some((start, _)) => start,
            None => {
                return false;
            },
        };
        let key = match self.read_string(chars) {
            Some(key) => key,
            None => {
                return false;
            },
        };
        let ghost p = chars.pos();
        self.skip_white_space(chars);
        proof {
            lemma_skip_ws(s, p);
        }
        if let Some((_, colon)) = chars.next() {
            if colon == ':' {
                let ghost b = chars.pos();
                self.skip_white_space(chars);
                proof {
                    lemma_skip_ws(s, b);
                }
                let value = match self.read_value(chars) {
                    Some(value) => value,
                    None => {
                        return false;
                    },
                };
                let end = match chars.peek() {
                    Some((end, _)) => end,
                    None => {
                        return false;
                    },
                };
                let prop = JsonNode {
                    kind: TokenKind::Property,
                    key: Some(Box::new(key)),
                    value: Some(JsonValue::JsonNode(Box::new(value))),
                    children: None,
                    start,
                    end,
                };
                let ghost pm = prop.model();
                children.push(prop);
                proof {
                    lemma_models_push(old_children, prop);
                }
                match chars.peek() {
                    Some((_, c)) => {
                        if c == ',' {
                            let ghost q = chars.pos();
                            chars.next();
                            let ok = self.read_members(chars, children);
                            proof {
                                if ok {
                                    let rest = spec_properties(s, q + 1).unwrap().0;
                                    assert(seq![pm] + rest =~= spec_properties(s, j).unwrap().0);
                                }
                            }
                            return ok;
                        }
                        true
                    },
                    None => true,
                }
            } else {
                false
            }
        } else {
            false
        }
    }

    /// A value of any kind, chosen by its first character (`spec_value`), or
    /// `None`.
    fn read_value(&self, chars: &mut CharCursor) -> (res: Option<JsonNode>)
        requires
            old(chars).wf(),
        ensures
            final(chars).wf(),
            final(chars).text() == old(chars).text(),
            parsed_as(res, final(chars).pos(), spec_value(old(chars).text(), old(chars).pos())),
            res is Some ==> old(chars).pos() < final(chars).pos(),
        decreases old(chars).text().len() - old(chars).pos(), 1int,
    {
        proof {
            chars.lemma_bounds();
        }
        match chars.peek() {
            Some((_, c)) => {
                if c == '"' {
                    self.read_string(chars)
                } else if c == 'n' {
                    self.read_null(chars)
                } else if c == '{' {
                    self.read_object(chars)
                } else if c == '[' {
                    self.read_array(chars)
                } else if c == 't' || c == 'f' {
                    self.read_boolean(chars)
                } else if c == '-' || char_is_digit(c) {
                    self.read_number(chars)
                } else {
                    None
                }
            },
            None => None,
        }
    }
}

/// The readers of each construct, for a cursor at which that construct is
/// accepted (the fallible forms above serve `try_parse`).
impl JsonParser {
    /// A string that stands at the cursor: see `spec_string`.
    pub fn parse_string(&self, chars: &mut CharCursor) -> (node: JsonNode)
        requires
            old(chars).wf(),
            spec_string(old(chars).text(), old(chars).pos()) is Some,
        ensures
            final(chars).wf(),
            final(chars).text() == old(chars).text(),
            spec_string(old(chars).text(), old(chars).pos()) == Some((node.model(), final(chars).pos())),
    {
        self.read_string(chars).unwrap()
    }

    /// `null`, standing at the cursor.
    pub fn parse_null(&self, chars: &mut CharCursor) -> (node: JsonNode)
        requires
            old(chars).wf(),
            spec_null(old(chars).text(), old(chars).pos()) is Some,
        ensures
            final(chars).wf(),
            final(chars).text() == old(chars).text(),
            spec_null(old(chars).text(), old(chars).pos()) == Some((node.model(), final(chars).pos())),
    {
        self.read_null(chars).unwrap()
    }

    /// `true` or `false`, standing at the cursor.
    pub fn parse_boolean(&self, chars: &mut CharCursor) -> (node: JsonNode)
        requires
            old(chars).wf(),
            spec_boolean(old(chars).text(), old(chars).pos()) is Some,
        ensures
            final(chars).wf(),
            final(chars).text() == old(chars).text(),
            spec_boolean(old(chars).text(), old(chars).pos()) == Some((node.model(), final(chars).pos())),
    {
        self.read_boolean(chars).unwrap()
    }

    /// A number that stands at the cursor: see `spec_number`.
    pub fn parse_number(&self, chars: &mut CharCursor) -> (node: JsonNode)
        requires
            old(chars).wf(),
            spec_number(old(chars).text(), old(chars).pos()) is Some,
        ensures
            final(chars).wf(),
            final(chars).text() == old(chars).text(),
            spec_number(old(chars).text(), old(chars).pos()) == Some((node.model(), final(chars).pos())),
    {
        self.read_number(chars).unwrap()
    }

    /// An array that stands at the cursor: see `spec_array`.
    pub fn parse_array(&self, chars: &mut CharCursor) -> (node: JsonNode)
        requires
            old(chars).wf(),
            spec_array(old(chars).text(), old(chars).pos()) is Some,
        ensures
            final(chars).wf(),
            final(chars).text() == old(chars).text(),
            spec_array(old(chars).text(), old(chars).pos()) == Some((node.model(), final(chars).pos())),
    {
        self.read_array(chars).unwrap()
    }

    /// An object that stands at the cursor: see `spec_object`.
    pub fn parse_object(&self, chars: &mut CharCursor) -> (node: JsonNode)
        requires
            old(chars).wf(),
            spec_object(old(chars).text(), old(chars).pos()) is Some,
        ensures
            final(chars).wf(),
            final(chars).text() == old(chars).text(),
            spec_object(old(chars).text(), old(chars).pos()) == Some((node.model(), final(chars).pos())),
    {
        self.read_object(chars).unwrap()
    }

    /// A value that stands at the cursor, chosen by its first character.
    pub fn value(&self, chars: &mut CharCursor) -> (node: JsonNode)
        requires
            old(chars).wf(),
            spec_value(old(chars).text(), old(chars).pos()) is Some,
        ensures
            final(chars).wf(),
            final(chars).text() == old(chars).text(),
            spec_value(old(chars).text(), old(chars).pos()) == Some((node.model(), final(chars).pos())),
    {
        self.read_value(chars).unwrap()
    }

    /// Values separated by commas, read from the cursor and appended to `children`.
    pub fn items(&self, chars: &mut CharCursor, children: &mut Vec<JsonNode>)
        requires
            old(chars).wf(),
            spec_items(old(chars).text(), old(chars).pos()) is Some,
        ensures
            final(chars).wf(),
            final(chars).text() == old(chars).text(),
            spec_items(old(chars).text(), old(chars).pos()) matches Some((nodes, q))
                && models_of(final(children)@) == models_of(old(children)@) + nodes
                && final(chars).pos() == q,
    {
        self.read_items(chars, children);
    }

    /// Properties separated by commas, read from the cursor and appended to
    /// `children`.
    pub fn ky(&self, chars: &mut CharCursor, children: &mut Vec<JsonNode>)
        requires
            old(chars).wf(),
            spec_properties(old(chars).text(), old(chars).pos()) is Some,
        ensures
            final(chars).wf(),
            final(chars).text() == old(chars).text(),
            spec_properties(old(chars).text(), old(chars).pos()) matches Some((nodes, q))
                && models_of(final(children)@) == models_of(old(children)@) + nodes
                && final(chars).pos() == q,
    {
        self.read_members(chars, children);
    }
}

} // verus!
