//! The text form of a parse tree: `{ kind: .., key: .., value: .., children: [..], start: .., end: .. }`.
use vstd::prelude::*;
use crate::text::push_char;
use crate::node::{
    JsonNode, JsonValue, NodeModel, TokenKind, ValueModel, lemma_models_of, models_of,
};

verus! {

pub open spec fn kind_name(k: TokenKind) -> Seq<char> {
    match k {
        TokenKind::Array => "Array"@,
        TokenKind::String => "String"@,
        TokenKind::Number => "Number"@,
        TokenKind::Null => "Null"@,
        TokenKind::Boolean => "Boolean"@,
        TokenKind::Object => "Object"@,
        TokenKind::Property => "Property"@,
    }
}

pub open spec fn digit_char(d: nat) -> char {
    if d == 0 {
        '0'
    } else if d == 1 {
        '1'
    } else if d == 2 {
        '2'
    } else if d == 3 {
        '3'
    } else if d == 4 {
        '4'
    } else if d == 5 {
        '5'
    } else if d == 6 {
        '6'
    } else if d == 7 {
        '7'
    } else if d == 8 {
        '8'
    } else {
        '9'
    }
}

/// Decimal digits of `n`.
pub open spec fn decimal(n: nat) -> Seq<char>
    decreases n,
{
    if n < 10 {
        seq![digit_char(n)]
    } else {
        decimal(n / 10).push(digit_char(n % 10))
    }
}

/// Text form of a node.
pub open spec fn node_text(m: NodeModel) -> Seq<char>
    decreases m, 1int,
{
    "{ kind: "@ + kind_name(m.kind) + ", "@ + key_text(m) + value_part_text(m) + children_text(m)
        + span_text(m)
}

/// `key: ..., ` for a node with a key.
pub open spec fn key_text(m: NodeModel) -> Seq<char>
    decreases m, 0int,
{
    match m.key {
        Some(k) => "key: "@ + node_text(*k) + ", "@,
        None => Seq::empty(),
    }
}

/// `value: ..., ` for a node with a value.
pub open spec fn value_part_text(m: NodeModel) -> Seq<char>
    decreases m, 0int,
{
    match m.value {
        Some(ValueModel::Text(t)) => "value: "@ + t + ", "@,
        Some(ValueModel::Node(n)) => "value: "@ + node_text(*n) + ", "@,
        None => Seq::empty(),
    }
}

/// `children: [...], ` for a node with children.
pub open spec fn children_text(m: NodeModel) -> Seq<char>
    decreases m, 0int,
{
    match m.children {
        Some(cs) => "children: ["@ + list_text(cs) + "], "@,
        None => Seq::empty(),
    }
}

/// `start: ..., end: ... }`.
pub open spec fn span_text(m: NodeModel) -> Seq<char> {
    "start: "@ + decimal(m.start as nat) + ", "@ + "end: "@ + decimal(m.end as nat) + " }"@
}

/// Text forms of nodes, separated by `, `.
pub open spec fn list_text(cs: Seq<NodeModel>) -> Seq<char>
    decreases cs, 1int,
{
    if cs.len() == 0 {
        Seq::empty()
    } else if cs.len() == 1 {
        node_text(cs[0])
    } else {
        list_text(cs.drop_last()) + ", "@ + node_text(cs.last())
    }
}

/// Text form of a value: the text itself, or the text form of the node.
pub open spec fn value_text(v: ValueModel) -> Seq<char> {
    match v {
        ValueModel::Text(t) => t,
        ValueModel::Node(n) => node_text(*n),
    }
}

fn digit_of(d: usize) -> (c: char)
    requires
        d < 10,
    ensures
        c == digit_char(d as nat),
{
    if d == 0 {
        '0'
    } else if d == 1 {
        '1'
    } else if d == 2 {
        '2'
    } else if d == 3 {
        '3'
    } else if d == 4 {
        '4'
    } else if d == 5 {
        '5'
    } else if d == 6 {
        '6'
    } else if d == 7 {
        '7'
    } else if d == 8 {
        '8'
    } else {
        '9'
    }
}

fn push_decimal(out: &mut String, n: usize)
    ensures
        final(out)@ == old(out)@ + decimal(n as nat),
    decreases n,
{
    if n >= 10 {
        push_decimal(out, n / 10);
    }
    push_char(out, digit_of(n % 10));
}

fn push_kind(out: &mut String, k: TokenKind)
    ensures
        final(out)@ == old(out)@ + kind_name(k),
{
    match k {
        TokenKind::Array => out.append("Array"),
        TokenKind::String => out.append("String"),
        TokenKind::Number => out.append("Number"),
        TokenKind::Null => out.append("Null"),
        TokenKind::Boolean => out.append("Boolean"),
        TokenKind::Object => out.append("Object"),
        TokenKind::Property => out.append("Property"),
    }
}

impl JsonNode {
    fn write_to(&self, out: &mut String)
        ensures
            final(out)@ == old(out)@ + node_text(self.model()),
        decreases self, 2int,
    {
        let ghost m = self.model();
        let ghost start_out = out@;
        out.append("{ kind: ");
        push_kind(out, self.kind);
        out.append(", ");
        self.write_key(out);
        self.write_value(out);
        if let Some(children) = &self.children {
            out.append("children: [");
            self.write_children(children, out);
            out.append("], ");
        }
        let ghost after_children = out@;
        out.append("start: ");
        push_decimal(out, self.start);
        out.append(", ");
        out.append("end: ");
        push_decimal(out, self.end);
        out.append(" }");
        assert(out@ =~= after_children + span_text(m));
        assert(out@ =~= start_out + node_text(m));
    }

    fn write_key(&self, out: &mut String)
        ensures
            final(out)@ == old(out)@ + key_text(self.model()),
        decreases self, 1int,
    {
        if let Some(key) = &self.key {
            out.append("key: ");
            key.write_to(out);
            out.append(", ");
        }
    }

    fn write_value(&self, out: &mut String)
        ensures
            final(out)@ == old(out)@ + value_part_text(self.model()),
        decreases self, 1int,
    {
        if let Some(value) = &self.value {
            out.append("value: ");
            match value {
                JsonValue::String(t) => out.append(t.as_str()),
                JsonValue::JsonNode(n) => n.write_to(out),
            }
            out.append(", ");
        }
    }

    /// Writes the text forms of `children`, the children of this node.
    fn write_children(&self, children: &Vec<JsonNode>, out: &mut String)
        requires
            self.children == Some(*children),
        ensures
            final(out)@ == old(out)@ + list_text(models_of(children@)),
        decreases self, 1int,
    {
        let ghost before_items = out@;
        let mut index: usize = 0;
        while index < children.len()
            invariant
                self.children == Some(*children),
                index <= children@.len(),
                out@ == before_items + list_text(models_of(children@.take(index as int))),
            decreases children@.len() - index,
        {
            let ghost before = out@;
            if index > 0 {
                out.append(", ");
            }
            proof {
                assert(decreases_to!(self.children => self.children->0));
                assert(decreases_to!(self => children@[index as int]));
            }
            children[index].write_to(out);
            proof {
                let prev = children@.take(index as int);
                let next = children@.take(index + 1);
                assert(next.drop_last() =~= prev);
                lemma_models_of(prev);
                lemma_models_of(next);
                assert(models_of(next).drop_last() =~= models_of(prev));
                assert(out@ =~= before_items + list_text(models_of(next)));
            }
            index = index + 1;
        }
        assert(children@.take(children@.len() as int) =~= children@);
    }

    /// The text form of this node (see `node_text`).
    pub fn to_string(&self) -> (s: String)
        ensures
            s@ == node_text(self.model()),
    {
        let mut out = String::new();
        self.write_to(&mut out);
        out
    }
}

impl JsonValue {
    /// The text form of this value: its text, or the text form of its node.
    pub fn to_string(&self) -> (s: String)
        ensures
            s@ == value_text(self.model()),
    {
        match self {
            JsonValue::String(t) => t.clone(),
            JsonValue::JsonNode(n) => n.to_string(),
        }
    }
}

} // verus!
