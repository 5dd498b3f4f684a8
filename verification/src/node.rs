//! The parse tree and its mathematical model.
use vstd::prelude::*;

verus! {

/// What a node of the parse tree stands for.
#[derive(Debug, Clone, Copy, PartialEq, Eq, Structural)]
pub enum TokenKind {
    String,
    Number,
    Null,
    Boolean,
    Object,
    Array,
    Property,
}

/// The value of a node: the source text of a scalar, or the value of a property.
#[derive(Debug, PartialEq)]
pub enum JsonValue {
    String(String),
    JsonNode(Box<JsonNode>),
}

/// A node of the parse tree. `start` and `end` are the byte offsets, in the
/// input, of the first and of the last byte of the node.
#[derive(Debug, PartialEq)]
pub struct JsonNode {
    pub kind: TokenKind,
    pub key: Option<Box<JsonNode>>,
    pub value: Option<JsonValue>,
    pub children: Option<Vec<JsonNode>>,
    pub start: usize,
    pub end: usize,
}

/// Model of a [`JsonValue`].
pub enum ValueModel {
    Text(Seq<char>),
    Node(Box<NodeModel>),
}

/// Model of a [`JsonNode`]: the same shape, with texts as character
/// sequences and offsets as integers.
pub struct NodeModel {
    pub kind: TokenKind,
    pub key: Option<Box<NodeModel>>,
    pub value: Option<ValueModel>,
    pub children: Option<Seq<NodeModel>>,
    pub start: int,
    pub end: int,
}

impl JsonNode {
    /// The model of this node.
    pub open spec fn model(self) -> NodeModel
        decreases self,
    {
        NodeModel {
            kind: self.kind,
            key: match self.key {
                Some(k) => Some(Box::new(k.model())),
                None => None,
            },
            value: match self.value {
                Some(JsonValue::String(t)) => Some(ValueModel::Text(t@)),
                Some(JsonValue::JsonNode(n)) => Some(ValueModel::Node(Box::new(n.model()))),
                None => None,
            },
            children: match self.children {
                Some(v) => Some(models_of(v@)),
                None => None,
            },
            start: self.start as int,
            end: self.end as int,
        }
    }
}

impl JsonValue {
    /// The model of this value.
    pub open spec fn model(self) -> ValueModel {
        match self {
            JsonValue::String(t) => ValueModel::Text(t@),
            JsonValue::JsonNode(n) => ValueModel::Node(Box::new(n.model())),
        }
    }
}

/// The models of a sequence of nodes.
pub open spec fn models_of(s: Seq<JsonNode>) -> Seq<NodeModel>
    decreases s,
{
    if s.len() == 0 {
        Seq::empty()
    } else {
        models_of(s.drop_last()).push(s.last().model())
    }
}

impl JsonNode {
    fn copy_node(&self) -> (c: JsonNode)
        ensures
            c.model() == self.model(),
        decreases self, 1int,
    {
        let key = match &self.key {
            Some(k) => Some(Box::new(k.copy_node())),
            None => None,
        };
        let value = match &self.value {
            Some(JsonValue::String(t)) => Some(JsonValue::String(t.clone())),
            Some(JsonValue::JsonNode(n)) => Some(JsonValue::JsonNode(Box::new(n.copy_node()))),
            None => None,
        };
        let children = match &self.children {
            Some(v) => Some(self.copy_children(v)),
            None => None,
        };
        JsonNode { kind: self.kind, key, value, children, start: self.start, end: self.end }
    }

    fn copy_children(&self, v: &Vec<JsonNode>) -> (c: Vec<JsonNode>)
        requires
            self.children == Some(*v),
        ensures
            models_of(c@) == models_of(v@),
        decreases self, 0int,
    {
        let mut c: Vec<JsonNode> = Vec::new();
        let mut i: usize = 0;
        while i < v.len()
            invariant
                self.children == Some(*v),
                i <= v@.len(),
                models_of(c@) == models_of(v@.take(i as int)),
            decreases v@.len() - i,
        {
            proof {
                assert(decreases_to!(self.children => self.children->0));
                assert(decreases_to!(self => v@[i as int]));
            }
            let n = v[i].copy_node();
            proof {
                lemma_models_of(c@);
                lemma_models_of(c@.push(n));
                lemma_models_of(v@.take(i as int));
                lemma_models_of(v@.take(i + 1));
                assert forall|k: int| 0 <= k < i + 1 implies #[trigger] models_of(c@.push(n))[k]
                    == models_of(v@.take(i + 1))[k] by {
                    if k < i {
                        assert(models_of(c@)[k] == models_of(v@.take(i as int))[k]);
                        assert(c@.push(n)[k] == c@[k]);
                        assert(v@.take(i + 1)[k] == v@.take(i as int)[k]);
                    }
                }
                assert(models_of(c@.push(n)) =~= models_of(v@.take(i + 1)));
            }
            c.push(n);
            i = i + 1;
        }
        assert(v@.take(v@.len() as int) =~= v@);
        c
    }
}

impl Clone for JsonNode {
    fn clone(&self) -> (c: Self)
        ensures
            c.model() == self.model(),
    {
        self.copy_node()
    }
}

impl Clone for JsonValue {
    fn clone(&self) -> (c: Self)
        ensures
            c.model() == self.model(),
    {
        match self {
            JsonValue::String(t) => JsonValue::String(t.clone()),
            JsonValue::JsonNode(n) => JsonValue::JsonNode(Box::new(n.copy_node())),
        }
    }
}

/// The models of a sequence of nodes, one by one.
pub proof fn lemma_models_of(s: Seq<JsonNode>)
    ensures
        models_of(s).len() == s.len(),
        forall|k: int| 0 <= k < s.len() ==> #[trigger] models_of(s)[k] == s[k].model(),
    decreases s.len(),
{
    if s.len() > 0 {
        lemma_models_of(s.drop_last());
    }
}

} // verus!
