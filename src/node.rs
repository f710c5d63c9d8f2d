//! The source tree: nodes with a name, ordered entries and optional children.
use vstd::prelude::*;
use crate::text::{chars_of, decimal, int_text, push_char, same_text};

verus! {

/// A scalar held by an entry.
#[derive(Debug)]
pub enum Value {
    String(String),
    Integer(i128),
    /// A floating-point number, held as the text its source format renders.
    Float(String),
    /// A ready-made attribute fragment, such as forwarded properties: written
    /// among the attributes as it expands, never taken as inline text.
    Attrs(String),
    Bool(bool),
    Null,
}

/// `#true`, `#false` and `#null`, the way the source format writes them.
pub open spec fn keyword_text(v: Value) -> Seq<char> {
    match v {
        Value::Bool(true) => seq!['#', 't', 'r', 'u', 'e'],
        Value::Bool(false) => seq!['#', 'f', 'a', 'l', 's', 'e'],
        _ => seq!['#', 'n', 'u', 'l', 'l'],
    }
}

impl Value {
    /// The text of the value: a string's content, or the source rendering of
    /// any other scalar.
    pub open spec fn text(&self) -> Seq<char> {
        match self {
            Value::String(s) => s@,
            Value::Integer(i) => decimal(*i as int),
            Value::Float(t) => t@,
            Value::Attrs(t) => t@,
            _ => keyword_text(*self),
        }
    }

    /// Returns the text of the value as a new string.
    pub fn as_str(&self) -> (r: String)
        ensures
            r@ == self.text(),
    {
        match self {
            Value::String(s) => s.clone(),
            Value::Integer(i) => int_text(*i),
            Value::Float(t) => t.clone(),
            Value::Attrs(t) => t.clone(),
            Value::Bool(true) => literal_text(&['#', 't', 'r', 'u', 'e']),
            Value::Bool(false) => literal_text(&['#', 'f', 'a', 'l', 's', 'e']),
            Value::Null => literal_text(&['#', 'n', 'u', 'l', 'l']),
        }
    }

    /// Returns the content if this is a string.
    pub fn as_string(&self) -> (r: Option<&String>)
        ensures
            r is Some <==> self is String,
            r matches Some(s) ==> *self == Value::String(*s),
    {
        match self {
            Value::String(s) => Some(s),
            _ => None,
        }
    }

    /// An equal copy.
    pub fn copy(&self) -> (r: Value)
        ensures
            r == *self,
    {
        match self {
            Value::String(s) => Value::String(s.clone()),
            Value::Integer(i) => Value::Integer(*i),
            Value::Float(t) => Value::Float(t.clone()),
            Value::Attrs(t) => Value::Attrs(t.clone()),
            Value::Bool(b) => Value::Bool(*b),
            Value::Null => Value::Null,
        }
    }
}

/// Builds a string from a short array of characters.
fn literal_text(cs: &[char]) -> (r: String)
    ensures
        r@ == cs@,
{
    let mut out = String::new();
    let mut i: usize = 0;
    while i < cs.len()
        invariant
            i <= cs.len(),
            out@ == cs@.subrange(0, i as int),
        decreases cs.len() - i,
    {
        push_char(&mut out, cs[i]);
        i = i + 1;
        assert(out@ =~= cs@.subrange(0, i as int));
    }
    assert(cs@.subrange(0, i as int) =~= cs@);
    out
}

/// One entry of a node: a positional argument (no name) or a keyed property.
#[derive(Debug)]
pub struct Entry {
    pub name: Option<String>,
    pub value: Value,
}

impl Entry {
    /// Whether this entry can stand as a node's inline text.
    pub fn is_text(&self) -> (r: bool)
        ensures
            r == is_text_entry(*self),
    {
        self.name.is_none() && !matches!(self.value, Value::Attrs(_))
    }

    /// An equal copy.
    pub fn copy(&self) -> (r: Entry)
        ensures
            r == *self,
    {
        Entry {
            name: match &self.name {
                Some(n) => Some(n.clone()),
                None => None,
            },
            value: self.value.copy(),
        }
    }
}

/// A positional entry that can stand as a node's inline text: any but an
/// attribute fragment.
pub open spec fn is_text_entry(e: Entry) -> bool {
    e.name is None && !(e.value is Attrs)
}

/// Whether the entry is a property named `key`.
pub open spec fn has_name(e: Entry, key: Seq<char>) -> bool {
    e.name matches Some(n) && n@ == key
}

/// What an argument or property is bound as when a template is called.
#[derive(Debug)]
pub enum Key {
    /// The n-th positional argument, counted from zero.
    Arg(usize),
    /// A property, by its name.
    Prop(String),
}

impl Key {
    /// The variable name for the key: the decimal index of an argument, the
    /// name of a property.
    pub open spec fn name(&self) -> Seq<char> {
        match self {
            Key::Arg(n) => decimal(*n as int),
            Key::Prop(s) => s@,
        }
    }

    /// Returns the variable name for the key.
    pub fn to_name(&self) -> (r: String)
        ensures
            r@ == self.name(),
    {
        match self {
            Key::Arg(n) => int_text(*n as i128),
            Key::Prop(s) => s.clone(),
        }
    }
}

/// The values of the positional entries, in order.
pub open spec fn positional(es: Seq<Entry>) -> Seq<Value>
    decreases es.len(),
{
    if es.len() == 0 {
        Seq::empty()
    } else if es.last().name is None {
        positional(es.drop_last()).push(es.last().value)
    } else {
        positional(es.drop_last())
    }
}

/// Every entry with its key: properties by name, arguments numbered from zero
/// in their order among the arguments.
pub open spec fn keyed(es: Seq<Entry>) -> Seq<(Key, Value)>
    decreases es.len(),
{
    if es.len() == 0 {
        Seq::empty()
    } else {
        let key = match es.last().name {
            Some(n) => Key::Prop(n),
            None => Key::Arg(positional(es.drop_last()).len() as usize),
        };
        keyed(es.drop_last()).push((key, es.last().value))
    }
}

/// The command a node name stands for: the name without its leading `@`.
pub open spec fn command_of(name: Seq<char>) -> Option<Seq<char>> {
    if name.len() > 0 && name[0] == '@' {
        Some(name.drop_first())
    } else {
        None
    }
}

/// The model of a node: its name, entries and children, and the whitespace
/// that led it in the source.
pub struct NodeView {
    pub name: Seq<char>,
    pub entries: Seq<Entry>,
    pub children: Option<Seq<NodeView>>,
    pub leading: Seq<char>,
}

/// A node of the source tree.
#[derive(Debug)]
pub struct Node {
    pub name: String,
    pub entries: Vec<Entry>,
    pub children: Option<Vec<Node>>,
    /// The whitespace before the node in its source, used when the output
    /// follows the source's indentation.
    pub leading: String,
}

/// The models of a list of nodes.
pub open spec fn view_nodes(ns: Seq<Node>) -> Seq<NodeView> {
    Seq::new(ns.len(), |i: int| ns[i]@)
}

/// Whether `n` or any node below it is the command `cmd`.
pub open spec fn contains_command(n: NodeView, cmd: Seq<char>) -> bool
    decreases n, 0nat,
{
    command_of(n.name) == Some(cmd) || (n.children is Some && any_contains_command(
        n.children->0,
        cmd,
        n.children->0.len(),
    ))
}

/// Whether one of the first `k` nodes of `ns`, or a node below it, is the
/// command `cmd`.
pub open spec fn any_contains_command(ns: Seq<NodeView>, cmd: Seq<char>, k: nat) -> bool
    decreases ns, k,
{
    if k == 0 || k > ns.len() {
        false
    } else {
        any_contains_command(ns, cmd, (k - 1) as nat) || contains_command(ns[k - 1], cmd)
    }
}

/// A match among the first `k` nodes is a match among the first `m`, for
/// `k <= m`.
pub proof fn lemma_any_contains_grows(ns: Seq<NodeView>, cmd: Seq<char>, k: nat, m: nat)
    requires
        k <= m <= ns.len(),
        any_contains_command(ns, cmd, k),
    ensures
        any_contains_command(ns, cmd, m),
    decreases m - k,
{
    if k < m {
        lemma_any_contains_grows(ns, cmd, k, (m - 1) as nat);
    }
}

impl View for Node {
    type V = NodeView;

    open spec fn view(&self) -> NodeView {
        self.tree()
    }
}

impl Node {
    /// The model of the subtree rooted at this node.
    pub open spec fn tree(&self) -> NodeView
        decreases self,
    {
        NodeView {
            name: self.name@,
            entries: self.entries@,
            children: if self.children is Some {
                Some(
                    Seq::new(
                        self.children->0.len() as nat,
                        |i: int|
                            if 0 <= i < self.children->0.len() {
                                self.children->0[i].tree()
                            } else {
                                arbitrary()
                            },
                    ),
                )
            } else {
                None
            },
            leading: self.leading@,
        }
    }
}

/// Copies each entry of a list.
pub fn copy_entries(es: &Vec<Entry>) -> (r: Vec<Entry>)
    ensures
        r@ == es@,
{
    let mut out: Vec<Entry> = Vec::new();
    let mut i: usize = 0;
    while i < es.len()
        invariant
            i <= es.len(),
            out@ == es@.subrange(0, i as int),
        decreases es.len() - i,
    {
        out.push(es[i].copy());
        i = i + 1;
        assert(out@ =~= es@.subrange(0, i as int));
    }
    assert(es@.subrange(0, i as int) =~= es@);
    out
}

impl Node {
    /// The children of the model are the models of the children.
    pub proof fn lemma_children_view(&self)
        ensures
            self.children matches Some(c) ==> self@.children == Some(view_nodes(c@)),
            self.children is None ==> self@.children is None,
    {
        assert(self@.name == self.name@);
        if let Some(c) = &self.children {
            assert(self@.children is Some);
            assert(self@.children->0.len() == c.len());
            assert forall|i: int| 0 <= i < c.len() implies self@.children->0[i] == view_nodes(c@)[i] by {
                assert(self@.children->0[i] == c[i]@);
            }
            assert(self@.children->0 =~= view_nodes(c@));
        }
    }

    /// A node with a name and nothing else.
    pub fn new(name: String) -> (r: Node)
        ensures
            r@.name == name@,
            r@.entries.len() == 0,
            r@.children is None,
            r@.leading.len() == 0,
    {
        Node { name, entries: Vec::new(), children: None, leading: String::new() }
    }

    /// An equal copy of the whole subtree.
    pub fn copy(&self) -> (r: Node)
        ensures
            r@ == self@,
        decreases self,
    {
        let children = match &self.children {
            Some(c) => Some(copy_nodes_of(self, c)),
            None => None,
        };
        let r = Node {
            name: self.name.clone(),
            entries: copy_entries(&self.entries),
            children,
            leading: self.leading.clone(),
        };
        proof {
            if self.children is Some {
                assert(r@.children->0 =~= self@.children->0);
            }
        }
        r
    }

    /// The command this node stands for, if its name starts with `@`.
    pub fn command_name(&self) -> (r: Option<String>)
        ensures
            r matches Some(s) ==> command_of(self.name@) == Some(s@),
            r is None ==> command_of(self.name@) is None,
    {
        let cs = chars_of(self.name.as_str());
        if cs.len() == 0 || cs[0] != '@' {
            return None;
        }
        let mut out = String::new();
        let mut i: usize = 1;
        while i < cs.len()
            invariant
                1 <= i <= cs.len(),
                out@ == cs@.subrange(1, i as int),
            decreases cs.len() - i,
        {
            push_char(&mut out, cs[i]);
            i = i + 1;
            assert(out@ =~= cs@.subrange(1, i as int));
        }
        assert(out@ =~= self.name@.drop_first());
        Some(out)
    }

    /// Whether this node is the command `cmd`.
    pub fn is_command(&self, cmd: &str) -> (r: bool)
        ensures
            r == (command_of(self.name@) == Some(cmd@)),
    {
        match self.command_name() {
            Some(c) => same_text(c.as_str(), cmd),
            None => false,
        }
    }

    /// The values of the positional entries, in order.
    pub fn args(&self) -> (r: Vec<Value>)
        ensures
            r@ == positional(self.entries@),
    {
        let mut out: Vec<Value> = Vec::new();
        let mut i: usize = 0;
        while i < self.entries.len()
            invariant
                i <= self.entries.len(),
                out@ == positional(self.entries@.subrange(0, i as int)),
            decreases self.entries.len() - i,
        {
            let ghost pre = self.entries@.subrange(0, i as int);
            assert(self.entries@.subrange(0, i + 1).drop_last() =~= pre);
            if self.entries[i].name.is_none() {
                out.push(self.entries[i].value.copy());
            }
            i = i + 1;
        }
        assert(self.entries@.subrange(0, i as int) =~= self.entries@);
        out
    }

    /// The `i`-th positional value.
    pub fn arg(&self, i: usize) -> (r: Option<Value>)
        ensures
            r matches Some(v) ==> i < positional(self.entries@).len() && v == positional(self.entries@)[i as int],
            r is None ==> i >= positional(self.entries@).len(),
    {
        let args = self.args();
        if i < args.len() {
            Some(args[i].copy())
        } else {
            None
        }
    }

    /// Every entry with its key, in order.
    pub fn keyed_entries(&self) -> (r: Vec<(Key, Value)>)
        ensures
            r@ == keyed(self.entries@),
    {
        let mut out: Vec<(Key, Value)> = Vec::new();
        let mut count: usize = 0;
        let mut i: usize = 0;
        while i < self.entries.len()
            invariant
                i <= self.entries.len(),
                count <= i,
                count == positional(self.entries@.subrange(0, i as int)).len(),
                out@ == keyed(self.entries@.subrange(0, i as int)),
            decreases self.entries.len() - i,
        {
            let ghost pre = self.entries@.subrange(0, i as int);
            assert(self.entries@.subrange(0, i + 1).drop_last() =~= pre);
            let key = match &self.entries[i].name {
                Some(n) => Key::Prop(n.clone()),
                None => {
                    let k = Key::Arg(count);
                    count = count + 1;
                    k
                },
            };
            out.push((key, self.entries[i].value.copy()));
            i = i + 1;
        }
        assert(self.entries@.subrange(0, i as int) =~= self.entries@);
        out
    }

    /// The value of the last property named `key`.
    pub fn prop(&self, key: &str) -> (r: Option<Value>)
        ensures
            r matches Some(v) ==> exists|j: int|
                0 <= j < self.entries.len() && has_name(self.entries@[j], key@)
                    && self.entries@[j].value == v,
            r is None ==> forall|j: int|
                0 <= j < self.entries.len() ==> !(has_name(self.entries@[j], key@)),
    {
        let mut found: Option<Value> = None;
        let mut i: usize = 0;
        while i < self.entries.len()
            invariant
                i <= self.entries.len(),
                found matches Some(v) ==> exists|j: int|
                    0 <= j < i && has_name(self.entries@[j], key@)
                        && self.entries@[j].value == v,
                found is None ==> forall|j: int|
                    0 <= j < i ==> !(has_name(self.entries@[j], key@)),
            decreases self.entries.len() - i,
        {
            if let Some(n) = &self.entries[i].name {
                if same_text(n.as_str(), key) {
                    found = Some(self.entries[i].value.copy());
                }
            }
            i = i + 1;
        }
        found
    }

    /// Whether this node or any node below it is the command `cmd`.
    pub fn find_command(&self, cmd: &str) -> (r: bool)
        ensures
            r == contains_command(self@, cmd@),
        decreases self,
    {
        if self.is_command(cmd) {
            return true;
        }
        match &self.children {
            None => false,
            Some(cs) => {
                let mut i: usize = 0;
                proof { self.lemma_children_view(); }
                while i < cs.len()
                    invariant
                        i <= cs.len(),
                        self.children == Some(*cs),
                        self@.children == Some(view_nodes(cs@)),
                        command_of(self@.name) != Some(cmd@),
                        !any_contains_command(view_nodes(cs@), cmd@, i as nat),
                    decreases cs.len() - i,
                {
                    proof {
                        broadcast use vstd::std_specs::vec::axiom_vec_index_decreases;
                        assert(decreases_to!(self => self.children));
                        assert(decreases_to!(self.children => self.children->0));
                        assert(decreases_to!(self.children->0 => cs[i as int]));
                    }
                    let found = cs[i].find_command(cmd);
                    assert(view_nodes(cs@)[i as int] == cs[i as int]@);
                    if found {
                        proof {
                            lemma_any_contains_grows(view_nodes(cs@), cmd@, (i + 1) as nat, cs.len() as nat);
                        }
                        return true;
                    }
                    i = i + 1;
                }
                false
            },
        }
    }
}

/// Copies the children `c` of `parent`, node by node.
fn copy_nodes_of(parent: &Node, c: &Vec<Node>) -> (r: Vec<Node>)
    requires
        parent.children == Some(*c),
    ensures
        r.len() == c.len(),
        forall|j: int| 0 <= j < c.len() ==> r[j]@ == c[j]@,
    decreases parent, 0int,
{
    let mut out: Vec<Node> = Vec::new();
    let mut i: usize = 0;
    while i < c.len()
        invariant
            i <= c.len(),
            parent.children == Some(*c),
            out.len() == i,
            forall|j: int| 0 <= j < i ==> out[j]@ == c[j]@,
        decreases c.len() - i,
    {
        proof {
            broadcast use vstd::std_specs::vec::axiom_vec_index_decreases;
            assert(decreases_to!(parent => parent.children));
            assert(decreases_to!(parent.children => parent.children->0));
            assert(decreases_to!(parent.children->0 => c[i as int]));
        }
        out.push(c[i].copy());
        i = i + 1;
    }
    out
}

/// Copies a list of nodes.
pub fn copy_nodes(c: &Vec<Node>) -> (r: Vec<Node>)
    ensures
        view_nodes(r@) == view_nodes(c@),
{
    let mut out: Vec<Node> = Vec::new();
    let mut i: usize = 0;
    while i < c.len()
        invariant
            i <= c.len(),
            out.len() == i,
            forall|j: int| 0 <= j < i ==> out[j]@ == c[j]@,
        decreases c.len() - i,
    {
        out.push(c[i].copy());
        i = i + 1;
    }
    assert(view_nodes(out@) =~= view_nodes(c@));
    out
}

} // verus!
