//! Templates: registration, `@children` splicing and argument binding.
use vstd::prelude::*;
use crate::error::{err, Error};
use crate::node::{
    command_of, copy_entries, copy_nodes, has_name, keyed, view_nodes, Entry, Key, Node, NodeView,
    Value, contains_command,
};
use crate::text::{append_str, push_char, same_text};
use crate::vars::{expand_text, Vars};

verus! {

/// `children`, the command that marks where a call's children go.
pub open spec fn children_cmd() -> Seq<char> {
    seq!['c', 'h', 'i', 'l', 'd', 'r', 'e', 'n']
}

/// `@params`, the name of the node that declares a template's parameters.
pub open spec fn params_name() -> Seq<char> {
    seq!['@', 'p', 'a', 'r', 'a', 'm', 's']
}

/// The parameter an entry of `@params` declares: a property names a
/// parameter with a default, an argument names one without.
pub open spec fn param_of(e: Entry) -> (Seq<char>, Option<Value>) {
    match e.name {
        Some(n) => (n@, Some(e.value)),
        None => (e.value.text(), None),
    }
}

/// The index of the first node named `key` at or after `i`.
pub open spec fn first_from(ns: Seq<NodeView>, key: Seq<char>, i: int) -> Option<int>
    decreases ns.len() - i,
{
    if i < 0 || i >= ns.len() {
        None
    } else if ns[i].name == key {
        Some(i)
    } else {
        first_from(ns, key, i + 1)
    }
}

/// The index of the first node named `key`.
pub open spec fn first_named(ns: Seq<NodeView>, key: Seq<char>) -> Option<int> {
    first_from(ns, key, 0)
}

/// A found index is in range, at or after `i`, and names `key`.
pub proof fn lemma_first_from(ns: Seq<NodeView>, key: Seq<char>, i: int)
    requires
        0 <= i,
    ensures
        first_from(ns, key, i) matches Some(k) ==> i <= k < ns.len() && ns[k].name == key,
    decreases ns.len() - i,
{
    if i < ns.len() && ns[i].name != key {
        lemma_first_from(ns, key, i + 1);
    }
}

/// Whether some entry of `es` is a property named `key`.
pub open spec fn has_prop(es: Seq<Entry>, key: Seq<char>) -> bool {
    exists|i: int| 0 <= i < es.len() && has_name(es[i], key)
}

/// The entries of a spliced child: each property of the `@children` node that
/// the child does not set is put in front of the child's entries, in turn.
pub open spec fn merge_entries(child: Seq<Entry>, extra: Seq<Entry>) -> Seq<Entry>
    decreases extra.len(),
{
    if extra.len() == 0 {
        child
    } else {
        let c = merge_entries(child, extra.drop_last());
        let e = extra.last();
        if e.name is Some && !has_prop(c, e.name->0@) {
            seq![e] + c
        } else {
            c
        }
    }
}

/// A call's children as they stand in place of one `@children` node with
/// entries `extra`.
pub open spec fn instantiate(call: Seq<NodeView>, extra: Seq<Entry>) -> Seq<NodeView> {
    Seq::new(call.len(), |i: int| NodeView { entries: merge_entries(call[i].entries, extra), ..call[i] })
}

/// The node with every `@children` below it replaced by the call's children.
pub open spec fn spliced(n: NodeView, call: Seq<NodeView>) -> NodeView
    decreases n, 0nat,
{
    NodeView {
        children: if n.children is Some {
            Some(splice_list(n.children->0, call, n.children->0.len()))
        } else {
            None
        },
        ..n
    }
}

/// The first `k` nodes of `ns` with every `@children` node among them, or
/// below them, replaced by the call's children.
pub open spec fn splice_list(ns: Seq<NodeView>, call: Seq<NodeView>, k: nat) -> Seq<NodeView>
    decreases ns, k,
{
    if k == 0 || k > ns.len() {
        Seq::empty()
    } else {
        let n = ns[k - 1];
        splice_list(ns, call, (k - 1) as nat) + if command_of(n.name) == Some(children_cmd()) {
            instantiate(call, n.entries)
        } else {
            seq![spliced(n, call)]
        }
    }
}

/// With no children at the call, each `@children` node of a body stands for
/// nothing.
pub proof fn lemma_no_call_children(extra: Seq<Entry>)
    ensures
        instantiate(Seq::empty(), extra) == Seq::<NodeView>::empty(),
{
    assert(instantiate(Seq::empty(), extra) =~= Seq::<NodeView>::empty());
}

/// `Template tags must have children!`, the complaint about a template
/// without a body.
pub open spec fn no_children_text() -> Seq<char> {
    seq![
        'T', 'e', 'm', 'p', 'l', 'a', 't', 'e', ' ', 't', 'a', 'g', 's', ' ', 'm', 'u', 's', 't', ' ', 'h', 'a',
        'v', 'e', ' ', 'c', 'h', 'i', 'l', 'd', 'r', 'e', 'n', '!',
    ]
}

/// A registered template.
pub struct Template {
    /// The defining node; its children, without `@params`, are the body.
    pub node: Node,
    /// Whether the body holds `@children` anywhere.
    pub uses_children: bool,
    /// The parameters, each with its default if it has one.
    pub params: Vec<(String, Option<Value>)>,
}

/// Removes the first node named `key` and returns it.
pub fn remove_child(children: &mut Vec<Node>, key: &str) -> (r: Option<Node>)
    ensures
        first_named(view_nodes(old(children)@), key@) matches Some(i) ==> r matches Some(n) && n
            == old(children)@[i] && final(children)@ == old(children)@.remove(i),
        first_named(view_nodes(old(children)@), key@) is None ==> r is None && final(children)@
            == old(children)@,
{
    let ghost ns = view_nodes(children@);
    let mut i: usize = 0;
    while i < children.len()
        invariant
            i <= children.len(),
            children@ == old(children)@,
            ns == view_nodes(children@),
            first_named(ns, key@) == first_from(ns, key@, i as int),
        decreases children.len() - i,
    {
        assert(ns[i as int] == children@[i as int]@);
        if same_text(children[i].name.as_str(), key) {
            let n = children.remove(i);
            return Some(n);
        }
        i = i + 1;
    }
    None
}

/// Whether some entry is a property named `key`.
fn has_prop_exec(es: &Vec<Entry>, key: &String) -> (r: bool)
    ensures
        r == has_prop(es@, key@),
{
    let mut i: usize = 0;
    while i < es.len()
        invariant
            i <= es.len(),
            forall|j: int| 0 <= j < i ==> !has_name(es@[j], key@),
        decreases es.len() - i,
    {
        if let Some(n) = &es[i].name {
            if *n == *key {
                assert(has_name(es@[i as int], key@));
                return true;
            }
        }
        i = i + 1;
    }
    false
}

/// Puts each property of `extra` that `entries` does not set in front of
/// `entries`, in turn.
pub fn merge_into(entries: &mut Vec<Entry>, extra: &Vec<Entry>)
    ensures
        final(entries)@ == merge_entries(old(entries)@, extra@),
{
    let mut i: usize = 0;
    while i < extra.len()
        invariant
            i <= extra.len(),
            entries@ == merge_entries(old(entries)@, extra@.subrange(0, i as int)),
        decreases extra.len() - i,
    {
        assert(extra@.subrange(0, i + 1).drop_last() =~= extra@.subrange(0, i as int));
        if let Some(n) = &extra[i].name {
            if !has_prop_exec(entries, n) {
                entries.insert(0, extra[i].copy());
                assert(entries@ =~= seq![extra@[i as int]] + merge_entries(old(entries)@, extra@.subrange(0, i as int)));
            }
        }
        i = i + 1;
    }
    assert(extra@.subrange(0, i as int) =~= extra@);
}

/// Copies of the call's children, each with the `@children` node's properties
/// that it does not set.
pub fn instantiate_children(splice: &Node, call: &Vec<Node>) -> (r: Vec<Node>)
    ensures
        view_nodes(r@) == instantiate(view_nodes(call@), splice.entries@),
{
    let mut out: Vec<Node> = Vec::new();
    let mut i: usize = 0;
    while i < call.len()
        invariant
            i <= call.len(),
            out.len() == i,
            forall|j: int| 0 <= j < i ==> #[trigger] out@[j]@ == instantiate(view_nodes(call@), splice.entries@)[j],
        decreases call.len() - i,
    {
        let mut c = call[i].copy();
        merge_into(&mut c.entries, &splice.entries);
        proof {
            c.lemma_children_view();
            call@[i as int].lemma_children_view();
        }
        out.push(c);
        i = i + 1;
    }
    assert(view_nodes(out@) =~= instantiate(view_nodes(call@), splice.entries@));
    out
}

/// Splices the call's children into the subtree of `n`.
pub fn splice_node(n: &Node, call: &Vec<Node>) -> (r: Node)
    ensures
        r@ == spliced(n@, view_nodes(call@)),
    decreases n, 1nat,
{
    proof {
        n.lemma_children_view();
    }
    match &n.children {
        None => n.copy(),
        Some(cs) => {
            let spliced = splice_children_of(n, cs, call);
            let r = Node {
                name: n.name.clone(),
                entries: copy_entries(&n.entries),
                children: Some(spliced),
                leading: n.leading.clone(),
            };
            proof {
                r.lemma_children_view();
            }
            r
        },
    }
}

/// Splices the call's children into the children `cs` of `parent`.
pub fn splice_children_of(parent: &Node, cs: &Vec<Node>, call: &Vec<Node>) -> (r: Vec<Node>)
    requires
        parent.children == Some(*cs),
    ensures
        view_nodes(r@) == splice_list(view_nodes(cs@), view_nodes(call@), cs.len() as nat),
    decreases parent, 0nat,
{
    let ghost ns = view_nodes(cs@);
    let ghost cv = view_nodes(call@);
    let mut out: Vec<Node> = Vec::new();
    let mut i: usize = 0;
    while i < cs.len()
        invariant
            i <= cs.len(),
            parent.children == Some(*cs),
            ns == view_nodes(cs@),
            cv == view_nodes(call@),
            view_nodes(out@) == splice_list(ns, cv, i as nat),
        decreases cs.len() - i,
    {
        proof {
            broadcast use vstd::std_specs::vec::axiom_vec_index_decreases;
            assert(decreases_to!(parent => parent.children));
            assert(decreases_to!(parent.children => parent.children->0));
            assert(decreases_to!(parent.children->0 => cs[i as int]));
            assert(ns[i as int] == cs@[i as int]@);
        }
        let ghost before = out@;
        if cs[i].is_command("children") {
            proof {
                reveal_strlit("children");
                assert("children"@ =~= children_cmd());
            }
            let mut more = instantiate_children(&cs[i], call);
            let ghost added = more@;
            out.append(&mut more);
            assert(view_nodes(out@) =~= view_nodes(before) + view_nodes(added));
        } else {
            proof {
                reveal_strlit("children");
                assert("children"@ =~= children_cmd());
            }
            let one = splice_node(&cs[i], call);
            out.push(one);
            assert(view_nodes(out@) =~= view_nodes(before) + seq![spliced(ns[i as int], cv)]);
        }
        i = i + 1;
    }
    out
}

/// The parameters as names and defaults.
pub open spec fn params_view(ps: Seq<(String, Option<Value>)>) -> Seq<(Seq<char>, Option<Value>)> {
    Seq::new(ps.len(), |i: int| (ps[i].0@, ps[i].1))
}

/// The parameters that the entries of `@params` declare, in order.
pub open spec fn declared_params(es: Seq<Entry>) -> Seq<(Seq<char>, Option<Value>)> {
    Seq::new(es.len(), |i: int| param_of(es[i]))
}

/// The template that `node` defines: its children without the first
/// `@params` node are the body, that node's entries are the parameters.
pub open spec fn template_of(node: NodeView) -> (NodeView, Seq<(Seq<char>, Option<Value>)>) {
    let cs = node.children->0;
    match first_named(cs, params_name()) {
        Some(i) => (NodeView { children: Some(cs.remove(i)), ..node }, declared_params(cs[i].entries)),
        None => (node, Seq::empty()),
    }
}

/// The parameters that the entries of a `@params` node declare.
fn declared(p: &Node) -> (r: Vec<(String, Option<Value>)>)
    ensures
        params_view(r@) == declared_params(p.entries@),
{
    let mut params: Vec<(String, Option<Value>)> = Vec::new();
    let mut i: usize = 0;
    while i < p.entries.len()
        invariant
            i <= p.entries.len(),
            params.len() == i,
            forall|j: int| 0 <= j < i ==> (#[trigger] params@[j]).0@ == param_of(p.entries@[j]).0 && params@[j].1
                == param_of(p.entries@[j]).1,
        decreases p.entries.len() - i,
    {
        let e = &p.entries[i];
        let param = match &e.name {
            Some(n) => (n.clone(), Some(e.value.copy())),
            None => (e.value.as_str(), None),
        };
        params.push(param);
        i = i + 1;
    }
    assert(params_view(params@) =~= declared_params(p.entries@));
    params
}

impl Template {
    /// An equal copy.
    pub fn copy(&self) -> (r: Template)
        ensures
            r.node@ == self.node@,
            r.params@ == self.params@,
            r.uses_children == self.uses_children,
    {
        let mut params: Vec<(String, Option<Value>)> = Vec::new();
        let mut i: usize = 0;
        while i < self.params.len()
            invariant
                i <= self.params.len(),
                params@ == self.params@.subrange(0, i as int),
            decreases self.params.len() - i,
        {
            let v = match &self.params[i].1 {
                Some(v) => Some(v.copy()),
                None => None,
            };
            params.push((self.params[i].0.clone(), v));
            i = i + 1;
            assert(params@ =~= self.params@.subrange(0, i as int));
        }
        assert(self.params@.subrange(0, i as int) =~= self.params@);
        Template { node: self.node.copy(), uses_children: self.uses_children, params }
    }

    /// Registers the template that `node` defines. Fails when the node has no
    /// children.
    pub fn new(name: &str, node: &Node) -> (r: Result<Template, Error>)
        ensures
            r is Ok <==> node@.children is Some,
            r matches Ok(t) ==> t.node@ == template_of(node@).0 && params_view(t.params@)
                == template_of(node@).1 && t.uses_children == contains_command(t.node@, children_cmd()),
            r matches Err(e) ==> e matches Error::UserError { message } && message@ == name@ + seq![
                ':',
                ' ',
            ] + no_children_text(),
    {
        proof {
            node.lemma_children_view();
        }
        let mut cs = match &node.children {
            Some(c) => copy_nodes(c),
            None => {
                let mut m = String::from_str(name);
                proof {
                    reveal_strlit(": Template tags must have children!");
                    assert(": Template tags must have children!"@ =~= seq![':', ' '] + no_children_text());
                }
                append_str(&mut m, ": Template tags must have children!");
                return Err(err(m));
            },
        };
        let ghost before = cs@;
        let removed = remove_child(&mut cs, "@params");
        proof {
            reveal_strlit("@params");
            assert("@params"@ =~= params_name());
        }
        let params = match &removed {
            Some(p) => declared(p),
            None => Vec::new(),
        };
        assert(removed is None ==> params_view(params@) =~= Seq::<(Seq<char>, Option<Value>)>::empty());
        let ghost after = cs@;
        let t = Node {
            name: node.name.clone(),
            entries: copy_entries(&node.entries),
            children: Some(cs),
            leading: node.leading.clone(),
        };
        proof {
            t.lemma_children_view();
            let i = first_named(view_nodes(before), params_name());
            lemma_first_from(view_nodes(before), params_name(), 0);
            if i is Some {
                let k = i->0;
                assert(after == before.remove(k));
                assert forall|j: int| 0 <= j < view_nodes(after).len() implies view_nodes(after)[j]
                    == view_nodes(before).remove(k)[j] by {
                    if j < k {
                        assert(after[j] == before[j]);
                    } else {
                        assert(after[j] == before[j + 1]);
                    }
                }
                assert(view_nodes(after) =~= view_nodes(before).remove(k));
            } else {
                assert(view_nodes(after) =~= view_nodes(before));
            }
        }
        let uses_children = t.find_command("children");
        proof {
            reveal_strlit("children");
            assert("children"@ =~= children_cmd());
        }
        Ok(Template { node: t, uses_children, params })
    }
}

/// Names and values of bindings.
pub open spec fn pairs_view(ps: Seq<(String, String)>) -> Seq<(Seq<char>, Seq<char>)> {
    Seq::new(ps.len(), |i: int| (ps[i].0@, ps[i].1@))
}

/// The defaults of the parameters that have one, expanded in `env`.
pub open spec fn defaults(ps: Seq<(Seq<char>, Option<Value>)>, env: Map<Seq<char>, Seq<char>>) -> Seq<
    (Seq<char>, Seq<char>),
>
    decreases ps.len(),
{
    if ps.len() == 0 {
        Seq::empty()
    } else {
        let rest = defaults(ps.drop_last(), env);
        match ps.last().1 {
            Some(v) => rest.push((ps.last().0, expand_text(v, env))),
            None => rest,
        }
    }
}

/// The call's entries as bindings: arguments by their index, properties by
/// their name, each value expanded in `env`.
pub open spec fn call_bindings(ks: Seq<(Key, Value)>, env: Map<Seq<char>, Seq<char>>) -> Seq<
    (Seq<char>, Seq<char>),
> {
    Seq::new(ks.len(), |i: int| (ks[i].0.name(), expand_text(ks[i].1, env)))
}

/// Whether `name` is a declared parameter.
pub open spec fn is_param_of(ps: Seq<(Seq<char>, Option<Value>)>, name: Seq<char>) -> bool {
    exists|i: int| 0 <= i < ps.len() && ps[i].0 == name
}

/// `a` and `b` joined by a space, or `b` alone when `a` is empty.
pub open spec fn join_space(a: Seq<char>, b: Seq<char>) -> Seq<char> {
    if a.len() == 0 {
        b
    } else {
        a + seq![' '] + b
    }
}

/// `name="value"`, the text of one forwarded property.
pub open spec fn prop_text(name: Seq<char>, value: Seq<char>) -> Seq<char> {
    name + seq!['=', '"'] + value + seq!['"']
}

/// The forwarded properties: each property of the call that is not a
/// declared parameter, as `name="value"` with the value expanded, joined by
/// spaces.
pub open spec fn props_of(es: Seq<Entry>, ps: Seq<(Seq<char>, Option<Value>)>, env: Map<Seq<char>, Seq<char>>) -> Seq<char>
    decreases es.len(),
{
    if es.len() == 0 {
        Seq::empty()
    } else {
        let rest = props_of(es.drop_last(), ps, env);
        let e = es.last();
        match e.name {
            Some(n) => if is_param_of(ps, n@) {
                rest
            } else {
                join_space(rest, prop_text(n@, expand_text(e.value, env)))
            },
            None => rest,
        }
    }
}

/// Names and values.
pub open spec fn named_values(ps: Seq<(String, Value)>) -> Seq<(Seq<char>, Value)> {
    Seq::new(ps.len(), |i: int| (ps[i].0@, ps[i].1))
}

/// The parameters that have a default, with it.
pub open spec fn with_default(ps: Seq<(Seq<char>, Option<Value>)>) -> Seq<(Seq<char>, Value)>
    decreases ps.len(),
{
    if ps.len() == 0 {
        Seq::empty()
    } else {
        let rest = with_default(ps.drop_last());
        match ps.last().1 {
            Some(v) => rest.push((ps.last().0, v)),
            None => rest,
        }
    }
}

impl Template {
    /// The parameters with defaults, and their default values, in order.
    pub fn default_params(&self) -> (r: Vec<(String, Value)>)
        ensures
            named_values(r@) == with_default(params_view(self.params@)),
    {
        let ghost pv = params_view(self.params@);
        let mut out: Vec<(String, Value)> = Vec::new();
        let mut i: usize = 0;
        while i < self.params.len()
            invariant
                i <= self.params.len(),
                pv == params_view(self.params@),
                named_values(out@) == with_default(pv.subrange(0, i as int)),
            decreases self.params.len() - i,
        {
            assert(pv.subrange(0, i + 1).drop_last() =~= pv.subrange(0, i as int));
            if let Some(v) = &self.params[i].1 {
                out.push((self.params[i].0.clone(), v.copy()));
            }
            i = i + 1;
            assert(named_values(out@) =~= with_default(pv.subrange(0, i as int)));
        }
        assert(pv.subrange(0, i as int) =~= pv);
        out
    }

    /// Whether `key` is a declared parameter.
    pub fn is_param(&self, key: &str) -> (r: bool)
        ensures
            r == is_param_of(params_view(self.params@), key@),
    {
        let mut i: usize = 0;
        while i < self.params.len()
            invariant
                i <= self.params.len(),
                forall|j: int| 0 <= j < i ==> self.params@[j].0@ != key@,
            decreases self.params.len() - i,
        {
            if same_text(self.params[i].0.as_str(), key) {
                assert(params_view(self.params@)[i as int].0 == key@);
                return true;
            }
            i = i + 1;
        }
        false
    }

    /// The variables a call binds before its body is emitted: the defaults of
    /// the parameters, then the call's arguments and properties, all expanded
    /// in the caller's environment `env`.
    pub fn bindings(&self, call: &Node, env: &Vars) -> (r: Vec<(String, String)>)
        requires
            env.wf(),
        ensures
            pairs_view(r@) == defaults(params_view(self.params@), env@) + call_bindings(keyed(call.entries@), env@),
    {
        let ghost pv = params_view(self.params@);
        let mut out: Vec<(String, String)> = Vec::new();
        let mut i: usize = 0;
        while i < self.params.len()
            invariant
                env.wf(),
                i <= self.params.len(),
                pv == params_view(self.params@),
                pairs_view(out@) == defaults(pv.subrange(0, i as int), env@),
            decreases self.params.len() - i,
        {
            assert(pv.subrange(0, i + 1).drop_last() =~= pv.subrange(0, i as int));
            if let Some(v) = &self.params[i].1 {
                let text = env.expand_value(v);
                out.push((self.params[i].0.clone(), text));
            }
            i = i + 1;
            assert(pairs_view(out@) =~= defaults(pv.subrange(0, i as int), env@));
        }
        assert(pv.subrange(0, i as int) =~= pv);
        let ghost ds = pairs_view(out@);
        let ks = call.keyed_entries();
        let mut m: usize = 0;
        while m < ks.len()
            invariant
                env.wf(),
                m <= ks.len(),
                ks@ == keyed(call.entries@),
                pairs_view(out@) =~= ds + call_bindings(ks@, env@).subrange(0, m as int),
            decreases ks.len() - m,
        {
            let name = ks[m].0.to_name();
            let text = env.expand_value(&ks[m].1);
            let ghost before = out@;
            let ghost item = (name@, text@);
            assert(item == call_bindings(ks@, env@)[m as int]);
            out.push((name, text));
            assert(pairs_view(out@) =~= pairs_view(before).push(item));
            assert(call_bindings(ks@, env@).subrange(0, m + 1) =~= call_bindings(ks@, env@).subrange(0, m as int).push(item));
            m = m + 1;
            assert(pairs_view(out@) =~= ds + call_bindings(ks@, env@).subrange(0, m as int));
        }
        assert(call_bindings(ks@, env@).subrange(0, m as int) =~= call_bindings(ks@, env@));
        out
    }

    /// The forwarded properties of a call, as `props_of` describes them.
    pub fn props(&self, call: &Node, env: &Vars) -> (r: String)
        requires
            env.wf(),
        ensures
            r@ == props_of(call.entries@, params_view(self.params@), env@),
    {
        let es = &call.entries;
        let mut out = String::new();
        let mut any = false;
        let mut i: usize = 0;
        while i < es.len()
            invariant
                env.wf(),
                i <= es.len(),
                any <==> out@.len() > 0,
                out@ == props_of(es@.subrange(0, i as int), params_view(self.params@), env@),
            decreases es.len() - i,
        {
            assert(es@.subrange(0, i + 1).drop_last() =~= es@.subrange(0, i as int));
            if let Some(n) = &es[i].name {
                if !self.is_param(n.as_str()) {
                    let ghost before = out@;
                    if any {
                        push_char(&mut out, ' ');
                    }
                    any = true;
                    append_str(&mut out, n.as_str());
                    push_char(&mut out, '=');
                    push_char(&mut out, '"');
                    let v = env.expand_value(&es[i].value);
                    append_str(&mut out, v.as_str());
                    push_char(&mut out, '"');
                    assert(out@ =~= join_space(before, prop_text(n@, v@)));
                }
            }
            i = i + 1;
        }
        assert(es@.subrange(0, i as int) =~= es@);
        out
    }
}

/// The entries of the sole child of a body once the props are forwarded: an
/// attribute fragment with the props goes before trailing inline text, or
/// last.
pub open spec fn with_props(es: Seq<Entry>, props: String) -> Seq<Entry> {
    let e = Entry { name: None, value: Value::Attrs(props) };
    if es.len() > 0 && crate::node::is_text_entry(es.last()) {
        es.insert(es.len() - 1, e)
    } else {
        es.push(e)
    }
}

/// The environment after binding each named text in order.
pub open spec fn insert_pairs(env: Map<Seq<char>, Seq<char>>, ps: Seq<(Seq<char>, Seq<char>)>) -> Map<
    Seq<char>,
    Seq<char>,
>
    decreases ps.len(),
{
    if ps.len() == 0 {
        env
    } else {
        insert_pairs(env, ps.drop_last()).insert(ps.last().0, ps.last().1)
    }
}

/// Binding strings is binding their texts.
pub proof fn lemma_insert_all_pairs(env: Map<Seq<char>, Seq<char>>, ps: Seq<(String, String)>)
    ensures
        crate::vars::insert_all(env, ps) == insert_pairs(env, pairs_view(ps)),
    decreases ps.len(),
{
    if ps.len() > 0 {
        assert(pairs_view(ps.drop_last()) =~= pairs_view(ps).drop_last());
        lemma_insert_all_pairs(env, ps.drop_last());
    }
}

/// `props`, the variable that holds the forwarded properties.
pub open spec fn props_key() -> Seq<char> {
    seq!['p', 'r', 'o', 'p', 's']
}

/// The variables a template body sees when called from `env`: the defaults,
/// then the call's entries, then `props`.
pub open spec fn call_env(t: Template, call: Node, env: Map<Seq<char>, Seq<char>>, props: Seq<char>) -> Map<
    Seq<char>,
    Seq<char>,
> {
    insert_pairs(env, defaults(params_view(t.params@), env) + call_bindings(keyed(call.entries@), env)).insert(
        props_key(),
        props,
    )
}

/// The children of a call, or none.
pub open spec fn call_children(call: NodeView) -> Seq<NodeView> {
    if call.children is Some {
        call.children->0
    } else {
        Seq::empty()
    }
}

/// The body of a template once the call's children are spliced in.
pub open spec fn spliced_body(t: NodeView, call: NodeView) -> Seq<NodeView> {
    if t.children is Some {
        splice_list(t.children->0, call_children(call), t.children->0.len())
    } else {
        Seq::empty()
    }
}

/// A body with the props forwarded to its only child, when it has one.
pub open spec fn forwarded(ns: Seq<NodeView>, props: String) -> Seq<NodeView> {
    if ns.len() == 1 {
        seq![NodeView { entries: with_props(ns[0].entries, props), ..ns[0] }]
    } else {
        ns
    }
}

/// Forwards the props to the body's only child, when it has exactly one, as
/// an attribute fragment: before the child's trailing inline text, or last.
pub fn forward_props(body: &mut Vec<Node>, props: &String)
    ensures
        old(body).len() == 1 ==> final(body).len() == 1 && final(body)@[0]@ == (NodeView {
            entries: with_props(old(body)@[0]@.entries, *props),
            ..old(body)@[0]@
        }),
        old(body).len() != 1 ==> final(body)@ == old(body)@,
{
    if body.len() != 1 {
        return;
    }
    let mut n = body.remove(0);
    proof {
        n.lemma_children_view();
    }
    let e = Entry { name: None, value: Value::Attrs(props.clone()) };
    let len = n.entries.len();
    if len > 0 && n.entries[len - 1].is_text() {
        n.entries.insert(len - 1, e);
    } else {
        n.entries.push(e);
    }
    proof {
        n.lemma_children_view();
    }
    body.push(n);
}

} // verus!
