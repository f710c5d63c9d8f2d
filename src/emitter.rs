//! The HTML emitter: tag rendering, the walk over a document, and the
//! commands of the template plugin.
use vstd::prelude::*;
use crate::error::{err, Error};
use crate::node::{command_of, is_text_entry, contains_command, copy_nodes, positional, view_nodes, Entry, Node, NodeView, Value};
use crate::plugin::{EmitStatus, Source, Sources, TemplatePlugin, is_builtin, parse_range};
use crate::template::{
    call_env, children_cmd, forward_props, template_of, forwarded, lemma_insert_all_pairs, params_view, props_key, props_of, splice_children_of,
    spliced_body, Template,
};
use crate::text::{append_str, chars_are, chars_of, text_is, encode_text, escape_text, push_char, same_text, string_of};
use crate::vars::{expand, expand_text, Vars};

verus! {

/// What `Path::parent` gives for the path `p`, as text.
pub uninterp spec fn parent_path(p: Seq<char>) -> Option<Seq<char>>;

/// What `Path::join` gives for `rel` against the directory `dir`, as text.
pub uninterp spec fn joined_path(dir: Seq<char>, rel: Seq<char>) -> Seq<char>;

/// Relies on `std::path::Path::parent`: the directory part of a path, if any.
#[verifier::external_body]
fn path_parent(p: &str) -> (r: Option<String>)
    ensures
        r is Some <==> parent_path(p@) is Some,
        r matches Some(s) ==> parent_path(p@) == Some(s@),
{
    std::path::Path::new(p).parent().map(|d| d.to_string_lossy().into_owned())
}

/// Relies on `std::path::Path::join`: `rel` resolved against `dir`.
#[verifier::external_body]
fn path_join(dir: &str, rel: &str) -> (r: String)
    ensures
        r@ == joined_path(dir@, rel@),
{
    std::path::Path::new(dir).join(rel).to_string_lossy().into_owned()
}

/// The path that `rel` names when written in the file `current`: resolved
/// against that file's directory, or against `.` when it has none.
pub open spec fn resolved(current: Seq<char>, rel: Seq<char>) -> Seq<char> {
    match parent_path(current) {
        Some(d) => joined_path(d, rel),
        None => joined_path(seq!['.'], rel),
    }
}

/// Resolves `rel` against the directory of the file `current`.
pub fn resolve_path(current: &str, rel: &str) -> (r: String)
    ensures
        r@ == resolved(current@, rel@),
{
    match path_parent(current) {
        Some(d) => path_join(d.as_str(), rel),
        None => {
            proof {
                reveal_strlit(".");
                assert("."@ =~= seq!['.']);
            }
            path_join(".", rel)
        },
    }
}

/// Tags that are closed at once and never have content.
pub open spec fn void_names() -> Seq<Seq<char>> {
    seq![
        seq!['a', 'r', 'e', 'a'],
        seq!['b', 'a', 's', 'e'],
        seq!['b', 'r'],
        seq!['c', 'o', 'l'],
        seq!['e', 'm', 'b', 'e', 'd'],
        seq!['h', 'r'],
        seq!['i', 'm', 'g'],
        seq!['i', 'n', 'p', 'u', 't'],
        seq!['l', 'i', 'n', 'k'],
        seq!['m', 'e', 't', 'a'],
        seq!['p', 'a', 'r', 'a', 'm'],
        seq!['s', 'o', 'u', 'r', 'c', 'e'],
        seq!['t', 'r', 'a', 'c', 'k'],
        seq!['w', 'b', 'r'],
        seq!['!', 'D', 'O', 'C', 'T', 'Y', 'P', 'E'],
        seq!['!', 'd', 'o', 'c', 't', 'y', 'p', 'e'],
    ]
}

/// Whether `name` is a void tag.
pub open spec fn is_void(name: Seq<char>) -> bool {
    void_names().contains(name)
}

/// Whether `name` is a void tag.
pub fn is_void_tag(name: &str) -> (r: bool)
    ensures
        r == is_void(name@),
{
    let cs = chars_of(name);
    let r = chars_are(&cs, &['a', 'r', 'e', 'a']) || chars_are(&cs, &['b', 'a', 's', 'e'])
        || chars_are(&cs, &['b', 'r']) || chars_are(&cs, &['c', 'o', 'l']) || chars_are(
        &cs,
        &['e', 'm', 'b', 'e', 'd'],
    ) || chars_are(&cs, &['h', 'r']) || chars_are(&cs, &['i', 'm', 'g']) || chars_are(
        &cs,
        &['i', 'n', 'p', 'u', 't'],
    ) || chars_are(&cs, &['l', 'i', 'n', 'k']) || chars_are(&cs, &['m', 'e', 't', 'a'])
        || chars_are(&cs, &['p', 'a', 'r', 'a', 'm']) || chars_are(&cs, &['s', 'o', 'u', 'r', 'c', 'e'])
        || chars_are(&cs, &['t', 'r', 'a', 'c', 'k']) || chars_are(&cs, &['w', 'b', 'r'])
        || chars_are(&cs, &['!', 'D', 'O', 'C', 'T', 'Y', 'P', 'E']) || chars_are(
        &cs,
        &['!', 'd', 'o', 'c', 't', 'y', 'p', 'e'],
    );
    proof {
        let v = void_names();
        if r {
            assert(v.contains(name@));
        } else {
            assert forall|k: int| 0 <= k < v.len() implies v[k] != name@ by {}
        }
    }
    r
}

/// `n` spaces.
pub open spec fn spaces(n: nat) -> Seq<char> {
    Seq::new(n, |i: int| ' ')
}

/// The line break after a tag, which minified output leaves out.
pub open spec fn newline(indent: Option<usize>) -> Seq<char> {
    if indent == Some(0usize) {
        Seq::empty()
    } else {
        seq!['\n']
    }
}

/// The indentation of a node: the fixed width per level, or the node's own
/// leading whitespace when the output follows the source.
pub open spec fn indent_text(indent: Option<usize>, level: usize, leading: Seq<char>) -> Seq<char> {
    match indent {
        Some(w) => spaces((level * w) as nat),
        None => leading,
    }
}

/// The inline text of a node: its last entry, when that is positional, the
/// node is not void and it has no children.
pub open spec fn inline_content(entries: Seq<Entry>, has_children: bool, void: bool) -> Option<Value> {
    if !void && !has_children && entries.len() > 0 && is_text_entry(entries.last()) {
        Some(entries.last().value)
    } else {
        None
    }
}

/// The entries rendered as attributes: all but the inline text.
pub open spec fn attr_entries(entries: Seq<Entry>, has_children: bool, void: bool) -> Seq<Entry> {
    if inline_content(entries, has_children, void) is Some {
        entries.drop_last()
    } else {
        entries
    }
}

/// One attribute: nothing when the expanded value is empty, else a space and
/// `name="value"`, or the value as it stands for a positional entry.
pub open spec fn attr_text(e: Entry, env: Map<Seq<char>, Seq<char>>) -> Seq<char> {
    let v = expand_text(e.value, env);
    if v.len() == 0 {
        Seq::empty()
    } else {
        match e.name {
            Some(n) => seq![' '] + expand(n@, env) + seq!['=', '"'] + v + seq!['"'],
            None => seq![' '] + v,
        }
    }
}

/// The attributes, in order.
pub open spec fn attrs_text(es: Seq<Entry>, env: Map<Seq<char>, Seq<char>>) -> Seq<char>
    decreases es.len(),
{
    if es.len() == 0 {
        Seq::empty()
    } else {
        attrs_text(es.drop_last(), env) + attr_text(es.last(), env)
    }
}

/// The opening tag, after the indentation.
pub open spec fn open_tag(
    indent: Seq<char>,
    name: Seq<char>,
    attrs: Seq<Entry>,
    env: Map<Seq<char>, Seq<char>>,
) -> Seq<char> {
    indent + seq!['<'] + name + attrs_text(attrs, env) + seq!['>']
}

/// The closing tag.
pub open spec fn close_tag(name: Seq<char>) -> Seq<char> {
    seq!['<', '/'] + name + seq!['>']
}

/// `end` is `start` followed by the element `name` rendered from `node`:
/// the opening tag with the attributes, then, for a void tag, a line break;
/// for inline text, the text expanded and escaped and the closing tag; for
/// children, a line break, their output, the indentation and the closing tag;
/// otherwise the closing tag at once.
pub open spec fn tag_rendered(
    start: Seq<char>,
    end: Seq<char>,
    node: Node,
    name: Seq<char>,
    indent: Seq<char>,
    env: Map<Seq<char>, Seq<char>>,
    cfg: Option<usize>,
) -> bool {
    let void = is_void(name);
    let nested = node.children is Some;
    let open = open_tag(indent, name, attr_entries(node.entries@, nested, void), env);
    let nl = newline(cfg);
    let content = inline_content(node.entries@, nested, void);
    &&& void ==> !nested && end == start + open + nl
    &&& !void && nested ==> !mixed_text(node, name)
    &&& !void && content is Some ==> end == start + open + escape_text(expand_text(content->0, env))
        + close_tag(name) + nl
    &&& !void && !nested && content is None ==> end == start + open + close_tag(name) + nl
    &&& !void && nested ==> exists|body: Seq<char>|
        end == start + open + nl + body + indent + close_tag(name) + nl
}

/// The result is a user error.
pub open spec fn is_user_error<T>(r: Result<T, Error>) -> bool {
    r matches Err(Error::UserError { .. })
}

/// A non-void element whose last entry is positional text and that also has
/// children: inline text and children at once, which is an error.
pub open spec fn mixed_text(node: Node, name: Seq<char>) -> bool {
    !is_void(name) && node.children is Some && node.entries@.len() > 0 && is_text_entry(node.entries@.last())
}

/// The level one deeper, where it fits.
pub open spec fn deeper(level: usize) -> usize {
    if level < usize::MAX {
        (level + 1) as usize
    } else {
        level
    }
}

/// A node that binds a variable: `$name value`.
pub open spec fn is_binding(node: Node) -> bool {
    node.name@.len() > 0 && node.name@[0] == '$' && positional(node.entries@).len() > 0
}

/// A node whose first argument is written as it is: `_ value`.
pub open spec fn is_raw_text(node: Node) -> bool {
    node.name@ == seq!['_'] && positional(node.entries@).len() > 0
}

/// A node whose first argument is written escaped: `- value`, or the older
/// `text value`.
pub open spec fn is_escaped_text(node: Node) -> bool {
    (node.name@ == seq!['-'] || node.name@ == seq!['t', 'e', 'x', 't']) && positional(node.entries@).len() > 0
}

/// A node that renders without fail: a binding, a text node, or an element
/// without children that no plugin claims.
pub open spec fn simple_node(plugins: Seq<TemplatePlugin>, node: Node) -> bool {
    is_binding(node) || is_raw_text(node) || is_escaped_text(node) || (unclaimed(plugins, node)
        && node.children is None)
}

/// `simple_node`, read off the model of a node.
pub open spec fn simple_view(plugins: Seq<TemplatePlugin>, n: NodeView) -> bool {
    let args = positional(n.entries);
    let c = command_of(n.name);
    let unclaimed_c = c is None || (plugins.len() == 0 || !is_builtin(c->0)) && forall|i: int|
        0 <= i < plugins.len() ==> !(#[trigger] plugins[i]).has_template(c->0);
    (n.name.len() > 0 && n.name[0] == '$' && args.len() > 0) || (n.name == seq!['_'] && args.len() > 0) || ((
    n.name == seq!['-'] || n.name == seq!['t', 'e', 'x', 't']) && args.len() > 0) || (unclaimed_c
        && n.children is None)
}

/// A node is simple exactly when its model is.
pub proof fn lemma_simple_view(plugins: Seq<TemplatePlugin>, n: Node)
    ensures
        simple_view(plugins, n@) == simple_node(plugins, n),
{
    n.lemma_children_view();
}

/// `s0` is the emitter `a` at the start of a build: same settings, level
/// and file, no variables, and as many plugins, none with templates or
/// recorded files.
pub open spec fn cleared(a: HtmlEmitter, s0: HtmlEmitter) -> bool {
    &&& s0.wf()
    &&& s0.vars@ == Map::<Seq<char>, Seq<char>>::empty()
    &&& s0.indent == a.indent
    &&& s0.current_level == a.current_level
    &&& s0.filename == a.filename
    &&& s0.plugins.len() == a.plugins.len()
    &&& forall|j: int|
        0 <= j < s0.plugins.len() ==> (#[trigger] s0.plugins@[j]).templates.len() == 0 && s0.plugins@[j].deps.len()
            == 0
}

/// An element no plugin claims that fails its own check: a void tag with
/// children, or inline text beside children.
pub open spec fn stuck_tag(a: HtmlEmitter, node: Node) -> bool {
    !is_binding(node) && !is_raw_text(node) && !is_escaped_text(node) && unclaimed(a.plugins@, node) && ((is_void(
        node.name@,
    ) && node.children is Some) || mixed_text(node, node.name@))
}

/// What a node that failed did: state that only grew, output that only grew,
/// and nothing at all for an element failing its own check.
pub open spec fn failed_step(a: HtmlEmitter, b: HtmlEmitter, start: Seq<char>, end: Seq<char>, node: Node) -> bool {
    &&& keeps(a, b)
    &&& start.is_prefix_of(end)
    &&& stuck_tag(a, node) ==> b == a && end == start
}

/// A walk of `doc` from `a` and `start` stopped at node `k` with `b` and
/// `end`: the nodes before it went as `t` records, node `k` failed, and no
/// node after it was rendered.
pub open spec fn walk_failed(
    t: Trace,
    k: int,
    doc: Seq<Node>,
    a: HtmlEmitter,
    b: HtmlEmitter,
    start: Seq<char>,
    end: Seq<char>,
    sources: Sources,
    fuel: usize,
) -> bool {
    &&& 0 <= k < doc.len()
    &&& t.states.len() > k
    &&& t.outs.len() > k
    &&& traced(t, doc, k as nat, sources, fuel)
    &&& t.states[0] == a
    &&& t.outs[0] == start
    &&& failed_step(t.states[k], b, t.outs[k], end, doc[k])
}

/// No plugin claims a node with this model.
pub open spec fn unclaimed_view(plugins: Seq<TemplatePlugin>, n: NodeView) -> bool {
    let c = command_of(n.name);
    c is None || (plugins.len() == 0 || !is_builtin(c->0)) && forall|i: int|
        0 <= i < plugins.len() ==> !(#[trigger] plugins[i]).has_template(c->0)
}

/// A node that renders without fail within `d` more levels: a simple node,
/// or an element that no plugin claims, neither void nor holding inline text,
/// whose children all render without fail within one level less.
pub open spec fn simple_tree(plugins: Seq<TemplatePlugin>, n: NodeView, d: nat) -> bool
    decreases n, 1nat,
{
    simple_view(plugins, n) || (d > 0 && unclaimed_view(plugins, n) && !is_void(n.name) && n.children is Some
        && !(n.entries.len() > 0 && is_text_entry(n.entries.last())) && all_simple(
        plugins,
        n.children->0,
        n.children->0.len(),
        (d - 1) as nat,
    ))
}

/// The first `k` nodes of `ns` render without fail within `d` levels.
pub open spec fn all_simple(plugins: Seq<TemplatePlugin>, ns: Seq<NodeView>, k: nat, d: nat) -> bool
    decreases ns, k,
{
    if k == 0 || k > ns.len() {
        true
    } else {
        all_simple(plugins, ns, (k - 1) as nat, d) && simple_tree(plugins, ns[k - 1], d)
    }
}

/// Each of the first `k` nodes of a list that renders without fail does.
pub proof fn lemma_all_simple_at(plugins: Seq<TemplatePlugin>, ns: Seq<NodeView>, k: nat, d: nat, j: int)
    requires
        all_simple(plugins, ns, k, d),
        k <= ns.len(),
        0 <= j < k,
    ensures
        simple_tree(plugins, ns[j], d),
    decreases k,
{
    if j < k - 1 {
        lemma_all_simple_at(plugins, ns, (k - 1) as nat, d, j);
    }
}

/// No plugin claims the node.
pub open spec fn unclaimed(plugins: Seq<TemplatePlugin>, node: Node) -> bool {
    let c = command_of(node.name@);
    c is None || (plugins.len() == 0 || !is_builtin(c->0)) && forall|i: int|
        0 <= i < plugins.len() ==> !(#[trigger] plugins[i]).has_template(c->0)
}

/// `@range`, which makes a loop count instead of listing its values.
pub open spec fn range_marker() -> Seq<char> {
    seq!['@', 'r', 'a', 'n', 'g', 'e']
}

/// A well-formed loop: `for name in values... { body }`, where the values
/// may be `@range` and one to three integers with a positive step.
pub open spec fn for_args_ok(node: Node) -> bool {
    let a = positional(node.entries@);
    &&& a.len() >= 2
    &&& a[0] is String
    &&& a[1] is String && a[1]->String_0@ == seq!['i', 'n']
    &&& node.children is Some
    &&& (a.len() >= 3 && a[2] is String && a[2]->String_0@ == range_marker()) ==> crate::plugin::range_of(
        a.subrange(3, a.len() as int),
    ) is Some
}

/// What rendering one node of a document does, when it succeeds: a binding
/// sets its variable and writes nothing; raw text is written as it expands;
/// escaped text is written escaped; a node no plugin claims is rendered as an
/// element. A claimed node is left to its command.
pub open spec fn node_step(a: HtmlEmitter, b: HtmlEmitter, start: Seq<char>, end: Seq<char>, node: Node) -> bool {
    let indent = indent_text(a.indent, a.current_level, node.leading@);
    let arg = positional(node.entries@)[0];
    &&& keeps(a, b)
    &&& start.is_prefix_of(end)
    &&& is_binding(node) ==> end == start && b.vars@ == a.vars@.insert(
        node.name@.drop_first(),
        expand_text(arg, a.vars@),
    ) && b.plugins == a.plugins
    &&& !is_binding(node) && (is_raw_text(node) || is_escaped_text(node)) ==> b == a
    &&& !is_binding(node) && !is_raw_text(node) && !is_escaped_text(node) && unclaimed(a.plugins@, node)
        && node.children is None ==> b == a
    &&& !is_binding(node) && is_raw_text(node) ==> b.vars == a.vars && end == start + indent + expand_text(
        arg,
        a.vars@,
    ) + newline(a.indent)
    &&& !is_binding(node) && !is_raw_text(node) && is_escaped_text(node) ==> b.vars == a.vars && end == start
        + indent + escape_text(expand_text(arg, a.vars@)) + newline(a.indent)
    &&& !is_binding(node) && !is_raw_text(node) && !is_escaped_text(node) && unclaimed(a.plugins@, node)
        ==> b.vars == a.vars && tag_rendered(start, end, node, node.name@, indent, a.vars@, a.indent)
    &&& !is_binding(node) && !is_raw_text(node) && !is_escaped_text(node) && !unclaimed(a.plugins@, node)
        && command_of(node.name@) != Some(in_place_cmd()) ==> b.vars@ == a.vars@
}

/// A record of a walk: the emitter and the output before and after each
/// node, and for each node the record of the walk over its children.
pub struct Trace {
    pub states: Seq<HtmlEmitter>,
    pub outs: Seq<Seq<char>>,
    pub kids: Seq<Trace>,
}

/// The first `k` nodes of `doc` were walked as the trace `t` records, each
/// as `node_step_traced` describes.
pub open spec fn traced(t: Trace, doc: Seq<Node>, k: nat, sources: Sources, fuel: usize) -> bool
    decreases doc, k,
{
    if k == 0 {
        true
    } else if k > doc.len() || t.states.len() <= k || t.outs.len() <= k || t.kids.len() < k {
        false
    } else {
        traced(t, doc, (k - 1) as nat, sources, fuel) && node_step_traced(
            t.states[k - 1],
            t.states[k as int],
            t.outs[k - 1],
            t.outs[k as int],
            doc[k - 1],
            t.kids[k - 1],
            sources,
            fuel,
        )
    }
}

/// `node_step`, and for an element with children that no plugin claims, the
/// output between its tags is the walk of its children one level deeper,
/// with a fork of the variables, as the trace `kid` records.
pub open spec fn node_step_traced(
    a: HtmlEmitter,
    b: HtmlEmitter,
    start: Seq<char>,
    end: Seq<char>,
    node: Node,
    kid: Trace,
    sources: Sources,
    fuel: usize,
) -> bool
    decreases node, 1nat,
{
    &&& node_step(a, b, start, end, node)
    &&& nested_element(a, node) ==> children_traced(a, b, start, end, node, kid, sources, fuel)
    &&& !is_binding(node) && !is_raw_text(node) && !is_escaped_text(node) && first_claim_from(a.plugins@, node, 0)
        is Some ==> command_outcome(a, b, first_claim_from(a.plugins@, node, 0)->0, node, sources, start, end, Ok(()), fuel)
}

/// An element with children that no plugin claims.
pub open spec fn nested_element(a: HtmlEmitter, node: Node) -> bool {
    !is_binding(node) && !is_raw_text(node) && !is_escaped_text(node) && unclaimed(a.plugins@, node)
        && node.children is Some
}

/// The output of an element with children, from `start` to `end`: the
/// opening tag and a line break, the walk of the children one level deeper
/// with a fork of the variables as the trace `kid` records, then the
/// indentation and the closing tag.
pub open spec fn children_traced(
    a: HtmlEmitter,
    b: HtmlEmitter,
    start: Seq<char>,
    end: Seq<char>,
    node: Node,
    kid: Trace,
    sources: Sources,
    fuel: usize,
) -> bool
    decreases node, 0nat,
{
    let indent = indent_text(a.indent, a.current_level, node.leading@);
    let doc = node.children->0@;
    &&& node.children is Some
    &&& kid.states.len() == doc.len() + 1
    &&& kid.outs.len() == doc.len() + 1
    &&& fuel > 0
    &&& traced(kid, doc, doc.len() as nat, sources, (fuel - 1) as usize)
    &&& kid.states[0].vars@ == a.vars@
    &&& kid.states[0].indent == a.indent
    &&& kid.states[0].current_level == deeper(a.current_level)
    &&& kid.states[0].filename == a.filename
    &&& kid.states[0].plugins == a.plugins
    &&& kid.outs[0] == start + open_tag(indent, node.name@, node.entries@, a.vars@) + newline(a.indent)
    &&& end == kid.outs[doc.len() as int] + indent + close_tag(node.name@) + newline(a.indent)
    &&& b.plugins == kid.states[doc.len() as int].plugins
}

/// `t` records a whole walk of `doc` from the emitter `a` and the output
/// `start` to the emitter `b` and the output `end`.
pub open spec fn walk_traced(
    t: Trace,
    doc: Seq<Node>,
    a: HtmlEmitter,
    b: HtmlEmitter,
    start: Seq<char>,
    end: Seq<char>,
    sources: Sources,
    fuel: usize,
) -> bool {
    &&& t.states.len() == doc.len() + 1
    &&& t.outs.len() == doc.len() + 1
    &&& traced(t, doc, doc.len() as nat, sources, fuel)
    &&& t.states[0] == a
    &&& t.outs[0] == start
    &&& t.states[doc.len() as int] == b
    &&& t.outs[doc.len() as int] == end
}

/// A trace stays a record of the first `k` nodes when entries past them
/// change.
pub proof fn lemma_traced_prefix(t: Trace, u: Trace, doc: Seq<Node>, k: nat, sources: Sources, fuel: usize)
    requires
        traced(t, doc, k, sources, fuel),
        u.states.len() > k,
        u.outs.len() > k,
        u.kids.len() >= k,
        forall|j: int| 0 <= j <= k ==> u.states[j] == t.states[j] && u.outs[j] == t.outs[j],
        forall|j: int| 0 <= j < k ==> u.kids[j] == t.kids[j],
    ensures
        traced(u, doc, k, sources, fuel),
    decreases k,
{
    if k > 0 {
        lemma_traced_prefix(t, u, doc, (k - 1) as nat, sources, fuel);
    }
}

/// An empty trace.
pub open spec fn no_trace() -> Trace {
    Trace { states: Seq::empty(), outs: Seq::empty(), kids: Seq::empty() }
}

/// The walk over `doc` went through `states` and `outs`: one step per node,
/// in order.
pub open spec fn walked(states: Seq<HtmlEmitter>, outs: Seq<Seq<char>>, doc: Seq<Node>) -> bool {
    &&& states.len() == doc.len() + 1
    &&& outs.len() == doc.len() + 1
    &&& forall|j: int| 0 <= j < doc.len() ==> node_step(states[j], states[j + 1], outs[j], outs[j + 1], #[trigger] doc[j])
}

/// The children of `node` render without fail within `d` levels.
pub open spec fn body_renders(plugins: Seq<TemplatePlugin>, node: Node, d: nat) -> bool {
    node.children is Some && all_simple(plugins, view_nodes(node.children->0@), node.children->0.len() as nat, d)
}

/// Every child of `node` renders without fail.
pub open spec fn body_is_simple(plugins: Seq<TemplatePlugin>, node: Node) -> bool {
    node.children is Some && forall|j: int|
        0 <= j < node.children->0.len() ==> simple_node(plugins, #[trigger] node.children->0@[j])
}

/// A call of the template `name` of plugin `i` that passes both checks and
/// whose body, once the call's children are spliced in and the props
/// forwarded, renders without fail within `d` levels.
pub open spec fn call_owed(
    plugins: Seq<TemplatePlugin>,
    i: int,
    name: Seq<char>,
    node: Node,
    env: Map<Seq<char>, Seq<char>>,
    d: nat,
) -> bool {
    &&& plugins[i].template_index(name) is Some
    &&& ({
        let t = plugins[i].templates@[plugins[i].template_index(name)->0].1;
        &&& node.children is Some ==> t.uses_children
        &&& !contains_command(node@, children_cmd())
        &&& forall|p: String|
            #![trigger forwarded(spliced_body(t.node@, node@), p)]
            p@ == props_of(node.entries@, params_view(t.params@), env) ==> all_simple(
                plugins,
                forwarded(spliced_body(t.node@, node@), p),
                forwarded(spliced_body(t.node@, node@), p).len(),
                d,
            )
    })
}

/// The node names a file by a string argument.
pub open spec fn has_path_arg(node: Node) -> bool {
    positional(node.entries@).len() > 0 && positional(node.entries@)[0] is String
}

/// The path an import names, resolved against the emitter's file.
pub open spec fn import_target(e: HtmlEmitter, node: Node) -> Seq<char> {
    resolved(file_text(e.filename), expand(positional(node.entries@)[0]->String_0@, e.vars@))
}

/// The first record for `path` says that no such file exists.
pub open spec fn first_is_missing(sources: Sources, path: Seq<char>) -> bool {
    sources.first_record(path) matches Some(j) && sources.files@[j].1 is Missing
}

/// The first record for `path` says the file could not be read.
pub open spec fn first_is_unreadable(sources: Sources, path: Seq<char>) -> bool {
    sources.first_record(path) matches Some(j) && sources.files@[j].1 is Unreadable
}

/// A well-formed template definition: `template` with a first argument as
/// its name, and a body.
pub open spec fn is_definition(node: Node) -> bool {
    command_of(node.name@) == Some(seq!['t', 'e', 'm', 'p', 'l', 'a', 't', 'e']) && node.children is Some
        && positional(node.entries@).len() > 0
}

/// The build stopped for want of the file `path`.
pub open spec fn not_loaded(r: Result<(), Error>, path: Seq<char>) -> bool {
    r matches Err(Error::SourceNotLoaded { path: p }) && p@ == path
}

/// An import whose file is loaded and renders without fail: in place, every
/// top-level node is simple; otherwise each top-level command is a
/// well-formed template definition.
pub open spec fn import_owed(e: HtmlEmitter, node: Node, sources: Sources, in_place: bool) -> bool {
    &&& has_path_arg(node)
    &&& sources.first_record(import_target(e, node)) matches Some(j) && sources.files@[j].1 is Loaded && ({
        let doc = sources.files@[j].1->Loaded_0@;
        if in_place {
            forall|k: int| 0 <= k < doc.len() ==> simple_node(e.plugins@, #[trigger] doc[k])
        } else {
            forall|k: int|
                0 <= k < doc.len() ==> command_of((#[trigger] doc[k]).name@) is None || is_definition(doc[k])
        }
    })
}

/// What a loop owes: a malformed one is a user error that writes nothing;
/// a well-formed one over a simple body succeeds when depth remains.
pub open spec fn for_outcome(
    a: HtmlEmitter,
    node: Node,
    start: Seq<char>,
    end: Seq<char>,
    r: Result<(), Error>,
    fuel: usize,
) -> bool {
    &&& !for_args_ok(node) ==> is_user_error(r) && end == start
    &&& for_args_ok(node) && fuel > 0 && body_is_simple(a.plugins@, node) ==> r is Ok
    &&& for_args_ok(node) && fuel > 0 && body_renders(a.plugins@, node, (fuel - 1) as nat) ==> r is Ok
}

/// What a template definition owes: it succeeds exactly when the node has
/// children and a name, as its first argument or a `name` property, and then
/// a template of that name is registered; it fails with a user error.
pub open spec fn template_outcome(a: HtmlEmitter, b: HtmlEmitter, i: int, node: Node, r: Result<(), Error>) -> bool {
    &&& r is Err ==> is_user_error(r) && b == a
    &&& r is Ok ==> registered(a, b, i, node)
    &&& r is Ok && positional(node.entries@).len() > 0 ==> b.plugins@[i].has_template(
        expand_text(positional(node.entries@)[0], a.vars@),
    )
    &&& r is Ok <==> node.children is Some && (positional(node.entries@).len() > 0 || exists|j: int|
        0 <= j < node.entries.len() && crate::node::has_name(node.entries@[j], seq!['n', 'a', 'm', 'e']))
}

/// `nm` is the name a template definition gives: its first argument, or a
/// `name` property, expanded in the emitter `a`.
pub open spec fn name_of_definition(a: HtmlEmitter, node: Node, nm: Seq<char>) -> bool {
    &&& positional(node.entries@).len() > 0 ==> nm == expand_text(positional(node.entries@)[0], a.vars@)
    &&& positional(node.entries@).len() == 0 ==> exists|j: int|
        0 <= j < node.entries.len() && crate::node::has_name(node.entries@[j], seq!['n', 'a', 'm', 'e']) && nm
            == expand_text(node.entries@[j].value, a.vars@)
}

/// The template that `p` finds first under `nm` is the one `node` defines:
/// its body, its parameters, and whether it splices children.
pub open spec fn template_stored(p: TemplatePlugin, nm: Seq<char>, node: Node) -> bool {
    p.template_index(nm) matches Some(k) && 0 <= k < p.templates.len() && p.templates@[k].1.node@ == template_of(
        node@,
    ).0 && params_view(p.templates@[k].1.params@) == template_of(node@).1 && p.templates@[k].1.uses_children
        == contains_command(template_of(node@).0, children_cmd())
}

/// From `a` to `b`, plugin `i` registered the template that `node` defines
/// under the name it gives; nothing else changed.
pub open spec fn registered(a: HtmlEmitter, b: HtmlEmitter, i: int, node: Node) -> bool {
    &&& exists|nm: Seq<char>|
        #![trigger b.plugins@[i].template_index(nm)]
        name_of_definition(a, node, nm) && template_stored(b.plugins@[i], nm, node)
    &&& b.plugins.len() == a.plugins.len()
    &&& forall|j: int| 0 <= j < a.plugins.len() && j != i ==> b.plugins@[j] == a.plugins@[j]
    &&& b.plugins@[i].deps == a.plugins@[i].deps
    &&& b.vars == a.vars
    &&& b.indent == a.indent && b.current_level == a.current_level && b.filename == a.filename
}

/// What an import owes: a user error without a path argument or when the
/// file is missing, a request for the file when it was not supplied, and
/// success when the loaded file renders without fail.
pub open spec fn import_outcome(
    a: HtmlEmitter,
    b: HtmlEmitter,
    i: int,
    node: Node,
    sources: Sources,
    in_place: bool,
    start: Seq<char>,
    end: Seq<char>,
    r: Result<(), Error>,
    fuel: usize,
) -> bool {
    &&& !has_path_arg(node) ==> is_user_error(r) && end == start
    &&& has_path_arg(node) && sources.first_record(import_target(a, node)) is None ==> not_loaded(
        r,
        import_target(a, node),
    ) && end == start
    &&& has_path_arg(node) && first_is_missing(sources, import_target(a, node)) ==> is_user_error(r) && end
        == start
    &&& import_owed(a, node, sources, in_place) && fuel > 0 ==> r is Ok
    &&& r is Ok ==> has_path_arg(node) && b.plugins@[i].records(file_text(a.filename)) && b.plugins@[i].records(
        import_target(a, node),
    ) && b.plugins@[i].has_edge(file_text(a.filename), import_target(a, node))
}

/// What a template call owes: a user error that writes nothing when no
/// template has the name, when children are passed to a template without
/// `@children`, or when the call holds `@children` itself; success when the
/// call is owed and depth remains.
pub open spec fn call_outcome(
    a: HtmlEmitter,
    i: int,
    name: Seq<char>,
    node: Node,
    start: Seq<char>,
    end: Seq<char>,
    r: Result<(), Error>,
    fuel: usize,
) -> bool {
    let p = a.plugins@[i];
    &&& p.template_index(name) is None ==> is_user_error(r) && end == start
    &&& (p.template_index(name) matches Some(k) && node.children is Some && !p.templates@[k].1.uses_children)
        ==> is_user_error(r) && end == start
    &&& p.template_index(name) is Some && contains_command(node@, children_cmd()) ==> is_user_error(r) && end
        == start
    &&& fuel > 0 && call_owed(a.plugins@, i, name, node, a.vars@, (fuel - 1) as nat) ==> r is Ok
}

/// `ps` holds each variable of `env` once, with its value.
pub open spec fn lists_vars(ps: Seq<(String, String)>, env: Map<Seq<char>, Seq<char>>) -> bool {
    &&& forall|i: int| 0 <= i < ps.len() ==> #[trigger] env.contains_key(ps[i].0@) && env[ps[i].0@] == ps[i].1@
    &&& forall|k: Seq<char>| #[trigger] env.contains_key(k) ==> exists|i: int| 0 <= i < ps.len() && ps[i].0@ == k
    &&& forall|i: int, j: int| 0 <= i < j < ps.len() ==> ps[i].0@ != ps[j].0@
}

/// The lines `name = "value"` of a variable listing.
pub open spec fn dbg_listing(ps: Seq<(String, String)>) -> Seq<char>
    decreases ps.len(),
{
    if ps.len() == 0 {
        Seq::empty()
    } else {
        dbg_listing(ps.drop_last()) + ps.last().0@ + seq![' ', '=', ' ', '"'] + ps.last().1@ + seq!['"', '\n']
    }
}

/// `<pre><code>`.
pub open spec fn pre_open() -> Seq<char> {
    seq!['<', 'p', 'r', 'e', '>', '<', 'c', 'o', 'd', 'e', '>']
}

/// `</code></pre>`.
pub open spec fn pre_close() -> Seq<char> {
    seq!['<', '/', 'c', 'o', 'd', 'e', '>', '<', '/', 'p', 'r', 'e', '>']
}

/// Whether plugin `i` claims `node`.
pub open spec fn claims(p: TemplatePlugin, node: Node) -> bool {
    command_of(node.name@) is Some && (is_builtin(command_of(node.name@)->0) || p.has_template(
        command_of(node.name@)->0,
    ))
}

/// The first plugin at or after `i` that claims `node`.
pub open spec fn first_claim_from(plugins: Seq<TemplatePlugin>, node: Node, i: int) -> Option<int>
    decreases plugins.len() - i,
{
    if i < 0 || i >= plugins.len() {
        None
    } else if claims(plugins[i], node) {
        Some(i)
    } else {
        first_claim_from(plugins, node, i + 1)
    }
}

/// A result without its flag.
pub open spec fn as_unit(r: Result<bool, Error>) -> Result<(), Error> {
    match r {
        Ok(_) => Ok(()),
        Err(e) => Err(e),
    }
}

/// What running the command of plugin `i` for `node` owes, command by
/// command: a node that is no command does nothing; `dbg` succeeds;
/// `@children` is a user error; loops, template definitions, imports and
/// template calls owe what `for_outcome`, `template_outcome`,
/// `import_outcome` and `call_outcome` say.
pub open spec fn command_outcome(
    a: HtmlEmitter,
    b: HtmlEmitter,
    i: int,
    node: Node,
    sources: Sources,
    start: Seq<char>,
    end: Seq<char>,
    r: Result<(), Error>,
    fuel: usize,
) -> bool {
    let c = command_of(node.name@);
    &&& c is None ==> r is Ok && end == start
    &&& c == Some(seq!['d', 'b', 'g']) ==> r is Ok
    &&& c == Some(children_cmd()) ==> is_user_error(r) && end == start
    &&& c == Some(seq!['f', 'o', 'r']) ==> for_outcome(a, node, start, end, r, fuel)
    &&& c == Some(seq!['t', 'e', 'm', 'p', 'l', 'a', 't', 'e']) ==> template_outcome(a, b, i, node, r)
    &&& c == Some(seq!['i', 'm', 'p', 'o', 'r', 't']) ==> import_outcome(a, b, i, node, sources, false, start, end, r, fuel)
    &&& c == Some(in_place_cmd()) ==> import_outcome(a, b, i, node, sources, true, start, end, r, fuel)
    &&& c is Some && !is_builtin(c->0) && c->0 != children_cmd() ==> call_outcome(
        a,
        i,
        c->0,
        node,
        start,
        end,
        r,
        fuel,
    )
}

/// One step of running a file's top-level commands: a node that is no
/// command changes nothing; a command runs as its claiming plugin owes.
pub open spec fn dispatch_step(
    a: HtmlEmitter,
    b: HtmlEmitter,
    start: Seq<char>,
    end: Seq<char>,
    node: Node,
    sources: Sources,
    fuel: usize,
) -> bool {
    &&& keeps(a, b)
    &&& command_of(node.name@) is None ==> b == a
    &&& command_of(node.name@) is Some && first_claim_from(a.plugins@, node, 0) is Some ==> command_outcome(
        a,
        b,
        first_claim_from(a.plugins@, node, 0)->0,
        node,
        sources,
        start,
        end,
        Ok(()),
        fuel,
    )
}

/// The top-level commands of `doc` ran through `states`, one step per node.
pub open spec fn dispatched(
    states: Seq<HtmlEmitter>,
    outs: Seq<Seq<char>>,
    doc: Seq<Node>,
    sources: Sources,
    fuel: usize,
) -> bool {
    &&& states.len() == doc.len() + 1
    &&& outs.len() == doc.len() + 1
    &&& forall|j: int|
        0 <= j < doc.len() ==> dispatch_step(states[j], states[j + 1], outs[j], outs[j + 1], #[trigger] doc[j], sources, fuel)
}

/// The values a well-formed loop runs over: the integers of its `@range`,
/// or the arguments after `in`.
pub open spec fn loop_values(node: Node) -> Seq<Value> {
    let a = positional(node.entries@);
    if a.len() >= 3 && a[2] is String && a[2]->String_0@ == range_marker() {
        crate::plugin::range_of(a.subrange(3, a.len() as int))->0.map_values(|n: int| Value::Integer(n as i128))
    } else {
        a.subrange(2, a.len() as int)
    }
}

/// One pass of a loop started from the emitter `a`: the body walked from
/// `start`, in a scope where `name` is bound to the expanded value `v`.
pub open spec fn loop_pass(
    a: HtmlEmitter,
    body: Seq<Node>,
    name: Seq<char>,
    v: Value,
    states: Seq<HtmlEmitter>,
    outs: Seq<Seq<char>>,
) -> bool {
    &&& walked(states, outs, body)
    &&& states[0].vars@ == a.vars@.insert(name, expand_text(v, a.vars@))
    &&& states[0].indent == a.indent
    &&& states[0].current_level == a.current_level
    &&& states[0].filename == a.filename
}

/// The passes of a loop chain up: each starts where the one before ended,
/// the first where the loop started.
pub open spec fn passes_chain(
    a: HtmlEmitter,
    start: Seq<char>,
    body: Seq<Node>,
    name: Seq<char>,
    vals: Seq<Value>,
    runs: Seq<(Seq<HtmlEmitter>, Seq<Seq<char>>)>,
) -> bool {
    &&& runs.len() == vals.len()
    &&& forall|j: int|
        0 <= j < vals.len() ==> loop_pass(a, body, name, vals[j], (#[trigger] runs[j]).0, runs[j].1)
    &&& vals.len() > 0 ==> runs[0].1[0] == start && runs[0].0[0].plugins == a.plugins
    &&& forall|j: int|
        0 < j < vals.len() ==> (#[trigger] runs[j]).1[0] == runs[j - 1].1[body.len() as int]
            && runs[j].0[0].plugins == runs[j - 1].0[body.len() as int].plugins
}

/// How deep documents may nest, counting templates, loops and imports.
pub const MAX_DEPTH: usize = 200;

/// A builder for emitters.
pub struct HtmlEmitterBuilder {
    pub indent: Option<usize>,
    pub plugins: Vec<TemplatePlugin>,
}

impl HtmlEmitterBuilder {
    /// A builder that indents each level by four spaces, with no plugins.
    pub fn new() -> (r: HtmlEmitterBuilder)
        ensures
            r.indent == Some(4usize),
            r.plugins.len() == 0,
    {
        HtmlEmitterBuilder { indent: Some(4), plugins: Vec::new() }
    }

    /// Indents each node as the source did.
    pub fn follow_original_indent(&mut self)
        ensures
            final(self).indent is None,
            final(self).plugins == old(self).plugins,
    {
        self.indent = None;
    }

    /// Indents each level by `indent` spaces.
    pub fn indent(&mut self, indent: usize)
        ensures
            final(self).indent == Some(indent),
            final(self).plugins == old(self).plugins,
    {
        self.indent = Some(indent);
    }

    /// Leaves out indentation and line breaks.
    pub fn minify(&mut self)
        ensures
            final(self).indent == Some(0usize),
            final(self).plugins == old(self).plugins,
    {
        self.indent = Some(0);
    }

    /// Adds a plugin after those already added.
    pub fn add_plugin(&mut self, plugin: TemplatePlugin)
        ensures
            final(self).plugins@ == old(self).plugins@.push(plugin),
            final(self).indent == old(self).indent,
    {
        self.plugins.push(plugin);
    }

    /// An emitter for the file `filename`, at the top level, with no
    /// variables, and with plugins that have no templates and an empty graph.
    pub fn build(&self, filename: Option<String>) -> (r: HtmlEmitter)
        ensures
            r.wf(),
            r.indent == self.indent,
            r.current_level == 0,
            r.vars@ == Map::<Seq<char>, Seq<char>>::empty(),
            r.filename == filename,
            r.plugins.len() == self.plugins.len(),
            forall|j: int| 0 <= j < r.plugins.len() ==> (#[trigger] r.plugins@[j]).templates.len() == 0
                && r.plugins@[j].deps.len() == 0,
    {
        let mut plugins: Vec<TemplatePlugin> = Vec::new();
        let mut i: usize = 0;
        while i < self.plugins.len()
            invariant
                i <= self.plugins.len(),
                plugins.len() == i,
                forall|j: int| 0 <= j < i ==> (#[trigger] plugins@[j]).templates.len() == 0 && plugins@[j].deps.len()
                    == 0,
            decreases self.plugins.len() - i,
        {
            plugins.push(TemplatePlugin::new());
            i = i + 1;
        }
        HtmlEmitter { indent: self.indent, current_level: 0, vars: Vars::empty(), filename, plugins }
    }
}

/// The plugins of `b` hold at least what those of `a` held.
pub open spec fn plugins_grow(a: Seq<TemplatePlugin>, b: Seq<TemplatePlugin>) -> bool {
    a.len() == b.len() && forall|i: int| 0 <= i < a.len() ==> (#[trigger] a[i]).grows_to(&b[i])
}

/// Growth of the plugins' state is transitive.
pub proof fn lemma_plugins_grow_trans(a: Seq<TemplatePlugin>, b: Seq<TemplatePlugin>, c: Seq<TemplatePlugin>)
    requires
        plugins_grow(a, b),
        plugins_grow(b, c),
    ensures
        plugins_grow(a, c),
{
    assert forall|i: int| 0 <= i < a.len() implies (#[trigger] a[i]).grows_to(&c[i]) by {
        assert(a[i].grows_to(&b[i]));
        assert(b[i].grows_to(&c[i]));
    }
}

/// A file recorded by a plugin stays recorded while the state grows: after
/// a build whose imports recorded some files, all of them are still there.
pub proof fn lemma_recorded_stays(a: Seq<TemplatePlugin>, b: Seq<TemplatePlugin>, i: int, path: Seq<char>)
    requires
        plugins_grow(a, b),
        0 <= i < a.len(),
        a[i].records(path),
    ensures
        b[i].records(path),
{
    assert(a[i].grows_to(&b[i]));
}

/// Every state grows to itself.
pub proof fn lemma_plugins_grow_refl(a: Seq<TemplatePlugin>)
    ensures
        plugins_grow(a, a),
{
}

/// The emitter: its configuration, its depth, its variables, the file it
/// renders, and its plugins.
pub struct HtmlEmitter {
    /// Spaces per level, or `None` to follow the source's indentation.
    pub indent: Option<usize>,
    /// How deep this emitter is below the root.
    pub current_level: usize,
    pub vars: Vars,
    pub filename: Option<String>,
    pub plugins: Vec<TemplatePlugin>,
}

/// What a step of the walk keeps: the configuration, the depth and file, the
/// number of plugins, well-formed variables, and state that only grows.
pub open spec fn keeps(a: HtmlEmitter, b: HtmlEmitter) -> bool {
    &&& b.wf()
    &&& b.indent == a.indent
    &&& b.current_level == a.current_level
    &&& b.filename == a.filename
    &&& plugins_grow(a.plugins@, b.plugins@)
}

impl HtmlEmitter {
    /// The variables are well formed.
    pub open spec fn wf(&self) -> bool {
        self.vars.wf()
    }

    /// A builder with default settings.
    pub fn builder() -> (r: HtmlEmitterBuilder)
        ensures
            r.indent == Some(4usize),
            r.plugins.len() == 0,
    {
        HtmlEmitterBuilder::new()
    }

    /// Whether the output leaves out indentation and line breaks.
    pub fn is_minify(&self) -> (r: bool)
        ensures
            r == (self.indent == Some(0usize)),
    {
        match self.indent {
            Some(w) => w == 0,
            None => false,
        }
    }

    /// Whether the output is indented and broken into lines.
    pub fn is_pretty(&self) -> (r: bool)
        ensures
            r == (self.indent != Some(0usize)),
    {
        !self.is_minify()
    }

    /// Expands the variables of this emitter in `text`.
    pub fn expand_string(&self, text: &str) -> (r: String)
        requires
            self.wf(),
        ensures
            r@ == expand(text@, self.vars@),
    {
        self.vars.expand_string(text)
    }

    /// The text of `value` with this emitter's variables expanded.
    pub fn expand_value(&self, value: &Value) -> (r: String)
        requires
            self.wf(),
        ensures
            r@ == expand_text(*value, self.vars@),
    {
        self.vars.expand_value(value)
    }

    /// Writes a line break unless minified.
    pub fn write_line(&self, out: &mut String)
        ensures
            final(out)@ == old(out)@ + newline(self.indent),
    {
        if !self.is_minify() {
            push_char(out, '\n');
        } else {
            assert(old(out)@ + Seq::<char>::empty() =~= old(out)@);
        }
    }

    /// The indentation for `node` at this emitter's level.
    pub fn indent(&self, node: &Node) -> (r: String)
        ensures
            r@ == indent_text(self.indent, self.current_level, node.leading@),
    {
        match self.indent {
            None => node.leading.clone(),
            Some(w) => {
                let mut out = String::new();
                let mut level: usize = 0;
                while level < self.current_level
                    invariant
                        level <= self.current_level,
                        out@ == spaces((level * w) as nat),
                    decreases self.current_level - level,
                {
                    let mut k: usize = 0;
                    while k < w
                        invariant
                            k <= w,
                            level < self.current_level,
                            out@ == spaces((level * w + k) as nat),
                        decreases w - k,
                    {
                        push_char(&mut out, ' ');
                        k = k + 1;
                        assert(out@ =~= spaces((level * w + k) as nat));
                    }
                    assert((level + 1) * w == level * w + w) by (nonlinear_arith);
                    level = level + 1;
                }
                out
            },
        }
    }

    /// An emitter for the same level, with a fork of the variables; the
    /// plugins move to it until `restore` brings them back.
    pub fn scope(&mut self) -> (r: HtmlEmitter)
        requires
            old(self).wf(),
        ensures
            r.wf(),
            r.indent == old(self).indent,
            r.current_level == old(self).current_level,
            r.filename == old(self).filename,
            r.vars@ == old(self).vars@,
            r.plugins == old(self).plugins,
            final(self).wf(),
            final(self).vars == old(self).vars,
            final(self).indent == old(self).indent,
            final(self).current_level == old(self).current_level,
            final(self).filename == old(self).filename,
    {
        let mut plugins = Vec::new();
        std::mem::swap(&mut plugins, &mut self.plugins);
        HtmlEmitter {
            indent: self.indent,
            current_level: self.current_level,
            vars: self.vars.fork(),
            filename: self.filename.clone(),
            plugins,
        }
    }

    /// An emitter one level deeper, with a fork of the variables; the
    /// plugins move to it until `restore` brings them back.
    pub fn subemitter(&mut self) -> (r: HtmlEmitter)
        requires
            old(self).wf(),
        ensures
            r.wf(),
            r.indent == old(self).indent,
            r.current_level == deeper(old(self).current_level),
            r.filename == old(self).filename,
            r.vars@ == old(self).vars@,
            r.plugins == old(self).plugins,
            final(self).wf(),
            final(self).vars == old(self).vars,
            final(self).indent == old(self).indent,
            final(self).current_level == old(self).current_level,
            final(self).filename == old(self).filename,
    {
        let mut sub = self.scope();
        if sub.current_level < usize::MAX {
            sub.current_level = sub.current_level + 1;
        }
        sub
    }

    /// Takes the plugins back from an emitter made by `scope` or `subemitter`.
    pub fn restore(&mut self, sub: HtmlEmitter)
        ensures
            final(self).plugins == sub.plugins,
            final(self).vars == old(self).vars,
            final(self).indent == old(self).indent,
            final(self).current_level == old(self).current_level,
            final(self).filename == old(self).filename,
    {
        self.plugins = sub.plugins;
    }

    /// Writes the text of `content` with variables expanded and HTML escaped,
    /// on a line of its own.
    pub fn emit_text_node(&self, indent: &str, content: &Value, out: &mut String)
        requires
            self.wf(),
        ensures
            final(out)@ == old(out)@ + indent@ + escape_text(expand_text(*content, self.vars@))
                + newline(self.indent),
    {
        append_str(out, indent);
        let text = self.vars.expand_value(content);
        let escaped = encode_text(text.as_str());
        append_str(out, escaped.as_str());
        self.write_line(out);
    }

    /// Writes the text of `content` with variables expanded and nothing
    /// escaped, on a line of its own.
    pub fn emit_raw_text(&self, indent: &str, content: &Value, out: &mut String)
        requires
            self.wf(),
        ensures
            final(out)@ == old(out)@ + indent@ + expand_text(*content, self.vars@) + newline(self.indent),
    {
        append_str(out, indent);
        let text = self.vars.expand_value(content);
        append_str(out, text.as_str());
        self.write_line(out);
    }

    /// Binds a variable when `node` is `$name value`: the name without its
    /// sigil gets the expanded first argument.
    pub fn variable_node(&mut self, node: &Node) -> (r: bool)
        requires
            old(self).wf(),
        ensures
            final(self).wf(),
            r == (node.name@.len() > 0 && node.name@[0] == '$' && positional_len(node) > 0),
            r ==> final(self).vars@ == old(self).vars@.insert(
                node.name@.drop_first(),
                expand_text(crate::node::positional(node.entries@)[0], old(self).vars@),
            ),
            !r ==> *final(self) == *old(self),
            final(self).indent == old(self).indent,
            final(self).current_level == old(self).current_level,
            final(self).filename == old(self).filename,
            final(self).plugins == old(self).plugins,
    {
        let cs = chars_of(node.name.as_str());
        if cs.len() == 0 || cs[0] != '$' {
            return false;
        }
        let v = match node.arg(0) {
            Some(v) => v,
            None => return false,
        };
        let mut rest: Vec<char> = Vec::new();
        let mut i: usize = 1;
        while i < cs.len()
            invariant
                1 <= i <= cs.len(),
                rest@ == cs@.subrange(1, i as int),
            decreases cs.len() - i,
        {
            rest.push(cs[i]);
            i = i + 1;
            assert(rest@ =~= cs@.subrange(1, i as int));
        }
        assert(rest@ =~= node.name@.drop_first());
        let key = string_of(&rest);
        let value = self.vars.expand_value(&v);
        self.vars.insert_string(key, value);
        true
    }
}

impl HtmlEmitter {
    /// Writes the attributes `es`.
    pub fn write_attrs(&self, es: &Vec<Entry>, n: usize, out: &mut String)
        requires
            self.wf(),
            n <= es.len(),
        ensures
            final(out)@ == old(out)@ + attrs_text(es@.subrange(0, n as int), self.vars@),
    {
        let mut i: usize = 0;
        assert(old(out)@ + attrs_text(es@.subrange(0, 0), self.vars@) =~= old(out)@);
        while i < n
            invariant
                self.wf(),
                n <= es.len(),
                i <= n,
                out@ == old(out)@ + attrs_text(es@.subrange(0, i as int), self.vars@),
            decreases n - i,
        {
            assert(es@.subrange(0, i + 1).drop_last() =~= es@.subrange(0, i as int));
            let ghost before = out@;
            let e = &es[i];
            let v = self.vars.expand_value(&e.value);
            if !v.as_str().is_empty() {
                push_char(out, ' ');
                match &e.name {
                    Some(name) => {
                        let nm = self.vars.expand_string(name.as_str());
                        append_str(out, nm.as_str());
                        push_char(out, '=');
                        push_char(out, '"');
                        append_str(out, v.as_str());
                        push_char(out, '"');
                    },
                    None => {
                        append_str(out, v.as_str());
                    },
                }
                assert(out@ =~= before + attr_text(es@[i as int], self.vars@));
            } else {
                assert(attr_text(es@[i as int], self.vars@) =~= Seq::<char>::empty());
                assert(out@ =~= before + attr_text(es@[i as int], self.vars@));
            }
            i = i + 1;
        }
    }

    /// Renders `node` as the element `name` at indentation `indent`: its
    /// attributes, then its inline text (escaped) or its children one level
    /// deeper, then the closing tag. Void tags close at once, and one with
    /// children is an error.
    #[verifier::rlimit(60)]
    pub fn emit_tag(
        &mut self,
        node: &Node,
        name: &str,
        indent: &str,
        sources: &Sources,
        out: &mut String,
        fuel: usize,
    ) -> (r: Result<(), Error>)
        requires
            old(self).wf(),
        ensures
            keeps(*old(self), *final(self)),
            final(self).vars == old(self).vars,
            old(out)@.is_prefix_of(final(out)@),
            is_void(name@) && node.children is Some ==> is_user_error(r) && final(out)@
                == old(out)@,
            mixed_text(*node, name@) ==> is_user_error(r) && final(out)@ == old(out)@,
            r is Ok && node.children is Some ==> fuel > 0,
            (is_void(name@) && node.children is Some) || mixed_text(*node, name@) ==> *final(self) == *old(self),
            r is Err ==> node.children is Some,
            node.children is None ==> *final(self) == *old(self),
            !is_void(name@) && node.children is Some && !mixed_text(*node, name@) && fuel > 0 && (forall|j: int|
                0 <= j < node.children->0.len() ==> simple_node(old(self).plugins@, #[trigger] node.children->0@[j]))
                ==> r is Ok && final(self).plugins == old(self).plugins,
            !is_void(name@) && node.children is Some && !mixed_text(*node, name@) && fuel > 0 && all_simple(
                old(self).plugins@,
                view_nodes(node.children->0@),
                node.children->0.len() as nat,
                (fuel - 1) as nat,
            ) ==> r is Ok && final(self).plugins == old(self).plugins,
            r is Ok ==> tag_rendered(
                old(out)@,
                final(out)@,
                *node,
                name@,
                indent@,
                old(self).vars@,
                old(self).indent,
            ),
            r is Ok && node.children is Some ==> exists|states: Seq<HtmlEmitter>, outs: Seq<Seq<char>>|
                #![trigger walked(states, outs, node.children->0@)]
                {
                    let doc = node.children->0@;
                    &&& walked(states, outs, doc)
                    &&& states[0].vars@ == old(self).vars@
                    &&& states[0].indent == old(self).indent
                    &&& states[0].current_level == deeper(old(self).current_level)
                    &&& states[0].filename == old(self).filename
                    &&& states[0].plugins == old(self).plugins
                    &&& outs[0] == old(out)@ + open_tag(indent@, name@, node.entries@, old(self).vars@) + newline(
                        old(self).indent,
                    )
                    &&& final(out)@ == outs[doc.len() as int] + indent@ + close_tag(name@) + newline(old(self).indent)
                    &&& final(self).plugins == states[doc.len() as int].plugins
                },
            r is Ok && node.children is Some ==> exists|t: Trace|
                #![trigger traced(t, node.children->0@, node.children->0.len() as nat, *sources, (fuel - 1) as usize)]
                {
                    let doc = node.children->0@;
                    &&& t.states.len() == doc.len() + 1
                    &&& t.outs.len() == doc.len() + 1
                    &&& traced(t, doc, doc.len() as nat, *sources, (fuel - 1) as usize)
                    &&& t.states[0].vars@ == old(self).vars@
                    &&& t.states[0].indent == old(self).indent
                    &&& t.states[0].current_level == deeper(old(self).current_level)
                    &&& t.states[0].filename == old(self).filename
                    &&& t.states[0].plugins == old(self).plugins
                    &&& t.outs[0] == old(out)@ + open_tag(indent@, name@, node.entries@, old(self).vars@) + newline(
                        old(self).indent,
                    )
                    &&& final(out)@ == t.outs[doc.len() as int] + indent@ + close_tag(name@) + newline(old(self).indent)
                    &&& final(self).plugins == t.states[doc.len() as int].plugins
                },
        decreases fuel, 1nat,
    {
        let ghost start = out@;
        let ghost env = self.vars@;
        let ghost mut witness: (Seq<HtmlEmitter>, Seq<Seq<char>>) = (Seq::empty(), Seq::empty());
        let ghost mut after_walk: Seq<char> = Seq::empty();
        let ghost mut kid: Trace = no_trace();
        let void = is_void_tag(name);
        let nested = node.children.is_some();
        if void && nested {
            let mut m = String::new();
            append_str(&mut m, "Void tags can't have children");
            return Err(err(m));
        }
        let len = node.entries.len();
        if !void && nested && len > 0 && node.entries[len - 1].is_text() {
            let mut m = String::new();
            append_str(&mut m, "Tags can't have both text and children");
            return Err(err(m));
        }
        append_str(out, indent);
        push_char(out, '<');
        append_str(out, name);
        let inline = !void && !nested && len > 0 && node.entries[len - 1].is_text();
        let n = if inline { len - 1 } else { len };
        proof {
            if inline {
                assert(node.entries@.subrange(0, n as int) =~= node.entries@.drop_last());
            } else {
                assert(node.entries@.subrange(0, n as int) =~= node.entries@);
            }
        }
        self.write_attrs(&node.entries, n, out);
        push_char(out, '>');
        let ghost open = open_tag(indent@, name@, attr_entries(node.entries@, nested, void), env);
        assert(out@ =~= start + open);
        if void {
            self.write_line(out);
            return Ok(());
        }
        if inline {
            let text = self.vars.expand_value(&node.entries[len - 1].value);
            let escaped = encode_text(text.as_str());
            append_str(out, escaped.as_str());
        } else if let Some(doc) = &node.children {
            self.write_line(out);
            let ghost mid = out@;
            if fuel == 0 {
                return Err(too_deep());
            }
            let res = self.emit_children(doc, sources, out, fuel);
            if let Err(e) = res {
                return Err(e);
            }
            proof {
                let (states, outs) = choose|states: Seq<HtmlEmitter>, outs: Seq<Seq<char>>|
                    #![trigger walked(states, outs, doc@)]
                    walked(states, outs, doc@) && states[0].vars@ == old(self).vars@ && states[0].indent
                        == old(self).indent && states[0].current_level == deeper(old(self).current_level)
                        && states[0].filename == old(self).filename && states[0].plugins == old(self).plugins
                        && outs[0] == mid && outs[doc.len() as int] == out@ && self.plugins
                        == states[doc.len() as int].plugins;
                assert(attr_entries(node.entries@, nested, void) == node.entries@);
                witness = (states, outs);
                after_walk = out@;
                kid = choose|t: Trace|
                    #![trigger traced(t, doc@, doc.len() as nat, *sources, (fuel - 1) as usize)]
                    t.states.len() == doc.len() + 1 && t.outs.len() == doc.len() + 1 && traced(t, doc@, doc.len() as nat, *sources, (fuel - 1) as usize)
                        && t.states[0].vars@ == old(self).vars@ && t.states[0].indent == old(self).indent
                        && t.states[0].current_level == deeper(old(self).current_level) && t.states[0].filename
                        == old(self).filename && t.states[0].plugins == old(self).plugins && t.outs[0] == mid
                        && t.outs[doc.len() as int] == out@ && self.plugins == t.states[doc.len() as int].plugins;
            }
            let ghost body = out@.subrange(mid.len() as int, out@.len() as int);
            assert(out@ =~= mid + body);
            append_str(out, indent);
        }
        let ghost before_close = out@;
        push_char(out, '<');
        push_char(out, '/');
        append_str(out, name);
        push_char(out, '>');
        assert(out@ =~= before_close + close_tag(name@));
        self.write_line(out);
        proof {
            if nested {
                assert(walked(witness.0, witness.1, node.children->0@));
                assert(traced(kid, node.children->0@, node.children->0.len() as nat, *sources, (fuel - 1) as usize));
                assert(out@ =~= witness.1[node.children->0@.len() as int] + indent@ + close_tag(name@) + newline(
                    old(self).indent,
                ));
            }
        }
        Ok(())
    }
}

impl HtmlEmitter {
    /// Renders the children `doc` of an element one level deeper, with a
    /// fork of the variables, so their bindings stay inside.
    pub fn emit_children(&mut self, doc: &Vec<Node>, sources: &Sources, out: &mut String, fuel: usize) -> (r:
        Result<(), Error>)
        requires
            old(self).wf(),
            fuel > 0,
        ensures
            keeps(*old(self), *final(self)),
            final(self).vars == old(self).vars,
            old(out)@.is_prefix_of(final(out)@),
            all_simple(old(self).plugins@, view_nodes(doc@), doc.len() as nat, (fuel - 1) as nat) ==> r is Ok
                && final(self).plugins == old(self).plugins,
            (forall|j: int| 0 <= j < doc.len() ==> simple_node(old(self).plugins@, #[trigger] doc@[j])) ==> r is Ok
                && final(self).plugins == old(self).plugins,
            r is Ok ==> exists|states: Seq<HtmlEmitter>, outs: Seq<Seq<char>>|
                #![trigger walked(states, outs, doc@)]
                walked(states, outs, doc@) && states[0].vars@ == old(self).vars@ && states[0].indent
                    == old(self).indent && states[0].current_level == deeper(old(self).current_level)
                    && states[0].filename == old(self).filename && states[0].plugins == old(self).plugins
                    && outs[0] == old(out)@ && outs[doc.len() as int] == final(out)@ && final(self).plugins
                    == states[doc.len() as int].plugins,
            r is Ok ==> exists|t: Trace|
                #![trigger traced(t, doc@, doc.len() as nat, *sources, (fuel - 1) as usize)]
                t.states.len() == doc.len() + 1 && t.outs.len() == doc.len() + 1 && traced(t, doc@, doc.len() as nat, *sources, (fuel - 1) as usize)
                    && t.states[0].vars@ == old(self).vars@ && t.states[0].indent == old(self).indent
                    && t.states[0].current_level == deeper(old(self).current_level) && t.states[0].filename
                    == old(self).filename && t.states[0].plugins == old(self).plugins && t.outs[0] == old(out)@
                    && t.outs[doc.len() as int] == final(out)@ && final(self).plugins == t.states[doc.len() as int].plugins,
        decreases fuel, 0nat,
    {
        let ghost out_before = out@;
        let mut sub = self.subemitter();
        let ghost sub_start = sub;
        let res = sub.walk(doc, sources, out, fuel - 1);
        let ghost sub_end = sub;
        self.restore(sub);
        proof {
            if res is Ok {
                let (states, outs) = choose|states: Seq<HtmlEmitter>, outs: Seq<Seq<char>>|
                    walked(states, outs, doc@) && states[0] == sub_start && outs[0] == out_before
                        && states[doc.len() as int] == sub_end && outs[doc.len() as int] == out@;
                assert(walked(states, outs, doc@));
                let f1 = (fuel - 1) as usize;
                let t = choose|t: Trace| walk_traced(t, doc@, sub_start, sub_end, out_before, out@, *sources, f1);
                assert(traced(t, doc@, doc.len() as nat, *sources, (fuel - 1) as usize));
            }
        }
        res
    }
}

/// The error for a document that nests deeper than `MAX_DEPTH`.
fn too_deep() -> (r: Error)
    ensures
        r is UserError,
{
    let mut m = String::new();
    append_str(&mut m, "Nesting is too deep: templates, loops or imports may call themselves.");
    err(m)
}

impl HtmlEmitter {
    /// Renders each node of `doc` in order: variable bindings, raw and escaped
    /// text, nodes that a plugin claims, and elements.
    pub fn walk(&mut self, doc: &Vec<Node>, sources: &Sources, out: &mut String, fuel: usize) -> (r: Result<
        (),
        Error,
    >)
        requires
            old(self).wf(),
        ensures
            keeps(*old(self), *final(self)),
            old(out)@.is_prefix_of(final(out)@),
            r is Ok ==> exists|states: Seq<HtmlEmitter>, outs: Seq<Seq<char>>|
                walked(states, outs, doc@) && states[0] == *old(self) && outs[0] == old(out)@
                    && states[doc.len() as int] == *final(self) && outs[doc.len() as int] == final(out)@,
            (forall|j: int| 0 <= j < doc.len() ==> simple_node(old(self).plugins@, #[trigger] doc@[j])) ==> r is Ok
                && final(self).plugins == old(self).plugins,
            all_simple(old(self).plugins@, view_nodes(doc@), doc.len() as nat, fuel as nat) ==> r is Ok
                && final(self).plugins == old(self).plugins,
            r is Ok ==> exists|t: Trace|
                #![trigger walk_traced(t, doc@, *old(self), *final(self), old(out)@, final(out)@, *sources, fuel)]
                walk_traced(t, doc@, *old(self), *final(self), old(out)@, final(out)@, *sources, fuel),
            r is Err ==> exists|t: Trace, k: int|
                #![trigger walk_failed(t, k, doc@, *old(self), *final(self), old(out)@, final(out)@, *sources, fuel)]
                walk_failed(t, k, doc@, *old(self), *final(self), old(out)@, final(out)@, *sources, fuel),
        decreases fuel, 5nat,
    {
        let mut i: usize = 0;
        let ghost first = *self;
        let ghost mut states: Seq<HtmlEmitter> = seq![*self];
        let ghost mut outs: Seq<Seq<char>> = seq![out@];
        let ghost mut kids: Seq<Trace> = Seq::empty();
        proof {
            lemma_plugins_grow_refl(self.plugins@);
        }
        while i < doc.len()
            invariant
                self.wf(),
                i <= doc.len(),
                first == *old(self),
                keeps(first, *self),
                old(out)@.is_prefix_of(out@),
                walked(states, outs, doc@.subrange(0, i as int)),
                states[0] == first,
                outs[0] == old(out)@,
                states[i as int] == *self,
                outs[i as int] == out@,
                kids.len() == i,
                traced(Trace { states, outs, kids }, doc@, i as nat, *sources, fuel),
                (forall|j: int| 0 <= j < doc.len() ==> simple_node(first.plugins@, #[trigger] doc@[j]))
                    ==> self.plugins == first.plugins,
                all_simple(first.plugins@, view_nodes(doc@), doc.len() as nat, fuel as nat) ==> self.plugins
                    == first.plugins,
            decreases doc.len() - i,
        {
            let ghost before = *self;
            let ghost out_before = out@;
            proof {
                if all_simple(first.plugins@, view_nodes(doc@), doc.len() as nat, fuel as nat) {
                    lemma_all_simple_at(first.plugins@, view_nodes(doc@), doc.len() as nat, fuel as nat, i as int);
                    assert(view_nodes(doc@)[i as int] == doc@[i as int]@);
                }
            }
            let res = self.emit_node(&doc[i], sources, out, fuel);
            proof {
                lemma_plugins_grow_trans(first.plugins@, before.plugins@, self.plugins@);
                assert(old(out)@.is_prefix_of(out@)) by {
                    assert(out@.subrange(0, old(out)@.len() as int) =~= out_before.subrange(0, old(out)@.len() as int));
                }
            }
            if let Err(e) = res {
                proof {
                    assert(walk_failed(Trace { states, outs, kids }, i as int, doc@, *old(self), *self, old(out)@, out@, *sources, fuel));
                }
                return Err(e);
            }
            proof {
                let ns = states.push(*self);
                let os = outs.push(out@);
                let kid = if nested_element(before, doc@[i as int]) {
                    choose|kid: Trace| children_traced(before, *self, out_before, out@, doc@[i as int], kid, *sources, fuel)
                } else {
                    no_trace()
                };
                let ks = kids.push(kid);
                let t0 = Trace { states, outs, kids };
                let t1 = Trace { states: ns, outs: os, kids: ks };
                lemma_traced_prefix(t0, t1, doc@, i as nat, *sources, fuel);
                assert(node_step_traced(ns[i as int], ns[i + 1], os[i as int], os[i + 1], doc@[i as int], ks[i as int], *sources, fuel));
                assert(traced(t1, doc@, (i + 1) as nat, *sources, fuel));
                kids = ks;
                assert forall|j: int| 0 <= j < i + 1 implies node_step(
                    ns[j],
                    ns[j + 1],
                    os[j],
                    os[j + 1],
                    #[trigger] doc@.subrange(0, i + 1)[j],
                ) by {
                    if j < i {
                        assert(doc@.subrange(0, i + 1)[j] == doc@.subrange(0, i as int)[j]);
                    }
                }
                states = ns;
                outs = os;
            }
            i = i + 1;
        }
        assert(doc@.subrange(0, i as int) =~= doc@);
        assert(walk_traced(Trace { states, outs, kids }, doc@, *old(self), *self, old(out)@, out@, *sources, fuel));
        Ok(())
    }

    /// Renders one node of a document.
    pub fn emit_node(&mut self, node: &Node, sources: &Sources, out: &mut String, fuel: usize) -> (r: Result<
        (),
        Error,
    >)
        requires
            old(self).wf(),
        ensures
            keeps(*old(self), *final(self)),
            old(out)@.is_prefix_of(final(out)@),
            is_binding(*node) || is_raw_text(*node) || is_escaped_text(*node) ==> r is Ok,
            simple_node(old(self).plugins@, *node) ==> r is Ok && final(self).plugins == old(self).plugins,
            simple_tree(old(self).plugins@, node@, fuel as nat) ==> r is Ok && final(self).plugins == old(self).plugins,
            stuck_tag(*old(self), *node) ==> is_user_error(r) && final(out)@ == old(out)@ && *final(self) == *old(self),
            r is Ok && nested_element(*old(self), *node) ==> exists|kid: Trace|
                #![trigger children_traced(*old(self), *final(self), old(out)@, final(out)@, *node, kid, *sources, fuel)]
                children_traced(*old(self), *final(self), old(out)@, final(out)@, *node, kid, *sources, fuel),
            !is_binding(*node) && !is_raw_text(*node) && !is_escaped_text(*node) && first_claim_from(
                old(self).plugins@,
                *node,
                0,
            ) is Some ==> command_outcome(
                *old(self),
                *final(self),
                first_claim_from(old(self).plugins@, *node, 0)->0,
                *node,
                *sources,
                old(out)@,
                final(out)@,
                r,
                fuel,
            ),
            r is Ok ==> node_step(*old(self), *final(self), old(out)@, final(out)@, *node),
            !is_binding(*node) && !is_raw_text(*node) && !is_escaped_text(*node) && unclaimed(old(self).plugins@, *node)
                && is_void(node.name@) && node.children is Some ==> r is Err,
        decreases fuel, 4nat,
    {
        proof {
            lemma_plugins_grow_refl(self.plugins@);
        }
        let indent = self.indent(node);
        if self.variable_node(node) {
            return Ok(());
        }
        let name = node.name.as_str();
        proof {
            reveal_strlit("_");
            reveal_strlit("-");
            reveal_strlit("text");
            assert("_"@ =~= seq!['_']);
            assert("-"@ =~= seq!['-']);
            assert("text"@ =~= seq!['t', 'e', 'x', 't']);
        }
        if same_text(name, "_") {
            if let Some(content) = node.arg(0) {
                self.emit_raw_text(indent.as_str(), &content, out);
                return Ok(());
            }
        }
        if same_text(name, "-") || same_text(name, "text") {
            if let Some(content) = node.arg(0) {
                self.emit_text_node(indent.as_str(), &content, out);
                return Ok(());
            }
        }
        proof {
            node.lemma_children_view();
            lemma_simple_view(self.plugins@, *node);
            assert(unclaimed_view(self.plugins@, node@) == unclaimed(self.plugins@, *node));
            if node.children is Some {
                assert(node@.children->0 == view_nodes(node.children->0@));
            }
        }
        let ghost before = *self;
        let claimed = self.call_plugin(node, indent.as_str(), sources, out, fuel);
        match claimed {
            Err(e) => return Err(e),
            Ok(true) => return Ok(()),
            Ok(false) => {},
        }
        let ghost mid = *self;
        let ghost out_mid = out@;
        let res = self.emit_tag(node, name, indent.as_str(), sources, out, fuel);
        proof {
            lemma_plugins_grow_trans(before.plugins@, mid.plugins@, self.plugins@);
            assert(out@.subrange(0, old(out)@.len() as int) =~= out_mid.subrange(0, old(out)@.len() as int));
            if res is Ok && node.children is Some {
                let t = choose|t: Trace|
                    #![trigger traced(t, node.children->0@, node.children->0.len() as nat, *sources, (fuel - 1) as usize)]
                    {
                        let doc = node.children->0@;
                        &&& t.states.len() == doc.len() + 1
                        &&& t.outs.len() == doc.len() + 1
                        &&& traced(t, doc, doc.len() as nat, *sources, (fuel - 1) as usize)
                        &&& t.states[0].vars@ == mid.vars@
                        &&& t.states[0].indent == mid.indent
                        &&& t.states[0].current_level == deeper(mid.current_level)
                        &&& t.states[0].filename == mid.filename
                        &&& t.states[0].plugins == mid.plugins
                        &&& t.outs[0] == out_mid + open_tag(indent@, name@, node.entries@, mid.vars@) + newline(mid.indent)
                        &&& out@ == t.outs[doc.len() as int] + indent@ + close_tag(name@) + newline(mid.indent)
                        &&& self.plugins == t.states[doc.len() as int].plugins
                    };
                assert(children_traced(*old(self), *self, old(out)@, out@, *node, t, *sources, fuel));
            }
        }
        res
    }

    /// Offers `node` to each plugin in turn; the first that claims it renders
    /// it. Returns whether one did.
    pub fn call_plugin(
        &mut self,
        node: &Node,
        indent: &str,
        sources: &Sources,
        out: &mut String,
        fuel: usize,
    ) -> (r: Result<bool, Error>)
        requires
            old(self).wf(),
        ensures
            keeps(*old(self), *final(self)),
            old(out)@.is_prefix_of(final(out)@),
            r matches Ok(false) ==> final(self).vars == old(self).vars && final(out)@ == old(out)@ && *final(self)
                == *old(self),
            r matches Ok(false) <==> unclaimed(old(self).plugins@, *node),
            command_of(node.name@) != Some(in_place_cmd()) ==> final(self).vars@ == old(self).vars@,
            first_claim_from(old(self).plugins@, *node, 0) is None <==> unclaimed(old(self).plugins@, *node),
            first_claim_from(old(self).plugins@, *node, 0) matches Some(k) ==> !(r matches Ok(false))
                && command_outcome(*old(self), *final(self), k, *node, *sources, old(out)@, final(out)@, as_unit(r), fuel),
        decreases fuel, 3nat,
    {
        proof {
            lemma_plugins_grow_refl(self.plugins@);
        }
        let mut i: usize = 0;
        while i < self.plugins.len()
            invariant
                self.wf(),
                *self == *old(self),
                out@ == old(out)@,
                i <= self.plugins.len(),
                command_of(node.name@) is Some && i > 0 ==> !is_builtin(command_of(node.name@)->0),
                forall|j: int|
                    0 <= j < i ==> (command_of(node.name@) is Some ==> !(#[trigger] self.plugins@[j]).has_template(
                        command_of(node.name@)->0,
                    )),
                first_claim_from(self.plugins@, *node, 0) == first_claim_from(self.plugins@, *node, i as int),
            decreases self.plugins.len() - i,
        {
            match self.plugins[i].should_emit(node) {
                EmitStatus::Skip => {},
                _ => {
                    assert(!unclaimed(old(self).plugins@, *node)) by {
                        assert(old(self).plugins@[i as int] == self.plugins@[i as int]);
                    }
                    let res = self.run_command(i, node, indent, sources, out, fuel);
                    return match res {
                        Ok(()) => Ok(true),
                        Err(e) => Err(e),
                    };
                },
            }
            i = i + 1;
        }
        Ok(false)
    }
}

/// The command that imports a file in place, rendering it.
pub open spec fn in_place_cmd() -> Seq<char> {
    seq!['i', 'n', 'c', 'l', 'u', 'd', 'e']
}

/// The name of the file an emitter renders, or empty text when it has none.
pub open spec fn file_text(f: Option<String>) -> Seq<char> {
    match f {
        Some(s) => s@,
        None => Seq::empty(),
    }
}

/// Builds a message from a few parts.
fn message(parts: &[&str]) -> (r: String) {
    let mut m = String::new();
    let mut i: usize = 0;
    while i < parts.len()
        decreases parts.len() - i,
    {
        append_str(&mut m, parts[i]);
        i = i + 1;
    }
    m
}

impl HtmlEmitter {
    /// Runs the command of plugin `i` that `node` stands for. Only the
    /// in-place import changes the caller's variables; loops and template
    /// calls bind theirs in a scope of their own.
    pub fn run_command(
        &mut self,
        i: usize,
        node: &Node,
        indent: &str,
        sources: &Sources,
        out: &mut String,
        fuel: usize,
    ) -> (r: Result<(), Error>)
        requires
            old(self).wf(),
            i < old(self).plugins.len(),
        ensures
            keeps(*old(self), *final(self)),
            old(out)@.is_prefix_of(final(out)@),
            command_of(node.name@) != Some(in_place_cmd()) ==> final(self).vars@ == old(self).vars@,
            command_outcome(*old(self), *final(self), i as int, *node, *sources, old(out)@, final(out)@, r, fuel),
        decreases fuel, 2nat,
    {
        proof {
            lemma_plugins_grow_refl(self.plugins@);
        }
        let cmd = match node.command_name() {
            Some(c) => c,
            None => {
                return Ok(());
            },
        };
        let c = cmd.as_str();
        proof {
            reveal_strlit("dbg");
            reveal_strlit("for");
            reveal_strlit("children");
            reveal_strlit("template");
            reveal_strlit("import");
            assert("dbg"@ =~= seq!['d', 'b', 'g']);
            assert("for"@ =~= seq!['f', 'o', 'r']);
            assert("children"@ =~= children_cmd());
            assert("template"@ =~= seq!['t', 'e', 'm', 'p', 'l', 'a', 't', 'e']);
            assert("import"@ =~= seq!['i', 'm', 'p', 'o', 'r', 't']);
        }
        if same_text(c, "dbg") {
            self.cmd_dbg(indent, out);
            Ok(())
        } else if same_text(c, "for") {
            self.cmd_for(node, sources, out, fuel)
        } else if same_text(c, "children") {
            Err(err(message(&["@children is a reserved name."])))
        } else if same_text(c, "template") {
            self.cmd_template(i, node)
        } else if same_text(c, "import") {
            self.cmd_import(i, node, false, sources, out, fuel)
        } else if text_is(c, &['i', 'n', 'c', 'l', 'u', 'd', 'e']) {
            self.cmd_import(i, node, true, sources, out, fuel)
        } else {
            self.call_template(i, c, node, sources, out, fuel)
        }
    }

    /// Writes the variables in a `<pre><code>` block: one `name = "value"`
    /// line per variable, escaped.
    pub fn cmd_dbg(&self, indent: &str, out: &mut String)
        requires
            self.wf(),
        ensures
            exists|ps: Seq<(String, String)>|
                #![trigger dbg_listing(ps)]
                lists_vars(ps, self.vars@) && final(out)@ == old(out)@ + indent@ + pre_open() + escape_text(
                    dbg_listing(ps),
                ) + pre_close() + newline(self.indent),
    {
        proof {
            reveal_strlit(" = \"");
            reveal_strlit("\"\n");
            reveal_strlit("<pre><code>");
            reveal_strlit("</code></pre>");
            assert(" = \""@ =~= seq![' ', '=', ' ', '"']);
            assert("\"\n"@ =~= seq!['"', '\n']);
            assert("<pre><code>"@ =~= pre_open());
            assert("</code></pre>"@ =~= pre_close());
        }
        let mut listing = String::new();
        let pairs = self.vars.iter();
        let mut k: usize = 0;
        while k < pairs.len()
            invariant
                k <= pairs.len(),
                listing@ == dbg_listing(pairs@.subrange(0, k as int)),
            decreases pairs.len() - k,
        {
            assert(pairs@.subrange(0, k + 1).drop_last() =~= pairs@.subrange(0, k as int));
            proof {
                reveal_strlit(" = \"");
                reveal_strlit("\"\n");
                assert(" = \""@ =~= seq![' ', '=', ' ', '"']);
                assert("\"\n"@ =~= seq!['"', '\n']);
            }
            let ghost before = listing@;
            append_str(&mut listing, pairs[k].0.as_str());
            append_str(&mut listing, " = \"");
            append_str(&mut listing, pairs[k].1.as_str());
            append_str(&mut listing, "\"\n");
            k = k + 1;
            assert(listing@ =~= dbg_listing(pairs@.subrange(0, k as int)));
        }
        assert(pairs@.subrange(0, k as int) =~= pairs@);
        let escaped = encode_text(listing.as_str());
        let ghost start = out@;
        append_str(out, indent);
        append_str(out, "<pre><code>");
        append_str(out, escaped.as_str());
        append_str(out, "</code></pre>");
        self.write_line(out);
        assert(lists_vars(pairs@, self.vars@));
        assert(out@ =~= start + indent@ + pre_open() + escape_text(dbg_listing(pairs@)) + pre_close() + newline(
            self.indent,
        ));
    }

    /// Registers the template that `node` defines, under its expanded name.
    pub fn cmd_template(&mut self, i: usize, node: &Node) -> (r: Result<(), Error>)
        requires
            old(self).wf(),
            i < old(self).plugins.len(),
        ensures
            keeps(*old(self), *final(self)),
            final(self).vars == old(self).vars,
            r is Ok <==> node.children is Some && (positional(node.entries@).len() > 0 || exists|j: int|
                0 <= j < node.entries.len() && crate::node::has_name(node.entries@[j], seq!['n', 'a', 'm', 'e'])),
            r is Err ==> is_user_error(r),
            r is Ok && positional(node.entries@).len() > 0 ==> final(self).plugins@[i as int].has_template(
                expand_text(positional(node.entries@)[0], old(self).vars@),
            ),
            r is Ok && positional(node.entries@).len() == 0 ==> exists|j: int|
                0 <= j < node.entries.len() && crate::node::has_name(node.entries@[j], seq!['n', 'a', 'm', 'e'])
                    && final(self).plugins@[i as int].has_template(expand_text(node.entries@[j].value, old(self).vars@)),
            r is Err ==> *final(self) == *old(self),
            r is Ok ==> registered(*old(self), *final(self), i as int, *node),
    {
        proof {
            lemma_plugins_grow_refl(self.plugins@);
            reveal_strlit("name");
            assert("name"@ =~= seq!['n', 'a', 'm', 'e']);
        }
        let v = match node.arg(0) {
            Some(v) => v,
            None => match node.prop("name") {
                Some(v) => v,
                None => {
                    return Err(err(message(&["template: Template tags must have a `name` parameter!"])));
                },
            },
        };
        let name = self.vars.expand_value(&v);
        let t = match Template::new(name.as_str(), node) {
            Ok(t) => t,
            Err(e) => {
                return Err(e);
            },
        };
        let ghost before = self.plugins@;
        let ghost nm = name@;
        let mut p = self.plugins.remove(i);
        p.register(name, t);
        self.plugins.insert(i, p);
        proof {
            assert forall|j: int| 0 <= j < before.len() implies (#[trigger] before[j]).grows_to(&self.plugins@[j]) by {
                if j != i {
                    assert(self.plugins@[j] == before[j]);
                }
            }
            assert(name_of_definition(*old(self), *node, nm));
            assert(template_stored(self.plugins@[i as int], nm, *node));
            assert forall|j: int| 0 <= j < before.len() && j != i implies self.plugins@[j] == before[j] by {}
            assert(registered(*old(self), *self, i as int, *node));
        }
        Ok(())
    }

    /// Renders the children of a `for` node once per value, each time in a
    /// scope of its own with the binding name set to the value.
    pub fn cmd_for(&mut self, node: &Node, sources: &Sources, out: &mut String, fuel: usize) -> (r: Result<
        (),
        Error,
    >)
        requires
            old(self).wf(),
        ensures
            keeps(*old(self), *final(self)),
            old(out)@.is_prefix_of(final(out)@),
            final(self).vars == old(self).vars,
            !for_args_ok(*node) ==> is_user_error(r) && final(out)@ == old(out)@,
            for_args_ok(*node) && fuel > 0 && body_is_simple(old(self).plugins@, *node) ==> r is Ok
                && final(self).plugins == old(self).plugins,
            for_args_ok(*node) && fuel > 0 && body_renders(old(self).plugins@, *node, (fuel - 1) as nat) ==> r is Ok
                && final(self).plugins == old(self).plugins,
            r is Ok ==> for_args_ok(*node) && exists|runs: Seq<(Seq<HtmlEmitter>, Seq<Seq<char>>)>|
                #![trigger passes_chain(*old(self), old(out)@, node.children->0@, positional(node.entries@)[0]->String_0@, loop_values(*node), runs)]
                {
                    let body = node.children->0@;
                    let vals = loop_values(*node);
                    &&& passes_chain(
                        *old(self),
                        old(out)@,
                        body,
                        positional(node.entries@)[0]->String_0@,
                        vals,
                        runs,
                    )
                    &&& vals.len() == 0 ==> final(out)@ == old(out)@ && final(self).plugins == old(self).plugins
                    &&& vals.len() > 0 ==> final(out)@ == runs[vals.len() - 1].1[body.len() as int]
                        && final(self).plugins == runs[vals.len() - 1].0[body.len() as int].plugins
                },
        decreases fuel, 1nat,
    {
        proof {
            lemma_plugins_grow_refl(self.plugins@);
            reveal_strlit("in");
            reveal_strlit("@range");
            assert("in"@ =~= seq!['i', 'n']);
            assert("@range"@ =~= range_marker());
        }
        let args = node.args();
        if args.len() == 0 {
            return Err(err(message(&["for: can't iterate without binding name"])));
        }
        let name = match &args[0] {
            Value::String(s) => s.clone(),
            _ => {
                return Err(err(message(&["for: expected binding name to be a String"])));
            },
        };
        let keyword_ok = args.len() >= 2 && match &args[1] {
            Value::String(s) => same_text(s.as_str(), "in"),
            _ => false,
        };
        if !keyword_ok {
            return Err(err(message(&["for: expected `in` keyword after binding name"])));
        }
        let children = match &node.children {
            Some(c) => c,
            None => {
                return Err(err(message(&["for: expected `for` node to have children"])));
            },
        };
        let is_range = args.len() >= 3 && match &args[2] {
            Value::String(s) => same_text(s.as_str(), "@range"),
            _ => false,
        };
        let values = if is_range {
            let mut rest: Vec<Value> = Vec::new();
            let mut k: usize = 3;
            while k < args.len()
                invariant
                    3 <= k <= args.len(),
                    rest@ == args@.subrange(3, k as int),
                decreases args.len() - k,
            {
                rest.push(args[k].copy());
                k = k + 1;
                assert(rest@ =~= args@.subrange(3, k as int));
            }
            match parse_range(rest.as_slice()) {
                Some(ns) => {
                    let mut vs: Vec<Value> = Vec::new();
                    let mut k: usize = 0;
                    while k < ns.len()
                        invariant
                            k <= ns.len(),
                            vs@ =~= ns@.subrange(0, k as int).map_values(|n: i128| Value::Integer(n)),
                        decreases ns.len() - k,
                    {
                        vs.push(Value::Integer(ns[k]));
                        k = k + 1;
                        assert(vs@ =~= ns@.subrange(0, k as int).map_values(|n: i128| Value::Integer(n)));
                    }
                    proof {
                        let want = crate::plugin::range_of(rest@)->0;
                        assert(ns@.map_values(|i: i128| i as int) == want);
                        assert(ns@.subrange(0, k as int) =~= ns@);
                        assert(vs@ =~= want.map_values(|n: int| Value::Integer(n as i128))) by {
                            assert forall|j: int| 0 <= j < vs@.len() implies vs@[j] == want.map_values(
                                |n: int| Value::Integer(n as i128),
                            )[j] by {
                                assert(want[j] == ns@[j] as int);
                            }
                        }
                    }
                    vs
                },
                None => {
                    return Err(
                        err(message(&["for: @range takes one to three integers, with a positive step"])),
                    );
                },
            }
        } else {
            let mut rest: Vec<Value> = Vec::new();
            let mut k: usize = 2;
            while k < args.len()
                invariant
                    2 <= k <= args.len(),
                    rest@ == args@.subrange(2, k as int),
                decreases args.len() - k,
            {
                rest.push(args[k].copy());
                k = k + 1;
                assert(rest@ =~= args@.subrange(2, k as int));
            }
            rest
        };
        assert(values@ == loop_values(*node));
        assert(for_args_ok(*node));
        if fuel == 0 {
            return Err(too_deep());
        }
        let mut k: usize = 0;
        let ghost first = *self;
        let ghost body = children@;
        let ghost nm = name@;
        let ghost mut runs: Seq<(Seq<HtmlEmitter>, Seq<Seq<char>>)> = Seq::empty();
        assert(node.children->0 == *children);
        while k < values.len()
            invariant
                self.wf(),
                keeps(first, *self),
                self.vars == first.vars,
                old(out)@.is_prefix_of(out@),
                first == *old(self),
                fuel > 0,
                k <= values.len(),
                body == children@,
                nm == name@,
                passes_chain(first, old(out)@, body, nm, values@.subrange(0, k as int), runs),
                k == 0 ==> out@ == old(out)@ && self.plugins == first.plugins,
                k > 0 ==> out@ == runs[k - 1].1[body.len() as int] && self.plugins == runs[k - 1].0[body.len() as int].plugins,
                body_is_simple(first.plugins@, *node) ==> self.plugins == first.plugins,
                body_renders(first.plugins@, *node, (fuel - 1) as nat) ==> self.plugins == first.plugins,
                for_args_ok(*node),
                node.children == Some(*children),
            decreases values.len() - k,
        {
            let ghost before = *self;
            let ghost out_before = out@;
            let mut sub = self.scope();
            let text = sub.vars.expand_value(&values[k]);
            sub.vars.insert_string(name.clone(), text);
            let ghost sub_start = sub;
            let res = sub.walk(children, sources, out, fuel - 1);
            let ghost sub_end = sub;
            self.restore(sub);
            proof {
                lemma_plugins_grow_trans(first.plugins@, before.plugins@, self.plugins@);
                assert(out@.subrange(0, old(out)@.len() as int) =~= out_before.subrange(0, old(out)@.len() as int));
            }
            if let Err(e) = res {
                return Err(e);
            }
            proof {
                let (states, outs) = choose|states: Seq<HtmlEmitter>, outs: Seq<Seq<char>>|
                    walked(states, outs, body) && states[0] == sub_start && outs[0] == out_before
                        && states[body.len() as int] == sub_end && outs[body.len() as int] == out@;
                let nr = runs.push((states, outs));
                let vs = values@.subrange(0, k + 1);
                assert(vs.drop_last() =~= values@.subrange(0, k as int));
                assert forall|j: int| 0 <= j < vs.len() implies loop_pass(first, body, nm, vs[j], (#[trigger] nr[j]).0, nr[j].1) by {
                    if j < k {
                        assert(vs[j] == values@.subrange(0, k as int)[j]);
                    }
                }
                assert forall|j: int| 0 < j < vs.len() implies (#[trigger] nr[j]).1[0] == nr[j - 1].1[body.len() as int]
                    && nr[j].0[0].plugins == nr[j - 1].0[body.len() as int].plugins by {
                    if j < k {
                        assert(values@.subrange(0, k as int).len() == k);
                    }
                }
                runs = nr;
            }
            k = k + 1;
        }
        assert(values@.subrange(0, k as int) =~= values@);
        Ok(())
    }
}

impl HtmlEmitter {
    /// Pulls in the file that `node` names, resolved against the directory
    /// of this emitter's file, and records the dependency. In place, the file
    /// is rendered where the command stands and the variables it binds stay
    /// bound; otherwise only its top-level commands run, rendering nothing.
    pub fn cmd_import(
        &mut self,
        i: usize,
        node: &Node,
        in_place: bool,
        sources: &Sources,
        out: &mut String,
        fuel: usize,
    ) -> (r: Result<(), Error>)
        requires
            old(self).wf(),
            i < old(self).plugins.len(),
        ensures
            keeps(*old(self), *final(self)),
            old(out)@.is_prefix_of(final(out)@),
            !in_place ==> final(self).vars@ == old(self).vars@ && final(out)@ == old(out)@,
            !has_path_arg(*node) ==> is_user_error(r) && final(out)@ == old(out)@ && *final(self) == *old(self),
            has_path_arg(*node) && sources.first_record(import_target(*old(self), *node)) is None ==> not_loaded(
                r,
                import_target(*old(self), *node),
            ) && final(out)@ == old(out)@ && *final(self) == *old(self),
            has_path_arg(*node) && first_is_missing(*sources, import_target(*old(self), *node)) ==> is_user_error(r)
                && final(out)@ == old(out)@ && *final(self) == *old(self),
            has_path_arg(*node) && first_is_unreadable(*sources, import_target(*old(self), *node)) ==> (r matches Err(
                Error::Io { .. },
            )) && final(out)@ == old(out)@ && *final(self) == *old(self),
            import_owed(*old(self), *node, *sources, in_place) && fuel > 0 ==> r is Ok,
            r is Ok && !in_place ==> exists|j: int, states: Seq<HtmlEmitter>, outs: Seq<Seq<char>>|
                #![trigger dispatched(states, outs, sources.files@[j].1->Loaded_0@, *sources, (fuel - 1) as usize)]
                {
                    let doc = sources.files@[j].1->Loaded_0@;
                    &&& 0 <= j < sources.files.len()
                    &&& fuel > 0
                    &&& sources.files@[j].1 is Loaded
                    &&& sources.files@[j].0@ == import_target(*old(self), *node)
                    &&& dispatched(states, outs, doc, *sources, (fuel - 1) as usize)
                    &&& states[0].filename matches Some(f) && f@ == sources.files@[j].0@
                    &&& states[0].vars@ == old(self).vars@
                    &&& final(self).plugins == states[doc.len() as int].plugins
                },
            r is Ok && in_place ==> exists|j: int, states: Seq<HtmlEmitter>, outs: Seq<Seq<char>>|
                #![trigger walked(states, outs, sources.files@[j].1->Loaded_0@)]
                {
                    let doc = sources.files@[j].1->Loaded_0@;
                    &&& 0 <= j < sources.files.len()
                    &&& sources.files@[j].1 is Loaded
                    &&& sources.files@[j].0@ == resolved(
                        file_text(old(self).filename),
                        expand(positional(node.entries@)[0]->String_0@, old(self).vars@),
                    )
                    &&& walked(states, outs, doc)
                    &&& outs[0] == old(out)@ && outs[doc.len() as int] == final(out)@
                    &&& states[0].vars@ == old(self).vars@
                    &&& states[0].indent == old(self).indent
                    &&& states[0].current_level == old(self).current_level
                    &&& states[0].filename matches Some(f) && f@ == sources.files@[j].0@
                    &&& final(self).vars@ == states[doc.len() as int].vars@
                },
            r is Ok ==> positional(node.entries@).len() > 0 && positional(node.entries@)[0] is String
                && final(self).plugins@[i as int].records(file_text(old(self).filename))
                && final(self).plugins@[i as int].records(
                resolved(
                    file_text(old(self).filename),
                    expand(positional(node.entries@)[0]->String_0@, old(self).vars@),
                ),
            ) && final(self).plugins@[i as int].has_edge(
                file_text(old(self).filename),
                resolved(
                    file_text(old(self).filename),
                    expand(positional(node.entries@)[0]->String_0@, old(self).vars@),
                ),
            ),
        decreases fuel, 1nat,
    {
        proof {
            lemma_plugins_grow_refl(self.plugins@);
        }
        let arg = match node.arg(0) {
            Some(v) => v,
            None => {
                return Err(err(message(&["import: Import tags must have path"])));
            },
        };
        let rel = match &arg {
            Value::String(s) => s,
            _ => {
                return Err(err(message(&["Import tags must only receive strings"])));
            },
        };
        let current = match &self.filename {
            Some(f) => f.clone(),
            None => String::new(),
        };
        let expanded = self.vars.expand_string(rel.as_str());
        let path = resolve_path(current.as_str(), expanded.as_str());
        let doc = match sources.find(path.as_str()) {
            None => {
                return Err(Error::SourceNotLoaded { path });
            },
            Some(Source::Missing) => {
                return Err(
                    err(message(&["Failed to find file '", path.as_str(), "'. Original file: ", current.as_str()])),
                );
            },
            Some(Source::Unreadable(m)) => {
                return Err(Error::Io { message: m.clone() });
            },
            Some(Source::Loaded(doc)) => doc,
        };
        let ghost path_text = path@;
        assert(exists|j: int|
            0 <= j < sources.files.len() && sources.files@[j].0@ == path_text && sources.files@[j].1
                == Source::Loaded(*doc));
        let ghost before = self.plugins@;
        let mut p = self.plugins.remove(i);
        p.add_dependency(&current, &path);
        self.plugins.insert(i, p);
        proof {
            assert forall|j: int| 0 <= j < before.len() implies (#[trigger] before[j]).grows_to(&self.plugins@[j]) by {
                if j != i {
                    assert(self.plugins@[j] == before[j]);
                }
            }
        }
        if fuel == 0 {
            return Err(too_deep());
        }
        let ghost registered = *self;
        let ghost out_before = out@;
        proof {
            assert forall|m: int| 0 <= m < self.plugins.len() implies (#[trigger] self.plugins@[m]).templates
                == before[m].templates by {
                if m != i {
                    assert(self.plugins@[m] == before[m]);
                }
            }
            assert forall|k: int| 0 <= k < doc@.len() && simple_node(before, doc@[k]) implies simple_node(
                self.plugins@,
                #[trigger] doc@[k],
            ) by {
                assert forall|m: int| 0 <= m < self.plugins.len() implies (#[trigger] self.plugins@[m]).templates
                    == before[m].templates by {
                    if m != i {
                        assert(self.plugins@[m] == before[m]);
                    }
                }
            }
        }
        let mut em = self.scope();
        em.filename = Some(path);
        let ghost em_start = em;
        let res = if in_place {
            em.walk(doc, sources, out, fuel - 1)
        } else {
            em.dispatch_commands(doc, sources, fuel - 1)
        };
        let ghost em_end = em;
        let vars = if in_place {
            em.vars.fork()
        } else {
            self.vars.fork()
        };
        self.restore(em);
        if in_place {
            self.vars = vars;
        }
        proof {
            lemma_plugins_grow_trans(old(self).plugins@, registered.plugins@, self.plugins@);
            assert(registered.plugins@[i as int].grows_to(&self.plugins@[i as int]));
            assert(out@.subrange(0, old(out)@.len() as int) =~= out_before.subrange(0, old(out)@.len() as int));
        }
        if !in_place {
            assert(self.vars@ == old(self).vars@);
        }
        proof {
            if in_place && res is Ok {
                let j = choose|j: int|
                    0 <= j < sources.files.len() && sources.files@[j].0@ == path_text && sources.files@[j].1
                        == Source::Loaded(*doc);
                let (states, outs) = choose|states: Seq<HtmlEmitter>, outs: Seq<Seq<char>>|
                    walked(states, outs, doc@) && states[0] == em_start && outs[0] == out_before
                        && states[doc.len() as int] == em_end && outs[doc.len() as int] == out@;
                assert(sources.files@[j].1->Loaded_0@ == doc@);
                assert(walked(states, outs, sources.files@[j].1->Loaded_0@));
            }
            if !in_place && res is Ok {
                let j = choose|j: int|
                    0 <= j < sources.files.len() && sources.files@[j].0@ == path_text && sources.files@[j].1
                        == Source::Loaded(*doc);
                let (states, outs) = choose|states: Seq<HtmlEmitter>, outs: Seq<Seq<char>>|
                    #![trigger dispatched(states, outs, doc@, *sources, (fuel - 1) as usize)]
                    dispatched(states, outs, doc@, *sources, (fuel - 1) as usize) && states[0] == em_start
                        && states[doc.len() as int] == em_end;
                assert(sources.files@[j].1->Loaded_0@ == doc@);
                assert(dispatched(states, outs, sources.files@[j].1->Loaded_0@, *sources, (fuel - 1) as usize));
            }
        }
        res
    }

    /// Runs each top-level command of `doc` that a plugin claims, rendering
    /// nothing.
    pub fn dispatch_commands(&mut self, doc: &Vec<Node>, sources: &Sources, fuel: usize) -> (r: Result<
        (),
        Error,
    >)
        requires
            old(self).wf(),
        ensures
            keeps(*old(self), *final(self)),
            (forall|k: int| 0 <= k < doc.len() ==> command_of((#[trigger] doc@[k]).name@) is None) ==> r is Ok,
            old(self).plugins.len() > 0 && (forall|k: int|
                0 <= k < doc.len() ==> command_of((#[trigger] doc@[k]).name@) is None || is_definition(doc@[k]))
                ==> r is Ok,
            r is Ok ==> exists|states: Seq<HtmlEmitter>, outs: Seq<Seq<char>>|
                #![trigger dispatched(states, outs, doc@, *sources, fuel)]
                dispatched(states, outs, doc@, *sources, fuel) && states[0] == *old(self) && states[doc.len() as int]
                    == *final(self),
        decreases fuel, 6nat,
    {
        let mut scratch = String::new();
        let mut k: usize = 0;
        let ghost first = *self;
        let ghost mut states: Seq<HtmlEmitter> = seq![*self];
        let ghost mut outs: Seq<Seq<char>> = seq![scratch@];
        proof {
            lemma_plugins_grow_refl(self.plugins@);
        }
        while k < doc.len()
            invariant
                self.wf(),
                first == *old(self),
                keeps(first, *self),
                k <= doc.len(),
                dispatched(states, outs, doc@.subrange(0, k as int), *sources, fuel),
                states[0] == first,
                states[k as int] == *self,
                outs[k as int] == scratch@,
            decreases doc.len() - k,
        {
            let ghost before = *self;
            let ghost scratch_before = scratch@;
            if doc[k].command_name().is_some() {
                proof {
                    if self.plugins.len() > 0 && is_definition(doc@[k as int]) {
                        assert(claims(self.plugins@[0], doc@[k as int]));
                        assert(first_claim_from(self.plugins@, doc@[k as int], 0) == Some(0int));
                    }
                }
                let res = self.call_plugin(&doc[k], "", sources, &mut scratch, fuel);
                proof {
                    lemma_plugins_grow_trans(first.plugins@, before.plugins@, self.plugins@);
                }
                if let Err(e) = res {
                    return Err(e);
                }
            }
            proof {
                let ns = states.push(*self);
                let os = outs.push(scratch@);
                let d = doc@.subrange(0, k + 1);
                assert forall|j: int| 0 <= j < d.len() implies dispatch_step(
                    ns[j],
                    ns[j + 1],
                    os[j],
                    os[j + 1],
                    #[trigger] d[j],
                    *sources,
                    fuel,
                ) by {
                    if j < k {
                        assert(d[j] == doc@.subrange(0, k as int)[j]);
                    }
                }
                states = ns;
                outs = os;
            }
            k = k + 1;
        }
        assert(doc@.subrange(0, k as int) =~= doc@);
        Ok(())
    }

    /// Calls the template `name` of plugin `i` with the entries and children
    /// of `node`: the call's children replace each `@children` of the body,
    /// the parameters and the call's entries become variables of a scope of
    /// its own, and the body is rendered there.
    pub fn call_template(
        &mut self,
        i: usize,
        name: &str,
        node: &Node,
        sources: &Sources,
        out: &mut String,
        fuel: usize,
    ) -> (r: Result<(), Error>)
        requires
            old(self).wf(),
            i < old(self).plugins.len(),
        ensures
            keeps(*old(self), *final(self)),
            old(out)@.is_prefix_of(final(out)@),
            final(self).vars == old(self).vars,
            old(self).plugins@[i as int].template_index(name@) is None ==> is_user_error(r) && final(out)@
                == old(out)@,
            old(self).plugins@[i as int].template_index(name@) matches Some(k) && node.children is Some
                && !old(self).plugins@[i as int].templates@[k].1.uses_children ==> is_user_error(r) && final(out)@
                == old(out)@,
            old(self).plugins@[i as int].template_index(name@) is Some && contains_command(node@, children_cmd())
                ==> is_user_error(r) && final(out)@ == old(out)@,
            fuel > 0 && call_owed(old(self).plugins@, i as int, name@, *node, old(self).vars@, (fuel - 1) as nat) ==> r is Ok,
            r is Ok ==> exists|
                k: int,
                p: String,
                body: Seq<Node>,
                states: Seq<HtmlEmitter>,
                outs: Seq<Seq<char>>,
            |
                #![trigger walked(states, outs, body), old(self).plugins@[i as int].templates@[k], p@]
                {
                    let t = old(self).plugins@[i as int].templates@[k].1;
                    &&& 0 <= k < old(self).plugins@[i as int].templates.len()
                    &&& old(self).plugins@[i as int].templates@[k].0@ == name@
                    &&& (node.children is Some ==> t.uses_children)
                    &&& p@ == props_of(node.entries@, params_view(t.params@), old(self).vars@)
                    &&& view_nodes(body) == forwarded(spliced_body(t.node@, node@), p)
                    &&& walked(states, outs, body)
                    &&& outs[0] == old(out)@ && outs[body.len() as int] == final(out)@
                    &&& states[0].vars@ == call_env(t, *node, old(self).vars@, p@)
                    &&& states[0].indent == old(self).indent && states[0].current_level == old(self).current_level
                    &&& states[0].filename == old(self).filename && states[0].plugins == old(self).plugins
                    &&& states[body.len() as int].plugins == final(self).plugins
                },
        decreases fuel, 1nat,
    {
        proof {
            lemma_plugins_grow_refl(self.plugins@);
        }
        let k = match self.plugins[i].find_template(name) {
            Some(k) => k,
            None => {
                return Err(err(message(&[name, ": no such template"])));
            },
        };
        let t = self.plugins[i].templates[k].1.copy();
        let ghost stored = self.plugins@[i as int].templates@[k as int].1;
        if node.children.is_some() && !t.uses_children {
            return Err(err(message(&[name, ": Template was called with children but does not support it!"])));
        }
        proof {
            reveal_strlit("children");
            assert("children"@ =~= children_cmd());
        }
        if node.find_command("children") {
            return Err(err(message(&[name, ": Template call contain @children. Infinite recursion detected."])));
        }
        proof {
            node.lemma_children_view();
            t.node.lemma_children_view();
        }
        let call_children = match &node.children {
            Some(c) => copy_nodes(c),
            None => Vec::new(),
        };
        assert(view_nodes(call_children@) =~= crate::template::call_children(node@));
        let mut body = match &t.node.children {
            Some(cs) => splice_children_of(&t.node, cs, &call_children),
            None => Vec::new(),
        };
        assert(view_nodes(body@) =~= spliced_body(t.node@, node@));
        let binds = t.bindings(node, &self.vars);
        let props = t.props(node, &self.vars);
        let ghost unforwarded = body@;
        forward_props(&mut body, &props);
        proof {
            if unforwarded.len() == 1 {
                assert(view_nodes(body@) =~= forwarded(view_nodes(unforwarded), props));
            } else {
                assert(view_nodes(body@) =~= forwarded(view_nodes(unforwarded), props));
            }
        }
        if fuel == 0 {
            return Err(too_deep());
        }
        let ghost out_before = out@;
        let ghost env = self.vars@;
        let mut sub = self.scope();
        sub.vars.extend(binds);
        proof {
            lemma_insert_all_pairs(env, binds@);
            reveal_strlit("props");
            assert("props"@ =~= props_key());
        }
        let ghost props_text = props@;
        let ghost props_string = props;
        proof {
            assert(fuel > 0 && call_owed(old(self).plugins@, i as int, name@, *node, env, (fuel - 1) as nat) ==> all_simple(
                sub.plugins@,
                view_nodes(body@),
                body@.len() as nat,
                (fuel - 1) as nat,
            ));
        }
        sub.vars.insert("props", props);
        let ghost sub_start = sub;
        assert(sub_start.vars@ == call_env(stored, *node, env, props_text));
        let res = sub.walk(&body, sources, out, fuel - 1);
        let ghost sub_end = sub;
        self.restore(sub);
        proof {
            assert(out@.subrange(0, old(out)@.len() as int) =~= out_before.subrange(0, old(out)@.len() as int));
        }
        res
    }

    /// Renders `document` into `out` as an independent build: it starts from
    /// no variables and from plugins with no templates and an empty
    /// dependency graph, whatever an earlier build left. Then it goes node by
    /// node as `node_step_traced` describes, and stops at the first node that
    /// fails. Fails with `SourceNotLoaded` when a file it pulls in is not in
    /// `sources`.
    pub fn emit(&mut self, document: &Vec<Node>, sources: &Sources, out: &mut String) -> (r: Result<(), Error>)
        requires
            old(self).wf(),
        ensures
            final(self).wf(),
            final(self).indent == old(self).indent,
            final(self).current_level == old(self).current_level,
            final(self).filename == old(self).filename,
            final(self).plugins.len() == old(self).plugins.len(),
            old(out)@.is_prefix_of(final(out)@),
            (forall|s0: HtmlEmitter|
                #![trigger cleared(*old(self), s0)]
                cleared(*old(self), s0) ==> all_simple(
                    s0.plugins@,
                    view_nodes(document@),
                    document.len() as nat,
                    MAX_DEPTH as nat,
                )) ==> r is Ok,
            r is Ok ==> exists|t: Trace|
                #![trigger walk_traced(t, document@, t.states[0], *final(self), old(out)@, final(out)@, *sources, MAX_DEPTH)]
                walk_traced(t, document@, t.states[0], *final(self), old(out)@, final(out)@, *sources, MAX_DEPTH) && cleared(
                    *old(self),
                    t.states[0],
                ),
            r is Err ==> exists|t: Trace, k: int|
                #![trigger walk_failed(t, k, document@, t.states[0], *final(self), old(out)@, final(out)@, *sources, MAX_DEPTH)]
                walk_failed(t, k, document@, t.states[0], *final(self), old(out)@, final(out)@, *sources, MAX_DEPTH) && cleared(
                    *old(self),
                    t.states[0],
                ),
    {
        self.clear();
        let ghost start = *self;
        assert(cleared(*old(self), start));
        let res = self.walk(document, sources, out, MAX_DEPTH);
        proof {
            if res is Ok {
                let t = choose|t: Trace|
                    #![trigger walk_traced(t, document@, start, *self, old(out)@, out@, *sources, MAX_DEPTH)]
                    walk_traced(t, document@, start, *self, old(out)@, out@, *sources, MAX_DEPTH);
                assert(walk_traced(t, document@, t.states[0], *self, old(out)@, out@, *sources, MAX_DEPTH));
            } else {
                let (t, k) = choose|t: Trace, k: int|
                    #![trigger walk_failed(t, k, document@, start, *self, old(out)@, out@, *sources, MAX_DEPTH)]
                    walk_failed(t, k, document@, start, *self, old(out)@, out@, *sources, MAX_DEPTH);
                assert(walk_failed(t, k, document@, t.states[0], *self, old(out)@, out@, *sources, MAX_DEPTH));
            }
        }
        res
    }

    /// Forgets every variable and the state of every plugin, so the emitter
    /// can render another document.
    pub fn clear(&mut self)
        ensures
            final(self).wf(),
            final(self).indent == old(self).indent,
            final(self).current_level == old(self).current_level,
            final(self).filename == old(self).filename,
            final(self).vars@ == Map::<Seq<char>, Seq<char>>::empty(),
            final(self).plugins.len() == old(self).plugins.len(),
            forall|j: int| 0 <= j < final(self).plugins.len() ==> final(self).plugins@[j].templates.len() == 0
                && final(self).plugins@[j].deps.len() == 0,
    {
        self.vars.clear();
        let n = self.plugins.len();
        let mut fresh: Vec<TemplatePlugin> = Vec::new();
        let mut k: usize = 0;
        while k < n
            invariant
                k <= n,
                fresh.len() == k,
                forall|j: int| 0 <= j < k ==> fresh@[j].templates.len() == 0 && fresh@[j].deps.len() == 0,
            decreases n - k,
        {
            fresh.push(TemplatePlugin::new());
            k = k + 1;
        }
        self.plugins = fresh;
    }

    /// The same emitter, holding all of its data itself.
    pub fn into_owned(self) -> (r: HtmlEmitter)
        ensures
            r == self,
    {
        self
    }
}

/// Along a run of a file's top-level commands, the plugins' state only
/// grows from one step to any later one.
pub proof fn lemma_dispatch_grows(
    states: Seq<HtmlEmitter>,
    outs: Seq<Seq<char>>,
    doc: Seq<Node>,
    sources: Sources,
    fuel: usize,
    from: int,
    to: int,
)
    requires
        dispatched(states, outs, doc, sources, fuel),
        0 <= from <= to <= doc.len(),
    ensures
        plugins_grow(states[from].plugins@, states[to].plugins@),
    decreases to - from,
{
    if from == to {
        lemma_plugins_grow_refl(states[from].plugins@);
    } else {
        lemma_dispatch_grows(states, outs, doc, sources, fuel, from, to - 1);
        assert(dispatch_step(states[to - 1], states[to], outs[to - 1], outs[to], doc[to - 1], sources, fuel));
        lemma_plugins_grow_trans(states[from].plugins@, states[to - 1].plugins@, states[to].plugins@);
    }
}

/// An import among the top-level commands of an imported file records the
/// file it pulls in, and the record is still there when the run ends: the
/// dependency set of a build holds nested imports too.
pub proof fn lemma_nested_import_recorded(
    states: Seq<HtmlEmitter>,
    outs: Seq<Seq<char>>,
    doc: Seq<Node>,
    sources: Sources,
    fuel: usize,
    j: int,
)
    requires
        dispatched(states, outs, doc, sources, fuel),
        0 <= j < doc.len(),
        command_of(doc[j].name@) == Some(seq!['i', 'm', 'p', 'o', 'r', 't']),
        first_claim_from(states[j].plugins@, doc[j], 0) is Some,
    ensures
        ({
            let i = first_claim_from(states[j].plugins@, doc[j], 0)->0;
            &&& states[doc.len() as int].plugins@[i].records(import_target(states[j], doc[j]))
            &&& states[doc.len() as int].plugins@[i].records(file_text(states[j].filename))
        }),
{
    let i = first_claim_from(states[j].plugins@, doc[j], 0)->0;
    assert(dispatch_step(states[j], states[j + 1], outs[j], outs[j + 1], doc[j], sources, fuel));
    lemma_first_claim_in_range(states[j].plugins@, doc[j], 0);
    lemma_dispatch_grows(states, outs, doc, sources, fuel, j + 1, doc.len() as int);
    lemma_recorded_stays(states[j + 1].plugins@, states[doc.len() as int].plugins@, i, import_target(states[j], doc[j]));
    lemma_recorded_stays(states[j + 1].plugins@, states[doc.len() as int].plugins@, i, file_text(states[j].filename));
}

/// A claiming plugin is one of the plugins.
pub proof fn lemma_first_claim_in_range(plugins: Seq<TemplatePlugin>, node: Node, k: int)
    requires
        0 <= k,
    ensures
        first_claim_from(plugins, node, k) matches Some(i) ==> k <= i < plugins.len(),
    decreases plugins.len() - k,
{
    if k < plugins.len() && !claims(plugins[k], node) {
        lemma_first_claim_in_range(plugins, node, k + 1);
    }
}

/// Two emitters render alike: the same variables, settings, level and file,
/// and plugins that know the same template names.
pub open spec fn agree(a1: HtmlEmitter, a2: HtmlEmitter) -> bool {
    &&& a1.vars@ == a2.vars@
    &&& a1.indent == a2.indent
    &&& a1.current_level == a2.current_level
    &&& a1.filename == a2.filename
    &&& a1.plugins.len() == a2.plugins.len()
    &&& forall|j: int, n: Seq<char>|
        0 <= j < a1.plugins.len() ==> #[trigger] a1.plugins@[j].has_template(n) == a2.plugins@[j].has_template(n)
}

/// Emitters that agree claim the same nodes.
pub proof fn lemma_agree_unclaimed(a1: HtmlEmitter, a2: HtmlEmitter, n: NodeView)
    requires
        agree(a1, a2),
    ensures
        unclaimed_view(a1.plugins@, n) == unclaimed_view(a2.plugins@, n),
{
    let c = command_of(n.name);
    if c is Some {
        assert forall|i: int| 0 <= i < a1.plugins.len() implies a1.plugins@[i].has_template(c->0)
            == a2.plugins@[i].has_template(c->0) by {}
    }
}

/// One node that renders without fail, taken from emitters that agree and
/// the same output, gives the same output and emitters that still agree.
pub proof fn lemma_step_det(
    a1: HtmlEmitter,
    b1: HtmlEmitter,
    a2: HtmlEmitter,
    b2: HtmlEmitter,
    start: Seq<char>,
    end1: Seq<char>,
    end2: Seq<char>,
    node: Node,
    kid1: Trace,
    kid2: Trace,
    sources: Sources,
    fuel: usize,
    d: nat,
)
    requires
        node_step_traced(a1, b1, start, end1, node, kid1, sources, fuel),
        node_step_traced(a2, b2, start, end2, node, kid2, sources, fuel),
        agree(a1, a2),
        simple_tree(a1.plugins@, node@, d),
    ensures
        agree(b1, b2),
        end1 == end2,
        b1.plugins == a1.plugins,
    decreases node, 0nat,
{
    node.lemma_children_view();
    lemma_simple_view(a1.plugins@, node);
    lemma_simple_view(a2.plugins@, node);
    lemma_agree_unclaimed(a1, a2, node@);
    assert(unclaimed_view(a1.plugins@, node@) == unclaimed(a1.plugins@, node));
    assert(unclaimed_view(a2.plugins@, node@) == unclaimed(a2.plugins@, node));
    if is_binding(node) {
        assert(agree(b1, b2));
    } else if is_raw_text(node) || is_escaped_text(node) {
    } else if unclaimed(a1.plugins@, node) && node.children is None {
    } else {
        assert(nested_element(a1, node));
        assert(nested_element(a2, node));
        let doc = node.children->0@;
        assert(node@.children->0 == view_nodes(doc));
        assert(agree(kid1.states[0], kid2.states[0]));
        lemma_traced_det(kid1, kid2, doc, doc.len() as nat, sources, (fuel - 1) as usize, (d - 1) as nat);
    }
}

/// The first `k` nodes of a document that render without fail, walked from
/// emitters that agree and the same output, give the same output and
/// emitters that still agree.
pub proof fn lemma_traced_det(t1: Trace, t2: Trace, doc: Seq<Node>, k: nat, sources: Sources, fuel: usize, d: nat)
    requires
        traced(t1, doc, k, sources, fuel),
        traced(t2, doc, k, sources, fuel),
        t1.states.len() > k,
        t2.states.len() > k,
        t1.outs.len() > k,
        t2.outs.len() > k,
        agree(t1.states[0], t2.states[0]),
        t1.outs[0] == t2.outs[0],
        k <= doc.len(),
        all_simple(t1.states[0].plugins@, view_nodes(doc), k, d),
    ensures
        agree(t1.states[k as int], t2.states[k as int]),
        t1.outs[k as int] == t2.outs[k as int],
        t1.states[k as int].plugins == t1.states[0].plugins,
    decreases doc, k,
{
    if k > 0 {
        lemma_traced_det(t1, t2, doc, (k - 1) as nat, sources, fuel, d);
        let j = k - 1;
        assert(view_nodes(doc)[j] == doc[j]@);
        lemma_step_det(
            t1.states[j],
            t1.states[k as int],
            t2.states[j],
            t2.states[k as int],
            t1.outs[j],
            t1.outs[k as int],
            t2.outs[k as int],
            doc[j],
            t1.kids[j],
            t2.kids[j],
            sources,
            fuel,
            d,
        );
    }
}

/// Two builds of one document, from emitters with the same settings, level
/// and file and as many plugins, write byte-identical output when no node of
/// the document, at any depth, is claimed by a plugin (`emit` owes such a
/// build success).
pub proof fn lemma_build_deterministic(
    e1: HtmlEmitter,
    e2: HtmlEmitter,
    doc: Seq<Node>,
    sources: Sources,
    t1: Trace,
    t2: Trace,
    b1: HtmlEmitter,
    b2: HtmlEmitter,
    start: Seq<char>,
    end1: Seq<char>,
    end2: Seq<char>,
)
    requires
        e1.indent == e2.indent,
        e1.current_level == e2.current_level,
        e1.filename == e2.filename,
        e1.plugins.len() == e2.plugins.len(),
        walk_traced(t1, doc, t1.states[0], b1, start, end1, sources, MAX_DEPTH),
        cleared(e1, t1.states[0]),
        walk_traced(t2, doc, t2.states[0], b2, start, end2, sources, MAX_DEPTH),
        cleared(e2, t2.states[0]),
        all_simple(t1.states[0].plugins@, view_nodes(doc), doc.len() as nat, MAX_DEPTH as nat),
    ensures
        end1 == end2,
{
    let s1 = t1.states[0];
    let s2 = t2.states[0];
    assert forall|j: int, n: Seq<char>| 0 <= j < s1.plugins.len() implies #[trigger] s1.plugins@[j].has_template(n)
        == s2.plugins@[j].has_template(n) by {
        assert(s1.plugins@[j].templates.len() == 0);
        assert(s2.plugins@[j].templates.len() == 0);
    }
    assert(agree(s1, s2));
    lemma_traced_det(t1, t2, doc, doc.len() as nat, sources, MAX_DEPTH, MAX_DEPTH as nat);
}

/// A non-void element whose only entry is a positional string and that has
/// no children renders, at the top level with fixed indentation, as the
/// opening tag, the expanded and escaped text, and the closing tag.
pub proof fn lemma_text_only_tag(name: Seq<char>, text: String, env: Map<Seq<char>, Seq<char>>, width: usize)
    requires
        !is_void(name),
    ensures
        ({
            let es = seq![Entry { name: None, value: Value::String(text) }];
            let content = inline_content(es, false, false);
            &&& content == Some(Value::String(text))
            &&& open_tag(indent_text(Some(width), 0, Seq::empty()), name, attr_entries(es, false, false), env)
                + escape_text(expand_text(content->0, env)) + close_tag(name) == seq!['<'] + name + seq!['>']
                + escape_text(expand(text@, env)) + seq!['<', '/'] + name + seq!['>']
        }),
{
    let es = seq![Entry { name: None, value: Value::String(text) }];
    assert(attr_entries(es, false, false) =~= Seq::<Entry>::empty());
    assert(attrs_text(Seq::<Entry>::empty(), env) =~= Seq::<char>::empty());
    assert(spaces(0) =~= Seq::<char>::empty());
    assert(open_tag(Seq::empty(), name, Seq::empty(), env) =~= seq!['<'] + name + seq!['>']);
    assert(open_tag(Seq::empty(), name, Seq::empty(), env) + escape_text(expand(text@, env)) + close_tag(name)
        =~= seq!['<'] + name + seq!['>'] + escape_text(expand(text@, env)) + seq!['<', '/'] + name + seq!['>']);
}

/// The number of positional entries of a node.
pub open spec fn positional_len(node: &Node) -> int {
    crate::node::positional(node.entries@).len() as int
}

} // verus!
