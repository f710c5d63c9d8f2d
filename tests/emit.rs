use htmeta::emitter::{HtmlEmitter, HtmlEmitterBuilder, resolve_path};
use htmeta::error::Error;
use htmeta::node::{Entry, Node, Value};
use htmeta::plugin::{parse_range, Source, Sources, TemplatePlugin};

fn s(x: &str) -> String {
    x.to_string()
}

fn text(x: &str) -> Value {
    Value::String(s(x))
}

fn arg(v: Value) -> Entry {
    Entry { name: None, value: v }
}

fn prop(k: &str, v: Value) -> Entry {
    Entry { name: Some(s(k)), value: v }
}

fn node(name: &str, entries: Vec<Entry>, children: Option<Vec<Node>>) -> Node {
    Node { name: s(name), entries, children, leading: String::new() }
}

fn leaf(name: &str, entries: Vec<Entry>) -> Node {
    node(name, entries, None)
}

fn with_templates() -> HtmlEmitterBuilder {
    let mut b = HtmlEmitter::builder();
    b.add_plugin(TemplatePlugin::new());
    b
}

fn render_with(builder: &HtmlEmitterBuilder, doc: &Vec<Node>, sources: &Sources) -> Result<String, Error> {
    let mut emitter = builder.build(Some(s("dir/main.kdl")));
    let mut out = String::new();
    emitter.emit(doc, sources, &mut out)?;
    Ok(out)
}

fn render(builder: &HtmlEmitterBuilder, doc: &Vec<Node>) -> Result<String, Error> {
    render_with(builder, doc, &Sources::new())
}

fn user_message(e: Error) -> String {
    match e {
        Error::UserError { message } => message,
        other => panic!("expected a user error, got: {}", other.message()),
    }
}

fn greet_template() -> Node {
    node(
        "@template",
        vec![arg(text("greet"))],
        Some(vec![
            leaf("@params", vec![prop("name", text("World"))]),
            leaf("p", vec![arg(text("Hello, $name!"))]),
        ]),
    )
}

#[test]
fn nested_tags_are_indented() {
    let doc = vec![node("body", vec![], Some(vec![leaf("p", vec![arg(text("Hi!"))])]))];
    let out = render(&HtmlEmitter::builder(), &doc).unwrap();
    assert_eq!(out, "<body>\n    <p>Hi!</p>\n</body>\n");
}

#[test]
fn minified_output_has_no_breaks() {
    let mut b = HtmlEmitter::builder();
    b.minify();
    let doc = vec![node("div", vec![], Some(vec![leaf("p", vec![arg(text("x"))])]))];
    assert_eq!(render(&b, &doc).unwrap(), "<div><p>x</p></div>");
}

#[test]
fn attributes_expand_and_empty_ones_are_dropped() {
    let mut b = HtmlEmitter::builder();
    b.minify();
    let doc = vec![
        leaf("$u", vec![arg(text("/home"))]),
        leaf("a", vec![prop("href", text("$u")), prop("class", text("")), arg(text("go"))]),
    ];
    assert_eq!(render(&b, &doc).unwrap(), "<a href=\"/home\">go</a>");
}

#[test]
fn text_only_element_is_escaped() {
    let doc = vec![leaf("p", vec![arg(text("a<b & c>d"))])];
    let b = HtmlEmitter::builder();
    let first = render(&b, &doc).unwrap();
    assert_eq!(first, "<p>a&lt;b &amp; c&gt;d</p>\n");
    let second = render(&b, &doc).unwrap();
    assert_eq!(first, second);
}

#[test]
fn void_tag_with_children_fails_for_every_void_name() {
    let names = [
        "area", "base", "br", "col", "embed", "hr", "img", "input", "link", "meta", "param", "source",
        "track", "wbr", "!DOCTYPE", "!doctype",
    ];
    for n in names {
        let doc = vec![node(n, vec![], Some(vec![leaf("p", vec![])]))];
        let e = render(&HtmlEmitter::builder(), &doc).unwrap_err();
        assert_eq!(user_message(e), "Void tags can't have children");
    }
}

#[test]
fn void_tag_closes_at_once() {
    let mut b = HtmlEmitter::builder();
    b.minify();
    let doc = vec![leaf("img", vec![prop("src", text("a.png"))])];
    assert_eq!(render(&b, &doc).unwrap(), "<img src=\"a.png\">");
}

#[test]
fn raw_and_escaped_text_nodes() {
    let mut b = HtmlEmitter::builder();
    b.minify();
    let doc = vec![leaf("_", vec![arg(text("<b>"))]), leaf("-", vec![arg(text("<b>"))])];
    assert_eq!(render(&b, &doc).unwrap(), "<b>&lt;b&gt;");
}

#[test]
fn template_uses_default_then_argument() {
    let b = with_templates();
    let doc = vec![greet_template(), leaf("@greet", vec![])];
    assert_eq!(render(&b, &doc).unwrap(), "<p>Hello, World!</p>\n");
    let doc = vec![greet_template(), leaf("@greet", vec![prop("name", text("Rust"))])];
    assert_eq!(render(&b, &doc).unwrap(), "<p>Hello, Rust!</p>\n");
}

#[test]
fn template_forwards_unclaimed_properties() {
    let mut b = with_templates();
    b.minify();
    let doc = vec![greet_template(), leaf("@greet", vec![prop("id", text("x"))])];
    assert_eq!(render(&b, &doc).unwrap(), "<p id=\"x\">Hello, World!</p>");
}

#[test]
fn for_over_literal_values() {
    let b = with_templates();
    let doc = vec![node(
        "@for",
        vec![arg(text("x")), arg(text("in")), arg(Value::Integer(1)), arg(Value::Integer(2)), arg(Value::Integer(3))],
        Some(vec![leaf("span", vec![arg(text("$x"))])]),
    )];
    assert_eq!(render(&b, &doc).unwrap(), "<span>1</span>\n<span>2</span>\n<span>3</span>\n");
}

#[test]
fn for_over_a_range() {
    let b = with_templates();
    let doc = vec![node(
        "@for",
        vec![arg(text("i")), arg(text("in")), arg(text("@range")), arg(Value::Integer(3))],
        Some(vec![leaf("span", vec![arg(text("$i"))])]),
    )];
    assert_eq!(render(&b, &doc).unwrap(), "<span>1</span>\n<span>2</span>\n<span>3</span>\n");
}

#[test]
fn range_arguments() {
    let r = parse_range(&[Value::Integer(2), Value::Integer(3), Value::Integer(9)]).unwrap();
    assert_eq!(r, vec![2, 5, 8]);
    assert_eq!(parse_range(&[Value::Integer(4), Value::Integer(6)]).unwrap(), vec![4, 5, 6]);
    assert_eq!(parse_range(&[Value::Integer(0)]).unwrap(), Vec::<i128>::new());
    assert!(parse_range(&[Value::Integer(1), Value::Integer(0), Value::Integer(3)]).is_none());
    assert!(parse_range(&[text("3")]).is_none());
    assert!(parse_range(&[]).is_none());
}

#[test]
fn for_without_keyword_fails() {
    let b = with_templates();
    let doc = vec![node("@for", vec![arg(text("x")), arg(Value::Integer(1))], Some(vec![]))];
    let e = render(&b, &doc).unwrap_err();
    assert_eq!(user_message(e), "for: expected `in` keyword after binding name");
}

#[test]
fn children_at_call_need_support() {
    let b = with_templates();
    let doc = vec![greet_template(), node("@greet", vec![], Some(vec![leaf("b", vec![])]))];
    let e = render(&b, &doc).unwrap_err();
    assert_eq!(user_message(e), "greet: Template was called with children but does not support it!");
}

#[test]
fn splice_without_children_is_empty() {
    let mut b = with_templates();
    b.minify();
    let card = node(
        "@template",
        vec![arg(text("card"))],
        Some(vec![node("div", vec![], Some(vec![leaf("@children", vec![prop("class", text("item"))])]))]),
    );
    let doc = vec![card, leaf("@card", vec![])];
    assert_eq!(render(&b, &doc).unwrap(), "<div></div>");
}

#[test]
fn splice_puts_call_children_in_place() {
    let mut b = with_templates();
    b.minify();
    let card = node(
        "@template",
        vec![arg(text("card"))],
        Some(vec![node("div", vec![], Some(vec![leaf("@children", vec![prop("class", text("item"))])]))]),
    );
    let call = node(
        "@card",
        vec![],
        Some(vec![leaf("p", vec![arg(text("a"))]), leaf("p", vec![prop("class", text("own")), arg(text("b"))])]),
    );
    let doc = vec![card, call];
    assert_eq!(
        render(&b, &doc).unwrap(),
        "<div><p class=\"item\">a</p><p class=\"own\">b</p></div>"
    );
}

#[test]
fn loop_and_template_bindings_stay_inside() {
    let mut b = with_templates();
    b.minify();
    let doc = vec![
        leaf("$x", vec![arg(text("outer"))]),
        node(
            "@for",
            vec![arg(text("x")), arg(text("in")), arg(text("inner"))],
            Some(vec![leaf("i", vec![arg(text("$x"))])]),
        ),
        greet_template(),
        leaf("@greet", vec![]),
        leaf("p", vec![arg(text("$x|$name|"))]),
    ];
    assert_eq!(render(&b, &doc).unwrap(), "<i>inner</i><p>Hello, World!</p><p>outer||</p>");
}

#[test]
fn imports_record_every_file() {
    let b = with_templates();
    let doc = vec![leaf("@import", vec![arg(text("a.kdl"))])];
    let a_path = resolve_path("dir/main.kdl", "a.kdl");
    let b_path = resolve_path(&a_path, "b.kdl");
    let e = render(&b, &doc).unwrap_err();
    match e {
        Error::SourceNotLoaded { path } => assert_eq!(path, a_path),
        other => panic!("unexpected: {}", other.message()),
    }
    let mut sources = Sources::new();
    sources.add(a_path.clone(), Source::Loaded(vec![leaf("@import", vec![arg(text("b.kdl"))])]));
    sources.add(b_path.clone(), Source::Loaded(vec![greet_template()]));
    let mut emitter = b.build(Some(s("dir/main.kdl")));
    let mut doc = doc;
    doc.push(leaf("@greet", vec![]));
    let mut out = String::new();
    emitter.emit(&doc, &sources, &mut out).unwrap();
    assert_eq!(out, "<p>Hello, World!</p>\n");
    let files = emitter.plugins[0].used_files();
    assert!(files.contains(&s("dir/main.kdl")));
    assert!(files.contains(&a_path));
    assert!(files.contains(&b_path));
}

#[test]
fn missing_file_is_reported() {
    let b = with_templates();
    let doc = vec![leaf("@import", vec![arg(text("gone.kdl"))])];
    let mut sources = Sources::new();
    sources.add(resolve_path("dir/main.kdl", "gone.kdl"), Source::Missing);
    let e = render_with(&b, &doc, &sources).unwrap_err();
    assert!(user_message(e).starts_with("Failed to find file"));
}

#[test]
fn template_needs_children_and_name() {
    let b = with_templates();
    let doc = vec![leaf("@template", vec![arg(text("t"))])];
    assert_eq!(user_message(render(&b, &doc).unwrap_err()), "t: Template tags must have children!");
    let doc = vec![node("@template", vec![], Some(vec![]))];
    assert_eq!(
        user_message(render(&b, &doc).unwrap_err()),
        "template: Template tags must have a `name` parameter!"
    );
}

#[test]
fn children_marker_outside_template_is_reserved() {
    let b = with_templates();
    let t = node("@template", vec![arg(text("children"))], Some(vec![leaf("p", vec![])]));
    let doc = vec![t, leaf("@children", vec![])];
    assert_eq!(user_message(render(&b, &doc).unwrap_err()), "@children is a reserved name.");
}

#[test]
fn call_holding_the_marker_is_refused() {
    let b = with_templates();
    let card = node("@template", vec![arg(text("card"))], Some(vec![leaf("@children", vec![])]));
    let doc = vec![card, node("@card", vec![], Some(vec![leaf("@children", vec![])]))];
    assert_eq!(
        user_message(render(&b, &doc).unwrap_err()),
        "card: Template call contain @children. Infinite recursion detected."
    );
}

#[test]
fn self_calling_template_stops() {
    let b = with_templates();
    let t = node("@template", vec![arg(text("loop"))], Some(vec![leaf("@loop", vec![])]));
    let doc = vec![t, leaf("@loop", vec![])];
    assert!(render(&b, &doc).is_err());
}

#[test]
fn escaped_text_node_replaces_markup_characters() {
    let mut b = HtmlEmitter::builder();
    b.minify();
    let doc = vec![leaf("-", vec![arg(text("a&b<c>d\"e"))])];
    assert_eq!(render(&b, &doc).unwrap(), "a&amp;b&lt;c&gt;d\"e");
}

#[test]
fn paths_resolve_against_the_importing_file() {
    assert_eq!(resolve_path("dir/main.kdl", "a.kdl"), "dir/a.kdl");
    assert_eq!(resolve_path("dir/sub/x.kdl", "../a.kdl"), "dir/sub/../a.kdl");
    assert_eq!(resolve_path("", "a.kdl"), "./a.kdl");
    assert_eq!(resolve_path("dir/main.kdl", "/abs/a.kdl"), "/abs/a.kdl");
}

#[test]
fn pretty_and_expansion_helpers() {
    let b = HtmlEmitter::builder();
    let mut e = b.build(None);
    assert!(e.is_pretty());
    e.vars.insert("v", s("1"));
    assert_eq!(e.expand_string("[$v]"), "[1]");
    assert_eq!(e.expand_value(&Value::Bool(false)), "#false");
    let mut m = HtmlEmitter::builder();
    m.minify();
    assert!(!m.build(None).is_pretty());
}

#[test]
fn each_build_starts_without_variables() {
    let b = HtmlEmitter::builder();
    let mut emitter = b.build(None);
    let mut out = String::new();
    emitter.emit(&vec![leaf("$x", vec![arg(text("a"))])], &Sources::new(), &mut out).unwrap();
    let mut second = String::new();
    emitter.emit(&vec![leaf("p", vec![arg(text("$x"))])], &Sources::new(), &mut second).unwrap();
    assert_eq!(second, "<p></p>\n");
}

#[test]
fn text_and_children_together_fail() {
    let doc = vec![node("p", vec![arg(text("Hello"))], Some(vec![leaf("b", vec![arg(text("x"))])]))];
    let e = render(&HtmlEmitter::builder(), &doc).unwrap_err();
    assert_eq!(user_message(e), "Tags can't have both text and children");
}

#[test]
fn first_error_aborts_the_build() {
    let b = HtmlEmitter::builder();
    let mut emitter = b.build(None);
    let mut out = String::new();
    let doc = vec![leaf("p", vec![arg(text("a"))]), node("br", vec![], Some(vec![])), leaf("p", vec![arg(text("b"))])];
    let e = emitter.emit(&doc, &Sources::new(), &mut out).unwrap_err();
    assert_eq!(user_message(e), "Void tags can't have children");
    assert_eq!(out, "<p>a</p>\n");
}

#[test]
fn bindings_reach_children_but_not_back() {
    let doc = vec![
        leaf("$x", vec![arg(text("a"))]),
        node("div", vec![], Some(vec![leaf("$x", vec![arg(text("b"))]), leaf("p", vec![arg(text("$x"))])])),
        leaf("p", vec![arg(text("$x"))]),
    ];
    assert_eq!(render(&HtmlEmitter::builder(), &doc).unwrap(), "<div>\n    <p>b</p>\n</div>\n<p>a</p>\n");
}

#[test]
fn debug_block_lists_variables() {
    let mut b = with_templates();
    b.minify();
    let doc = vec![leaf("$v", vec![arg(text("<1>"))]), leaf("@dbg", vec![])];
    assert_eq!(render(&b, &doc).unwrap(), "<pre><code>v = \"&lt;1&gt;\"\n</code></pre>");
}

#[test]
fn template_forwards_props_to_a_wrapper() {
    let mut b = with_templates();
    b.minify();
    let card = node(
        "@template",
        vec![arg(text("card"))],
        Some(vec![node("div", vec![prop("id", text("c"))], Some(vec![leaf("@children", vec![])]))]),
    );
    let call = node("@card", vec![prop("class", text("x"))], Some(vec![leaf("i", vec![])]));
    assert_eq!(render(&b, &vec![card, call]).unwrap(), "<div id=\"c\" class=\"x\"><i></i></div>");
}

#[test]
fn template_named_by_property() {
    let mut b = with_templates();
    b.minify();
    let t = node("@template", vec![prop("name", text("hi"))], Some(vec![leaf("b", vec![arg(text("x"))])]));
    assert_eq!(render(&b, &vec![t, leaf("@hi", vec![])]).unwrap(), "<b>x</b>");
}
