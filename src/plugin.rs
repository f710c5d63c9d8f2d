//! The template plugin's state, what it claims, loop ranges, and the source
//! files a build may pull in.
use vstd::prelude::*;
use crate::node::{command_of, Node, Value};
use crate::template::Template;
use crate::text::{same_text, text_is};

verus! {

/// How a plugin answers for a node.
pub enum EmitStatus {
    /// The plugin does not handle the node.
    Skip,
    /// The plugin renders the node without registering anything itself.
    Emit,
    /// The plugin registers state for the node (a template, a dependency)
    /// and may render it.
    EmitMut,
}

/// The commands the template plugin handles by name, besides template calls.
pub open spec fn is_builtin(c: Seq<char>) -> bool {
    c == seq!['i', 'm', 'p', 'o', 'r', 't'] || c == seq!['i', 'n', 'c', 'l', 'u', 'd', 'e'] || c == seq![
        't',
        'e',
        'm',
        'p',
        'l',
        'a',
        't',
        'e',
    ] || c == seq!['d', 'b', 'g'] || c == seq!['f', 'o', 'r']
}

/// The commands that register state: `template`, `import`, and the import
/// that renders in place.
pub open spec fn is_registering(c: Seq<char>) -> bool {
    c == seq!['t', 'e', 'm', 'p', 'l', 'a', 't', 'e'] || c == seq!['i', 'm', 'p', 'o', 'r', 't'] || c == seq![
        'i',
        'n',
        'c',
        'l',
        'u',
        'd',
        'e',
    ]
}

/// The position of the first template named `name` at or after `i`.
pub open spec fn template_from(ts: Seq<(String, Template)>, name: Seq<char>, i: int) -> Option<int>
    decreases ts.len() - i,
{
    if i < 0 || i >= ts.len() {
        None
    } else if ts[i].0@ == name {
        Some(i)
    } else {
        template_from(ts, name, i + 1)
    }
}

/// Replacing an entry by one of the same name leaves where a name is first
/// found as it was.
pub proof fn lemma_template_from_update(ts: Seq<(String, Template)>, k: int, x: (String, Template), name: Seq<char>, i: int)
    requires
        0 <= k < ts.len(),
        x.0@ == ts[k].0@,
        0 <= i,
    ensures
        template_from(ts.update(k, x), name, i) == template_from(ts, name, i),
    decreases ts.len() - i,
{
    if i < ts.len() {
        lemma_template_from_update(ts, k, x, name, i + 1);
    }
}

/// A name found nowhere is found at the end once an entry of that name is
/// added there.
pub proof fn lemma_template_from_push(ts: Seq<(String, Template)>, x: (String, Template), name: Seq<char>, i: int)
    requires
        template_from(ts, name, i) is None,
        x.0@ == name,
        0 <= i <= ts.len(),
    ensures
        template_from(ts.push(x), name, i) == Some(ts.len() as int),
    decreases ts.len() - i,
{
    if i < ts.len() {
        lemma_template_from_push(ts, x, name, i + 1);
    }
}

/// Templates, and the files each file of the build pulled in.
pub struct TemplatePlugin {
    pub templates: Vec<(String, Template)>,
    pub deps: Vec<(String, Vec<String>)>,
}

impl TemplatePlugin {
    /// Whether a template named `name` is registered.
    pub open spec fn has_template(&self, name: Seq<char>) -> bool {
        exists|i: int| 0 <= i < self.templates.len() && self.templates@[i].0@ == name
    }

    /// Whether `path` is recorded in the dependency graph, as a file that
    /// pulled others in or was pulled in.
    pub open spec fn records(&self, path: Seq<char>) -> bool {
        exists|i: int| 0 <= i < self.deps.len() && self.deps@[i].0@ == path
    }

    /// Whether the graph holds the edge from `from` to `to`.
    pub open spec fn has_edge(&self, from: Seq<char>, to: Seq<char>) -> bool {
        exists|i: int, j: int|
            0 <= i < self.deps.len() && self.deps@[i].0@ == from && 0 <= j < self.deps@[i].1.len()
                && self.deps@[i].1@[j]@ == to
    }

    /// Each file appears once in the graph.
    pub open spec fn files_unique(&self) -> bool {
        forall|a: int, b: int| 0 <= a < b < self.deps.len() ==> self.deps@[a].0@ != self.deps@[b].0@
    }

    /// The graph only grows from `self` to `other`, and keeps each file once.
    pub open spec fn grows_to(&self, other: &TemplatePlugin) -> bool {
        &&& self.files_unique() ==> other.files_unique()
        &&& forall|n: Seq<char>| self.has_template(n) ==> other.has_template(n)
        &&& forall|p: Seq<char>| self.records(p) ==> other.records(p)
        &&& forall|p: Seq<char>, q: Seq<char>| self.has_edge(p, q) ==> other.has_edge(p, q)
    }

    /// A plugin with no templates and an empty graph.
    pub fn new() -> (r: TemplatePlugin)
        ensures
            r.templates.len() == 0,
            r.deps.len() == 0,
    {
        TemplatePlugin { templates: Vec::new(), deps: Vec::new() }
    }

    /// The position of the first template named `name`.
    pub open spec fn template_index(&self, name: Seq<char>) -> Option<int> {
        template_from(self.templates@, name, 0)
    }

    /// The position of the first template named `name`.
    pub fn find_template(&self, name: &str) -> (r: Option<usize>)
        ensures
            r matches Some(i) ==> i < self.templates.len() && self.templates@[i as int].0@ == name@,
            r is None ==> !self.has_template(name@),
            r matches Some(i) ==> self.template_index(name@) == Some(i as int),
            r is None ==> self.template_index(name@) is None,
    {
        let mut i: usize = 0;
        while i < self.templates.len()
            invariant
                i <= self.templates.len(),
                forall|j: int| 0 <= j < i ==> self.templates@[j].0@ != name@,
                template_from(self.templates@, name@, 0) == template_from(self.templates@, name@, i as int),
            decreases self.templates.len() - i,
        {
            if same_text(self.templates[i].0.as_str(), name) {
                return Some(i);
            }
            i = i + 1;
        }
        None
    }

    /// Registers `template` under `name`, replacing a template of that name.
    pub fn register(&mut self, name: String, template: Template)
        ensures
            final(self).has_template(name@),
            final(self).deps == old(self).deps,
            forall|n: Seq<char>| old(self).has_template(n) ==> final(self).has_template(n),
            old(self).template_index(name@) matches Some(k) ==> final(self).templates@ == old(self).templates@.update(
                k,
                (name, template),
            ),
            old(self).template_index(name@) is None ==> final(self).templates@ == old(self).templates@.push(
                (name, template),
            ),
            final(self).template_index(name@) matches Some(k) && 0 <= k < final(self).templates.len()
                && final(self).templates@[k].1 == template,
    {
        let ghost ts = self.templates@;
        let ghost nm = name@;
        let ghost entry = (name, template);
        match self.find_template(name.as_str()) {
            Some(i) => {
                let ghost k = name@;
                self.templates.set(i, (name, template));
                assert forall|n: Seq<char>| old(self).has_template(n) implies self.has_template(n) by {
                    let j = choose|j: int| 0 <= j < old(self).templates.len() && old(self).templates@[j].0@ == n;
                    if j != i {
                        assert(self.templates@[j] == old(self).templates@[j]);
                    }
                }
                assert(self.templates@[i as int].0@ == k);
                proof {
                    lemma_template_from_update(ts, i as int, entry, nm, 0);
                }
            },
            None => {
                self.templates.push((name, template));
                assert forall|n: Seq<char>| old(self).has_template(n) implies self.has_template(n) by {
                    let j = choose|j: int| 0 <= j < old(self).templates.len() && old(self).templates@[j].0@ == n;
                    assert(self.templates@[j] == old(self).templates@[j]);
                }
                assert(self.templates@[self.templates.len() - 1].0@ == nm);
                proof {
                    lemma_template_from_push(ts, entry, nm, 0);
                }
            },
        }
    }

    /// The position of `path` in the graph, added with no edges if missing.
    fn add_path(&mut self, path: &String) -> (r: usize)
        ensures
            r < final(self).deps.len(),
            final(self).deps@[r as int].0@ == path@,
            old(self).grows_to(&*final(self)),
            final(self).templates == old(self).templates,
            forall|p: Seq<char>| final(self).records(p) ==> old(self).records(p) || p == path@,
    {
        let mut i: usize = 0;
        while i < self.deps.len()
            invariant
                i <= self.deps.len(),
                self.deps == old(self).deps,
                self.templates == old(self).templates,
                forall|j: int| 0 <= j < i ==> self.deps@[j].0@ != path@,
            decreases self.deps.len() - i,
        {
            if self.deps[i].0 == *path {
                return i;
            }
            i = i + 1;
        }
        self.deps.push((path.clone(), Vec::new()));
        assert forall|p: Seq<char>| old(self).records(p) implies self.records(p) by {
            let j = choose|j: int| 0 <= j < old(self).deps.len() && old(self).deps@[j].0@ == p;
            assert(self.deps@[j] == old(self).deps@[j]);
        }
        assert forall|p: Seq<char>, q: Seq<char>| old(self).has_edge(p, q) implies self.has_edge(p, q) by {
            let (a, b) = choose|a: int, b: int|
                0 <= a < old(self).deps.len() && old(self).deps@[a].0@ == p && 0 <= b < old(self).deps@[a].1.len()
                    && old(self).deps@[a].1@[b]@ == q;
            assert(self.deps@[a] == old(self).deps@[a]);
        }
        assert forall|p: Seq<char>| self.records(p) implies old(self).records(p) || p == path@ by {
            let j = choose|j: int| 0 <= j < self.deps.len() && self.deps@[j].0@ == p;
            if j < old(self).deps.len() {
                assert(self.deps@[j] == old(self).deps@[j]);
            }
        }

        assert forall|n: Seq<char>| old(self).has_template(n) implies self.has_template(n) by {
            let j = choose|j: int| 0 <= j < old(self).templates.len() && old(self).templates@[j].0@ == n;
            assert(self.templates@[j] == old(self).templates@[j]);
        }
        assert(old(self).files_unique() ==> self.files_unique()) by {
            if old(self).files_unique() {
                assert forall|a: int, b: int| 0 <= a < b < self.deps.len() implies self.deps@[a].0@
                    != self.deps@[b].0@ by {
                    assert(self.deps@[a] == old(self).deps@[a]);
                    if b < old(self).deps.len() {
                        assert(self.deps@[b] == old(self).deps@[b]);
                    }
                }
            }
        }
        i
    }

    /// Records that `from` pulled in `to`: both become files of the graph, with
    /// an edge between them.
    pub fn add_dependency(&mut self, from: &String, to: &String)
        ensures
            final(self).records(from@),
            final(self).records(to@),
            final(self).has_edge(from@, to@),
            old(self).grows_to(&*final(self)),
            final(self).templates == old(self).templates,
            forall|p: Seq<char>| final(self).records(p) ==> old(self).records(p) || p == from@ || p == to@,
    {
        let ghost s0 = *self;
        let i = self.add_path(from);
        let ghost s1 = *self;
        let mut edges = self.deps.remove(i);
        edges.1.push(to.clone());
        let ghost pushed = edges;
        self.deps.insert(i, edges);
        assert(self.deps@ =~= s1.deps@.update(i as int, pushed));
        assert(self.deps@[i as int].1@[self.deps@[i as int].1.len() - 1]@ == to@);
        assert forall|p: Seq<char>| s1.records(p) implies self.records(p) by {
            let j = choose|j: int| 0 <= j < s1.deps.len() && s1.deps@[j].0@ == p;
            assert(self.deps@[j].0 == s1.deps@[j].0);
        }
        assert forall|p: Seq<char>, q: Seq<char>| s1.has_edge(p, q) implies self.has_edge(p, q) by {
            let (a, b) = choose|a: int, b: int|
                0 <= a < s1.deps.len() && s1.deps@[a].0@ == p && 0 <= b < s1.deps@[a].1.len()
                    && s1.deps@[a].1@[b]@ == q;
            if a == i {
                assert(self.deps@[a].1@[b] == s1.deps@[a].1@[b]);
            } else {
                assert(self.deps@[a] == s1.deps@[a]);
            }
        }
        assert forall|p: Seq<char>| self.records(p) implies s1.records(p) by {
            let j = choose|j: int| 0 <= j < self.deps.len() && self.deps@[j].0@ == p;
            assert(self.deps@[j].0 == s1.deps@[j].0);
        }
        assert(s1.files_unique() ==> self.files_unique()) by {
            if s1.files_unique() {
                assert forall|a: int, b: int| 0 <= a < b < self.deps.len() implies self.deps@[a].0@
                    != self.deps@[b].0@ by {
                    assert(self.deps@[a].0 == s1.deps@[a].0);
                    assert(self.deps@[b].0 == s1.deps@[b].0);
                }
            }
        }
        self.add_path(to);
    }

    /// Every file the graph records, once each: each file that pulled others
    /// in, and each file pulled in.
    pub fn used_files(&self) -> (r: Vec<String>)
        ensures
            r.len() == self.deps.len(),
            forall|i: int| 0 <= i < r.len() ==> r@[i] == self.deps@[i].0,
            self.files_unique() ==> forall|a: int, b: int| 0 <= a < b < r.len() ==> r@[a]@ != r@[b]@,
    {
        let mut out: Vec<String> = Vec::new();
        let mut i: usize = 0;
        while i < self.deps.len()
            invariant
                i <= self.deps.len(),
                out.len() == i,
                forall|j: int| 0 <= j < i ==> out@[j] == self.deps@[j].0,
            decreases self.deps.len() - i,
        {
            out.push(self.deps[i].0.clone());
            i = i + 1;
        }
        out
    }

    /// Claims the commands it knows and calls of registered templates: the
    /// ones that register state ask for exclusive access.
    pub fn should_emit(&self, node: &Node) -> (r: EmitStatus)
        ensures
            command_of(node.name@) is None ==> r is Skip,
            command_of(node.name@) matches Some(c) ==> (r is Skip <==> !is_builtin(c) && !self.has_template(c)),
            command_of(node.name@) matches Some(c) ==> (r is EmitMut <==> is_registering(c)),
    {
        let c = match node.command_name() {
            None => return EmitStatus::Skip,
            Some(c) => c,
        };
        let s = c.as_str();
        proof {
            reveal_strlit("template");
            reveal_strlit("import");
            reveal_strlit("for");
            reveal_strlit("dbg");
            assert("template"@ =~= seq!['t', 'e', 'm', 'p', 'l', 'a', 't', 'e']);
            assert("import"@ =~= seq!['i', 'm', 'p', 'o', 'r', 't']);
            assert("for"@ =~= seq!['f', 'o', 'r']);
            assert("dbg"@ =~= seq!['d', 'b', 'g']);
        }
        if same_text(s, "template") || same_text(s, "import") || text_is(s, &['i', 'n', 'c', 'l', 'u', 'd', 'e']) {
            EmitStatus::EmitMut
        } else if same_text(s, "for") || same_text(s, "dbg") {
            EmitStatus::Emit
        } else {
            assert(!is_builtin(c@));
            match self.find_template(s) {
                Some(_) => EmitStatus::Emit,
                None => EmitStatus::Skip,
            }
        }
    }

    /// Forgets every template and the whole graph.
    pub fn clear(&mut self)
        ensures
            final(self).templates.len() == 0,
            final(self).deps.len() == 0,
    {
        self.templates = Vec::new();
        self.deps = Vec::new();
    }
}

/// `start`, `start + step`, ... up to and including `end`.
pub open spec fn range_seq(start: int, step: int, end: int) -> Seq<int>
    decreases end - start + step,
{
    if step <= 0 || start > end {
        Seq::empty()
    } else {
        seq![start] + range_seq(start + step, step, end)
    }
}

/// The integers a `@range` with these arguments runs over: `end` alone
/// counts from one, `start end` counts by one, `start step end` counts by
/// `step`, always including `end` when it is reached. Anything else is no
/// range.
pub open spec fn range_of(args: Seq<Value>) -> Option<Seq<int>> {
    if args.len() == 1 && args[0] is Integer {
        Some(range_seq(1, 1, args[0]->Integer_0 as int))
    } else if args.len() == 2 && args[0] is Integer && args[1] is Integer {
        Some(range_seq(args[0]->Integer_0 as int, 1, args[1]->Integer_0 as int))
    } else if args.len() == 3 && args[0] is Integer && args[1] is Integer && args[2] is Integer
        && args[1]->Integer_0 > 0 {
        Some(range_seq(args[0]->Integer_0 as int, args[1]->Integer_0 as int, args[2]->Integer_0 as int))
    } else {
        None
    }
}

/// The integers of a `@range`, or `None` when the arguments are not one to
/// three integers with a positive step.
pub fn parse_range(args: &[Value]) -> (r: Option<Vec<i128>>)
    ensures
        r is Some <==> range_of(args@) is Some,
        r matches Some(v) ==> v@.map_values(|i: i128| i as int) == range_of(args@)->0,
{
    let (start, step, end) = if args.len() == 1 {
        match &args[0] {
            Value::Integer(e) => (1i128, 1i128, *e),
            _ => return None,
        }
    } else if args.len() == 2 {
        match (&args[0], &args[1]) {
            (Value::Integer(s), Value::Integer(e)) => (*s, 1i128, *e),
            _ => return None,
        }
    } else if args.len() == 3 {
        match (&args[0], &args[1], &args[2]) {
            (Value::Integer(s), Value::Integer(t), Value::Integer(e)) => {
                if *t <= 0 {
                    return None;
                }
                (*s, *t, *e)
            },
            _ => return None,
        }
    } else {
        return None;
    };
    let ghost want = range_seq(start as int, step as int, end as int);
    let mut out: Vec<i128> = Vec::new();
    let mut cur = start;
    let mut done = false;
    while !done && cur <= end
        invariant
            step > 0,
            want == range_seq(start as int, step as int, end as int),
            done ==> want == out@.map_values(|i: i128| i as int),
            !done ==> want == out@.map_values(|i: i128| i as int) + range_seq(cur as int, step as int, end as int),
        decreases (end as int) - (cur as int) + (if done { 0int } else { step as int }), (if done { 0int } else { 1int }),
    {
        let ghost before = out@;
        out.push(cur);
        assert(out@.map_values(|i: i128| i as int) =~= before.map_values(|i: i128| i as int).push(cur as int));
        assert(range_seq(cur as int, step as int, end as int) == seq![cur as int] + range_seq(cur + step, step as int, end as int));
        match cur.checked_add(step) {
            Some(n) => {
                cur = n;
                assert(want =~= out@.map_values(|i: i128| i as int) + range_seq(cur as int, step as int, end as int));
            },
            None => {
                done = true;
                assert(range_seq(cur + step, step as int, end as int) =~= Seq::<int>::empty());
                assert(want =~= out@.map_values(|i: i128| i as int));
            },
        }
    }
    if !done {
        assert(range_seq(cur as int, step as int, end as int) =~= Seq::<int>::empty());
        assert(want =~= out@.map_values(|i: i128| i as int));
    }
    Some(out)
}

/// What the build got when it asked for a file.
pub enum Source {
    /// The file's nodes.
    Loaded(Vec<Node>),
    /// No file exists at the path.
    Missing,
    /// The file exists but could not be read or parsed; the message says why.
    Unreadable(String),
}

/// The position of the first record for `path` at or after `i`.
pub open spec fn record_from(files: Seq<(String, Source)>, path: Seq<char>, i: int) -> Option<int>
    decreases files.len() - i,
{
    if i < 0 || i >= files.len() {
        None
    } else if files[i].0@ == path {
        Some(i)
    } else {
        record_from(files, path, i + 1)
    }
}

/// The files a build may pull in, by resolved path.
pub struct Sources {
    pub files: Vec<(String, Source)>,
}

impl Sources {
    /// No files yet.
    pub fn new() -> (r: Sources)
        ensures
            r.files.len() == 0,
    {
        Sources { files: Vec::new() }
    }

    /// Records what reading `path` gave.
    pub fn add(&mut self, path: String, source: Source)
        ensures
            final(self).files@ == old(self).files@.push((path, source)),
    {
        self.files.push((path, source));
    }

    /// The position of the first record for `path`.
    pub open spec fn first_record(&self, path: Seq<char>) -> Option<int> {
        record_from(self.files@, path, 0)
    }

    /// What was recorded for `path`, the first record if several.
    pub fn find(&self, path: &str) -> (r: Option<&Source>)
        ensures
            r is None ==> self.first_record(path@) is None,
            r matches Some(s) ==> self.first_record(path@) matches Some(i) && 0 <= i < self.files.len()
                && self.files@[i].0@ == path@ && &self.files@[i].1 == s,
    {
        let mut i: usize = 0;
        while i < self.files.len()
            invariant
                i <= self.files.len(),
                record_from(self.files@, path@, 0) == record_from(self.files@, path@, i as int),
            decreases self.files.len() - i,
        {
            if same_text(self.files[i].0.as_str(), path) {
                return Some(&self.files[i].1);
            }
            i = i + 1;
        }
        None
    }
}

} // verus!
