//! The variable environment and `$name` expansion.
use vstd::prelude::*;
use crate::node::Value;
use crate::text::{append_str, chars_of, is_alphanumeric, is_word, push_char, string_of};

verus! {

/// The value bound to `k`, or empty text when nothing is.
pub open spec fn lookup(env: Map<Seq<char>, Seq<char>>, k: Seq<char>) -> Seq<char> {
    if env.contains_key(k) {
        env[k]
    } else {
        Seq::empty()
    }
}

/// The length of the run of word characters at the start of `s`.
pub open spec fn word_len(s: Seq<char>) -> nat
    decreases s.len(),
{
    if s.len() > 0 && is_word(s[0]) {
        1 + word_len(s.drop_first())
    } else {
        0
    }
}

/// `s` with every `$name` replaced by the value of `name` in `env` (empty text
/// when unbound) and every `$$` by a single `$`. A name is the longest run of
/// word characters after the `$`; replaced text is not expanded again.
pub open spec fn expand(s: Seq<char>, env: Map<Seq<char>, Seq<char>>) -> Seq<char>
    decreases s.len(),
{
    if s.len() == 0 {
        Seq::empty()
    } else if s[0] == '$' && s.len() >= 2 && s[1] == '$' {
        seq!['$'] + expand(s.subrange(2, s.len() as int), env)
    } else if s[0] == '$' && 0 < word_len(s.drop_first()) < s.len() {
        let n = word_len(s.drop_first()) as int;
        lookup(env, s.subrange(1, n + 1)) + expand(s.subrange(n + 1, s.len() as int), env)
    } else {
        seq![s[0]] + expand(s.drop_first(), env)
    }
}

/// The text of a value after expansion: strings are expanded, other scalars
/// give their source rendering.
pub open spec fn expand_text(v: Value, env: Map<Seq<char>, Seq<char>>) -> Seq<char> {
    match v {
        Value::String(s) => expand(s@, env),
        Value::Attrs(s) => expand(s@, env),
        _ => v.text(),
    }
}

/// The environment after binding each pair in order, later pairs overwriting
/// earlier ones.
pub open spec fn insert_all(env: Map<Seq<char>, Seq<char>>, pairs: Seq<(String, String)>) -> Map<
    Seq<char>,
    Seq<char>,
>
    decreases pairs.len(),
{
    if pairs.len() == 0 {
        env
    } else {
        insert_all(env, pairs.drop_last()).insert(pairs.last().0@, pairs.last().1@)
    }
}

/// A run of word characters that is at most as long as the text.
pub proof fn lemma_word_len_bound(s: Seq<char>)
    ensures
        word_len(s) <= s.len(),
    decreases s.len(),
{
    if s.len() > 0 && is_word(s[0]) {
        lemma_word_len_bound(s.drop_first());
    }
}

/// `word_len` is the index of the first character that is not a word
/// character, or the length.
pub proof fn lemma_word_len_is(s: Seq<char>, m: nat)
    requires
        m <= s.len(),
        forall|j: int| 0 <= j < m ==> is_word(#[trigger] s[j]),
        m == s.len() || !is_word(s[m as int]),
    ensures
        word_len(s) == m,
    decreases m,
{
    if m > 0 {
        assert forall|j: int| 0 <= j < m - 1 implies is_word(#[trigger] s.drop_first()[j]) by {
            assert(s.drop_first()[j] == s[j + 1]);
        }
        lemma_word_len_is(s.drop_first(), (m - 1) as nat);
    }
}

/// Text without a `$` expands to itself.
pub proof fn lemma_expand_plain(s: Seq<char>, env: Map<Seq<char>, Seq<char>>)
    requires
        forall|i: int| 0 <= i < s.len() ==> s[i] != '$',
    ensures
        expand(s, env) == s,
    decreases s.len(),
{
    if s.len() > 0 {
        assert forall|i: int| 0 <= i < s.drop_first().len() implies s.drop_first()[i] != '$' by {
            assert(s.drop_first()[i] == s[i + 1]);
        }
        lemma_expand_plain(s.drop_first(), env);
        assert(seq![s[0]] + s.drop_first() =~= s);
    }
}

/// `$$` stands for a single `$`, whatever follows it and whatever is bound:
/// no name after it is looked up.
pub proof fn lemma_expand_escape(t: Seq<char>, env: Map<Seq<char>, Seq<char>>)
    ensures
        expand(seq!['$', '$'] + t, env) == seq!['$'] + expand(t, env),
{
    let s = seq!['$', '$'] + t;
    assert(s.subrange(2, s.len() as int) =~= t);
}

/// `$$x` expands to `$x` in every environment.
pub proof fn lemma_expand_escaped_name(env: Map<Seq<char>, Seq<char>>)
    ensures
        expand(seq!['$', '$', 'x'], env) == seq!['$', 'x'],
{
    lemma_expand_escape(seq!['x'], env);
    assert(seq!['$', '$'] + seq!['x'] =~= seq!['$', '$', 'x']);
    lemma_expand_plain(seq!['x'], env);
    assert(seq!['$'] + seq!['x'] =~= seq!['$', 'x']);
}

/// The variables visible at one point of the document: a map from name to text.
pub struct Vars {
    entries: Vec<(String, String)>,
    map: Ghost<Map<Seq<char>, Seq<char>>>,
}

impl View for Vars {
    type V = Map<Seq<char>, Seq<char>>;

    closed spec fn view(&self) -> Map<Seq<char>, Seq<char>> {
        self.map@
    }
}

impl Vars {
    /// The bindings are held once each, and agree with the map.
    pub closed spec fn wf(&self) -> bool {
        &&& forall|i: int|
            0 <= i < self.entries.len() ==> #[trigger] self.map@.contains_key(self.entries@[i].0@)
                && self.map@[self.entries@[i].0@] == self.entries@[i].1@
        &&& forall|k: Seq<char>|
            #[trigger] self.map@.contains_key(k) ==> exists|i: int|
                0 <= i < self.entries.len() && self.entries@[i].0@ == k
        &&& forall|i: int, j: int|
            0 <= i < j < self.entries.len() ==> self.entries@[i].0@ != self.entries@[j].0@
    }

    /// An environment with the given bindings, later pairs overwriting earlier ones.
    pub fn new(pairs: Vec<(String, String)>) -> (r: Vars)
        ensures
            r.wf(),
            r@ == insert_all(Map::empty(), pairs@),
    {
        let mut r = Vars::empty();
        r.extend(pairs);
        r
    }

    /// An environment with no bindings.
    pub fn empty() -> (r: Vars)
        ensures
            r.wf(),
            r@ == Map::<Seq<char>, Seq<char>>::empty(),
    {
        Vars { entries: Vec::new(), map: Ghost(Map::empty()) }
    }

    /// The position of the binding of `key`, if any.
    fn position(&self, key: &String) -> (r: Option<usize>)
        requires
            self.wf(),
        ensures
            r matches Some(i) ==> i < self.entries.len() && self.entries@[i as int].0@ == key@,
            r is None ==> !self@.contains_key(key@),
    {
        let mut i: usize = 0;
        while i < self.entries.len()
            invariant
                self.wf(),
                i <= self.entries.len(),
                forall|j: int| 0 <= j < i ==> self.entries@[j].0@ != key@,
            decreases self.entries.len() - i,
        {
            if self.entries[i].0 == *key {
                return Some(i);
            }
            i = i + 1;
        }
        None
    }

    /// Binds `key` to `value`, replacing an earlier binding of `key`.
    pub fn insert(&mut self, key: &str, value: String)
        requires
            old(self).wf(),
        ensures
            final(self).wf(),
            final(self)@ == old(self)@.insert(key@, value@),
    {
        let k = String::from_str(key);
        self.insert_string(k, value);
    }

    /// Binds `key` to `value`, replacing an earlier binding of `key`.
    pub fn insert_string(&mut self, key: String, value: String)
        requires
            old(self).wf(),
        ensures
            final(self).wf(),
            final(self)@ == old(self)@.insert(key@, value@),
    {
        let ghost k = key@;
        let ghost v = value@;
        match self.position(&key) {
            Some(i) => {
                self.entries.set(i, (key, value));
                self.map = Ghost(self.map@.insert(k, v));
                assert forall|j: int| 0 <= j < self.entries.len() implies #[trigger] self.map@.contains_key(
                    self.entries@[j].0@) && self.map@[self.entries@[j].0@] == self.entries@[j].1@ by {
                    if j != i {
                        assert(self.entries@[j] == old(self).entries@[j]);
                        assert(old(self).map@.contains_key(old(self).entries@[j].0@));
                    }
                }
                assert forall|a: int, b: int| 0 <= a < b < self.entries.len() implies self.entries@[a].0@
                    != self.entries@[b].0@ by {
                    if a != i && b != i {
                        assert(self.entries@[a] == old(self).entries@[a]);
                        assert(self.entries@[b] == old(self).entries@[b]);
                    } else if a == i {
                        assert(self.entries@[b] == old(self).entries@[b]);
                    } else {
                        assert(self.entries@[a] == old(self).entries@[a]);
                    }
                }
                assert forall|m: Seq<char>| #[trigger] self.map@.contains_key(m) implies exists|j: int|
                    0 <= j < self.entries.len() && self.entries@[j].0@ == m by {
                    if m != k {
                        let j = choose|j: int| 0 <= j < old(self).entries.len() && old(self).entries@[j].0@ == m;
                        assert(self.entries@[j].0@ == m);
                    } else {
                        assert(self.entries@[i as int].0@ == m);
                    }
                }
            },
            None => {
                self.entries.push((key, value));
                self.map = Ghost(self.map@.insert(k, v));
                assert forall|j: int| 0 <= j < self.entries.len() implies #[trigger] self.map@.contains_key(
                    self.entries@[j].0@) && self.map@[self.entries@[j].0@] == self.entries@[j].1@ by {
                    if j < old(self).entries.len() {
                        assert(self.entries@[j] == old(self).entries@[j]);
                        assert(old(self).map@.contains_key(old(self).entries@[j].0@));
                    }
                }
                assert forall|a: int, b: int| 0 <= a < b < self.entries.len() implies self.entries@[a].0@
                    != self.entries@[b].0@ by {
                    assert(self.entries@[a] == old(self).entries@[a]);
                    if b < old(self).entries.len() {
                        assert(self.entries@[b] == old(self).entries@[b]);
                    } else {
                        assert(old(self).map@.contains_key(old(self).entries@[a].0@));
                    }
                }
                assert forall|m: Seq<char>| #[trigger] self.map@.contains_key(m) implies exists|j: int|
                    0 <= j < self.entries.len() && self.entries@[j].0@ == m by {
                    if m != k {
                        let j = choose|j: int| 0 <= j < old(self).entries.len() && old(self).entries@[j].0@ == m;
                        assert(self.entries@[j].0@ == m);
                    } else {
                        assert(self.entries@[self.entries.len() - 1].0@ == m);
                    }
                }
            },
        }
    }

    /// Binds each pair in order.
    pub fn extend(&mut self, pairs: Vec<(String, String)>)
        requires
            old(self).wf(),
        ensures
            final(self).wf(),
            final(self)@ == insert_all(old(self)@, pairs@),
    {
        let mut i: usize = 0;
        let ghost start = self@;
        while i < pairs.len()
            invariant
                self.wf(),
                i <= pairs.len(),
                self@ == insert_all(start, pairs@.subrange(0, i as int)),
            decreases pairs.len() - i,
        {
            assert(pairs@.subrange(0, i + 1).drop_last() =~= pairs@.subrange(0, i as int));
            let k = pairs[i].0.clone();
            let v = pairs[i].1.clone();
            self.insert_string(k, v);
            i = i + 1;
        }
        assert(pairs@.subrange(0, i as int) =~= pairs@);
    }

    /// The value bound to `key`.
    pub fn get(&self, key: &str) -> (r: Option<&String>)
        requires
            self.wf(),
        ensures
            r is Some <==> self@.contains_key(key@),
            r matches Some(v) ==> v@ == self@[key@],
    {
        let k = String::from_str(key);
        match self.position(&k) {
            Some(i) => {
                assert(self.map@.contains_key(self.entries@[i as int].0@));
                Some(&self.entries[i].1)
            },
            None => None,
        }
    }

    /// Removes every binding.
    pub fn clear(&mut self)
        ensures
            final(self).wf(),
            final(self)@ == Map::<Seq<char>, Seq<char>>::empty(),
    {
        self.entries = Vec::new();
        self.map = Ghost(Map::empty());
    }

    /// Every binding once, as a name and its value.
    pub fn iter(&self) -> (r: Vec<(String, String)>)
        requires
            self.wf(),
        ensures
            forall|i: int|
                0 <= i < r.len() ==> #[trigger] self@.contains_key(r@[i].0@) && self@[r@[i].0@] == r@[i].1@,
            forall|k: Seq<char>|
                #[trigger] self@.contains_key(k) ==> exists|i: int| 0 <= i < r.len() && r@[i].0@ == k,
            forall|i: int, j: int| 0 <= i < j < r.len() ==> r@[i].0@ != r@[j].0@,
    {
        let mut out: Vec<(String, String)> = Vec::new();
        let mut i: usize = 0;
        while i < self.entries.len()
            invariant
                i <= self.entries.len(),
                out.len() == i,
                forall|j: int| 0 <= j < i ==> out@[j].0@ == self.entries@[j].0@ && out@[j].1@ == self.entries@[j].1@,
            decreases self.entries.len() - i,
        {
            out.push((self.entries[i].0.clone(), self.entries[i].1.clone()));
            i = i + 1;
        }
        assert forall|k: Seq<char>| #[trigger] self@.contains_key(k) implies exists|i: int|
            0 <= i < out.len() && out@[i].0@ == k by {
            let j = choose|j: int| 0 <= j < self.entries.len() && self.entries@[j].0@ == k;
            assert(out@[j].0@ == k);
        }
        out
    }

    /// A separate environment with the same bindings; changes to either leave
    /// the other as it is.
    pub fn fork(&self) -> (r: Vars)
        requires
            self.wf(),
        ensures
            r.wf(),
            r@ == self@,
    {
        let mut entries: Vec<(String, String)> = Vec::new();
        let mut i: usize = 0;
        while i < self.entries.len()
            invariant
                i <= self.entries.len(),
                entries.len() == i,
                forall|j: int| 0 <= j < i ==> entries@[j] == self.entries@[j],
            decreases self.entries.len() - i,
        {
            entries.push((self.entries[i].0.clone(), self.entries[i].1.clone()));
            i = i + 1;
        }
        assert(entries@ =~= self.entries@);
        let r = Vars { entries, map: Ghost(self.map@) };
        assert(r.entries@ == self.entries@);
        assert(r.map@ == self.map@);
        assert forall|k: Seq<char>| #[trigger] r.map@.contains_key(k) implies exists|i: int|
            0 <= i < r.entries.len() && r.entries@[i].0@ == k by {
            assert(self.map@.contains_key(k));
            let j = choose|j: int| 0 <= j < self.entries.len() && self.entries@[j].0@ == k;
            assert(r.entries@[j].0@ == k);
        }
        assert forall|i: int| 0 <= i < r.entries.len() implies #[trigger] r.map@.contains_key(r.entries@[i].0@)
            && r.map@[r.entries@[i].0@] == r.entries@[i].1@ by {
            assert(r.entries@[i] == self.entries@[i]);
            assert(self.map@.contains_key(self.entries@[i].0@));
        }
        r
    }

    /// The same bindings, held on their own.
    pub fn into_owned(self) -> (r: Vars)
        requires
            self.wf(),
        ensures
            r.wf(),
            r@ == self@,
    {
        self
    }

    /// Replaces every `$name` in `text` by the value of `name` (empty text when
    /// unbound) and every `$$` by `$`.
    pub fn expand_string(&self, text: &str) -> (r: String)
        requires
            self.wf(),
        ensures
            r@ == expand(text@, self@),
    {
        let cs = chars_of(text);
        let n = cs.len();
        let mut out = String::new();
        let mut i: usize = 0;
        assert(cs@.subrange(0, n as int) =~= text@);
        assert(out@ + expand(text@, self@) =~= expand(text@, self@));
        while i < n
            invariant
                self.wf(),
                n == cs.len(),
                cs@ == text@,
                i <= n,
                out@ + expand(cs@.subrange(i as int, n as int), self@) == expand(text@, self@),
            decreases n - i,
        {
            let ghost rest = cs@.subrange(i as int, n as int);
            if cs[i] == '$' && i + 1 < n && cs[i + 1] == '$' {
                assert(rest.subrange(2, rest.len() as int) =~= cs@.subrange(i + 2, n as int));
                let ghost out_before = out@;
                push_char(&mut out, '$');
                assert(out@ + expand(cs@.subrange(i + 2, n as int), self@) =~= out_before + (seq!['$']
                    + expand(cs@.subrange(i + 2, n as int), self@)));
                i = i + 2;
                continue;
            }
            if cs[i] == '$' {
                let mut j: usize = i + 1;
                while j < n && is_word_char(cs[j])
                    invariant
                        i < j <= n,
                        n == cs.len(),
                        forall|m: int| i < m < j ==> is_word(#[trigger] cs@[m]),
                    decreases n - j,
                {
                    j = j + 1;
                }
                if j > i + 1 {
                    proof {
                        let tail = rest.drop_first();
                        assert forall|m: int| 0 <= m < j - i - 1 implies is_word(#[trigger] tail[m]) by {
                            assert(tail[m] == cs@[i + 1 + m]);
                        }
                        if j < n {
                            assert(tail[j - i - 1] == cs@[j as int]);
                        }
                        lemma_word_len_is(tail, (j - i - 1) as nat);
                        assert(rest.subrange(1, j - i) =~= cs@.subrange(i + 1, j as int));
                        assert(rest.subrange(j - i, rest.len() as int) =~= cs@.subrange(j as int, n as int));
                    }
                    let mut name_chars: Vec<char> = Vec::new();
                    let mut m: usize = i + 1;
                    while m < j
                        invariant
                            i + 1 <= m <= j <= n,
                            n == cs.len(),
                            name_chars@ == cs@.subrange(i + 1, m as int),
                        decreases j - m,
                    {
                        name_chars.push(cs[m]);
                        m = m + 1;
                        assert(name_chars@ =~= cs@.subrange(i + 1, m as int));
                    }
                    let name = string_of(&name_chars);
                    let ghost out_before = out@;
                    match self.get(name.as_str()) {
                        Some(v) => {
                            append_str(&mut out, v.as_str());
                        },
                        None => {
                            assert(lookup(self@, name@) =~= Seq::<char>::empty());
                            assert(out@ + lookup(self@, name@) =~= out@);
                        },
                    }
                    assert(out@ + expand(cs@.subrange(j as int, n as int), self@) =~= out_before
                        + (lookup(self@, name@) + expand(cs@.subrange(j as int, n as int), self@)));
                    i = j;
                    continue;
                }
                proof {
                    let tail = rest.drop_first();
                    if i + 1 < n {
                        assert(tail[0] == cs@[i + 1]);
                    }
                    lemma_word_len_is(tail, 0);
                }
            }
            assert(rest.drop_first() =~= cs@.subrange(i + 1, n as int));
            let ghost out_before = out@;
            push_char(&mut out, cs[i]);
            assert(out@ + expand(cs@.subrange(i + 1, n as int), self@) =~= out_before + (seq![cs@[i as int]]
                + expand(cs@.subrange(i + 1, n as int), self@)));
            i = i + 1;
        }
        assert(cs@.subrange(n as int, n as int) =~= Seq::<char>::empty());
        assert(out@ + Seq::<char>::empty() =~= out@);
        out
    }

    /// The text of `value` with variables expanded; scalars other than strings
    /// give their source rendering.
    pub fn expand_value(&self, value: &Value) -> (r: String)
        requires
            self.wf(),
        ensures
            r@ == expand_text(*value, self@),
    {
        match value {
            Value::String(s) => self.expand_string(s.as_str()),
            Value::Attrs(s) => self.expand_string(s.as_str()),
            _ => value.as_str(),
        }
    }
}

/// Whether `c` can be part of a variable name.
pub fn is_word_char(c: char) -> (r: bool)
    ensures
        r == is_word(c),
{
    c == '_' || is_alphanumeric(c)
}

} // verus!
