//! Character-level helpers: the views of the outside text functions this
//! library relies on, and the spec functions that describe them.
use vstd::prelude::*;

verus! {

/// What `char::is_alphanumeric` answers for `c` (Unicode `Alphabetic` or `Numeric`).
pub uninterp spec fn alphanumeric(c: char) -> bool;

/// A character that may appear in a variable name after the `$` sigil.
pub open spec fn is_word(c: char) -> bool {
    c == '_' || alphanumeric(c)
}

/// The HTML escape of one character of text content.
pub open spec fn escape_char(c: char) -> Seq<char> {
    if c == '&' {
        seq!['&', 'a', 'm', 'p', ';']
    } else if c == '<' {
        seq!['&', 'l', 't', ';']
    } else if c == '>' {
        seq!['&', 'g', 't', ';']
    } else {
        seq![c]
    }
}

/// Text content with `&`, `<` and `>` replaced by their entities; every other
/// character is kept.
pub open spec fn escape_text(s: Seq<char>) -> Seq<char>
    decreases s.len(),
{
    if s.len() == 0 {
        Seq::empty()
    } else {
        escape_text(s.drop_last()) + escape_char(s.last())
    }
}

/// The decimal digit for `d < 10`.
pub open spec fn digit_char(d: nat) -> char {
    if d == 0 {
        '0'
    } else if d == 1 {
        '1'
    } else if d == 2 {
        '2'
    } else if d == 3 {
        '3'
    } else if d == 4 {
        '4'
    } else if d == 5 {
        '5'
    } else if d == 6 {
        '6'
    } else if d == 7 {
        '7'
    } else if d == 8 {
        '8'
    } else {
        '9'
    }
}

/// The decimal digits of `n`, most significant first, with no leading zero.
pub open spec fn digits(n: nat) -> Seq<char>
    decreases n,
{
    if n < 10 {
        seq![digit_char(n)]
    } else {
        digits(n / 10).push(digit_char(n % 10))
    }
}

/// The decimal text of an integer, with a leading `-` when it is negative.
pub open spec fn decimal(i: int) -> Seq<char> {
    if i < 0 {
        seq!['-'] + digits((-i) as nat)
    } else {
        digits(i as nat)
    }
}

/// Relies on `str::chars`: the characters of `s`, in order.
#[verifier::external_body]
pub(crate) fn chars_of(s: &str) -> (r: Vec<char>)
    ensures
        r@ == s@,
{
    s.chars().collect()
}

/// Relies on `String::push`: appends one character.
#[verifier::external_body]
pub(crate) fn push_char(s: &mut String, c: char)
    ensures
        final(s)@ == old(s)@.push(c),
{
    s.push(c)
}

/// Relies on `char::is_alphanumeric`, which holds for ASCII letters and
/// digits and for no other ASCII character.
#[verifier::external_body]
pub(crate) fn is_alphanumeric(c: char) -> (r: bool)
    ensures
        r == alphanumeric(c),
        (c as u32) < 128 ==> (r <==> ('a' <= c <= 'z' || 'A' <= c <= 'Z' || '0' <= c <= '9')),
{
    c.is_alphanumeric()
}

/// Relies on the `Display` of `i128`: its decimal text.
#[verifier::external_body]
pub(crate) fn int_text(i: i128) -> (r: String)
    ensures
        r@ == decimal(i as int),
{
    i.to_string()
}

/// Relies on `html_escape::encode_text`, which replaces `&`, `<` and `>` by
/// `&amp;`, `&lt;` and `&gt;` and keeps every other character.
#[verifier::external_body]
pub(crate) fn encode_text(s: &str) -> (r: String)
    ensures
        r@ == escape_text(s@),
{
    html_escape::encode_text(s).into_owned()
}

/// Appends the characters of `src` to `out`.
pub fn append_chars(out: &mut String, src: &Vec<char>)
    ensures
        final(out)@ == old(out)@ + src@,
{
    let mut i: usize = 0;
    while i < src.len()
        invariant
            i <= src.len(),
            out@ == old(out)@ + src@.subrange(0, i as int),
        decreases src.len() - i,
    {
        push_char(out, src[i]);
        i = i + 1;
        assert(out@ =~= old(out)@ + src@.subrange(0, i as int));
    }
    assert(src@.subrange(0, i as int) =~= src@);
}

/// Builds a `String` from a sequence of characters.
pub fn string_of(src: &Vec<char>) -> (r: String)
    ensures
        r@ == src@,
{
    let mut out = String::new();
    append_chars(&mut out, src);
    proof {
        assert(Seq::<char>::empty() + src@ =~= src@);
    }
    out
}

/// Appends `s` to `out`.
pub fn append_str(out: &mut String, s: &str)
    ensures
        final(out)@ == old(out)@ + s@,
{
    out.append(s);
}

/// Whether two texts are equal, character by character.
pub fn same_text(a: &str, b: &str) -> (r: bool)
    ensures
        r == (a@ == b@),
{
    let x = chars_of(a);
    let y = chars_of(b);
    if x.len() != y.len() {
        return false;
    }
    let mut i: usize = 0;
    while i < x.len()
        invariant
            x@ == a@,
            y@ == b@,
            x.len() == y.len(),
            i <= x.len(),
            forall|j: int| 0 <= j < i ==> x@[j] == y@[j],
        decreases x.len() - i,
    {
        if x[i] != y[i] {
            return false;
        }
        i = i + 1;
    }
    assert(x@ =~= y@);
    true
}

/// Whether the characters are those of `w`.
pub fn chars_are(cs: &Vec<char>, w: &[char]) -> (r: bool)
    ensures
        r == (cs@ == w@),
{
    if cs.len() != w.len() {
        return false;
    }
    let mut i: usize = 0;
    while i < cs.len()
        invariant
            cs.len() == w.len(),
            i <= cs.len(),
            forall|j: int| 0 <= j < i ==> cs@[j] == w@[j],
        decreases cs.len() - i,
    {
        if cs[i] != w[i] {
            return false;
        }
        i = i + 1;
    }
    assert(cs@ =~= w@);
    true
}

/// Whether `s` is the text of the characters `w`.
pub fn text_is(s: &str, w: &[char]) -> (r: bool)
    ensures
        r == (s@ == w@),
{
    let cs = chars_of(s);
    chars_are(&cs, w)
}

} // verus!
