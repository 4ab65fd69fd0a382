//! Character-level helpers shared by the extractor and the tool renderers:
//! string equality, first-line/trim handling, identifier conventions and
//! decimal rendering, each with a specification over `Seq<char>`.

use vstd::prelude::*;

verus! {

broadcast use vstd::string::group_string_axioms;

/// Whether `c` is an ASCII uppercase letter.
pub open spec fn is_ascii_upper(c: char) -> bool {
    'A' <= c && c <= 'Z'
}

/// Whether `c` is an ASCII decimal digit.
pub open spec fn is_ascii_digit(c: char) -> bool {
    '0' <= c && c <= '9'
}

/// Unicode `White_Space` (the property `char::is_whitespace` reports).
pub open spec fn is_white_space(c: char) -> bool {
    ||| ('\u{9}' <= c && c <= '\u{d}')
    ||| c == ' '
    ||| c == '\u{85}'
    ||| c == '\u{a0}'
    ||| c == '\u{1680}'
    ||| ('\u{2000}' <= c && c <= '\u{200a}')
    ||| c == '\u{2028}'
    ||| c == '\u{2029}'
    ||| c == '\u{202f}'
    ||| c == '\u{205f}'
    ||| c == '\u{3000}'
}

/// `s` with its trailing white space removed.
pub open spec fn trim_end(s: Seq<char>) -> Seq<char>
    decreases s.len(),
{
    if s.len() > 0 && is_white_space(s.last()) {
        trim_end(s.drop_last())
    } else {
        s
    }
}

/// The characters of `s` before its first line feed (all of `s` if none).
pub open spec fn line_prefix(s: Seq<char>) -> Seq<char>
    decreases s.len(),
{
    if s.len() == 0 || s[0] == '\n' {
        Seq::empty()
    } else {
        seq![s[0]] + line_prefix(s.drop_first())
    }
}

/// The first line of a text, right-trimmed: `None` for the empty text, which
/// has no lines at all.
pub open spec fn first_line(s: Seq<char>) -> Option<Seq<char>> {
    if s.len() == 0 {
        None
    } else {
        Some(trim_end(line_prefix(s)))
    }
}

/// The naming convention of constants: at least one ASCII uppercase letter,
/// and nothing but ASCII uppercase letters, digits and underscores.
pub open spec fn upper_snake(s: Seq<char>) -> bool {
    &&& exists|i: int| 0 <= i < s.len() && #[trigger] is_ascii_upper(s[i])
    &&& forall|i: int|
        0 <= i < s.len() ==> #[trigger] is_ascii_upper(s[i]) || is_ascii_digit(s[i]) || s[i]
            == '_'
}

/// The character of a decimal digit.
pub open spec fn digit_char(d: nat) -> char {
    (48 + d) as char
}

/// Decimal rendering of a natural number, without leading zeros.
pub open spec fn decimal(n: nat) -> Seq<char>
    decreases n,
{
    if n < 10 {
        seq![digit_char(n)]
    } else {
        decimal(n / 10).push(digit_char(n % 10))
    }
}

/// All characters of `s`, in order.
pub fn chars_of(s: &str) -> (v: Vec<char>)
    ensures
        v@ == s@,
{
    let mut v: Vec<char> = Vec::new();
    for c in iter: s.chars()
        invariant
            iter.seq() == s@,
            v@ == iter.seq().take(iter.index() as int),
    {
        v.push(c);
    }
    v
}

/// Appends one character (std `String::push`).
#[verifier::external_body]
fn push_char(s: &mut String, c: char)
    ensures
        final(s)@ == old(s)@.push(c),
{
    s.push(c);
}

/// A `String` holding exactly the given characters.
pub fn string_of(cs: &[char]) -> (s: String)
    ensures
        s@ == cs@,
{
    let mut s = String::new();
    let mut i: usize = 0;
    while i < cs.len()
        invariant
            i <= cs.len(),
            s@ == cs@.take(i as int),
        decreases cs.len() - i,
    {
        push_char(&mut s, cs[i]);
        i += 1;
        assert(cs@.take(i as int) =~= cs@.take((i - 1) as int).push(cs@[i - 1]));
    }
    assert(cs@.take(cs@.len() as int) =~= cs@);
    s
}

/// Appends `extra` to `s`.
pub fn push_str(s: &mut String, extra: &str)
    ensures
        final(s)@ == old(s)@ + extra@,
{
    s.append(extra);
}

/// Equality of two strings, character for character.
pub fn str_eq(a: &str, b: &str) -> (r: bool)
    ensures
        r == (a@ == b@),
{
    let x = a.as_bytes();
    let y = b.as_bytes();
    proof {
        vstd::utf8::encode_utf8_decode_utf8(a@);
        vstd::utf8::encode_utf8_decode_utf8(b@);
    }
    proof {
        if a@ == b@ {
            assert(x@ == y@);
        }
    }
    if x.len() != y.len() {
        return false;
    }
    let mut i: usize = 0;
    while i < x.len()
        invariant
            x.len() == y.len(),
            i <= x.len(),
            a@ == b@ ==> x@ == y@,
            forall|j: int| 0 <= j < i ==> x@[j] == y@[j],
        decreases x.len() - i,
    {
        if x[i] != y[i] {
            return false;
        }
        i += 1;
    }
    assert(x@ =~= y@);
    true
}

proof fn lemma_line_prefix(s: Seq<char>, k: int)
    requires
        0 <= k <= s.len(),
        forall|j: int| 0 <= j < k ==> s[j] != '\n',
        k == s.len() || s[k] == '\n',
    ensures
        line_prefix(s) == s.take(k),
    decreases s.len(),
{
    if s.len() == 0 || s[0] == '\n' {
        assert(k == 0);
        assert(s.take(k) =~= Seq::<char>::empty());
    } else {
        let t = s.drop_first();
        assert forall|j: int| 0 <= j < k - 1 implies t[j] != '\n' by {
            assert(t[j] == s[j + 1]);
        }
        lemma_line_prefix(t, k - 1);
        assert(seq![s[0]] + t.take(k - 1) =~= s.take(k));
    }
}

/// Drops trailing white space from a character vector.
fn trim_end_in_place(v: &mut Vec<char>)
    ensures
        final(v)@ == trim_end(old(v)@),
{
    while v.len() > 0 && is_white_space_char(v[v.len() - 1])
        invariant
            trim_end(v@) == trim_end(old(v)@),
        decreases v.len(),
    {
        let ghost before = v@;
        v.pop();
        assert(v@ =~= before.drop_last());
    }
}

/// Whether `c` has the Unicode `White_Space` property.
pub fn is_white_space_char(c: char) -> (r: bool)
    ensures
        r == is_white_space(c),
{
    ('\u{9}' <= c && c <= '\u{d}') || c == ' ' || c == '\u{85}' || c == '\u{a0}' || c
        == '\u{1680}' || ('\u{2000}' <= c && c <= '\u{200a}') || c == '\u{2028}' || c
        == '\u{2029}' || c == '\u{202f}' || c == '\u{205f}' || c == '\u{3000}'
}

/// The first line of `text`, with trailing white space removed; `None` when
/// `text` is empty.
pub fn first_line_of(text: &str) -> (r: Option<String>)
    ensures
        match r {
            Some(l) => first_line(text@) == Some(l@),
            None => first_line(text@) is None,
        },
{
    let cs = chars_of(text);
    if cs.len() == 0 {
        return None;
    }
    let mut v: Vec<char> = Vec::new();
    let mut i: usize = 0;
    while i < cs.len() && cs[i] != '\n'
        invariant
            cs@ == text@,
            i <= cs.len(),
            v@ == cs@.take(i as int),
            forall|j: int| 0 <= j < i ==> cs@[j] != '\n',
        decreases cs.len() - i,
    {
        v.push(cs[i]);
        i += 1;
        assert(cs@.take(i as int) =~= cs@.take((i - 1) as int).push(cs@[i - 1]));
    }
    proof {
        lemma_line_prefix(text@, i as int);
    }
    trim_end_in_place(&mut v);
    Some(string_of(v.as_slice()))
}

/// Whether `name` reads as a constant by convention (UPPER_SNAKE_CASE).
pub fn is_upper_snake(name: &str) -> (r: bool)
    ensures
        r == upper_snake(name@),
{
    let cs = chars_of(name);
    let mut any_upper = false;
    let mut i: usize = 0;
    while i < cs.len()
        invariant
            cs@ == name@,
            i <= cs.len(),
            any_upper == exists|j: int| 0 <= j < i && #[trigger] is_ascii_upper(cs@[j]),
            forall|j: int|
                0 <= j < i ==> #[trigger] is_ascii_upper(cs@[j]) || is_ascii_digit(cs@[j])
                    || cs@[j] == '_',
        decreases cs.len() - i,
    {
        let c = cs[i];
        let upper = 'A' <= c && c <= 'Z';
        let digit = '0' <= c && c <= '9';
        if !(upper || digit || c == '_') {
            assert(!(is_ascii_upper(cs@[i as int]) || is_ascii_digit(cs@[i as int]) || cs@[i as int] == '_'));
            return false;
        }
        if upper {
            assert(is_ascii_upper(cs@[i as int]));
            any_upper = true;
        } else {
            assert(!is_ascii_upper(cs@[i as int]));
        }
        i += 1;
    }
    any_upper
}

/// The decimal rendering of `n`.
pub fn decimal_string(n: u32) -> (s: String)
    ensures
        s@ == decimal(n as nat),
    decreases n,
{
    if n < 10 {
        let mut s = String::new();
        push_char(&mut s, digit_of(n));
        assert(s@ =~= decimal(n as nat));
        s
    } else {
        let mut s = decimal_string(n / 10);
        push_char(&mut s, digit_of(n % 10));
        s
    }
}

fn digit_of(d: u32) -> (c: char)
    requires
        d < 10,
    ensures
        c == digit_char(d as nat),
{
    let b: u8 = 48u8 + (d as u8);
    b as char
}

} // verus!
