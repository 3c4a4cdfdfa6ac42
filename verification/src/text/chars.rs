//! Characters: the classes that the scanners distinguish, the width of a
//! character in UTF-8, and the passage between strings and characters.
use vstd::prelude::*;

verus! {

/// The characters with the Unicode property `White_Space`.
pub open spec fn is_white(c: char) -> bool {
    ||| '\u{9}' <= c <= '\u{d}'
    ||| c == ' '
    ||| c == '\u{85}'
    ||| c == '\u{a0}'
    ||| c == '\u{1680}'
    ||| '\u{2000}' <= c <= '\u{200a}'
    ||| c == '\u{2028}'
    ||| c == '\u{2029}'
    ||| c == '\u{202f}'
    ||| c == '\u{205f}'
    ||| c == '\u{3000}'
}

/// Whether `c` is white space.
pub fn white(c: char) -> (r: bool)
    ensures
        r == is_white(c),
{
    ('\u{9}' <= c && c <= '\u{d}') || c == ' ' || c == '\u{85}' || c == '\u{a0}' || c == '\u{1680}'
        || ('\u{2000}' <= c && c <= '\u{200a}') || c == '\u{2028}' || c == '\u{2029}' || c
        == '\u{202f}' || c == '\u{205f}' || c == '\u{3000}'
}

/// The ten ASCII digits.
pub open spec fn is_digit(c: char) -> bool {
    '0' <= c <= '9'
}

/// Whether `c` is an ASCII digit.
pub fn digit(c: char) -> (r: bool)
    ensures
        r == is_digit(c),
{
    '0' <= c && c <= '9'
}

/// Characters of the Chinese, Japanese and Korean scripts, with their
/// punctuation and their full-width and half-width forms.
pub open spec fn is_cjk(c: char) -> bool {
    ||| '\u{4E00}' <= c <= '\u{9FFF}'
    ||| '\u{3400}' <= c <= '\u{4DBF}'
    ||| '\u{3000}' <= c <= '\u{303F}'
    ||| '\u{3040}' <= c <= '\u{309F}'
    ||| '\u{30A0}' <= c <= '\u{30FF}'
    ||| '\u{FF00}' <= c <= '\u{FFEF}'
    ||| '\u{AC00}' <= c <= '\u{D7AF}'
    ||| '\u{F900}' <= c <= '\u{FAFF}'
    ||| '\u{20000}' <= c <= '\u{2A6DF}'
}

/// Whether `c` belongs to a Chinese, Japanese or Korean script.
pub fn cjk(c: char) -> (r: bool)
    ensures
        r == is_cjk(c),
{
    ('\u{4E00}' <= c && c <= '\u{9FFF}') || ('\u{3400}' <= c && c <= '\u{4DBF}') || ('\u{3000}' <= c
        && c <= '\u{303F}') || ('\u{3040}' <= c && c <= '\u{309F}') || ('\u{30A0}' <= c && c
        <= '\u{30FF}') || ('\u{FF00}' <= c && c <= '\u{FFEF}') || ('\u{AC00}' <= c && c
        <= '\u{D7AF}') || ('\u{F900}' <= c && c <= '\u{FAFF}') || ('\u{20000}' <= c && c
        <= '\u{2A6DF}')
}

/// Chinese, Japanese and Korean letters: ideographs, kana and Hangul, without
/// punctuation and width variants.
pub open spec fn is_cjk_letter(c: char) -> bool {
    ||| '\u{4E00}' <= c <= '\u{9FFF}'
    ||| '\u{3400}' <= c <= '\u{4DBF}'
    ||| '\u{3040}' <= c <= '\u{309F}'
    ||| '\u{30A0}' <= c <= '\u{30FF}'
    ||| '\u{AC00}' <= c <= '\u{D7AF}'
}

/// Whether `c` is a Chinese, Japanese or Korean letter.
pub fn cjk_letter(c: char) -> (r: bool)
    ensures
        r == is_cjk_letter(c),
{
    ('\u{4E00}' <= c && c <= '\u{9FFF}') || ('\u{3400}' <= c && c <= '\u{4DBF}') || ('\u{3040}' <= c
        && c <= '\u{309F}') || ('\u{30A0}' <= c && c <= '\u{30FF}') || ('\u{AC00}' <= c && c
        <= '\u{D7AF}')
}

/// `c` with an ASCII capital replaced by its small letter.
pub open spec fn ascii_small(c: char) -> char {
    if 'A' <= c <= 'Z' {
        (c as u8 + 32) as u8 as char
    } else {
        c
    }
}

/// The small letter of an ASCII capital; any other character as it is.
pub fn to_ascii_small(c: char) -> (r: char)
    ensures
        r == ascii_small(c),
{
    if 'A' <= c && c <= 'Z' {
        (c as u8 + 32u8) as char
    } else {
        c
    }
}

/// `s` with its ASCII capitals replaced by their small letters.
pub open spec fn small(s: Seq<char>) -> Seq<char> {
    Seq::new(s.len(), |i: int| ascii_small(s[i]))
}

/// Every character of `s` is ASCII.
pub open spec fn all_ascii(s: Seq<char>) -> bool {
    forall|i: int| 0 <= i < s.len() ==> (#[trigger] s[i]) as u32 <= 0x7f
}

/// A set of characters that a scanner looks for.
#[derive(Clone, Copy)]
pub enum CharClass {
    /// White space.
    White,
    /// ASCII digits.
    Digit,
    /// Chinese, Japanese and Korean characters.
    Cjk,
    /// Everything but Chinese, Japanese and Korean characters.
    NotCjk,
    /// Chinese, Japanese and Korean letters.
    CjkLetter,
    /// One character.
    Is(char),
    /// The characters of a literal.
    AnyOf(&'static str),
}

impl CharClass {
    /// Membership in the class.
    pub open spec fn has(self, c: char) -> bool {
        match self {
            CharClass::White => is_white(c),
            CharClass::Digit => is_digit(c),
            CharClass::Cjk => is_cjk(c),
            CharClass::NotCjk => !is_cjk(c),
            CharClass::CjkLetter => is_cjk_letter(c),
            CharClass::Is(d) => c == d,
            CharClass::AnyOf(set) => set@.contains(c),
        }
    }

    /// Whether `c` is in the class.
    pub fn test(&self, c: char) -> (r: bool)
        ensures
            r == self.has(c),
    {
        match self {
            CharClass::White => white(c),
            CharClass::Digit => digit(c),
            CharClass::Cjk => cjk(c),
            CharClass::NotCjk => !cjk(c),
            CharClass::CjkLetter => cjk_letter(c),
            CharClass::Is(d) => c == *d,
            CharClass::AnyOf(set) => member(set, c),
        }
    }
}

fn member(set: &str, c: char) -> (r: bool)
    ensures
        r == set@.contains(c),
{
    let v: Vec<char> = to_chars(set);
    let mut i: usize = 0;
    while i < v.len()
        invariant
            i <= v@.len(),
            v@ == set@,
            forall|j: int| 0 <= j < i ==> v@[j] != c,
        decreases v@.len() - i,
    {
        if v[i] == c {
            return true;
        }
        i += 1;
    }
    false
}

/// The width of a character in UTF-8, in bytes.
pub open spec fn utf8_width(c: char) -> nat {
    if c as u32 <= 0x7f {
        1
    } else if c as u32 <= 0x7ff {
        2
    } else if c as u32 <= 0xffff {
        3
    } else {
        4
    }
}

/// The length of a text in UTF-8, in bytes.
pub open spec fn utf8_len(s: Seq<char>) -> nat
    decreases s.len(),
{
    if s.len() == 0 {
        0
    } else {
        utf8_len(s.drop_last()) + utf8_width(s.last())
    }
}

/// The width of `c` in UTF-8.
pub fn char_width(c: char) -> (n: usize)
    ensures
        n == utf8_width(c),
{
    let code: u32 = c as u32;
    if code <= 0x7f {
        1
    } else if code <= 0x7ff {
        2
    } else if code <= 0xffff {
        3
    } else {
        4
    }
}

pub proof fn lemma_utf8_len_concat(a: Seq<char>, b: Seq<char>)
    ensures
        utf8_len(a + b) == utf8_len(a) + utf8_len(b),
    decreases b.len(),
{
    if b.len() == 0 {
        assert(a + b =~= a);
    } else {
        lemma_utf8_len_concat(a, b.drop_last());
        assert((a + b).drop_last() =~= a + b.drop_last());
    }
}

/// The length in UTF-8 is the length of the encoding.
pub proof fn lemma_utf8_len_is_encoding(s: Seq<char>)
    ensures
        utf8_len(s) == vstd::utf8::encode_utf8(s).len(),
    decreases s.len(),
{
    if s.len() > 0 {
        lemma_utf8_len_is_encoding(s.drop_first());
        lemma_utf8_len_concat(seq![s[0]], s.drop_first());
        assert(seq![s[0]] + s.drop_first() =~= s);
        assert(seq![s[0]].last() == s[0]);
        assert(utf8_len(seq![s[0]].drop_last()) == 0);
        assert(utf8_len(seq![s[0]]) == utf8_width(s[0]));
        let c = s[0];
        vstd::utf8::char_is_scalar(c);
        assert(vstd::utf8::encode_scalar(c as u32).len() == utf8_width(c));
    }
}

pub proof fn lemma_utf8_len_bounds(s: Seq<char>)
    ensures
        s.len() <= utf8_len(s) <= 4 * s.len(),
    decreases s.len(),
{
    if s.len() > 0 {
        lemma_utf8_len_bounds(s.drop_last());
    }
}

/// A prefix is no longer than the text, and strictly shorter when it stops
/// before the end.
pub proof fn lemma_utf8_len_take(s: Seq<char>, i: int, j: int)
    requires
        0 <= i <= j <= s.len(),
    ensures
        utf8_len(s.take(i)) + (j - i) <= utf8_len(s.take(j)),
{
    assert(s.take(j) =~= s.take(i) + s.subrange(i, j));
    lemma_utf8_len_concat(s.take(i), s.subrange(i, j));
    lemma_utf8_len_bounds(s.subrange(i, j));
}

pub proof fn lemma_utf8_len_step(s: Seq<char>, i: int)
    requires
        0 <= i < s.len(),
    ensures
        utf8_len(s.take(i + 1)) == utf8_len(s.take(i)) + utf8_width(s[i]),
{
    assert(s.take(i + 1).drop_last() =~= s.take(i));
}

/// The length of `s` in UTF-8.
pub fn byte_len(s: &str) -> (n: usize)
    ensures
        n == utf8_len(s@),
        s@.len() <= n,
{
    proof {
        lemma_utf8_len_is_encoding(s@);
        lemma_utf8_len_bounds(s@);
    }
    s.as_bytes().len()
}

/// `String::push` of the standard library: appends one character.
pub assume_specification[ String::push ](s: &mut String, c: char)
    ensures
        final(s)@ == old(s)@.push(c),
;

/// The characters of `s`, in order.
pub fn to_chars(s: &str) -> (v: Vec<char>)
    ensures
        v@ == s@,
{
    let mut v: Vec<char> = Vec::new();
    for c in it: s.chars()
        invariant
            v@ == it.seq().take(it.index()),
            it.seq() == s@,
    {
        v.push(c);
    }
    assert(s@.take(s@.len() as int) =~= s@);
    v
}

/// The string made of the characters of `v`.
pub fn from_chars(v: &[char]) -> (s: String)
    ensures
        s@ == v@,
{
    let mut s: String = String::new();
    let mut i: usize = 0;
    while i < v.len()
        invariant
            i <= v@.len(),
            s@ == v@.take(i as int),
        decreases v@.len() - i,
    {
        s.push(v[i]);
        assert(v@.take(i as int).push(v@[i as int]) =~= v@.take(i + 1));
        i += 1;
    }
    assert(v@.take(v@.len() as int) =~= v@);
    s
}

/// What `str::to_lowercase` of the standard library makes of a text.
pub uninterp spec fn lowercase(s: Seq<char>) -> Seq<char>;

/// `str::to_lowercase` of the standard library: the result depends on the
/// text alone and is given a name. Of ASCII text the capitals become small
/// letters; the Unicode mapping beyond that is left unsaid.
pub assume_specification[ str::to_lowercase ](s: &str) -> (r: String)
    ensures
        r@ == lowercase(s@),
        all_ascii(s@) ==> r@ == small(s@),
;

/// What `char::is_uppercase` of the standard library says of a character.
pub uninterp spec fn uppercase_letter(c: char) -> bool;

/// `char::is_uppercase` of the standard library: the property depends on the
/// character alone and is given a name.
pub assume_specification[ char::is_uppercase ](c: char) -> (r: bool)
    ensures
        r == uppercase_letter(c),
;

/// What `char::is_alphabetic` of the standard library says of a character.
pub uninterp spec fn alphabetic(c: char) -> bool;

/// `char::is_alphabetic` of the standard library: the property depends on
/// the character alone and is given a name.
pub assume_specification[ char::is_alphabetic ](c: char) -> (r: bool)
    ensures
        r == alphabetic(c),
;

/// What `char::is_alphanumeric` of the standard library says of a character.
pub uninterp spec fn alphanumeric(c: char) -> bool;

/// `char::is_alphanumeric` of the standard library: the property depends on
/// the character alone and is given a name.
pub assume_specification[ char::is_alphanumeric ](c: char) -> (r: bool)
    ensures
        r == alphanumeric(c),
;

/// Letters: of ASCII its letters, else what is alphabetic in Unicode.
pub open spec fn is_letter(c: char) -> bool {
    if c as u32 <= 0x7f {
        'a' <= c <= 'z' || 'A' <= c <= 'Z'
    } else {
        alphabetic(c)
    }
}

/// Whether `c` is a letter.
pub fn letter(c: char) -> (r: bool)
    ensures
        r == is_letter(c),
{
    if c as u32 <= 0x7f {
        ('a' <= c && c <= 'z') || ('A' <= c && c <= 'Z')
    } else {
        c.is_alphabetic()
    }
}

/// Capitals: of ASCII its capitals, else what is upper case in Unicode.
pub open spec fn is_upper(c: char) -> bool {
    if c as u32 <= 0x7f {
        'A' <= c <= 'Z'
    } else {
        uppercase_letter(c)
    }
}

/// Whether `c` is upper case.
pub fn upper(c: char) -> (r: bool)
    ensures
        r == is_upper(c),
{
    if c as u32 <= 0x7f {
        'A' <= c && c <= 'Z'
    } else {
        c.is_uppercase()
    }
}

/// Letters and digits: of ASCII the letters and digits, else what counts as
/// alphanumeric in Unicode. White space does not.
pub open spec fn is_alnum(c: char) -> bool {
    if c as u32 <= 0x7f {
        '0' <= c <= '9' || 'a' <= c <= 'z' || 'A' <= c <= 'Z'
    } else {
        !is_white(c) && alphanumeric(c)
    }
}

/// Whether `c` is a letter or a digit.
pub fn alnum(c: char) -> (r: bool)
    ensures
        r == is_alnum(c),
{
    if c as u32 <= 0x7f {
        ('0' <= c && c <= '9') || ('a' <= c && c <= 'z') || ('A' <= c && c <= 'Z')
    } else {
        !white(c) && c.is_alphanumeric()
    }
}

} // verus!
