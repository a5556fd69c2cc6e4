//! Character classes and the Unicode services that the rest of the library relies on.
//!
//! The character classes (`is_control`, `is_whitespace`, `is_ascii_graphic`) are short,
//! fully specified definitions and are verified here. Normalization, display width,
//! grapheme segmentation and debug escaping come from outside crates (or std) and are
//! reached through the trusted wrappers at the end of this file.
use unicode_normalization::UnicodeNormalization;
use unicode_segmentation::UnicodeSegmentation;
use unicode_width::UnicodeWidthStr;
use vstd::prelude::*;

verus! {

/// A control character: general category Cc, that is U+0000..=U+001F and U+007F..=U+009F.
pub open spec fn spec_is_control(c: char) -> bool {
    (c as u32) <= 0x1f || (0x7f <= (c as u32) && (c as u32) <= 0x9f)
}

/// A character with the Unicode `White_Space` property.
pub open spec fn spec_is_whitespace(c: char) -> bool {
    let u = c as u32;
    (0x09 <= u && u <= 0x0d) || u == 0x20 || u == 0x85 || u == 0xa0 || u == 0x1680 || (0x2000 <= u
        && u <= 0x200a) || u == 0x2028 || u == 0x2029 || u == 0x202f || u == 0x205f || u == 0x3000
}

/// A printable ASCII character other than space: `'!'..='~'`.
pub open spec fn spec_is_ascii_graphic(c: char) -> bool {
    0x21 <= (c as u32) && (c as u32) <= 0x7e
}

/// Some character of `s` is a control character.
pub open spec fn has_control(s: Seq<char>) -> bool {
    exists|i: int| 0 <= i < s.len() && spec_is_control(#[trigger] s[i])
}

/// Every character of `s` is whitespace (so `s.trim()` is empty).
pub open spec fn is_blank(s: Seq<char>) -> bool {
    forall|i: int| 0 <= i < s.len() ==> spec_is_whitespace(#[trigger] s[i])
}

/// The number of bytes of the UTF-8 encoding of `s`, as `str::len` reports it.
pub open spec fn utf8_len(s: Seq<char>) -> usize {
    vstd::utf8::encode_utf8(s).len() as usize
}

/// Whether `c` is a control character (`char::is_control`).
pub fn is_control(c: char) -> (r: bool)
    ensures
        r == spec_is_control(c),
{
    let code = c as u32;
    code <= 0x1f || (0x7f <= code && code <= 0x9f)
}

/// Whether `c` is whitespace (`char::is_whitespace`).
pub fn is_whitespace(c: char) -> (r: bool)
    ensures
        r == spec_is_whitespace(c),
{
    let u = c as u32;
    (0x09 <= u && u <= 0x0d) || u == 0x20 || u == 0x85 || u == 0xa0 || u == 0x1680 || (0x2000 <= u
        && u <= 0x200a) || u == 0x2028 || u == 0x2029 || u == 0x202f || u == 0x205f || u == 0x3000
}

/// Whether `c` is printable ASCII other than space (`char::is_ascii_graphic`).
pub fn is_ascii_graphic(c: char) -> (r: bool)
    ensures
        r == spec_is_ascii_graphic(c),
{
    let code = c as u32;
    0x21 <= code && code <= 0x7e
}

/// Whether `s` holds a control character.
pub fn contains_control(s: &str) -> (r: bool)
    ensures
        r == has_control(s@),
{
    let mut found = false;
    for c in it: s.chars()
        invariant
            it.seq() == s@,
            found == exists|i: int| 0 <= i < it.index() && spec_is_control(#[trigger] s@[i]),
    {
        if is_control(c) {
            found = true;
        }
    }
    found
}

/// Whether `s` holds a control character other than a line feed.
pub fn contains_control_except_newline(s: &str) -> (r: bool)
    ensures
        r == exists|i: int| 0 <= i < s@.len() && s@[i] != '\n' && spec_is_control(#[trigger] s@[i]),
{
    let mut found = false;
    for c in it: s.chars()
        invariant
            it.seq() == s@,
            found == exists|i: int|
                0 <= i < it.index() && s@[i] != '\n' && spec_is_control(#[trigger] s@[i]),
    {
        if c != '\n' && is_control(c) {
            found = true;
        }
    }
    found
}

/// Whether `s` is empty once surrounding whitespace is trimmed (`s.trim().is_empty()`).
pub fn is_blank_str(s: &str) -> (r: bool)
    ensures
        r == is_blank(s@),
{
    let mut blank = true;
    for c in it: s.chars()
        invariant
            it.seq() == s@,
            blank == forall|i: int| 0 <= i < it.index() ==> spec_is_whitespace(#[trigger] s@[i]),
    {
        if !is_whitespace(c) {
            blank = false;
        }
    }
    blank
}

/// The NFC normal form of a character sequence, as computed by the `unicode-normalization` crate.
pub uninterp spec fn nfc(s: Seq<char>) -> Seq<char>;

/// The terminal display width of a string, as computed by the `unicode-width` crate.
pub uninterp spec fn display_width(s: Seq<char>) -> usize;

/// The extended grapheme clusters of a string, in order, as split by `unicode-segmentation`.
pub uninterp spec fn graphemes(s: Seq<char>) -> Seq<Seq<char>>;

/// The `Debug` escaping of a string (`str::escape_debug`).
pub uninterp spec fn debug_escaped(s: Seq<char>) -> Seq<char>;

/// The views of a list of strings.
pub open spec fn string_views(v: Seq<String>) -> Seq<Seq<char>> {
    v.map_values(|s: String| s@)
}

/// Calls `UnicodeNormalization::nfc` of `unicode-normalization` and collects the result.
/// Claimed: the result is the NFC form of the argument, a function of the argument alone.
#[verifier::external_body]
pub(crate) fn normalize_nfc(s: &str) -> (r: String)
    ensures
        r@ == nfc(s@),
{
    s.nfc().collect::<String>()
}

/// Calls `UnicodeWidthStr::width` of `unicode-width`.
/// Claimed: the result is the display width of the argument, a function of the argument alone.
#[verifier::external_body]
pub(crate) fn str_width(s: &str) -> (r: usize)
    ensures
        r == display_width(s@),
{
    UnicodeWidthStr::width(s)
}

/// Calls `UnicodeSegmentation::graphemes(s, true)` of `unicode-segmentation` and collects the
/// clusters. Claimed: the clusters are a function of the argument alone.
#[verifier::external_body]
pub(crate) fn split_graphemes(s: &str) -> (r: Vec<String>)
    ensures
        string_views(r@) == graphemes(s@),
{
    s.graphemes(true).map(|g| g.to_owned()).collect()
}

/// Calls `str::escape_debug` and collects the escaped text.
/// Claimed: the result is a function of the argument alone.
#[verifier::external_body]
pub(crate) fn escape_debug(s: &str) -> (r: String)
    ensures
        r@ == debug_escaped(s@),
{
    s.escape_debug().collect::<String>()
}

/// Compares two strings with `str`'s `==`.
/// Claimed: the result is true exactly when both hold the same characters.
#[verifier::external_body]
pub(crate) fn str_eq(a: &str, b: &str) -> (r: bool)
    ensures
        r == (a@ == b@),
{
    a == b
}

/// Appends a character with `String::push`.
/// Claimed: the string afterwards is the string before with the character added at the end.
#[verifier::external_body]
pub(crate) fn push_char(s: &mut String, c: char)
    ensures
        final(s)@ == old(s)@.push(c),
{
    s.push(c);
}

/// Appends a string with `String::push_str`.
/// Claimed: the string afterwards is the string before followed by `t`.
#[verifier::external_body]
pub(crate) fn push_str(s: &mut String, t: &str)
    ensures
        final(s)@ == old(s)@ + t@,
{
    s.push_str(t);
}

/// The characters of a string.
pub fn chars_of(s: &str) -> (r: Vec<char>)
    ensures
        r@ == s@,
{
    let mut out: Vec<char> = Vec::new();
    for c in it: s.chars()
        invariant
            it.seq() == s@,
            out@ == s@.take(it.index() as int),
    {
        proof {
            assert(s@.take(it.index() + 1) =~= out@.push(c));
        }
        out.push(c);
    }
    proof {
        assert(s@.take(s@.len() as int) =~= s@);
    }
    out
}

/// `a` sorts before `b` in the order of `str`: by the first character that differs, as a code
/// point, and a proper prefix before the longer text.
pub open spec fn text_lt(a: Seq<char>, b: Seq<char>) -> bool
    decreases a.len(),
{
    if a.len() == 0 {
        b.len() > 0
    } else if b.len() == 0 {
        false
    } else if a[0] != b[0] {
        a[0] < b[0]
    } else {
        text_lt(a.drop_first(), b.drop_first())
    }
}

/// No text sorts before itself.
pub proof fn lemma_text_lt_irreflexive(a: Seq<char>)
    ensures
        !text_lt(a, a),
    decreases a.len(),
{
    if a.len() > 0 {
        lemma_text_lt_irreflexive(a.drop_first());
    }
}

/// The order of texts is transitive.
pub proof fn lemma_text_lt_transitive(a: Seq<char>, b: Seq<char>, c: Seq<char>)
    requires
        text_lt(a, b),
        text_lt(b, c),
    ensures
        text_lt(a, c),
    decreases a.len(),
{
    if a.len() > 0 && b.len() > 0 && c.len() > 0 && a[0] == b[0] && b[0] == c[0] {
        lemma_text_lt_transitive(a.drop_first(), b.drop_first(), c.drop_first());
    }
}

/// Of two different texts, one sorts before the other, and never both.
pub proof fn lemma_text_lt_total(a: Seq<char>, b: Seq<char>)
    ensures
        a != b ==> (text_lt(a, b) || text_lt(b, a)),
        !(text_lt(a, b) && text_lt(b, a)),
    decreases a.len(),
{
    if a.len() > 0 && b.len() > 0 && a[0] == b[0] {
        lemma_text_lt_total(a.drop_first(), b.drop_first());
        if a.drop_first() == b.drop_first() {
            assert(a =~= b) by {
                assert forall|i: int| 0 <= i < a.len() implies a[i] == b[i] by {
                    if i > 0 {
                        assert(a[i] == a.drop_first()[i - 1]);
                        assert(b[i] == b.drop_first()[i - 1]);
                    }
                }
            }
        }
    }
    if a.len() == 0 && b.len() == 0 {
        assert(a =~= b);
    }
}

/// Whether `a` sorts before `b` in the order of `str`.
pub fn str_lt(a: &str, b: &str) -> (r: bool)
    ensures
        r == text_lt(a@, b@),
{
    let x = chars_of(a);
    let y = chars_of(b);
    let mut i: usize = 0;
    proof {
        assert(x@.skip(0) =~= x@);
        assert(y@.skip(0) =~= y@);
    }
    while i < x.len() && i < y.len() && x[i] == y[i]
        invariant
            x@ == a@,
            y@ == b@,
            i <= x@.len(),
            i <= y@.len(),
            text_lt(a@, b@) == text_lt(x@.skip(i as int), y@.skip(i as int)),
        decreases x.len() - i,
    {
        proof {
            assert(x@.skip(i as int).drop_first() =~= x@.skip(i + 1));
            assert(y@.skip(i as int).drop_first() =~= y@.skip(i + 1));
        }
        i = i + 1;
    }
    proof {
        if i < x@.len() && i < y@.len() {
            assert(x@.skip(i as int)[0] == x@[i as int]);
            assert(y@.skip(i as int)[0] == y@[i as int]);
        }
    }
    if i == x.len() {
        i < y.len()
    } else if i == y.len() {
        false
    } else {
        x[i] < y[i]
    }
}

} // verus!
