//! Making text safe to print on a terminal, and the one-line form of a content error.
use crate::content::{ContentError, ContentErrorView};
use crate::text::{debug_escaped, escape_debug, is_control, push_char, push_str, spec_is_control};
use vstd::prelude::*;

verus! {

/// The lower-case hexadecimal digit of a value below 16.
pub open spec fn hex_digit(d: nat) -> char {
    if d == 0 {
        '0'
    } else if d == 1 {
        '1'
    } else if d == 2 {
        '2'
    } else if d == 3 {
        '3'
    } else if d == 4 {
        '4'
    } else if d == 5 {
        '5'
    } else if d == 6 {
        '6'
    } else if d == 7 {
        '7'
    } else if d == 8 {
        '8'
    } else if d == 9 {
        '9'
    } else if d == 10 {
        'a'
    } else if d == 11 {
        'b'
    } else if d == 12 {
        'c'
    } else if d == 13 {
        'd'
    } else if d == 14 {
        'e'
    } else {
        'f'
    }
}

/// The lower-case hexadecimal form of a number, without leading zeros.
pub open spec fn hex_lower(n: nat) -> Seq<char>
    decreases n,
{
    if n < 16 {
        seq![hex_digit(n)]
    } else {
        hex_lower(n / 16).push(hex_digit(n % 16))
    }
}

/// How `char::escape_debug` writes a control character other than a line feed or a tab.
pub open spec fn escaped_control(c: char) -> Seq<char> {
    if c == '\0' {
        seq!['\\', '0']
    } else if c == '\r' {
        seq!['\\', 'r']
    } else {
        seq!['\\', 'u', '{'] + hex_lower(c as nat) + seq!['}']
    }
}

/// A character as a terminal shows it safely: line feeds, tabs and every character that is
/// not a control character stay; other control characters are written as their escapes.
pub open spec fn safe_char(c: char) -> Seq<char> {
    if c == '\n' || c == '\t' || !spec_is_control(c) {
        seq![c]
    } else {
        escaped_control(c)
    }
}

/// A whole text made safe for a terminal, character by character.
pub open spec fn safe_text(s: Seq<char>) -> Seq<char>
    decreases s.len(),
{
    if s.len() == 0 {
        Seq::empty()
    } else {
        safe_text(s.drop_last()) + safe_char(s.last())
    }
}

/// The lower-case hexadecimal digit of a value below 16.
fn hex_digit_char(d: u32) -> (r: char)
    requires
        d < 16,
    ensures
        r == hex_digit(d as nat),
{
    match d {
        0 => '0',
        1 => '1',
        2 => '2',
        3 => '3',
        4 => '4',
        5 => '5',
        6 => '6',
        7 => '7',
        8 => '8',
        9 => '9',
        10 => 'a',
        11 => 'b',
        12 => 'c',
        13 => 'd',
        14 => 'e',
        _ => 'f',
    }
}

/// Appends the lower-case hexadecimal form of `n`.
fn push_hex(out: &mut String, n: u32)
    ensures
        final(out)@ == old(out)@ + hex_lower(n as nat),
    decreases n,
{
    if n < 16 {
        push_char(out, hex_digit_char(n));
    } else {
        push_hex(out, n / 16);
        push_char(out, hex_digit_char(n % 16));
    }
}

/// Appends a character as a terminal may show it.
fn push_safe_char(out: &mut String, c: char)
    ensures
        final(out)@ == old(out)@ + safe_char(c),
{
    if c == '\n' || c == '\t' || !is_control(c) {
        push_char(out, c);
    } else if c == '\0' {
        push_str(out, "\\0");
        proof {
            reveal_strlit("\\0");
        }
    } else if c == '\r' {
        push_str(out, "\\r");
        proof {
            reveal_strlit("\\r");
        }
    } else {
        push_str(out, "\\u{");
        proof {
            reveal_strlit("\\u{");
        }
        push_hex(out, c as u32);
        push_char(out, '}');
    }
}

/// Escapes the control characters of `value`, other than line feeds and tabs, the way
/// `char::escape_debug` writes them, so that printing the text cannot drive the terminal.
pub fn terminal_safe(value: &str) -> (r: String)
    ensures
        r@ == safe_text(value@),
{
    let mut safe = String::new();
    proof {
        assert(safe@ =~= Seq::<char>::empty());
    }
    for c in it: value.chars()
        invariant
            it.seq() == value@,
            safe@ == safe_text(value@.take(it.index() as int)),
    {
        let ghost i = it.index() as int;
        proof {
            assert(value@.take(i + 1).drop_last() =~= value@.take(i));
            assert(value@.take(i + 1).last() == c);
        }
        push_safe_char(&mut safe, c);
    }
    proof {
        assert(value@.take(value@.len() as int) =~= value@);
    }
    safe
}

/// The one-line form of a content error: its pack, its item when there is one, its field and
/// its message, each escaped as `str::escape_debug` does.
pub open spec fn content_error_line(e: ContentErrorView) -> Seq<char> {
    "pack="@ + debug_escaped(e.pack_id) + match e.item_id {
        Some(item) => " item="@ + debug_escaped(item),
        None => Seq::empty(),
    } + " field="@ + debug_escaped(e.field) + ": "@ + debug_escaped(e.message)
}

/// Formats a content error on one line, with every value escaped.
pub fn format_content_error(error: &ContentError) -> (r: String)
    ensures
        r@ == content_error_line(error@),
{
    let mut out = "pack=".to_owned();
    let pack = escape_debug(error.pack_id.as_str());
    push_str(&mut out, pack.as_str());
    match &error.item_id {
        Some(item) => {
            push_str(&mut out, " item=");
            let escaped = escape_debug(item.as_str());
            push_str(&mut out, escaped.as_str());
        },
        None => {},
    }
    push_str(&mut out, " field=");
    let field = escape_debug(error.field.as_str());
    push_str(&mut out, field.as_str());
    push_str(&mut out, ": ");
    let message = escape_debug(error.message.as_str());
    push_str(&mut out, message.as_str());
    out
}

/// Terminal-safe text holds no control character other than line feeds and tabs, so printing
/// it cannot drive the terminal.
pub proof fn lemma_safe_text_has_no_controls(s: Seq<char>)
    ensures
        forall|i: int|
            0 <= i < safe_text(s).len() ==> #[trigger] safe_text(s)[i] == '\n' || safe_text(s)[i]
                == '\t' || !spec_is_control(safe_text(s)[i]),
    decreases s.len(),
{
    if s.len() > 0 {
        lemma_safe_text_has_no_controls(s.drop_last());
        let c = s.last();
        let prefix = safe_text(s.drop_last());
        let tail = safe_char(c);
        assert(safe_text(s) == prefix + tail);
        if !(c == '\n' || c == '\t' || !spec_is_control(c)) {
            lemma_hex_is_printable(c as nat);
        }
        assert forall|i: int| 0 <= i < safe_text(s).len() implies #[trigger] safe_text(s)[i] == '\n'
            || safe_text(s)[i] == '\t' || !spec_is_control(safe_text(s)[i]) by {
            if i >= prefix.len() {
                assert(safe_text(s)[i] == tail[i - prefix.len()]);
            } else {
                assert(safe_text(s)[i] == prefix[i]);
            }
        }
    }
}

/// The hexadecimal digits of a number are printable.
proof fn lemma_hex_is_printable(n: nat)
    ensures
        forall|i: int| 0 <= i < hex_lower(n).len() ==> !spec_is_control(#[trigger] hex_lower(n)[i]),
    decreases n,
{
    assert forall|d: nat| !spec_is_control(#[trigger] hex_digit(d)) by {
        assert((hex_digit(d) as u32) >= 48);
    }
    if n >= 16 {
        lemma_hex_is_printable(n / 16);
        let h = hex_lower(n);
        assert(h == hex_lower(n / 16).push(hex_digit(n % 16)));
        assert forall|i: int| 0 <= i < h.len() implies !spec_is_control(#[trigger] h[i]) by {
            if i < h.len() - 1 {
                assert(h[i] == hex_lower(n / 16)[i]);
            } else {
                assert(h[i] == hex_digit(n % 16));
            }
        }
    } else {
        assert(hex_lower(n)[0] == hex_digit(n));
    }
}

} // verus!
