//! What the syntax of a file is inferred from, and how a text style is
//! written as a style attribute.

use crate::buffer::{buffer_slice, contents};
use crate::hunk::ChangeKind;
use crate::path::{split_at_first, text_of};
use bytes::Bytes;
use vstd::prelude::*;
use vstd::string::StringExecFns;
use vstd::utf8::{decode_utf8, valid_utf8};

verus! {

/// `tail` is what follows the last `mark` in `text`, or all of `text` where
/// it holds no `mark`.
pub open spec fn is_after_last(tail: Seq<char>, text: Seq<char>, mark: char) -> bool {
    &&& !tail.contains(mark)
    &&& tail.len() <= text.len()
    &&& tail == text.skip(text.len() - tail.len())
    &&& tail.len() < text.len() ==> text[text.len() - tail.len() - 1] == mark
}

/// What follows the last `mark` in `text`, or all of `text` where it holds
/// no `mark`.
pub fn after_last(text: &str, mark: char) -> (tail: &str)
    ensures
        is_after_last(tail@, text@, mark),
{
    let mut rest: &str = text;
    loop
        invariant
            rest@.len() <= text@.len(),
            rest@ == text@.skip(text@.len() - rest@.len()),
            rest@.len() < text@.len() ==> text@[text@.len() - rest@.len() - 1] == mark,
        decreases rest@.len(),
    {
        match split_at_first(rest, mark) {
            Some((head, tail)) => {
                proof {
                    let start = text@.len() - rest@.len();
                    let cut = start + head@.len();
                    assert(text@[cut] == rest@[head@.len() as int]);
                    assert(rest@.skip(head@.len() as int + 1) =~= text@.skip(cut + 1));
                }
                rest = tail;
            },
            None => {
                return rest;
            },
        }
    }
}

/// The name of the file at `path`: what follows its last slash.
pub fn file_name(path: &str) -> (name: &str)
    ensures
        is_after_last(name@, path@, '/'),
{
    after_last(path, '/')
}

/// The extension of a file name: what follows its last dot, or the whole
/// name where it has none.
pub fn extension(name: &str) -> (extension: &str)
    ensures
        is_after_last(extension@, name@, '.'),
{
    after_last(name, '.')
}

/// Line `i` is the first line of the diff that the right file holds.
pub open spec fn is_first_kept(changes: Seq<(ChangeKind, Bytes)>, i: int) -> bool {
    &&& 0 <= i < changes.len()
    &&& changes[i].0 != ChangeKind::Delete
    &&& forall|j: int| 0 <= j < i ==> (#[trigger] changes[j]).0 == ChangeKind::Delete
}

/// The first line of a diff that the right file holds, as text; nothing
/// where every line is a deletion or that line is not UTF-8.
pub fn first_text_line(changes: &[(ChangeKind, Bytes)]) -> (line: Option<&str>)
    ensures
        match line {
            Some(text) => exists|i: int|
                is_first_kept(changes@, i) && valid_utf8(contents(changes@[i].1)) && text@
                    == decode_utf8(contents(changes@[i].1)),
            None => forall|i: int|
                is_first_kept(changes@, i) ==> !valid_utf8(contents(changes@[i].1)),
        },
{
    let mut n: usize = 0;
    while n < changes.len()
        invariant
            n <= changes@.len(),
            forall|j: int| 0 <= j < n ==> (#[trigger] changes@[j]).0 == ChangeKind::Delete,
        decreases changes@.len() - n,
    {
        if changes[n].0 != ChangeKind::Delete {
            assert(is_first_kept(changes@, n as int));
            let line = text_of(buffer_slice(&changes[n].1));
            return line;
        }
        n = n + 1;
    }
    None
}

/// The hexadecimal digit of a number below sixteen.
pub open spec fn hex_digit(n: u8) -> char {
    if n < 10 {
        (48 + n) as char
    } else {
        (87 + n) as char
    }
}

/// A byte as two hexadecimal digits.
pub open spec fn hex_pair(byte: u8) -> Seq<char> {
    seq![hex_digit(byte / 16), hex_digit(byte % 16)]
}

/// The style attribute of a text style: its colour, and its decoration and
/// weight where it has them.  A bold style is written slanted as well.
pub open spec fn style_css(red: u8, green: u8, blue: u8, underline: bool, bold: bool) -> Seq<char> {
    "color:#"@ + hex_pair(red) + hex_pair(green) + hex_pair(blue) + ";"@ + if underline {
        "text-decoration:underline;"@
    } else {
        Seq::empty()
    } + if bold {
        "font-weight:bold;"@ + "font-style:italic;"@
    } else {
        Seq::empty()
    }
}

/// The hexadecimal digit of a number below sixteen, as text.
fn digit_text(n: u8) -> (text: &'static str)
    requires
        n < 16,
    ensures
        text@ == seq![hex_digit(n)],
{
    proof {
        reveal_strlit("0");
        reveal_strlit("1");
        reveal_strlit("2");
        reveal_strlit("3");
        reveal_strlit("4");
        reveal_strlit("5");
        reveal_strlit("6");
        reveal_strlit("7");
        reveal_strlit("8");
        reveal_strlit("9");
        reveal_strlit("a");
        reveal_strlit("b");
        reveal_strlit("c");
        reveal_strlit("d");
        reveal_strlit("e");
        reveal_strlit("f");
    }
    let text = if n == 0 {
        "0"
    } else if n == 1 {
        "1"
    } else if n == 2 {
        "2"
    } else if n == 3 {
        "3"
    } else if n == 4 {
        "4"
    } else if n == 5 {
        "5"
    } else if n == 6 {
        "6"
    } else if n == 7 {
        "7"
    } else if n == 8 {
        "8"
    } else if n == 9 {
        "9"
    } else if n == 10 {
        "a"
    } else if n == 11 {
        "b"
    } else if n == 12 {
        "c"
    } else if n == 13 {
        "d"
    } else if n == 14 {
        "e"
    } else {
        "f"
    };
    text
}

/// Appends a byte as two hexadecimal digits.
fn push_hex(text: &mut String, byte: u8)
    ensures
        final(text)@ == old(text)@ + hex_pair(byte),
{
    text.append(digit_text(byte / 16));
    text.append(digit_text(byte % 16));
}

/// Writes a text style as a style attribute.  The background colour is not
/// written.
pub fn style_to_css(red: u8, green: u8, blue: u8, underline: bool, bold: bool) -> (css: String)
    ensures
        css@ == style_css(red, green, blue, underline, bold),
{
    let mut css = "color:#".to_owned();
    push_hex(&mut css, red);
    push_hex(&mut css, green);
    push_hex(&mut css, blue);
    css.append(";");
    if underline {
        css.append("text-decoration:underline;");
    }
    if bold {
        css.append("font-weight:bold;");
        css.append("font-style:italic;");
    }
    css
}

} // verus!
