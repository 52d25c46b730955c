//! Colour for what failed: bright red, where the terminal library finds
//! that colours are wanted.

use vstd::prelude::*;
use colored::Colorize;
use crate::text::{pad_left, push_right_aligned};

verus! {

/// A text in bright red, as a terminal takes it: the escape sequence that
/// switches the colour on, the text, and the one that resets it.
pub open spec fn bright_red(text: Seq<char>) -> Seq<char> {
    seq!['\x1b', '[', '9', '1', 'm'] + text + seq!['\x1b', '[', '0', 'm']
}

/// Whether a text holds no escape character.
pub open spec fn no_escape(text: Seq<char>) -> bool {
    forall|i: int| 0 <= i < text.len() ==> #[trigger] text[i] != '\x1b'
}

/// `colored`'s `Colorize::bright_red`, rendered to a string by the
/// `Display` of its `ColoredString`. Whether colours are on is for
/// `colored` to decide, from the environment and from what standard output
/// is; so the result is the text as it is or the text in bright red, and
/// which of the two is open. A text with escape characters of its own is
/// left out, since `colored` would rewrite reset sequences in it.
#[verifier::external_body]
pub(crate) fn paint_bright_red(text: &str) -> (painted: String)
    requires
        no_escape(text@),
    ensures
        painted@ == text@ || painted@ == bright_red(text@),
{
    text.bright_red().to_string()
}

/// A text as it may come back from the painter: as it is, or in bright
/// red when `red` holds.
pub open spec fn painted(text: Seq<char>, red: bool) -> Seq<char> {
    if red {
        bright_red(text)
    } else {
        text
    }
}

/// A text padded with blanks on the left holds no escape character if the
/// text holds none.
proof fn lemma_padded_no_escape(text: Seq<char>, width: nat)
    requires
        no_escape(text),
    ensures
        no_escape(pad_left(text, width, ' ')),
{
    let padded = pad_left(text, width, ' ');
    assert forall|i: int| 0 <= i < padded.len() implies #[trigger] padded[i] != '\x1b' by {
        if text.len() < width {
            let fill = (width - text.len()) as int;
            if i >= fill {
                assert(padded[i] == text[i - fill]);
            }
        }
    }
}

/// `text` right-aligned in a column of `width` characters, and in bright
/// red if `alarm` holds and colours are on.
pub(crate) fn paint_cell(text: &str, width: usize, alarm: bool) -> (cell: String)
    requires
        no_escape(text@),
    ensures
        cell@ == pad_left(text@, width as nat, ' ') || (alarm && cell@ == bright_red(
            pad_left(text@, width as nat, ' '),
        )),
{
    let mut plain = String::new();
    push_right_aligned(&mut plain, text, width);
    assert(plain@ =~= pad_left(text@, width as nat, ' '));
    if alarm {
        proof {
            lemma_padded_no_escape(text@, width as nat);
        }
        paint_bright_red(plain.as_str())
    } else {
        plain
    }
}

} // verus!
