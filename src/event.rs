//! Key events coming in and the results widgets hand back.
use vstd::prelude::*;

verus! {

/// A key that carries no printable character.
#[derive(Clone, Copy, PartialEq, Eq, Structural, Debug)]
pub enum ScanCode {
    Up,
    Down,
    Right,
    Left,
    Delete,
    Escape,
    /// Any other scan code, by its number.
    Other(u16),
}

/// One key press.
#[derive(Clone, Copy, PartialEq, Eq, Structural, Debug)]
pub enum Key {
    Printable(char),
    Special(ScanCode),
}

/// Backspace, as a printable key.
pub const BACKSPACE: char = '\x08';

/// The control character that moves focus to the next widget (`^W`).
pub const NEXT_WIDGET: char = '\x17';

impl Key {
    /// The character of a printable key.
    pub fn printable(self) -> (r: Option<char>)
        ensures
            r == match self {
                Key::Printable(c) => Some(c),
                Key::Special(_) => None::<char>,
            },
    {
        match self {
            Key::Printable(c) => Some(c),
            Key::Special(_) => None,
        }
    }
}

/// Whether `c` ends a line of input.
pub fn ends_line(c: char) -> (r: bool)
    ensures
        r == (c == '\r' || c == '\n'),
{
    c == '\r' || c == '\n'
}

/// What handling a key asks of the widget's container.
#[derive(Clone, Debug, PartialEq, Eq)]
pub enum UIResult {
    /// Nothing to do.
    OK,
    /// Publish `(topic, payload)` to every widget subscribed to `topic`.
    POST(String, String),
    /// Remove the widget that returned this.
    CLOSE,
}

/// The mathematical value of a `UIResult`.
pub enum UIResultView {
    OK,
    POST(Seq<char>, Seq<char>),
    CLOSE,
}

impl View for UIResult {
    type V = UIResultView;

    open spec fn view(&self) -> UIResultView {
        match self {
            UIResult::OK => UIResultView::OK,
            UIResult::POST(t, p) => UIResultView::POST(t@, p@),
            UIResult::CLOSE => UIResultView::CLOSE,
        }
    }
}

/// The views of a sequence of strings.
pub open spec fn strings_view(v: Seq<String>) -> Seq<Seq<char>> {
    v.map_values(|s: String| s@)
}

/// The number of characters of `s`.
pub fn char_count(s: &String) -> (r: usize)
    requires
        s@.len() <= usize::MAX,
    ensures
        r == s@.len(),
{
    let mut n: usize = 0;
    for _c in it: s.as_str().chars()
        invariant
            it.seq() == s@,
            s@.len() <= usize::MAX,
            n == it.index(),
    {
        n = n + 1;
    }
    n
}

/// Relies on `String::push`: appends one character.
#[verifier::external_body]
pub(crate) fn push_char(s: &mut String, c: char)
    ensures
        final(s)@ == old(s)@.push(c),
{
    s.push(c)
}

} // verus!
