//! The structural events of a log document that routing looks at.

use vstd::prelude::*;
use vstd::string::StringExecFns;

verus! {

/// One event of a tokenized document.
pub enum Event {
    /// An element start tag opens, at byte offset `offset` (the `<`).
    Start { name: String, offset: usize },
    /// An attribute of the element being opened.
    Attribute { name: String, value: String },
    /// A closing tag `</name>`, ending at byte offset `offset` (just past the `>`).
    Close { name: String, offset: usize },
    /// Anything else: text, comments, the end of an opening tag, `/>`, ...
    Other,
}

/// An [`Event`] with its strings seen as character sequences.
pub enum EventView {
    Start { name: Seq<char>, offset: usize },
    Attribute { name: Seq<char>, value: Seq<char> },
    Close { name: Seq<char>, offset: usize },
    Other,
}

impl View for Event {
    type V = EventView;

    open spec fn view(&self) -> EventView {
        match self {
            Event::Start { name, offset } => EventView::Start { name: name@, offset: *offset },
            Event::Attribute { name, value } => EventView::Attribute {
                name: name@,
                value: value@,
            },
            Event::Close { name, offset } => EventView::Close { name: name@, offset: *offset },
            Event::Other => EventView::Other,
        }
    }
}

/// The views of a sequence of events.
pub open spec fn events_view(events: Seq<Event>) -> Seq<EventView> {
    events.map_values(|e: Event| e@)
}

/// The numeric value of a decimal digit character.
pub open spec fn digit_value(c: char) -> int {
    (c as u32) as int - ('0' as u32) as int
}

/// `s` is a non-empty run of ASCII decimal digits.
pub open spec fn is_digits(s: Seq<char>) -> bool {
    &&& s.len() > 0
    &&& forall|i: int| 0 <= i < s.len() ==> '0' <= #[trigger] s[i] <= '9'
}

/// The number that the decimal digits `s` write.
pub open spec fn digits_value(s: Seq<char>) -> int
    decreases s.len(),
{
    if s.len() == 0 {
        0
    } else {
        digits_value(s.drop_last()) * 10 + digit_value(s.last())
    }
}

/// The `i32` that `s` writes in decimal: an optional `+` or `-`, then one or
/// more ASCII digits, with a value in `i32`'s range; `None` for anything else.
pub open spec fn decimal_i32(s: Seq<char>) -> Option<i32> {
    let signed = s.len() > 0 && (s[0] == '-' || s[0] == '+');
    let digits = if signed {
        s.drop_first()
    } else {
        s
    };
    let v = if s.len() > 0 && s[0] == '-' {
        -digits_value(digits)
    } else {
        digits_value(digits)
    };
    if is_digits(digits) && i32::MIN <= v <= i32::MAX {
        Some(v as i32)
    } else {
        None
    }
}

/// Relies on `<i32 as FromStr>::from_str`: it accepts exactly an optional sign
/// followed by ASCII decimal digits whose value fits in `i32`.
#[verifier::external_body]
pub(crate) fn parse_i32(s: &str) -> (r: Option<i32>)
    ensures
        r == decimal_i32(s@),
{
    s.parse::<i32>().ok()
}

/// Whether the string `name` is the string `lit`.
pub(crate) fn is_named(name: &String, lit: &str) -> (r: bool)
    ensures
        r == (name@ == lit@),
{
    let expected = String::from_str(lit);
    *name == expected
}

} // verus!
