//! The entry codec: one task record and its one-line textual forms — the
//! stored line, the record written to the store, and the display line.
use vstd::prelude::*;

use crate::numerals::dec_rep;

verus! {

/// A task entry: the description text together with its completion flag.
#[derive(Debug)]
pub struct Entry {
    pub checked: bool,
    pub element: String,
}

/// The fixed four-character marker that opens a stored line.
pub open spec fn marker(checked: bool) -> Seq<char> {
    if checked {
        seq!['[', '*', ']', ' ']
    } else {
        seq!['[', ' ', ']', ' ']
    }
}

/// The flag read back from a stored line: exactly the checked marker means
/// checked; any other four characters mean unchecked.
pub open spec fn decoded_checked(line: Seq<char>) -> bool {
    line.subrange(0, 4) == marker(true)
}

/// The text read back from a stored line: everything after the marker.
pub open spec fn decoded_element(line: Seq<char>) -> Seq<char> {
    line.skip(4)
}

/// A stored line, without its terminator: marker, then text.
pub open spec fn encoded_line(checked: bool, element: Seq<char>) -> Seq<char> {
    marker(checked) + element
}

/// The full record appended to the store: a stored line and its terminator.
pub open spec fn encoded_record(checked: bool, element: Seq<char>) -> Seq<char> {
    encoded_line(checked, element) + seq!['\n']
}

/// The escape sequence that switches strikethrough on.
pub open spec fn strike_on() -> Seq<char> {
    seq!['\u{1b}', '[', '9', 'm']
}

/// The escape sequence that resets all styling.
pub open spec fn strike_off() -> Seq<char> {
    seq!['\u{1b}', '[', '0', 'm']
}

/// A text wrapped in the strikethrough escape codes.
pub open spec fn struck(s: Seq<char>) -> Seq<char> {
    strike_on() + s + strike_off()
}

/// Whether a text already holds a reset escape sequence somewhere.
pub open spec fn has_reset(s: Seq<char>) -> bool {
    exists|i: int| 0 <= i && i + 4 <= s.len() && #[trigger] s.subrange(i, i + 4) == strike_off()
}

/// The texts that the display of an entry may show in place of its element:
/// the element itself or, for a completed entry, its struck form. A completed
/// element that already holds a reset sequence is displayed in some further
/// decorated form that is not pinned down here.
pub open spec fn shown_text_ok(checked: bool, element: Seq<char>, shown: Seq<char>) -> bool {
    if checked {
        has_reset(element) || shown == element || shown == struck(element)
    } else {
        shown == element
    }
}

/// One display line: the 1-based position, a space, the shown text, and a
/// line terminator.
pub open spec fn display_line(number: nat, shown: Seq<char>) -> Seq<char> {
    dec_rep(number) + seq![' '] + shown + seq!['\n']
}

/// Decoding an encoded line restores the flag and the text exactly.
pub proof fn lemma_decode_encode(checked: bool, element: Seq<char>)
    ensures
        decoded_checked(encoded_line(checked, element)) == checked,
        decoded_element(encoded_line(checked, element)) == element,
{
    let line = encoded_line(checked, element);
    assert(line.subrange(0, 4) =~= marker(checked));
    assert(marker(false)[1] != marker(true)[1]);
    assert(decoded_element(line) =~= element);
}

/// Relies on colored's `Colorize::strikethrough` for `&str` and the `Display`
/// of the `ColoredString` it returns: with colouring disabled the input comes
/// back unchanged; with colouring enabled, and no reset sequence inside the
/// input, the input comes back between the strikethrough and reset escape
/// codes. Whether colouring is enabled is a process-global switch, so only
/// the disjunction over both outcomes is stated.
#[verifier::external_body]
fn strike(s: &String) -> (r: String)
    ensures
        !has_reset(s@) ==> r@ == s@ || r@ == struck(s@),
{
    colored::Colorize::strikethrough(s.as_str()).to_string()
}

/// Builds one display line from a 1-based position and the text to show.
pub fn render_line(number: usize, shown: &str) -> (r: String)
    ensures
        r@ == display_line(number as nat, shown@),
{
    let mut r = crate::numerals::to_decimal(number);
    r.append(" ");
    r.append(shown);
    r.append("\n");
    proof {
        reveal_strlit(" ");
        reveal_strlit("\n");
        assert(r@ =~= display_line(number as nat, shown@));
    }
    r
}

impl Entry {
    /// Builds an entry from its two fields.
    pub fn new(element: String, checked: bool) -> (r: Self)
        ensures
            r.checked == checked,
            r.element == element,
    {
        Entry { element, checked }
    }

    /// Decodes a stored line: the first four characters decide the flag, the
    /// rest is the text. Lines shorter than the marker are malformed and are
    /// rejected before this point.
    pub fn read_line(line: &str) -> (r: Self)
        requires
            line@.len() >= 4,
        ensures
            r.checked == decoded_checked(line@),
            r.element@ == decoded_element(line@),
    {
        let len = line.unicode_len();
        let c0 = line.get_char(0);
        let c1 = line.get_char(1);
        let c2 = line.get_char(2);
        let c3 = line.get_char(3);
        let checked = c0 == '[' && c1 == '*' && c2 == ']' && c3 == ' ';
        proof {
            let head = line@.subrange(0, 4);
            assert(head[0] == c0 && head[1] == c1 && head[2] == c2 && head[3] == c3);
            if checked {
                assert(head =~= marker(true));
            }
        }
        let element = line.substring_char(4, len);
        Entry { checked, element: String::from_str(element) }
    }

    /// Shows an entry as its display line at a 1-based position; a completed
    /// entry's text is shown struck through.
    pub fn show_line(&self, number: usize) -> (r: String)
        ensures
            exists|shown: Seq<char>|
                shown_text_ok(self.checked, self.element@, shown) && r@ == display_line(
                    number as nat,
                    shown,
                ),
    {
        let shown: String = if self.checked {
            strike(&self.element)
        } else {
            self.element.clone()
        };
        let r = render_line(number, shown.as_str());
        proof {
            assert(shown_text_ok(self.checked, self.element@, shown@));
        }
        r
    }

    /// Encodes an entry as the record written to the store.
    pub fn save(self) -> (r: String)
        ensures
            r@ == encoded_record(self.checked, self.element@),
    {
        let prefix: &str = if self.checked {
            "[*] "
        } else {
            "[ ] "
        };
        proof {
            reveal_strlit("[*] ");
            reveal_strlit("[ ] ");
            if self.checked {
                assert(prefix@ =~= marker(true));
            } else {
                assert(prefix@ =~= marker(false));
            }
        }
        let mut r = String::from_str(prefix);
        r.append(self.element.as_str());
        r.append("\n");
        proof {
            reveal_strlit("\n");
            assert(r@ =~= encoded_record(self.checked, self.element@));
        }
        r
    }

    /// Encodes an entry's fields as its stored line, without the terminator.
    pub fn store_line(&self) -> (r: String)
        ensures
            r@ == encoded_line(self.checked, self.element@),
    {
        let prefix: &str = if self.checked {
            "[*] "
        } else {
            "[ ] "
        };
        proof {
            reveal_strlit("[*] ");
            reveal_strlit("[ ] ");
            if self.checked {
                assert(prefix@ =~= marker(true));
            } else {
                assert(prefix@ =~= marker(false));
            }
        }
        let mut r = String::from_str(prefix);
        r.append(self.element.as_str());
        proof {
            assert(r@ =~= encoded_line(self.checked, self.element@));
        }
        r
    }

    /// Replaces the text of an entry, keeping its flag.
    pub fn replace(self, new_element: &str) -> (r: Self)
        ensures
            r.checked == self.checked,
            r.element@ == new_element@,
    {
        Entry { checked: self.checked, element: String::from_str(new_element) }
    }
}

} // verus!
