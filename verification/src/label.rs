//! The text that a node of the graph is shown with: the cleaned label of its
//! item, or the item's number where the catalog has no label for it.

use crate::graph::GraphNode;
use vstd::prelude::*;
use vstd::string::StrSliceExecFns;
use vstd::string::StringExecFns;

verus! {

/// The ASCII transliteration that `deunicode` gives for a text.
pub uninterp spec fn transliteration(text: Seq<char>) -> Seq<char>;

/// Every character of the text is an ASCII character.
pub open spec fn is_ascii_text(text: Seq<char>) -> bool {
    forall|k: int| 0 <= k < text.len() ==> (#[trigger] text[k]) as u32 <= 127
}

/// The characters that are kept in a label: all but the dot.
pub open spec fn kept_in_label() -> spec_fn(char) -> bool {
    |c: char| c != '.'
}

/// The text without its dots.
pub open spec fn without_dots(text: Seq<char>) -> Seq<char> {
    text.filter(kept_in_label())
}

/// The character of a decimal digit.
pub open spec fn digit_char(digit: int) -> char {
    if digit == 0 {
        '0'
    } else if digit == 1 {
        '1'
    } else if digit == 2 {
        '2'
    } else if digit == 3 {
        '3'
    } else if digit == 4 {
        '4'
    } else if digit == 5 {
        '5'
    } else if digit == 6 {
        '6'
    } else if digit == 7 {
        '7'
    } else if digit == 8 {
        '8'
    } else {
        '9'
    }
}

/// The decimal digits of a natural number, without leading zeros.
pub open spec fn decimal_digits(value: nat) -> Seq<char>
    decreases value,
{
    if value < 10 {
        seq![digit_char(value as int)]
    } else {
        decimal_digits(value / 10).push(digit_char((value % 10) as int))
    }
}

/// The decimal text of an integer, with a minus sign where it is negative.
pub open spec fn decimal_text(value: int) -> Seq<char> {
    if value < 0 {
        seq!['-'] + decimal_digits((-value) as nat)
    } else {
        decimal_digits(value as nat)
    }
}

/// The text that a node is shown with: its label, or the decimal text of its
/// item where it has no label.
pub open spec fn display_of(label: Option<Seq<char>>, item_id: i32) -> Seq<char> {
    match label {
        Some(text) => text,
        None => decimal_text(item_id as int),
    }
}

/// The ASCII transliteration of a text.
///
/// Calls `deunicode::deunicode`. By its documentation the result is made of
/// ASCII characters only. Which characters they are is decided by the
/// crate's tables, so the result has a name and no definition here.
#[verifier::external_body]
fn transliterate(text: &str) -> (res: String)
    ensures
        res@ == transliteration(text@),
        is_ascii_text(res@),
{
    deunicode::deunicode(text)
}

/// The text without its dots.
pub fn strip_dots(text: &str) -> (res: String)
    ensures
        res@ == without_dots(text@),
        is_ascii_text(text@) ==> is_ascii_text(res@),
{
    let mut res = String::new();
    let count = text.unicode_len();
    let mut i: usize = 0;
    while i < count
        invariant
            i <= count,
            count == text@.len(),
            res@ == text@.take(i as int).filter(kept_in_label()),
            is_ascii_text(text@) ==> is_ascii_text(res@),
        decreases count - i,
    {
        let c = text.get_char(i);
        proof {
            assert(text@.take(i as int + 1) =~= text@.take(i as int).push(c));
            text@.take(i as int).lemma_filter_push(c, kept_in_label());
        }
        if c != '.' {
            let piece = text.substring_char(i, i + 1);
            res.append(piece);
        }
        i += 1;
    }
    assert(text@.take(count as int) =~= text@);
    res
}

/// The label of an item as the graph shows it: the ASCII transliteration of
/// the catalog's text, without dots.
pub fn clean_label(raw: &str) -> (res: String)
    ensures
        res@ == without_dots(transliteration(raw@)),
        is_ascii_text(res@),
{
    let ascii = transliterate(raw);
    strip_dots(ascii.as_str())
}

/// The text of one decimal digit.
fn digit_text(digit: u64) -> (res: &'static str)
    requires
        digit < 10,
    ensures
        res@ == seq![digit_char(digit as int)],
{
    proof {
        reveal_strlit("0");
        reveal_strlit("1");
        reveal_strlit("2");
        reveal_strlit("3");
        reveal_strlit("4");
        reveal_strlit("5");
        reveal_strlit("6");
        reveal_strlit("7");
        reveal_strlit("8");
        reveal_strlit("9");
    }
    if digit == 0 {
        "0"
    } else if digit == 1 {
        "1"
    } else if digit == 2 {
        "2"
    } else if digit == 3 {
        "3"
    } else if digit == 4 {
        "4"
    } else if digit == 5 {
        "5"
    } else if digit == 6 {
        "6"
    } else if digit == 7 {
        "7"
    } else if digit == 8 {
        "8"
    } else {
        "9"
    }
}

/// The decimal text of an item number.
pub fn item_text(item_id: i32) -> (res: String)
    ensures
        res@ == decimal_text(item_id as int),
{
    let wide: i64 = item_id as i64;
    let size: u64 = if wide < 0 {
        (-wide) as u64
    } else {
        wide as u64
    };
    let mut digits = String::from_str(digit_text(size % 10));
    let mut rest: u64 = size / 10;
    while rest > 0
        invariant
            decimal_digits(size as nat) == (if rest > 0 {
                decimal_digits(rest as nat)
            } else {
                Seq::<char>::empty()
            }) + digits@,
        decreases rest,
    {
        let lead = String::from_str(digit_text(rest % 10));
        digits = lead.concat(digits.as_str());
        proof {
            if rest >= 10 {
                assert(decimal_digits(rest as nat) == decimal_digits((rest / 10) as nat).push(
                    digit_char((rest % 10) as int),
                ));
                assert(decimal_digits(size as nat) =~= decimal_digits((rest / 10) as nat)
                    + digits@);
            }
        }
        rest = rest / 10;
    }
    if wide < 0 {
        proof {
            reveal_strlit("-");
        }
        let sign = String::from_str("-");
        sign.concat(digits.as_str())
    } else {
        digits
    }
}

/// The text that a node is shown with: its label where it has one, and else
/// the number of its item.
pub fn display_text(node: &GraphNode) -> (res: String)
    ensures
        res@ == display_of(node@.label, node.item_id),
{
    match &node.label {
        Some(text) => text.clone(),
        None => item_text(node.item_id),
    }
}

} // verus!
