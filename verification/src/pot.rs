//! The pot that is advertised for the next draw.
use crate::text::{chars_of, find_from, read_unsigned};
use vstd::prelude::*;
use vstd::slice::slice_subrange;

verus! {

use crate::text::{
    all_digits,
    decimal,
    found,
    is_digit,
    law_written_number_is_read,
    lemma_decimal,
    lemma_found_from,
    unsigned,
};

/// The logo that stands before the pot of Melate, Revancha and Revanchita.
pub const LOGO: &'static str = "Bolsas_Logo_MelateRR.svg";

/// What stands right before an amount.
pub const MARKER: &'static str = "Bolsa\">$";

/// The digits that a text begins with, where commas and blanks may stand among
/// them.
pub open spec fn leading_digits(text: Seq<char>) -> Seq<char>
    decreases text.len(),
{
    if text.len() == 0 {
        Seq::empty()
    } else if is_digit(text.first()) {
        seq![text.first()] + leading_digits(text.drop_first())
    } else if text.first() == ',' || text.first() == ' ' {
        leading_digits(text.drop_first())
    } else {
        Seq::empty()
    }
}

/// The amount at the beginning of a text.
pub open spec fn amount(text: Seq<char>) -> Option<nat> {
    match unsigned(leading_digits(text), u64::MAX as nat) {
        Some(n) if n > 0 => Some(n),
        _ => None,
    }
}

/// The first amount of a text.
pub open spec fn first_amount(text: Seq<char>) -> Option<nat> {
    match found(text, MARKER@) {
        Some(at) => amount(text.skip(at + MARKER@.len())),
        None => None,
    }
}

/// The first amount behind the logo.
pub open spec fn advertised_pot(html: Seq<char>) -> Option<nat> {
    match found(html, LOGO@) {
        Some(at) => first_amount(html.skip(at)),
        None => None,
    }
}

fn collect_digits(text: &[char]) -> (digits: Vec<char>)
    ensures
        digits@ == leading_digits(text@),
{
    let len: usize = text.len();
    let mut digits: Vec<char> = Vec::new();
    let mut i: usize = 0;
    assert(text@.skip(0) =~= text@);
    while i < len
        invariant
            i <= len == text@.len(),
            digits@ + leading_digits(text@.skip(i as int)) == leading_digits(text@),
        decreases len - i,
    {
        let c: char = text[i];
        let ghost before = digits@;
        let ghost rest = text@.skip(i as int);
        assert(rest.drop_first() =~= text@.skip(i + 1));
        if '0' <= c && c <= '9' {
            digits.push(c);
            assert(digits@ + leading_digits(rest.drop_first()) =~= before + leading_digits(rest));
        } else if c != ',' && c != ' ' {
            assert(digits@ + leading_digits(rest) =~= digits@);
            return digits;
        }
        i += 1;
    }
    assert(digits@ + leading_digits(text@.skip(i as int)) =~= digits@);
    digits
}

/// Reads the pot of Melate, Revancha and Revanchita that a page advertises: the
/// amount that follows the logo, as in
/// `Bolsas_Logo_MelateRR.svg ... Bolsa">$ 310,300,000.00`.
pub fn extract_pot(html: &str) -> (pot: Option<u64>)
    ensures
        match pot {
            Some(n) => advertised_pot(html@) == Some(n as nat),
            None => advertised_pot(html@) is None,
        },
{
    let chars: Vec<char> = chars_of(html);
    let logo: Vec<char> = chars_of(LOGO);
    let marker: Vec<char> = chars_of(MARKER);
    let text: &[char] = match find_from(chars.as_slice(), logo.as_slice(), 0) {
        Some(at) => slice_subrange(chars.as_slice(), at, chars.len()),
        None => {
            return None;
        },
    };
    assert(text@ =~= html@.skip(found(html@, LOGO@)->0));
    let rest: &[char] = match find_from(text, marker.as_slice(), 0) {
        Some(at) => slice_subrange(text, at + marker.len(), text.len()),
        None => {
            return None;
        },
    };
    assert(rest@ =~= text@.skip(found(text@, MARKER@)->0 + MARKER@.len()));
    let digits: Vec<char> = collect_digits(rest);
    match read_unsigned(digits.as_slice(), u64::MAX) {
        Some(n) => if n > 0 {
            Some(n)
        } else {
            None
        },
        None => None,
    }
}

/// What stands before the logo has no influence on the pot: an amount there
/// belongs to another game.
pub proof fn law_pot_follows_its_logo(html: Seq<char>)
    requires
        found(html, LOGO@) is Some,
    ensures
        advertised_pot(html) == advertised_pot(html.skip(found(html, LOGO@)->0)),
{
    let at = found(html, LOGO@)->0;
    let rest = html.skip(at);
    lemma_found_from(html, LOGO@, 0);
    assert(rest.subrange(0, LOGO@.len() as int) =~= html.subrange(at, at + LOGO@.len()));
    assert(rest.skip(0) =~= rest);
}

/// An amount begins with digits, commas and blanks; its digits are all of those
/// before anything else comes.
pub proof fn law_leading_digits(text: Seq<char>) -> (to: int)
    ensures
        0 <= to <= text.len(),
        forall|i: int|
            0 <= i < to ==> '0' <= #[trigger] text[i] <= '9' || text[i] == ',' || text[i] == ' ',
        to < text.len() ==> !('0' <= text[to] <= '9' || text[to] == ',' || text[to] == ' '),
        leading_digits(text) == text.take(to).filter(|c: char| '0' <= c <= '9'),
    decreases text.len(),
{
    let p = |c: char| '0' <= c <= '9';
    reveal(Seq::filter);
    if text.len() > 0 && (is_digit(text[0]) || text[0] == ',' || text[0] == ' ') {
        let rest = text.drop_first();
        let to = law_leading_digits(rest) + 1;
        let one = seq![text[0]];
        assert(text.take(to) =~= one + rest.take(to - 1));
        Seq::filter_distributes_over_add(one, rest.take(to - 1), p);
        assert(one.drop_last() =~= Seq::empty());
        assert(Seq::<char>::empty().filter(p) =~= Seq::empty());
        assert forall|i: int| 0 <= i < to implies '0' <= #[trigger] text[i] <= '9' || text[i]
            == ',' || text[i] == ' ' by {
            if i > 0 {
                assert(text[i] == rest[i - 1]);
            }
        }
        if to < text.len() {
            assert(text[to] == rest[to - 1]);
        }
        assert(leading_digits(text) =~= text.take(to).filter(p));
        to
    } else {
        assert(text.take(0) =~= Seq::empty());
        assert(text.take(0).filter(p) =~= Seq::empty());
        0
    }
}

proof fn lemma_digits_lead(digits: Seq<char>, rest: Seq<char>)
    requires
        all_digits(digits),
        rest.len() > 0,
        !is_digit(rest[0]) && rest[0] != ',' && rest[0] != ' ',
    ensures
        leading_digits(digits + rest) == digits,
    decreases digits.len(),
{
    let text = digits + rest;
    if digits.len() == 0 {
        assert(text =~= rest);
        assert(leading_digits(text) =~= digits);
    } else {
        let fewer = digits.drop_first();
        assert forall|i: int| 0 <= i < fewer.len() implies is_digit(#[trigger] fewer[i]) by {
            assert(fewer[i] == digits[i + 1]);
        }
        lemma_digits_lead(fewer, rest);
        assert(is_digit(digits[0]));
        assert(text.first() == digits[0]);
        assert(text.drop_first() =~= fewer + rest);
        assert(leading_digits(text) =~= digits);
    }
}

/// A page that has the logo, behind it the mark of an amount, and right behind that a
/// number and a point advertises that number, unless it is zero or too large. One
/// without the logo, or without a mark behind it, advertises none.
pub proof fn law_pot_is_read(html: Seq<char>, n: nat, cents: Seq<char>)
    ensures
        found(html, "Bolsas_Logo_MelateRR.svg"@) is None ==> advertised_pot(html) is None,
        ({
            let carousel = html.skip(found(html, "Bolsas_Logo_MelateRR.svg"@)->0);
            let at = found(carousel, "Bolsa\">$"@)->0;
            let written = carousel.skip(at + "Bolsa\">$"@.len());
            found(html, "Bolsas_Logo_MelateRR.svg"@) is Some ==> {
                &&& found(carousel, "Bolsa\">$"@) is None ==> advertised_pot(html) is None
                &&& found(carousel, "Bolsa\">$"@) is Some && written == seq![' '] + decimal(n)
                    + seq!['.'] + cents ==> advertised_pot(html) == if 0 < n <= u64::MAX {
                    Some(n)
                } else {
                    None
                }
            }
        }),
{
    let carousel = html.skip(found(html, "Bolsas_Logo_MelateRR.svg"@)->0);
    let at = found(carousel, "Bolsa\">$"@)->0;
    let written = carousel.skip(at + "Bolsa\">$"@.len());
    lemma_decimal(n);
    law_written_number_is_read(n, u64::MAX as nat);
    let rest = seq!['.'] + cents;
    lemma_digits_lead(decimal(n), rest);
    if written == seq![' '] + decimal(n) + seq!['.'] + cents {
        assert(written.drop_first() =~= decimal(n) + rest);
        assert(written.first() == ' ');
    }
}

} // verus!
