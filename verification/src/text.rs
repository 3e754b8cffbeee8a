//! Text as a sequence of characters: trimming, splitting, searching, and
//! decimal numbers in both directions.
use vstd::prelude::*;
use vstd::slice::slice_subrange;

verus! {

use vstd::arithmetic::power::{lemma_pow0, pow};

/// `String::push` of std: appends the character.
pub assume_specification[ String::push ](s: &mut String, c: char)
    ensures
        final(s)@ == old(s)@.push(c),
;

/// The characters of a text.
pub fn chars_of(text: &str) -> (chars: Vec<char>)
    ensures
        chars@ == text@,
{
    let mut chars: Vec<char> = Vec::new();
    for c in it: text.chars()
        invariant
            chars@ == it.seq().take(it.index() as int),
            it.seq() == text@,
    {
        chars.push(c);
    }
    chars
}

/// The text made of the given characters.
pub fn text_of(chars: &[char]) -> (text: String)
    ensures
        text@ == chars@,
{
    let mut text: String = String::new();
    let mut i: usize = 0;
    while i < chars.len()
        invariant
            i <= chars@.len(),
            text@ == chars@.take(i as int),
        decreases chars@.len() - i,
    {
        text.push(chars[i]);
        i += 1;
        assert(chars@.take(i as int) =~= chars@.take(i - 1).push(chars@[i - 1]));
    }
    assert(chars@.take(i as int) =~= chars@);
    text
}

/// Whether two texts have the same characters.
pub fn same_text(a: &str, b: &str) -> (same: bool)
    ensures
        same == (a@ == b@),
{
    a.to_owned() == b.to_owned()
}

/// The characters with the Unicode property `White_Space`.
pub open spec fn is_space(c: char) -> bool {
    ||| '\u{9}' <= c <= '\u{d}'
    ||| c == ' '
    ||| c == '\u{85}'
    ||| c == '\u{a0}'
    ||| c == '\u{1680}'
    ||| '\u{2000}' <= c <= '\u{200a}'
    ||| c == '\u{2028}'
    ||| c == '\u{2029}'
    ||| c == '\u{202f}'
    ||| c == '\u{205f}'
    ||| c == '\u{3000}'
}

/// `s` without the white space it starts with.
pub open spec fn trim_start(s: Seq<char>) -> Seq<char>
    decreases s.len(),
{
    if s.len() > 0 && is_space(s.first()) {
        trim_start(s.drop_first())
    } else {
        s
    }
}

/// `s` without the white space it ends with.
pub open spec fn trim_end(s: Seq<char>) -> Seq<char>
    decreases s.len(),
{
    if s.len() > 0 && is_space(s.last()) {
        trim_end(s.drop_last())
    } else {
        s
    }
}

/// `s` without the white space at its two ends.
pub open spec fn trimmed(s: Seq<char>) -> Seq<char> {
    trim_end(trim_start(s))
}

fn space(c: char) -> (b: bool)
    ensures
        b == is_space(c),
{
    ('\u{9}' <= c && c <= '\u{d}') || c == ' ' || c == '\u{85}' || c == '\u{a0}' || c == '\u{1680}'
        || ('\u{2000}' <= c && c <= '\u{200a}') || c == '\u{2028}' || c == '\u{2029}'
        || c == '\u{202f}' || c == '\u{205f}' || c == '\u{3000}'
}

/// The characters without the white space at their two ends.
pub fn trim(chars: &[char]) -> (inner: &[char])
    ensures
        inner@ == trimmed(chars@),
{
    let mut from: usize = 0;
    let mut to: usize = chars.len();
    assert(chars@.subrange(0, to as int) =~= chars@);
    while from < to && space(chars[from])
        invariant
            from <= to == chars@.len(),
            trim_start(chars@) == trim_start(chars@.subrange(from as int, to as int)),
        decreases to - from,
    {
        let ghost rest = chars@.subrange(from as int, to as int);
        from += 1;
        assert(rest.drop_first() =~= chars@.subrange(from as int, to as int));
    }
    let ghost lead = chars@.subrange(from as int, to as int);
    while from < to && space(chars[to - 1])
        invariant
            from <= to <= chars@.len(),
            trim_end(lead) == trim_end(chars@.subrange(from as int, to as int)),
        decreases to - from,
    {
        let ghost rest = chars@.subrange(from as int, to as int);
        to -= 1;
        assert(rest.drop_last() =~= chars@.subrange(from as int, to as int));
    }
    slice_subrange(chars, from, to)
}

/// The pieces of `s` between the separators: one more than there are
/// separators in it.
pub open spec fn split(s: Seq<char>, sep: char) -> Seq<Seq<char>>
    decreases s.len(),
{
    if s.len() == 0 {
        seq![Seq::empty()]
    } else {
        let pieces = split(s.drop_last(), sep);
        if s.last() == sep {
            pieces.push(Seq::empty())
        } else {
            pieces.drop_last().push(pieces.last().push(s.last()))
        }
    }
}

/// The pieces put together again, with a separator between each two.
pub open spec fn joined(pieces: Seq<Seq<char>>, sep: char) -> Seq<char>
    decreases pieces.len(),
{
    if pieces.len() == 0 {
        Seq::empty()
    } else if pieces.len() == 1 {
        pieces[0]
    } else {
        joined(pieces.drop_last(), sep).push(sep) + pieces.last()
    }
}

/// Splitting is exact: no piece holds a separator, and the pieces joined by
/// separators are the text.
pub proof fn lemma_split_joined(s: Seq<char>, sep: char)
    ensures
        split(s, sep).len() >= 1,
        joined(split(s, sep), sep) == s,
        forall|i: int| 0 <= i < split(s, sep).len() ==> !(#[trigger] split(s, sep)[i]).contains(sep),
    decreases s.len(),
{
    if s.len() == 0 {
        assert(joined(split(s, sep), sep) =~= s);
    } else {
        let rest = s.drop_last();
        let pieces = split(rest, sep);
        lemma_split_joined(rest, sep);
        if s.last() == sep {
            assert(split(s, sep).drop_last() =~= pieces);
            assert(joined(split(s, sep), sep) =~= s);
        } else {
            let grown = pieces.last().push(s.last());
            let whole = split(s, sep);
            assert(!pieces[pieces.len() - 1].contains(sep));
            assert(!grown.contains(sep)) by {
                if grown.contains(sep) {
                    let j = choose|j: int| 0 <= j < grown.len() && grown[j] == sep;
                    assert(pieces.last()[j] == sep);
                }
            }
            assert(whole.drop_last() =~= pieces.drop_last());
            assert(joined(whole, sep) =~= s) by {
                assert(s =~= rest.push(s.last()));
                if pieces.len() > 1 {
                    assert(joined(whole, sep) =~= joined(pieces, sep).push(s.last()));
                }
            }
        }
    }
}

/// A text without separators is its only piece.
pub proof fn lemma_split_single(s: Seq<char>, sep: char)
    requires
        !s.contains(sep),
    ensures
        split(s, sep) == seq![s],
    decreases s.len(),
{
    if s.len() == 0 {
        assert(s =~= Seq::empty());
    } else {
        assert(s[s.len() - 1] != sep);
        assert(!s.drop_last().contains(sep));
        lemma_split_single(s.drop_last(), sep);
        assert(s.drop_last().push(s.last()) =~= s);
        assert(split(s, sep) =~= seq![s]);
    }
}

/// The pieces on the two sides of a separator.
pub proof fn lemma_split_around(s: Seq<char>, t: Seq<char>, sep: char)
    ensures
        split(s.push(sep) + t, sep) == split(s, sep) + split(t, sep),
    decreases t.len(),
{
    let whole = s.push(sep) + t;
    if t.len() == 0 {
        assert(whole =~= s.push(sep));
        assert(whole.drop_last() =~= s);
        assert(split(whole, sep) =~= split(s, sep) + split(t, sep));
    } else {
        lemma_split_around(s, t.drop_last(), sep);
        lemma_split_joined(t.drop_last(), sep);
        assert(whole.drop_last() =~= s.push(sep) + t.drop_last());
        assert(split(whole, sep) =~= split(s, sep) + split(t, sep));
    }
}

/// What the vectors of a vector hold.
pub open spec fn contents(pieces: Seq<Vec<char>>) -> Seq<Seq<char>> {
    pieces.map_values(|piece: Vec<char>| piece@)
}

/// The pieces of a text between its separators.
pub fn split_at(chars: &[char], sep: char) -> (pieces: Vec<Vec<char>>)
    ensures
        contents(pieces@) == split(chars@, sep),
{
    let mut pieces: Vec<Vec<char>> = Vec::new();
    let mut piece: Vec<char> = Vec::new();
    let mut i: usize = 0;
    assert(contents(pieces@).push(piece@) =~= split(chars@.take(0), sep));
    while i < chars.len()
        invariant
            i <= chars@.len(),
            contents(pieces@).push(piece@) == split(chars@.take(i as int), sep),
        decreases chars@.len() - i,
    {
        let ghost before = contents(pieces@).push(piece@);
        let c: char = chars[i];
        i += 1;
        assert(chars@.take(i as int).drop_last() =~= chars@.take(i - 1));
        if c == sep {
            pieces.push(piece);
            piece = Vec::new();
            assert(contents(pieces@) =~= before);
        } else {
            piece.push(c);
            assert(before.drop_last() =~= contents(pieces@));
        }
    }
    assert(chars@.take(i as int) =~= chars@);
    let ghost before = contents(pieces@).push(piece@);
    pieces.push(piece);
    assert(contents(pieces@) =~= before);
    pieces
}

pub open spec fn is_digit(c: char) -> bool {
    '0' <= c <= '9'
}

pub open spec fn all_digits(s: Seq<char>) -> bool {
    forall|i: int| 0 <= i < s.len() ==> is_digit(#[trigger] s[i])
}

/// The number that a sequence of digits writes in base ten.
pub open spec fn decimal_value(s: Seq<char>) -> nat
    decreases s.len(),
{
    if s.len() == 0 {
        0
    } else {
        10 * decimal_value(s.drop_last()) + (s.last() as int - '0' as int) as nat
    }
}

/// The number a text writes: digits, at least one, after a `+` or nothing.
/// `None` where the text is anything else or the number is larger than `max`.
pub open spec fn unsigned(s: Seq<char>, max: nat) -> Option<nat> {
    let digits = if s.len() > 0 && s.first() == '+' {
        s.drop_first()
    } else {
        s
    };
    if digits.len() > 0 && all_digits(digits) && decimal_value(digits) <= max {
        Some(decimal_value(digits))
    } else {
        None
    }
}

/// The number a text writes: an unsigned number of at most `i64::MAX`, or `-`
/// and the digits of one of at most `-i64::MIN`.
pub open spec fn signed(s: Seq<char>) -> Option<int> {
    if s.len() > 0 && s.first() == '-' {
        let digits = s.drop_first();
        if digits.len() > 0 && all_digits(digits) && decimal_value(digits) <= -i64::MIN {
            Some(-decimal_value(digits))
        } else {
            None
        }
    } else {
        match unsigned(s, i64::MAX as nat) {
            Some(n) => Some(n as int),
            None => None,
        }
    }
}

proof fn lemma_decimal_value_grows(s: Seq<char>, i: int)
    requires
        0 <= i <= s.len(),
        all_digits(s),
    ensures
        decimal_value(s.take(i)) <= decimal_value(s),
    decreases s.len(),
{
    if i < s.len() {
        lemma_decimal_value_grows(s.drop_last(), i);
        assert(s.drop_last().take(i) =~= s.take(i));
    } else {
        assert(s.take(i) =~= s);
    }
}

/// The number written by the digits from position `from` on, if there is at
/// least one, nothing else follows and the number is at most `max`.
fn digits_from(chars: &[char], from: usize, max: u64) -> (n: Option<u64>)
    requires
        from <= chars@.len(),
    ensures
        ({
            let digits = chars@.skip(from as int);
            let good = digits.len() > 0 && all_digits(digits) && decimal_value(digits) <= max;
            &&& n is Some <==> good
            &&& good ==> n->0 == decimal_value(digits)
        }),
{
    let ghost digits = chars@.skip(from as int);
    if from == chars.len() {
        return None;
    }
    let mut n: u64 = 0;
    let mut i: usize = from;
    assert(digits.take(0) =~= Seq::empty());
    while i < chars.len()
        invariant
            from <= i <= chars@.len(),
            digits == chars@.skip(from as int),
            forall|j: int| 0 <= j < i - from ==> is_digit(#[trigger] digits[j]),
            n == decimal_value(digits.take(i - from)),
            n <= max,
        decreases chars@.len() - i,
    {
        let c: char = chars[i];
        assert(digits[i - from] == c);
        if !('0' <= c && c <= '9') {
            return None;
        }
        let d: u64 = c as u64 - '0' as u64;
        let ghost next = digits.take(i - from + 1);
        assert(next.drop_last() =~= digits.take(i - from));
        assert(decimal_value(next) == 10 * n + d);
        if n > max / 10 || d > max - n * 10 {
            proof {
                if all_digits(digits) {
                    lemma_decimal_value_grows(digits, i - from + 1);
                }
            }
            return None;
        }
        n = n * 10 + d;
        i += 1;
    }
    assert(digits.take(i - from) =~= digits);
    Some(n)
}

/// Reads an unsigned number of at most `max`.
pub fn read_unsigned(chars: &[char], max: u64) -> (n: Option<u64>)
    ensures
        n is Some <==> unsigned(chars@, max as nat) is Some,
        n is Some ==> n->0 == unsigned(chars@, max as nat)->0,
{
    assert(chars@.skip(0) =~= chars@);
    if chars.len() > 0 && chars[0] == '+' {
        assert(chars@.skip(1) =~= chars@.drop_first());
        digits_from(chars, 1, max)
    } else {
        digits_from(chars, 0, max)
    }
}

/// Reads a number with an optional sign.
pub fn read_signed(chars: &[char]) -> (n: Option<i64>)
    ensures
        n is Some <==> signed(chars@) is Some,
        n is Some ==> n->0 == signed(chars@)->0,
{
    if chars.len() > 0 && chars[0] == '-' {
        assert(chars@.skip(1) =~= chars@.drop_first());
        match digits_from(chars, 1, 0x8000_0000_0000_0000) {
            Some(n) => Some((-(n as i128)) as i64),
            None => None,
        }
    } else {
        match read_unsigned(chars, i64::MAX as u64) {
            Some(n) => Some(n as i64),
            None => None,
        }
    }
}

/// Whether `needle` stands in `text` at position `at`.
pub open spec fn occurs_at(text: Seq<char>, needle: Seq<char>, at: int) -> bool {
    &&& 0 <= at
    &&& at + needle.len() <= text.len()
    &&& text.subrange(at, at + needle.len()) == needle
}

/// The first position, from `from` on, where `needle` stands in `text`.
pub open spec fn found_from(text: Seq<char>, needle: Seq<char>, from: int) -> Option<int>
    decreases text.len() - from + 1,
{
    if from + needle.len() > text.len() {
        None
    } else if occurs_at(text, needle, from) {
        Some(from)
    } else {
        found_from(text, needle, from + 1)
    }
}

/// The first position where `needle` stands in `text`.
pub open spec fn found(text: Seq<char>, needle: Seq<char>) -> Option<int> {
    found_from(text, needle, 0)
}

/// A position that is found is the first where the needle stands; where none is
/// found the needle stands nowhere.
pub proof fn lemma_found_from(text: Seq<char>, needle: Seq<char>, from: int)
    requires
        0 <= from,
    ensures
        found_from(text, needle, from) is Some ==> {
            &&& from <= found_from(text, needle, from)->0
            &&& occurs_at(text, needle, found_from(text, needle, from)->0)
            &&& forall|i: int|
                from <= i < found_from(text, needle, from)->0 ==> !#[trigger] occurs_at(
                    text,
                    needle,
                    i,
                )
        },
        found_from(text, needle, from) is None ==> forall|i: int|
            from <= i ==> !#[trigger] occurs_at(text, needle, i),
    decreases text.len() - from + 1,
{
    if from + needle.len() <= text.len() && !occurs_at(text, needle, from) {
        lemma_found_from(text, needle, from + 1);
    }
}

fn stands_at(text: &[char], needle: &[char], at: usize) -> (b: bool)
    requires
        at + needle@.len() <= text@.len(),
    ensures
        b == occurs_at(text@, needle@, at as int),
{
    let mut i: usize = 0;
    let len: usize = text.len();
    while i < needle.len()
        invariant
            i <= needle@.len(),
            at + needle@.len() <= text@.len() == len,
            forall|j: int| 0 <= j < i ==> text@[at + j] == needle@[j],
        decreases needle@.len() - i,
    {
        if text[at + i] != needle[i] {
            assert(text@.subrange(at as int, at + needle@.len())[i as int] != needle@[i as int]);
            return false;
        }
        i += 1;
    }
    assert(text@.subrange(at as int, at + needle@.len()) =~= needle@);
    true
}

/// Looks for `needle` in `text` from position `from` on.
pub fn find_from(text: &[char], needle: &[char], from: usize) -> (at: Option<usize>)
    requires
        from <= text@.len(),
    ensures
        at is Some <==> found_from(text@, needle@, from as int) is Some,
        at is Some ==> at->0 == found_from(text@, needle@, from as int)->0,
        at is Some ==> from <= at->0 && at->0 + needle@.len() <= text@.len(),
{
    let mut i: usize = from;
    while i <= text.len() && needle.len() <= text.len() - i
        invariant
            from <= i <= text@.len() + 1,
            found_from(text@, needle@, from as int) == found_from(text@, needle@, i as int),
        decreases text@.len() + 1 - i,
    {
        if stands_at(text, needle, i) {
            return Some(i);
        }
        if i == text.len() {
            assert(needle@.len() == 0);
            assert(text@.subrange(i as int, i as int) =~= needle@);
            return None;
        }
        i += 1;
    }
    None
}

/// `text` with every occurrence of `old_part` replaced by `new_part`, from left
/// to right, no character being used twice.
pub open spec fn replaced(text: Seq<char>, old_part: Seq<char>, new_part: Seq<char>) -> Seq<char>
    decreases text.len(),
{
    if old_part.len() == 0 {
        text
    } else {
        match found(text, old_part) {
            None => text,
            Some(at) => {
                proof {
                    lemma_found_from(text, old_part, 0);
                }
                text.take(at) + new_part + replaced(
                    text.skip(at + old_part.len()),
                    old_part,
                    new_part,
                )
            },
        }
    }
}

proof fn lemma_found_in_rest(text: Seq<char>, needle: Seq<char>, skip: int, from: int)
    requires
        0 <= skip <= text.len(),
        0 <= from,
    ensures
        found_from(text.skip(skip), needle, from) is Some <==> found_from(
            text,
            needle,
            skip + from,
        ) is Some,
        found_from(text.skip(skip), needle, from) is Some ==> found_from(
            text.skip(skip),
            needle,
            from,
        )->0 + skip == found_from(text, needle, skip + from)->0,
    decreases text.len() - skip - from + 1,
{
    let rest = text.skip(skip);
    if from + needle.len() <= rest.len() {
        assert(rest.subrange(from, from + needle.len()) =~= text.subrange(
            skip + from,
            skip + from + needle.len(),
        ));
        if !occurs_at(rest, needle, from) {
            lemma_found_in_rest(text, needle, skip, from + 1);
        }
    }
}

fn push_all(out: &mut Vec<char>, chars: &[char], from: usize, to: usize)
    requires
        from <= to <= chars@.len(),
    ensures
        final(out)@ == old(out)@ + chars@.subrange(from as int, to as int),
{
    let mut i: usize = from;
    let ghost before = out@;
    while i < to
        invariant
            from <= i <= to <= chars@.len(),
            out@ == before + chars@.subrange(from as int, i as int),
        decreases to - i,
    {
        out.push(chars[i]);
        i += 1;
        assert(chars@.subrange(from as int, i as int) =~= chars@.subrange(
            from as int,
            i - 1,
        ).push(chars@[i - 1]));
    }
}

/// Replaces every occurrence of `old_part` by `new_part`.
pub fn replace(text: &[char], old_part: &[char], new_part: &[char]) -> (out: Vec<char>)
    requires
        old_part@.len() > 0,
    ensures
        out@ == replaced(text@, old_part@, new_part@),
{
    let mut out: Vec<char> = Vec::new();
    let mut done: usize = 0;
    let len: usize = text.len();
    assert(text@.skip(0) =~= text@);
    loop
        invariant
            old_part@.len() > 0,
            done <= text@.len() == len,
            replaced(text@, old_part@, new_part@) == out@ + replaced(
                text@.skip(done as int),
                old_part@,
                new_part@,
            ),
        decreases text@.len() - done,
    {
        let ghost rest = text@.skip(done as int);
        let ghost before = out@;
        proof {
            lemma_found_in_rest(text@, old_part@, done as int, 0);
        }
        match find_from(text, old_part, done) {
            None => {
                push_all(&mut out, text, done, text.len());
                assert(text@.subrange(done as int, text@.len() as int) =~= rest);
                return out;
            },
            Some(at) => {
                push_all(&mut out, text, done, at);
                push_all(&mut out, new_part, 0, new_part.len());
                assert(new_part@.subrange(0, new_part@.len() as int) =~= new_part@);
                let ghost start = done as int;
                assert(text@.subrange(start, at as int) =~= rest.take(at - start));
                done = at + old_part.len();
                assert(rest.skip(at - start + old_part@.len()) =~= text@.skip(done as int));
                assert(out@ + replaced(text@.skip(done as int), old_part@, new_part@) =~= before + (
                rest.take(at - start) + new_part@ + replaced(
                    text@.skip(done as int),
                    old_part@,
                    new_part@,
                )));
            },
        }
    }
}

/// The digit that stands for a number below ten.
pub open spec fn digit(d: nat) -> char {
    ('0' as int + d) as char
}

/// A number in base ten, without leading zeros.
pub open spec fn decimal(n: nat) -> Seq<char>
    decreases n,
{
    if n < 10 {
        seq![digit(n)]
    } else {
        decimal(n / 10).push(digit(n % 10))
    }
}

/// What a number is written as is read as that number.
pub proof fn lemma_decimal(n: nat)
    ensures
        decimal(n).len() > 0,
        all_digits(decimal(n)),
        decimal_value(decimal(n)) == n,
    decreases n,
{
    if n < 10 {
        assert(decimal(n).drop_last() =~= Seq::empty());
        assert(decimal_value(Seq::<char>::empty()) == 0);
    } else {
        lemma_decimal(n / 10);
        assert(decimal(n).drop_last() =~= decimal(n / 10));
    }
}

/// Writes a number in base ten.
pub fn write_decimal(n: u64) -> (chars: Vec<char>)
    ensures
        chars@ == decimal(n as nat),
    decreases n,
{
    let last: char = ((n % 10) as u8 + 48) as char;
    if n < 10 {
        let mut chars: Vec<char> = Vec::new();
        chars.push(last);
        assert(chars@ =~= decimal(n as nat));
        chars
    } else {
        let mut chars: Vec<char> = write_decimal(n / 10);
        chars.push(last);
        chars
    }
}

/// Pieces without separators that are joined by separators are split again into
/// those pieces.
pub proof fn law_joined_is_split_back(pieces: Seq<Seq<char>>, sep: char)
    requires
        pieces.len() > 0,
        forall|i: int| 0 <= i < pieces.len() ==> !(#[trigger] pieces[i]).contains(sep),
    ensures
        split(joined(pieces, sep), sep) == pieces,
    decreases pieces.len(),
{
    let rest = pieces.drop_last();
    let last = pieces[pieces.len() - 1];
    lemma_split_single(last, sep);
    if pieces.len() > 1 {
        assert forall|i: int| 0 <= i < rest.len() implies !(#[trigger] rest[i]).contains(sep) by {
            assert(rest[i] == pieces[i]);
        }
        law_joined_is_split_back(rest, sep);
        lemma_split_around(joined(rest, sep), last, sep);
        assert(rest + seq![last] =~= pieces);
    } else {
        assert(seq![last] =~= pieces);
    }
}

proof fn lemma_trim_start(s: Seq<char>) -> (from: int)
    ensures
        0 <= from <= s.len(),
        trim_start(s) == s.skip(from),
        forall|i: int| 0 <= i < from ==> is_space(#[trigger] s[i]),
        from < s.len() ==> !is_space(s[from]),
    decreases s.len(),
{
    if s.len() > 0 && is_space(s.first()) {
        let rest = s.drop_first();
        let from = lemma_trim_start(rest);
        assert(rest.skip(from) =~= s.skip(from + 1));
        assert forall|i: int| 0 <= i < from + 1 implies is_space(#[trigger] s[i]) by {
            if i > 0 {
                assert(s[i] == rest[i - 1]);
            }
        }
        from + 1
    } else {
        assert(s.skip(0) =~= s);
        0
    }
}

proof fn lemma_trim_end(s: Seq<char>) -> (to: int)
    ensures
        0 <= to <= s.len(),
        trim_end(s) == s.take(to),
        forall|i: int| to <= i < s.len() ==> is_space(#[trigger] s[i]),
        to > 0 ==> !is_space(s[to - 1]),
    decreases s.len(),
{
    if s.len() > 0 && is_space(s.last()) {
        let rest = s.drop_last();
        let to = lemma_trim_end(rest);
        assert(rest.take(to) =~= s.take(to));
        assert forall|i: int| to <= i < s.len() implies is_space(#[trigger] s[i]) by {
            if i < rest.len() {
                assert(s[i] == rest[i]);
            }
        }
        to
    } else {
        assert(s.take(s.len() as int) =~= s);
        s.len() as int
    }
}

/// Trimming takes white space alone, from the two ends alone, and all of it there.
pub proof fn law_trimmed(s: Seq<char>) -> (ends: (int, int))
    ensures
        ({
            let (from, to) = ends;
            &&& 0 <= from <= to <= s.len()
            &&& trimmed(s) == s.subrange(from, to)
            &&& forall|i: int| 0 <= i < from || to <= i < s.len() ==> is_space(#[trigger] s[i])
            &&& from < to ==> !is_space(s[from]) && !is_space(s[to - 1])
        }),
{
    let from = lemma_trim_start(s);
    let lead = s.skip(from);
    let len = lemma_trim_end(lead);
    assert(lead.take(len) =~= s.subrange(from, from + len));
    assert forall|i: int| 0 <= i < from || from + len <= i < s.len() implies is_space(
        #[trigger] s[i],
    ) by {
        if i >= from {
            assert(lead[i - from] == s[i]);
        }
    }
    if len > 0 {
        assert(lead[0] == s[from]);
        assert(lead[len - 1] == s[from + len - 1]);
    }
    (from, from + len)
}

/// White space is the tab and the four characters behind it, the blank, and the
/// others that Unicode names; no digit, sign, comma or slash is any.
pub proof fn law_white_space(c: char)
    ensures
        is_space(c) <==> set![
            0x9int, 0xa, 0xb, 0xc, 0xd, 0x20, 0x85, 0xa0, 0x1680, 0x2000, 0x2001, 0x2002, 0x2003,
            0x2004, 0x2005, 0x2006, 0x2007, 0x2008, 0x2009, 0x200a, 0x2028, 0x2029, 0x202f, 0x205f,
            0x3000
        ].contains(c as int),
        is_digit(c) || c == '+' || c == '-' || c == ',' || c == '/' ==> !is_space(c),
{
}

/// A text of digits is worth what its front is worth, moved up by as many places as
/// its back has, and what its back is worth; a digit is worth its distance from zero.
pub proof fn law_places_of_digits(s: Seq<char>, t: Seq<char>)
    requires
        all_digits(s),
        all_digits(t),
    ensures
        decimal_value(s + t) == decimal_value(s) * pow(10, t.len()) + decimal_value(t),
        t.len() == 1 ==> decimal_value(t) == t[0] as int - '0' as int,
        t.len() == 0 ==> decimal_value(t) == 0,
    decreases t.len(),
{
    if t.len() == 0 {
        assert(s + t =~= s);
        lemma_pow0(10);
        assert(decimal_value(s) * 1 == decimal_value(s)) by (nonlinear_arith);
    } else {
        let rest = t.drop_last();
        law_places_of_digits(s, rest);
        assert((s + t).drop_last() =~= s + rest);
        assert((s + t).last() == t.last());
        assert(is_digit(t[t.len() - 1]));
        assert(pow(10, t.len()) == 10 * pow(10, rest.len())) by {
            reveal(pow);
        }
        let v = decimal_value(s) as int;
        let p = pow(10, rest.len());
        assert(10 * (v * p) == v * (10 * p)) by (nonlinear_arith);
        if t.len() == 1 {
            assert(rest.len() == 0);
            assert(decimal_value(rest) == 0);
        }
    }
}

/// A number is written in digits of which the first is not zero, but for zero
/// itself; below ten it is one digit, and one more place is one more digit.
pub proof fn law_decimal_is_shortest(n: nat)
    ensures
        n > 0 ==> decimal(n)[0] != '0',
        n < 10 ==> decimal(n).len() == 1,
        decimal(10 * n + 7).len() == if n == 0 {
            1
        } else {
            decimal(n).len() + 1
        },
    decreases n,
{
    if n >= 10 {
        law_decimal_is_shortest(n / 10);
        lemma_decimal(n / 10);
        assert(decimal(n)[0] == decimal(n / 10)[0]);
    }
}

/// A written number is read as that number if it is not too large, also with a plus
/// before it; as a signed number also with a minus before it.
pub proof fn law_written_number_is_read(n: nat, max: nat)
    ensures
        n <= max ==> unsigned(decimal(n), max) == Some(n),
        n <= max ==> unsigned(seq!['+'] + decimal(n), max) == Some(n),
        n > max ==> unsigned(decimal(n), max) is None,
        n > max ==> unsigned(seq!['+'] + decimal(n), max) is None,
        n <= i64::MAX ==> signed(decimal(n)) == Some(n as int),
        n > i64::MAX ==> signed(decimal(n)) is None,
        n <= -(i64::MIN as int) ==> signed(seq!['-'] + decimal(n)) == Some(-(n as int)),
        n > -(i64::MIN as int) ==> signed(seq!['-'] + decimal(n)) is None,
        unsigned(seq!['-'] + decimal(n), max) is None,
{
    lemma_decimal(n);
    let digits = decimal(n);
    assert(is_digit(digits[0]));
    let plus = seq!['+'] + digits;
    let minus = seq!['-'] + digits;
    assert(plus.drop_first() =~= digits);
    assert(minus.drop_first() =~= digits);
    assert(!is_digit(minus[0]));
    assert(!all_digits(minus));
}

/// A text is no number if it has no digit, or anything but digits behind its sign.
pub proof fn law_other_texts_are_no_numbers(s: Seq<char>, max: nat, i: int)
    ensures
        s.len() == 0 ==> unsigned(s, max) is None && signed(s) is None,
        s == seq!['+'] || s == seq!['-'] ==> unsigned(s, max) is None && signed(s) is None,
        0 <= i < s.len() && !is_digit(s[i]) && i > 0 ==> unsigned(s, max) is None && signed(
            s,
        ) is None,
        s.len() > 0 && !is_digit(s[0]) && s[0] != '+' ==> unsigned(s, max) is None,
        s.len() > 0 && !is_digit(s[0]) && s[0] != '+' && s[0] != '-' ==> signed(s) is None,
{
    if s.len() > 0 {
        let rest = s.drop_first();
        if 0 < i < s.len() {
            assert(rest[i - 1] == s[i]);
        }
        if s == seq!['+'] || s == seq!['-'] {
            assert(rest.len() == 0);
        }
    }
}

/// Replacing a part by itself changes nothing.
pub proof fn law_replacing_by_itself(text: Seq<char>, part: Seq<char>)
    requires
        part.len() > 0,
    ensures
        replaced(text, part, part) == text,
    decreases text.len(),
{
    lemma_found_from(text, part, 0);
    if let Some(at) = found(text, part) {
        let rest = text.skip(at + part.len());
        law_replacing_by_itself(rest, part);
        assert(text =~= text.take(at) + part + rest);
    }
}

/// Replacing what is not there changes nothing; what stands before the first
/// occurrence stays, and what stands behind it is treated alike.
pub proof fn law_replacing(
    text: Seq<char>,
    old_part: Seq<char>,
    new_part: Seq<char>,
    at: int,
)
    requires
        old_part.len() > 0,
    ensures
        (forall|i: int| !#[trigger] occurs_at(text, old_part, i)) ==> replaced(
            text,
            old_part,
            new_part,
        ) == text,
        occurs_at(text, old_part, at) && (forall|i: int|
            0 <= i < at ==> !#[trigger] occurs_at(text, old_part, i)) ==> replaced(
            text,
            old_part,
            new_part,
        ) == text.take(at) + new_part + replaced(
            text.skip(at + old_part.len()),
            old_part,
            new_part,
        ),
{
    lemma_found_from(text, old_part, 0);
    if let Some(first) = found(text, old_part) {
        assert(occurs_at(text, old_part, first));
        if occurs_at(text, old_part, at) && (forall|i: int|
            0 <= i < at ==> !#[trigger] occurs_at(text, old_part, i)) {
            assert(at == first);
        }
    } else {
        assert(!occurs_at(text, old_part, at));
    }
}

} // verus!
