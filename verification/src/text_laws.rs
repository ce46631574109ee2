//! What the operations on texts are for.

use crate::text::{
    decimal, digit, digits_value, is_white, joined, lines_of, parsed_u64, position,
    text_lt, trimmed, trimmed_end, trimmed_start, unsigned_digits,
};
use vstd::prelude::*;

verus! {

/// All characters of `s` are white space.
pub open spec fn all_white(s: Seq<char>) -> bool {
    forall|i: int| 0 <= i < s.len() ==> is_white(#[trigger] s[i])
}

/// All characters of `s` are decimal digits.
pub open spec fn all_digits(s: Seq<char>) -> bool {
    forall|i: int| 0 <= i < s.len() ==> '0' <= #[trigger] s[i] <= '9'
}

/// Digits stand for a number by their places: one more digit behind them makes it ten times as
/// large, and adds the digit's own value.  Nothing but digits stands for a number.
pub proof fn law_digits_count_by_place(digits: Seq<char>, last: char)
    ensures
        digits_value(Seq::empty()) == Some(0int),
        all_digits(digits) <==> digits_value(digits) is Some,
        all_digits(digits) && '0' <= last <= '9' ==> digits_value(digits.push(last)) == Some(
            digits_value(digits)->0 * 10 + (last as int - '0' as int),
        ),
    decreases digits.len(),
{
    assert(digits.push(last).drop_last() =~= digits);
    if digits.len() > 0 {
        let init = digits.drop_last();
        law_digits_count_by_place(init, last);
        if all_digits(digits) {
            assert forall|i: int| 0 <= i < init.len() implies '0' <= #[trigger] init[i] <= '9' by {
                assert(init[i] == digits[i]);
            }
            assert('0' <= digits[digits.len() - 1] <= '9');
        } else {
            let i = choose|i: int| 0 <= i < digits.len() && !('0' <= #[trigger] digits[i] <= '9');
            if i < init.len() {
                assert(init[i] == digits[i]);
            }
        }
    }
}

/// A number in decimal is made of digits that stand for it, the first of which is no zero where
/// there are more.
pub proof fn law_decimal_stands_for_the_number(n: nat)
    ensures
        decimal(n).len() > 0,
        all_digits(decimal(n)),
        digits_value(decimal(n)) == Some(n as int),
        decimal(n).len() > 1 ==> decimal(n)[0] != '0',
        n > 0 ==> decimal(n)[0] != '0',
    decreases n,
{
    if n < 10 {
        law_digits_count_by_place(Seq::empty(), digit(n));
        assert(decimal(n) =~= Seq::<char>::empty().push(digit(n)));
    } else {
        law_decimal_stands_for_the_number(n / 10);
        law_digits_count_by_place(decimal(n / 10), digit(n % 10));
    }
}

/// Different numbers differ in decimal.
pub proof fn law_decimals_differ(a: nat, b: nat)
    requires
        decimal(a) == decimal(b),
    ensures
        a == b,
{
    law_decimal_stands_for_the_number(a);
    law_decimal_stands_for_the_number(b);
}

/// A text of digits that stand for a number of 64 bits is read as that number, with a plus sign
/// before it or without; nothing else is read as a number.
pub proof fn law_numbers_are_read(digits: Seq<char>, text: Seq<char>)
    ensures
        digits.len() > 0 && all_digits(digits) && digits_value(digits)->0 <= u64::MAX ==> parsed_u64(
            digits,
        ) == Some(digits_value(digits)->0 as u64) && parsed_u64(seq!['+'] + digits) == Some(
            digits_value(digits)->0 as u64,
        ),
        parsed_u64(text) matches Some(n) ==> exists|rest: Seq<char>|
            (text == rest || text == seq!['+'] + rest) && rest.len() > 0 && #[trigger] all_digits(
                rest,
            ) && digits_value(rest) == Some(n as int),
{
    law_digits_count_by_place(digits, '0');
    assert((seq!['+'] + digits).drop_first() =~= digits);
    if digits.len() > 0 && all_digits(digits) {
        assert(digits[0] != '+');
        lemma_digits_not_negative(digits);
    }
    if parsed_u64(text) is Some {
        let rest = unsigned_digits(text);
        law_digits_count_by_place(rest, '0');
        assert(all_digits(rest));
        if text.len() > 0 && text[0] == '+' {
            assert(text =~= seq!['+'] + rest);
        }
    }
}

pub(crate) proof fn lemma_digits_not_negative(digits: Seq<char>)
    ensures
        digits_value(digits) matches Some(n) ==> n >= 0,
    decreases digits.len(),
{
    if digits.len() > 0 {
        lemma_digits_not_negative(digits.drop_last());
    }
}

/// A search finds the first place at which the pattern stands, and no place only where there is
/// none.
pub proof fn law_first_place_is_found(s: Seq<char>, pattern: Seq<char>, from: int, at: int)
    requires
        0 <= from <= at,
        at + pattern.len() <= s.len(),
        s.subrange(at, at + pattern.len()) == pattern,
        forall|j: int|
            from <= j < at ==> #[trigger] s.subrange(j, j + pattern.len() as int) != pattern,
    ensures
        position(s, pattern, from) == Some(at),
    decreases at - from,
{
    if from < at {
        assert(s.subrange(from, from + pattern.len() as int) != pattern);
        law_first_place_is_found(s, pattern, from + 1, at);
    }
}

proof fn lemma_white_start(white: Seq<char>, rest: Seq<char>)
    requires
        all_white(white),
        rest.len() == 0 || !is_white(rest[0]),
    ensures
        trimmed_start(white + rest) == rest,
    decreases white.len(),
{
    let s = white + rest;
    if white.len() > 0 {
        assert(s[0] == white[0]);
        assert(s.drop_first() =~= white.drop_first() + rest);
        lemma_white_start(white.drop_first(), rest);
    } else {
        assert(s =~= rest);
    }
}

/// Trimming the end takes all white space off it, and nothing else.
pub proof fn law_trimming_the_end_takes_white_space_off(rest: Seq<char>, white: Seq<char>)
    requires
        all_white(white),
        rest.len() == 0 || !is_white(rest.last()),
    ensures
        trimmed_end(rest + white) == rest,
    decreases white.len(),
{
    let s = rest + white;
    if white.len() > 0 {
        assert(s.last() == white[white.len() - 1]);
        assert(s.drop_last() =~= rest + white.drop_last());
        law_trimming_the_end_takes_white_space_off(rest, white.drop_last());
    } else {
        assert(s =~= rest);
    }
}

/// Trimming takes all white space off either end, and nothing else.
pub proof fn law_trimming_takes_white_space_off(
    before: Seq<char>,
    middle: Seq<char>,
    after: Seq<char>,
)
    requires
        all_white(before),
        all_white(after),
        middle.len() == 0 || (!is_white(middle[0]) && !is_white(middle.last())),
    ensures
        trimmed(before + middle + after) == middle,
{
    law_trimming_the_end_takes_white_space_off(middle, after);
    if middle.len() == 0 {
        let s = before + middle + after;
        assert(all_white(s));
        lemma_white_start(s, Seq::empty());
        assert(s + Seq::<char>::empty() =~= s);
        assert(trimmed_start(s) =~= Seq::empty());
        assert(middle =~= Seq::empty());
    } else {
        assert(before + middle + after =~= before + (middle + after));
        lemma_white_start(before, middle + after);
    }
}

/// Joined texts stand in order with the separator between each two of them.
pub proof fn law_joining_puts_separators_between(
    a: Seq<Seq<char>>,
    b: Seq<Seq<char>>,
    single: Seq<char>,
    separator: Seq<char>,
)
    ensures
        joined(Seq::empty(), separator) == Seq::<char>::empty(),
        joined(seq![single], separator) == single,
        a.len() > 0 && b.len() > 0 ==> joined(a + b, separator) == joined(a, separator) + separator
            + joined(b, separator),
    decreases b.len(),
{
    if a.len() > 0 && b.len() > 0 {
        let s = a + b;
        assert(s.last() == b.last());
        assert(s.drop_last() =~= a + b.drop_last());
        if b.len() == 1 {
            assert(a + b.drop_last() =~= a);
        } else {
            law_joining_puts_separators_between(a, b.drop_last(), single, separator);
            assert(joined(s, separator) =~= joined(a, separator) + separator + joined(
                b,
                separator,
            ));
        }
    }
}

/// A line ends at its line feed, with a carriage return right before it or without, and the lines
/// after it are those of the rest; what stands behind the last line feed is a line if it is not
/// empty.
pub proof fn law_lines_end_at_line_feeds(line: Seq<char>, rest: Seq<char>)
    requires
        !line.contains('\n'),
    ensures
        (line.len() == 0 || line.last() != '\r') ==> lines_of(line + seq!['\n'] + rest) == seq![line]
            + lines_of(rest) && lines_of(line + seq!['\r', '\n'] + rest) == seq![line] + lines_of(
            rest,
        ),
        line.len() > 0 ==> lines_of(line) == seq![line],
        lines_of(Seq::empty()) == Seq::<Seq<char>>::empty(),
{
    lemma_no_line_feed(line, 0);
    lemma_no_line_feed(Seq::empty(), 0);
    let plain = line + seq!['\n'] + rest;
    lemma_line_feed(line, rest);
    assert(plain.take(line.len() as int) =~= line);
    assert(plain.skip(line.len() as int + 1) =~= rest);
    let returned = line.push('\r');
    assert forall|i: int| 0 <= i < returned.len() implies returned[i] != '\n' by {
        if i < line.len() {
            assert(line.contains(line[i]));
        }
    }
    lemma_line_feed(returned, rest);
    let full = returned + seq!['\n'] + rest;
    assert(full =~= line + seq!['\r', '\n'] + rest);
    assert(full.take(returned.len() as int) =~= returned);
    assert(full.skip(returned.len() as int + 1) =~= rest);
    assert(returned.drop_last() =~= line);
}

proof fn lemma_no_line_feed(s: Seq<char>, from: int)
    requires
        !s.contains('\n'),
        0 <= from,
    ensures
        position(s, seq!['\n'], from) is None,
    decreases s.len() - from,
{
    if from + 1 <= s.len() {
        assert(s.subrange(from, from + 1)[0] == s[from]);
        assert(s.contains(s[from]));
        lemma_no_line_feed(s, from + 1);
    }
}

proof fn lemma_line_feed(line: Seq<char>, rest: Seq<char>)
    requires
        !line.contains('\n'),
    ensures
        position(line + seq!['\n'] + rest, seq!['\n'], 0) == Some(line.len() as int),
{
    let s = line + seq!['\n'] + rest;
    let feed = seq!['\n'];
    let at = line.len() as int;
    assert(s.subrange(at, at + feed.len()) =~= feed);
    assert forall|j: int| 0 <= j < at implies #[trigger] s.subrange(j, j + feed.len() as int)
        != feed by {
        assert(s.subrange(j, j + feed.len() as int)[0] == line[j]);
        assert(line.contains(line[j]));
    }
    law_first_place_is_found(s, feed, 0, at);
}

/// Texts are ordered by the first character in which they differ, and a text stands before every
/// longer one that it begins.
pub proof fn law_texts_are_ordered_by_first_difference(
    common: Seq<char>,
    c: char,
    a: Seq<char>,
    d: char,
    b: Seq<char>,
)
    requires
        c < d,
    ensures
        text_lt(common.push(c) + a, common.push(d) + b),
        text_lt(common, common.push(d) + b),
    decreases common.len(),
{
    let low = common.push(c) + a;
    let high = common.push(d) + b;
    if common.len() > 0 {
        let rest = common.drop_first();
        law_texts_are_ordered_by_first_difference(rest, c, a, d, b);
        assert(low.drop_first() =~= rest.push(c) + a);
        assert(high.drop_first() =~= rest.push(d) + b);
    }
}

} // verus!
