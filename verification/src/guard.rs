//! Which jq expressions are evaluated.
//!
//! The evaluator can end the process, panic or go on for ever, by what an expression calls and by
//! the integers that it computes with.  [`comes_back`] is a test on the text of an expression and
//! on the integers of its input that leaves such evaluations out.  It leaves out more than it
//! must: it goes by words and characters, not by what they are applied to.

use crate::json::{lemma_array_view, lemma_object_view, Json, JsonView, Number, NumberView};
use crate::strmap::{entry_views, lemma_value_smaller};
use crate::text::{chars_of, stands_at};
use crate::views::views;
use vstd::prelude::*;

verus! {

/// The most sums that an expression may hold: a sum is at most twice as large as the larger of
/// its operands, so an integer grows by no more than this many bits.
pub const MOST_SUMS: usize = 15;

/// The largest integer, of either sign, in the input of an expression with sums.
pub const LARGEST: i64 = 0x7fff_ffff_ffff;

/// The most digits in a row of an expression with sums: the numbers so written are smaller than
/// [`LARGEST`].
pub const MOST_DIGITS: usize = 14;

/// The largest machine word of 64 bits.
pub const LARGEST_WORD: i64 = 0x7fff_ffff_ffff_ffff;

/// The delimiters that are open after `c` in code.
pub open spec fn opened(open: Seq<char>, c: char) -> Seq<char> {
    if c == '"' || c == '(' || c == '[' || c == '{' {
        open.push(c)
    } else if (c == ')' || c == ']' || c == '}') && open.len() > 0 {
        open.drop_last()
    } else {
        open
    }
}

/// The code of an expression of which `text` is left, where the delimiters `open` are open.  A
/// string is open where the last of them is a quote.
pub open spec fn bare_from(text: Seq<char>, open: Seq<char>) -> Seq<char>
    decreases text.len(),
{
    if text.len() == 0 {
        Seq::empty()
    } else if open.len() == 0 || open.last() != '"' {
        seq![text[0]] + bare_from(text.skip(1), opened(open, text[0]))
    } else if text[0] == '"' {
        seq!['"'] + bare_from(text.skip(1), open.drop_last())
    } else if text[0] == '\\' && text.len() > 1 {
        if text[1] == '(' {
            seq!['('] + bare_from(text.skip(2), open.push('('))
        } else {
            bare_from(text.skip(2), open)
        }
    } else {
        bare_from(text.skip(1), open)
    }
}

/// The code of an expression: its text without what stands in its strings, but with what is
/// interpolated there.
pub open spec fn bare(expression: Seq<char>) -> Seq<char> {
    bare_from(expression, Seq::empty())
}

/// Whether `c` may stand in a word.
pub open spec fn is_word_char(c: char) -> bool {
    ('a' <= c && c <= 'z') || ('A' <= c && c <= 'Z') || ('0' <= c && c <= '9') || c == '_'
}

/// Whether position `i` of the code lies in a word.
pub open spec fn in_word(code: Seq<char>, i: int) -> bool {
    0 <= i < code.len() && is_word_char(code[i])
}

/// Whether the whole word at position `i` is `word`, and neither names a member nor a variable.
pub open spec fn called_at(code: Seq<char>, word: Seq<char>, i: int) -> bool {
    &&& 0 <= i
    &&& i + word.len() <= code.len()
    &&& code.subrange(i, i + word.len()) == word
    &&& !in_word(code, i - 1)
    &&& !in_word(code, i + word.len() as int)
    &&& i > 0 ==> code[i - 1] != '.' && code[i - 1] != '$'
}

/// Whether the code calls `word`.
pub open spec fn calls(code: Seq<char>, word: Seq<char>) -> bool {
    exists|i: int| #[trigger] called_at(code, word, i)
}

/// Whether the code calls what ends the process.
pub open spec fn exits(code: Seq<char>) -> bool {
    calls(code, "halt"@) || calls(code, "halt_error"@)
}

/// Whether the code defines a function, or calls one that repeats what it is given: such
/// evaluations may go on for ever.
pub open spec fn may_loop(code: Seq<char>) -> bool {
    ||| calls(code, "def"@)
    ||| calls(code, "repeat"@)
    ||| calls(code, "recurse"@)
    ||| calls(code, "while"@)
    ||| calls(code, "until"@)
    ||| calls(code, "range"@)
}

/// Whether the code calls what panics on some input: the program from within itself, the
/// environment where it is not Unicode, a time by a malformed format, matches whose groups are
/// not in the order of the text, an order of numbers that is not total, and an imported variable
/// that nobody supplies.
pub open spec fn may_panic(code: Seq<char>) -> bool {
    ||| calls(code, "main"@)
    ||| calls(code, "env"@)
    ||| calls(code, "import"@)
    ||| calls(code, "strftime"@)
    ||| calls(code, "strflocaltime"@)
    ||| calls(code, "strptime"@)
    ||| calls(code, "test"@)
    ||| calls(code, "match"@)
    ||| calls(code, "matches"@)
    ||| calls(code, "scan"@)
    ||| calls(code, "capture"@)
    ||| calls(code, "sub"@)
    ||| calls(code, "gsub"@)
    ||| calls(code, "split_matches"@)
    ||| calls(code, "sort"@)
    ||| calls(code, "sort_by"@)
    ||| calls(code, "group_by"@)
    ||| calls(code, "unique"@)
    ||| calls(code, "unique_by"@)
}

/// Whether the code calls what computes with integers of any size, or makes integers of any size
/// out of something else.
pub open spec fn may_overflow(code: Seq<char>) -> bool {
    ||| calls(code, "add"@)
    ||| calls(code, "skip"@)
    ||| calls(code, "nth"@)
    ||| calls(code, "gmtime"@)
    ||| calls(code, "localtime"@)
    ||| calls(code, "mktime"@)
    ||| calls(code, "tonumber"@)
    ||| calls(code, "fromjson"@)
    ||| calls(code, "floor"@)
    ||| calls(code, "round"@)
    ||| calls(code, "ceil"@)
    ||| calls(code, "ilogb"@)
}

/// Whether the code may add to what the same sum gave.
pub open spec fn may_compound(code: Seq<char>) -> bool {
    ||| calls(code, "reduce"@)
    ||| calls(code, "foreach"@)
    ||| calls(code, "walk"@)
    ||| updates(code)
}

/// The number of sums in the code.
pub open spec fn sums(code: Seq<char>) -> nat
    decreases code.len(),
{
    if code.len() == 0 {
        0
    } else {
        sums(code.drop_last()) + if code.last() == '+' {
            1nat
        } else {
            0nat
        }
    }
}

/// Whether `c` separates words without a meaning of its own.
pub open spec fn is_blank(c: char) -> bool {
    c == ' ' || c == '\n' || c == '\t' || c == '\r'
}

/// The last character before position `i` of the code that is not blank.
pub open spec fn mark_before(code: Seq<char>, i: int) -> Option<char>
    decreases i,
{
    if i <= 0 || i > code.len() {
        None
    } else if is_blank(code[i - 1]) {
        mark_before(code, i - 1)
    } else {
        Some(code[i - 1])
    }
}

/// Whether a term, and no operator, has to follow `c`.
pub open spec fn opens_term(c: char) -> bool {
    c == '(' || c == '[' || c == ',' || c == ';' || c == ':' || c == '|' || c == '=' || c == '<'
        || c == '>' || c == '+' || c == '/'
}

/// Whether a minus at position `i` of the code belongs to a number.
pub open spec fn negates(code: Seq<char>, i: int) -> bool {
    &&& i + 1 < code.len()
    &&& is_digit(code[i + 1])
    &&& mark_before(code, i) matches Some(c) ==> opens_term(c)
}

/// Whether a minus at position `i` of the code may stand for a difference.
pub open spec fn subtracted_at(code: Seq<char>, i: int) -> bool {
    0 <= i < code.len() && code[i] == '-' && !negates(code, i)
}

/// Whether the code may hold a difference.
pub open spec fn subtracts(code: Seq<char>) -> bool {
    exists|i: int| #[trigger] subtracted_at(code, i)
}

/// Whether an equals sign at position `i` of the code makes an update.
pub open spec fn updated_at(code: Seq<char>, i: int) -> bool {
    &&& 0 < i < code.len()
    &&& code[i] == '='
    &&& code[i - 1] == '|' || code[i - 1] == '+' || code[i - 1] == '/'
}

/// Whether the code updates in place.
pub open spec fn updates(code: Seq<char>) -> bool {
    exists|i: int| #[trigger] updated_at(code, i)
}

/// Whether `c` is a digit.
pub open spec fn is_digit(c: char) -> bool {
    '0' <= c && c <= '9'
}

/// Whether more digits than [`MOST_DIGITS`] end before position `i` of the code.
pub open spec fn long_before(code: Seq<char>, i: int) -> bool {
    &&& MOST_DIGITS < i <= code.len()
    &&& forall|k: int| i - MOST_DIGITS - 1 <= k < i ==> is_digit(#[trigger] code[k])
}

/// Whether the code holds more digits in a row than [`MOST_DIGITS`].
pub open spec fn has_long_number(code: Seq<char>) -> bool {
    exists|i: int| #[trigger] long_before(code, i)
}

/// Whether every integer in `value` lies between `least` and `most`.  The text of another number
/// is told by its fraction or exponent.
pub open spec fn integers_within(value: JsonView, least: int, most: int) -> bool
    decreases value,
{
    match value {
        JsonView::Number(NumberView::PosInt(n)) => n <= most,
        JsonView::Number(NumberView::NegInt(n)) => least <= n,
        JsonView::Number(NumberView::Float(text)) => text.contains('.') || text.contains('e')
            || text.contains('E'),
        JsonView::Array(items) => forall|i: int|
            0 <= i < items.len() ==> integers_within(#[trigger] items[i], least, most),
        JsonView::Object(entries) => forall|i: int|
            0 <= i < entries.len() ==> integers_within((#[trigger] entries[i]).1, least, most),
        _ => true,
    }
}

/// Whether an evaluation of `expression` on `input` is sure to come back.
///
/// A comment is not told from code, a product of integers or a repetition of a string may be of
/// any size, the remainder of the least machine integer is not defined, and a difference of arrays
/// sorts by an order that is not total: an expression with their characters is left out.  The
/// least machine integer has no opposite, so no input may hold it.  Where there are sums, the
/// machine integers have to be of 64 bits and the integers that the evaluation starts from small
/// enough for every sum to be one.
pub open spec fn comes_back(expression: Seq<char>, input: JsonView) -> bool {
    let code = bare(expression);
    &&& !exits(code)
    &&& !may_loop(code)
    &&& !may_panic(code)
    &&& !may_overflow(code)
    &&& !code.contains('#')
    &&& !code.contains('*')
    &&& !code.contains('%')
    &&& !subtracts(code)
    &&& if sums(code) == 0 {
        integers_within(input, isize::MIN + 1, u64::MAX as int)
    } else {
        &&& isize::MAX == LARGEST_WORD
        &&& sums(code) <= MOST_SUMS
        &&& !has_long_number(code)
        &&& !may_compound(code)
        &&& integers_within(input, -LARGEST, LARGEST as int)
    }
}

/// The code of an expression.
fn code_of(expression: &str) -> (code: Vec<char>)
    ensures
        code@ == bare(expression@),
{
    let text = chars_of(expression);
    let mut code: Vec<char> = Vec::new();
    let mut open: Vec<char> = Vec::new();
    let mut i: usize = 0;
    assert(text@.skip(0) =~= text@);
    assert(open@ =~= Seq::<char>::empty());
    assert(code@ + bare_from(text@.skip(0), open@) =~= bare(text@));
    while i < text.len()
        invariant
            i <= text@.len(),
            code@ + bare_from(text@.skip(i as int), open@) == bare(text@),
        decreases text.len() - i,
    {
        let c = text[i];
        let ghost left = text@.skip(i as int);
        let ghost held = open@;
        let ghost before = code@;
        assert(left[0] == c);
        assert(left.skip(1) =~= text@.skip(i + 1));
        if open.len() == 0 || open[open.len() - 1] != '"' {
            code.push(c);
            if c == '"' || c == '(' || c == '[' || c == '{' {
                open.push(c);
            } else if (c == ')' || c == ']' || c == '}') && open.len() > 0 {
                let _ = open.pop();
            }
            assert(open@ =~= opened(held, c));
            assert(before + bare_from(left, held) =~= code@ + bare_from(left.skip(1), open@));
            i = i + 1;
        } else if c == '"' {
            code.push(c);
            let _ = open.pop();
            assert(open@ =~= held.drop_last());
            assert(before + bare_from(left, held) =~= code@ + bare_from(left.skip(1), open@));
            i = i + 1;
        } else if c == '\\' && i + 1 < text.len() {
            assert(left[1] == text@[i + 1]);
            assert(left.skip(2) =~= text@.skip(i + 2));
            if text[i + 1] == '(' {
                code.push('(');
                open.push('(');
                assert(before + bare_from(left, held) =~= code@ + bare_from(
                    left.skip(2),
                    open@,
                ));
            }
            i = i + 2;
        } else {
            i = i + 1;
        }
    }
    assert(text@.skip(i as int) =~= Seq::<char>::empty());
    assert(code@ + bare_from(text@.skip(i as int), open@) =~= code@);
    code
}

/// Whether `c` may stand in a word.
fn is_word_character(c: char) -> (found: bool)
    ensures
        found == is_word_char(c),
{
    ('a' <= c && c <= 'z') || ('A' <= c && c <= 'Z') || ('0' <= c && c <= '9') || c == '_'
}

/// Whether the code calls `word`.
fn has_call(code: &Vec<char>, word: &str) -> (found: bool)
    ensures
        found == calls(code@, word@),
{
    let pattern = chars_of(word);
    let mut i: usize = 0;
    loop
        invariant
            i <= code@.len(),
            pattern@ == word@,
            forall|k: int| 0 <= k < i ==> !#[trigger] called_at(code@, word@, k),
        decreases code.len() - i,
    {
        let bound = i == 0 || (!is_word_character(code[i - 1]) && code[i - 1] != '.' && code[i - 1]
            != '$');
        if bound && stands_at(code, &pattern, i) {
            let end = i + pattern.len();
            if end == code.len() || !is_word_character(code[end]) {
                assert(called_at(code@, word@, i as int));
                return true;
            }
        }
        assert(!called_at(code@, word@, i as int));
        if i == code.len() {
            return false;
        }
        i = i + 1;
    }
}

/// Whether the code calls what does not come back on some input.
fn calls_what_may_not_return(code: &Vec<char>) -> (found: bool)
    ensures
        found == (exits(code@) || may_loop(code@) || may_panic(code@) || may_overflow(code@)),
{
    let ends = has_call(code, "halt") || has_call(code, "halt_error");
    let loops = has_call(code, "def") || has_call(code, "repeat") || has_call(code, "recurse")
        || has_call(code, "while") || has_call(code, "until") || has_call(code, "range");
    let panics = has_call(code, "main") || has_call(code, "env") || has_call(code, "import")
        || has_call(code, "strftime") || has_call(code, "strflocaltime") || has_call(code, "strptime") || has_call(code, "test")
        || has_call(code, "match") || has_call(code, "matches") || has_call(code, "scan")
        || has_call(code, "capture") || has_call(code, "sub") || has_call(code, "gsub")
        || has_call(code, "split_matches") || has_call(code, "sort") || has_call(code, "sort_by")
        || has_call(code, "group_by") || has_call(code, "unique") || has_call(code, "unique_by");
    let overflows = has_call(code, "add") || has_call(code, "skip") || has_call(code, "nth")
        || has_call(code, "gmtime") || has_call(code, "localtime") || has_call(code, "mktime")
        || has_call(code, "tonumber") || has_call(code, "fromjson") || has_call(code, "floor")
        || has_call(code, "round") || has_call(code, "ceil") || has_call(code, "ilogb");
    ends || loops || panics || overflows
}

/// Whether the code holds `c`.
fn has_char(code: &Vec<char>, c: char) -> (found: bool)
    ensures
        found == code@.contains(c),
{
    let mut i: usize = 0;
    while i < code.len()
        invariant
            i <= code@.len(),
            forall|k: int| 0 <= k < i ==> code@[k] != c,
        decreases code.len() - i,
    {
        if code[i] == c {
            return true;
        }
        i = i + 1;
    }
    false
}

/// The number of sums in the code.
fn count_sums(code: &Vec<char>) -> (count: usize)
    ensures
        count == sums(code@),
{
    let mut count: usize = 0;
    let mut i: usize = 0;
    while i < code.len()
        invariant
            count <= i <= code@.len(),
            count == sums(code@.take(i as int)),
        decreases code.len() - i,
    {
        assert(code@.take(i + 1).drop_last() =~= code@.take(i as int));
        if code[i] == '+' {
            count = count + 1;
        }
        i = i + 1;
    }
    assert(code@.take(i as int) =~= code@);
    count
}

/// The last character before position `i` of the code that is not blank.
fn last_mark(code: &Vec<char>, i: usize) -> (mark: Option<char>)
    requires
        i <= code@.len(),
    ensures
        mark == mark_before(code@, i as int),
{
    let mut at: usize = i;
    while at > 0
        invariant
            at <= i <= code@.len(),
            mark_before(code@, i as int) == mark_before(code@, at as int),
        decreases at,
    {
        let c = code[at - 1];
        if c != ' ' && c != '\n' && c != '\t' && c != '\r' {
            return Some(c);
        }
        at = at - 1;
    }
    None
}

/// Whether a minus at position `i` of the code belongs to a number.
fn is_negation(code: &Vec<char>, i: usize) -> (found: bool)
    requires
        i < code@.len(),
    ensures
        found == negates(code@, i as int),
{
    if code.len() - i < 2 || !('0' <= code[i + 1] && code[i + 1] <= '9') {
        return false;
    }
    match last_mark(code, i) {
        None => true,
        Some(c) => c == '(' || c == '[' || c == ',' || c == ';' || c == ':' || c == '|' || c == '='
            || c == '<' || c == '>' || c == '+' || c == '/',
    }
}

/// Whether the code may hold a difference.
fn has_difference(code: &Vec<char>) -> (found: bool)
    ensures
        found == subtracts(code@),
{
    let mut i: usize = 0;
    while i < code.len()
        invariant
            i <= code@.len(),
            forall|k: int| 0 <= k < i ==> !#[trigger] subtracted_at(code@, k),
        decreases code.len() - i,
    {
        if code[i] == '-' && !is_negation(code, i) {
            assert(subtracted_at(code@, i as int));
            return true;
        }
        i = i + 1;
    }
    false
}

/// Whether the code updates in place.
fn has_update(code: &Vec<char>) -> (found: bool)
    ensures
        found == updates(code@),
{
    let mut i: usize = 1;
    while i < code.len()
        invariant
            1 <= i,
            forall|k: int| 0 < k < i ==> !#[trigger] updated_at(code@, k),
        decreases code.len() - i,
    {
        let before = code[i - 1];
        if code[i] == '=' && (before == '|' || before == '+' || before == '/') {
            assert(updated_at(code@, i as int));
            return true;
        }
        i = i + 1;
    }
    false
}

/// Whether the code holds more digits in a row than it may.
fn has_long(code: &Vec<char>) -> (found: bool)
    ensures
        found == has_long_number(code@),
{
    let mut run: usize = 0;
    let mut i: usize = 0;
    while i < code.len()
        invariant
            run <= i <= code@.len(),
            run <= MOST_DIGITS,
            forall|k: int| i - run <= k < i ==> is_digit(#[trigger] code@[k]),
            run < i ==> !is_digit(code@[i - run - 1]),
            forall|k: int| 0 <= k <= i ==> !#[trigger] long_before(code@, k),
        decreases code.len() - i,
    {
        let c = code[i];
        if '0' <= c && c <= '9' {
            run = run + 1;
        } else {
            run = 0;
        }
        i = i + 1;
        if run > MOST_DIGITS {
            assert(long_before(code@, i as int));
            return true;
        }
        assert(!long_before(code@, i as int)) by {
            if long_before(code@, i as int) {
                assert(is_digit(code@[i - run - 1]));
            }
        }
    }
    false
}

/// What holds of the integers of an array or an object holds of those of its items.
proof fn lemma_item_within(value: JsonView, k: int, least: int, most: int)
    requires
        integers_within(value, least, most),
    ensures
        value is Array && 0 <= k < value->Array_0.len() ==> integers_within(
            value->Array_0[k],
            least,
            most,
        ),
        value is Object && 0 <= k < value->Object_0.len() ==> integers_within(
            value->Object_0[k].1,
            least,
            most,
        ),
{
    if value is Array && 0 <= k < value->Array_0.len() {
        let item = value->Array_0[k];
        assert(integers_within(item, least, most));
    }
    if value is Object && 0 <= k < value->Object_0.len() {
        let entry = value->Object_0[k];
        assert(integers_within(entry.1, least, most));
    }
}

/// Whether every integer in `value` lies between `least` and `most`.
fn has_integers_within(value: &Json, least: i64, most: u64) -> (within: bool)
    ensures
        within == integers_within(value@, least as int, most as int),
    decreases value,
{
    match value {
        Json::Number(Number::PosInt(n)) => *n <= most,
        Json::Number(Number::NegInt(n)) => least <= *n,
        Json::Number(Number::Float(text)) => {
            let text = chars_of(text.as_str());
            has_char(&text, '.') || has_char(&text, 'e') || has_char(&text, 'E')
        }
        Json::Array(items) => {
            proof {
                lemma_array_view(*items);
            }
            let mut i: usize = 0;
            while i < items.len()
                invariant
                    i <= items@.len(),
                    *value == Json::Array(*items),
                    value@ == JsonView::Array(views(items@)),
                    forall|k: int|
                        0 <= k < i ==> integers_within(
                            #[trigger] views(items@)[k],
                            least as int,
                            most as int,
                        ),
                decreases items.len() - i,
            {
                assert(decreases_to!(*value => value->Array_0));
                assert(views(items@)[i as int] == items@[i as int]@);
                if !has_integers_within(&items[i], least, most) {
                    proof {
                        if integers_within(value@, least as int, most as int) {
                            lemma_item_within(value@, i as int, least as int, most as int);
                        }
                    }
                    return false;
                }
                i = i + 1;
            }
            true
        }
        Json::Object(map) => {
            proof {
                lemma_object_view(*map);
            }
            let mut i: usize = 0;
            while i < map.len()
                invariant
                    i <= map@.len(),
                    *value == Json::Object(*map),
                    value@ == JsonView::Object(entry_views(map@)),
                    forall|k: int|
                        0 <= k < i ==> integers_within(
                            (#[trigger] entry_views(map@)[k]).1,
                            least as int,
                            most as int,
                        ),
                decreases map@.len() - i,
            {
                proof {
                    lemma_value_smaller(*map, i as int);
                    assert(decreases_to!(*value => value->Object_0));
                    assert(entry_views(map@)[i as int].1 == map@[i as int].1@);
                }
                if !has_integers_within(map.value_at(i), least, most) {
                    proof {
                        if integers_within(value@, least as int, most as int) {
                            lemma_item_within(value@, i as int, least as int, most as int);
                        }
                    }
                    return false;
                }
                i = i + 1;
            }
            true
        }
        _ => true,
    }
}

/// Whether an evaluation of `expression` on `input` is sure to come back.
pub fn is_sure_to_come_back(expression: &str, input: &Json) -> (sure: bool)
    ensures
        sure == comes_back(expression@, input@),
{
    let code = code_of(expression);
    if calls_what_may_not_return(&code) || has_char(&code, '#') || has_char(&code, '*')
        || has_char(&code, '%') || has_difference(&code) {
        return false;
    }
    let count = count_sums(&code);
    if count == 0 {
        let least = isize::MIN as i64;
        return has_integers_within(input, least + 1, u64::MAX);
    }
    if isize::MAX as i64 != LARGEST_WORD || count > MOST_SUMS || has_long(&code) {
        return false;
    }
    if has_call(&code, "reduce") || has_call(&code, "foreach") || has_call(&code, "walk")
        || has_update(&code) {
        return false;
    }
    has_integers_within(input, -LARGEST, LARGEST as u64)
}

/// Whether every word of the code names a member or a variable.
pub open spec fn only_names(code: Seq<char>) -> bool {
    forall|i: int|
        #[trigger] in_word(code, i) && !in_word(code, i - 1) ==> i > 0 && (code[i - 1] == '.'
            || code[i - 1] == '$')
}

proof fn lemma_no_call(code: Seq<char>, word: Seq<char>)
    requires
        only_names(code),
        word.len() > 0,
        is_word_char(word[0]),
    ensures
        !calls(code, word),
{
    if calls(code, word) {
        let i = choose|i: int| #[trigger] called_at(code, word, i);
        assert(code.subrange(i, i + word.len())[0] == code[i]);
        assert(in_word(code, i));
    }
}

/// A path through named members is evaluated on every input that does not hold the least machine
/// integer: so is every expression without sums and differences, products, remainders and
/// comments in which each word names a member or a variable.
pub proof fn law_paths_come_back(expression: Seq<char>, input: JsonView)
    requires
        only_names(bare(expression)),
        !bare(expression).contains('#'),
        !bare(expression).contains('*'),
        !bare(expression).contains('%'),
        !subtracts(bare(expression)),
        sums(bare(expression)) == 0,
        integers_within(input, isize::MIN + 1, u64::MAX as int),
    ensures
        comes_back(expression, input),
{
    let code = bare(expression);
    reveal_strlit("add");
    lemma_no_call(code, "add"@);
    reveal_strlit("capture");
    lemma_no_call(code, "capture"@);
    reveal_strlit("ceil");
    lemma_no_call(code, "ceil"@);
    reveal_strlit("def");
    lemma_no_call(code, "def"@);
    reveal_strlit("env");
    lemma_no_call(code, "env"@);
    reveal_strlit("floor");
    lemma_no_call(code, "floor"@);
    reveal_strlit("foreach");
    lemma_no_call(code, "foreach"@);
    reveal_strlit("fromjson");
    lemma_no_call(code, "fromjson"@);
    reveal_strlit("gmtime");
    lemma_no_call(code, "gmtime"@);
    reveal_strlit("group_by");
    lemma_no_call(code, "group_by"@);
    reveal_strlit("gsub");
    lemma_no_call(code, "gsub"@);
    reveal_strlit("halt");
    lemma_no_call(code, "halt"@);
    reveal_strlit("halt_error");
    lemma_no_call(code, "halt_error"@);
    reveal_strlit("ilogb");
    lemma_no_call(code, "ilogb"@);
    reveal_strlit("import");
    lemma_no_call(code, "import"@);
    reveal_strlit("localtime");
    lemma_no_call(code, "localtime"@);
    reveal_strlit("main");
    lemma_no_call(code, "main"@);
    reveal_strlit("match");
    lemma_no_call(code, "match"@);
    reveal_strlit("matches");
    lemma_no_call(code, "matches"@);
    reveal_strlit("mktime");
    lemma_no_call(code, "mktime"@);
    reveal_strlit("nth");
    lemma_no_call(code, "nth"@);
    reveal_strlit("range");
    lemma_no_call(code, "range"@);
    reveal_strlit("recurse");
    lemma_no_call(code, "recurse"@);
    reveal_strlit("reduce");
    lemma_no_call(code, "reduce"@);
    reveal_strlit("repeat");
    lemma_no_call(code, "repeat"@);
    reveal_strlit("round");
    lemma_no_call(code, "round"@);
    reveal_strlit("scan");
    lemma_no_call(code, "scan"@);
    reveal_strlit("skip");
    lemma_no_call(code, "skip"@);
    reveal_strlit("sort");
    lemma_no_call(code, "sort"@);
    reveal_strlit("sort_by");
    lemma_no_call(code, "sort_by"@);
    reveal_strlit("split_matches");
    lemma_no_call(code, "split_matches"@);
    reveal_strlit("strflocaltime");
    lemma_no_call(code, "strflocaltime"@);
    reveal_strlit("strftime");
    lemma_no_call(code, "strftime"@);
    reveal_strlit("strptime");
    lemma_no_call(code, "strptime"@);
    reveal_strlit("sub");
    lemma_no_call(code, "sub"@);
    reveal_strlit("test");
    lemma_no_call(code, "test"@);
    reveal_strlit("tonumber");
    lemma_no_call(code, "tonumber"@);
    reveal_strlit("unique");
    lemma_no_call(code, "unique"@);
    reveal_strlit("unique_by");
    lemma_no_call(code, "unique_by"@);
    reveal_strlit("until");
    lemma_no_call(code, "until"@);
    reveal_strlit("walk");
    lemma_no_call(code, "walk"@);
    reveal_strlit("while");
    lemma_no_call(code, "while"@);
}

} // verus!
