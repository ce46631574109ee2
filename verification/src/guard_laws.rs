//! Which expressions are evaluated.

use crate::dag_laws::part;
use crate::derived_laws::at_path;
use crate::guard::{
    bare, bare_from, called_at, calls, comes_back, in_word, integers_within, is_word_char,
    law_paths_come_back, opened, subtracted_at, subtracts, sums,
};
use crate::jq::{jq_may_yield, may_answer, JqFailureView};
use crate::json::{JsonView, NumberView};
use vstd::prelude::*;

verus! {

/// That a number is no integer out of bounds: one with a fraction or an exponent is told by them.
pub open spec fn number_within(number: NumberView, least: int, most: int) -> bool {
    match number {
        NumberView::PosInt(n) => n <= most,
        NumberView::NegInt(n) => least <= n,
        NumberView::Float(text) => text.contains('.') || text.contains('e') || text.contains('E'),
    }
}

/// That what stands at the end of a path, if it is a number, is no integer out of bounds.
pub open spec fn within_at(value: JsonView, path: Seq<int>, least: int, most: int) -> bool {
    match at_path(value, path) {
        Some(JsonView::Number(number)) => number_within(number, least, most),
        _ => true,
    }
}

/// The integers of a value are within bounds exactly where every number in it is, wherever it
/// stands; nothing else in the value matters.
pub proof fn law_only_numbers_are_bounded(value: JsonView, least: int, most: int)
    ensures
        integers_within(value, least, most) <==> forall|path: Seq<int>| #[trigger]
            within_at(value, path, least, most),
    decreases value,
{
    if integers_within(value, least, most) {
        assert forall|path: Seq<int>| #[trigger] within_at(value, path, least, most) by {
            lemma_within_at(value, path, least, most);
        }
    }
    if forall|path: Seq<int>| #[trigger] within_at(value, path, least, most) {
        lemma_within(value, least, most);
    }
}

proof fn lemma_within_at(value: JsonView, path: Seq<int>, least: int, most: int)
    requires
        integers_within(value, least, most),
    ensures
        within_at(value, path, least, most),
    decreases path.len(),
{
    if path.len() > 0 {
        let i = path[0];
        match value {
            JsonView::Array(items) => {
                if 0 <= i < items.len() {
                    assert(integers_within(value->Array_0[i], least, most));
                    lemma_within_at(items[i], path.drop_first(), least, most);
                }
            },
            JsonView::Object(entries) => {
                if 0 <= i < entries.len() {
                    assert(integers_within(value->Object_0[i].1, least, most));
                    lemma_within_at(entries[i].1, path.drop_first(), least, most);
                }
            },
            _ => {},
        }
    }
}

proof fn lemma_within(value: JsonView, least: int, most: int)
    requires
        forall|path: Seq<int>| #[trigger] within_at(value, path, least, most),
    ensures
        integers_within(value, least, most),
    decreases value,
{
    assert(within_at(value, Seq::empty(), least, most));
    match value {
        JsonView::Array(items) => {
            assert forall|i: int| 0 <= i < items.len() implies integers_within(
                #[trigger] items[i],
                least,
                most,
            ) by {
                assert forall|path: Seq<int>| #[trigger] within_at(items[i], path, least, most) by {
                    lemma_within_under(value, i, path, least, most);
                }
                lemma_within(items[i], least, most);
            }
        },
        JsonView::Object(entries) => {
            assert forall|i: int| 0 <= i < entries.len() implies integers_within(
                (#[trigger] entries[i]).1,
                least,
                most,
            ) by {
                assert forall|path: Seq<int>| #[trigger]
                    within_at(entries[i].1, path, least, most) by {
                    lemma_within_under(value, i, path, least, most);
                }
                lemma_within(entries[i].1, least, most);
            }
        },
        _ => {},
    }
}

proof fn lemma_within_under(value: JsonView, i: int, path: Seq<int>, least: int, most: int)
    requires
        forall|path: Seq<int>| #[trigger] within_at(value, path, least, most),
        part(value, i) is Some,
    ensures
        within_at(part(value, i)->0, path, least, most),
{
    let longer = seq![i] + path;
    assert(longer.drop_first() =~= path);
    assert(within_at(value, longer, least, most));
}

/// What stands in a string without escapes does not count as code.
pub proof fn law_strings_are_no_code(inner: Seq<char>, rest: Seq<char>, open: Seq<char>)
    requires
        !inner.contains('"'),
        !inner.contains('\\'),
        open.len() == 0 || open.last() != '"',
    ensures
        bare_from(seq!['"'] + inner + seq!['"'] + rest, open) == seq!['"', '"'] + bare_from(
            rest,
            open,
        ),
{
    let tail = seq!['"'] + rest;
    let text = seq!['"'] + inner + seq!['"'] + rest;
    assert(text.skip(1) =~= inner + tail);
    lemma_inside(inner, tail, open.push('"'));
    assert(tail.skip(1) =~= rest);
    assert(open.push('"').drop_last() =~= open);
    assert(bare_from(text, open) =~= seq!['"', '"'] + bare_from(rest, open));
}

proof fn lemma_inside(inner: Seq<char>, tail: Seq<char>, open: Seq<char>)
    requires
        !inner.contains('"'),
        !inner.contains('\\'),
        open.len() > 0,
        open.last() == '"',
        tail.len() > 0,
    ensures
        bare_from(inner + tail, open) == bare_from(tail, open),
    decreases inner.len(),
{
    if inner.len() > 0 {
        let text = inner + tail;
        let rest = inner.drop_first();
        assert(inner.contains(inner[0]));
        assert(text.skip(1) =~= rest + tail);
        assert forall|i: int| 0 <= i < rest.len() implies rest[i] != '"' && rest[i] != '\\' by {
            assert(inner.contains(inner[i + 1]));
        }
        lemma_inside(rest, tail, open);
    } else {
        assert(inner + tail =~= tail);
    }
}

/// Code stands as it is.
proof fn lemma_code(c: char, rest: Seq<char>, open: Seq<char>)
    requires
        open.len() == 0 || open.last() != '"',
    ensures
        bare_from(seq![c] + rest, open) == seq![c] + bare_from(rest, opened(open, c)),
{
    assert((seq![c] + rest).skip(1) =~= rest);
}

/// The code of a reference to an instance, where `rest` follows.
proof fn lemma_reference(name: Seq<char>, rest: Seq<char>, open: Seq<char>)
    requires
        !name.contains('"'),
        !name.contains('\\'),
        open.len() == 0 || open.last() != '"',
    ensures
        bare_from(".[\""@ + name + "\"]"@ + rest, open) == ".[\"\"]"@ + bare_from(rest, open),
{
    reveal_strlit(".[\"");
    reveal_strlit("\"]");
    reveal_strlit(".[\"\"]");
    let closed = seq![']'] + rest;
    let string = seq!['"'] + name + seq!['"'] + closed;
    let inner = open.push('[');
    assert(".[\""@ + name + "\"]"@ + rest =~= seq!['.'] + (seq!['['] + string));
    lemma_code('.', seq!['['] + string, open);
    lemma_code('[', string, open);
    law_strings_are_no_code(name, closed, inner);
    lemma_code(']', rest, inner);
    assert(inner.drop_last() =~= open);
    assert(bare_from(".[\""@ + name + "\"]"@ + rest, open) =~= ".[\"\"]"@ + bare_from(rest, open));
}

/// A reference to an instance is evaluated on every input that does not hold the least machine
/// integer, whatever the name of the instance is made of.
pub proof fn law_references_are_evaluated(name: Seq<char>, input: JsonView)
    requires
        !name.contains('"'),
        !name.contains('\\'),
        forall|path: Seq<int>| #[trigger]
            within_at(input, path, isize::MIN + 1, u64::MAX as int),
    ensures
        comes_back(".[\""@ + name + "\"]"@, input),
{
    let expression = ".[\""@ + name + "\"]"@;
    let none = Seq::<char>::empty();
    reveal_strlit(".[\"\"]");
    lemma_reference(name, none, none);
    assert(expression + none =~= expression);
    let code = bare(expression);
    assert(code =~= ".[\"\"]"@);
    assert(code =~= seq!['.', '[', '"', '"', ']']);
    law_only_numbers_are_bounded(input, isize::MIN + 1, u64::MAX as int);
    assert(!subtracts(code)) by {
        if subtracts(code) {
            let i = choose|i: int| #[trigger] subtracted_at(code, i);
        }
    }
    reveal_with_fuel(sums, 6);
    assert(code.drop_last() =~= seq!['.', '[', '"', '"']);
    assert(code.drop_last().drop_last() =~= seq!['.', '[', '"']);
    assert(code.drop_last().drop_last().drop_last() =~= seq!['.', '[']);
    assert(code.drop_last().drop_last().drop_last().drop_last() =~= seq!['.']);
    assert(code.drop_last().drop_last().drop_last().drop_last().drop_last() =~= none);
    law_paths_come_back(expression, input);
}

/// The code of an input path that refers to an instance.
spec fn path_code() -> Seq<char> {
    "try (.[\"\"]) catch null"@
}

/// The code of an input path calls nothing but its own words.
proof fn lemma_not_called(word: Seq<char>)
    requires
        word.len() >= 3,
        is_word_char(word[0]),
        word[0] != 't' || word[1] != 'r',
        word[0] != 'c' || word[1] != 'a' || word[2] != 't',
        word[0] != 'n' || word[1] != 'u',
    ensures
        !calls(path_code(), word),
{
    let code = path_code();
    reveal_strlit("try (.[\"\"]) catch null");
    if calls(code, word) {
        let i = choose|i: int| #[trigger] called_at(code, word, i);
        assert(code.subrange(i, i + word.len())[0] == code[i]);
        assert(in_word(code, i));
        if i == 0 {
            assert(code.subrange(i, i + word.len())[1] == 'r');
        } else if i == 12 {
            assert(code.subrange(i, i + word.len())[1] == 'a');
            assert(code.subrange(i, i + word.len())[2] == 't');
        } else if i == 18 {
            assert(code.subrange(i, i + word.len())[1] == 'u');
        } else if i == 1 {
            assert(in_word(code, 0));
        } else if i == 2 {
            assert(in_word(code, 1));
        } else if i == 3 {
            assert(!in_word(code, 3));
        } else if i == 4 {
            assert(!in_word(code, 4));
        } else if i == 5 {
            assert(!in_word(code, 5));
        } else if i == 6 {
            assert(!in_word(code, 6));
        } else if i == 7 {
            assert(!in_word(code, 7));
        } else if i == 8 {
            assert(!in_word(code, 8));
        } else if i == 9 {
            assert(!in_word(code, 9));
        } else if i == 10 {
            assert(!in_word(code, 10));
        } else if i == 11 {
            assert(!in_word(code, 11));
        } else if i == 13 {
            assert(in_word(code, 12));
        } else if i == 14 {
            assert(in_word(code, 13));
        } else if i == 15 {
            assert(in_word(code, 14));
        } else if i == 16 {
            assert(in_word(code, 15));
        } else if i == 17 {
            assert(!in_word(code, 17));
        } else if i == 19 {
            assert(in_word(code, 18));
        } else if i == 20 {
            assert(in_word(code, 19));
        } else if i == 21 {
            assert(in_word(code, 20));
        }
    }
}

/// The code of an input path holds no sum.
proof fn lemma_no_sums(code: Seq<char>)
    requires
        !code.contains('+'),
    ensures
        sums(code) == 0,
    decreases code.len(),
{
    if code.len() > 0 {
        assert(code.contains(code[code.len() - 1]));
        assert forall|i: int| 0 <= i < code.drop_last().len() implies code.drop_last()[i] != '+' by {
            assert(code.contains(code[i]));
        }
        lemma_no_sums(code.drop_last());
    }
}

/// An input path that refers to an instance is evaluated on every tree that does not hold the least
/// machine integer, whatever the name of the instance is made of.
pub proof fn law_input_paths_are_evaluated(name: Seq<char>, input: JsonView)
    requires
        !name.contains('"'),
        !name.contains('\\'),
        forall|path: Seq<int>| #[trigger]
            within_at(input, path, isize::MIN + 1, u64::MAX as int),
    ensures
        comes_back("try ("@ + (".[\""@ + name + "\"]"@) + ") catch null"@, input),
{
    let reference = ".[\""@ + name + "\"]"@;
    let expression = "try ("@ + reference + ") catch null"@;
    let none = Seq::<char>::empty();
    reveal_strlit("try (");
    reveal_strlit(") catch null");
    reveal_strlit(".[\"\"]");
    reveal_strlit("try (.[\"\"]) catch null");
    let end = seq![' ', 'c', 'a', 't', 'c', 'h', ' ', 'n', 'u', 'l', 'l'];
    let inner = none.push('(');
    let after = reference + (seq![')'] + end);
    assert(expression =~= seq!['t'] + (seq!['r'] + (seq!['y'] + (seq![' '] + (seq!['('] + after)))));
    lemma_code('t', seq!['r'] + (seq!['y'] + (seq![' '] + (seq!['('] + after))), none);
    lemma_code('r', seq!['y'] + (seq![' '] + (seq!['('] + after)), none);
    lemma_code('y', seq![' '] + (seq!['('] + after), none);
    lemma_code(' ', seq!['('] + after, none);
    lemma_code('(', after, none);
    lemma_reference(name, seq![')'] + end, inner);
    lemma_code(')', end, inner);
    assert(inner.drop_last() =~= none);
    lemma_plain_code(end);
    let code = bare(expression);
    assert(code =~= path_code());
    reveal_strlit("halt");
    lemma_not_called("halt"@);
    reveal_strlit("halt_error");
    lemma_not_called("halt_error"@);
    reveal_strlit("def");
    lemma_not_called("def"@);
    reveal_strlit("repeat");
    lemma_not_called("repeat"@);
    reveal_strlit("recurse");
    lemma_not_called("recurse"@);
    reveal_strlit("while");
    lemma_not_called("while"@);
    reveal_strlit("until");
    lemma_not_called("until"@);
    reveal_strlit("range");
    lemma_not_called("range"@);
    reveal_strlit("main");
    lemma_not_called("main"@);
    reveal_strlit("env");
    lemma_not_called("env"@);
    reveal_strlit("import");
    lemma_not_called("import"@);
    reveal_strlit("strftime");
    lemma_not_called("strftime"@);
    reveal_strlit("strflocaltime");
    lemma_not_called("strflocaltime"@);
    reveal_strlit("strptime");
    lemma_not_called("strptime"@);
    reveal_strlit("test");
    lemma_not_called("test"@);
    reveal_strlit("match");
    lemma_not_called("match"@);
    reveal_strlit("matches");
    lemma_not_called("matches"@);
    reveal_strlit("scan");
    lemma_not_called("scan"@);
    reveal_strlit("capture");
    lemma_not_called("capture"@);
    reveal_strlit("sub");
    lemma_not_called("sub"@);
    reveal_strlit("gsub");
    lemma_not_called("gsub"@);
    reveal_strlit("split_matches");
    lemma_not_called("split_matches"@);
    reveal_strlit("sort");
    lemma_not_called("sort"@);
    reveal_strlit("sort_by");
    lemma_not_called("sort_by"@);
    reveal_strlit("group_by");
    lemma_not_called("group_by"@);
    reveal_strlit("unique");
    lemma_not_called("unique"@);
    reveal_strlit("unique_by");
    lemma_not_called("unique_by"@);
    reveal_strlit("add");
    lemma_not_called("add"@);
    reveal_strlit("skip");
    lemma_not_called("skip"@);
    reveal_strlit("nth");
    lemma_not_called("nth"@);
    reveal_strlit("gmtime");
    lemma_not_called("gmtime"@);
    reveal_strlit("localtime");
    lemma_not_called("localtime"@);
    reveal_strlit("mktime");
    lemma_not_called("mktime"@);
    reveal_strlit("tonumber");
    lemma_not_called("tonumber"@);
    reveal_strlit("fromjson");
    lemma_not_called("fromjson"@);
    reveal_strlit("floor");
    lemma_not_called("floor"@);
    reveal_strlit("round");
    lemma_not_called("round"@);
    reveal_strlit("ceil");
    lemma_not_called("ceil"@);
    reveal_strlit("ilogb");
    lemma_not_called("ilogb"@);
    assert(!code.contains('#') && !code.contains('*') && !code.contains('%')
        && !code.contains('+') && !code.contains('-')) by {
        assert(code =~= seq!['t', 'r', 'y', ' ', '(', '.', '[', '"', '"', ']', ')'] + end);
    }
    assert(!subtracts(code)) by {
        if subtracts(code) {
            let i = choose|i: int| #[trigger] subtracted_at(code, i);
            assert(code.contains(code[i]));
        }
    }
    lemma_no_sums(code);
    law_only_numbers_are_bounded(input, isize::MIN + 1, u64::MAX as int);
}

/// Code without delimiters stands as it is.
proof fn lemma_plain_code(code: Seq<char>)
    requires
        forall|i: int|
            0 <= i < code.len() ==> is_word_char(#[trigger] code[i]) || code[i] == ' ',
    ensures
        bare_from(code, Seq::empty()) == code,
    decreases code.len(),
{
    if code.len() > 0 {
        let rest = code.skip(1);
        assert forall|i: int| 0 <= i < rest.len() implies is_word_char(#[trigger] rest[i])
            || rest[i] == ' ' by {
            assert(rest[i] == code[i + 1]);
        }
        lemma_plain_code(rest);
        assert(is_word_char(code[0]) || code[0] == ' ');
        assert(code =~= seq![code[0]] + rest);
        lemma_code(code[0], rest, Seq::empty());
    }
}

/// An expression that is sure to come back is answered with what its evaluation yields, whatever
/// that is; any other is refused.
pub proof fn law_answers_are_what_is_yielded(
    program: Seq<char>,
    expression: Seq<char>,
    input: JsonView,
    outcome: Result<JsonView, JqFailureView>,
)
    ensures
        comes_back(expression, input) ==> (may_answer(program, expression, input, outcome)
            <==> jq_may_yield(program, input, outcome)),
        !comes_back(expression, input) ==> (may_answer(program, expression, input, outcome)
            <==> outcome == Err::<JsonView, JqFailureView>(JqFailureView::Refused)),
{
}

} // verus!
