//! What requests say: recipes and lists that are written read back.
#[allow(unused_imports)]
use super::request::{
    call_in, has_interval, head_in, interval_in, item_value, item_values, items_from, recipe_in,
    recipe_over, Head, RequestFault,
};
#[allow(unused_imports)]
use super::table_laws::{law_characters_are_found_first, law_numbers_read_back, lemma_decimal_reads};
#[allow(unused_imports)]
use super::wording::{first_of, is_space, signed_decimal, trimmed, Trim};
#[allow(unused_imports)]
use crate::access_compiler::coding::Recipe;
#[allow(unused_imports)]
use crate::access_compiler::text::decimal;
use vstd::prelude::*;

verus! {

// ----- trimming -----

/// Whether a text has something in it, and ends in no space at either end.
pub open spec fn is_trim(text: Seq<char>) -> bool {
    text.len() > 0 && !is_space(text[0]) && !is_space(text.last())
}

proof fn lemma_untrimmed(text: Seq<char>)
    requires
        is_trim(text),
    ensures
        trimmed(text, Trim::Space) == text,
{
    assert(text.skip(0) =~= text);
    assert(text.take(text.len() as int) =~= text);
}

proof fn lemma_found(text: Seq<char>, c: char, at: int)
    requires
        0 <= at < text.len(),
        text[at] == c,
        forall|i: int| 0 <= i < at ==> #[trigger] text[i] != c,
    ensures
        first_of(text, c, 0) == Some(at),
{
    law_characters_are_found_first(text, c, 0);
}

// ----- recipes -----

/// The word that a recipe starts with.
pub open spec fn word_of(recipe: Recipe) -> Seq<char> {
    match recipe {
        Recipe::BitPack => "BitPack"@,
        Recipe::Rle { .. } => "Rle"@,
        Recipe::Dictionary(_) => "Dictionary"@,
        Recipe::Delta { .. } => "Delta"@,
        Recipe::UnsignedDelta { .. } => "UnsignedDelta"@,
        Recipe::For(_) => "For"@,
        Recipe::Patch { .. } => "Patch"@,
        Recipe::Nullable { .. } => "Nullable"@,
        Recipe::Frame(_) => "Frame"@,
    }
}

/// The interval that a recipe has, if any.
pub open spec fn interval_of(recipe: Recipe) -> Option<usize> {
    match recipe {
        Recipe::Rle { index_interval, .. } => Some(index_interval),
        Recipe::Delta { restart_interval, .. } => Some(restart_interval),
        Recipe::UnsignedDelta { restart_interval, .. } => Some(restart_interval),
        Recipe::Patch { index_interval, .. } => Some(index_interval),
        Recipe::Nullable { rank_interval, .. } => Some(rank_interval),
        _ => None,
    }
}

/// A recipe as it is asked for: its word, and in brackets its interval, where it has one, and
/// the recipe below it.
pub open spec fn written(recipe: Recipe) -> Seq<char>
    decreases recipe,
{
    let below = match recipe {
        Recipe::BitPack => Seq::empty(),
        Recipe::Rle { values, .. } => written(*values),
        Recipe::Dictionary(ids) => written(*ids),
        Recipe::Delta { deltas, .. } => written(*deltas),
        Recipe::UnsignedDelta { deltas, .. } => written(*deltas),
        Recipe::For(values) => written(*values),
        Recipe::Patch { values, .. } => written(*values),
        Recipe::Nullable { values, .. } => written(*values),
        Recipe::Frame(values) => written(*values),
    };
    if recipe is BitPack {
        word_of(recipe)
    } else {
        word_of(recipe) + seq!['('] + match interval_of(recipe) {
            Some(interval) => decimal(interval as nat) + seq![','] + below,
            None => below,
        } + seq![')']
    }
}

/// What the words stand for.
proof fn lemma_words()
    ensures
        head_in("BitPack"@) == Some(Head::BitPack),
        head_in("Rle"@) == Some(Head::Rle),
        head_in("Dictionary"@) == Some(Head::Dictionary),
        head_in("Delta"@) == Some(Head::Delta),
        head_in("UnsignedDelta"@) == Some(Head::UnsignedDelta),
        head_in("For"@) == Some(Head::For),
        head_in("Patch"@) == Some(Head::Patch),
        head_in("Nullable"@) == Some(Head::Nullable),
        head_in("Frame"@) == Some(Head::Frame),
{
    reveal_strlit("BitPack");
    reveal_strlit("Rle");
    reveal_strlit("Dictionary");
    reveal_strlit("Delta");
    reveal_strlit("UnsignedDelta");
    reveal_strlit("For");
    reveal_strlit("Patch");
    reveal_strlit("Nullable");
    reveal_strlit("Frame");
    assert("BitPack"@.len() == 7 && "Dictionary"@.len() == 10 && "Nullable"@.len() == 8
        && "UnsignedDelta"@.len() == 13);
    assert("Delta"@.len() == 5 && "Patch"@.len() == 5 && "Frame"@.len() == 5 && "Rle"@.len() == 3
        && "For"@.len() == 3);
    assert("Rle"@[0] != "For"@[0]);
    assert("Delta"@[0] != "Patch"@[0]);
    assert("Delta"@[0] != "Frame"@[0]);
    assert("Patch"@[0] != "Frame"@[0]);
}

/// A word is of letters.
proof fn lemma_word_letters(recipe: Recipe)
    ensures
        is_trim(word_of(recipe)),
        forall|i: int| 0 <= i < word_of(recipe).len() ==> #[trigger] word_of(recipe)[i] != '(',
{
    reveal_strlit("BitPack");
    reveal_strlit("Rle");
    reveal_strlit("Dictionary");
    reveal_strlit("Delta");
    reveal_strlit("UnsignedDelta");
    reveal_strlit("For");
    reveal_strlit("Patch");
    reveal_strlit("Nullable");
    reveal_strlit("Frame");
}

/// A text with a word and brackets is taken apart into the word and what is between them.
proof fn lemma_called(word: Seq<char>, body: Seq<char>)
    requires
        is_trim(word),
        forall|i: int| 0 <= i < word.len() ==> #[trigger] word[i] != '(',
    ensures
        ({
            let text = word + seq!['('] + body + seq![')'];
            &&& is_trim(text)
            &&& call_in(text) == Ok::<(Seq<char>, Option<Seq<char>>), RequestFault>(
                (word, Some(body)),
            )
        }),
{
    let text = word + seq!['('] + body + seq![')'];
    let at = word.len() as int;
    assert(text[0] == word[0]);
    assert(text.last() == ')');
    assert(text[at] == '(');
    assert forall|i: int| 0 <= i < at implies #[trigger] text[i] != '(' by {
        assert(text[i] == word[i]);
    }
    lemma_found(text, '(', at);
    assert(text.take(at) =~= word);
    assert(text.subrange(at + 1, text.len() - 1) =~= body);
}

/// An interval and what follows it are taken apart at the comma.
proof fn lemma_interval(word: Seq<char>, interval: usize, below: Seq<char>)
    requires
        is_trim(below),
    ensures
        interval_in(word, decimal(interval as nat) + seq![','] + below) == Ok::<
            (usize, Seq<char>),
            RequestFault,
        >((interval, below)),
{
    let digits = decimal(interval as nat);
    let body = digits + seq![','] + below;
    let at = digits.len() as int;
    lemma_decimal_reads(interval as nat);
    law_numbers_read_back(interval as int);
    assert(body[at] == ',');
    assert forall|i: int| 0 <= i < at implies #[trigger] body[i] != ',' by {
        assert(body[i] == digits[i]);
    }
    lemma_found(body, ',', at);
    assert(body.take(at) =~= digits);
    assert(body.skip(at + 1) =~= below);
    assert('0' <= digits[0] <= '9');
    assert('0' <= digits[at - 1] <= '9');
    lemma_untrimmed(digits);
    lemma_untrimmed(below);
}

proof fn lemma_written(recipe: Recipe)
    ensures
        is_trim(written(recipe)),
    decreases recipe,
{
    lemma_word_letters(recipe);
    if !(recipe is BitPack) {
        let text = written(recipe);
        let word = word_of(recipe);
        assert(text.last() == ')');
        assert(text[0] == word[0]);
    }
}

/// One step of reading: a word with brackets gives its recipe over what is read below.
proof fn lemma_read_over(recipe: Recipe, head: Head, interval: usize, below: Seq<char>, child: Recipe)
    requires
        !(recipe is BitPack),
        head_in(word_of(recipe)) == Some(head),
        head != Head::BitPack,
        has_interval(head) <==> interval_of(recipe) is Some,
        interval_of(recipe) is Some ==> interval_of(recipe) == Some(interval),
        interval_of(recipe) is None ==> interval == 0,
        is_trim(below),
        recipe_in(below) == Ok::<Recipe, RequestFault>(child),
        written(recipe) == word_of(recipe) + seq!['('] + (match interval_of(recipe) {
            Some(interval) => decimal(interval as nat) + seq![','] + below,
            None => below,
        }) + seq![')'],
    ensures
        recipe_in(written(recipe)) == Ok::<Recipe, RequestFault>(
            recipe_over(head, interval, child),
        ),
{
    let word = word_of(recipe);
    let body = match interval_of(recipe) {
        Some(interval) => decimal(interval as nat) + seq![','] + below,
        None => below,
    };
    lemma_word_letters(recipe);
    lemma_called(word, body);
    lemma_untrimmed(written(recipe));
    lemma_untrimmed(word);
    if interval_of(recipe) is Some {
        lemma_interval(word, interval, below);
    }
}

/// A recipe that is written reads back.
pub proof fn law_recipes_read_back(recipe: Recipe)
    ensures
        recipe_in(written(recipe)) == Ok::<Recipe, RequestFault>(recipe),
    decreases recipe,
{
    lemma_words();
    lemma_written(recipe);
    match recipe {
        Recipe::BitPack => {
            let text = written(recipe);
            lemma_word_letters(recipe);
            lemma_untrimmed(text);
            law_characters_are_found_first(text, '(', 0);
        },
        Recipe::Rle { index_interval, values } => {
            law_recipes_read_back(*values);
            lemma_written(*values);
            lemma_read_over(recipe, Head::Rle, index_interval, written(*values), *values);
        },
        Recipe::Dictionary(ids) => {
            law_recipes_read_back(*ids);
            lemma_written(*ids);
            lemma_read_over(recipe, Head::Dictionary, 0, written(*ids), *ids);
        },
        Recipe::Delta { restart_interval, deltas } => {
            law_recipes_read_back(*deltas);
            lemma_written(*deltas);
            lemma_read_over(recipe, Head::Delta, restart_interval, written(*deltas), *deltas);
        },
        Recipe::UnsignedDelta { restart_interval, deltas } => {
            law_recipes_read_back(*deltas);
            lemma_written(*deltas);
            lemma_read_over(
                recipe,
                Head::UnsignedDelta,
                restart_interval,
                written(*deltas),
                *deltas,
            );
        },
        Recipe::For(values) => {
            law_recipes_read_back(*values);
            lemma_written(*values);
            lemma_read_over(recipe, Head::For, 0, written(*values), *values);
        },
        Recipe::Patch { index_interval, values } => {
            law_recipes_read_back(*values);
            lemma_written(*values);
            lemma_read_over(recipe, Head::Patch, index_interval, written(*values), *values);
        },
        Recipe::Nullable { rank_interval, values } => {
            law_recipes_read_back(*values);
            lemma_written(*values);
            lemma_read_over(recipe, Head::Nullable, rank_interval, written(*values), *values);
        },
        Recipe::Frame(values) => {
            law_recipes_read_back(*values);
            lemma_written(*values);
            lemma_read_over(recipe, Head::Frame, 0, written(*values), *values);
        },
    }
}

// ----- lists -----

/// A value as it is listed.
pub open spec fn listed_value(value: Option<i64>) -> Seq<char> {
    match value {
        Some(value) => signed_decimal(value as int),
        None => "null"@,
    }
}

/// Values with commas between them.
pub open spec fn listed_values(values: Seq<Option<i64>>) -> Seq<char>
    decreases values.len(),
{
    if values.len() == 0 {
        Seq::empty()
    } else if values.len() == 1 {
        listed_value(values[0])
    } else {
        listed_value(values[0]) + seq![','] + listed_values(values.skip(1))
    }
}

proof fn lemma_listed_value(value: Option<i64>)
    ensures
        is_trim(listed_value(value)),
        forall|i: int| 0 <= i < listed_value(value).len() ==> #[trigger] listed_value(value)[i] != ',',
        item_value(listed_value(value)) == Some(value),
{
    reveal_strlit("null");
    let text = listed_value(value);
    match value {
        None => {
            lemma_untrimmed(text);
        },
        Some(n) => {
            let n = n as int;
            law_numbers_read_back(n);
            lemma_decimal_reads(n as nat);
            lemma_decimal_reads((-n) as nat);
            let digits = if n < 0 {
                decimal((-n) as nat)
            } else {
                decimal(n as nat)
            };
            let from = text.len() - digits.len();
            assert forall|i: int| from <= i < text.len() implies '0' <= #[trigger] text[i] <= '9' by {
                assert(text[i] == digits[i - from]);
            }
            assert('0' <= text[text.len() - 1] <= '9');
            assert(text.last() != 'l');
            lemma_untrimmed(text);
            assert(text != "null"@) by {
                if text == "null"@ {
                    assert("null"@[3] == 'l');
                    assert(text[text.len() - 1] == 'l');
                }
            }
        },
    }
}

proof fn lemma_items(before: Seq<char>, values: Seq<Option<i64>>)
    requires
        values.len() > 0,
    ensures
        items_from(before + listed_values(values), before.len() as int) == values.map_values(
            |value: Option<i64>| listed_value(value),
        ),
    decreases values.len(),
{
    let text = before + listed_values(values);
    let from = before.len() as int;
    let first = listed_value(values[0]);
    lemma_listed_value(values[0]);
    law_characters_are_found_first(text, ',', from);
    let all = values.map_values(|value: Option<i64>| listed_value(value));
    if values.len() == 1 {
        reveal_with_fuel(listed_values, 2);
        if let Some(at) = first_of(text, ',', from) {
            assert(text[at] == first[at - from]);
        }
        assert(text.subrange(from, text.len() as int) =~= first);
        assert(seq![first] =~= all);
    } else {
        let rest = values.skip(1);
        let at = from + first.len();
        assert(text[at] == ',');
        assert forall|i: int| from <= i < at implies #[trigger] text[i] != ',' by {
            assert(text[i] == first[i - from]);
        }
        assert(first_of(text, ',', from) == Some(at));
        assert(text.subrange(from, at) =~= first);
        let next = before + first + seq![','];
        assert(next + listed_values(rest) =~= text);
        lemma_items(next, rest);
        assert(seq![first] + rest.map_values(|value: Option<i64>| listed_value(value)) =~= all);
    }
}

/// Values that are listed read back, nulls among them.
pub proof fn law_lists_read_back(values: Seq<Option<i64>>)
    requires
        values.len() > 0,
    ensures
        ({
            let items = items_from(listed_values(values), 0);
            item_values(items, items.len() as int) == Some(values)
        }),
{
    lemma_items(Seq::empty(), values);
    assert(Seq::<char>::empty() + listed_values(values) =~= listed_values(values));
    let items = items_from(listed_values(values), 0);
    lemma_item_values(items, values, values.len() as int);
    assert(values.take(values.len() as int) =~= values);
}

proof fn lemma_item_values(items: Seq<Seq<char>>, values: Seq<Option<i64>>, n: int)
    requires
        0 <= n <= values.len(),
        items == values.map_values(|value: Option<i64>| listed_value(value)),
    ensures
        item_values(items, n) == Some(values.take(n)),
    decreases n,
{
    if n > 0 {
        lemma_item_values(items, values, n - 1);
        lemma_listed_value(values[n - 1]);
        assert(items[n - 1] == listed_value(values[n - 1]));
        assert(values.take(n - 1).push(values[n - 1]) =~= values.take(n));
    } else {
        assert(values.take(0) =~= Seq::empty());
    }
}

} // verus!
