//! Requests to the explorer: values, a recipe and a query.
use super::error::StudyError;
use super::wording::{
    chars_of, find_char, find_text, part, read_signed, read_size, text_of, trim, trim_end,
    trim_start, Trim,
};
#[allow(unused_imports)]
use super::wording::{
    first_of, first_place, lemma_first_of, lemma_trims, number_in, trimmed, trimmed_end,
    trimmed_start,
};
use crate::access_compiler::coding::Recipe;
use crate::access_compiler::encode::{encode, EncodedColumn, InputColumn};
#[allow(unused_imports)]
use crate::access_compiler::builder::finish_error;
#[allow(unused_imports)]
use crate::access_compiler::encode::encoding;
use crate::access_compiler::error::Error;
#[allow(unused_imports)]
use crate::access_compiler::decoder::decoder_error;
use crate::access_compiler::plan::{Predicate, Query};
use crate::access_compiler::span::Span;
use std::collections::BTreeSet;
use vstd::prelude::*;

verus! {

// ----- fields -----

/// How deep the braces are after the first `n` characters.
pub open spec fn depth(text: Seq<char>, n: int) -> int
    decreases n,
{
    if n <= 0 {
        0
    } else if text[n - 1] == '{' {
        depth(text, n - 1) + 1
    } else if text[n - 1] == '}' {
        depth(text, n - 1) - 1
    } else {
        depth(text, n - 1)
    }
}

/// Where the braces that open a text are closed, from some place on; or nowhere,
/// which is the start.
pub open spec fn closed_at(text: Seq<char>, from: int) -> int
    decreases text.len() - from,
{
    if from >= text.len() {
        0
    } else if text[from] == '}' && depth(text, from + 1) == 0 {
        from + 1
    } else {
        closed_at(text, from + 1)
    }
}

/// Where the first comma or closing brace is, from some place on; or the end.
pub open spec fn scalar_end(text: Seq<char>, from: int) -> int
    decreases text.len() - from,
{
    if from >= text.len() || text[from] == ',' || text[from] == '}' {
        from
    } else {
        scalar_end(text, from + 1)
    }
}

/// Where the value ends that a text starts with.
pub open spec fn value_end(text: Seq<char>) -> Option<int> {
    if text.len() == 0 {
        None
    } else if text[0] == '[' {
        match first_of(text, ']', 0) {
            Some(at) => Some(at + 1),
            None => None,
        }
    } else if text[0] == '{' {
        Some(closed_at(text, 0))
    } else if text[0] == '"' {
        match first_of(text, '"', 1) {
            Some(at) => Some(at + 1),
            None => None,
        }
    } else {
        Some(scalar_end(text, 0))
    }
}

/// A key in quotes.
pub open spec fn quoted_key(key: Seq<char>) -> Seq<char> {
    seq!['"'] + key + seq!['"']
}

/// The value of a key, where the key stands first in a text.
pub open spec fn field_in(source: Seq<char>, key: Seq<char>) -> Option<Seq<char>> {
    let needle = quoted_key(key);
    match first_place(source, needle, 0) {
        None => None,
        Some(at) => {
            let rest = trimmed_start(source.skip(at + needle.len()), Trim::Space);
            if rest.len() == 0 || rest[0] != ':' {
                None
            } else {
                let value = trimmed_start(rest.skip(1), Trim::Space);
                match value_end(value) {
                    None => None,
                    Some(end) => Some(trimmed(value.take(end), Trim::Space)),
                }
            }
        },
    }
}

/// Where the braces that open a text are closed.
fn braces_end(text: &[char]) -> (r: usize)
    requires
        text@.len() > 0,
        text@[0] == '{',
    ensures
        r == closed_at(text@, 0),
        r <= text@.len(),
{
    let len: usize = text.len();
    let mut open: usize = 1;
    let mut i: usize = 1;
    proof {
        assert(depth(text@, 0) == 0);
        assert(depth(text@, 1) == 1);
    }
    while i < len
        invariant
            len == text@.len(),
            1 <= i <= len,
            text@[0] == '{',
            open == depth(text@, i as int),
            1 <= open <= i,
            closed_at(text@, i as int) == closed_at(text@, 0),
            forall|k: int| 0 < k < i ==> !(#[trigger] text@[k] == '}' && depth(text@, k + 1) == 0),
        decreases len - i,
    {
        let c: char = text[i];
        if c == '{' {
            open = open + 1;
        } else if c == '}' {
            open = open - 1;
            if open == 0 {
                return i + 1;
            }
        }
        i = i + 1;
    }
    0
}

/// Where the value ends that a text starts with.
fn end_of_value(text: &[char]) -> (r: Option<usize>)
    ensures
        match value_end(text@) {
            Some(end) => r matches Some(found) && found == end && end <= text@.len(),
            None => r is None,
        },
{
    if text.len() == 0 {
        return None;
    }
    let c: char = text[0];
    if c == '[' {
        return match find_char(text, ']', 0) {
            Some(at) => Some(at + 1),
            None => None,
        };
    }
    if c == '{' {
        return Some(braces_end(text));
    }
    if c == '"' {
        return match find_char(text, '"', 1) {
            Some(at) => Some(at + 1),
            None => None,
        };
    }
    let mut end: usize = 0;
    while end < text.len() && text[end] != ',' && text[end] != '}'
        invariant
            end <= text@.len(),
            scalar_end(text@, end as int) == scalar_end(text@, 0),
        decreases text@.len() - end,
    {
        end = end + 1;
    }
    Some(end)
}

/// The value of a key.
pub fn field(source: &[char], key: &str) -> (r: Option<Vec<char>>)
    ensures
        match field_in(source@, key@) {
            Some(value) => r matches Some(found) && found@ == value,
            None => r is None,
        },
{
    let mut needle: Vec<char> = Vec::new();
    needle.push('"');
    let mut letters = chars_of(key);
    needle.append(&mut letters);
    needle.push('"');
    assert(needle@ =~= quoted_key(key@));
    let at: usize = match find_text(source, needle.as_slice()) {
        Some(at) => at,
        None => {
            return None;
        },
    };
    let len: usize = source.len();
    let after = part(source, at + needle.len(), len);
    assert(after@ =~= source@.skip(at + quoted_key(key@).len()));
    let rest = trim_start(after.as_slice(), Trim::Space);
    if rest.len() == 0 || rest[0] != ':' {
        return None;
    }
    let behind = part(rest.as_slice(), 1, rest.len());
    assert(behind@ =~= rest@.skip(1));
    let value = trim_start(behind.as_slice(), Trim::Space);
    match end_of_value(value.as_slice()) {
        Some(end) => {
            let inner = part(value.as_slice(), 0, end);
            assert(inner@ =~= value@.take(end as int));
            Some(trim(inner.as_slice(), Trim::Space))
        },
        None => None,
    }
}

/// The text that is the value of a key.
pub open spec fn string_in(source: Seq<char>, key: Seq<char>) -> Option<Seq<char>> {
    match field_in(source, key) {
        Some(value) => Some(trimmed(value, Trim::One('"'))),
        None => None,
    }
}

pub fn string_field(source: &[char], key: &str) -> (r: Option<Vec<char>>)
    ensures
        match string_in(source@, key@) {
            Some(value) => r matches Some(found) && found@ == value,
            None => r is None,
        },
{
    match field(source, key) {
        Some(value) => Some(trim(value.as_slice(), Trim::One('"'))),
        None => None,
    }
}

/// The number that a text is, if it has 64 bits.
pub open spec fn signed_in(text: Seq<char>) -> Option<i64> {
    match number_in(text) {
        Some(value) => if i64::MIN <= value <= i64::MAX {
            Some(value as i64)
        } else {
            None
        },
        None => None,
    }
}

/// The number that is the value of a key.
pub open spec fn number_field_in(source: Seq<char>, key: Seq<char>) -> Option<i64> {
    match string_in(source, key) {
        Some(value) => signed_in(value),
        None => None,
    }
}

pub fn number_field(source: &[char], key: &str) -> (r: Option<i64>)
    ensures
        r == number_field_in(source@, key@),
{
    match string_field(source, key) {
        Some(value) => read_signed(value.as_slice()),
        None => None,
    }
}

/// The items of a list, from some place on: commas are between them.
pub open spec fn items_from(text: Seq<char>, from: int) -> Seq<Seq<char>>
    decreases text.len() - from,
{
    if from < 0 || from > text.len() {
        Seq::empty()
    } else {
        match first_of(text, ',', from) {
            None => seq![text.subrange(from, text.len() as int)],
            Some(at) => {
                proof {
                    lemma_first_of(text, ',', from);
                }
                seq![text.subrange(from, at)] + items_from(text, at + 1)
            },
        }
    }
}

/// The value that an item stands for.
pub open spec fn item_value(item: Seq<char>) -> Option<Option<i64>> {
    let text = trimmed(item, Trim::Space);
    if text == "null"@ {
        Some(None)
    } else {
        match signed_in(text) {
            Some(value) => Some(Some(value)),
            None => None,
        }
    }
}

/// The values that the first `n` items stand for.
pub open spec fn item_values(items: Seq<Seq<char>>, n: int) -> Option<Seq<Option<i64>>>
    decreases n,
{
    if n <= 0 {
        Some(Seq::empty())
    } else {
        match (item_values(items, n - 1), item_value(items[n - 1])) {
            (Some(before), Some(value)) => Some(before.push(value)),
            _ => None,
        }
    }
}

/// The values that are the value of a key.
pub open spec fn values_in(source: Seq<char>, key: Seq<char>) -> Option<Seq<Option<i64>>> {
    match field_in(source, key) {
        None => None,
        Some(raw) => {
            let inner = trimmed_end(
                trimmed_start(trimmed(raw, Trim::Space), Trim::One('[')),
                Trim::One(']'),
            );
            if trimmed(inner, Trim::Space).len() == 0 {
                Some(Seq::empty())
            } else {
                let items = items_from(inner, 0);
                item_values(items, items.len() as int)
            }
        },
    }
}

fn is_null(text: &Vec<char>) -> (r: bool)
    ensures
        r == (text@ == "null"@),
{
    proof {
        reveal_strlit("null");
        if text@.len() == 4 && text@[0] == 'n' && text@[1] == 'u' && text@[2] == 'l' && text@[3]
            == 'l' {
            assert(text@ =~= "null"@);
        }
    }
    text.len() == 4 && text[0] == 'n' && text[1] == 'u' && text[2] == 'l' && text[3] == 'l'
}

proof fn lemma_items_fail(items: Seq<Seq<char>>, i: int, n: int)
    requires
        0 <= i <= n,
        item_values(items, i) is None,
    ensures
        item_values(items, n) is None,
    decreases n,
{
    if i < n {
        lemma_items_fail(items, i, n - 1);
    }
}

proof fn lemma_items_same(a: Seq<Seq<char>>, b: Seq<Seq<char>>, n: int)
    requires
        forall|k: int| 0 <= k < n ==> a[k] == b[k],
    ensures
        item_values(a, n) == item_values(b, n),
    decreases n,
{
    if n > 0 {
        lemma_items_same(a, b, n - 1);
    }
}

/// The values that the items of a list stand for.
fn read_items(text: &Vec<char>) -> (r: Option<Vec<Option<i64>>>)
    ensures
        match item_values(items_from(text@, 0), items_from(text@, 0).len() as int) {
            Some(values) => r matches Some(found) && found@ == values,
            None => r is None,
        },
{
    let ghost all = items_from(text@, 0);
    let mut values: Vec<Option<i64>> = Vec::new();
    let mut from: usize = 0;
    let ghost mut done: Seq<Seq<char>> = Seq::empty();
    let len: usize = text.len();
    assert(done + items_from(text@, 0) =~= all);
    loop
        invariant
            len == text@.len(),
            from <= len,
            all == items_from(text@, 0),
            done + items_from(text@, from as int) == all,
            item_values(done, done.len() as int) == Some(values@),
        decreases text@.len() - from,
    {
        let found = find_char(text.as_slice(), ',', from);
        let end: usize = match found {
            Some(at) => at,
            None => text.len(),
        };
        let item = part(text.as_slice(), from, end);
        let trimmed_item = trim(item.as_slice(), Trim::Space);
        let ghost before = done;
        proof {
            done = done.push(item@);
            lemma_items_same(done, before, before.len() as int);
            assert(done.last() == item@);
            assert(items_from(text@, from as int)[0] == item@);
            assert(all[before.len() as int] == item@);
            assert forall|k: int| 0 <= k < done.len() implies done[k] == all[k] by {}
            lemma_items_same(done, all, done.len() as int);
        }
        let value: Option<i64> = if is_null(&trimmed_item) {
            None
        } else {
            match read_signed(trimmed_item.as_slice()) {
                Some(value) => Some(value),
                None => {
                    proof {
                        assert(item_value(item@) is None);
                        assert(item_values(done, done.len() as int) is None);
                        lemma_items_fail(all, done.len() as int, all.len() as int);
                    }
                    return None;
                },
            }
        };
        values.push(value);
        match found {
            Some(at) => {
                proof {
                    assert(done + items_from(text@, at + 1) =~= before + items_from(
                        text@,
                        from as int,
                    ));
                }
                from = at + 1;
            },
            None => {
                proof {
                    assert(done =~= all);
                }
                return Some(values);
            },
        }
    }
}

pub fn values_field(source: &[char], key: &str) -> (r: Option<Vec<Option<i64>>>)
    ensures
        match values_in(source@, key@) {
            Some(values) => r matches Some(found) && found@ == values,
            None => r is None,
        },
{
    let raw = match field(source, key) {
        Some(raw) => raw,
        None => {
            return None;
        },
    };
    let whole = trim(raw.as_slice(), Trim::Space);
    let opened = trim_start(whole.as_slice(), Trim::One('['));
    let inner = trim_end(opened.as_slice(), Trim::One(']'));
    if trim(inner.as_slice(), Trim::Space).len() == 0 {
        return Some(Vec::new());
    }
    read_items(&inner)
}

// ----- recipes -----

/// What is wrong with a request, with the texts that are to blame.
pub enum RequestFault {
    UnbalancedRecipe(Seq<char>),
    IntervalAndChild(Seq<char>),
    BadInterval(Seq<char>, Seq<char>),
    IntervalAbsent(Seq<char>),
    ChildAbsent(Seq<char>),
    UnknownRecipe(Seq<char>),
    MissingValues,
    MissingRecipe,
    MissingQuery,
    QueryKindAbsent,
    QueryBoundAbsent(Seq<char>, Seq<char>),
    UnknownQueryKind(Seq<char>),
}

/// The fault that an error reports.
pub open spec fn fault_in(error: StudyError) -> Option<RequestFault> {
    match error {
        StudyError::UnbalancedRecipe(spec) => Some(RequestFault::UnbalancedRecipe(spec@)),
        StudyError::IntervalAndChild(head) => Some(RequestFault::IntervalAndChild(head@)),
        StudyError::BadInterval(head, interval) => Some(
            RequestFault::BadInterval(head@, interval@),
        ),
        StudyError::IntervalAbsent(head) => Some(RequestFault::IntervalAbsent(head@)),
        StudyError::ChildAbsent(head) => Some(RequestFault::ChildAbsent(head@)),
        StudyError::UnknownRecipe(head) => Some(RequestFault::UnknownRecipe(head@)),
        StudyError::MissingValues => Some(RequestFault::MissingValues),
        StudyError::MissingRecipe => Some(RequestFault::MissingRecipe),
        StudyError::MissingQuery => Some(RequestFault::MissingQuery),
        StudyError::QueryKindAbsent => Some(RequestFault::QueryKindAbsent),
        StudyError::QueryBoundAbsent(query, bound) => Some(
            RequestFault::QueryBoundAbsent(query@, bound@),
        ),
        StudyError::UnknownQueryKind(kind) => Some(RequestFault::UnknownQueryKind(kind@)),
        _ => None,
    }
}

/// An interval and what follows it, in the brackets of a recipe that starts so.
pub open spec fn interval_in(head: Seq<char>, body: Seq<char>) -> Result<
    (usize, Seq<char>),
    RequestFault,
> {
    match first_of(body, ',', 0) {
        None => Err(RequestFault::IntervalAndChild(head)),
        Some(at) => {
            let first = trimmed(body.take(at), Trim::Space);
            match number_in(first) {
                Some(value) => if first[0] != '-' && value <= usize::MAX {
                    Ok((value as usize, trimmed(body.skip(at + 1), Trim::Space)))
                } else {
                    Err(RequestFault::BadInterval(head, body.take(at)))
                },
                None => Err(RequestFault::BadInterval(head, body.take(at))),
            }
        },
    }
}

fn split_interval(head: &[char], body: &[char]) -> (r: Result<(usize, Vec<char>), StudyError>)
    ensures
        match interval_in(head@, body@) {
            Ok((interval, rest)) => r matches Ok(found) && found.0 == interval && found.1@ == rest,
            Err(fault) => r matches Err(e) && fault_in(e) == Some(fault),
        },
{
    match find_char(body, ',', 0) {
        None => Err(StudyError::IntervalAndChild(text_of(head))),
        Some(at) => {
            let front = part(body, 0, at);
            let len: usize = body.len();
            let behind = part(body, at + 1, len);
            assert(front@ =~= body@.take(at as int));
            assert(behind@ =~= body@.skip(at + 1));
            let first = trim(front.as_slice(), Trim::Space);
            match read_size(first.as_slice()) {
                Some(interval) => Ok((interval, trim(behind.as_slice(), Trim::Space))),
                None => Err(StudyError::BadInterval(text_of(head), text_of(front.as_slice()))),
            }
        },
    }
}

/// The kinds of recipes that are written with a child.
#[derive(Clone, Copy, Debug, PartialEq, Eq, Structural)]
pub enum Head {
    BitPack,
    Dictionary,
    Frame,
    For,
    Nullable,
    Patch,
    Delta,
    UnsignedDelta,
    Rle,
}

/// The kind of recipe that a word stands for.
pub open spec fn head_in(word: Seq<char>) -> Option<Head> {
    if word == "BitPack"@ {
        Some(Head::BitPack)
    } else if word == "Dictionary"@ {
        Some(Head::Dictionary)
    } else if word == "Frame"@ {
        Some(Head::Frame)
    } else if word == "Nullable"@ {
        Some(Head::Nullable)
    } else if word == "Patch"@ {
        Some(Head::Patch)
    } else if word == "For"@ {
        Some(Head::For)
    } else if word == "Delta"@ {
        Some(Head::Delta)
    } else if word == "UnsignedDelta"@ {
        Some(Head::UnsignedDelta)
    } else if word == "Rle"@ {
        Some(Head::Rle)
    } else {
        None
    }
}

fn same(word: &Vec<char>, other: &str) -> (r: bool)
    ensures
        r == (word@ == other@),
{
    let letters = chars_of(other);
    if word.len() != letters.len() {
        return false;
    }
    let mut i: usize = 0;
    while i < word.len()
        invariant
            i <= word@.len(),
            word@.len() == letters@.len(),
            letters@ == other@,
            forall|k: int| 0 <= k < i ==> #[trigger] word@[k] == letters@[k],
        decreases word@.len() - i,
    {
        if word[i] != letters[i] {
            assert(word@[i as int] != other@[i as int]);
            return false;
        }
        i = i + 1;
    }
    assert(word@ =~= other@);
    true
}

fn head_of(word: &Vec<char>) -> (r: Option<Head>)
    ensures
        r == head_in(word@),
{
    if same(word, "BitPack") {
        Some(Head::BitPack)
    } else if same(word, "Dictionary") {
        Some(Head::Dictionary)
    } else if same(word, "Frame") {
        Some(Head::Frame)
    } else if same(word, "Nullable") {
        Some(Head::Nullable)
    } else if same(word, "Patch") {
        Some(Head::Patch)
    } else if same(word, "For") {
        Some(Head::For)
    } else if same(word, "Delta") {
        Some(Head::Delta)
    } else if same(word, "UnsignedDelta") {
        Some(Head::UnsignedDelta)
    } else if same(word, "Rle") {
        Some(Head::Rle)
    } else {
        None
    }
}

/// What a recipe starts with, and what stands in its brackets.
pub open spec fn call_in(text: Seq<char>) -> Result<
    (Seq<char>, Option<Seq<char>>),
    RequestFault,
> {
    match first_of(text, '(', 0) {
        None => Ok((text, None)),
        Some(at) => if text.last() != ')' {
            Err(RequestFault::UnbalancedRecipe(text))
        } else {
            Ok((text.take(at), Some(text.subrange(at + 1, text.len() - 1))))
        },
    }
}

/// The argument of a recipe that has one child.
pub open spec fn has_interval(head: Head) -> bool {
    match head {
        Head::BitPack | Head::Dictionary | Head::Frame | Head::For => false,
        _ => true,
    }
}

/// A recipe over a child.
pub open spec fn recipe_over(head: Head, interval: usize, child: Recipe) -> Recipe {
    match head {
        Head::BitPack => Recipe::BitPack,
        Head::Dictionary => Recipe::Dictionary(Box::new(child)),
        Head::Frame => Recipe::Frame(Box::new(child)),
        Head::For => Recipe::For(Box::new(child)),
        Head::Nullable => Recipe::Nullable { rank_interval: interval, values: Box::new(child) },
        Head::Patch => Recipe::Patch { index_interval: interval, values: Box::new(child) },
        Head::Delta => Recipe::Delta { restart_interval: interval, deltas: Box::new(child) },
        Head::UnsignedDelta => Recipe::UnsignedDelta {
            restart_interval: interval,
            deltas: Box::new(child),
        },
        Head::Rle => Recipe::Rle { index_interval: interval, values: Box::new(child) },
    }
}

fn build_over(head: Head, interval: usize, child: Recipe) -> (r: Recipe)
    ensures
        r == recipe_over(head, interval, child),
{
    match head {
        Head::BitPack => Recipe::BitPack,
        Head::Dictionary => Recipe::Dictionary(Box::new(child)),
        Head::Frame => Recipe::Frame(Box::new(child)),
        Head::For => Recipe::For(Box::new(child)),
        Head::Nullable => Recipe::Nullable { rank_interval: interval, values: Box::new(child) },
        Head::Patch => Recipe::Patch { index_interval: interval, values: Box::new(child) },
        Head::Delta => Recipe::Delta { restart_interval: interval, deltas: Box::new(child) },
        Head::UnsignedDelta => Recipe::UnsignedDelta {
            restart_interval: interval,
            deltas: Box::new(child),
        },
        Head::Rle => Recipe::Rle { index_interval: interval, values: Box::new(child) },
    }
}

/// The interval and the child of a recipe, given what it starts with and what stands
/// in its brackets.
pub open spec fn child_in(head: Head, start: Seq<char>, argument: Seq<char>) -> Result<
    (usize, Seq<char>),
    RequestFault,
> {
    if has_interval(head) {
        interval_in(start, argument)
    } else {
        Ok((0, argument))
    }
}

pub proof fn lemma_smaller(text: Seq<char>, head: Head)
    ensures
        call_in(trimmed(text, Trim::Space)) matches Ok((start, Some(argument))) ==> (child_in(
            head,
            start,
            argument,
        ) matches Ok((_, child)) ==> child.len() < text.len()),
{
    let inner = trimmed(text, Trim::Space);
    lemma_trims(text, Trim::Space);
    lemma_first_of(inner, '(', 0);
    if let Ok((_, Some(argument))) = call_in(inner) {
        lemma_first_of(argument, ',', 0);
        if let Some(at) = first_of(argument, ',', 0) {
            lemma_trims(argument.skip(at + 1), Trim::Space);
        }
    }
}

/// The recipe that a text describes.
pub open spec fn recipe_in(text: Seq<char>) -> Result<Recipe, RequestFault>
    decreases text.len(),
{
    let inner = trimmed(text, Trim::Space);
    match call_in(inner) {
        Err(fault) => Err(fault),
        Ok((start, argument)) => {
            let word = trimmed(start, Trim::Space);
            match head_in(word) {
                None => Err(RequestFault::UnknownRecipe(word)),
                Some(head) => if head == Head::BitPack {
                    Ok(Recipe::BitPack)
                } else {
                    match argument {
                        None => Err(
                            if has_interval(head) {
                                RequestFault::IntervalAbsent(word)
                            } else {
                                RequestFault::ChildAbsent(word)
                            },
                        ),
                        Some(body) => match child_in(head, start, body) {
                            Err(fault) => Err(fault),
                            Ok((interval, child)) => {
                                proof {
                                    lemma_smaller(text, head);
                                }
                                match recipe_in(child) {
                                    Err(fault) => Err(fault),
                                    Ok(recipe) => Ok(recipe_over(head, interval, recipe)),
                                }
                            },
                        },
                    }
                },
            }
        },
    }
}

/// Reads a recipe.
pub fn parse_recipe(text: &[char]) -> (r: Result<Recipe, StudyError>)
    ensures
        match recipe_in(text@) {
            Ok(recipe) => r matches Ok(found) && found == recipe,
            Err(fault) => r matches Err(e) && fault_in(e) == Some(fault),
        },
    decreases text@.len(),
{
    let inner = trim(text, Trim::Space);
    let (start, argument) = match find_char(inner.as_slice(), '(', 0) {
        None => {
            let whole = part(inner.as_slice(), 0, inner.len());
            assert(whole@ =~= inner@);
            (whole, None)
        },
        Some(at) => {
            if inner[inner.len() - 1] != ')' {
                return Err(StudyError::UnbalancedRecipe(text_of(inner.as_slice())));
            }
            assert(at < inner@.len() - 1) by {
                assert(inner@[at as int] == '(') by {
                    lemma_first_of(inner@, '(', 0);
                }
            }
            let front = part(inner.as_slice(), 0, at);
            assert(front@ =~= inner@.take(at as int));
            (front, Some(part(inner.as_slice(), at + 1, inner.len() - 1)))
        },
    };
    let word = trim(start.as_slice(), Trim::Space);
    let head: Head = match head_of(&word) {
        None => {
            return Err(StudyError::UnknownRecipe(text_of(word.as_slice())));
        },
        Some(head) => head,
    };
    if head == Head::BitPack {
        return Ok(Recipe::BitPack);
    }
    let single: bool = head == Head::Dictionary || head == Head::Frame || head == Head::For;
    let body = match argument {
        None => {
            return Err(
                if single {
                    StudyError::ChildAbsent(text_of(word.as_slice()))
                } else {
                    StudyError::IntervalAbsent(text_of(word.as_slice()))
                },
            );
        },
        Some(body) => body,
    };
    proof {
        lemma_smaller(text@, head);
    }
    let (interval, child) = if single {
        (0, body)
    } else {
        match split_interval(start.as_slice(), body.as_slice()) {
            Ok(found) => found,
            Err(e) => {
                return Err(e);
            },
        }
    };
    match parse_recipe(child.as_slice()) {
        Ok(recipe) => Ok(build_over(head, interval, recipe)),
        Err(e) => Err(e),
    }
}

// ----- queries -----

/// A bound of a query.
pub open spec fn bound_in(raw: Seq<char>, query: Seq<char>, key: Seq<char>) -> Result<
    i64,
    RequestFault,
> {
    match number_field_in(raw, key) {
        Some(value) => Ok(value),
        None => Err(RequestFault::QueryBoundAbsent(query, key)),
    }
}

/// Both bounds of a query.
pub open spec fn bounds_in(raw: Seq<char>, query: Seq<char>) -> Result<(i64, i64), RequestFault> {
    match bound_in(raw, query, "low"@) {
        Err(fault) => Err(fault),
        Ok(low) => match bound_in(raw, query, "high"@) {
            Err(fault) => Err(fault),
            Ok(high) => Ok((low, high)),
        },
    }
}

/// The query that a request asks of so many rows.
pub open spec fn query_in(request: Seq<char>, rows: usize) -> Result<Query, RequestFault> {
    match field_in(request, "query"@) {
        None => Err(RequestFault::MissingQuery),
        Some(raw) => match string_in(raw, "kind"@) {
            None => Err(RequestFault::QueryKindAbsent),
            Some(kind) => {
                let span = Span { start: 0, end: rows };
                if kind == "get"@ {
                    Ok(
                        Query::Get {
                            row: match number_field_in(raw, "row"@) {
                                Some(row) => row as usize,
                                None => 0,
                            },
                        },
                    )
                } else if kind == "sum"@ {
                    Ok(Query::Sum { rows: span })
                } else if kind == "between"@ {
                    match bounds_in(raw, "between"@) {
                        Ok((low, high)) => Ok(Query::Between { rows: span, low, high }),
                        Err(fault) => Err(fault),
                    }
                } else if kind == "filter_between"@ {
                    match bounds_in(raw, "filter"@) {
                        Ok((low, high)) => Ok(
                            Query::Filter { predicate: Predicate::Between { low, high } },
                        ),
                        Err(fault) => Err(fault),
                    }
                } else if kind == "filter_equals"@ {
                    match bound_in(raw, "filter"@, "value"@) {
                        Ok(value) => Ok(Query::Filter { predicate: Predicate::Equals { value } }),
                        Err(fault) => Err(fault),
                    }
                } else {
                    Err(RequestFault::UnknownQueryKind(kind))
                }
            },
        },
    }
}

fn bound_of_query(raw: &[char], query: &str, key: &str) -> (r: Result<i64, StudyError>)
    ensures
        match bound_in(raw@, query@, key@) {
            Ok(value) => r matches Ok(found) && found == value,
            Err(fault) => r matches Err(e) && fault_in(e) == Some(fault),
        },
{
    match number_field(raw, key) {
        Some(value) => Ok(value),
        None => Err(StudyError::QueryBoundAbsent(String::from_str(query), String::from_str(key))),
    }
}

fn bounds_of_query(raw: &[char], query: &str) -> (r: Result<(i64, i64), StudyError>)
    ensures
        match bounds_in(raw@, query@) {
            Ok(bounds) => r matches Ok(found) && found == bounds,
            Err(fault) => r matches Err(e) && fault_in(e) == Some(fault),
        },
{
    let low: i64 = match bound_of_query(raw, query, "low") {
        Ok(low) => low,
        Err(e) => {
            return Err(e);
        },
    };
    match bound_of_query(raw, query, "high") {
        Ok(high) => Ok((low, high)),
        Err(e) => Err(e),
    }
}

/// Reads a query.
pub fn parse_query(request: &[char], rows: usize) -> (r: Result<Query, StudyError>)
    ensures
        match query_in(request@, rows) {
            Ok(query) => r matches Ok(found) && found == query,
            Err(fault) => r matches Err(e) && fault_in(e) == Some(fault),
        },
{
    let raw = match field(request, "query") {
        Some(raw) => raw,
        None => {
            return Err(StudyError::MissingQuery);
        },
    };
    let kind = match string_field(raw.as_slice(), "kind") {
        Some(kind) => kind,
        None => {
            return Err(StudyError::QueryKindAbsent);
        },
    };
    let span = Span { start: 0, end: rows };
    if same(&kind, "get") {
        let row: usize = match number_field(raw.as_slice(), "row") {
            #[verifier::truncate]
            Some(row) => row as usize,
            None => 0,
        };
        return Ok(Query::Get { row });
    }
    if same(&kind, "sum") {
        return Ok(Query::Sum { rows: span });
    }
    if same(&kind, "between") {
        return match bounds_of_query(raw.as_slice(), "between") {
            Ok((low, high)) => Ok(Query::Between { rows: span, low, high }),
            Err(e) => Err(e),
        };
    }
    if same(&kind, "filter_between") {
        return match bounds_of_query(raw.as_slice(), "filter") {
            Ok((low, high)) => Ok(Query::Filter { predicate: Predicate::Between { low, high } }),
            Err(e) => Err(e),
        };
    }
    if same(&kind, "filter_equals") {
        return match bound_of_query(raw.as_slice(), "filter", "value") {
            Ok(value) => Ok(Query::Filter { predicate: Predicate::Equals { value } }),
            Err(e) => Err(e),
        };
    }
    Err(StudyError::UnknownQueryKind(text_of(kind.as_slice())))
}

// ----- columns -----

/// Why a request has no column.
#[derive(Clone, Debug, PartialEq, Eq)]
pub enum BuildError {
    Request(StudyError),
    Encoding(Error),
}

/// The values and the recipe of a request.
pub open spec fn column_in(request: Seq<char>) -> Result<
    (Seq<Option<i64>>, Recipe),
    RequestFault,
> {
    match values_in(request, "values"@) {
        None => Err(RequestFault::MissingValues),
        Some(values) => match string_in(request, "recipe"@) {
            None => Err(RequestFault::MissingRecipe),
            Some(text) => match recipe_in(text) {
                Ok(recipe) => Ok((values, recipe)),
                Err(fault) => Err(fault),
            },
        },
    }
}

/// Encodes the column of a request.
pub fn build(request: &[char]) -> (r: Result<EncodedColumn, BuildError>)
    ensures
        match column_in(request@) {
            Err(fault) => r matches Err(BuildError::Request(e)) && fault_in(e) == Some(fault),
            Ok((values, recipe)) => match r {
                Ok(column) => column.encodes(recipe, values, Set::<usize>::empty()),
                Err(BuildError::Encoding(e)) => match encoding(
                    recipe,
                    values,
                    Set::<usize>::empty(),
                ) {
                    Err(found) => e == found,
                    Ok((build, root)) => match decoder_error(build.nodes, root) {
                        Some(found) => e == found,
                        None => finish_error(build.plan) == Some(e),
                    },
                },
                Err(BuildError::Request(_)) => false,
            },
        },
{
    broadcast use vstd::std_specs::btree::group_btree_axioms;

    let values = match values_field(request, "values") {
        Some(values) => values,
        None => {
            return Err(BuildError::Request(StudyError::MissingValues));
        },
    };
    let text = match string_field(request, "recipe") {
        Some(text) => text,
        None => {
            return Err(BuildError::Request(StudyError::MissingRecipe));
        },
    };
    let recipe = match parse_recipe(text.as_slice()) {
        Ok(recipe) => recipe,
        Err(e) => {
            return Err(BuildError::Request(e));
        },
    };
    match encode(&recipe, InputColumn { values, patch_rows: BTreeSet::new() }) {
        Ok(column) => Ok(column),
        Err(e) => Err(BuildError::Encoding(e)),
    }
}

} // verus!
