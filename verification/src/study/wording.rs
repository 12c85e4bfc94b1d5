//! Text of reports.
use crate::access_compiler::text::push_decimal;
#[allow(unused_imports)]
use crate::access_compiler::text::{decimal, digit_char};
#[allow(unused_imports)]
use vstd::string::*;
use vstd::prelude::*;

verus! {

/// The characters of a text.
pub fn chars_of(text: &str) -> (r: Vec<char>)
    ensures
        r@ == text@,
{
    let mut list: Vec<char> = Vec::new();
    for c in it: text.chars()
        invariant
            it.seq() == text@,
            list@ == text@.take(it.index() as int),
    {
        assert(text@.take(it.index() + 1) =~= text@.take(it.index() as int).push(c));
        list.push(c);
    }
    assert(text@.take(text@.len() as int) =~= text@);
    list
}

/// The text of some characters.
pub fn text_of(list: &[char]) -> (r: String)
    ensures
        r@ == list@,
{
    let mut text = String::new();
    let mut i: usize = 0;
    while i < list.len()
        invariant
            i <= list@.len(),
            text@ == list@.take(i as int),
        decreases list@.len() - i,
    {
        text.push(list[i]);
        assert(list@.take(i + 1) =~= list@.take(i as int).push(list@[i as int]));
        i = i + 1;
    }
    assert(list@.take(i as int) =~= list@);
    text
}

/// A text whose characters are each replaced by a text.
pub open spec fn replaced(text: Seq<char>, change: spec_fn(char) -> Seq<char>) -> Seq<char>
    decreases text.len(),
{
    if text.len() == 0 {
        Seq::empty()
    } else {
        replaced(text.drop_last(), change) + change(text.last())
    }
}

/// A quote is doubled.
pub open spec fn doubled_quote() -> spec_fn(char) -> Seq<char> {
    |c: char|
        if c == '"' {
            seq!['"', '"']
        } else {
            seq![c]
        }
}

/// A text in quotes, with the quotes in it doubled.
pub fn quote(value: &str) -> (r: String)
    ensures
        r@ == seq!['"'] + replaced(value@, doubled_quote()) + seq!['"'],
{
    let list = chars_of(value);
    let ghost change = doubled_quote();
    let mut text = String::new();
    text.push('"');
    let mut i: usize = 0;
    assert(list@.take(0) =~= Seq::empty());
    assert(text@ =~= seq!['"'] + replaced(list@.take(0), change));
    while i < list.len()
        invariant
            i <= list@.len(),
            change == doubled_quote(),
            text@ == seq!['"'] + replaced(list@.take(i as int), change),
        decreases list@.len() - i,
    {
        let c: char = list[i];
        proof {
            assert(list@.take(i + 1).drop_last() =~= list@.take(i as int));
        }
        let ghost before = text@;
        if c == '"' {
            text.push('"');
        }
        text.push(c);
        assert(text@ =~= before + change(c));
        assert(text@ =~= seq!['"'] + replaced(list@.take(i + 1), change));
        i = i + 1;
    }
    assert(list@.take(i as int) =~= value@);
    text.push('"');
    assert(text@ =~= seq!['"'] + replaced(value@, change) + seq!['"']);
    text
}

/// An underscore is escaped.
pub open spec fn escaped_underscore() -> spec_fn(char) -> Seq<char> {
    |c: char|
        if c == '_' {
            seq!['\\', '_']
        } else {
            seq![c]
        }
}

/// A label with its underscores escaped.
pub fn escape_display_label(value: &str) -> (r: String)
    ensures
        r@ == replaced(value@, escaped_underscore()),
{
    let list = chars_of(value);
    let ghost change = escaped_underscore();
    let mut text = String::new();
    let mut i: usize = 0;
    assert(list@.take(0) =~= Seq::empty());
    assert(text@ =~= replaced(list@.take(0), change));
    while i < list.len()
        invariant
            i <= list@.len(),
            change == escaped_underscore(),
            text@ == replaced(list@.take(i as int), change),
        decreases list@.len() - i,
    {
        let c: char = list[i];
        proof {
            assert(list@.take(i + 1).drop_last() =~= list@.take(i as int));
        }
        let ghost before = text@;
        if c == '_' {
            text.push('\\');
        }
        text.push(c);
        assert(text@ =~= before + change(c));
        i = i + 1;
    }
    assert(list@.take(i as int) =~= value@);
    text
}

/// The first `n` of a text's characters, with a comma before each group of three
/// that follows others.
pub open spec fn grouped(text: Seq<char>, n: int) -> Seq<char>
    decreases n,
{
    if n <= 0 {
        Seq::empty()
    } else if n - 1 > 0 && (text.len() - (n - 1)) % 3 == 0 {
        grouped(text, n - 1).push(',').push(text[n - 1])
    } else {
        grouped(text, n - 1).push(text[n - 1])
    }
}

/// A number with commas between its groups of three digits.
pub fn group_digits(value: &str) -> (r: String)
    ensures
        r@ == grouped(value@, value@.len() as int),
{
    let list = chars_of(value);
    let mut text = String::new();
    let mut i: usize = 0;
    while i < list.len()
        invariant
            i <= list@.len(),
            list@ == value@,
            text@ == grouped(value@, i as int),
        decreases list@.len() - i,
    {
        if i > 0 && (list.len() - i) % 3 == 0 {
            text.push(',');
        }
        text.push(list[i]);
        i = i + 1;
    }
    text
}

// ----- finding and trimming -----

/// Characters that are trimmed.
#[derive(Clone, Copy, Debug, PartialEq, Eq, Structural)]
pub enum Trim {
    Space,
    One(char),
}

/// A character that leaves a gap.
pub open spec fn is_space(c: char) -> bool {
    let n = c as int;
    ||| 0x9 <= n <= 0xd
    ||| n == 0x20
    ||| n == 0x85
    ||| n == 0xa0
    ||| n == 0x1680
    ||| 0x2000 <= n <= 0x200a
    ||| n == 0x2028
    ||| n == 0x2029
    ||| n == 0x202f
    ||| n == 0x205f
    ||| n == 0x3000
}

/// A character is trimmed.
pub open spec fn trims(what: Trim, c: char) -> bool {
    match what {
        Trim::Space => is_space(c),
        Trim::One(one) => c == one,
    }
}

fn to_trim(what: Trim, c: char) -> (r: bool)
    ensures
        r == trims(what, c),
{
    match what {
        Trim::Space => {
            let n: u32 = c as u32;
            (0x9 <= n && n <= 0xd) || n == 0x20 || n == 0x85 || n == 0xa0 || n == 0x1680 || (0x2000
                <= n && n <= 0x200a) || n == 0x2028 || n == 0x2029 || n == 0x202f || n == 0x205f
                || n == 0x3000
        },
        Trim::One(one) => c == one,
    }
}

/// Where a text starts that has nothing to trim in front, from some place on.
pub open spec fn start_from(text: Seq<char>, what: Trim, from: int) -> int
    decreases text.len() - from,
{
    if from < text.len() && trims(what, text[from]) {
        start_from(text, what, from + 1)
    } else {
        from
    }
}

/// Where a text ends that starts at some place and has nothing to trim behind.
pub open spec fn end_before(text: Seq<char>, what: Trim, from: int, end: int) -> int
    decreases end - from,
{
    if from < end && trims(what, text[end - 1]) {
        end_before(text, what, from, end - 1)
    } else {
        end
    }
}

/// A text without what is trimmed in front.
pub open spec fn trimmed_start(text: Seq<char>, what: Trim) -> Seq<char> {
    text.skip(start_from(text, what, 0))
}

/// A text without what is trimmed behind.
pub open spec fn trimmed_end(text: Seq<char>, what: Trim) -> Seq<char> {
    text.take(end_before(text, what, 0, text.len() as int))
}

/// A text without what is trimmed in front and behind.
pub open spec fn trimmed(text: Seq<char>, what: Trim) -> Seq<char> {
    trimmed_end(trimmed_start(text, what), what)
}

pub proof fn lemma_trims(text: Seq<char>, what: Trim)
    ensures
        0 <= start_from(text, what, 0) <= text.len(),
        0 <= end_before(text, what, 0, text.len() as int) <= text.len(),
        trimmed_start(text, what).len() <= text.len(),
        trimmed_end(text, what).len() <= text.len(),
        trimmed(text, what).len() <= text.len(),
{
    lemma_start(text, what, 0);
    lemma_end(text, what, text.len() as int);
    let rest = trimmed_start(text, what);
    lemma_end(rest, what, rest.len() as int);
}

proof fn lemma_start(text: Seq<char>, what: Trim, from: int)
    requires
        0 <= from <= text.len(),
    ensures
        from <= start_from(text, what, from) <= text.len(),
    decreases text.len() - from,
{
    if from < text.len() && trims(what, text[from]) {
        lemma_start(text, what, from + 1);
    }
}

proof fn lemma_end(text: Seq<char>, what: Trim, end: int)
    requires
        0 <= end <= text.len(),
    ensures
        0 <= end_before(text, what, 0, end) <= end,
    decreases end,
{
    if 0 < end && trims(what, text[end - 1]) {
        lemma_end(text, what, end - 1);
    }
}

/// Some of the characters.
pub fn part(text: &[char], from: usize, end: usize) -> (r: Vec<char>)
    requires
        from <= end <= text@.len(),
    ensures
        r@ == text@.subrange(from as int, end as int),
{
    let mut list: Vec<char> = Vec::new();
    let mut i: usize = from;
    while i < end
        invariant
            from <= i <= end <= text@.len(),
            list@ == text@.subrange(from as int, i as int),
        decreases end - i,
    {
        list.push(text[i]);
        assert(text@.subrange(from as int, i + 1) =~= text@.subrange(from as int, i as int).push(
            text@[i as int],
        ));
        i = i + 1;
    }
    list
}

/// Trims in front.
pub fn trim_start(text: &[char], what: Trim) -> (r: Vec<char>)
    ensures
        r@ == trimmed_start(text@, what),
{
    let mut from: usize = 0;
    while from < text.len() && to_trim(what, text[from])
        invariant
            from <= text@.len(),
            start_from(text@, what, from as int) == start_from(text@, what, 0),
        decreases text@.len() - from,
    {
        from = from + 1;
    }
    let rest = part(text, from, text.len());
    assert(rest@ =~= trimmed_start(text@, what));
    rest
}

/// Trims behind.
pub fn trim_end(text: &[char], what: Trim) -> (r: Vec<char>)
    ensures
        r@ == trimmed_end(text@, what),
{
    let mut end: usize = text.len();
    while end > 0 && to_trim(what, text[end - 1])
        invariant
            end <= text@.len(),
            end_before(text@, what, 0, end as int) == end_before(
                text@,
                what,
                0,
                text@.len() as int,
            ),
        decreases end,
    {
        end = end - 1;
    }
    let rest = part(text, 0, end);
    assert(rest@ =~= trimmed_end(text@, what));
    rest
}

/// Trims in front and behind.
pub fn trim(text: &[char], what: Trim) -> (r: Vec<char>)
    ensures
        r@ == trimmed(text@, what),
{
    let rest = trim_start(text, what);
    trim_end(rest.as_slice(), what)
}

/// Where a character is first, from some place on.
pub open spec fn first_of(text: Seq<char>, c: char, from: int) -> Option<int>
    decreases text.len() - from,
{
    if from >= text.len() {
        None
    } else if text[from] == c {
        Some(from)
    } else {
        first_of(text, c, from + 1)
    }
}

pub proof fn lemma_first_of(text: Seq<char>, c: char, from: int)
    requires
        0 <= from,
    ensures
        first_of(text, c, from) matches Some(at) ==> from <= at < text.len() && text[at] == c,
    decreases text.len() - from,
{
    if from < text.len() && text[from] != c {
        lemma_first_of(text, c, from + 1);
    }
}

/// Finds a character.
pub fn find_char(text: &[char], c: char, from: usize) -> (r: Option<usize>)
    requires
        from <= text@.len(),
    ensures
        match first_of(text@, c, from as int) {
            Some(at) => r matches Some(found) && found == at && from <= at < text@.len(),
            None => r is None,
        },
{
    let mut at: usize = from;
    while at < text.len()
        invariant
            from <= at <= text@.len(),
            first_of(text@, c, at as int) == first_of(text@, c, from as int),
        decreases text@.len() - at,
    {
        if text[at] == c {
            return Some(at);
        }
        at = at + 1;
    }
    None
}

/// A text stands at some place.
pub open spec fn stands_at(text: Seq<char>, needle: Seq<char>, at: int) -> bool {
    at + needle.len() <= text.len() && text.subrange(at, at + needle.len()) == needle
}

/// Where a text first stands, from some place on.
pub open spec fn first_place(text: Seq<char>, needle: Seq<char>, from: int) -> Option<int>
    decreases text.len() + 1 - from,
{
    if from > text.len() {
        None
    } else if stands_at(text, needle, from) {
        Some(from)
    } else {
        first_place(text, needle, from + 1)
    }
}

/// Finds a text.
pub fn find_text(text: &[char], needle: &[char]) -> (r: Option<usize>)
    ensures
        match first_place(text@, needle@, 0) {
            Some(at) => r matches Some(found) && found == at && at + needle@.len() <= text@.len(),
            None => r is None,
        },
{
    let len: usize = text.len();
    let mut at: usize = 0;
    while needle.len() <= len - at
        invariant
            len == text@.len(),
            at <= text@.len(),
            first_place(text@, needle@, at as int) == first_place(text@, needle@, 0),
        decreases text@.len() - at,
    {
        let mut same: bool = true;
        let mut i: usize = 0;
        while i < needle.len() && same
            invariant
                i <= needle@.len(),
                len == text@.len(),
                at + needle@.len() <= len,
                same ==> forall|k: int|
                    0 <= k < i ==> #[trigger] text@[at + k] == needle@[k],
                !same ==> exists|k: int|
                    0 <= k < needle@.len() && #[trigger] text@[at + k] != needle@[k],
            decreases needle@.len() - i,
        {
            if text[at + i] != needle[i] {
                assert(text@[at + i] != needle@[i as int]);
                same = false;
            }
            i = i + 1;
        }
        if same {
            proof {
                let found = text@.subrange(at as int, at + needle@.len());
                assert forall|k: int| 0 <= k < needle@.len() implies found[k] == needle@[k] by {
                    assert(text@[at + k] == needle@[k]);
                }
                assert(found =~= needle@);
            }
            return Some(at);
        }
        proof {
            let k = choose|k: int|
                0 <= k < needle@.len() && #[trigger] text@[at + k] != needle@[k];
            assert(text@.subrange(at as int, at + needle@.len())[k] != needle@[k]);
        }
        if at == text.len() {
            return None;
        }
        at = at + 1;
    }
    proof {
        lemma_no_room(text@, needle@, at as int);
    }
    None
}

proof fn lemma_no_room(text: Seq<char>, needle: Seq<char>, at: int)
    requires
        0 <= at,
        at + needle.len() > text.len(),
    ensures
        first_place(text, needle, at) is None,
    decreases text.len() + 1 - at,
{
    if at <= text.len() {
        lemma_no_room(text, needle, at + 1);
    }
}

// ----- numbers -----

/// The value of a decimal digit.
pub open spec fn digit_value(c: char) -> Option<int> {
    if '0' <= c && c <= '9' {
        Some(c as int - '0' as int)
    } else {
        None
    }
}

/// The number that the first `n` characters are in decimal.
pub open spec fn digits_value(text: Seq<char>, n: int) -> Option<int>
    decreases n,
{
    if n <= 0 {
        Some(0)
    } else {
        match (digits_value(text, n - 1), digit_value(text[n - 1])) {
            (Some(before), Some(digit)) => Some(before * 10 + digit),
            _ => None,
        }
    }
}

/// A whole number in decimal: digits, perhaps behind a sign.
pub open spec fn number_in(text: Seq<char>) -> Option<int> {
    if text.len() == 0 {
        None
    } else if text[0] == '-' || text[0] == '+' {
        let digits = text.skip(1);
        if digits.len() == 0 {
            None
        } else {
            match digits_value(digits, digits.len() as int) {
                Some(size) => Some(if text[0] == '-' {
                    -size
                } else {
                    size
                }),
                None => None,
            }
        }
    } else {
        digits_value(text, text.len() as int)
    }
}

proof fn lemma_digits_grow(text: Seq<char>, i: int, n: int)
    requires
        0 <= i <= n,
        digits_value(text, n) is Some,
    ensures
        digits_value(text, i) is Some,
        0 <= digits_value(text, i)->0 <= digits_value(text, n)->0,
    decreases n - i,
{
    if i < n {
        lemma_digits_grow(text, i, n - 1);
    } else {
        lemma_digits_positive(text, n);
    }
}

proof fn lemma_digits_positive(text: Seq<char>, n: int)
    requires
        digits_value(text, n) is Some,
    ensures
        digits_value(text, n)->0 >= 0,
    decreases n,
{
    if n > 0 {
        lemma_digits_positive(text, n - 1);
    }
}

proof fn lemma_digits_fail(text: Seq<char>, i: int, n: int)
    requires
        0 <= i <= n,
        digits_value(text, i) is None,
    ensures
        digits_value(text, n) is None,
    decreases n,
{
    if i < n {
        lemma_digits_fail(text, i, n - 1);
    }
}

/// Reads digits, as far as the number is less than two to the power of 64.
fn read_digits(text: &[char]) -> (r: Option<u64>)
    ensures
        match digits_value(text@, text@.len() as int) {
            Some(value) => if value <= u64::MAX {
                r matches Some(found) && found == value
            } else {
                r is None
            },
            None => r is None,
        },
{
    let mut value: u64 = 0;
    let mut i: usize = 0;
    while i < text.len()
        invariant
            i <= text@.len(),
            digits_value(text@, i as int) == Some(value as int),
        decreases text@.len() - i,
    {
        let c: char = text[i];
        if !('0' <= c && c <= '9') {
            proof {
                lemma_digits_fail(text@, i + 1, text@.len() as int);
            }
            return None;
        }
        let digit: u64 = (c as u32 - '0' as u32) as u64;
        if value > (u64::MAX - digit) / 10 {
            proof {
                if digits_value(text@, text@.len() as int) is Some {
                    lemma_digits_grow(text@, i + 1, text@.len() as int);
                }
            }
            return None;
        }
        value = value * 10 + digit;
        i = i + 1;
    }
    Some(value)
}

/// Reads a whole number that a signed number of 64 bits can be.
pub fn read_signed(text: &[char]) -> (r: Option<i64>)
    ensures
        match number_in(text@) {
            Some(value) => if i64::MIN <= value <= i64::MAX {
                r matches Some(found) && found == value
            } else {
                r is None
            },
            None => r is None,
        },
{
    if text.len() == 0 {
        return None;
    }
    let negative: bool = text[0] == '-';
    if !negative && text[0] != '+' {
        return match read_digits(text) {
            Some(size) => if size <= i64::MAX as u64 {
                Some(size as i64)
            } else {
                None
            },
            None => None,
        };
    }
    let digits = part(text, 1, text.len());
    assert(digits@ =~= text@.skip(1));
    if digits.len() == 0 {
        return None;
    }
    match read_digits(digits.as_slice()) {
        Some(size) => if !negative {
            if size <= i64::MAX as u64 {
                Some(size as i64)
            } else {
                None
            }
        } else if size <= i64::MAX as u64 {
            Some(-(size as i64))
        } else if size == 0x8000_0000_0000_0000 {
            Some(i64::MIN)
        } else {
            None
        },
        None => None,
    }
}

/// Reads a number without a sign in front, or with a plus, that a size can be.
pub fn read_size(text: &[char]) -> (r: Option<usize>)
    ensures
        match number_in(text@) {
            Some(value) => if text@[0] != '-' && value <= usize::MAX {
                r matches Some(found) && found == value
            } else {
                r is None
            },
            None => r is None,
        },
{
    if text.len() == 0 || text[0] == '-' {
        return None;
    }
    let digits = if text[0] == '+' {
        part(text, 1, text.len())
    } else {
        part(text, 0, text.len())
    };
    assert(text@[0] != '+' ==> digits@ =~= text@);
    assert(text@[0] == '+' ==> digits@ =~= text@.skip(1));
    if digits.len() == 0 {
        return None;
    }
    match read_digits(digits.as_slice()) {
        Some(size) => {
            proof {
                lemma_digits_positive(digits@, digits@.len() as int);
            }
            if size <= usize::MAX as u64 {
                Some(size as usize)
            } else {
                None
            }
        },
        None => None,
    }
}

/// A whole number in decimal.
pub open spec fn signed_decimal(n: int) -> Seq<char> {
    if n < 0 {
        seq!['-'] + decimal((-n) as nat)
    } else {
        decimal(n as nat)
    }
}

/// Appends a whole number in decimal.
pub fn push_signed(text: &mut String, n: i128)
    ensures
        final(text)@ == old(text)@ + signed_decimal(n as int),
{
    if n < 0 {
        text.push('-');
        let size: u128 = if n == i128::MIN {
            170141183460469231731687303715884105728
        } else {
            (-n) as u128
        };
        push_decimal(text, size);
        assert(text@ =~= old(text)@ + signed_decimal(n as int));
    } else {
        push_decimal(text, n as u128);
    }
}

/// A number in decimal.
pub fn decimal_text(n: usize) -> (r: String)
    ensures
        r@ == decimal(n as nat),
{
    let mut text = String::new();
    push_decimal(&mut text, n as u128);
    assert(text@ =~= decimal(n as nat));
    text
}

/// A whole number in decimal.
pub fn signed_text(n: i128) -> (r: String)
    ensures
        r@ == signed_decimal(n as int),
{
    let mut text = String::new();
    push_signed(&mut text, n);
    assert(text@ =~= signed_decimal(n as int));
    text
}

/// The first `n` of some numbers in decimal, with a text between them.
pub open spec fn joined(values: Seq<usize>, separator: Seq<char>, n: int) -> Seq<char>
    decreases n,
{
    if n <= 0 {
        Seq::empty()
    } else if n == 1 {
        decimal(values[0] as nat)
    } else {
        joined(values, separator, n - 1) + separator + decimal(values[n - 1] as nat)
    }
}

/// Numbers in decimal, with a text between them.
pub fn join_usize(values: &[usize], separator: &str) -> (r: String)
    ensures
        r@ == joined(values@, separator@, values@.len() as int),
{
    let mut text = String::new();
    let mut i: usize = 0;
    while i < values.len()
        invariant
            i <= values@.len(),
            text@ == joined(values@, separator@, i as int),
        decreases values@.len() - i,
    {
        if i > 0 {
            text.append(separator);
        }
        push_decimal(&mut text, values[i] as u128);
        assert(text@ =~= joined(values@, separator@, i + 1));
        i = i + 1;
    }
    text
}

/// The character of a hexadecimal digit.
pub open spec fn hex_digit(d: int) -> char {
    if d < 10 {
        crate::access_compiler::text::digit(d)
    } else if d == 10 {
        'a'
    } else if d == 11 {
        'b'
    } else if d == 12 {
        'c'
    } else if d == 13 {
        'd'
    } else if d == 14 {
        'e'
    } else {
        'f'
    }
}

pub fn hex_char(d: u8) -> (r: char)
    requires
        d < 16,
    ensures
        r == hex_digit(d as int),
{
    if d < 10 {
        digit_char(d)
    } else if d == 10 {
        'a'
    } else if d == 11 {
        'b'
    } else if d == 12 {
        'c'
    } else if d == 13 {
        'd'
    } else if d == 14 {
        'e'
    } else {
        'f'
    }
}

/// The first `n` bytes in hexadecimal, two digits each, with a text between them.
pub open spec fn hexed(bytes: Seq<u8>, separator: Seq<char>, n: int) -> Seq<char>
    decreases n,
{
    if n <= 0 {
        Seq::empty()
    } else {
        let before = if n == 1 {
            Seq::empty()
        } else {
            hexed(bytes, separator, n - 1) + separator
        };
        before.push(hex_digit(bytes[n - 1] as int / 16)).push(hex_digit(bytes[n - 1] as int % 16))
    }
}

/// Bytes in hexadecimal.
pub fn hex_text(bytes: &[u8], separator: &str) -> (r: String)
    ensures
        r@ == hexed(bytes@, separator@, bytes@.len() as int),
{
    let mut text = String::new();
    let mut i: usize = 0;
    while i < bytes.len()
        invariant
            i <= bytes@.len(),
            text@ == hexed(bytes@, separator@, i as int),
        decreases bytes@.len() - i,
    {
        if i > 0 {
            text.append(separator);
        }
        text.push(hex_char(bytes[i] / 16));
        text.push(hex_char(bytes[i] % 16));
        assert(text@ =~= hexed(bytes@, separator@, i + 1));
        i = i + 1;
    }
    text
}

} // verus!
