//! The interval between updates.

use crate::error::{Error, ErrorView};
use crate::numeral::{digit_value, read_digit};
use crate::text::{find_char, lemma_found, position, slice, to_chars, to_text};
use humantime::DurationError;
use vstd::prelude::*;

verus! {

/// The shortest span that is too long for an interval, in nanoseconds.
pub const LIMIT: u128 = 18_446_744_073_709_551_616_000_000_000;

/// A span of time: whole seconds, and the nanoseconds beyond them.
#[derive(Clone, Copy, Debug, PartialEq, Eq, Structural)]
pub struct Interval {
    pub seconds: u64,
    pub nanoseconds: u32,
}

impl Interval {
    /// The length in nanoseconds.
    pub open spec fn length(self) -> int {
        self.seconds * 1_000_000_000 + self.nanoseconds
    }
}

/// The interval that a text writes, such as `5m` or `1h 30min`, or why it
/// writes none: what `humantime` makes of it.
pub uninterp spec fn interval_of(text: Seq<char>) -> Result<Interval, DurationError>;

/// Whether a character is a letter, of which the units are made.
pub open spec fn is_letter(c: char) -> bool {
    let code = c as nat;
    97 <= code <= 122 || 65 <= code <= 90
}

/// Whether a word ends right before `end`, and so a part of the text, which is
/// a number and its unit.
pub open spec fn is_word_end(text: Seq<char>, end: int) -> bool {
    &&& 0 < end <= text.len()
    &&& is_letter(text[end - 1])
    &&& end < text.len() ==> !is_letter(text[end])
}

/// Where the last word before `end` ends; zero if there is none.
pub open spec fn word_end_before(text: Seq<char>, end: int) -> int
    decreases end,
{
    if end <= 1 {
        0
    } else if is_word_end(text, end - 1) {
        end - 1
    } else {
        word_end_before(text, end - 1)
    }
}

/// Whether a part counts seconds: the first letter of its unit is `s`. The
/// micro sign is the first letter of a unit as well.
pub open spec fn counts_seconds(part: Seq<char>) -> bool {
    exists|k: int|
        {
            &&& 0 <= k < part.len()
            &&& #[trigger] part[k] == 's'
            &&& forall|j: int|
                0 <= j < k ==> !is_letter(#[trigger] part[j]) && part[j] != '\u{b5}'
        }
}

/// What shows whether the part that ends right before `end` is cut short: the
/// next character, unless there is none or it starts the next part.
pub open spec fn cut(text: Seq<char>, end: int) -> int {
    if end < text.len() && digit_value(text[end], 10) is None {
        end + 1
    } else {
        end
    }
}

/// Where the last digit of a text ends; zero if there is none.
pub open spec fn digits_end(text: Seq<char>) -> nat
    decreases text.len(),
{
    if text.len() == 0 || digit_value(text.last(), 10) is Some {
        text.len()
    } else {
        digits_end(text.drop_last())
    }
}

/// A part without the fraction of its number: without its first point and what
/// follows that, up to the last digit.
pub open spec fn without_fraction(part: Seq<char>) -> Seq<char> {
    let point = position(part, '.', 0) as int;
    if point < part.len() {
        part.take(point) + part.skip(digits_end(part) as int)
    } else {
        part
    }
}

/// The fraction of the number of a part: what stands between its first point
/// and the end of its last digit.
pub open spec fn fraction(part: Seq<char>) -> Seq<char> {
    let point = position(part, '.', 0) as int;
    let end = digits_end(part) as int;
    if point < end {
        part.subrange(point + 1, end)
    } else {
        Seq::empty()
    }
}

/// How many digits a text has.
pub open spec fn digit_count(text: Seq<char>) -> nat
    decreases text.len(),
{
    if text.len() == 0 {
        0
    } else if digit_value(text.last(), 10) is Some {
        digit_count(text.drop_last()) + 1
    } else {
        digit_count(text.drop_last())
    }
}

/// A fraction as a number of nanoseconds.
pub open spec fn as_nanoseconds(fraction: Seq<char>) -> Seq<char> {
    seq!['0'] + fraction + seq!['n', 's']
}

/// Whether a fraction is well formed: its digits can be counted by a power of
/// ten that fits, and nothing but blanks stands among them, so that they are
/// read if they are taken for a number. `counted` is what that is read as.
pub open spec fn is_well_formed(
    fraction: Seq<char>,
    counted: Result<Interval, DurationError>,
) -> bool {
    digit_count(fraction) <= 19 && counted is Ok
}

/// Whether a part takes the sum of those before it from the last second that
/// fits to exactly the limit. Of a part with a fraction the whole units are
/// added first, once the fraction is found to be well formed; a part below a
/// second is added in nanoseconds. `whole` is what the part is read as without
/// its fraction, `counted` what the fraction is read as as a number, and `read`
/// what the part is read as.
pub open spec fn hits_limit(
    sum: Interval,
    part: Seq<char>,
    whole: Result<Interval, DurationError>,
    counted: Result<Interval, DurationError>,
    read: Result<Interval, DurationError>,
) -> bool {
    match whole {
        Ok(units) => {
            let before = sum.length() + units.length();
            ||| {
                &&& sum.seconds == u64::MAX
                &&& before == LIMIT
                &&& !counts_seconds(part)
                &&& is_well_formed(fraction(part), counted)
            }
            ||| {
                &&& LIMIT - 1_000_000_000 <= before < LIMIT
                &&& read matches Ok(more) && sum.length() + more.length() == LIMIT
                &&& position(part, '.', 0) < part.len()
                &&& counts_seconds(part) || units.length() > u64::MAX || sum.nanoseconds
                    + units.length() <= u64::MAX
            }
        },
        Err(_) => false,
    }
}

/// Whether the part that ends right before `end` takes the sum of the parts
/// before it to exactly the limit.
pub open spec fn hits_limit_at(text: Seq<char>, end: int) -> bool {
    let start = word_end_before(text, end);
    let part = text.subrange(start, end);
    let next = text.subrange(end, cut(text, end));
    &&& start > 0
    &&& interval_of(text.take(cut(text, start))) matches Ok(sum) && hits_limit(
        sum,
        part,
        interval_of(without_fraction(part) + next),
        interval_of(as_nanoseconds(fraction(part))),
        interval_of(part + next),
    )
}

/// Whether no part of an interval's text takes the sum to exactly the limit.
/// A sum that falls short of it or goes beyond it is fine.
pub open spec fn stays_clear(text: Seq<char>) -> bool {
    forall|end: int| #[trigger] is_word_end(text, end) ==> !hits_limit_at(text, end)
}

/// At most how long a number of units is that start with a character, in
/// nanoseconds: months for `m`, and years where there is no telling.
pub open spec fn weighed(number: nat, c: char) -> nat {
    if c == 'n' {
        number
    } else if c == 'u' {
        number * 1_000
    } else if c == 's' {
        number * 1_000_000_000
    } else if c == 'h' {
        number * 3_600_000_000_000
    } else if c == 'm' {
        number * 2_630_016_000_000_000
    } else {
        number * 31_557_600_000_000_000
    }
}

/// The numbers of a text: the sum of those that a letter or a point has ended,
/// each weighed by that, and the one that is still being written.
pub open spec fn tally(text: Seq<char>) -> (nat, nat)
    decreases text.len(),
{
    if text.len() == 0 {
        (0, 0)
    } else {
        let (ended, number) = tally(text.drop_last());
        let c = text.last();
        match digit_value(c, 10) {
            Some(digit) => (ended, number * 10 + digit),
            None => if is_letter(c) || c == '.' {
                (ended + weighed(number, c), 0)
            } else {
                (ended, number)
            },
        }
    }
}

/// Whether the numbers of a text are too small to add up to the last second
/// before the limit.
pub open spec fn is_moderate(text: Seq<char>) -> bool {
    tally(text).0 + tally(text).1 < LIMIT - 1_000_000_000
}

/// Whether an interval's text can be read: its numbers are moderate, or its
/// parts do not take the sum to exactly the limit.
pub open spec fn is_bounded(text: Seq<char>) -> bool {
    is_moderate(text) || stays_clear(text)
}

/// Calls `humantime::parse_duration`. Which duration the text is, or why it is
/// none, depends on the text alone.
///
/// The call adds the parts of the text up one by one. It reports a sum that
/// does not fit, but for one case, in which it panics: the sum so far is in its
/// last second, and a part below a second, or the fraction of a part, completes
/// exactly that second. Moderate numbers do not get there. Otherwise, what the
/// sum so far is shows in what the call makes of the text up to there, so that
/// a text without such a part is safe if its beginnings are. A single part has
/// no sum before it and is always safe. The texts left out are just those that
/// panic.
#[verifier::external_body]
fn parse_duration(text: &str) -> (read: Result<Interval, DurationError>)
    requires
        is_bounded(text@),
    ensures
        read == interval_of(text@),
        read matches Ok(interval) ==> interval.nanoseconds < 1_000_000_000,
{
    humantime::parse_duration(text).map(
        |duration| Interval {
            seconds: duration.as_secs(),
            nanoseconds: duration.subsec_nanos(),
        },
    )
}

/// No word ends between the last word before `end` and `end`.
proof fn lemma_no_word_end_between(text: Seq<char>, end: int, at: int)
    requires
        word_end_before(text, end) < at < end,
    ensures
        !is_word_end(text, at),
    decreases end,
{
    if end > 1 && at < end - 1 {
        lemma_no_word_end_between(text, end - 1, at);
    }
}

/// The last word before `end` ends there.
proof fn lemma_word_end_before(text: Seq<char>, end: int)
    requires
        end <= text.len(),
    ensures
        0 <= word_end_before(text, end),
        word_end_before(text, end) > 0 ==> word_end_before(text, end) < end && is_word_end(
            text,
            word_end_before(text, end),
        ),
    decreases end,
{
    if end > 1 && !is_word_end(text, end - 1) {
        lemma_word_end_before(text, end - 1);
    }
}

/// The words of the beginning of a text end where they do in the text.
proof fn lemma_words_of_beginning(text: Seq<char>, len: int, end: int)
    requires
        is_word_end(text, len),
        end <= len,
    ensures
        is_word_end(text.take(cut(text, len)), end) == is_word_end(text, end),
        word_end_before(text.take(cut(text, len)), end) == word_end_before(text, end),
    decreases end,
{
    if end > 1 {
        lemma_words_of_beginning(text, len, end - 1);
    }
}

/// The beginning of a text stays clear of the limit if its parts do.
proof fn lemma_beginning_stays_clear(text: Seq<char>, len: int)
    requires
        is_word_end(text, len),
        forall|end: int| end <= len && #[trigger] is_word_end(text, end) ==> !hits_limit_at(text, end),
    ensures
        stays_clear(text.take(cut(text, len))),
{
    let beginning = text.take(cut(text, len));
    assert forall|end: int| #[trigger] is_word_end(beginning, end) implies !hits_limit_at(
        beginning,
        end,
    ) by {
        if end > len {
            assert(beginning[end - 1] == text[len]);
        }
        lemma_words_of_beginning(text, len, end);
        lemma_word_end_before(text, end);
        let start = word_end_before(text, end);
        assert(is_word_end(text, end));
        if start > 0 {
            assert(cut(beginning, end) == cut(text, end));
            assert(cut(beginning, start) == cut(text, start));
            assert(beginning.take(cut(text, start)) == text.take(cut(text, start)));
            assert(beginning.subrange(start, end) == text.subrange(start, end));
            assert(beginning.subrange(end, cut(text, end)) == text.subrange(end, cut(text, end)));
        }
    }
}

/// Whether the letters of a text stand together.
spec fn is_one_word(text: Seq<char>) -> bool {
    forall|i: int, j: int, k: int|
        0 <= i < j < k < text.len() && is_letter(#[trigger] text[i]) && is_letter(
            #[trigger] text[k],
        ) ==> is_letter(#[trigger] text[j])
}

/// A text of one word stays clear of the limit: there is no part before it.
proof fn lemma_one_word_stays_clear(text: Seq<char>)
    requires
        is_one_word(text),
    ensures
        stays_clear(text),
{
    assert forall|end: int| #[trigger] is_word_end(text, end) implies !hits_limit_at(text, end) by {
        lemma_word_end_before(text, end);
        let before = word_end_before(text, end);
        if before > 0 {
            assert(is_letter(text[before - 1]) && !is_letter(text[before]) && is_letter(
                text[end - 1],
            ));
        }
    }
}

/// Behind a letter of a part there are only letters.
proof fn lemma_letters_go_on(text: Seq<char>, end: int, i: int, j: int)
    requires
        is_word_end(text, end),
        word_end_before(text, end) <= i <= j < end,
        0 <= i,
        is_letter(text[i]),
    ensures
        is_letter(text[j]),
    decreases j - i,
{
    if i < j {
        lemma_no_word_end_between(text, end, i + 1);
        lemma_letters_go_on(text, end, i + 1, j);
    }
}

/// A part has one word, with its fraction and without, and whatever comes next.
proof fn lemma_part_is_one_word(text: Seq<char>, end: int)
    requires
        is_word_end(text, end),
    ensures
        ({
            let part = text.subrange(word_end_before(text, end), end);
            let next = text.subrange(end, cut(text, end));
            &&& is_one_word(part + next)
            &&& is_one_word(without_fraction(part) + next)
            &&& is_one_word(as_nanoseconds(fraction(part)))
        }),
{
    lemma_word_end_before(text, end);
    let start = word_end_before(text, end);
    let part = text.subrange(start, end);
    let next = text.subrange(end, cut(text, end));
    assert forall|i: int, j: int|
        0 <= i < j < part.len() && is_letter(#[trigger] part[i]) implies is_letter(
        #[trigger] part[j],
    ) by {
        lemma_letters_go_on(text, end, start + i, start + j);
    }
    assert(next.len() > 0 ==> next[0] == text[end] && !is_letter(next[0]));
    lemma_one_word_and_next(part, next);
    lemma_last_digit(part);
    let point = position(part, '.', 0) as int;
    let whole = without_fraction(part);
    assert forall|i: int, j: int|
        0 <= i < j < whole.len() && is_letter(#[trigger] whole[i]) implies is_letter(
        #[trigger] whole[j],
    ) by {
        if point < part.len() {
            lemma_found(part, '.', 0);
            if i < point {
                assert(whole[i] == part[i]);
                assert(is_letter(part[point]));
            } else {
                assert(whole[i] == part[digits_end(part) + i - point]);
                assert(whole[j] == part[digits_end(part) + j - point]);
            }
        }
    }
    lemma_one_word_and_next(whole, next);
    let digits = fraction(part);
    let counted = as_nanoseconds(digits);
    assert forall|i: int| 0 <= i < digits.len() implies !is_letter(#[trigger] digits[i]) by {
        let end = digits_end(part) as int;
        assert(digits[i] == part[point + 1 + i]);
        assert(!is_letter(part[end - 1]));
    }
    assert forall|i: int| 0 <= i < counted.len() - 2 implies !is_letter(#[trigger] counted[i]) by {
        if i > 0 {
            assert(counted[i] == digits[i - 1]);
        }
    }
}

/// A text whose letters stand at its end has one word, also with a character
/// behind it that is no letter.
proof fn lemma_one_word_and_next(text: Seq<char>, next: Seq<char>)
    requires
        forall|i: int, j: int|
            0 <= i < j < text.len() && is_letter(#[trigger] text[i]) ==> is_letter(
                #[trigger] text[j],
            ),
        next.len() <= 1,
        next.len() > 0 ==> !is_letter(next[0]),
    ensures
        is_one_word(text + next),
{
    let both = text + next;
    assert forall|i: int, j: int, k: int|
        0 <= i < j < k < both.len() && is_letter(#[trigger] both[i]) && is_letter(
            #[trigger] both[k],
        ) implies is_letter(#[trigger] both[j]) by {
        assert(k < text.len());
        assert(both[i] == text[i] && both[j] == text[j]);
    }
}

/// Where the last digit ends there is a digit.
proof fn lemma_last_digit(text: Seq<char>)
    ensures
        digits_end(text) <= text.len(),
        digits_end(text) > 0 ==> digit_value(text[digits_end(text) - 1], 10) is Some,
    decreases text.len(),
{
    if text.len() > 0 {
        lemma_last_digit(text.drop_last());
    }
}

/// Whether a character is a letter.
fn is_ascii_letter(c: char) -> (letter: bool)
    ensures
        letter == is_letter(c),
{
    let code: u32 = c as u32;
    97 <= code && code <= 122 || 65 <= code && code <= 90
}

/// Whether a part counts seconds.
fn has_seconds(part: &[char]) -> (seconds: bool)
    ensures
        seconds == counts_seconds(part@),
{
    for i in 0..part.len()
        invariant
            forall|j: int|
                0 <= j < i ==> !is_letter(#[trigger] part@[j]) && part@[j] != '\u{b5}',
    {
        if part[i] == 's' {
            assert(part@[i as int] == 's');
            return true;
        }
        if is_ascii_letter(part[i]) || part[i] == '\u{b5}' {
            assert(is_letter(part@[i as int]) || part@[i as int] == '\u{b5}');
            return false;
        }
    }
    false
}

/// Where the last digit of a text ends.
fn find_digits_end(text: &[char]) -> (end: usize)
    ensures
        end == digits_end(text@),
        end <= text@.len(),
{
    let mut end: usize = text.len();
    assert(text@.take(end as int) == text@);
    while end > 0 && read_digit(text[end - 1], 10).is_none()
        invariant
            end <= text@.len(),
            digits_end(text@) == digits_end(text@.take(end as int)),
        decreases end,
    {
        assert(text@.take(end as int).drop_last() == text@.take(end - 1));
        end = end - 1;
    }
    proof {
        if end > 0 {
            assert(text@.take(end as int).last() == text@[end - 1]);
        }
    }
    end
}

/// A part without the fraction of its number.
fn drop_fraction(part: &[char]) -> (whole: Vec<char>)
    ensures
        whole@ == without_fraction(part@),
{
    let point = find_char(part, '.');
    if point == part.len() {
        let whole = slice(part, 0, part.len());
        assert(whole@ == part@);
        return whole;
    }
    let mut whole = slice(part, 0, point);
    let mut rest = slice(part, find_digits_end(part), part.len());
    whole.append(&mut rest);
    assert(whole@ == without_fraction(part@));
    whole
}

/// The fraction of the number of a part.
fn take_fraction(part: &[char]) -> (digits: Vec<char>)
    ensures
        digits@ == fraction(part@),
{
    let point = find_char(part, '.');
    let end = find_digits_end(part);
    if point < end {
        slice(part, point + 1, end)
    } else {
        Vec::new()
    }
}

/// Whether a text has at most nineteen digits.
fn has_few_digits(text: &[char]) -> (few: bool)
    ensures
        few == (digit_count(text@) <= 19),
{
    let mut count: usize = 0;
    assert(text@.take(0) == Seq::<char>::empty());
    for i in 0..text.len()
        invariant
            count == digit_count(text@.take(i as int)),
            count <= i,
    {
        assert(text@.take(i + 1).drop_last() == text@.take(i as int));
        assert(text@.take(i + 1).last() == text@[i as int]);
        if read_digit(text[i], 10).is_some() {
            count = count + 1;
        }
    }
    assert(text@.take(text@.len() as int) == text@);
    count <= 19
}

/// A fraction as a number of nanoseconds.
fn write_as_nanoseconds(digits: &[char]) -> (text: String)
    ensures
        text@ == as_nanoseconds(digits@),
{
    let mut text = String::new();
    text.push('0');
    for i in 0..digits.len()
        invariant
            text@ == seq!['0'] + digits@.take(i as int),
    {
        text.push(digits[i]);
        assert(text@ == seq!['0'] + digits@.take(i + 1));
    }
    assert(digits@.take(digits@.len() as int) == digits@);
    text.push('n');
    text.push('s');
    assert(text@ == as_nanoseconds(digits@));
    text
}

/// The length of two intervals together.
fn total_length(a: Interval, b: Interval) -> (total: u128)
    ensures
        total == a.length() + b.length(),
{
    (a.seconds as u128 + b.seconds as u128) * 1_000_000_000 + a.nanoseconds as u128
        + b.nanoseconds as u128
}

/// Whether a part takes the sum of those before it to exactly the limit.
fn takes_to_limit(
    sum: Interval,
    part: &[char],
    whole: Result<Interval, DurationError>,
    counted: Result<Interval, DurationError>,
    read: Result<Interval, DurationError>,
) -> (hit: bool)
    ensures
        hit == hits_limit(sum, part@, whole, counted, read),
{
    let units = match whole {
        Ok(units) => units,
        Err(_) => {
            return false;
        },
    };
    let before: u128 = total_length(sum, units);
    let seconds = has_seconds(part);
    if sum.seconds == u64::MAX && before == LIMIT && !seconds && counted.is_ok() && has_few_digits(
        take_fraction(part).as_slice(),
    ) {
        return true;
    }
    let length: u128 = units.seconds as u128 * 1_000_000_000 + units.nanoseconds as u128;
    let most: u128 = u64::MAX as u128;
    match read {
        Ok(more) => LIMIT - 1_000_000_000 <= before && before < LIMIT && total_length(sum, more)
            == LIMIT && find_char(part, '.') < part.len() && (seconds || length > most
            || sum.nanoseconds as u128 + length <= most),
        Err(_) => false,
    }
}

/// The characters of `text` and behind them those of `next`, as text.
fn with_next(text: &[char], next: &[char]) -> (both: String)
    ensures
        both@ == text@ + next@,
{
    let mut all = slice(text, 0, text.len());
    let mut rest = slice(next, 0, next.len());
    all.append(&mut rest);
    assert(all@ == text@ + next@);
    to_text(all.as_slice())
}

/// The end of a part with what shows whether it is cut short.
fn cut_at(chars: &[char], end: usize) -> (at: usize)
    requires
        end <= chars@.len(),
    ensures
        at == cut(chars@, end as int),
        end <= at <= chars@.len(),
{
    if end < chars.len() && read_digit(chars[end], 10).is_none() {
        end + 1
    } else {
        end
    }
}

/// Whether the parts of a text stay clear of the limit: asks for the sum before
/// each part, and for the part.
fn keeps_clear(text: &str) -> (clear: bool)
    ensures
        clear == stays_clear(text@),
{
    let chars = to_chars(text);
    let mut last: usize = 0;
    for i in 0..chars.len()
        invariant
            chars@ == text@,
            last <= i,
            last == word_end_before(chars@, i + 1),
            forall|end: int|
                end <= i && #[trigger] is_word_end(chars@, end) ==> !hits_limit_at(chars@, end),
    {
        let ends = is_ascii_letter(chars[i]) && (i + 1 == chars.len() || !is_ascii_letter(
            chars[i + 1],
        ));
        let end: usize = i + 1;
        assert(ends == is_word_end(chars@, end as int));
        if ends {
            if last > 0 {
                let beginning = slice(chars.as_slice(), 0, cut_at(chars.as_slice(), last));
                let part = slice(chars.as_slice(), last, end);
                let next = slice(chars.as_slice(), end, cut_at(chars.as_slice(), end));
                let whole_part = drop_fraction(part.as_slice());
                let whole_text = with_next(whole_part.as_slice(), next.as_slice());
                let part_text = with_next(part.as_slice(), next.as_slice());
                let counted_text = write_as_nanoseconds(take_fraction(part.as_slice()).as_slice());
                proof {
                    lemma_word_end_before(chars@, end as int);
                    assert(beginning@ == chars@.take(cut(chars@, last as int)));
                    lemma_beginning_stays_clear(chars@, last as int);
                    lemma_part_is_one_word(chars@, end as int);
                    lemma_one_word_stays_clear(part_text@);
                    lemma_one_word_stays_clear(whole_text@);
                    lemma_one_word_stays_clear(counted_text@);
                }
                if let Ok(sum) = parse_duration(to_text(beginning.as_slice()).as_str()) {
                    let whole = parse_duration(whole_text.as_str());
                    let counted = parse_duration(counted_text.as_str());
                    let read = parse_duration(part_text.as_str());
                    if takes_to_limit(sum, part.as_slice(), whole, counted, read) {
                        assert(hits_limit_at(chars@, end as int));
                        return false;
                    }
                    assert(!hits_limit_at(chars@, end as int));
                }
            }
            last = end;
        }
    }
    true
}

/// At most how long a number of units is that start with a character, if that
/// can be held.
fn weigh(number: u128, c: char) -> (nanoseconds: Option<u128>)
    ensures
        match nanoseconds {
            Some(n) => n == weighed(number as nat, c),
            None => weighed(number as nat, c) > u128::MAX,
        },
{
    match c {
        'n' => Some(number),
        'u' => number.checked_mul(1_000),
        's' => number.checked_mul(1_000_000_000),
        'h' => number.checked_mul(3_600_000_000_000),
        'm' => number.checked_mul(2_630_016_000_000_000),
        _ => number.checked_mul(31_557_600_000_000_000),
    }
}

/// More text makes no smaller tally.
proof fn lemma_tally_grows(text: Seq<char>)
    requires
        text.len() > 0,
    ensures
        tally(text.drop_last()).0 + tally(text.drop_last()).1 <= tally(text).0 + tally(text).1,
{
}

/// Whether the numbers of a text are moderate.
fn has_moderate_numbers(text: &str) -> (moderate: bool)
    ensures
        moderate == is_moderate(text@),
{
    let chars = to_chars(text);
    let mut ended: u128 = 0;
    let mut number: u128 = 0;
    let mut small = true;
    assert(chars@.take(0) == Seq::<char>::empty());
    for i in 0..chars.len()
        invariant
            chars@ == text@,
            small == is_moderate(chars@.take(i as int)),
            small ==> tally(chars@.take(i as int)) == (ended as nat, number as nat),
    {
        let c = chars[i];
        proof {
            lemma_tally_grows(chars@.take(i + 1));
            assert(chars@.take(i + 1).drop_last() == chars@.take(i as int));
            assert(chars@.take(i + 1).last() == c);
        }
        if small {
            match read_digit(c, 10) {
                Some(digit) => {
                    number = number * 10 + digit as u128;
                },
                None => {
                    if is_ascii_letter(c) || c == '.' {
                        match weigh(number, c) {
                            Some(more) => {
                                if more >= LIMIT {
                                    small = false;
                                } else {
                                    ended = ended + more;
                                    number = 0;
                                }
                            },
                            None => {
                                small = false;
                            },
                        }
                    }
                },
            }
            if small && ended + number >= LIMIT - 1_000_000_000 {
                small = false;
            }
        }
    }
    assert(chars@.take(chars@.len() as int) == chars@);
    small
}

/// Whether an interval's text is bounded.
fn has_bounds(text: &str) -> (bounded: bool)
    ensures
        bounded == is_bounded(text@),
{
    has_moderate_numbers(text) || keeps_clear(text)
}

/// Ten to the given power.
spec fn ten_to(n: nat) -> nat
    decreases n,
{
    if n == 0 {
        1
    } else {
        10 * ten_to((n - 1) as nat)
    }
}

/// The tally of a text is at most that of all its digits as one number of
/// years.
proof fn lemma_tally_is_bounded(text: Seq<char>)
    ensures
        tally(text).0 + tally(text).1 * 31_557_600_000_000_000 <= (ten_to(digit_count(text)) - 1)
            * 31_557_600_000_000_000,
    decreases text.len(),
{
    if text.len() > 0 {
        let before = text.drop_last();
        lemma_tally_is_bounded(before);
        assert(ten_to(digit_count(before) + 1) == 10 * ten_to(digit_count(before)));
    }
}

/// More digits make no smaller power of ten.
proof fn lemma_ten_to_grows(a: nat, b: nat)
    requires
        a <= b,
    ensures
        ten_to(a) <= ten_to(b),
    decreases b,
{
    if a < b {
        lemma_ten_to_grows(a, (b - 1) as nat);
    }
}

/// A text has at most as many digits as characters.
proof fn lemma_digits_are_characters(text: Seq<char>)
    ensures
        digit_count(text) <= text.len(),
    decreases text.len(),
{
    if text.len() > 0 {
        lemma_digits_are_characters(text.drop_last());
    }
}

/// A text that is short, or has few digits, can be read whatever it says.
pub proof fn ordinary_intervals_can_be_read(text: Seq<char>)
    ensures
        text.len() <= 11 ==> is_bounded(text),
        digit_count(text) <= 11 ==> is_bounded(text),
{
    lemma_digits_are_characters(text);
    if digit_count(text) <= 11 {
        lemma_tally_is_bounded(text);
        lemma_ten_to_grows(digit_count(text), 11);
        reveal_with_fuel(ten_to, 12);
        assert(ten_to(11) == 100_000_000_000);
    }
}

/// A text whose letters stand together, so that it has a single unit, can be
/// read whatever its numbers are.
pub proof fn single_units_can_be_read(text: Seq<char>)
    requires
        forall|i: int, j: int, k: int|
            0 <= i < j < k < text.len() && is_letter(#[trigger] text[i]) && is_letter(
                #[trigger] text[k],
            ) ==> is_letter(#[trigger] text[j]),
    ensures
        is_bounded(text),
{
    lemma_one_word_stays_clear(text);
}

/// A text without a point can be read if each of its beginnings that is read is
/// short of the last second that fits.
pub proof fn sums_short_of_the_last_second_can_be_read(text: Seq<char>)
    requires
        forall|end: int|
            #![trigger text.take(end)]
            0 <= end <= text.len() ==> (interval_of(text.take(end)) matches Ok(sum) ==> sum.seconds
                < u64::MAX),
        !text.contains('.'),
    ensures
        is_bounded(text),
{
    assert forall|end: int| #[trigger] is_word_end(text, end) implies !hits_limit_at(text, end) by {
        lemma_word_end_before(text, end);
        let start = word_end_before(text, end);
        if start > 0 {
            let part = text.subrange(start, end);
            assert(0 <= cut(text, start) <= text.len());
            assert(interval_of(text.take(cut(text, start))) matches Ok(sum) ==> sum.seconds
                < u64::MAX);
            lemma_found(part, '.', 0);
            let at = position(part, '.', 0) as int;
            if at < part.len() {
                assert(text[start + at] == '.');
                assert(text.contains('.'));
            }
        }
    }
}

/// What is made of what `humantime` says of the text of an interval.
pub fn interval_or_error(every: &str, read: Result<Interval, DurationError>) -> (interval: Result<
    Interval,
    Error,
>)
    ensures
        match (read, interval) {
            (Ok(r), Ok(i)) => r == i,
            (Err(cause), Err(e)) => {
                &&& e@ == (ErrorView::InvalidRepeat { every: every@ })
                &&& e->cause == cause
            },
            _ => false,
        },
{
    match read {
        Ok(interval) => Ok(interval),
        Err(cause) => Err(Error::InvalidRepeat { every: every.to_owned(), cause }),
    }
}

/// Reads an interval.
pub fn parse_interval(every: &str) -> (interval: Result<Interval, Error>)
    requires
        is_bounded(every@),
    ensures
        match interval {
            Ok(i) => interval_of(every@) == Ok::<Interval, DurationError>(i),
            Err(e) => {
                &&& e@ == (ErrorView::InvalidRepeat { every: every@ })
                &&& interval_of(every@) == Err::<Interval, DurationError>(e->cause)
            },
        },
{
    interval_or_error(every, parse_duration(every))
}

/// Reads an interval, unless its parts add up to exactly the limit.
pub fn repeat_interval(every: &str) -> (interval: Option<Result<Interval, Error>>)
    ensures
        match interval {
            Some(Ok(i)) => {
                &&& is_bounded(every@)
                &&& interval_of(every@) == Ok::<Interval, DurationError>(i)
            },
            Some(Err(e)) => {
                &&& is_bounded(every@)
                &&& e@ == (ErrorView::InvalidRepeat { every: every@ })
                &&& interval_of(every@) == Err::<Interval, DurationError>(e->cause)
            },
            None => !is_bounded(every@),
        },
{
    if has_bounds(every) {
        Some(parse_interval(every))
    } else {
        None
    }
}

/// What the loop of repeated updates waits for: the end of an update, that of
/// the interval, or a request to shut down.
#[derive(Clone, Copy, Debug, PartialEq, Eq, Structural)]
pub enum RepeatEvent {
    Updated,
    UpdateFailed,
    IntervalElapsed,
    Shutdown,
    ShutdownFailed,
}

/// What the loop of repeated updates does next: update, wait for the interval
/// or a shutdown, end, or fail with the error of the event.
#[derive(Clone, Copy, Debug, PartialEq, Eq, Structural)]
pub enum RepeatAction {
    Update,
    Wait,
    Stop,
    Fail,
}

/// What the loop of repeated updates does after an event. It starts with an
/// update, as if the interval had elapsed.
pub fn repeat_action(event: RepeatEvent) -> (action: RepeatAction)
    ensures
        action == RepeatAction::Update <==> event == RepeatEvent::IntervalElapsed,
        action == RepeatAction::Wait <==> event == RepeatEvent::Updated,
        action == RepeatAction::Stop <==> event == RepeatEvent::Shutdown,
        action == RepeatAction::Fail <==> event == RepeatEvent::UpdateFailed || event
            == RepeatEvent::ShutdownFailed,
{
    match event {
        RepeatEvent::Updated => RepeatAction::Wait,
        RepeatEvent::UpdateFailed => RepeatAction::Fail,
        RepeatEvent::IntervalElapsed => RepeatAction::Update,
        RepeatEvent::Shutdown => RepeatAction::Stop,
        RepeatEvent::ShutdownFailed => RepeatAction::Fail,
    }
}

} // verus!
