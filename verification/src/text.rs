//! Character-level text operations.
//!
//! Every function here is stated over the sequence of characters of a string.
use vstd::prelude::*;

verus! {

/// `String::push`: appends one character to the end of the string.
pub assume_specification[ String::push ](string: &mut String, ch: char)
    ensures
        final(string)@ == old(string)@.push(ch),
;

/// The characters of each string of a list.
pub open spec fn texts(strings: Seq<String>) -> Seq<Seq<char>> {
    Seq::new(strings.len(), |i: int| strings[i]@)
}

/// The characters of an optional string.
pub open spec fn opt_text(string: Option<String>) -> Option<Seq<char>> {
    match string {
        Some(s) => Some(s@),
        None => None,
    }
}

/// The characters of an optional string slice.
pub open spec fn opt_str_text(string: Option<&str>) -> Option<Seq<char>> {
    match string {
        Some(s) => Some(s@),
        None => None,
    }
}

/// The characters with the Unicode property `White_Space`.
pub open spec fn is_space(ch: char) -> bool {
    ||| '\u{9}' <= ch <= '\u{d}'
    ||| ch == ' '
    ||| ch == '\u{85}'
    ||| ch == '\u{a0}'
    ||| ch == '\u{1680}'
    ||| '\u{2000}' <= ch <= '\u{200a}'
    ||| ch == '\u{2028}'
    ||| ch == '\u{2029}'
    ||| ch == '\u{202f}'
    ||| ch == '\u{205f}'
    ||| ch == '\u{3000}'
}

/// `text` without its leading whitespace.
pub open spec fn trimmed_start(text: Seq<char>) -> Seq<char>
    decreases text.len(),
{
    if text.len() > 0 && is_space(text[0]) {
        trimmed_start(text.skip(1))
    } else {
        text
    }
}

/// `text` without its trailing whitespace.
pub open spec fn trimmed_end(text: Seq<char>) -> Seq<char>
    decreases text.len(),
{
    if text.len() > 0 && is_space(text.last()) {
        trimmed_end(text.drop_last())
    } else {
        text
    }
}

/// `text` without leading and trailing whitespace.
pub open spec fn trimmed(text: Seq<char>) -> Seq<char> {
    trimmed_end(trimmed_start(text))
}

/// `text` without the occurrences of `ch` at its end.
pub open spec fn trimmed_end_of(text: Seq<char>, ch: char) -> Seq<char>
    decreases text.len(),
{
    if text.len() > 0 && text.last() == ch {
        trimmed_end_of(text.drop_last(), ch)
    } else {
        text
    }
}

/// How many characters stand before the first whitespace character.
pub open spec fn word_len(text: Seq<char>) -> nat
    decreases text.len(),
{
    if text.len() > 0 && !is_space(text[0]) {
        1 + word_len(text.skip(1))
    } else {
        0
    }
}

/// The maximal runs of characters that are not whitespace, in order.
pub open spec fn words_of(text: Seq<char>) -> Seq<Seq<char>>
    decreases text.len(),
{
    if text.len() == 0 {
        Seq::empty()
    } else if is_space(text[0]) {
        words_of(text.skip(1))
    } else {
        proof {
            lemma_word_len(text);
        }
        seq![text.take(word_len(text) as int)] + words_of(text.skip(word_len(text) as int))
    }
}

/// The first word of `text`, where there is one.
pub open spec fn first_word_of(text: Seq<char>) -> Option<Seq<char>> {
    let rest = trimmed_start(text);
    if rest.len() == 0 {
        None
    } else {
        Some(rest.take(word_len(rest) as int))
    }
}

/// The position of the first `ch` in `text`, or the length of `text`.
pub open spec fn position_of(text: Seq<char>, ch: char) -> nat
    decreases text.len(),
{
    if text.len() == 0 || text[0] == ch {
        0
    } else {
        1 + position_of(text.skip(1), ch)
    }
}

/// The pieces of `text` between the occurrences of `ch`.
pub open spec fn pieces_of(text: Seq<char>, ch: char) -> Seq<Seq<char>>
    decreases text.len(),
{
    let end = position_of(text, ch) as int;
    if end >= text.len() {
        seq![text]
    } else {
        seq![text.take(end)] + pieces_of(text.skip(end + 1), ch)
    }
}

/// A line without the carriage return that belongs to its line ending.
pub open spec fn without_return(line: Seq<char>) -> Seq<char> {
    if line.len() > 0 && line.last() == '\r' {
        line.drop_last()
    } else {
        line
    }
}

/// The lines of `text`: each ends at `\n` or `\r\n`, the last one also at the end.
pub open spec fn lines_of(text: Seq<char>) -> Seq<Seq<char>>
    decreases text.len(),
{
    let end = position_of(text, '\n') as int;
    if text.len() == 0 {
        Seq::empty()
    } else if end >= text.len() {
        seq![text]
    } else {
        seq![without_return(text.take(end))] + lines_of(text.skip(end + 1))
    }
}

/// The decimal digit for a number below ten.
pub open spec fn digit_char(digit: nat) -> char {
    (48 + digit) as char
}

/// The decimal notation of a number.
pub open spec fn decimal_of(number: nat) -> Seq<char>
    decreases number,
{
    if number < 10 {
        seq![digit_char(number)]
    } else {
        decimal_of(number / 10).push(digit_char(number % 10))
    }
}

/// True for the characters `0` to `9`.
pub open spec fn is_digit(ch: char) -> bool {
    '0' <= ch <= '9'
}

/// True when every character is a decimal digit.
pub open spec fn all_digits(text: Seq<char>) -> bool {
    forall|i: int| 0 <= i < text.len() ==> is_digit(#[trigger] text[i])
}

/// The number that a sequence of decimal digits denotes.
pub open spec fn digits_value(text: Seq<char>) -> nat
    decreases text.len(),
{
    if text.len() == 0 {
        0
    } else {
        digits_value(text.drop_last()) * 10 + (text.last() as nat - 48) as nat
    }
}

/// The digits of a number, without the optional leading `+`.
pub open spec fn unsigned_digits(text: Seq<char>) -> Seq<char> {
    if text.len() > 0 && text[0] == '+' {
        text.skip(1)
    } else {
        text
    }
}

/// The number up to `max` that `text` denotes in decimal notation.
pub open spec fn unsigned_of(text: Seq<char>, max: nat) -> Option<nat> {
    let digits = unsigned_digits(text);
    if digits.len() > 0 && all_digits(digits) && digits_value(digits) <= max {
        Some(digits_value(digits))
    } else {
        None
    }
}

/// `text` with every `from` replaced by `to`.
pub open spec fn replaced(text: Seq<char>, from: char, to: char) -> Seq<char> {
    Seq::new(
        text.len(),
        |i: int|
            if text[i] == from {
                to
            } else {
                text[i]
            },
    )
}

/// A word is not longer than the text, and not empty where the text starts with one.
pub proof fn lemma_word_len(text: Seq<char>)
    ensures
        word_len(text) <= text.len(),
        text.len() > 0 && !is_space(text[0]) ==> word_len(text) > 0,
    decreases text.len(),
{
    if text.len() > 0 && !is_space(text[0]) {
        lemma_word_len(text.skip(1));
    }
}

/// `position_of` is the first occurrence, where there is one.
pub proof fn lemma_position_of(text: Seq<char>, ch: char)
    ensures
        position_of(text, ch) <= text.len(),
        position_of(text, ch) < text.len() ==> text[position_of(text, ch) as int] == ch,
        forall|i: int| 0 <= i < position_of(text, ch) ==> text[i] != ch,
    decreases text.len(),
{
    if text.len() > 0 && text[0] != ch {
        lemma_position_of(text.skip(1), ch);
        assert forall|i: int| 0 <= i < position_of(text, ch) implies text[i] != ch by {
            if i > 0 {
                assert(text[i] == text.skip(1)[i - 1]);
            }
        }
    }
}

/// The first occurrence is where `position_of` says.
pub proof fn lemma_position_is(text: Seq<char>, ch: char, at: int)
    requires
        0 <= at <= text.len(),
        at < text.len() ==> text[at] == ch,
        forall|i: int| 0 <= i < at ==> text[i] != ch,
    ensures
        position_of(text, ch) == at,
{
    lemma_position_of(text, ch);
    let found = position_of(text, ch) as int;
    if found < at {
        assert(text[found] == ch);
    } else if found > at {
        assert(text[at] != ch);
    }
}

/// True when both lists hold the same strings in the same order.
pub fn same_list(left: &Vec<String>, right: &Vec<String>) -> (equal: bool)
    ensures
        equal == (texts(left@) == texts(right@)),
{
    let ghost (a, b) = (texts(left@), texts(right@));
    if left.len() != right.len() {
        assert(a.len() != b.len());
        return false;
    }
    let mut index: usize = 0;
    while index < left.len()
        invariant
            index <= left@.len() == right@.len(),
            a == texts(left@),
            b == texts(right@),
            forall|i: int| 0 <= i < index ==> a[i] == b[i],
        decreases left@.len() - index,
    {
        if !same(left[index].as_str(), right[index].as_str()) {
            assert(a[index as int] != b[index as int]);
            return false;
        }
        index += 1;
    }
    assert(a =~= b);
    true
}

/// The letter in upper case; other characters are left as they are.
pub open spec fn upper(ch: char) -> char {
    if 'a' <= ch <= 'z' {
        (ch as u32 - 32) as char
    } else {
        ch
    }
}

/// The letter in upper case.
pub fn to_upper(ch: char) -> (result: char)
    ensures
        result == upper(ch),
{
    if 'a' <= ch && ch <= 'z' {
        let code: u8 = ch as u8;
        (code - 32) as char
    } else {
        ch
    }
}

/// True when both strings hold the same characters.
pub fn same(left: &str, right: &str) -> (equal: bool)
    ensures
        equal == (left@ == right@),
{
    left.to_owned() == right.to_owned()
}

/// True when both optional strings hold the same characters, or both none.
pub fn same_option(left: Option<&str>, right: Option<&str>) -> (equal: bool)
    ensures
        equal == (opt_str_text(left) == opt_str_text(right)),
{
    match (left, right) {
        (Some(l), Some(r)) => same(l, r),
        (None, None) => true,
        _ => false,
    }
}

/// A copy of an optional string.
pub fn copy_option(string: &Option<String>) -> (copy: Option<String>)
    ensures
        opt_text(copy) == opt_text(*string),
{
    match string {
        Some(s) => Some(s.clone()),
        None => None,
    }
}

/// The string inside an optional string, borrowed.
pub fn borrow_option(string: &Option<String>) -> (slice: Option<&str>)
    ensures
        opt_str_text(slice) == opt_text(*string),
{
    match string {
        Some(s) => Some(s.as_str()),
        None => None,
    }
}

/// A copy of a list of strings.
pub fn copy_list(strings: &Vec<String>) -> (copy: Vec<String>)
    ensures
        texts(copy@) == texts(strings@),
{
    let mut copy: Vec<String> = Vec::new();
    let mut index: usize = 0;
    while index < strings.len()
        invariant
            index <= strings@.len(),
            copy@.len() == index,
            forall|i: int| 0 <= i < index ==> (#[trigger] copy@[i])@ == strings@[i]@,
        decreases strings@.len() - index,
    {
        copy.push(strings[index].clone());
        index += 1;
    }
    assert(texts(copy@) =~= texts(strings@));
    copy
}

/// True when `list` holds a string with the characters of `string`.
pub fn list_contains(list: &Vec<String>, string: &str) -> (found: bool)
    ensures
        found == texts(list@).contains(string@),
{
    let mut index: usize = 0;
    while index < list.len()
        invariant
            index <= list@.len(),
            forall|i: int| 0 <= i < index ==> (#[trigger] list@[i])@ != string@,
        decreases list@.len() - index,
    {
        if same(list[index].as_str(), string) {
            assert(texts(list@)[index as int] == string@);
            return true;
        }
        index += 1;
    }
    assert(!texts(list@).contains(string@));
    false
}

/// The characters of `string`.
pub fn chars_of(string: &str) -> (chars: Vec<char>)
    ensures
        chars@ == string@,
{
    let mut chars: Vec<char> = Vec::new();
    for ch in iter: string.chars()
        invariant
            chars@ == string@.take(iter.index()),
            iter.seq() == string@,
    {
        chars.push(ch);
    }
    chars
}

/// The characters from `from` up to and excluding `to`, as a string.
pub fn substring(chars: &Vec<char>, from: usize, to: usize) -> (string: String)
    requires
        from <= to <= chars@.len(),
    ensures
        string@ == chars@.subrange(from as int, to as int),
{
    let mut string = String::new();
    let mut index: usize = from;
    while index < to
        invariant
            from <= index <= to <= chars@.len(),
            string@ == chars@.subrange(from as int, index as int),
        decreases to - index,
    {
        string.push(chars[index]);
        index += 1;
    }
    string
}

/// True for whitespace, as `is_space` lists it.
pub fn is_whitespace(ch: char) -> (space: bool)
    ensures
        space == is_space(ch),
{
    ('\u{9}' <= ch && ch <= '\u{d}') || ch == ' ' || ch == '\u{85}' || ch == '\u{a0}'
        || ch == '\u{1680}' || ('\u{2000}' <= ch && ch <= '\u{200a}') || ch == '\u{2028}'
        || ch == '\u{2029}' || ch == '\u{202f}' || ch == '\u{205f}' || ch == '\u{3000}'
}

/// The text without leading whitespace.
pub fn trim_start(string: &str) -> (rest: String)
    ensures
        rest@ == trimmed_start(string@),
{
    let chars = chars_of(string);
    let mut start: usize = 0;
    assert(chars@.skip(0) =~= chars@);
    while start < chars.len() && is_whitespace(chars[start])
        invariant
            start <= chars@.len(),
            trimmed_start(chars@) == trimmed_start(chars@.skip(start as int)),
        decreases chars@.len() - start,
    {
        assert(chars@.skip(start as int).skip(1) =~= chars@.skip(start + 1));
        start += 1;
    }
    assert(chars@.skip(start as int) =~= chars@.subrange(start as int, chars@.len() as int));
    substring(&chars, start, chars.len())
}

/// The text without leading and trailing whitespace.
pub fn trim(string: &str) -> (rest: String)
    ensures
        rest@ == trimmed(string@),
{
    let chars = chars_of(trim_start(string).as_str());
    let mut end: usize = chars.len();
    assert(chars@.take(end as int) =~= chars@);
    while end > 0 && is_whitespace(chars[end - 1])
        invariant
            end <= chars@.len(),
            trimmed_end(chars@) == trimmed_end(chars@.take(end as int)),
        decreases end,
    {
        assert(chars@.take(end as int).drop_last() =~= chars@.take(end - 1));
        end -= 1;
    }
    assert(chars@.take(end as int) =~= chars@.subrange(0, end as int));
    substring(&chars, 0, end)
}

/// The text without the occurrences of `ch` at its end.
pub fn trim_end_of(string: &str, ch: char) -> (rest: String)
    ensures
        rest@ == trimmed_end_of(string@, ch),
{
    let chars = chars_of(string);
    let mut end: usize = chars.len();
    assert(chars@.take(end as int) =~= chars@);
    while end > 0 && chars[end - 1] == ch
        invariant
            end <= chars@.len(),
            trimmed_end_of(chars@, ch) == trimmed_end_of(chars@.take(end as int), ch),
        decreases end,
    {
        assert(chars@.take(end as int).drop_last() =~= chars@.take(end - 1));
        end -= 1;
    }
    assert(chars@.take(end as int) =~= chars@.subrange(0, end as int));
    substring(&chars, 0, end)
}

/// The words of the text, in order.
pub fn split_words(string: &str) -> (words: Vec<String>)
    ensures
        texts(words@) == words_of(string@),
{
    let chars = chars_of(string);
    let mut words: Vec<String> = Vec::new();
    let mut index: usize = 0;
    assert(chars@.skip(0) =~= chars@);
    assert(texts(words@) =~= Seq::empty());
    while index < chars.len()
        invariant
            index <= chars@.len(),
            words_of(chars@) == texts(words@) + words_of(chars@.skip(index as int)),
        decreases chars@.len() - index,
    {
        let ghost rest = chars@.skip(index as int);
        if is_whitespace(chars[index]) {
            assert(rest.skip(1) =~= chars@.skip(index + 1));
            index += 1;
        } else {
            let start = index;
            let ghost before = words@;
            assert(chars@.skip(index as int).skip(0) =~= rest);
            while index < chars.len() && !is_whitespace(chars[index])
                invariant
                    start <= index <= chars@.len(),
                    rest == chars@.skip(start as int),
                    word_len(rest) == index - start + word_len(chars@.skip(index as int)),
                decreases chars@.len() - index,
            {
                assert(chars@.skip(index as int).skip(1) =~= chars@.skip(index + 1));
                index += 1;
            }
            assert(word_len(chars@.skip(index as int)) == 0);
            words.push(substring(&chars, start, index));
            assert(rest.take(index - start) =~= chars@.subrange(start as int, index as int));
            assert(rest.skip(index - start) =~= chars@.skip(index as int));
            assert(texts(words@) =~= texts(before).push(rest.take(index - start)));
            assert(texts(before) + (seq![rest.take(index - start)] + words_of(
                chars@.skip(index as int),
            )) =~= texts(words@) + words_of(chars@.skip(index as int)));
        }
    }
    assert(words_of(chars@.skip(index as int)) =~= Seq::empty());
    words
}

/// The first word of the text.
pub fn first_word(string: &str) -> (word: Option<String>)
    ensures
        opt_text(word) == first_word_of(string@),
{
    let chars = chars_of(trim_start(string).as_str());
    if chars.len() == 0 {
        return None;
    }
    let mut end: usize = 0;
    assert(chars@.skip(0) =~= chars@);
    while end < chars.len() && !is_whitespace(chars[end])
        invariant
            end <= chars@.len(),
            word_len(chars@) == end + word_len(chars@.skip(end as int)),
        decreases chars@.len() - end,
    {
        assert(chars@.skip(end as int).skip(1) =~= chars@.skip(end + 1));
        end += 1;
    }
    assert(chars@.take(end as int) =~= chars@.subrange(0, end as int));
    Some(substring(&chars, 0, end))
}

/// The position of the first `ch`, or the length.
pub fn find_char(chars: &Vec<char>, from: usize, ch: char) -> (at: usize)
    requires
        from <= chars@.len(),
    ensures
        at == from + position_of(chars@.skip(from as int), ch),
        from <= at <= chars@.len(),
        at < chars@.len() ==> chars@[at as int] == ch,
        forall|i: int| from <= i < at ==> chars@[i] != ch,
{
    let mut at: usize = from;
    while at < chars.len() && chars[at] != ch
        invariant
            from <= at <= chars@.len(),
            forall|i: int| from <= i < at ==> chars@[i] != ch,
        decreases chars@.len() - at,
    {
        at += 1;
    }
    proof {
        lemma_position_is(chars@.skip(from as int), ch, at - from);
    }
    at
}

/// True when `ch` occurs in the text.
pub fn contains_char(string: &str, ch: char) -> (found: bool)
    ensures
        found == string@.contains(ch),
{
    let chars = chars_of(string);
    let at = find_char(&chars, 0, ch);
    at < chars.len()
}

/// The lines of the text.
pub fn split_lines(string: &str) -> (lines: Vec<String>)
    ensures
        texts(lines@) == lines_of(string@),
{
    let chars = chars_of(string);
    let mut lines: Vec<String> = Vec::new();
    let mut index: usize = 0;
    assert(chars@.skip(0) =~= chars@);
    assert(texts(lines@) =~= Seq::empty());
    while index < chars.len()
        invariant
            index <= chars@.len(),
            lines_of(chars@) == texts(lines@) + lines_of(chars@.skip(index as int)),
        decreases chars@.len() - index,
    {
        let ghost rest = chars@.skip(index as int);
        let ghost before = lines@;
        let end = find_char(&chars, index, '\n');
        if end >= chars.len() {
            lines.push(substring(&chars, index, end));
            assert(chars@.subrange(index as int, end as int) =~= rest);
            assert(texts(lines@) =~= texts(before).push(rest));
            assert(lines_of(chars@.skip(end as int)) =~= Seq::empty());
            assert(texts(before) + seq![rest] =~= texts(lines@) + Seq::<Seq<char>>::empty());
            index = end;
        } else {
            let stop: usize = if end > index && chars[end - 1] == '\r' {
                end - 1
            } else {
                end
            };
            let ghost line = without_return(rest.take(end - index));
            assert(line =~= chars@.subrange(index as int, stop as int));
            lines.push(substring(&chars, index, stop));
            assert(texts(lines@) =~= texts(before).push(line));
            assert(rest.skip(end - index + 1) =~= chars@.skip(end + 1));
            assert(texts(before) + (seq![line] + lines_of(chars@.skip(end + 1))) =~= texts(lines@)
                + lines_of(chars@.skip(end + 1)));
            index = end + 1;
        }
    }
    assert(lines_of(chars@.skip(index as int)) =~= Seq::empty());
    lines
}

/// The pieces of the text between the occurrences of `ch`.
pub fn split_char(string: &str, ch: char) -> (pieces: Vec<String>)
    ensures
        texts(pieces@) == pieces_of(string@, ch),
{
    let chars = chars_of(string);
    let mut pieces: Vec<String> = Vec::new();
    let mut index: usize = 0;
    let mut end = find_char(&chars, 0, ch);
    assert(chars@.skip(0) =~= chars@);
    assert(texts(pieces@) =~= Seq::empty());
    assert(Seq::<Seq<char>>::empty() + pieces_of(chars@, ch) =~= pieces_of(chars@, ch));
    while end < chars.len()
        invariant
            index <= end <= chars@.len(),
            end == index + position_of(chars@.skip(index as int), ch),
            pieces_of(chars@, ch) == texts(pieces@) + pieces_of(chars@.skip(index as int), ch),
        decreases chars@.len() - end,
    {
        let ghost rest = chars@.skip(index as int);
        let ghost before = texts(pieces@);
        let piece = substring(&chars, index, end);
        assert(rest.take(end - index) =~= piece@);
        assert(rest.skip(end - index + 1) =~= chars@.skip(end + 1));
        pieces.push(piece);
        assert(texts(pieces@) =~= before.push(piece@));
        assert(before + (seq![piece@] + pieces_of(chars@.skip(end + 1), ch)) =~= texts(pieces@)
            + pieces_of(chars@.skip(end + 1), ch));
        index = end + 1;
        end = find_char(&chars, index, ch);
    }
    let ghost before = texts(pieces@);
    let last = substring(&chars, index, end);
    assert(last@ =~= chars@.skip(index as int));
    pieces.push(last);
    assert(texts(pieces@) =~= before + seq![last@]);
    pieces
}

/// True when the text starts with `prefix`.
pub fn starts_with(string: &str, prefix: &str) -> (found: bool)
    ensures
        found == prefix@.is_prefix_of(string@),
{
    let chars = chars_of(string);
    let wanted = chars_of(prefix);
    if wanted.len() > chars.len() {
        return false;
    }
    let mut index: usize = 0;
    while index < wanted.len()
        invariant
            index <= wanted@.len() <= chars@.len(),
            chars@ == string@,
            wanted@ == prefix@,
            forall|i: int| 0 <= i < index ==> chars@[i] == wanted@[i],
        decreases wanted@.len() - index,
    {
        if chars[index] != wanted[index] {
            assert(wanted@ != chars@.subrange(0, wanted@.len() as int)) by {
                assert(chars@.subrange(0, wanted@.len() as int)[index as int]
                    == chars@[index as int]);
            }
            return false;
        }
        index += 1;
    }
    assert(wanted@ =~= chars@.subrange(0, wanted@.len() as int));
    true
}

/// True when the text ends with `suffix`.
pub fn ends_with(string: &str, suffix: &str) -> (found: bool)
    ensures
        found == suffix@.is_suffix_of(string@),
{
    let chars = chars_of(string);
    let wanted = chars_of(suffix);
    if wanted.len() > chars.len() {
        return false;
    }
    let total: usize = chars.len();
    let offset: usize = total - wanted.len();
    let mut index: usize = 0;
    while index < wanted.len()
        invariant
            index <= wanted@.len() <= chars@.len(),
            chars@ == string@,
            wanted@ == suffix@,
            total == chars@.len(),
            offset == total - wanted@.len(),
            forall|i: int| 0 <= i < index ==> chars@[offset + i] == wanted@[i],
        decreases wanted@.len() - index,
    {
        if chars[offset + index] != wanted[index] {
            assert(wanted@ != chars@.subrange(offset as int, chars@.len() as int)) by {
                assert(chars@.subrange(offset as int, chars@.len() as int)[index as int]
                    == chars@[offset + index]);
            }
            return false;
        }
        index += 1;
    }
    assert(wanted@ =~= chars@.subrange(offset as int, chars@.len() as int));
    true
}

/// What follows `prefix`, where the text starts with it.
pub fn strip_prefix(string: &str, prefix: &str) -> (rest: Option<String>)
    ensures
        opt_text(rest) == if prefix@.is_prefix_of(string@) {
            Some(string@.skip(prefix@.len() as int))
        } else {
            None
        },
{
    if !starts_with(string, prefix) {
        return None;
    }
    let chars = chars_of(string);
    let start: usize = chars_of(prefix).len();
    assert(chars@.subrange(start as int, chars@.len() as int) =~= string@.skip(start as int));
    Some(substring(&chars, start, chars.len()))
}

/// The text with every `from` replaced by `to`.
pub fn replace_char(string: &str, from: char, to: char) -> (result: String)
    ensures
        result@ == replaced(string@, from, to),
{
    let chars = chars_of(string);
    let mut result = String::new();
    let mut index: usize = 0;
    while index < chars.len()
        invariant
            index <= chars@.len(),
            result@ == replaced(chars@.take(index as int), from, to),
        decreases chars@.len() - index,
    {
        if chars[index] == from {
            result.push(to);
        } else {
            result.push(chars[index]);
        }
        assert(result@ =~= replaced(chars@.take(index + 1), from, to));
        index += 1;
    }
    assert(chars@.take(index as int) =~= chars@);
    result
}

/// The decimal notation of a number.
pub fn decimal(number: u64) -> (string: String)
    ensures
        string@ == decimal_of(number as nat),
    decreases number,
{
    let digit: u8 = (number % 10) as u8;
    let ch: char = (48u8 + digit) as char;
    if number < 10 {
        let mut string = String::new();
        string.push(ch);
        assert(string@ =~= seq![digit_char(number as nat)]);
        string
    } else {
        let mut string = decimal(number / 10);
        string.push(ch);
        string
    }
}

/// The number up to `max` that the text denotes.
pub fn parse_unsigned(string: &str, max: u64) -> (number: Option<u64>)
    ensures
        match number {
            Some(n) => unsigned_of(string@, max as nat) == Some(n as nat),
            None => unsigned_of(string@, max as nat) is None,
        },
{
    let chars = chars_of(string);
    let start: usize = if chars.len() > 0 && chars[0] == '+' {
        1
    } else {
        0
    };
    let ghost digits = unsigned_digits(string@);
    assert(digits =~= chars@.skip(start as int));
    if start >= chars.len() {
        return None;
    }
    let mut value: u64 = 0;
    let mut index: usize = start;
    assert(digits.take(0) =~= Seq::empty());
    while index < chars.len()
        invariant
            start <= index <= chars@.len(),
            digits == chars@.skip(start as int),
            digits == unsigned_digits(string@),
            value == digits_value(digits.take(index - start)),
            all_digits(digits.take(index - start)),
            value <= max,
        decreases chars@.len() - index,
    {
        let ch = chars[index];
        let ghost read = digits.take(index - start);
        let ghost next = digits.take(index - start + 1);
        assert(next.drop_last() =~= read);
        assert(next.last() == ch);
        if ch < '0' || ch > '9' {
            assert(digits[index - start] == ch);
            return None;
        }
        let digit: u64 = (ch as u32 - 48) as u64;
        if digit > max || value > (max - digit) / 10 {
            proof {
                assert(digits_value(next) > max);
                if all_digits(digits) {
                    lemma_digits_grow(digits, index - start + 1);
                }
            }
            return None;
        }
        assert(all_digits(next)) by {
            assert forall|i: int| 0 <= i < next.len() implies is_digit(#[trigger] next[i]) by {
                if i < read.len() {
                    assert(next[i] == read[i]);
                }
            }
        }
        value = value * 10 + digit;
        index += 1;
    }
    assert(digits.take(index - start) =~= digits);
    Some(value)
}

proof fn lemma_digits_grow(digits: Seq<char>, count: int)
    requires
        all_digits(digits),
        0 <= count <= digits.len(),
    ensures
        digits_value(digits.take(count)) <= digits_value(digits),
    decreases digits.len(),
{
    if count < digits.len() {
        assert(all_digits(digits.drop_last()));
        lemma_digits_grow(digits.drop_last(), count);
        assert(digits.drop_last().take(count) =~= digits.take(count));
    } else {
        assert(digits.take(count) =~= digits);
    }
}

/// The decimal text of an integer.
pub open spec fn integer_of(number: int) -> Seq<char> {
    if number < 0 {
        seq!['-'] + decimal_of((0 - number) as nat)
    } else {
        decimal_of(number as nat)
    }
}

/// A decimal text holds digits, at least one, and its value is the number.
pub proof fn lemma_decimal(number: nat)
    ensures
        decimal_of(number).len() > 0,
        all_digits(decimal_of(number)),
        digits_value(decimal_of(number)) == number,
    decreases number,
{
    if number >= 10 {
        lemma_decimal(number / 10);
        let text = decimal_of(number);
        assert(text.drop_last() =~= decimal_of(number / 10));
        assert(digits_value(text) == digits_value(text.drop_last()) * 10 + number % 10);
        assert forall|i: int| 0 <= i < text.len() implies is_digit(#[trigger] text[i]) by {
            if i < text.len() - 1 {
                assert(text[i] == text.drop_last()[i]);
            }
        }
    } else {
        let text = decimal_of(number);
        assert(text.drop_last() =~= Seq::empty());
        assert(digits_value(text) == digits_value(text.drop_last()) * 10 + number);
    }
}

/// The decimal text of a signed number.
pub fn integer(number: i64) -> (string: String)
    ensures
        string@ == integer_of(number as int),
{
    if number < 0 {
        let magnitude: u64 = (0i128 - number as i128) as u64;
        let mut string = "-".to_owned();
        proof {
            reveal_strlit("-");
        }
        assert("-"@ =~= seq!['-']);
        string.append(decimal(magnitude).as_str());
        string
    } else {
        decimal(number as u64)
    }
}

/// What is cut off at the start is whitespace, and what is left does not start with whitespace.
pub proof fn law_only_leading_space_is_trimmed(text: Seq<char>, count: int)
    requires
        0 <= count <= text.len(),
        forall|i: int| 0 <= i < count ==> is_space(#[trigger] text[i]),
        count < text.len() ==> !is_space(text[count]),
    ensures
        trimmed_start(text) == text.skip(count),
    decreases count,
{
    if count > 0 {
        assert forall|i: int| 0 <= i < count - 1 implies is_space(#[trigger] text.skip(1)[i]) by {
            assert(text.skip(1)[i] == text[i + 1]);
        }
        law_only_leading_space_is_trimmed(text.skip(1), count - 1);
        assert(text.skip(1).skip(count - 1) =~= text.skip(count));
    } else {
        assert(text.skip(0) =~= text);
    }
}

/// What is cut off at the end is whitespace, and what is left does not end with whitespace.
pub proof fn law_only_trailing_space_is_trimmed(text: Seq<char>, end: int)
    requires
        0 <= end <= text.len(),
        forall|i: int| end <= i < text.len() ==> is_space(#[trigger] text[i]),
        end > 0 ==> !is_space(text[end - 1]),
    ensures
        trimmed_end(text) == text.take(end),
    decreases text.len() - end,
{
    if end < text.len() {
        assert(is_space(text[text.len() - 1]));
        law_only_trailing_space_is_trimmed(text.drop_last(), end);
        assert(text.drop_last().take(end) =~= text.take(end));
    } else {
        assert(text.take(end) =~= text);
    }
}

/// The middle of a text between whitespace is what trimming leaves.
pub proof fn law_trimming_keeps_the_middle(text: Seq<char>, start: int, end: int)
    requires
        0 <= start < end <= text.len(),
        forall|i: int| 0 <= i < start ==> is_space(#[trigger] text[i]),
        forall|i: int| end <= i < text.len() ==> is_space(#[trigger] text[i]),
        !is_space(text[start]),
        !is_space(text[end - 1]),
    ensures
        trimmed(text) == text.subrange(start, end),
{
    law_only_leading_space_is_trimmed(text, start);
    let rest = text.skip(start);
    assert forall|i: int| end - start <= i < rest.len() implies is_space(#[trigger] rest[i]) by {
        assert(rest[i] == text[i + start]);
    }
    assert(rest[end - start - 1] == text[end - 1]);
    law_only_trailing_space_is_trimmed(rest, end - start);
    assert(rest.take(end - start) =~= text.subrange(start, end));
}

/// All occurrences of a character at the end are cut off, and nothing else.
pub proof fn law_all_of_the_end_is_trimmed(text: Seq<char>, ch: char, end: int)
    requires
        0 <= end <= text.len(),
        forall|i: int| end <= i < text.len() ==> #[trigger] text[i] == ch,
        end > 0 ==> text[end - 1] != ch,
    ensures
        trimmed_end_of(text, ch) == text.take(end),
    decreases text.len() - end,
{
    if end < text.len() {
        assert(text[text.len() - 1] == ch);
        law_all_of_the_end_is_trimmed(text.drop_last(), ch, end);
        assert(text.drop_last().take(end) =~= text.take(end));
    } else {
        assert(text.take(end) =~= text);
    }
}

/// A word reaches up to the next whitespace.
pub proof fn law_word_ends_at_space(text: Seq<char>, end: int)
    requires
        0 <= end <= text.len(),
        forall|i: int| 0 <= i < end ==> !is_space(#[trigger] text[i]),
        end < text.len() ==> is_space(text[end]),
    ensures
        word_len(text) == end,
    decreases end,
{
    if end > 0 {
        assert forall|i: int| 0 <= i < end - 1 implies !is_space(#[trigger] text.skip(1)[i]) by {
            assert(text.skip(1)[i] == text[i + 1]);
        }
        law_word_ends_at_space(text.skip(1), end - 1);
    }
}

/// A text that is whitespace, a word and a rest that starts with whitespace has that word first,
/// and then the words of the rest; a text of whitespace has no words.
pub proof fn law_words_stand_between_spaces(space: Seq<char>, word: Seq<char>, rest: Seq<char>)
    requires
        forall|i: int| 0 <= i < space.len() ==> is_space(#[trigger] space[i]),
        forall|i: int| 0 <= i < word.len() ==> !is_space(#[trigger] word[i]),
        rest.len() > 0 ==> is_space(rest[0]),
    ensures
        words_of(space) == Seq::<Seq<char>>::empty(),
        word.len() > 0 ==> words_of(space + word + rest) == seq![word] + words_of(rest),
        word.len() > 0 ==> first_word_of(space + word + rest) == Some(word),
        first_word_of(space) is None,
    decreases space.len(),
{
    let text = space + word + rest;
    law_only_leading_space_is_trimmed(space, space.len() as int);
    if word.len() > 0 {
        assert(text[space.len() as int] == word[0]);
        assert forall|i: int| 0 <= i < space.len() implies is_space(#[trigger] text[i]) by {
            assert(text[i] == space[i]);
        }
        law_only_leading_space_is_trimmed(text, space.len() as int);
        let trimmed = text.skip(space.len() as int);
        assert(trimmed =~= word + rest);
        assert forall|i: int| 0 <= i < word.len() implies !is_space(#[trigger] trimmed[i]) by {
            assert(trimmed[i] == word[i]);
        }
        law_word_ends_at_space(trimmed, word.len() as int);
        assert(trimmed.take(word.len() as int) =~= word);
        assert(trimmed.skip(word.len() as int) =~= rest);
    }
    if space.len() > 0 {
        assert forall|i: int| 0 <= i < space.skip(1).len() implies is_space(
            #[trigger] space.skip(1)[i],
        ) by {
            assert(space.skip(1)[i] == space[i + 1]);
        }
        law_words_stand_between_spaces(space.skip(1), word, rest);
        assert(text.skip(1) =~= space.skip(1) + word + rest);
        if word.len() > 0 {
            assert(text[0] == space[0]);
        }
    } else if word.len() > 0 {
        assert(text =~= word + rest);
        assert(text[0] == word[0]);
        assert(text.skip(0) =~= text);
    }
}

/// A piece ends at the first separator, and the others are those of what follows.
pub proof fn law_pieces_stand_between_separators(piece: Seq<char>, ch: char, rest: Seq<char>)
    requires
        forall|i: int| 0 <= i < piece.len() ==> #[trigger] piece[i] != ch,
    ensures
        pieces_of(piece, ch) == seq![piece],
        pieces_of(piece + seq![ch] + rest, ch) == seq![piece] + pieces_of(rest, ch),
{
    lemma_position_is(piece, ch, piece.len() as int);
    let text = piece + seq![ch] + rest;
    assert forall|i: int| 0 <= i < piece.len() implies text[i] != ch by {
        assert(text[i] == piece[i]);
    }
    lemma_position_is(text, ch, piece.len() as int);
    assert(text.take(piece.len() as int) =~= piece);
    assert(text.skip(piece.len() as int + 1) =~= rest);
}

/// A line ends at a line feed, to which a carriage return in front of it belongs, and the other
/// lines are those of what follows; the last line needs no line feed, and an empty one is none.
pub proof fn law_lines_end_at_line_feeds(line: Seq<char>, rest: Seq<char>)
    requires
        forall|i: int| 0 <= i < line.len() ==> #[trigger] line[i] != '\n',
    ensures
        lines_of(Seq::empty()) == Seq::<Seq<char>>::empty(),
        line.len() > 0 ==> lines_of(line) == seq![line],
        lines_of(line + seq!['\r', '\n'] + rest) == seq![line] + lines_of(rest),
        (line.len() == 0 || line.last() != '\r') ==> lines_of(line + seq!['\n'] + rest) == seq![
            line,
        ] + lines_of(rest),
{
    lemma_position_is(line, '\n', line.len() as int);
    let plain = line + seq!['\n'] + rest;
    assert forall|i: int| 0 <= i < line.len() implies plain[i] != '\n' by {
        assert(plain[i] == line[i]);
    }
    lemma_position_is(plain, '\n', line.len() as int);
    assert(plain.take(line.len() as int) =~= line);
    assert(plain.skip(line.len() as int + 1) =~= rest);
    let full = line + seq!['\r', '\n'] + rest;
    assert forall|i: int| 0 <= i < line.len() as int + 1 implies full[i] != '\n' by {
        if i < line.len() {
            assert(full[i] == line[i]);
        }
    }
    assert(full[line.len() as int + 1] == '\n');
    lemma_position_is(full, '\n', line.len() as int + 1);
    assert(full.take(line.len() as int + 1) =~= line.push('\r'));
    assert(line.push('\r').drop_last() =~= line);
    assert(full.skip(line.len() as int + 2) =~= rest);
}

/// A further digit counts once, and all digits in front of it ten times what they did.
pub proof fn law_digits_have_places(digits: Seq<char>, last: char)
    requires
        '0' <= last <= '9',
    ensures
        digits_value(Seq::empty()) == 0,
        digits_value(digits.push(last)) == 10 * digits_value(digits) + (last as int - '0' as int),
{
    assert(digits.push(last).drop_last() =~= digits);
    assert(digits_value(digits.push(last)) == digits_value(digits) * 10 + (last as nat
        - 48) as nat);
}

/// A number is read back from its decimal notation, with or without a sign in front of it, unless
/// it is too large; nothing is read where there are no digits, or where something else stands.
pub proof fn law_numbers_are_read_back(number: nat, max: nat, text: Seq<char>)
    ensures
        unsigned_of(decimal_of(number), max) == (if number <= max {
            Some(number)
        } else {
            None
        }),
        unsigned_of(seq!['+'] + decimal_of(number), max) == (if number <= max {
            Some(number)
        } else {
            None
        }),
        text.len() == 0 ==> unsigned_of(text, max) is None,
        text == seq!['+'] ==> unsigned_of(text, max) is None,
        forall|i: int|
            0 < i < text.len() && !('0' <= #[trigger] text[i] <= '9') ==> unsigned_of(text, max)
                is None,
        text.len() > 0 && text[0] != '+' && !('0' <= text[0] <= '9') ==> unsigned_of(text, max)
            is None,
{
    lemma_decimal(number);
    let digits = decimal_of(number);
    assert(is_digit(digits[0]));
    assert((seq!['+'] + digits).skip(1) =~= digits);
    assert forall|i: int| 0 < i < text.len() && !('0' <= #[trigger] text[i] <= '9') implies (
    unsigned_of(text, max) is None) by {
        let rest = unsigned_digits(text);
        if text[0] == '+' {
            assert(rest[i - 1] == text[i]);
        } else {
            assert(rest[i] == text[i]);
        }
    }
    if text.len() > 0 && text[0] != '+' && !('0' <= text[0] <= '9') {
        assert(!is_digit(unsigned_digits(text)[0]));
    }
}

/// Replacing changes exactly the characters that are replaced.
pub proof fn law_only_what_is_replaced_changes(text: Seq<char>, from: char, to: char)
    ensures
        replaced(text, from, to).len() == text.len(),
        forall|i: int|
            0 <= i < text.len() && text[i] == from ==> #[trigger] replaced(text, from, to)[i] == to,
        forall|i: int|
            0 <= i < text.len() && text[i] != from ==> #[trigger] replaced(text, from, to)[i]
                == text[i],
{
}

/// A negative number is a sign and its magnitude.
pub proof fn law_negative_numbers_have_a_sign(number: nat)
    requires
        number > 0,
    ensures
        integer_of(number as int) == decimal_of(number),
        integer_of(0 - number) == seq!['-'] + decimal_of(number),
        integer_of(0) == decimal_of(0),
{
}

/// Small letters have their capital ones, and nothing else changes.
pub proof fn law_letters_are_capitalised(ch: char)
    ensures
        'a' <= ch <= 'z' ==> upper(ch) as u32 + 32 == ch as u32,
        !('a' <= ch <= 'z') ==> upper(ch) == ch,
{
}

} // verus!
