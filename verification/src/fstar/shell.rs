//! Splitting of shell-like text into words, and of words into options.
use crate::fstar::error::{ConfigError, ConfigErrorView};
use crate::text;
use vstd::prelude::*;

verus! {

/// Why a text is no sequence of words.
pub enum ShellFault {
    TrailingBackslash,
    UnterminatedQuote,
}

/// The message for a fault.
pub open spec fn fault_text(fault: ShellFault) -> Seq<char> {
    match fault {
        ShellFault::TrailingBackslash => "trailing backslash"@,
        ShellFault::UnterminatedQuote => "unterminated quoted string"@,
    }
}

/// The characters read so far of a word; none before it starts.
pub open spec fn word_so_far(word: Option<Seq<char>>) -> Seq<char> {
    match word {
        Some(chars) => chars,
        None => Seq::empty(),
    }
}

/// A word in front of the words behind it.
pub open spec fn word_then(
    word: Seq<char>,
    rest: Result<Seq<Seq<char>>, ShellFault>,
) -> Result<Seq<Seq<char>>, ShellFault> {
    match rest {
        Ok(words) => Ok(seq![word] + words),
        Err(fault) => Err(fault),
    }
}

/// The words of `rest`, outside of quotes, where `word` has been read of the first. A backslash
/// takes the next character as it is, quotes take all up to the next such quote, and whitespace
/// ends a word. Quotes without anything in between make an empty word.
pub open spec fn plain_words(word: Option<Seq<char>>, rest: Seq<char>) -> Result<
    Seq<Seq<char>>,
    ShellFault,
>
    decreases rest.len(),
{
    if rest.len() == 0 {
        match word {
            Some(chars) => Ok(seq![chars]),
            None => Ok(Seq::empty()),
        }
    } else if rest[0] == '\\' {
        if rest.len() == 1 {
            Err(ShellFault::TrailingBackslash)
        } else {
            plain_words(Some(word_so_far(word).push(rest[1])), rest.skip(2))
        }
    } else if rest[0] == '\'' {
        single_quoted(word_so_far(word), rest.skip(1))
    } else if rest[0] == '"' {
        double_quoted(word_so_far(word), rest.skip(1))
    } else if text::is_space(rest[0]) {
        match word {
            Some(chars) => word_then(chars, plain_words(None, rest.skip(1))),
            None => plain_words(None, rest.skip(1)),
        }
    } else {
        plain_words(Some(word_so_far(word).push(rest[0])), rest.skip(1))
    }
}

/// The words of `rest` inside of single quotes, where every character but the quote stands for
/// itself.
pub open spec fn single_quoted(word: Seq<char>, rest: Seq<char>) -> Result<
    Seq<Seq<char>>,
    ShellFault,
>
    decreases rest.len(),
{
    if rest.len() == 0 {
        Err(ShellFault::UnterminatedQuote)
    } else if rest[0] == '\'' {
        plain_words(Some(word), rest.skip(1))
    } else {
        single_quoted(word.push(rest[0]), rest.skip(1))
    }
}

/// The words of `rest` inside of double quotes, where a backslash takes the next character as it
/// is.
pub open spec fn double_quoted(word: Seq<char>, rest: Seq<char>) -> Result<
    Seq<Seq<char>>,
    ShellFault,
>
    decreases rest.len(),
{
    if rest.len() == 0 {
        Err(ShellFault::UnterminatedQuote)
    } else if rest[0] == '"' {
        plain_words(Some(word), rest.skip(1))
    } else if rest[0] == '\\' {
        if rest.len() == 1 {
            Err(ShellFault::TrailingBackslash)
        } else {
            double_quoted(word.push(rest[1]), rest.skip(2))
        }
    } else {
        double_quoted(word.push(rest[0]), rest.skip(1))
    }
}

/// The words of a shell-like text.
pub open spec fn shell_words(input: Seq<char>) -> Result<Seq<Seq<char>>, ShellFault> {
    plain_words(None, input)
}

/// How the text read so far ends.
#[derive(Clone, Copy)]
enum Quote {
    Outside,
    Single,
    Double,
}

/// The words of what is left, for the state of the reader.
spec fn words_ahead(quote: Quote, word: Option<Seq<char>>, rest: Seq<char>) -> Result<
    Seq<Seq<char>>,
    ShellFault,
> {
    match quote {
        Quote::Outside => plain_words(word, rest),
        Quote::Single => single_quoted(word_so_far(word), rest),
        Quote::Double => double_quoted(word_so_far(word), rest),
    }
}

/// The words found so far, in front of the words of what is left.
spec fn words_then(
    words: Seq<Seq<char>>,
    rest: Result<Seq<Seq<char>>, ShellFault>,
) -> Result<Seq<Seq<char>>, ShellFault> {
    match rest {
        Ok(more) => Ok(words + more),
        Err(fault) => Err(fault),
    }
}

/// The word in progress, where one has started.
spec fn started_word(started: bool, word: Seq<char>) -> Option<Seq<char>> {
    if started {
        Some(word)
    } else {
        None
    }
}

/// Splits shell-like text into words.
pub fn shell_split(input: &str) -> (result: Result<Vec<String>, ConfigError>)
    ensures
        match result {
            Ok(words) => shell_words(input@) == Ok::<Seq<Seq<char>>, ShellFault>(
                text::texts(words@),
            ),
            Err(error) => shell_words(input@) matches Err(fault) && error@
                == ConfigErrorView::InvalidMakeOutput(fault_text(fault)),
        },
{
    let chars = text::chars_of(input);
    let mut words: Vec<String> = Vec::new();
    let mut word = String::new();
    let mut quote = Quote::Outside;
    let mut started = false;
    let mut index: usize = 0;
    assert(chars@.skip(0) =~= chars@);
    assert(text::texts(words@) =~= Seq::empty());
    proof {
        let all = plain_words(None, chars@);
        if let Ok(found) = all {
            assert(Seq::<Seq<char>>::empty() + found =~= found);
        }
    }
    while index < chars.len()
        invariant
            index <= chars@.len(),
            chars@ == input@,
            !started ==> word@.len() == 0 && quote is Outside,
            shell_words(input@) == words_then(
                text::texts(words@),
                words_ahead(quote, started_word(started, word@), chars@.skip(index as int)),
            ),
        decreases chars@.len() - index,
    {
        let ch = chars[index];
        let ghost rest = chars@.skip(index as int);
        assert(rest.skip(1) =~= chars@.skip(index + 1));
        assert(!started ==> word@ =~= Seq::empty());
        let escapes = match quote {
            Quote::Outside => ch == '\\',
            Quote::Single => false,
            Quote::Double => ch == '\\',
        };
        if escapes {
            if index + 1 >= chars.len() {
                return Err(ConfigError::InvalidMakeOutput("trailing backslash".to_owned()));
            }
            assert(rest.skip(2) =~= chars@.skip(index + 2));
            word.push(chars[index + 1]);
            started = true;
            index += 2;
            continue;
        }
        match quote {
            Quote::Outside => {
                if ch == '\'' {
                    quote = Quote::Single;
                    started = true;
                } else if ch == '"' {
                    quote = Quote::Double;
                    started = true;
                } else if text::is_whitespace(ch) {
                    if started {
                        let ghost before = text::texts(words@);
                        words.push(word);
                        assert(text::texts(words@) =~= before.push(word@));
                        proof {
                            let ahead = plain_words(None, rest.skip(1));
                            if let Ok(found) = ahead {
                                assert(before + (seq![word@] + found) =~= text::texts(words@)
                                    + found);
                            }
                        }
                        word = String::new();
                        started = false;
                    }
                } else {
                    word.push(ch);
                    started = true;
                }
            },
            Quote::Single => {
                if ch == '\'' {
                    quote = Quote::Outside;
                } else {
                    word.push(ch);
                }
            },
            Quote::Double => {
                if ch == '"' {
                    quote = Quote::Outside;
                } else {
                    word.push(ch);
                }
            },
        }
        index += 1;
    }
    match quote {
        Quote::Outside => {
            if started {
                let ghost before = text::texts(words@);
                words.push(word);
                assert(text::texts(words@) =~= before + seq![word@]);
            } else {
                assert(text::texts(words@) + Seq::<Seq<char>>::empty() =~= text::texts(words@));
            }
            Ok(words)
        },
        _ => Err(ConfigError::InvalidMakeOutput("unterminated quoted string".to_owned())),
    }
}

/// The options and the directories of `--include` pairs, each in order; none where the last
/// `--include` has no directory.
pub open spec fn make_options(words: Seq<Seq<char>>) -> Option<(Seq<Seq<char>>, Seq<Seq<char>>)>
    decreases words.len(),
{
    if words.len() == 0 {
        Some((Seq::empty(), Seq::empty()))
    } else if words[0] == "--include"@ {
        if words.len() == 1 {
            None
        } else {
            match make_options(words.skip(2)) {
                Some((options, directories)) => Some((options, seq![words[1]] + directories)),
                None => None,
            }
        }
    } else {
        match make_options(words.skip(1)) {
            Some((options, directories)) => Some((seq![words[0]] + options, directories)),
            None => None,
        }
    }
}

/// Splits words into options and the directories of `--include` pairs.
pub fn split_make_options(words: Vec<String>) -> (result: Result<
    (Vec<String>, Vec<String>),
    ConfigError,
>)
    ensures
        match result {
            Ok((options, directories)) => make_options(text::texts(words@)) == Some(
                (text::texts(options@), text::texts(directories@)),
            ),
            Err(error) => make_options(text::texts(words@)) is None && error@
                == ConfigErrorView::InvalidMakeOutput(
                "'--include' must be followed by a directory"@,
            ),
        },
{
    let ghost all = text::texts(words@);
    let mut options: Vec<String> = Vec::new();
    let mut directories: Vec<String> = Vec::new();
    let mut index: usize = 0;
    assert(all.skip(0) =~= all);
    proof {
        if let Some((o, d)) = make_options(all) {
            assert(text::texts(options@) + o =~= o);
            assert(text::texts(directories@) + d =~= d);
        }
    }
    while index < words.len()
        invariant
            index <= words@.len(),
            all == text::texts(words@),
            make_options(all) == match make_options(all.skip(index as int)) {
                Some((o, d)) => Some((text::texts(options@) + o, text::texts(directories@) + d)),
                None => None,
            },
        decreases words@.len() - index,
    {
        let ghost rest = all.skip(index as int);
        let ghost (read_options, read_directories) = (
            text::texts(options@),
            text::texts(directories@),
        );
        assert(rest.skip(1) =~= all.skip(index + 1));
        if text::same(words[index].as_str(), "--include") {
            if index + 1 >= words.len() {
                return Err(
                    ConfigError::InvalidMakeOutput(
                        "'--include' must be followed by a directory".to_owned(),
                    ),
                );
            }
            assert(rest.skip(2) =~= all.skip(index + 2));
            directories.push(words[index + 1].clone());
            proof {
                assert(text::texts(directories@) =~= read_directories.push(rest[1]));
                if let Some((o, d)) = make_options(rest.skip(2)) {
                    assert(read_directories + (seq![rest[1]] + d) =~= text::texts(directories@)
                        + d);
                }
            }
            index += 2;
        } else {
            options.push(words[index].clone());
            proof {
                assert(text::texts(options@) =~= read_options.push(rest[0]));
                if let Some((o, d)) = make_options(rest.skip(1)) {
                    assert(read_options + (seq![rest[0]] + o) =~= text::texts(options@) + o);
                }
            }
            index += 1;
        }
    }
    assert(text::texts(options@) + Seq::<Seq<char>>::empty() =~= text::texts(options@));
    assert(text::texts(directories@) + Seq::<Seq<char>>::empty() =~= text::texts(directories@));
    Ok((options, directories))
}

/// Each directory behind an `--include`, in order.
pub open spec fn include_pairs(directories: Seq<Seq<char>>) -> Seq<Seq<char>> {
    Seq::new(
        2 * directories.len(),
        |i: int|
            if i % 2 == 0 {
                "--include"@
            } else {
                directories[i / 2]
            },
    )
}

/// A word with a backslash in front of each quote and backslash.
pub open spec fn escaped(word: Seq<char>) -> Seq<char>
    decreases word.len(),
{
    if word.len() == 0 {
        Seq::empty()
    } else if word[0] == '"' || word[0] == '\\' {
        seq!['\\', word[0]] + escaped(word.skip(1))
    } else {
        seq![word[0]] + escaped(word.skip(1))
    }
}

/// A word in double quotes.
pub open spec fn quoted(word: Seq<char>) -> Seq<char> {
    seq!['"'] + escaped(word) + seq!['"']
}

/// Words in double quotes, with spaces in between.
pub open spec fn quoted_line(words: Seq<Seq<char>>) -> Seq<char>
    decreases words.len(),
{
    if words.len() == 0 {
        Seq::empty()
    } else if words.len() == 1 {
        quoted(words[0])
    } else {
        quoted(words[0]) + seq![' '] + quoted_line(words.skip(1))
    }
}

proof fn lemma_escaped_reads_back(read: Seq<char>, word: Seq<char>, tail: Seq<char>)
    ensures
        double_quoted(read, escaped(word) + seq!['"'] + tail) == plain_words(
            Some(read + word),
            tail,
        ),
    decreases word.len(),
{
    let rest = escaped(word) + seq!['"'] + tail;
    if word.len() == 0 {
        assert(rest.skip(1) =~= tail);
        assert(read + word =~= read);
    } else {
        lemma_escaped_reads_back(read.push(word[0]), word.skip(1), tail);
        assert(read.push(word[0]) + word.skip(1) =~= read + word);
        let more = escaped(word.skip(1)) + seq!['"'] + tail;
        if word[0] == '"' || word[0] == '\\' {
            assert(rest.skip(2) =~= more);
        } else {
            assert(rest.skip(1) =~= more);
        }
    }
}

proof fn lemma_quoted_reads_back(word: Seq<char>, tail: Seq<char>)
    ensures
        plain_words(None, quoted(word) + tail) == plain_words(Some(word), tail),
{
    let rest = quoted(word) + tail;
    assert(rest.skip(1) =~= escaped(word) + seq!['"'] + tail);
    lemma_escaped_reads_back(Seq::empty(), word, tail);
    assert(Seq::<char>::empty() + word =~= word);
}

/// Words that are written in double quotes, with spaces in between, are read back as they are.
pub proof fn law_quoted_words_are_read_back(words: Seq<Seq<char>>)
    ensures
        shell_words(quoted_line(words)) == Ok::<Seq<Seq<char>>, ShellFault>(words),
    decreases words.len(),
{
    if words.len() == 0 {
        assert(words =~= Seq::empty());
    } else if words.len() == 1 {
        lemma_quoted_reads_back(words[0], Seq::empty());
        assert(quoted(words[0]) + Seq::<char>::empty() =~= quoted(words[0]));
        assert(words =~= seq![words[0]]);
    } else {
        let more = quoted_line(words.skip(1));
        let tail = seq![' '] + more;
        law_quoted_words_are_read_back(words.skip(1));
        lemma_quoted_reads_back(words[0], tail);
        assert(quoted(words[0]) + seq![' '] + more =~= quoted(words[0]) + tail);
        assert(tail.skip(1) =~= more);
        assert(seq![words[0]] + words.skip(1) =~= words);
    }
}

proof fn lemma_pairs_split(directories: Seq<Seq<char>>)
    ensures
        make_options(include_pairs(directories)) == Some(
            (Seq::<Seq<char>>::empty(), directories),
        ),
    decreases directories.len(),
{
    let pairs = include_pairs(directories);
    if directories.len() == 0 {
        assert(pairs =~= Seq::empty());
        assert(directories =~= Seq::empty());
    } else {
        lemma_pairs_split(directories.skip(1));
        assert(pairs.skip(2) =~= include_pairs(directories.skip(1)));
        assert(seq![directories[0]] + directories.skip(1) =~= directories);
    }
}

/// Options followed by `--include` pairs are split into the options and the directories.
pub proof fn law_pairs_behind_options_split_back(
    options: Seq<Seq<char>>,
    directories: Seq<Seq<char>>,
)
    requires
        !options.contains("--include"@),
    ensures
        make_options(options + include_pairs(directories)) == Some((options, directories)),
    decreases options.len(),
{
    let words = options + include_pairs(directories);
    if options.len() == 0 {
        lemma_pairs_split(directories);
        assert(words =~= include_pairs(directories));
        assert(options =~= Seq::empty());
    } else {
        assert(options.contains(options[0]));
        assert(!options.skip(1).contains("--include"@)) by {
            if options.skip(1).contains("--include"@) {
                let i = choose|i: int|
                    0 <= i < options.len() - 1 && options.skip(1)[i] == "--include"@;
                assert(options[i + 1] == "--include"@);
            }
        }
        law_pairs_behind_options_split_back(options.skip(1), directories);
        assert(words.skip(1) =~= options.skip(1) + include_pairs(directories));
        assert(seq![options[0]] + options.skip(1) =~= options);
    }
}

/// A backslash outside of quotes takes the next character into the word, whatever it is; at the end
/// it is a fault.
pub proof fn law_backslashes_take_the_next_character(
    word: Option<Seq<char>>,
    ch: char,
    rest: Seq<char>,
)
    ensures
        plain_words(word, seq!['\\', ch] + rest) == plain_words(
            Some(
                match word {
                    Some(chars) => chars.push(ch),
                    None => seq![ch],
                },
            ),
            rest,
        ),
        plain_words(word, seq!['\\']) == Err::<Seq<Seq<char>>, ShellFault>(
            ShellFault::TrailingBackslash,
        ),
{
    assert((seq!['\\', ch] + rest).skip(2) =~= rest);
    assert(Seq::<char>::empty().push(ch) =~= seq![ch]);
}

/// What stands in single quotes is taken into the word as it is; quotes that are not closed are a
/// fault.
pub proof fn law_single_quotes_take_all_as_it_is(
    word: Option<Seq<char>>,
    inner: Seq<char>,
    rest: Seq<char>,
)
    requires
        forall|i: int| 0 <= i < inner.len() ==> #[trigger] inner[i] != '\'',
    ensures
        plain_words(word, seq!['\''] + inner + seq!['\''] + rest) == plain_words(
            Some(
                match word {
                    Some(chars) => chars + inner,
                    None => inner,
                },
            ),
            rest,
        ),
        plain_words(word, seq!['\''] + inner) == Err::<Seq<Seq<char>>, ShellFault>(
            ShellFault::UnterminatedQuote,
        ),
{
    let read = word_so_far(word);
    assert((seq!['\''] + inner + seq!['\''] + rest).skip(1) =~= inner + seq!['\''] + rest);
    assert((seq!['\''] + inner).skip(1) =~= inner);
    lemma_single_quoted(read, inner, rest);
    if word is None {
        assert(read + inner =~= inner);
    }
}

/// Single quotes are read up to the next one.
proof fn lemma_single_quoted(read: Seq<char>, inner: Seq<char>, rest: Seq<char>)
    requires
        forall|i: int| 0 <= i < inner.len() ==> #[trigger] inner[i] != '\'',
    ensures
        single_quoted(read, inner + seq!['\''] + rest) == plain_words(Some(read + inner), rest),
        single_quoted(read, inner) == Err::<Seq<Seq<char>>, ShellFault>(
            ShellFault::UnterminatedQuote,
        ),
    decreases inner.len(),
{
    let text = inner + seq!['\''] + rest;
    if inner.len() == 0 {
        assert(text.skip(1) =~= rest);
        assert(read + inner =~= read);
    } else {
        assert(inner[0] != '\'');
        let more = inner.skip(1);
        assert forall|i: int| 0 <= i < more.len() implies #[trigger] more[i] != '\'' by {
            assert(more[i] == inner[i + 1]);
        }
        lemma_single_quoted(read.push(inner[0]), more, rest);
        assert(text[0] == inner[0]);
        assert(text.skip(1) =~= more + seq!['\''] + rest);
        assert(read.push(inner[0]) + more =~= read + inner);
    }
}

/// What stands in double quotes is taken into the word, where a backslash takes the next character
/// as it is; quotes that are not closed are a fault.
pub proof fn law_double_quotes_take_all_but_backslashes(
    word: Option<Seq<char>>,
    inner: Seq<char>,
    ch: char,
    rest: Seq<char>,
)
    requires
        forall|i: int|
            0 <= i < inner.len() ==> #[trigger] inner[i] != '"' && inner[i] != '\\',
    ensures
        plain_words(word, seq!['"'] + inner + seq!['"'] + rest) == plain_words(
            Some(
                match word {
                    Some(chars) => chars + inner,
                    None => inner,
                },
            ),
            rest,
        ),
        plain_words(word, seq!['"'] + inner + seq!['\\', ch, '"'] + rest) == plain_words(
            Some(
                match word {
                    Some(chars) => (chars + inner).push(ch),
                    None => inner.push(ch),
                },
            ),
            rest,
        ),
        plain_words(word, seq!['"'] + inner) == Err::<Seq<Seq<char>>, ShellFault>(
            ShellFault::UnterminatedQuote,
        ),
        plain_words(word, seq!['"'] + inner + seq!['\\']) == Err::<Seq<Seq<char>>, ShellFault>(
            ShellFault::TrailingBackslash,
        ),
{
    let read = word_so_far(word);
    lemma_double_quoted(read, inner, seq!['"'] + rest);
    lemma_double_quoted(read, inner, seq!['\\', ch, '"'] + rest);
    lemma_double_quoted(read, inner, Seq::empty());
    lemma_double_quoted(read, inner, seq!['\\']);
    assert((seq!['"'] + inner + seq!['"'] + rest).skip(1) =~= inner + (seq!['"'] + rest));
    assert((seq!['"'] + inner + seq!['\\', ch, '"'] + rest).skip(1) =~= inner + (seq![
        '\\',
        ch,
        '"',
    ] + rest));
    assert((seq!['"'] + inner).skip(1) =~= inner + Seq::<char>::empty());
    assert((seq!['"'] + inner + seq!['\\']).skip(1) =~= inner + seq!['\\']);
    assert((seq!['"'] + rest).skip(1) =~= rest);
    let escape = seq!['\\', ch, '"'] + rest;
    assert(escape.skip(2) =~= seq!['"'] + rest);
    assert(escape[1] == ch);
    assert(double_quoted((read + inner).push(ch), seq!['"'] + rest) == plain_words(
        Some((read + inner).push(ch)),
        rest,
    ));
    if word is None {
        assert(read + inner =~= inner);
    }
}

/// Double quotes are read up to a quote or a backslash.
proof fn lemma_double_quoted(read: Seq<char>, inner: Seq<char>, rest: Seq<char>)
    requires
        forall|i: int|
            0 <= i < inner.len() ==> #[trigger] inner[i] != '"' && inner[i] != '\\',
    ensures
        double_quoted(read, inner + rest) == double_quoted(read + inner, rest),
    decreases inner.len(),
{
    let text = inner + rest;
    if inner.len() == 0 {
        assert(text =~= rest);
        assert(read + inner =~= read);
    } else {
        assert(inner[0] != '"' && inner[0] != '\\');
        let more = inner.skip(1);
        assert forall|i: int| 0 <= i < more.len() implies #[trigger] more[i] != '"' && more[i]
            != '\\' by {
            assert(more[i] == inner[i + 1]);
        }
        lemma_double_quoted(read.push(inner[0]), more, rest);
        assert(text[0] == inner[0]);
        assert(text.skip(1) =~= more + rest);
        assert(read.push(inner[0]) + more =~= read + inner);
    }
}

/// Outside of quotes whitespace ends a word and the words of the rest follow it; more whitespace
/// makes no words.
pub proof fn law_space_ends_words(word: Seq<char>, space: char, rest: Seq<char>)
    requires
        text::is_space(space),
    ensures
        match plain_words(None, rest) {
            Ok(words) => plain_words(Some(word), seq![space] + rest) == Ok::<
                Seq<Seq<char>>,
                ShellFault,
            >(seq![word] + words),
            Err(fault) => plain_words(Some(word), seq![space] + rest) == Err::<
                Seq<Seq<char>>,
                ShellFault,
            >(fault),
        },
        plain_words(None, seq![space] + rest) == plain_words(None, rest),
        plain_words(None, Seq::empty()) == Ok::<Seq<Seq<char>>, ShellFault>(Seq::empty()),
        plain_words(Some(word), Seq::empty()) == Ok::<Seq<Seq<char>>, ShellFault>(seq![word]),
{
    assert((seq![space] + rest).skip(1) =~= rest);
}

/// All other characters outside of quotes belong to a word, and a text starts outside of quotes
/// and words.
pub proof fn law_other_characters_make_words(
    word: Option<Seq<char>>,
    ch: char,
    rest: Seq<char>,
)
    requires
        !text::is_space(ch),
        ch != '\\' && ch != '\'' && ch != '"',
    ensures
        plain_words(word, seq![ch] + rest) == plain_words(
            Some(
                match word {
                    Some(chars) => chars.push(ch),
                    None => seq![ch],
                },
            ),
            rest,
        ),
        shell_words(rest) == plain_words(None, rest),
{
    assert((seq![ch] + rest).skip(1) =~= rest);
    assert(Seq::<char>::empty().push(ch) =~= seq![ch]);
}

/// A directory stands behind each `--include`, wherever that stands; every other word is an option.
pub proof fn law_includes_are_told_from_options(
    word: Seq<char>,
    directory: Seq<char>,
    rest: Seq<Seq<char>>,
)
    requires
        word != "--include"@,
    ensures
        make_options(Seq::empty()) == Some((Seq::<Seq<char>>::empty(), Seq::<Seq<char>>::empty())),
        make_options(seq!["--include"@]) is None,
        match make_options(rest) {
            Some((options, directories)) => {
                &&& make_options(seq![word] + rest) == Some((seq![word] + options, directories))
                &&& make_options(seq!["--include"@, directory] + rest) == Some(
                    (options, seq![directory] + directories),
                )
            },
            None => {
                &&& make_options(seq![word] + rest) is None
                &&& make_options(seq!["--include"@, directory] + rest) is None
            },
        },
{
    assert((seq![word] + rest).skip(1) =~= rest);
    assert((seq!["--include"@, directory] + rest).skip(2) =~= rest);
}

/// Each directory stands behind an `--include` of its own, in order.
pub proof fn law_each_directory_is_included(directories: Seq<Seq<char>>, at: int)
    ensures
        include_pairs(directories).len() == 2 * directories.len(),
        0 <= at < directories.len() ==> include_pairs(directories)[2 * at] == "--include"@
            && include_pairs(directories)[2 * at + 1] == directories[at],
{
    assert((2 * at + 1) % 2 == 1 && (2 * at + 1) / 2 == at);
}

/// The two faults of a line are told apart in their messages.
pub proof fn law_faults_have_their_messages()
    ensures
        fault_text(ShellFault::TrailingBackslash) == "trailing backslash"@,
        fault_text(ShellFault::UnterminatedQuote) == "unterminated quoted string"@,
{
}

} // verus!
