use vstd::prelude::*;
use vstd::string::StringSliceAdditionalSpecFns;

use crate::text::{push_char, reserve_in_string};

verus! {

/// The longest command line accepted, in bytes.
pub const MAX_INPUT_BYTES: usize = 512;

/// Why a command line was rejected.
#[derive(Clone, Copy, Debug, PartialEq, Eq)]
pub enum ParseError {
    NonAscii,
    InputTooLong,
    ControlByte,
    UnterminatedQuote,
    InvalidEscape,
    UnknownCommand,
    Allocation,
    Arity { command: &'static str },
}

/// The quoting context of the tokenizer.
#[derive(Clone, Copy, PartialEq, Eq, Structural)]
pub enum QuoteState {
    Unquoted,
    SingleQuoted,
    DoubleQuoted,
}

/// Space, tab, carriage return or line feed.
pub open spec fn is_shell_space(b: u8) -> bool {
    b == 0x20 || b == 0x09 || b == 0x0d || b == 0x0a
}

/// An ASCII control byte.
pub open spec fn is_control_byte(b: u8) -> bool {
    b < 0x20 || b == 0x7f
}

/// A printable ASCII byte, space through tilde.
pub open spec fn is_printable(b: u8) -> bool {
    0x20 <= b <= 0x7e
}

/// Why the bytes from `i` on are not acceptable input, if they are not: the first
/// non-ASCII or non-whitespace control byte decides.
pub open spec fn input_check(b: Seq<u8>, i: int) -> Result<(), ParseError>
    decreases b.len() - i,
{
    if i >= b.len() {
        Ok(())
    } else if b[i] >= 0x80 {
        Err(ParseError::NonAscii)
    } else if is_control_byte(b[i]) && !is_shell_space(b[i]) {
        Err(ParseError::ControlByte)
    } else {
        input_check(b, i + 1)
    }
}

/// The tokens so far, with the current token appended if one was started.
pub open spec fn finished(tokens: Seq<Seq<char>>, token: Seq<char>, started: bool) -> Seq<
    Seq<char>,
> {
    if started {
        tokens.push(token)
    } else {
        tokens
    }
}

/// Runs the tokenizer from byte `i` with the given collected `tokens`, partial `token`,
/// whether that token was started, and quoting `state`.
pub open spec fn lex(
    b: Seq<u8>,
    i: int,
    tokens: Seq<Seq<char>>,
    token: Seq<char>,
    started: bool,
    state: QuoteState,
) -> Result<Seq<Seq<char>>, ParseError>
    decreases b.len() - i,
{
    if i < 0 || i >= b.len() {
        if state != QuoteState::Unquoted {
            Err(ParseError::UnterminatedQuote)
        } else {
            Ok(finished(tokens, token, started))
        }
    } else {
        let c = b[i];
        match state {
            QuoteState::Unquoted => {
                if is_shell_space(c) {
                    lex(b, i + 1, finished(tokens, token, started), Seq::empty(), false, state)
                } else if c == 0x27 {
                    lex(b, i + 1, tokens, token, true, QuoteState::SingleQuoted)
                } else if c == 0x22 {
                    lex(b, i + 1, tokens, token, true, QuoteState::DoubleQuoted)
                } else if c == 0x5c {
                    if i + 1 < b.len() && is_printable(b[i + 1]) {
                        lex(b, i + 2, tokens, token.push(b[i + 1] as char), true, state)
                    } else {
                        Err(ParseError::InvalidEscape)
                    }
                } else {
                    lex(b, i + 1, tokens, token.push(c as char), true, state)
                }
            },
            QuoteState::SingleQuoted => {
                if c == 0x27 {
                    lex(b, i + 1, tokens, token, started, QuoteState::Unquoted)
                } else {
                    lex(b, i + 1, tokens, token.push(c as char), started, state)
                }
            },
            QuoteState::DoubleQuoted => {
                if c == 0x22 {
                    lex(b, i + 1, tokens, token, started, QuoteState::Unquoted)
                } else if c == 0x5c {
                    if i + 1 < b.len() && is_printable(b[i + 1]) {
                        lex(b, i + 2, tokens, token.push(b[i + 1] as char), started, state)
                    } else {
                        Err(ParseError::InvalidEscape)
                    }
                } else {
                    lex(b, i + 1, tokens, token.push(c as char), started, state)
                }
            },
        }
    }
}

/// The tokens of the command line `b`, or why it is rejected.
pub open spec fn tokenize_spec(b: Seq<u8>) -> Result<Seq<Seq<char>>, ParseError> {
    if b.len() > MAX_INPUT_BYTES {
        Err(ParseError::InputTooLong)
    } else {
        match input_check(b, 0) {
            Err(e) => Err(e),
            Ok(_) => lex(b, 0, Seq::empty(), Seq::empty(), false, QuoteState::Unquoted),
        }
    }
}

/// Whether `b` holds no quote and no backslash.
pub open spec fn is_plain(b: Seq<u8>) -> bool {
    forall|j: int| 0 <= j < b.len() ==> #[trigger] b[j] != 0x27 && b[j] != 0x22 && b[j] != 0x5c
}

/// The words of `b` read as plain text: its maximal runs of bytes other than whitespace, in
/// order, each as characters.
pub open spec fn plain_words(b: Seq<u8>) -> Seq<Seq<char>>
    decreases b.len(),
{
    if b.len() == 0 {
        Seq::empty()
    } else {
        let words = plain_words(b.drop_last());
        let c = b.last();
        if is_shell_space(c) {
            words
        } else if b.len() >= 2 && !is_shell_space(b[b.len() - 2]) {
            words.drop_last().push(words.last().push(c as char))
        } else {
            words.push(seq![c as char])
        }
    }
}

/// A nonempty prefix that ends in a word byte has at least one word.
proof fn lemma_plain_words_nonempty(b: Seq<u8>)
    requires
        b.len() > 0,
        !is_shell_space(b.last()),
    ensures
        plain_words(b).len() > 0,
{
}

/// Whether the first `i` bytes of `b` end inside a word.
pub open spec fn in_word(b: Seq<u8>, i: int) -> bool {
    i > 0 && !is_shell_space(b[i - 1])
}

/// Lexing plain text from byte `i` on, with the words of the first `i` bytes collected,
/// gives what lexing the whole line gives.
proof fn lemma_plain_lex(b: Seq<u8>, i: int)
    requires
        is_plain(b),
        0 <= i <= b.len(),
    ensures
        ({
            let words = plain_words(b.subrange(0, i));
            let started = in_word(b, i);
            lex(b, 0, Seq::empty(), Seq::empty(), false, QuoteState::Unquoted) == if started {
                lex(b, i, words.drop_last(), words.last(), true, QuoteState::Unquoted)
            } else {
                lex(b, i, words, Seq::empty(), false, QuoteState::Unquoted)
            }
        }),
    decreases i,
{
    if i > 0 {
        lemma_plain_lex(b, i - 1);
        let prefix = b.subrange(0, i);
        let before = b.subrange(0, i - 1);
        assert(prefix.drop_last() =~= before);
        assert(prefix.last() == b[i - 1]);
        let words = plain_words(before);
        let c = b[i - 1];
        assert(b[i - 1] != 0x27 && b[i - 1] != 0x22 && b[i - 1] != 0x5c);
        if in_word(b, i - 1) {
            lemma_plain_words_nonempty(before);
            assert(before[before.len() - 1] == b[i - 2]);
            if !is_shell_space(c) {
                assert(prefix[prefix.len() - 2] == b[i - 2]);
                assert(words.drop_last().push(words.last().push(c as char)).drop_last()
                    =~= words.drop_last());
            } else {
                assert(words.drop_last().push(words.last()) =~= words);
            }
        } else {
            if !is_shell_space(c) {
                if i >= 2 {
                    assert(prefix[prefix.len() - 2] == b[i - 2]);
                }
                assert(words.push(seq![c as char]).drop_last() =~= words);
                assert(Seq::<char>::empty().push(c as char) =~= seq![c as char]);
            }
        }
    }
}

/// Text without quotes or backslashes is split at whitespace into its words, empty pieces
/// dropped.
pub proof fn lemma_plain_split(b: Seq<u8>)
    requires
        b.len() <= MAX_INPUT_BYTES,
        input_check(b, 0) is Ok,
        is_plain(b),
    ensures
        tokenize_spec(b) == Ok::<Seq<Seq<char>>, ParseError>(plain_words(b)),
{
    lemma_plain_lex(b, b.len() as int);
    assert(b.subrange(0, b.len() as int) =~= b);
    if in_word(b, b.len() as int) {
        lemma_plain_words_nonempty(b);
        assert(plain_words(b).drop_last().push(plain_words(b).last()) =~= plain_words(b));
    }
}

/// The characters of `s`, byte for byte.
pub open spec fn byte_chars(s: Seq<u8>) -> Seq<char> {
    Seq::new(s.len(), |k: int| s[k] as char)
}

/// Whether `b` is a byte a command line may hold: ASCII, and not a control byte other than
/// whitespace.
pub open spec fn is_input_byte(b: u8) -> bool {
    b < 0x80 && (!is_control_byte(b) || is_shell_space(b))
}

/// A line of acceptable bytes from `i` on passes the input check.
proof fn lemma_input_ok(b: Seq<u8>, i: int)
    requires
        0 <= i,
        forall|j: int| i <= j < b.len() ==> is_input_byte(#[trigger] b[j]),
    ensures
        input_check(b, i) is Ok,
    decreases b.len() - i,
{
    if i < b.len() {
        lemma_input_ok(b, i + 1);
    }
}

/// Inside double quotes, a run of bytes without `"` or `\` is appended to the word as it is.
proof fn lemma_double_quoted_run(
    b: Seq<u8>,
    i: int,
    j: int,
    tokens: Seq<Seq<char>>,
    token: Seq<char>,
    started: bool,
)
    requires
        0 <= i <= j <= b.len(),
        forall|k: int| i <= k < j ==> #[trigger] b[k] != 0x22 && b[k] != 0x5c,
    ensures
        lex(b, i, tokens, token, started, QuoteState::DoubleQuoted) == lex(
            b,
            j,
            tokens,
            token + byte_chars(b.subrange(i, j)),
            started,
            QuoteState::DoubleQuoted,
        ),
    decreases j - i,
{
    if i < j {
        lemma_double_quoted_run(b, i + 1, j, tokens, token.push(b[i] as char), started);
        assert(token.push(b[i] as char) + byte_chars(b.subrange(i + 1, j)) =~= token
            + byte_chars(b.subrange(i, j)));
    } else {
        assert(token + byte_chars(b.subrange(i, j)) =~= token);
    }
}

/// A double-quoted text with no `"` or `\` inside is one word holding exactly its bytes,
/// single quotes and whitespace included.
pub proof fn lemma_double_quoted_word(s: Seq<u8>)
    requires
        s.len() + 2 <= MAX_INPUT_BYTES,
        forall|k: int| 0 <= k < s.len() ==> is_input_byte(#[trigger] s[k]),
        forall|k: int| 0 <= k < s.len() ==> #[trigger] s[k] != 0x22 && s[k] != 0x5c,
    ensures
        tokenize_spec(seq![0x22u8] + s + seq![0x22u8]) == Ok::<Seq<Seq<char>>, ParseError>(
            seq![byte_chars(s)],
        ),
{
    let line = seq![0x22u8] + s + seq![0x22u8];
    let n = line.len() as int;
    assert forall|j: int| 0 <= j < n implies is_input_byte(#[trigger] line[j]) by {
        if 1 <= j < n - 1 {
            assert(line[j] == s[j - 1]);
        }
    }
    lemma_input_ok(line, 0);
    assert forall|k: int| 1 <= k < n - 1 implies #[trigger] line[k] != 0x22 && line[k] != 0x5c by {
        assert(line[k] == s[k - 1]);
    }
    lemma_double_quoted_run(line, 1, n - 1, Seq::empty(), Seq::empty(), true);
    assert(line.subrange(1, n - 1) =~= s);
    assert(Seq::<char>::empty() + byte_chars(s) =~= byte_chars(s));
    assert(line[0] == 0x22u8);
    assert(line[n - 1] == 0x22u8);
    assert(lex(line, 0, Seq::empty(), Seq::empty(), false, QuoteState::Unquoted) == lex(
        line,
        1,
        Seq::empty(),
        Seq::empty(),
        true,
        QuoteState::DoubleQuoted,
    ));
    assert(lex(line, n - 1, Seq::empty(), byte_chars(s), true, QuoteState::DoubleQuoted) == lex(
        line,
        n,
        Seq::empty(),
        byte_chars(s),
        true,
        QuoteState::Unquoted,
    ));
    assert(finished(Seq::empty(), byte_chars(s), true) =~= seq![byte_chars(s)]);
}

/// The character contents of each string.
pub open spec fn string_views(v: Seq<String>) -> Seq<Seq<char>> {
    v.map_values(|s: String| s@)
}



/// Space, tab, carriage return or line feed.
pub fn is_whitespace(byte: u8) -> (r: bool)
    ensures
        r == is_shell_space(byte),
{
    byte == 0x20 || byte == 0x09 || byte == 0x0d || byte == 0x0a
}

/// An ASCII control byte.
pub fn is_control(byte: u8) -> (r: bool)
    ensures
        r == is_control_byte(byte),
{
    byte < 0x20 || byte == 0x7f
}

/// Appends an escaped byte, which must exist and be printable ASCII.
pub fn push_escaped(byte: Option<u8>, token: &mut String) -> (r: Result<(), ParseError>)
    ensures
        match byte {
            Some(b) => if is_printable(b) {
                match r {
                    Ok(()) => final(token)@ == old(token)@.push(b as char),
                    Err(e) => e == ParseError::Allocation && final(token)@ == old(token)@,
                }
            } else {
                r == Err::<(), ParseError>(ParseError::InvalidEscape) && final(token)@ == old(
                    token,
                )@
            },
            None => r == Err::<(), ParseError>(ParseError::InvalidEscape) && final(token)@ == old(
                token,
            )@,
        },
{
    match byte {
        Some(b) => {
            if 0x20 <= b && b <= 0x7e {
                push_byte(token, b)
            } else {
                Err(ParseError::InvalidEscape)
            }
        },
        None => Err(ParseError::InvalidEscape),
    }
}

/// Appends `byte` to the token as a character; fails, leaving the token as it was, when no
/// memory can be had for it.
pub fn push_byte(token: &mut String, byte: u8) -> (r: Result<(), ParseError>)
    ensures
        match r {
            Ok(()) => final(token)@ == old(token)@.push(byte as char),
            Err(e) => e == ParseError::Allocation && final(token)@ == old(token)@,
        },
{
    if !reserve_in_string(token, 1) {
        return Err(ParseError::Allocation);
    }
    push_char(token, byte as char);
    Ok(())
}

/// Moves a started token into the token list; fails, changing nothing, when the list cannot
/// grow.
pub fn finish_token(tokens: &mut Vec<String>, token: &mut String, token_started: &mut bool) -> (r:
    Result<(), ParseError>)
    ensures
        r is Err ==> r == Err::<(), ParseError>(ParseError::Allocation) && final(tokens)@ == old(
            tokens,
        )@ && final(token)@ == old(token)@ && *final(token_started) == *old(token_started)
            && *old(token_started),
        r is Ok ==> string_views(final(tokens)@) == finished(
            string_views(old(tokens)@),
            old(token)@,
            *old(token_started),
        ),
        r is Ok && *old(token_started) ==> final(token)@ == Seq::<char>::empty(),
        r is Ok && !*old(token_started) ==> final(token)@ == old(token)@,
        r is Ok ==> *final(token_started) == false,
{
    if *token_started {
        if tokens.try_reserve(1).is_err() {
            return Err(ParseError::Allocation);
        }
        let mut taken = String::new();
        core::mem::swap(token, &mut taken);
        tokens.push(taken);
        *token_started = false;
        proof {
            assert(string_views(tokens@) =~= string_views(old(tokens)@).push(old(token)@));
        }
    }
    Ok(())
}

/// Lexing never drops a word: a started word ends up in the result, and a run that adds no
/// word has only whitespace left, outside quotes, with no word started.
pub proof fn lemma_lex_words(
    b: Seq<u8>,
    i: int,
    tokens: Seq<Seq<char>>,
    token: Seq<char>,
    started: bool,
    state: QuoteState,
)
    requires
        0 <= i,
        state != QuoteState::Unquoted ==> started,
    ensures
        lex(b, i, tokens, token, started, state) matches Ok(ts) ==> ts.len() >= tokens.len() + (
        if started {
            1int
        } else {
            0int
        }),
        lex(b, i, tokens, token, started, state) matches Ok(ts) && ts.len() == tokens.len() ==> {
            &&& !started
            &&& state == QuoteState::Unquoted
            &&& forall|j: int| i <= j < b.len() ==> is_shell_space(#[trigger] b[j])
        },
    decreases b.len() - i,
{
    if i < b.len() {
        let c = b[i];
        match state {
            QuoteState::Unquoted => {
                if is_shell_space(c) {
                    lemma_lex_words(b, i + 1, finished(tokens, token, started), Seq::empty(), false, state);
                } else if c == 0x27 {
                    lemma_lex_words(b, i + 1, tokens, token, true, QuoteState::SingleQuoted);
                } else if c == 0x22 {
                    lemma_lex_words(b, i + 1, tokens, token, true, QuoteState::DoubleQuoted);
                } else if c == 0x5c {
                    if i + 1 < b.len() && is_printable(b[i + 1]) {
                        lemma_lex_words(b, i + 2, tokens, token.push(b[i + 1] as char), true, state);
                    }
                } else {
                    lemma_lex_words(b, i + 1, tokens, token.push(c as char), true, state);
                }
            },
            QuoteState::SingleQuoted => {
                if c == 0x27 {
                    lemma_lex_words(b, i + 1, tokens, token, started, QuoteState::Unquoted);
                } else {
                    lemma_lex_words(b, i + 1, tokens, token.push(c as char), started, state);
                }
            },
            QuoteState::DoubleQuoted => {
                if c == 0x22 {
                    lemma_lex_words(b, i + 1, tokens, token, started, QuoteState::Unquoted);
                } else if c == 0x5c {
                    if i + 1 < b.len() && is_printable(b[i + 1]) {
                        lemma_lex_words(b, i + 2, tokens, token.push(b[i + 1] as char), started, state);
                    }
                } else {
                    lemma_lex_words(b, i + 1, tokens, token.push(c as char), started, state);
                }
            },
        }
    }
}

/// Splits a command line into words, honouring single quotes, double quotes and
/// backslash escapes; a quoted empty string is a word of its own.
pub fn tokenize(line: &str) -> (r: Result<Vec<String>, ParseError>)
    ensures
        tokenize_spec(line.spec_bytes()) == Ok::<Seq<Seq<char>>, ParseError>(Seq::empty()) ==> (r matches Ok(v)
            && v@.len() == 0),
        !(line.spec_bytes().len() <= MAX_INPUT_BYTES && input_check(line.spec_bytes(), 0) is Ok)
            ==> r == Err::<Vec<String>, ParseError>(tokenize_spec(line.spec_bytes())->Err_0),
        r != Err::<Vec<String>, ParseError>(ParseError::Allocation) ==> match tokenize_spec(
            line.spec_bytes(),
        ) {
            Err(e) => r == Err::<Vec<String>, ParseError>(e),
            Ok(ts) => r matches Ok(v) && string_views(v@) == ts,
        },
{
    let bytes = line.as_bytes();
    if bytes.len() > MAX_INPUT_BYTES {
        return Err(ParseError::InputTooLong);
    }
    let mut i: usize = 0;
    while i < bytes.len()
        invariant
            i <= bytes@.len() <= MAX_INPUT_BYTES,
            bytes@ == line.spec_bytes(),
            input_check(bytes@, 0) == input_check(bytes@, i as int),
        decreases bytes@.len() - i,
    {
        let byte = bytes[i];
        if byte >= 0x80 {
            return Err(ParseError::NonAscii);
        }
        if is_control(byte) && !is_whitespace(byte) {
            return Err(ParseError::ControlByte);
        }
        i += 1;
    }
    let mut tokens: Vec<String> = Vec::new();
    let mut token = String::new();
    let mut token_started = false;
    let mut state = QuoteState::Unquoted;
    let mut index: usize = 0;
    let ghost target = lex(bytes@, 0, Seq::empty(), Seq::empty(), false, QuoteState::Unquoted);
    assert(string_views(tokens@) =~= Seq::<Seq<char>>::empty());
    assert(tokenize_spec(line.spec_bytes()) == target);
    proof {
        lemma_lex_words(bytes@, 0, Seq::empty(), Seq::empty(), false, QuoteState::Unquoted);
    }
    while index < bytes.len()
        invariant
            index <= bytes@.len() <= MAX_INPUT_BYTES,
            bytes@ == line.spec_bytes(),
            input_check(bytes@, 0) is Ok,
            tokenize_spec(line.spec_bytes()) == target,
            !token_started ==> token@ == Seq::<char>::empty(),
            state != QuoteState::Unquoted ==> token_started,
            lex(bytes@, index as int, string_views(tokens@), token@, token_started, state)
                == target,
            target == Ok::<Seq<Seq<char>>, ParseError>(Seq::empty()) ==> {
                &&& tokens@.len() == 0
                &&& !token_started
                &&& state == QuoteState::Unquoted
                &&& forall|j: int| index <= j < bytes@.len() ==> is_shell_space(#[trigger] bytes@[j])
            },
        decreases bytes@.len() - index,
    {
        let byte = bytes[index];
        let ghost silent = target == Ok::<Seq<Seq<char>>, ParseError>(Seq::empty());
        proof {
            if silent {
                assert(is_shell_space(bytes@[index as int]));
            }
        }
        match state {
            QuoteState::Unquoted => {
                if is_whitespace(byte) {
                    finish_token(&mut tokens, &mut token, &mut token_started)?;
                    proof {
                        if silent {
                            assert(string_views(tokens@).len() == tokens@.len());
                        }
                    }
                } else if byte == 0x27 {
                    state = QuoteState::SingleQuoted;
                    token_started = true;
                } else if byte == 0x22 {
                    state = QuoteState::DoubleQuoted;
                    token_started = true;
                } else if byte == 0x5c {
                    index += 1;
                    let next = if index < bytes.len() {
                        Some(bytes[index])
                    } else {
                        None
                    };
                    push_escaped(next, &mut token)?;
                    token_started = true;
                } else {
                    push_byte(&mut token, byte)?;
                    token_started = true;
                }
            },
            QuoteState::SingleQuoted => {
                if byte == 0x27 {
                    state = QuoteState::Unquoted;
                } else {
                    push_byte(&mut token, byte)?;
                }
            },
            QuoteState::DoubleQuoted => {
                if byte == 0x22 {
                    state = QuoteState::Unquoted;
                } else if byte == 0x5c {
                    index += 1;
                    let next = if index < bytes.len() {
                        Some(bytes[index])
                    } else {
                        None
                    };
                    push_escaped(next, &mut token)?;
                } else {
                    push_byte(&mut token, byte)?;
                }
            },
        }
        index += 1;
    }
    if state != QuoteState::Unquoted {
        return Err(ParseError::UnterminatedQuote);
    }
    finish_token(&mut tokens, &mut token, &mut token_started)?;
    Ok(tokens)
}

} // verus!
