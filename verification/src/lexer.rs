//! Lexing a string of Brainfuck source code into a vector of tokens.
//!
//! The eight operator characters are recognized; every other character is a
//! comment and produces no token. Consecutive runs of the four movement and
//! arithmetic characters collapse into a single counted token.

use vstd::prelude::*;

use crate::error::Error;

verus! {

/// A single command in a Brainfuck program.
///
/// - `Right(x)` - repeat `>` x times
/// - `Left(x)` - repeat `<` x times
/// - `Increment(x)` - repeat `+` x times
/// - `Decrement(x)` - repeat `-` x times
/// - `Output` - `.`
/// - `Input` - `,`
/// - `LoopStart` - `[`
/// - `LoopEnd` - `]`
/// - `Clear` - the idiom `[-]`, which sets the current cell to zero
#[derive(Debug, PartialEq, Eq, Structural, Clone, Copy)]
pub enum Token {
    Right(usize),
    Left(usize),
    Increment(usize),
    Decrement(usize),
    Output,
    Input,
    LoopStart,
    LoopEnd,
    Clear,
}

/// The four characters whose consecutive runs collapse into one counted token.
pub open spec fn is_run_char(c: char) -> bool {
    c == '>' || c == '<' || c == '+' || c == '-'
}

/// The four characters that always lex to a single, uncounted token.
pub open spec fn is_single_char(c: char) -> bool {
    c == '.' || c == ',' || c == '[' || c == ']'
}

/// A character that lexing does not skip as a comment.
pub open spec fn is_op_char(c: char) -> bool {
    is_run_char(c) || is_single_char(c)
}

/// The counted token that a run of `n` copies of `c` lexes to.
pub open spec fn run_token(c: char, n: usize) -> Token {
    if c == '>' {
        Token::Right(n)
    } else if c == '<' {
        Token::Left(n)
    } else if c == '+' {
        Token::Increment(n)
    } else {
        Token::Decrement(n)
    }
}

/// The token that a single-character instruction `c` lexes to.
pub open spec fn single_token(c: char) -> Token {
    if c == '.' {
        Token::Output
    } else if c == ',' {
        Token::Input
    } else if c == '[' {
        Token::LoopStart
    } else {
        Token::LoopEnd
    }
}

/// The number of consecutive copies of `c` that `s` holds starting at `i`.
pub open spec fn run_len(s: Seq<char>, i: int, c: char) -> nat
    decreases s.len() - i,
{
    if i < 0 || i >= s.len() || s[i] != c {
        0
    } else {
        1 + run_len(s, i + 1, c)
    }
}

/// A run of `c` cannot extend past the end of `s`.
pub proof fn lemma_run_len_bound(s: Seq<char>, i: int, c: char)
    ensures
        run_len(s, i, c) == 0 || i + run_len(s, i, c) <= s.len(),
    decreases s.len() - i,
{
    if !(i < 0 || i >= s.len() || s[i] != c) {
        lemma_run_len_bound(s, i + 1, c);
    }
}

/// The tokens that lexing `s` from position `i` to the end produces.
pub open spec fn lex_spec(s: Seq<char>, i: int) -> Seq<Token>
    decreases s.len() - i,
    via lex_spec_decreases
{
    if i < 0 || i >= s.len() {
        Seq::empty()
    } else {
        let c = s[i];
        if is_run_char(c) {
            let n = 1 + run_len(s, i + 1, c);
            seq![run_token(c, #[verifier::truncate] (n as usize))] + lex_spec(s, i + n)
        } else if is_single_char(c) {
            seq![single_token(c)] + lex_spec(s, i + 1)
        } else {
            lex_spec(s, i + 1)
        }
    }
}

#[via_fn]
proof fn lex_spec_decreases(s: Seq<char>, i: int) {
    if 0 <= i < s.len() && is_run_char(s[i]) {
        lemma_run_len_bound(s, i + 1, s[i]);
    }
}

/// A string whose characters all lie outside the eight recognized operator
/// characters lexes, from any position, to an empty token sequence: it is
/// all comment.
pub proof fn lemma_lex_comments_only(s: Seq<char>, i: int)
    requires
        forall|j: int| 0 <= j < s.len() ==> !is_op_char(#[trigger] s[j]),
    ensures
        lex_spec(s, i) == Seq::<Token>::empty(),
    decreases s.len() - i,
{
    if 0 <= i < s.len() {
        lemma_lex_comments_only(s, i + 1);
    }
}

/// A string without the comma character lexes to a token sequence without
/// `Input` tokens: only `,` produces one.
pub proof fn lemma_lex_no_comma_no_input(s: Seq<char>, i: int)
    requires
        forall|j: int| 0 <= j < s.len() ==> #[trigger] s[j] != ',',
    ensures
        forall|k: int| 0 <= k < lex_spec(s, i).len() ==> !(#[trigger] lex_spec(s, i)[k] is Input),
    decreases s.len() - i,
{
    if 0 <= i < s.len() {
        let c = s[i];
        if is_run_char(c) {
            let n = 1 + run_len(s, i + 1, c);
            lemma_run_len_bound(s, i + 1, c);
            lemma_lex_no_comma_no_input(s, i + n);
            assert(forall|k: int| 1 <= k < lex_spec(s, i).len() ==> lex_spec(s, i)[k] == lex_spec(
                s,
                i + n,
            )[k - 1]);
        } else if is_single_char(c) {
            lemma_lex_no_comma_no_input(s, i + 1);
            assert(!(single_token(c) is Input));
            assert(forall|k: int| 1 <= k < lex_spec(s, i).len() ==> lex_spec(s, i)[k] == lex_spec(
                s,
                i + 1,
            )[k - 1]);
        } else {
            lemma_lex_no_comma_no_input(s, i + 1);
        }
    }
}

/// Counts the run of consecutive copies of `c` in `source` starting at `start`.
fn consume(source: &str, start: usize, c: char) -> (n: usize)
    requires
        start <= source@.len(),
    ensures
        n == run_len(source@, start as int, c),
        start + n <= source@.len(),
{
    let len = source.unicode_len();
    let mut i = start;
    while i < len && source.get_char(i) == c
        invariant
            start <= i <= len == source@.len(),
            run_len(source@, start as int, c) == i - start + run_len(source@, i as int, c),
        decreases len - i,
    {
        i = i + 1;
    }
    proof {
        assert(run_len(source@, i as int, c) == 0);
    }
    i - start
}

/// Lex a string of Brainfuck source code into a vector of tokens.
///
/// Lexing never fails: unrecognized characters are comments and are skipped.
pub fn lex(source: &str) -> (r: Result<Vec<Token>, Error>)
    ensures
        r matches Ok(tokens) && tokens@ == lex_spec(source@, 0),
{
    let len = source.unicode_len();
    let mut tokens: Vec<Token> = Vec::new();
    let mut i: usize = 0;
    while i < len
        invariant
            0 <= i <= len == source@.len(),
            lex_spec(source@, 0) == tokens@ + lex_spec(source@, i as int),
        decreases len - i,
    {
        let c = source.get_char(i);
        match c {
            '>' => {
                let n = consume(source, i + 1, '>');
                tokens.push(Token::Right(1 + n));
                i = i + 1 + n;
            },
            '<' => {
                let n = consume(source, i + 1, '<');
                tokens.push(Token::Left(1 + n));
                i = i + 1 + n;
            },
            '+' => {
                let n = consume(source, i + 1, '+');
                tokens.push(Token::Increment(1 + n));
                i = i + 1 + n;
            },
            '-' => {
                let n = consume(source, i + 1, '-');
                tokens.push(Token::Decrement(1 + n));
                i = i + 1 + n;
            },
            '.' => {
                tokens.push(Token::Output);
                i = i + 1;
            },
            ',' => {
                tokens.push(Token::Input);
                i = i + 1;
            },
            '[' => {
                tokens.push(Token::LoopStart);
                i = i + 1;
            },
            ']' => {
                tokens.push(Token::LoopEnd);
                i = i + 1;
            },
            _ => {
                i = i + 1;
            },
        }
    }
    Ok(tokens)
}

} // verus!
