use vstd::prelude::*;

verus! {

/// The eight commands of the language. `Left` is written `>` and `Right` is written `<`.
#[derive(Debug, Clone, Copy, PartialEq, Eq)]
pub enum TokenKind {
    Inc,
    Dec,
    Left,
    Right,
    Put,
    Get,
    LoopStart,
    LoopEnd,
}

/// A command with its position in the source: the line, counted from 1, and the column,
/// counted from 1 over every character since the last newline.
#[derive(Debug, Clone, Copy, PartialEq, Eq)]
pub struct Token {
    pub kind: TokenKind,
    pub line: usize,
    pub col: usize,
}

/// The command a character stands for; every other character is a comment.
pub open spec fn command_kind(ch: char) -> Option<TokenKind> {
    if ch == '+' {
        Some(TokenKind::Inc)
    } else if ch == '-' {
        Some(TokenKind::Dec)
    } else if ch == '>' {
        Some(TokenKind::Left)
    } else if ch == '<' {
        Some(TokenKind::Right)
    } else if ch == '.' {
        Some(TokenKind::Put)
    } else if ch == ',' {
        Some(TokenKind::Get)
    } else if ch == '[' {
        Some(TokenKind::LoopStart)
    } else if ch == ']' {
        Some(TokenKind::LoopEnd)
    } else {
        None
    }
}

/// The line that the last character of `text` stands on: one more than the newlines before
/// it (a newline itself ends its line).
pub open spec fn line_at_end(text: Seq<char>) -> nat
    decreases text.len(),
{
    if text.len() == 0 {
        1
    } else if text.last() == '\n' {
        line_at_end(text.drop_last()) + 1
    } else {
        line_at_end(text.drop_last())
    }
}

/// The number of characters after the last newline of `text`.
pub open spec fn col_at_end(text: Seq<char>) -> nat
    decreases text.len(),
{
    if text.len() == 0 {
        0
    } else if text.last() == '\n' {
        0
    } else {
        col_at_end(text.drop_last()) + 1
    }
}

/// The tokens of a text: its command characters in order, each with its line and column.
pub open spec fn tokens_of(text: Seq<char>) -> Seq<Token>
    decreases text.len(),
{
    if text.len() == 0 {
        Seq::empty()
    } else {
        let before = tokens_of(text.drop_last());
        match command_kind(text.last()) {
            Some(kind) => before.push(
                Token {
                    kind,
                    line: line_at_end(text) as usize,
                    col: col_at_end(text) as usize,
                },
            ),
            None => before,
        }
    }
}

proof fn lemma_position_bounds(text: Seq<char>)
    ensures
        line_at_end(text) <= text.len() + 1,
        col_at_end(text) <= text.len(),
    decreases text.len(),
{
    if text.len() > 0 {
        lemma_position_bounds(text.drop_last());
    }
}

/// One of the eight command characters `+ - < > . , [ ]`.
pub open spec fn is_command_char(c: char) -> bool {
    c == '+' || c == '-' || c == '<' || c == '>' || c == '.' || c == ',' || c == '[' || c == ']'
}

/// The kind of token a command character gives: `+` increments, `-` decrements, `>` is
/// `Left`, `<` is `Right`, `.` puts, `,` gets, `[` starts and `]` ends a loop.
pub open spec fn kind_of_command_char(c: char) -> TokenKind {
    if c == '+' {
        TokenKind::Inc
    } else if c == '-' {
        TokenKind::Dec
    } else if c == '>' {
        TokenKind::Left
    } else if c == '<' {
        TokenKind::Right
    } else if c == '.' {
        TokenKind::Put
    } else if c == ',' {
        TokenKind::Get
    } else if c == '[' {
        TokenKind::LoopStart
    } else {
        TokenKind::LoopEnd
    }
}

/// Tokens come from the command characters only, one each, in order: the kinds of the tokens
/// of a text are its command characters mapped to their kinds, and every other character is
/// a comment.
pub proof fn lemma_tokens_are_command_chars(text: Seq<char>)
    ensures
        tokens_of(text).map_values(|t: Token| t.kind) == text.filter(|c: char| is_command_char(c)).map_values(
            |c: char| kind_of_command_char(c),
        ),
        tokens_of(text).len() == text.filter(|c: char| is_command_char(c)).len(),
    decreases text.len(),
{
    reveal_with_fuel(Seq::<char>::filter, 1);
    if text.len() > 0 {
        lemma_tokens_are_command_chars(text.drop_last());
        let before = tokens_of(text.drop_last());
        let f = text.drop_last().filter(|c: char| is_command_char(c));
        if is_command_char(text.last()) {
            assert(tokens_of(text).map_values(|t: Token| t.kind) =~= before.map_values(
                |t: Token| t.kind,
            ).push(kind_of_command_char(text.last())));
            assert(f.push(text.last()).map_values(|c: char| kind_of_command_char(c)) =~= f.map_values(
                |c: char| kind_of_command_char(c),
            ).push(kind_of_command_char(text.last())));
        }
    } else {
        assert(tokens_of(text).map_values(|t: Token| t.kind) =~= Seq::<TokenKind>::empty());
    }
}

/// A text has no more tokens than characters.
pub proof fn lemma_tokens_len(text: Seq<char>)
    ensures
        tokens_of(text).len() <= text.len(),
    decreases text.len(),
{
    if text.len() > 0 {
        lemma_tokens_len(text.drop_last());
    }
}

/// Splits source text into tokens.
pub fn lex(source: &str) -> (tokens: Vec<Token>)
    requires
        source@.len() <= isize::MAX,
    ensures
        tokens@ == tokens_of(source@),
{
    let mut tokens: Vec<Token> = Vec::new();
    let mut line: usize = 1;
    let mut col: usize = 0;
    let ghost text = source@;

    for ch in it: source.chars()
        invariant
            it.seq() == text,
            text.len() <= isize::MAX,
            tokens@ == tokens_of(text.take(it.index() as int)),
            line == line_at_end(text.take(it.index() as int)),
            col == col_at_end(text.take(it.index() as int)),
    {
        let ghost i = it.index() as int;
        proof {
            let next = text.take(i + 1);
            assert(next.drop_last() =~= text.take(i));
            assert(next.last() == ch);
            lemma_position_bounds(text.take(i));
        }
        if ch == '\n' {
            line += 1;
            col = 0;
        } else {
            col += 1;
            if ch != '\r' {
                let kind = match ch {
                    '+' => Some(TokenKind::Inc),
                    '-' => Some(TokenKind::Dec),
                    '>' => Some(TokenKind::Left),
                    '<' => Some(TokenKind::Right),
                    '.' => Some(TokenKind::Put),
                    ',' => Some(TokenKind::Get),
                    '[' => Some(TokenKind::LoopStart),
                    ']' => Some(TokenKind::LoopEnd),
                    _ => None,
                };
                if let Some(kind) = kind {
                    tokens.push(Token { kind, line, col });
                }
            }
        }
    }
    proof {
        assert(text.take(text.len() as int) =~= text);
    }
    tokens
}

} // verus!
