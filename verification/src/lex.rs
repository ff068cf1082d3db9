//! The tokenizer: from source bytes to lexical tokens, one at a time, with
//! one token of lookahead.

use crate::number::{canonical, lemma_canonical, lemma_canonical_same_number, pow10, Decimal};
use crate::text::{byte_char, latin1_text};
use vstd::prelude::*;
use vstd::string::*;

verus! {

/// A lexical token.
#[derive(Debug, PartialEq)]
pub enum Token {
    // keywords
    And,
    Break,
    Do,
    Else,
    Elseif,
    End,
    False,
    For,
    Function,
    Goto,
    If,
    In,
    Local,
    Nil,
    Not,
    Or,
    Repeat,
    Return,
    Then,
    True,
    Until,
    While,
    // +       -       *       /       %       ^       #
    Add,
    Sub,
    Mul,
    Div,
    Mod,
    Pow,
    Len,
    // &       ~       |       <<      >>      //
    BitAnd,
    BitXor,
    BitOr,
    ShiftL,
    ShiftR,
    Idiv,
    // ==       ~=     <=      >=      <       >        =
    Equal,
    NotEq,
    LesEq,
    GreEq,
    Less,
    Greater,
    Assign,
    // (       )       {       }       [       ]       ::
    ParL,
    ParR,
    CurlyL,
    CurlyR,
    SqurL,
    SqurR,
    DoubColon,
    // ;               :       ,       .       ..      ...
    SemiColon,
    Colon,
    Comma,
    Dot,
    Concat,
    Dots,
    // constant values
    Integer(i64),
    Float(Decimal),
    String(String),
    // name of variables or table keys
    Name(String),
    // end
    Eos,
}

/// What a [`Token`] is, with text as a sequence of characters.
pub enum TokenView {
    // keywords
    And,
    Break,
    Do,
    Else,
    Elseif,
    End,
    False,
    For,
    Function,
    Goto,
    If,
    In,
    Local,
    Nil,
    Not,
    Or,
    Repeat,
    Return,
    Then,
    True,
    Until,
    While,
    // +       -       *       /       %       ^       #
    Add,
    Sub,
    Mul,
    Div,
    Mod,
    Pow,
    Len,
    // &       ~       |       <<      >>      //
    BitAnd,
    BitXor,
    BitOr,
    ShiftL,
    ShiftR,
    Idiv,
    // ==       ~=     <=      >=      <       >        =
    Equal,
    NotEq,
    LesEq,
    GreEq,
    Less,
    Greater,
    Assign,
    // (       )       {       }       [       ]       ::
    ParL,
    ParR,
    CurlyL,
    CurlyR,
    SqurL,
    SqurR,
    DoubColon,
    // ;               :       ,       .       ..      ...
    SemiColon,
    Colon,
    Comma,
    Dot,
    Concat,
    Dots,
    // constant values
    Integer(i64),
    Float(Decimal),
    String(Seq<char>),
    // name of variables or table keys
    Name(Seq<char>),
    // end
    Eos,
}

impl View for Token {
    type V = TokenView;

    open spec fn view(&self) -> TokenView {
        match self {
            Token::And => TokenView::And,
            Token::Break => TokenView::Break,
            Token::Do => TokenView::Do,
            Token::Else => TokenView::Else,
            Token::Elseif => TokenView::Elseif,
            Token::End => TokenView::End,
            Token::False => TokenView::False,
            Token::For => TokenView::For,
            Token::Function => TokenView::Function,
            Token::Goto => TokenView::Goto,
            Token::If => TokenView::If,
            Token::In => TokenView::In,
            Token::Local => TokenView::Local,
            Token::Nil => TokenView::Nil,
            Token::Not => TokenView::Not,
            Token::Or => TokenView::Or,
            Token::Repeat => TokenView::Repeat,
            Token::Return => TokenView::Return,
            Token::Then => TokenView::Then,
            Token::True => TokenView::True,
            Token::Until => TokenView::Until,
            Token::While => TokenView::While,
            Token::Add => TokenView::Add,
            Token::Sub => TokenView::Sub,
            Token::Mul => TokenView::Mul,
            Token::Div => TokenView::Div,
            Token::Mod => TokenView::Mod,
            Token::Pow => TokenView::Pow,
            Token::Len => TokenView::Len,
            Token::BitAnd => TokenView::BitAnd,
            Token::BitXor => TokenView::BitXor,
            Token::BitOr => TokenView::BitOr,
            Token::ShiftL => TokenView::ShiftL,
            Token::ShiftR => TokenView::ShiftR,
            Token::Idiv => TokenView::Idiv,
            Token::Equal => TokenView::Equal,
            Token::NotEq => TokenView::NotEq,
            Token::LesEq => TokenView::LesEq,
            Token::GreEq => TokenView::GreEq,
            Token::Less => TokenView::Less,
            Token::Greater => TokenView::Greater,
            Token::Assign => TokenView::Assign,
            Token::ParL => TokenView::ParL,
            Token::ParR => TokenView::ParR,
            Token::CurlyL => TokenView::CurlyL,
            Token::CurlyR => TokenView::CurlyR,
            Token::SqurL => TokenView::SqurL,
            Token::SqurR => TokenView::SqurR,
            Token::DoubColon => TokenView::DoubColon,
            Token::SemiColon => TokenView::SemiColon,
            Token::Colon => TokenView::Colon,
            Token::Comma => TokenView::Comma,
            Token::Dot => TokenView::Dot,
            Token::Concat => TokenView::Concat,
            Token::Dots => TokenView::Dots,
            Token::Integer(i) => TokenView::Integer(*i),
            Token::Float(d) => TokenView::Float(*d),
            Token::String(s) => TokenView::String(s@),
            Token::Name(s) => TokenView::Name(s@),
            Token::Eos => TokenView::Eos,
        }
    }
}

/// Why a source text has no next token.
#[derive(Clone, Copy, Debug, PartialEq, Eq, Structural)]
pub enum LexError {
    /// A byte that starts no token.
    InvalidChar(u8),
    /// A string that a newline or the end of the source cuts short.
    UnfinishedString,
    /// A letter directly after the digits of an integer.
    MalformedNumber,
    /// Digits that spell a number above the largest 64-bit signed integer.
    NumberTooLarge,
    /// A backslash inside a string: escapes are reserved.
    UnsupportedEscape,
    /// A number that starts with `0x` or `0X`: hexadecimal is reserved.
    UnsupportedHex,
    /// An `e` or `E` directly after the digits of an integer: exponents are
    /// reserved.
    UnsupportedExponent,
}

/// The byte at a position; past the end of the source, the zero byte that
/// marks the end.
pub open spec fn byte_at(src: Seq<u8>, i: int) -> u8 {
    if 0 <= i < src.len() {
        src[i]
    } else {
        0
    }
}

/// White space between tokens: newline, carriage return, tab, space.
pub open spec fn is_space(b: u8) -> bool {
    b == '\n' as u8 || b == '\r' as u8 || b == '\t' as u8 || b == ' ' as u8
}

/// An ASCII decimal digit.
pub open spec fn is_digit(b: u8) -> bool {
    '0' as u8 <= b <= '9' as u8
}

/// A byte that opens a string: a single or a double quote.
pub open spec fn is_quote(b: u8) -> bool {
    b == '\'' as u8 || b == '"' as u8
}

/// A byte that may start a name: an ASCII letter or the underscore.
pub open spec fn is_name_start(b: u8) -> bool {
    'A' as u8 <= b <= 'Z' as u8 || 'a' as u8 <= b <= 'z' as u8 || b == '_' as u8
}

/// A byte whose character is a letter: an ASCII letter, or one of the
/// letters in the upper half of Latin-1.
pub open spec fn is_alphabetic(b: u8) -> bool {
    'A' as u8 <= b <= 'Z' as u8 || 'a' as u8 <= b <= 'z' as u8 || b == 0xAA || b == 0xB5 || b
        == 0xBA || 0xC0 <= b <= 0xD6 || 0xD8 <= b <= 0xF6 || 0xF8 <= b
}

/// A byte whose character is a number: an ASCII digit, or a superscript
/// digit or a fraction in the upper half of Latin-1.
pub open spec fn is_numeric(b: u8) -> bool {
    is_digit(b) || b == 0xB2 || b == 0xB3 || b == 0xB9 || 0xBC <= b <= 0xBE
}

/// A byte that may continue a name: a letter, a number or the underscore.
pub open spec fn is_name_part(b: u8) -> bool {
    is_alphabetic(b) || is_numeric(b) || b == '_' as u8
}

/// The kinds of byte that a lexeme is made of.
#[derive(Clone, Copy, Debug, PartialEq, Eq, Structural)]
pub enum Class {
    /// A decimal digit.
    Digit,
    /// A byte that may continue a name.
    NamePart,
    /// Anything but what ends a line comment: a newline or the zero byte.
    CommentBody,
    /// Anything but what ends or breaks a string that opened with the given
    /// quote: that quote, a newline, the zero byte or a backslash.
    StringBody(u8),
}

/// Whether a byte is of a class.
pub open spec fn in_class(c: Class, b: u8) -> bool {
    match c {
        Class::Digit => is_digit(b),
        Class::NamePart => is_name_part(b),
        Class::CommentBody => b != '\n' as u8 && b != 0,
        Class::StringBody(q) => b != q && b != '\n' as u8 && b != 0 && b != '\\' as u8,
    }
}

/// Where the longest run of bytes of one class that starts at `from` ends.
pub open spec fn run_end(src: Seq<u8>, from: int, c: Class) -> int
    decreases src.len() - from,
{
    if 0 <= from < src.len() && in_class(c, src[from]) {
        run_end(src, from + 1, c)
    } else {
        from
    }
}

/// The number that the decimal digits from `from` up to `to` spell.
pub open spec fn digits_value(src: Seq<u8>, from: int, to: int) -> nat
    decreases to - from,
{
    if to <= from {
        0
    } else {
        digits_value(src, from, to - 1) * 10 + (byte_at(src, to - 1) - '0' as u8) as nat
    }
}

/// Where the next token starts: the first position at or after `pos` that is
/// neither white space nor inside a comment. A comment runs from `--` to the
/// end of its line.
pub open spec fn skip_blank(src: Seq<u8>, pos: int) -> int
    decreases src.len() - pos,
{
    if is_space(byte_at(src, pos)) {
        skip_blank(src, pos + 1)
    } else if byte_at(src, pos) == '-' as u8 && byte_at(src, pos + 1) == '-' as u8 {
        proof {
            lemma_run_end_bounds(src, pos + 2, Class::CommentBody);
        }
        skip_blank(src, after_comment(src, pos + 2))
    } else {
        pos
    }
}

/// Where a comment whose text starts at `from` has been left behind: after
/// the newline or zero byte that ends it, or at the end of the source.
pub open spec fn after_comment(src: Seq<u8>, from: int) -> int {
    let e = run_end(src, from, Class::CommentBody);
    if e < src.len() {
        e + 1
    } else {
        e
    }
}

/// The result of looking for a token: the token with the position after it,
/// or the fault.
pub type Scan = Result<(TokenView, int), LexError>;

/// The operator or punctuation mark that starts with the byte `b`, followed
/// by `b1` and `b2`, with the number of bytes it takes. The longest one that
/// fits is taken.
pub open spec fn symbol(b: u8, b1: u8, b2: u8) -> Option<(TokenView, int)> {
    if b == '+' as u8 {
        Some((TokenView::Add, 1))
    } else if b == '-' as u8 {
        Some((TokenView::Sub, 1))
    } else if b == '*' as u8 {
        Some((TokenView::Mul, 1))
    } else if b == '%' as u8 {
        Some((TokenView::Mod, 1))
    } else if b == '^' as u8 {
        Some((TokenView::Pow, 1))
    } else if b == '#' as u8 {
        Some((TokenView::Len, 1))
    } else if b == '&' as u8 {
        Some((TokenView::BitAnd, 1))
    } else if b == '|' as u8 {
        Some((TokenView::BitOr, 1))
    } else if b == '(' as u8 {
        Some((TokenView::ParL, 1))
    } else if b == ')' as u8 {
        Some((TokenView::ParR, 1))
    } else if b == '{' as u8 {
        Some((TokenView::CurlyL, 1))
    } else if b == '}' as u8 {
        Some((TokenView::CurlyR, 1))
    } else if b == '[' as u8 {
        Some((TokenView::SqurL, 1))
    } else if b == ']' as u8 {
        Some((TokenView::SqurR, 1))
    } else if b == ';' as u8 {
        Some((TokenView::SemiColon, 1))
    } else if b == ',' as u8 {
        Some((TokenView::Comma, 1))
    } else if b == '/' as u8 {
        Some(one_ahead(b1, '/' as u8, TokenView::Idiv, TokenView::Div))
    } else if b == '=' as u8 {
        Some(one_ahead(b1, '=' as u8, TokenView::Equal, TokenView::Assign))
    } else if b == '~' as u8 {
        Some(one_ahead(b1, '=' as u8, TokenView::NotEq, TokenView::BitXor))
    } else if b == ':' as u8 {
        Some(one_ahead(b1, ':' as u8, TokenView::DoubColon, TokenView::Colon))
    } else if b == '<' as u8 {
        Some(two_ahead(b1, '=' as u8, TokenView::LesEq, '<' as u8, TokenView::ShiftL, TokenView::Less))
    } else if b == '>' as u8 {
        Some(
            two_ahead(
                b1,
                '=' as u8,
                TokenView::GreEq,
                '>' as u8,
                TokenView::ShiftR,
                TokenView::Greater,
            ),
        )
    } else if b == '.' as u8 {
        if b1 == '.' as u8 {
            if b2 == '.' as u8 {
                Some((TokenView::Dots, 3))
            } else {
                Some((TokenView::Concat, 2))
            }
        } else if is_digit(b1) {
            None
        } else {
            Some((TokenView::Dot, 1))
        }
    } else {
        None
    }
}

/// The two-byte token where the second byte is `ahead`, else the one-byte
/// token; the second byte is taken only by the long form.
pub open spec fn one_ahead(b1: u8, ahead: u8, long: TokenView, short: TokenView) -> (
    TokenView,
    int,
) {
    if b1 == ahead {
        (long, 2)
    } else {
        (short, 1)
    }
}

/// As [`one_ahead`], with two long forms to choose from.
pub open spec fn two_ahead(
    b1: u8,
    ahead1: u8,
    long1: TokenView,
    ahead2: u8,
    long2: TokenView,
    short: TokenView,
) -> (TokenView, int) {
    if b1 == ahead1 {
        (long1, 2)
    } else if b1 == ahead2 {
        (long2, 2)
    } else {
        (short, 1)
    }
}

/// The name or keyword that starts at `p`.
pub open spec fn name_at(src: Seq<u8>, p: int) -> Scan {
    let e = run_end(src, p, Class::NamePart);
    let word = latin1_text(src.subrange(p, e));
    match keyword_of(word) {
        Some(k) => Ok((k, e)),
        None => Ok((TokenView::Name(word), e)),
    }
}

/// The string whose opening quote is at `p`: the bytes up to the next quote
/// of the same kind, all on one line and free of backslashes.
pub open spec fn string_at(src: Seq<u8>, p: int) -> Scan {
    let quote = byte_at(src, p);
    let e = run_end(src, p + 1, Class::StringBody(quote));
    if byte_at(src, e) == quote {
        Ok((TokenView::String(latin1_text(src.subrange(p + 1, e))), e + 1))
    } else if byte_at(src, e) == '\\' as u8 {
        Err(LexError::UnsupportedEscape)
    } else {
        Err(LexError::UnfinishedString)
    }
}

/// The number with the integer part `whole` whose fraction digits start at
/// `from`, just after the point.
pub open spec fn fraction_at(src: Seq<u8>, whole: nat, from: int) -> Scan {
    let e = run_end(src, from, Class::Digit);
    let frac = digits_value(src, from, e);
    if frac > i64::MAX {
        Err(LexError::NumberTooLarge)
    } else {
        Ok((TokenView::Float(canonical(whole as u64, frac as u64, (e - from) as usize)), e))
    }
}

/// The number whose first digit is at `p`.
pub open spec fn number_at(src: Seq<u8>, p: int) -> Scan {
    let e = run_end(src, p, Class::Digit);
    let value = digits_value(src, p, e);
    let follow = byte_at(src, e);
    if byte_at(src, p) == '0' as u8 && (byte_at(src, p + 1) == 'x' as u8 || byte_at(src, p + 1)
        == 'X' as u8) {
        Err(LexError::UnsupportedHex)
    } else if value > i64::MAX {
        Err(LexError::NumberTooLarge)
    } else if follow == '.' as u8 {
        fraction_at(src, value, e + 1)
    } else if follow == 'e' as u8 || follow == 'E' as u8 {
        Err(LexError::UnsupportedExponent)
    } else if is_alphabetic(follow) {
        Err(LexError::MalformedNumber)
    } else {
        Ok((TokenView::Integer(value as i64), e))
    }
}

/// The token that starts at `p`, where `p` is not in white space or a
/// comment.
pub open spec fn token_at(src: Seq<u8>, p: int) -> Scan {
    let b = byte_at(src, p);
    if b == 0 {
        Ok(
            (
                TokenView::Eos,
                if p < src.len() {
                    p + 1
                } else {
                    p
                },
            ),
        )
    } else if let Some((t, n)) = symbol(b, byte_at(src, p + 1), byte_at(src, p + 2)) {
        Ok((t, p + n))
    } else if b == '.' as u8 {
        fraction_at(src, 0, p + 1)
    } else if is_quote(b) {
        string_at(src, p)
    } else if is_digit(b) {
        number_at(src, p)
    } else if is_name_start(b) {
        name_at(src, p)
    } else {
        Err(LexError::InvalidChar(b))
    }
}

/// The next token at or after `pos`, with the position after it.
pub open spec fn scan(src: Seq<u8>, pos: int) -> Scan {
    token_at(src, skip_blank(src, pos))
}

/// A run ends no earlier than it starts and within the source.
pub proof fn lemma_run_end_bounds(src: Seq<u8>, from: int, c: Class)
    ensures
        from <= run_end(src, from, c),
        from <= src.len() ==> run_end(src, from, c) <= src.len(),
    decreases src.len() - from,
{
    if 0 <= from < src.len() && in_class(c, src[from]) {
        lemma_run_end_bounds(src, from + 1, c);
    }
}

/// All bytes of a run are of its class, and the byte after it is not.
pub proof fn lemma_run_end_class(src: Seq<u8>, from: int, c: Class)
    requires
        0 <= from,
    ensures
        forall|i: int| from <= i < run_end(src, from, c) ==> in_class(c, #[trigger] src[i]),
        !in_class(c, byte_at(src, run_end(src, from, c))),
    decreases src.len() - from,
{
    if from < src.len() && in_class(c, src[from]) {
        lemma_run_end_class(src, from + 1, c);
    }
}

/// Skipping white space and comments moves forward and stays in the source.
pub proof fn lemma_skip_blank_bounds(src: Seq<u8>, pos: int)
    ensures
        pos <= skip_blank(src, pos),
        pos <= src.len() ==> skip_blank(src, pos) <= src.len(),
    decreases src.len() - pos,
{
    if is_space(byte_at(src, pos)) {
        lemma_skip_blank_bounds(src, pos + 1);
    } else if byte_at(src, pos) == '-' as u8 && byte_at(src, pos + 1) == '-' as u8 {
        lemma_run_end_bounds(src, pos + 2, Class::CommentBody);
        lemma_skip_blank_bounds(src, after_comment(src, pos + 2));
    }
}

/// A token ends within the source, and every token but the end marker takes
/// at least one byte.
pub proof fn lemma_scan_progress(src: Seq<u8>, pos: int)
    requires
        0 <= pos <= src.len(),
    ensures
        match scan(src, pos) {
            Ok((t, end)) => pos <= end <= src.len() && (t != TokenView::Eos ==> pos < end),
            Err(_) => true,
        },
{
    lemma_skip_blank_bounds(src, pos);
    let p = skip_blank(src, pos);
    let b = byte_at(src, p);
    lemma_run_end_bounds(src, p, Class::Digit);
    lemma_run_end_bounds(src, p + 1, Class::Digit);
    lemma_run_end_bounds(src, p, Class::NamePart);
    lemma_run_end_bounds(src, p + 1, Class::StringBody(b));
    lemma_run_end_bounds(src, run_end(src, p, Class::Digit) + 1, Class::Digit);
    lemma_run_end_class(src, p, Class::Digit);
    if is_name_start(b) {
        assert(run_end(src, p, Class::NamePart) == run_end(src, p + 1, Class::NamePart));
        lemma_run_end_bounds(src, p + 1, Class::NamePart);
    }
    if is_digit(b) {
        assert(run_end(src, p, Class::Digit) == run_end(src, p + 1, Class::Digit));
    }
}

/// The keyword that a word spells, if it is a reserved word.
pub open spec fn keyword_of(word: Seq<char>) -> Option<TokenView> {
    if word == "and"@ {
        Some(TokenView::And)
    } else if word == "break"@ {
        Some(TokenView::Break)
    } else if word == "do"@ {
        Some(TokenView::Do)
    } else if word == "else"@ {
        Some(TokenView::Else)
    } else if word == "elseif"@ {
        Some(TokenView::Elseif)
    } else if word == "end"@ {
        Some(TokenView::End)
    } else if word == "false"@ {
        Some(TokenView::False)
    } else if word == "for"@ {
        Some(TokenView::For)
    } else if word == "function"@ {
        Some(TokenView::Function)
    } else if word == "goto"@ {
        Some(TokenView::Goto)
    } else if word == "if"@ {
        Some(TokenView::If)
    } else if word == "in"@ {
        Some(TokenView::In)
    } else if word == "local"@ {
        Some(TokenView::Local)
    } else if word == "nil"@ {
        Some(TokenView::Nil)
    } else if word == "not"@ {
        Some(TokenView::Not)
    } else if word == "or"@ {
        Some(TokenView::Or)
    } else if word == "repeat"@ {
        Some(TokenView::Repeat)
    } else if word == "return"@ {
        Some(TokenView::Return)
    } else if word == "then"@ {
        Some(TokenView::Then)
    } else if word == "true"@ {
        Some(TokenView::True)
    } else if word == "until"@ {
        Some(TokenView::Until)
    } else if word == "while"@ {
        Some(TokenView::While)
    } else {
        None
    }
}

/// A run that nothing interrupts goes to the end of the source.
pub proof fn lemma_run_end_all(src: Seq<u8>, from: int, c: Class)
    requires
        0 <= from <= src.len(),
        forall|i: int| from <= i < src.len() ==> in_class(c, #[trigger] src[i]),
    ensures
        run_end(src, from, c) == src.len(),
    decreases src.len() - from,
{
    if from < src.len() {
        lemma_run_end_all(src, from + 1, c);
    }
}

/// A reserved word is spelled in lower-case ASCII letters.
pub proof fn lemma_keyword_letters(word: Seq<char>)
    requires
        keyword_of(word) is Some,
    ensures
        word.len() > 0,
        forall|i: int| 0 <= i < word.len() ==> 'a' <= #[trigger] word[i] <= 'z',
{
    reveal_strlit("and");
    reveal_strlit("break");
    reveal_strlit("do");
    reveal_strlit("else");
    reveal_strlit("elseif");
    reveal_strlit("end");
    reveal_strlit("false");
    reveal_strlit("for");
    reveal_strlit("function");
    reveal_strlit("goto");
    reveal_strlit("if");
    reveal_strlit("in");
    reveal_strlit("local");
    reveal_strlit("nil");
    reveal_strlit("not");
    reveal_strlit("or");
    reveal_strlit("repeat");
    reveal_strlit("return");
    reveal_strlit("then");
    reveal_strlit("true");
    reveal_strlit("until");
    reveal_strlit("while");
}

/// Every reserved word, spelled exactly, is its keyword and never a name:
/// a source that holds just the word has the keyword as its one token.
pub proof fn lemma_reserved_word(src: Seq<u8>)
    requires
        keyword_of(latin1_text(src)) is Some,
    ensures
        scan(src, 0) == Ok::<_, LexError>((keyword_of(latin1_text(src))->0, src.len() as int)),
        !(keyword_of(latin1_text(src))->0 is Name),
        scan(src, src.len() as int) == Ok::<_, LexError>((TokenView::Eos, src.len() as int)),
{
    let word = latin1_text(src);
    lemma_keyword_letters(word);
    assert forall|i: int| 0 <= i < src.len() implies 'a' as u8 <= #[trigger] src[i] <= 'z' as u8 by {
        assert('a' <= word[i] <= 'z');
    }
    assert forall|i: int| 0 <= i < src.len() implies in_class(Class::NamePart, #[trigger] src[i]) by {
        assert('a' as u8 <= src[i] <= 'z' as u8);
    }
    lemma_run_end_all(src, 0, Class::NamePart);
    assert('a' as u8 <= src[0] <= 'z' as u8);
    assert(src.subrange(0, src.len() as int) =~= src);
}

/// A name-shaped lexeme that spells a reserved word is its keyword; any
/// other is the name it spells.
pub proof fn lemma_name_or_keyword(src: Seq<u8>, pos: int)
    requires
        is_name_start(byte_at(src, skip_blank(src, pos))),
    ensures
        ({
            let p = skip_blank(src, pos);
            let e = run_end(src, p, Class::NamePart);
            let word = latin1_text(src.subrange(p, e));
            match keyword_of(word) {
                Some(k) => scan(src, pos) == Ok::<_, LexError>((k, e)) && !(k is Name),
                None => scan(src, pos) == Ok::<_, LexError>((TokenView::Name(word), e)),
            }
        }),
{
}

/// An operator of two bytes is taken whole; where the second byte does not
/// fit, the operator of one byte is taken and the second byte is left for
/// the next token.
pub proof fn lemma_operator_lookahead(src: Seq<u8>, pos: int)
    ensures
        ({
            let p = skip_blank(src, pos);
            let b = byte_at(src, p);
            let b1 = byte_at(src, p + 1);
            let one = |t: TokenView| Ok::<_, LexError>((t, p + 1));
            let two = |t: TokenView| Ok::<_, LexError>((t, p + 2));
            &&& b == '<' as u8 ==> scan(src, pos) == if b1 == '=' as u8 {
                two(TokenView::LesEq)
            } else if b1 == '<' as u8 {
                two(TokenView::ShiftL)
            } else {
                one(TokenView::Less)
            }
            &&& b == '>' as u8 ==> scan(src, pos) == if b1 == '=' as u8 {
                two(TokenView::GreEq)
            } else if b1 == '>' as u8 {
                two(TokenView::ShiftR)
            } else {
                one(TokenView::Greater)
            }
            &&& b == '=' as u8 ==> scan(src, pos) == if b1 == '=' as u8 {
                two(TokenView::Equal)
            } else {
                one(TokenView::Assign)
            }
            &&& b == '~' as u8 ==> scan(src, pos) == if b1 == '=' as u8 {
                two(TokenView::NotEq)
            } else {
                one(TokenView::BitXor)
            }
            &&& b == '/' as u8 ==> scan(src, pos) == if b1 == '/' as u8 {
                two(TokenView::Idiv)
            } else {
                one(TokenView::Div)
            }
            &&& b == ':' as u8 ==> scan(src, pos) == if b1 == ':' as u8 {
                two(TokenView::DoubColon)
            } else {
                one(TokenView::Colon)
            }
        }),
{
}

/// Digits spell a number below ten to the power of their count.
proof fn lemma_digits_value_bound(src: Seq<u8>, from: int, to: int)
    requires
        0 <= from <= to <= src.len(),
        forall|i: int| from <= i < to ==> is_digit(#[trigger] src[i]),
    ensures
        digits_value(src, from, to) < pow10((to - from) as nat),
    decreases to - from,
{
    if from < to {
        lemma_digits_value_bound(src, from, to - 1);
        assert(is_digit(src[to - 1]));
    }
}

/// The token of a number with a fraction is the canonical decimal of the
/// number that its digits spell: literals that spell the same number, with
/// more or fewer zeros at the end, are the same token.
pub proof fn lemma_fraction_token(src: Seq<u8>, whole: nat, from: int)
    requires
        0 <= from <= src.len() <= usize::MAX,
        whole <= u64::MAX,
    ensures
        match fraction_at(src, whole, from) {
            Ok((TokenView::Float(d), end)) => {
                let frac = digits_value(src, from, end);
                &&& from <= end <= src.len()
                &&& d.is_canonical()
                &&& d.is_proper()
                &&& d.same_number(
                    Decimal { whole: whole as u64, frac: frac as u64, places: (end - from) as usize },
                )
            },
            Ok(_) => false,
            Err(e) => e == LexError::NumberTooLarge,
        },
{
    let end = run_end(src, from, Class::Digit);
    lemma_run_end_bounds(src, from, Class::Digit);
    lemma_run_end_class(src, from, Class::Digit);
    lemma_digits_value_bound(src, from, end);
    let frac = digits_value(src, from, end);
    if frac <= i64::MAX {
        lemma_canonical(whole as u64, frac as u64, (end - from) as usize);
        lemma_canonical_same_number(whole as u64, frac as u64, (end - from) as usize);
    }
}

/// Digits spell at least as much as any of their prefixes.
proof fn lemma_digits_value_monotone(src: Seq<u8>, from: int, mid: int, to: int)
    requires
        from <= mid <= to,
    ensures
        digits_value(src, from, mid) <= digits_value(src, from, to),
    decreases to - mid,
{
    if mid < to {
        lemma_digits_value_monotone(src, from, mid, to - 1);
    }
}

/// The keyword token of a reserved word.
fn keyword(word: &str) -> (r: Option<Token>)
    ensures
        match r {
            Some(t) => keyword_of(word@) == Some(t@),
            None => keyword_of(word@) is None,
        },
{
    if word.eq("and") {
        Some(Token::And)
    } else if word.eq("break") {
        Some(Token::Break)
    } else if word.eq("do") {
        Some(Token::Do)
    } else if word.eq("else") {
        Some(Token::Else)
    } else if word.eq("elseif") {
        Some(Token::Elseif)
    } else if word.eq("end") {
        Some(Token::End)
    } else if word.eq("false") {
        Some(Token::False)
    } else if word.eq("for") {
        Some(Token::For)
    } else if word.eq("function") {
        Some(Token::Function)
    } else if word.eq("goto") {
        Some(Token::Goto)
    } else if word.eq("if") {
        Some(Token::If)
    } else if word.eq("in") {
        Some(Token::In)
    } else if word.eq("local") {
        Some(Token::Local)
    } else if word.eq("nil") {
        Some(Token::Nil)
    } else if word.eq("not") {
        Some(Token::Not)
    } else if word.eq("or") {
        Some(Token::Or)
    } else if word.eq("repeat") {
        Some(Token::Repeat)
    } else if word.eq("return") {
        Some(Token::Return)
    } else if word.eq("then") {
        Some(Token::Then)
    } else if word.eq("true") {
        Some(Token::True)
    } else if word.eq("until") {
        Some(Token::Until)
    } else if word.eq("while") {
        Some(Token::While)
    } else {
        None
    }
}

/// Whether a byte is of a class.
fn in_class_exec(c: Class, b: u8) -> (r: bool)
    ensures
        r == in_class(c, b),
{
    match c {
        Class::Digit => '0' as u8 <= b && b <= '9' as u8,
        Class::NamePart => is_alphabetic_byte(b) || is_numeric_byte(b) || b == '_' as u8,
        Class::CommentBody => b != '\n' as u8 && b != 0,
        Class::StringBody(q) => b != q && b != '\n' as u8 && b != 0 && b != '\\' as u8,
    }
}

/// Whether the character of a byte is a letter.
pub fn is_alphabetic_byte(b: u8) -> (r: bool)
    ensures
        r == is_alphabetic(b),
{
    ('A' as u8 <= b && b <= 'Z' as u8) || ('a' as u8 <= b && b <= 'z' as u8) || b == 0xAA || b
        == 0xB5 || b == 0xBA || (0xC0 <= b && b <= 0xD6) || (0xD8 <= b && b <= 0xF6) || 0xF8 <= b
}

/// Whether the character of a byte is a number.
pub fn is_numeric_byte(b: u8) -> (r: bool)
    ensures
        r == is_numeric(b),
{
    ('0' as u8 <= b && b <= '9' as u8) || b == 0xB2 || b == 0xB3 || b == 0xB9 || (0xBC <= b && b
        <= 0xBE)
}

/// A tokenizer over a source text held in memory.
///
/// It hands out the tokens of the source in order. The next token can be
/// looked at before it is taken; it is then held in a one-token buffer.
#[derive(Debug)]
pub struct Lex {
    input: Vec<u8>,
    /// How far the source has been read.
    pos: usize,
    /// Where the token in `ahead` started.
    mark: usize,
    /// The token that has been looked at and not yet taken.
    ahead: Option<Token>,
}

impl Lex {
    /// The source text.
    pub closed spec fn source(&self) -> Seq<u8> {
        self.input@
    }

    /// Where in the source the next token is looked for.
    pub closed spec fn cursor(&self) -> int {
        if self.ahead is Some {
            self.mark as int
        } else {
            self.pos as int
        }
    }

    /// The buffered token, if any, is the one that the source holds between
    /// `mark` and `pos`.
    pub closed spec fn wf(&self) -> bool {
        &&& self.pos <= self.input.len()
        &&& self.mark <= self.pos
        &&& match self.ahead {
            Some(t) => scan(self.input@, self.mark as int) == Ok::<_, LexError>(
                (t@, self.pos as int),
            ),
            None => true,
        }
    }

    /// A tokenizer at the start of `input`.
    pub fn new(input: Vec<u8>) -> (lex: Lex)
        ensures
            lex.wf(),
            lex.source() == input@,
            lex.cursor() == 0,
    {
        Lex { input, pos: 0, mark: 0, ahead: None }
    }

    /// Takes the next token. At the end of the source this is `Eos`, however
    /// often it is asked for. After a fault the tokenizer is where it was.
    pub fn next(&mut self) -> (r: Result<Token, LexError>)
        requires
            old(self).wf(),
        ensures
            final(self).wf(),
            final(self).source() == old(self).source(),
            0 <= old(self).cursor() <= final(self).cursor() <= old(self).source().len(),
            match r {
                Ok(t) => scan(old(self).source(), old(self).cursor()) == Ok::<_, LexError>(
                    (t@, final(self).cursor()),
                ),
                Err(e) => scan(old(self).source(), old(self).cursor()) == Err::<(TokenView, int), _>(
                    e,
                ) && final(self).cursor() == old(self).cursor(),
            },
    {
        proof {
            lemma_scan_progress(self.input@, self.cursor());
        }
        match self.ahead.take() {
            Some(t) => Ok(t),
            None => {
                match self.do_next(self.pos) {
                    Ok((t, end)) => {
                        self.pos = end;
                        self.mark = end;
                        Ok(t)
                    },
                    Err(e) => Err(e),
                }
            },
        }
    }

    /// Looks at the next token without taking it.
    pub fn peek(&mut self) -> (r: Result<&Token, LexError>)
        requires
            old(self).wf(),
        ensures
            final(self).wf(),
            final(self).source() == old(self).source(),
            final(self).cursor() == old(self).cursor(),
            match r {
                Ok(t) => match scan(old(self).source(), old(self).cursor()) {
                    Ok((tv, _)) => tv == t@,
                    Err(_) => false,
                },
                Err(e) => scan(old(self).source(), old(self).cursor()) == Err::<(TokenView, int), _>(
                    e,
                ),
            },
    {
        if self.ahead.is_none() {
            proof {
                lemma_scan_progress(self.input@, self.pos as int);
            }
            match self.do_next(self.pos) {
                Ok((t, end)) => {
                    self.mark = self.pos;
                    self.pos = end;
                    self.ahead = Some(t);
                },
                Err(e) => {
                    return Err(e);
                },
            }
        }
        Ok(self.ahead.as_ref().unwrap())
    }

    /// The token at or after `from`, with the position after it.
    fn do_next(&self, from: usize) -> (r: Result<(Token, usize), LexError>)
        requires
            from <= self.input.len(),
        ensures
            match r {
                Ok((t, end)) => scan(self.input@, from as int) == Ok::<_, LexError>(
                    (t@, end as int),
                ),
                Err(e) => scan(self.input@, from as int) == Err::<(TokenView, int), _>(e),
            },
    {
        let p = self.skip_blank(from);
        let b = self.read_char(p);
        if b == 0 {
            let end = if p < self.input.len() {
                p + 1
            } else {
                p
            };
            return Ok((Token::Eos, end));
        }
        let b1 = self.read_char(p + 1);
        if b == '+' as u8 {
            Ok((Token::Add, p + 1))
        } else if b == '-' as u8 {
            Ok((Token::Sub, p + 1))
        } else if b == '*' as u8 {
            Ok((Token::Mul, p + 1))
        } else if b == '%' as u8 {
            Ok((Token::Mod, p + 1))
        } else if b == '^' as u8 {
            Ok((Token::Pow, p + 1))
        } else if b == '#' as u8 {
            Ok((Token::Len, p + 1))
        } else if b == '&' as u8 {
            Ok((Token::BitAnd, p + 1))
        } else if b == '|' as u8 {
            Ok((Token::BitOr, p + 1))
        } else if b == '(' as u8 {
            Ok((Token::ParL, p + 1))
        } else if b == ')' as u8 {
            Ok((Token::ParR, p + 1))
        } else if b == '{' as u8 {
            Ok((Token::CurlyL, p + 1))
        } else if b == '}' as u8 {
            Ok((Token::CurlyR, p + 1))
        } else if b == '[' as u8 {
            Ok((Token::SqurL, p + 1))
        } else if b == ']' as u8 {
            Ok((Token::SqurR, p + 1))
        } else if b == ';' as u8 {
            Ok((Token::SemiColon, p + 1))
        } else if b == ',' as u8 {
            Ok((Token::Comma, p + 1))
        } else if b == '/' as u8 {
            Ok(self.check_ahead(p, '/' as u8, Token::Idiv, Token::Div))
        } else if b == '=' as u8 {
            Ok(self.check_ahead(p, '=' as u8, Token::Equal, Token::Assign))
        } else if b == '~' as u8 {
            Ok(self.check_ahead(p, '=' as u8, Token::NotEq, Token::BitXor))
        } else if b == ':' as u8 {
            Ok(self.check_ahead(p, ':' as u8, Token::DoubColon, Token::Colon))
        } else if b == '<' as u8 {
            Ok(self.check_ahead2(p, '=' as u8, Token::LesEq, '<' as u8, Token::ShiftL, Token::Less))
        } else if b == '>' as u8 {
            Ok(
                self.check_ahead2(
                    p,
                    '=' as u8,
                    Token::GreEq,
                    '>' as u8,
                    Token::ShiftR,
                    Token::Greater,
                ),
            )
        } else if b == '.' as u8 {
            if b1 == '.' as u8 {
                if self.read_char(p + 2) == '.' as u8 {
                    Ok((Token::Dots, p + 3))
                } else {
                    Ok((Token::Concat, p + 2))
                }
            } else if '0' as u8 <= b1 && b1 <= '9' as u8 {
                self.read_number_fraction(0, p + 1)
            } else {
                Ok((Token::Dot, p + 1))
            }
        } else if b == '\'' as u8 || b == '"' as u8 {
            self.read_string(p)
        } else if '0' as u8 <= b && b <= '9' as u8 {
            self.read_number(p)
        } else if ('A' as u8 <= b && b <= 'Z' as u8) || ('a' as u8 <= b && b <= 'z' as u8) || b
            == '_' as u8 {
            Ok(self.read_name(p))
        } else {
            Err(LexError::InvalidChar(b))
        }
    }

    /// The byte at a position, zero past the end.
    fn read_char(&self, at: usize) -> (b: u8)
        ensures
            b == byte_at(self.input@, at as int),
    {
        if at < self.input.len() {
            self.input[at]
        } else {
            0
        }
    }

    /// Where the run of bytes of one class that starts at `from` ends.
    fn run(&self, from: usize, c: Class) -> (end: usize)
        requires
            from <= self.input.len(),
        ensures
            end == run_end(self.input@, from as int, c),
            from <= end <= self.input.len(),
    {
        let mut i = from;
        while i < self.input.len() && in_class_exec(c, self.input[i])
            invariant
                from <= i <= self.input.len(),
                run_end(self.input@, i as int, c) == run_end(self.input@, from as int, c),
            decreases self.input.len() - i,
        {
            i = i + 1;
        }
        i
    }

    /// Where the next token starts.
    fn skip_blank(&self, from: usize) -> (p: usize)
        requires
            from <= self.input.len(),
        ensures
            p == skip_blank(self.input@, from as int),
            from <= p <= self.input.len(),
    {
        let mut i = from;
        loop
            invariant
                from <= i <= self.input.len(),
                skip_blank(self.input@, i as int) == skip_blank(self.input@, from as int),
            ensures
                from <= i <= self.input.len(),
                i == skip_blank(self.input@, from as int),
            decreases self.input.len() - i,
        {
            let b = self.read_char(i);
            if b == '\n' as u8 || b == '\r' as u8 || b == '\t' as u8 || b == ' ' as u8 {
                i = i + 1;
            } else if b == '-' as u8 && self.read_char(i + 1) == '-' as u8 {
                i = self.read_comment(i + 2);
            } else {
                break ;
            }
        }
        i
    }

    /// Where the comment whose text starts at `from` has been left behind.
    fn read_comment(&self, from: usize) -> (end: usize)
        requires
            from <= self.input.len(),
        ensures
            end == after_comment(self.input@, from as int),
            from <= end <= self.input.len(),
    {
        let e = self.run(from, Class::CommentBody);
        if e < self.input.len() {
            e + 1
        } else {
            e
        }
    }

    /// The long token if the byte after `p` is `ahead`, else the short one.
    fn check_ahead(&self, p: usize, ahead: u8, long: Token, short: Token) -> (r: (Token, usize))
        requires
            p < self.input.len(),
            ahead != 0,
        ensures
            (r.0@, r.1 as int - p) == one_ahead(
                byte_at(self.input@, p + 1),
                ahead,
                long@,
                short@,
            ),
    {
        if self.read_char(p + 1) == ahead {
            (long, p + 2)
        } else {
            (short, p + 1)
        }
    }

    /// As `check_ahead`, with two long tokens to choose from.
    fn check_ahead2(
        &self,
        p: usize,
        ahead1: u8,
        long1: Token,
        ahead2: u8,
        long2: Token,
        short: Token,
    ) -> (r: (Token, usize))
        requires
            p < self.input.len(),
            ahead1 != 0,
            ahead2 != 0,
        ensures
            (r.0@, r.1 as int - p) == two_ahead(
                byte_at(self.input@, p + 1),
                ahead1,
                long1@,
                ahead2,
                long2@,
                short@,
            ),
    {
        let ch = self.read_char(p + 1);
        if ch == ahead1 {
            (long1, p + 2)
        } else if ch == ahead2 {
            (long2, p + 2)
        } else {
            (short, p + 1)
        }
    }

    /// The value of the digits from `from` up to `to`, unless it is above the
    /// largest 64-bit signed integer.
    fn read_digits(&self, from: usize, to: usize) -> (r: Option<u64>)
        requires
            from <= to <= self.input.len(),
            forall|i: int| from <= i < to ==> is_digit(#[trigger] self.input@[i]),
        ensures
            match r {
                Some(v) => v == digits_value(self.input@, from as int, to as int) && v <= i64::MAX,
                None => digits_value(self.input@, from as int, to as int) > i64::MAX,
            },
    {
        let mut n: u64 = 0;
        let mut i = from;
        while i < to
            invariant
                from <= i <= to <= self.input.len(),
                forall|j: int| from <= j < to ==> is_digit(#[trigger] self.input@[j]),
                n == digits_value(self.input@, from as int, i as int),
                n <= i64::MAX,
            decreases to - i,
        {
            let d: u64 = (self.input[i] - '0' as u8) as u64;
            assert(is_digit(self.input@[i as int]));
            assert(digits_value(self.input@, from as int, i + 1) == n * 10 + d);
            if n > (0x7fff_ffff_ffff_ffffu64 - d) / 10 {
                proof {
                    lemma_digits_value_monotone(self.input@, from as int, i + 1, to as int);
                }
                return None;
            }
            n = n * 10 + d;
            i = i + 1;
        }
        Some(n)
    }

    /// The number whose first digit is at `p`.
    fn read_number(&self, p: usize) -> (r: Result<(Token, usize), LexError>)
        requires
            p < self.input.len(),
            is_digit(self.input@[p as int]),
        ensures
            match r {
                Ok((t, end)) => number_at(self.input@, p as int) == Ok::<_, LexError>(
                    (t@, end as int),
                ),
                Err(e) => number_at(self.input@, p as int) == Err::<(TokenView, int), _>(e),
            },
    {
        if self.input[p] == '0' as u8 {
            let second = self.read_char(p + 1);
            if second == 'x' as u8 || second == 'X' as u8 {
                return Err(LexError::UnsupportedHex);
            }
        }
        let e = self.run(p, Class::Digit);
        proof {
            lemma_run_end_class(self.input@, p as int, Class::Digit);
        }
        let n = match self.read_digits(p, e) {
            Some(n) => n,
            None => {
                return Err(LexError::NumberTooLarge);
            },
        };
        let follow = self.read_char(e);
        if follow == '.' as u8 {
            self.read_number_fraction(n, e + 1)
        } else if follow == 'e' as u8 || follow == 'E' as u8 {
            Err(LexError::UnsupportedExponent)
        } else if is_alphabetic_byte(follow) {
            Err(LexError::MalformedNumber)
        } else {
            Ok((Token::Integer(n as i64), e))
        }
    }

    /// The number with the integer part `whole` whose fraction digits start
    /// at `from`.
    fn read_number_fraction(&self, whole: u64, from: usize) -> (r: Result<(Token, usize), LexError>)
        requires
            from <= self.input.len(),
        ensures
            match r {
                Ok((t, end)) => fraction_at(self.input@, whole as nat, from as int) == Ok::<
                    _,
                    LexError,
                >((t@, end as int)),
                Err(e) => fraction_at(self.input@, whole as nat, from as int) == Err::<
                    (TokenView, int),
                    _,
                >(e),
            },
    {
        let e = self.run(from, Class::Digit);
        proof {
            lemma_run_end_class(self.input@, from as int, Class::Digit);
        }
        match self.read_digits(from, e) {
            Some(n) => Ok((Token::Float(Decimal::new(whole, n, e - from)), e)),
            None => Err(LexError::NumberTooLarge),
        }
    }

    /// The string whose opening quote is at `p`.
    fn read_string(&self, p: usize) -> (r: Result<(Token, usize), LexError>)
        requires
            p < self.input.len(),
            is_quote(self.input@[p as int]),
        ensures
            match r {
                Ok((t, end)) => string_at(self.input@, p as int) == Ok::<_, LexError>(
                    (t@, end as int),
                ),
                Err(e) => string_at(self.input@, p as int) == Err::<(TokenView, int), _>(e),
            },
    {
        let quote = self.input[p];
        let e = self.run(p + 1, Class::StringBody(quote));
        let stop = self.read_char(e);
        if stop == quote {
            proof {
                lemma_run_end_class(self.input@, p + 1, Class::StringBody(quote));
            }
            Ok((Token::String(self.text(p + 1, e)), e + 1))
        } else if stop == '\\' as u8 {
            Err(LexError::UnsupportedEscape)
        } else {
            Err(LexError::UnfinishedString)
        }
    }

    /// The name or keyword that starts at `p`.
    fn read_name(&self, p: usize) -> (r: (Token, usize))
        requires
            p < self.input.len(),
        ensures
            name_at(self.input@, p as int) == Ok::<_, LexError>((r.0@, r.1 as int)),
    {
        let e = self.run(p, Class::NamePart);
        let s = self.text(p, e);
        match keyword(s.as_str()) {
            Some(t) => (t, e),
            None => (Token::Name(s), e),
        }
    }

    /// The characters of the bytes from `from` up to `to`.
    fn text(&self, from: usize, to: usize) -> (s: String)
        requires
            from <= to <= self.input.len(),
        ensures
            s@ == latin1_text(self.input@.subrange(from as int, to as int)),
    {
        let mut s = String::new();
        let mut i = from;
        while i < to
            invariant
                from <= i <= to <= self.input.len(),
                s@ == latin1_text(self.input@.subrange(from as int, i as int)),
            decreases to - i,
        {
            s.push(byte_char(self.input[i]));
            i = i + 1;
            assert(latin1_text(self.input@.subrange(from as int, i as int)) =~= latin1_text(
                self.input@.subrange(from as int, i - 1),
            ).push(crate::text::latin1(self.input@[i - 1])));
        }
        s
    }
}

} // verus!
