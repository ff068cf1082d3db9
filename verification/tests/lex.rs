use luast::lex::Token::{
    And, Break, Do, Else, Elseif, End, False, For, Function, Goto, If, In, Local, Nil, Not,
    Or, Repeat, Return, Then, True, Until, While, Add, Sub, Mul, Div, Mod, Pow, Len, BitAnd,
    BitXor, BitOr, ShiftL, ShiftR, Idiv, Equal, NotEq, LesEq, GreEq, Less, Greater, Assign,
    ParL, ParR, CurlyL, CurlyR, SqurL, SqurR, DoubColon, SemiColon, Colon, Comma, Dot, Concat,
    Dots, Integer, Float, Name, Eos,
};
use luast::lex::{is_alphabetic_byte, is_numeric_byte, Lex, LexError, Token};
use luast::number::Decimal;

fn tokens_of(source: &str) -> Vec<Token> {
    let mut lex = Lex::new(source.as_bytes().to_vec());
    let mut res: Vec<Token> = Vec::new();
    loop {
        let token = lex.next().unwrap();
        if token == Token::Eos {
            break;
        }
        res.push(token);
    }
    res
}

fn fault_of(source: &str) -> LexError {
    let mut lex = Lex::new(source.as_bytes().to_vec());
    loop {
        match lex.next() {
            Ok(Token::Eos) => panic!("no fault in {source:?}"),
            Ok(_) => {}
            Err(e) => return e,
        }
    }
}

fn float_of(token: &Token) -> f64 {
    match token {
        Token::Float(d) => d.whole as f64 + d.frac as f64 / 10f64.powi(d.places as i32),
        other => panic!("not a float: {other:?}"),
    }
}

#[test]
fn simple_print() {
    let res = tokens_of("print \"hello, world!\"\n");
    let ans = vec![
        Token::Name("print".to_string()),
        Token::String("hello, world!".to_string()),
    ];
    assert_eq!(res.len(), ans.len());
    for id in 0..res.len() {
        let token_res = &res[id];
        let token_ans = &ans[id];
        assert_eq!(token_res, token_ans);
    }
}

#[test]
fn tokens_print() {
    let res = tokens_of("print \"hello\"\nprint(123)\nprint(3.14)\nprint(true)\n");
    let ans = vec![
        Token::Name("print".to_string()),
        Token::String("hello".to_string()),
        Token::Name("print".to_string()),
        Token::ParL,
        Token::Integer(123),
        Token::ParR,
        Token::Name("print".to_string()),
        Token::ParL,
        Token::Float(Decimal::new(3, 14, 2)),
        Token::ParR,
        Token::Name("print".to_string()),
        Token::ParL,
        Token::True,
        Token::ParR,
    ];
    assert_eq!(res.len(), ans.len());
    for id in 0..res.len() {
        let token_res = &res[id];
        let token_ans = &ans[id];
        assert_eq!(token_res, token_ans);
    }
    assert_eq!(float_of(&res[8]), 3.14);
}

#[test]
fn all_tokens_print() {
    let ans = vec![
        // keywords
        And, Break, Do, Else, Elseif, End,
        False, For, Function, Goto, If, In,
        Local, Nil, Not, Or, Repeat, Return,
        Then, True, Until, While,
        // +       -       *       /       %       ^       #
        Add, Sub, Mul, Div, Mod, Pow, Len,
        // &       ~       |       <<      >>      //
        BitAnd, BitXor, BitOr, ShiftL, ShiftR, Idiv,
        // ==       ~=     <=      >=      <       >        =
        Equal, NotEq, LesEq, GreEq, Less, Greater, Assign,
        // (       )       {       }       [       ]       ::
        ParL, ParR, CurlyL, CurlyR, SqurL, SqurR, DoubColon,
        // ;               :       ,       .       ..      ...
        SemiColon, Colon, Comma, Dot, Concat, Dots,
        // constant values
        Integer(111),
        Float(Decimal::new(0, 123, 3)),
        Token::String("hello".to_string()),
        // name of variables or table keys
        Name("hello".to_string()),
    ];
    let source = "and break do else elseif end false for function goto if in\n\
        local nil not or repeat return then true until while\n\
        + - * / % ^ #\n\
        & ~ | << >> //\n\
        == ~= <= >= < > =\n\
        ( ) { } [ ] ::\n\
        ; : , . .. ...\n\
        111 0.123 \"hello\" hello\n";
    let res = tokens_of(source);
    assert_eq!(res.len(), ans.len());
    for id in 0..res.len() {
        let token_res = &res[id];
        let token_ans = &ans[id];
        assert_eq!(token_res, token_ans);
    }
    assert_eq!(float_of(&res[56]), 0.123);
}

#[test]
fn reserved_words_are_keywords() {
    let words = [
        ("and", And), ("break", Break), ("do", Do), ("else", Else), ("elseif", Elseif),
        ("end", End), ("false", False), ("for", For), ("function", Function), ("goto", Goto),
        ("if", If), ("in", In), ("local", Local), ("nil", Nil), ("not", Not), ("or", Or),
        ("repeat", Repeat), ("return", Return), ("then", Then), ("true", True),
        ("until", Until), ("while", While),
    ];
    for (word, token) in words {
        assert_eq!(tokens_of(word), vec![token]);
        assert_ne!(tokens_of(word), vec![Name(word.to_string())]);
    }
}

#[test]
fn near_keywords_are_names() {
    for word in ["And", "locals", "loca", "nil_", "_end", "end1", "iff", "LOCAL"] {
        assert_eq!(tokens_of(word), vec![Name(word.to_string())]);
    }
}

#[test]
fn short_operator_leaves_the_next_byte() {
    assert_eq!(tokens_of("<"), vec![Less]);
    assert_eq!(tokens_of("<="), vec![LesEq]);
    assert_eq!(tokens_of("<<"), vec![ShiftL]);
    assert_eq!(tokens_of("<x"), vec![Less, Name("x".to_string())]);
    assert_eq!(tokens_of(">x"), vec![Greater, Name("x".to_string())]);
    assert_eq!(tokens_of("=1"), vec![Assign, Integer(1)]);
    assert_eq!(tokens_of("==="), vec![Equal, Assign]);
    assert_eq!(tokens_of("<<="), vec![ShiftL, Assign]);
    assert_eq!(tokens_of("~~="), vec![BitXor, NotEq]);
    assert_eq!(tokens_of(":::"), vec![DoubColon, Colon]);
    assert_eq!(tokens_of("///"), vec![Idiv, Div]);
    assert_eq!(tokens_of("/x"), vec![Div, Name("x".to_string())]);
}

#[test]
fn dots_are_told_apart() {
    assert_eq!(tokens_of("."), vec![Dot]);
    assert_eq!(tokens_of(".."), vec![Concat]);
    assert_eq!(tokens_of("..."), vec![Dots]);
    assert_eq!(tokens_of("...."), vec![Dots, Dot]);
    assert_eq!(tokens_of(".x"), vec![Dot, Name("x".to_string())]);
    assert_eq!(tokens_of("..x"), vec![Concat, Name("x".to_string())]);
    assert_eq!(tokens_of(".5"), vec![Float(Decimal::new(0, 5, 1))]);
    assert_eq!(tokens_of("..5"), vec![Concat, Integer(5)]);
}

#[test]
fn minus_and_comments() {
    assert_eq!(tokens_of("-"), vec![Sub]);
    assert_eq!(tokens_of("- -"), vec![Sub, Sub]);
    assert_eq!(tokens_of("-1"), vec![Sub, Integer(1)]);
    assert_eq!(tokens_of("a -- b c\nd"), vec![Name("a".to_string()), Name("d".to_string())]);
    assert_eq!(tokens_of("a --"), vec![Name("a".to_string())]);
    assert_eq!(tokens_of("--\nprint"), vec![Name("print".to_string())]);
    assert_eq!(tokens_of("--[ not long\nx"), vec![Name("x".to_string())]);
    assert_eq!(tokens_of("-- one\n-- two\n\t x"), vec![Name("x".to_string())]);
    assert_eq!(tokens_of("---\n1"), vec![Integer(1)]);
}

#[test]
fn white_space_is_skipped() {
    assert_eq!(tokens_of(""), vec![]);
    assert_eq!(tokens_of(" \t\r\n"), vec![]);
    assert_eq!(tokens_of("\n\nlocal\r\n\tx"), vec![Local, Name("x".to_string())]);
}

#[test]
fn numbers() {
    assert_eq!(tokens_of("0"), vec![Integer(0)]);
    assert_eq!(tokens_of("007"), vec![Integer(7)]);
    assert_eq!(tokens_of("9223372036854775807"), vec![Integer(i64::MAX)]);
    assert_eq!(tokens_of("12 34"), vec![Integer(12), Integer(34)]);
    assert_eq!(tokens_of("12)"), vec![Integer(12), ParR]);
    assert_eq!(tokens_of("12_"), vec![Integer(12), Name("_".to_string())]);
    assert_eq!(tokens_of("3.14"), vec![Float(Decimal { whole: 3, frac: 14, places: 2 })]);
    assert_eq!(tokens_of("3.140"), vec![Float(Decimal { whole: 3, frac: 14, places: 2 })]);
    assert_eq!(tokens_of("3."), vec![Float(Decimal { whole: 3, frac: 0, places: 0 })]);
    assert_eq!(tokens_of("3.0"), vec![Float(Decimal { whole: 3, frac: 0, places: 0 })]);
    assert_eq!(tokens_of("0.001"), vec![Float(Decimal { whole: 0, frac: 1, places: 3 })]);
    assert_eq!(
        tokens_of("1.5.25"),
        vec![Float(Decimal::new(1, 5, 1)), Float(Decimal::new(0, 25, 2))]
    );
    assert_eq!(tokens_of("1.5x"), vec![Float(Decimal::new(1, 5, 1)), Name("x".to_string())]);
    assert_eq!(float_of(&tokens_of("123456.0")[0]), 123456.0);
    assert_eq!(float_of(&tokens_of("0.5")[0]), 0.5);
}

#[test]
fn number_faults() {
    assert_eq!(fault_of("12a"), LexError::MalformedNumber);
    assert_eq!(fault_of("0a"), LexError::MalformedNumber);
    assert_eq!(fault_of("1\u{e9}"), LexError::MalformedNumber);
    assert_eq!(fault_of("9223372036854775808"), LexError::NumberTooLarge);
    assert_eq!(fault_of("99999999999999999999999"), LexError::NumberTooLarge);
    assert_eq!(fault_of("99999999999999999999999x"), LexError::NumberTooLarge);
    assert_eq!(fault_of("0.9223372036854775808"), LexError::NumberTooLarge);
    assert_eq!(fault_of("0x10"), LexError::UnsupportedHex);
    assert_eq!(fault_of("0X10"), LexError::UnsupportedHex);
    assert_eq!(fault_of("1e5"), LexError::UnsupportedExponent);
    assert_eq!(fault_of("1E5"), LexError::UnsupportedExponent);
    assert_eq!(tokens_of("1.5e3"), vec![Float(Decimal::new(1, 5, 1)), Name("e3".to_string())]);
}

#[test]
fn strings() {
    assert_eq!(tokens_of("\"\""), vec![Token::String(String::new())]);
    assert_eq!(tokens_of("'it'"), vec![Token::String("it".to_string())]);
    assert_eq!(tokens_of("'say \"hi\"'"), vec![Token::String("say \"hi\"".to_string())]);
    assert_eq!(tokens_of("\"it's\""), vec![Token::String("it's".to_string())]);
    assert_eq!(tokens_of("\"-- no comment\" x").len(), 2);
    assert_eq!(
        tokens_of("'a''b'"),
        vec![Token::String("a".to_string()), Token::String("b".to_string())]
    );
}

#[test]
fn string_faults() {
    assert_eq!(fault_of("\"abc"), LexError::UnfinishedString);
    assert_eq!(fault_of("\"abc\n\""), LexError::UnfinishedString);
    assert_eq!(fault_of("'abc\""), LexError::UnfinishedString);
    assert_eq!(fault_of("\"a\\nb\""), LexError::UnsupportedEscape);
    assert_eq!(fault_of("'"), LexError::UnfinishedString);
}

#[test]
fn invalid_bytes() {
    assert_eq!(fault_of("@"), LexError::InvalidChar(b'@'));
    assert_eq!(fault_of("x = $"), LexError::InvalidChar(b'$'));
    assert_eq!(fault_of("!"), LexError::InvalidChar(b'!'));
    assert_eq!(fault_of("\\"), LexError::InvalidChar(b'\\'));
    assert_eq!(fault_of("`"), LexError::InvalidChar(b'`'));
    let mut lex = Lex::new(vec![0xe9]);
    assert_eq!(lex.next(), Err(LexError::InvalidChar(0xe9)));
}

#[test]
fn a_fault_leaves_the_tokenizer_in_place() {
    let mut lex = Lex::new(b"x @".to_vec());
    assert_eq!(lex.next(), Ok(Name("x".to_string())));
    assert_eq!(lex.peek(), Err(LexError::InvalidChar(b'@')));
    assert_eq!(lex.next(), Err(LexError::InvalidChar(b'@')));
    assert_eq!(lex.next(), Err(LexError::InvalidChar(b'@')));
}

#[test]
fn bytes_stand_for_their_code_points() {
    let mut lex = Lex::new(vec![b'"', 0xe9, 0x80, 0xff, b'"', b' ', b'a', 0xe9, 0xb2, b'_']);
    assert_eq!(lex.next(), Ok(Token::String("\u{e9}\u{80}\u{ff}".to_string())));
    assert_eq!(lex.next(), Ok(Name("a\u{e9}\u{b2}_".to_string())));
    assert_eq!(lex.next(), Ok(Eos));
}

#[test]
fn peek_does_not_take() {
    let mut lex = Lex::new(b"local x = 1".to_vec());
    assert_eq!(lex.peek(), Ok(&Local));
    assert_eq!(lex.peek(), Ok(&Local));
    assert_eq!(lex.next(), Ok(Local));
    assert_eq!(lex.next(), Ok(Name("x".to_string())));
    assert_eq!(lex.peek(), Ok(&Assign));
    assert_eq!(lex.next(), Ok(Assign));
    assert_eq!(lex.peek(), Ok(&Integer(1)));
    assert_eq!(lex.next(), Ok(Integer(1)));
    assert_eq!(lex.peek(), Ok(&Eos));
    assert_eq!(lex.peek(), Ok(&Eos));
    assert_eq!(lex.next(), Ok(Eos));
    assert_eq!(lex.next(), Ok(Eos));
    assert_eq!(lex.peek(), Ok(&Eos));
}

#[test]
fn end_of_source_without_newline() {
    assert_eq!(tokens_of("x"), vec![Name("x".to_string())]);
    assert_eq!(tokens_of("x = 1"), vec![Name("x".to_string()), Assign, Integer(1)]);
    assert_eq!(tokens_of("print(a)"), vec![Name("print".to_string()), ParL, Name("a".to_string()), ParR]);
}

#[test]
fn a_zero_byte_ends_the_stream() {
    let mut lex = Lex::new(b"a\0b".to_vec());
    assert_eq!(lex.next(), Ok(Name("a".to_string())));
    assert_eq!(lex.next(), Ok(Eos));
    assert_eq!(lex.next(), Ok(Name("b".to_string())));
    assert_eq!(lex.next(), Ok(Eos));
    assert_eq!(lex.next(), Ok(Eos));
}

#[test]
fn byte_classes_are_those_of_the_characters() {
    for b in 0..=255u8 {
        let c = b as char;
        assert_eq!(is_alphabetic_byte(b), c.is_alphabetic(), "byte {b}");
        assert_eq!(is_numeric_byte(b), c.is_numeric(), "byte {b}");
    }
}
