use parser_combinators::{char_predicate, number, repeat, sequence, string, Parser, Token};

#[test]
fn test_str1() {
    assert_eq!(
        string::<fn(char) -> bool>("test").parse("test 1"),
        Ok((Token::String(String::from("test")), " 1"))
    );
    assert_eq!(
        string::<fn(char) -> bool>("").parse("test 1"),
        Ok((Token::String(String::from("")), "test 1"))
    );
    assert_eq!(string::<fn(char) -> bool>("test 1").parse(""), Err(""));
    assert_eq!(
        string::<fn(char) -> bool>("test").parse("not test"),
        Err("not test")
    );
}

#[test]
fn test_seq1() {
    assert_eq!(
        sequence::<fn(char) -> bool>(vec![string("hello"), string(" "), string("how")])
            .parse("hello how are you"),
        Ok((
            Token::Sequence(vec![
                Token::String(String::from("hello")),
                Token::String(String::from(" ")),
                Token::String(String::from("how")),
            ]),
            " are you"
        ))
    );
    assert_eq!(
        sequence::<fn(char) -> bool>(vec![string("not"), string(" "), string("how")])
            .parse("hello how are you"),
        Err("hello how are you")
    );
}

#[test]
fn test_repeat1() {
    assert_eq!(
        repeat::<fn(char) -> bool>(string("hello "), 4).parse("hello hello hello hello how are you"),
        Ok((
            Token::Repeat(vec![
                Token::String(String::from("hello ")),
                Token::String(String::from("hello ")),
                Token::String(String::from("hello ")),
                Token::String(String::from("hello ")),
            ]),
            "how are you"
        ))
    );
    assert_eq!(
        repeat::<fn(char) -> bool>(string("hello "), 4).parse("hello hello hello how are you"),
        Err("hello hello hello how are you")
    );
}

#[test]
fn test_number1() {
    assert_eq!(
        number::<fn(char) -> bool>().parse("234hello"),
        Ok((Token::Number(234), "hello"))
    );
    assert_eq!(
        number::<fn(char) -> bool>().parse("j234hello"),
        Err("j234hello")
    );
}

#[test]
fn test_predicate() {
    assert_eq!(
        char_predicate(|c: char| c.is_whitespace()).parse("  hello"),
        Ok((Token::Predicate(' '), " hello"))
    );
    assert_eq!(
        repeat(char_predicate(|c: char| c.is_whitespace()), 1).parse("   hello"),
        Ok((
            Token::Repeat(vec![
                Token::Predicate(' '),
                Token::Predicate(' '),
                Token::Predicate(' ')
            ]),
            "hello"
        ))
    );
}

#[test]
fn test_mixed() {
    assert_eq!(
        sequence::<fn(char) -> bool>(vec![string("Game "), number()]).parse("Game 34"),
        Ok((
            Token::Sequence(vec![
                Token::String(String::from("Game ")),
                Token::Number(34)
            ]),
            ""
        ))
    );
}
