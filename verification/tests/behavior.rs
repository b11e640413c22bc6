use parser_combinators::{alternatively, char_predicate, number, repeat, sequence, string, Parser, Token};

#[test]
fn test_alternation_first_wins() {
    // The first child decides even though the second could also match.
    assert_eq!(
        alternatively::<fn(char) -> bool>(vec![string("a"), string("ab")]).parse("ab!"),
        Ok((Token::String(String::from("a")), "b!"))
    );
    // The branch result is handed through unwrapped.
    assert_eq!(
        alternatively::<fn(char) -> bool>(vec![string("ab"), string("a")]).parse("ab!"),
        Ok((Token::String(String::from("ab")), "!"))
    );
}

#[test]
fn test_alternation_fresh_cursor() {
    // A later child sees the original cursor, not an earlier child's leftovers.
    assert_eq!(
        alternatively::<fn(char) -> bool>(vec![string("xy"), string("ab")]).parse("abc"),
        Ok((Token::String(String::from("ab")), "c"))
    );
}

#[test]
fn test_alternation_all_fail() {
    assert_eq!(
        alternatively::<fn(char) -> bool>(vec![string("x"), string("y")]).parse("abc"),
        Err("abc")
    );
    assert_eq!(
        alternatively::<fn(char) -> bool>(vec![]).parse("abc"),
        Err("abc")
    );
}

#[test]
fn test_number_negative() {
    assert_eq!(
        number::<fn(char) -> bool>().parse("-5x"),
        Ok((Token::Number(-5), "x"))
    );
    assert_eq!(number::<fn(char) -> bool>().parse("-"), Err("-"));
    assert_eq!(number::<fn(char) -> bool>().parse("-x"), Err("-x"));
}

#[test]
fn test_number_limits() {
    assert_eq!(
        number::<fn(char) -> bool>().parse("9223372036854775807"),
        Ok((Token::Number(i64::MAX), ""))
    );
    assert_eq!(
        number::<fn(char) -> bool>().parse("9223372036854775808"),
        Err("9223372036854775808")
    );
    assert_eq!(
        number::<fn(char) -> bool>().parse("-9223372036854775808"),
        Ok((Token::Number(i64::MIN), ""))
    );
    assert_eq!(
        number::<fn(char) -> bool>().parse("-9223372036854775809"),
        Err("-9223372036854775809")
    );
}

#[test]
fn test_number_leading_zeros() {
    assert_eq!(
        number::<fn(char) -> bool>().parse("007x"),
        Ok((Token::Number(7), "x"))
    );
    assert_eq!(
        number::<fn(char) -> bool>().parse("000000000000000000000000001"),
        Ok((Token::Number(1), ""))
    );
}

#[test]
fn test_predicate_rejection() {
    assert_eq!(char_predicate(|c: char| c.is_whitespace()).parse("hi"), Err("hi"));
    assert_eq!(char_predicate(|_c: char| true).parse(""), Err(""));
}

#[test]
fn test_repeat_zero_minimum() {
    // A minimum of zero makes the combinator optional: it succeeds even
    // when the child never matches.
    assert_eq!(
        repeat::<fn(char) -> bool>(string("x"), 0).parse("yyy"),
        Ok((Token::Repeat(vec![]), "yyy"))
    );
}

#[test]
fn test_repeat_zero_width_child() {
    // A success that consumes nothing ends the greedy run, so an empty
    // literal under a repetition collects nothing instead of looping.
    assert_eq!(
        repeat::<fn(char) -> bool>(string(""), 0).parse("abc"),
        Ok((Token::Repeat(vec![]), "abc"))
    );
    assert_eq!(
        repeat::<fn(char) -> bool>(string(""), 3).parse("abc"),
        Err("abc")
    );
}

#[test]
fn test_failed_attempt_rerun() {
    // Re-running a combinator on the cursor a failed attempt handed
    // back repeats the original attempt.
    let p = string::<fn(char) -> bool>("ab");
    let first = p.parse("xy");
    assert_eq!(first, Err("xy"));
    let returned = match first {
        Err(cursor) => cursor,
        Ok(_) => unreachable!(),
    };
    assert_eq!(p.parse(returned), Err("xy"));
}

#[test]
fn test_nested_grammar() {
    let inner = sequence::<fn(char) -> bool>(vec![number(), string(" ")]);
    let grammar = sequence::<fn(char) -> bool>(vec![repeat(inner, 2), string("end")]);
    assert_eq!(
        grammar.parse("1 2 3 end."),
        Ok((
            Token::Sequence(vec![
                Token::Repeat(vec![
                    Token::Sequence(vec![Token::Number(1), Token::String(String::from(" "))]),
                    Token::Sequence(vec![Token::Number(2), Token::String(String::from(" "))]),
                    Token::Sequence(vec![Token::Number(3), Token::String(String::from(" "))]),
                ]),
                Token::String(String::from("end")),
            ]),
            "."
        ))
    );
}

#[test]
fn test_unicode_cursor() {
    // Cursors advance by characters, not bytes.
    assert_eq!(
        char_predicate(|c: char| c.is_alphabetic()).parse("λx"),
        Ok((Token::Predicate('λ'), "x"))
    );
    assert_eq!(
        string::<fn(char) -> bool>("héllo").parse("héllo!"),
        Ok((Token::String(String::from("héllo")), "!"))
    );
}
