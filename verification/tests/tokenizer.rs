use testlang::ops::Op;
use testlang::tokenizer::{parse_word_to_op, tokenize};

#[test]
fn keyword_table() {
    assert_eq!(parse_word_to_op("+"), Op::Add);
    assert_eq!(parse_word_to_op("-"), Op::Sub);
    assert_eq!(parse_word_to_op("*"), Op::Mul);
    assert_eq!(parse_word_to_op("/"), Op::Div);
    assert_eq!(parse_word_to_op("="), Op::Equal);
    assert_eq!(parse_word_to_op("."), Op::Print);
    assert_eq!(parse_word_to_op("if"), Op::If);
    assert_eq!(parse_word_to_op("else"), Op::Else);
    assert_eq!(parse_word_to_op("end"), Op::End);
    assert_eq!(parse_word_to_op("nop"), Op::Nop);
}

#[test]
fn unrecognized_word_is_push_verbatim() {
    assert_eq!(parse_word_to_op("42"), Op::Push(String::from("42")));
    assert_eq!(parse_word_to_op("-1"), Op::Push(String::from("-1")));
    assert_eq!(parse_word_to_op("hello"), Op::Push(String::from("hello")));
    // Near-keywords are not keywords: the text is kept exactly.
    assert_eq!(parse_word_to_op("iff"), Op::Push(String::from("iff")));
    assert_eq!(parse_word_to_op("ends"), Op::Push(String::from("ends")));
    assert_eq!(parse_word_to_op("++"), Op::Push(String::from("++")));
    assert_eq!(parse_word_to_op("NOP"), Op::Push(String::from("NOP")));
}

#[test]
fn whitespace_insensitive() {
    let expected = vec![
        Op::Push(String::from("1")),
        Op::Push(String::from("2")),
        Op::Add,
    ];
    assert_eq!(tokenize("1 2 +"), expected);
    assert_eq!(tokenize("1\n2\n+"), expected);
    assert_eq!(tokenize("1  2   +"), expected);
    assert_eq!(tokenize("\t1\t2\r\n+ "), expected);
    assert_eq!(tokenize("  1 2 +\n\n"), expected);
}

#[test]
fn empty_source_is_empty_sequence() {
    assert_eq!(tokenize(""), Vec::<Op>::new());
    assert_eq!(tokenize("   "), Vec::<Op>::new());
    assert_eq!(tokenize(" \n\t\r\n  "), Vec::<Op>::new());
}

#[test]
fn single_word_source() {
    assert_eq!(tokenize("nop"), vec![Op::Nop]);
    assert_eq!(tokenize("x"), vec![Op::Push(String::from("x"))]);
}

#[test]
fn tokenize_add_print_scenario() {
    assert_eq!(
        tokenize("34 35 + ."),
        vec![
            Op::Push(String::from("34")),
            Op::Push(String::from("35")),
            Op::Add,
            Op::Print,
        ]
    );
}

#[test]
fn tokenize_equal_print_scenario() {
    assert_eq!(
        tokenize("1 1 = ."),
        vec![
            Op::Push(String::from("1")),
            Op::Push(String::from("1")),
            Op::Equal,
            Op::Print,
        ]
    );
}

#[test]
fn tokenize_conditional_source() {
    assert_eq!(
        tokenize("1 if 2 . else 3 . end"),
        vec![
            Op::Push(String::from("1")),
            Op::If,
            Op::Push(String::from("2")),
            Op::Print,
            Op::Else,
            Op::Push(String::from("3")),
            Op::Print,
            Op::End,
        ]
    );
}
