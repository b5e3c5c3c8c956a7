use rgrep::regex_engine::ast::{Ast, ClassItem, RepetitionKind};
use rgrep::regex_engine::error::{ParseError, ParseErrorKind};
use rgrep::regex_engine::parser::Parser;


fn parse(input: &str) -> Result<Ast, ParseError> {
    Parser::new(input).parse()
}

fn lit(c: char) -> Ast {
    Ast::Literal(c)
}

fn concat(items: Vec<Ast>) -> Ast {
    Ast::Concat(items)
}

fn alt(items: Vec<Ast>) -> Ast {
    Ast::Alternation(items)
}

#[test]
fn parses_single_literal() {
    assert_eq!(parse("a"), Ok(concat(vec![lit('a')])));
}

#[test]
fn parses_concat_of_literals() {
    assert_eq!(parse("ab"), Ok(concat(vec![lit('a'), lit('b')])));
}

#[test]
fn parses_empty_pattern_as_empty_concat() {
    assert_eq!(parse(""), Ok(concat(vec![])));
}

#[test]
fn parses_alternation() {
    assert_eq!(
        parse("a|b"),
        Ok(alt(vec![concat(vec![lit('a')]), concat(vec![lit('b')])]))
    );
}

#[test]
fn parses_alternation_with_more_than_two_branches() {
    assert_eq!(
        parse("a|b|c"),
        Ok(alt(vec![
            concat(vec![lit('a')]),
            concat(vec![lit('b')]),
            concat(vec![lit('c')]),
        ]))
    );
}

#[test]
fn parses_dot() {
    assert_eq!(parse("."), Ok(concat(vec![Ast::Dot])));
}

#[test]
fn parses_anchors() {
    assert_eq!(
        parse("^a$"),
        Ok(concat(vec![Ast::StartAnchor, lit('a'), Ast::EndAnchor]))
    );
}

#[test]
fn parses_repetition_operators() {
    for (op, kind) in [
        ("a*", RepetitionKind::ZeroOrMore),
        ("a+", RepetitionKind::OneOrMore),
        ("a?", RepetitionKind::ZeroOrOne),
    ] {
        assert_eq!(
            parse(op),
            Ok(concat(vec![Ast::Repetition {
                kind,
                inner: Box::new(lit('a')),
            }])),
            "parsing {op:?}"
        );
    }
}

#[test]
fn repetition_only_binds_to_the_immediately_preceding_atom() {
    assert_eq!(
        parse("ab*"),
        Ok(concat(vec![
            lit('a'),
            Ast::Repetition {
                kind: RepetitionKind::ZeroOrMore,
                inner: Box::new(lit('b')),
            }
        ]))
    );
}

#[test]
fn parses_group() {
    assert_eq!(
        parse("(a)"),
        Ok(concat(vec![Ast::Group(Box::new(concat(vec![lit('a')])))]))
    );
}

#[test]
fn parses_group_with_alternation_followed_by_more_input() {
    assert_eq!(
        parse("(a|b)c"),
        Ok(concat(vec![
            Ast::Group(Box::new(alt(vec![
                concat(vec![lit('a')]),
                concat(vec![lit('b')]),
            ]))),
            lit('c'),
        ]))
    );
}

#[test]
fn parses_escaped_metacharacter_as_literal() {
    assert_eq!(parse(r"\."), Ok(concat(vec![lit('.')])));
}

#[test]
fn parses_char_class_of_literals() {
    assert_eq!(
        parse("[abc]"),
        Ok(concat(vec![Ast::CharClass {
            negative: false,
            items: vec![
                ClassItem::Char('a'),
                ClassItem::Char('b'),
                ClassItem::Char('c'),
            ],
        }]))
    );
}

#[test]
fn parses_char_class_range() {
    assert_eq!(
        parse("[a-z]"),
        Ok(concat(vec![Ast::CharClass {
            negative: false,
            items: vec![ClassItem::Range('a', 'z')],
        }]))
    );
}

#[test]
fn parses_negated_char_class() {
    assert_eq!(
        parse("[^a-z]"),
        Ok(concat(vec![Ast::CharClass {
            negative: true,
            items: vec![ClassItem::Range('a', 'z')],
        }]))
    );
}

#[test]
fn parses_escaped_bracket_inside_char_class() {
    assert_eq!(
        parse(r"[\]]"),
        Ok(concat(vec![Ast::CharClass {
            negative: false,
            items: vec![ClassItem::Char(']')],
        }]))
    );
}

#[test]
fn dash_at_start_of_char_class_is_literal() {
    assert_eq!(
        parse("[-a]"),
        Ok(concat(vec![Ast::CharClass {
            negative: false,
            items: vec![ClassItem::Char('-'), ClassItem::Char('a')],
        }]))
    );
}

#[test]
fn dash_at_end_of_char_class_is_literal() {
    assert_eq!(
        parse("[a-]"),
        Ok(concat(vec![Ast::CharClass {
            negative: false,
            items: vec![ClassItem::Char('a'), ClassItem::Char('-')],
        }]))
    );
}

#[test]
fn lone_dash_char_class_is_literal() {
    assert_eq!(
        parse("[-]"),
        Ok(concat(vec![Ast::CharClass {
            negative: false,
            items: vec![ClassItem::Char('-')],
        }]))
    );
}

#[test]
fn range_followed_by_trailing_literal_dash() {
    assert_eq!(
        parse("[a-z-]"),
        Ok(concat(vec![Ast::CharClass {
            negative: false,
            items: vec![ClassItem::Range('a', 'z'), ClassItem::Char('-')],
        }]))
    );
}

#[test]
fn empty_char_class_is_an_error() {
    assert_eq!(
        parse("[]"),
        Err(ParseError {
            kind: ParseErrorKind::EmptyCharClass,
            pos: 1,
        })
    );
}

#[test]
fn empty_negated_char_class_is_an_error() {
    assert_eq!(
        parse("[^]"),
        Err(ParseError {
            kind: ParseErrorKind::EmptyCharClass,
            pos: 2,
        })
    );
}

#[test]
fn unclosed_char_class_is_an_error() {
    assert_eq!(
        parse("[a"),
        Err(ParseError {
            kind: ParseErrorKind::UnclosedCharClass,
            pos: 2,
        })
    );
}

#[test]
fn inverted_range_bounds_are_an_error() {
    assert_eq!(
        parse("[z-a]"),
        Err(ParseError {
            kind: ParseErrorKind::InvalidRange {
                start: 'z',
                end: 'a'
            },
            pos: 4,
        })
    );
}

#[test]
fn dangling_repetition_operator_at_start_is_an_error() {
    for op in ["*a", "+a", "?a"] {
        assert_eq!(
            parse(op),
            Err(ParseError {
                kind: ParseErrorKind::DanglingRepetitionOperator,
                pos: 0,
            }),
            "parsing {op:?}"
        );
    }
}

#[test]
fn dangling_repetition_operator_after_alternation_separator_is_an_error() {
    assert_eq!(
        parse("a|*b"),
        Err(ParseError {
            kind: ParseErrorKind::DanglingRepetitionOperator,
            pos: 2,
        })
    );
}

#[test]
fn dangling_repetition_operator_inside_group_is_an_error() {
    assert_eq!(
        parse("(*a)"),
        Err(ParseError {
            kind: ParseErrorKind::DanglingRepetitionOperator,
            pos: 1,
        })
    );
}

#[test]
fn unclosed_group_is_reported_as_unexpected_eof() {
    // Note: ParseErrorKind::UnclosedGroup is currently unreachable.
    // parse_concat only stops at '|', ')' or EOF, and parse_alternation
    // only consumes '|', so by the time the group's closing paren is
    // expected, the only two possible remaining tokens are ')' or EOF.
    // Any other trailing character (e.g. the ']' below) gets consumed
    // as a literal by parse_concat before we ever get here.
    assert_eq!(
        parse("(a"),
        Err(ParseError {
            kind: ParseErrorKind::UnexpectedEof,
            pos: 2,
        })
    );
    assert_eq!(
        parse("(a]"),
        Err(ParseError {
            kind: ParseErrorKind::UnexpectedEof,
            pos: 3,
        })
    );
}

#[test]
fn trailing_backslash_is_an_error() {
    assert_eq!(
        parse("\\"),
        Err(ParseError {
            kind: ParseErrorKind::UnexpectedEof,
            pos: 1,
        })
    );
}
