use bqrs::Matcher;
use bqrs::parser;
use bqrs::parser::{Node, ParsingError, Token};

fn leaf_is(node: &Node, kw: &[u8]) -> bool {
    match node {
        Node::Leaf(bytes, table) => bytes.as_slice() == kw && table.len() == kw.len(),
        _ => false,
    }
}

#[test]
fn repeated_calls_agree() {
    let m = Matcher::from("\"spam\" & !\"ham\"").unwrap();
    let text = "spam spam spam";
    let first = m.query(text);
    for _ in 0..10 {
        assert_eq!(m.query(text), first);
    }
    assert!(first);
}

#[test]
fn case_insensitive_keyword() {
    let m = Matcher::from("\"Foo\"").unwrap();
    assert!(m.query("the FOO is here"));
    let n = Matcher::from("\"BAR\"").unwrap();
    assert!(n.query("crowbar"));
    assert!(!n.query("crow bat"));
}

#[test]
fn and_binds_tighter_than_or() {
    let tree = parser::from("\"a\" | \"b\" & \"c\"").unwrap();
    match tree {
        Node::OR(l, r) => {
            assert!(leaf_is(&l, b"a"));
            match *r {
                Node::AND(rl, rr) => {
                    assert!(leaf_is(&rl, b"b"));
                    assert!(leaf_is(&rr, b"c"));
                }
                _ => panic!("expected AND on the right of the OR"),
            }
        }
        _ => panic!("expected OR at the root"),
    }
}

#[test]
fn grouping_overrides_precedence() {
    let tree = parser::from("(\"a\" | \"b\") & \"c\"").unwrap();
    match tree {
        Node::AND(l, r) => {
            match *l {
                Node::OR(ll, lr) => {
                    assert!(leaf_is(&ll, b"a"));
                    assert!(leaf_is(&lr, b"b"));
                }
                _ => panic!("expected OR on the left of the AND"),
            }
            assert!(leaf_is(&r, b"c"));
        }
        _ => panic!("expected AND at the root"),
    }
}

#[test]
fn not_binds_tighter_than_and() {
    let tree = parser::from("!\"a\" & \"b\"").unwrap();
    match tree {
        Node::AND(l, r) => {
            match *l {
                Node::NOT(inner) => assert!(leaf_is(&inner, b"a")),
                _ => panic!("expected NOT on the left of the AND"),
            }
            assert!(leaf_is(&r, b"b"));
        }
        _ => panic!("expected AND at the root"),
    }
    let m = Matcher::from("!\"a\" & \"b\"").unwrap();
    assert!(m.query("b only"));
    assert!(!m.query("b and a"));
}

#[test]
fn operand_order_does_not_change_the_result() {
    let texts = ["x y", "x", "y", "z", ""];
    let and_lr = Matcher::from("\"x\" & \"y\"").unwrap();
    let and_rl = Matcher::from("\"y\" & \"x\"").unwrap();
    let or_lr = Matcher::from("\"x\" | \"y\"").unwrap();
    let or_rl = Matcher::from("\"y\" | \"x\"").unwrap();
    for t in texts.iter() {
        assert_eq!(and_lr.query(t), and_rl.query(t));
        assert_eq!(or_lr.query(t), or_rl.query(t));
    }
}

#[test]
fn bare_word_is_rejected() {
    assert!(matches!(
        Matcher::from("iphone"),
        Err(ParsingError::UnexpectedLetter)
    ));
}

#[test]
fn unclosed_group_is_rejected() {
    assert!(matches!(
        Matcher::from("(\"a\""),
        Err(ParsingError::UnclosedGroup)
    ));
}

#[test]
fn unterminated_quote_is_rejected() {
    assert!(matches!(
        Matcher::from("\"a"),
        Err(ParsingError::UnterminatedQuote)
    ));
}

#[test]
fn unrecognized_character_is_rejected() {
    assert!(matches!(
        Matcher::from("\"a\" @ \"b\""),
        Err(ParsingError::UnexpectedCharacter)
    ));
}

#[test]
fn bare_operator_is_rejected() {
    assert!(matches!(
        Matcher::from("& \"a\""),
        Err(ParsingError::UnexpectedToken)
    ));
}

#[test]
fn empty_query_is_rejected() {
    assert!(matches!(
        Matcher::from(""),
        Err(ParsingError::UnexpectedEndOfInput)
    ));
    assert!(matches!(
        Matcher::from("!"),
        Err(ParsingError::UnexpectedEndOfInput)
    ));
}

#[test]
fn end_to_end_example() {
    let myquery = Matcher::from("(\"this\" | \"that\") & \"these\" & \"those\"").unwrap();
    assert!(myquery.query("this these those"));
    assert!(myquery.query("that these those"));
    assert!(!myquery.query("this that these"));
}

#[test]
fn empty_keyword_matches_everything() {
    let m = Matcher::from("\"\"").unwrap();
    assert!(m.query("anything at all"));
    assert!(m.query(""));
}

#[test]
fn failure_table_fallback_finds_overlapping_matches() {
    let m = Matcher::from("\"abab\"").unwrap();
    assert!(m.query("ababab"));
    assert!(m.query("xxabaababxx"));
    assert!(!m.query("abaab"));
    let n = Matcher::from("\"aab\"").unwrap();
    assert!(n.query("aaab"));
    assert!(!n.query("abab"));
}

#[test]
fn keywords_keep_inner_quotes_and_blanks() {
    let m = Matcher::from("'he said \"x\"'").unwrap();
    assert!(m.query("so he said \"x\" loudly"));
    assert!(!m.query("he said x"));
    let n = Matcher::from("\"i phone\"").unwrap();
    assert!(n.query("an i phone case"));
    assert!(!n.query("an iphone case"));
}

#[test]
fn non_ascii_keywords_match_bytewise() {
    let m = Matcher::from("\"caf\u{e9}\"").unwrap();
    assert!(m.query("au caf\u{e9} ce soir"));
    assert!(!m.query("au cafe ce soir"));
}

#[test]
fn tokeniser_token_sequence() {
    let mut ts = bqrs::parser::tokenise_query("( \"a\" | !\"b\" ) & \"c\"".to_string()).unwrap();
    assert!(matches!(ts.pop_front(), Some(Token::LParen)));
    match ts.pop_front() {
        Some(Token::Keyword(kw)) => assert_eq!(kw.as_slice(), b"a"),
        _ => panic!("expected a keyword"),
    }
    assert!(matches!(ts.pop_front(), Some(Token::OR)));
    assert!(matches!(ts.pop_front(), Some(Token::NOT)));
    match ts.pop_front() {
        Some(Token::Keyword(kw)) => assert_eq!(kw.as_slice(), b"b"),
        _ => panic!("expected a keyword"),
    }
    assert!(matches!(ts.pop_front(), Some(Token::RParen)));
    assert!(matches!(ts.pop_front(), Some(Token::AND)));
    match ts.pop_front() {
        Some(Token::Keyword(kw)) => assert_eq!(kw.as_slice(), b"c"),
        _ => panic!("expected a keyword"),
    }
    assert!(ts.pop_front().is_none());
}

#[test]
fn not_of_group_and_double_not() {
    let m = Matcher::from("!(\"a\" | \"b\")").unwrap();
    assert!(m.query("xyz"));
    assert!(!m.query("an apple"));
    let n = Matcher::from("!!\"a\"").unwrap();
    assert!(n.query("a"));
    assert!(!n.query("xyz"));
}

#[test]
fn blanks_are_insignificant() {
    let m = Matcher::from("\t\"a\"\n&\r\"b\" ").unwrap();
    assert!(m.query("b then a"));
    assert!(!m.query("only a"));
}

#[test]
fn chained_operators_associate_left() {
    let tree = parser::from("\"a\" & \"b\" & \"c\"").unwrap();
    match tree {
        Node::AND(l, r) => {
            assert!(matches!(*l, Node::AND(_, _)));
            assert!(leaf_is(&r, b"c"));
        }
        _ => panic!("expected AND at the root"),
    }
    let tree = parser::from("\"a\" | \"b\" | \"c\"").unwrap();
    match tree {
        Node::OR(l, r) => {
            assert!(matches!(*l, Node::OR(_, _)));
            assert!(leaf_is(&r, b"c"));
        }
        _ => panic!("expected OR at the root"),
    }
}

#[test]
fn failure_table_values() {
    let needle = b"abab".to_vec();
    let table = bqrs::matcher::kmp_table(&needle);
    assert_eq!(table, vec![-1, -1, 0, 1]);
    let one = b"a".to_vec();
    assert_eq!(bqrs::matcher::kmp_table(&one), vec![-1]);
    let empty: Vec<u8> = Vec::new();
    assert_eq!(bqrs::matcher::kmp_table(&empty), Vec::<i64>::new());
}

#[test]
fn kmp_folds_only_the_haystack() {
    let needle = b"ab".to_vec();
    let table = bqrs::matcher::kmp_table(&needle);
    assert!(bqrs::matcher::kmp(&table, &needle, b"xABy"));
    assert!(!bqrs::matcher::kmp(&table, &needle, b"xAyB"));
}

#[test]
fn trailing_tokens_after_expression_are_ignored() {
    let m = Matcher::from("\"a\" \"b\"").unwrap();
    assert!(m.query("a text"));
    assert!(!m.query("only b"));
}
