use mecha::ast::{ColumnAttribute, Index, RefOperator, Span};
use mecha::lexer::{tokenize, Token};
use mecha::parser::{parse, Expected};

#[test]
fn parser_test_simple_table() {
    let schema: &str = r"
        table foo {
            id: string
        }
    ";
    match parse("main.mecha", schema) {
        Ok(schema) => assert!(schema.tables.len() > 0),
        Err(_) => panic!("test failed"),
    }
}

#[test]
fn parser_test_abstract_table() {
    let schema: &str = r"
        abstract table foo {
            id: string
        }
    ";
    match parse("main.mecha", schema) {
        Ok(schema) => assert!(schema.tables.len() > 0),
        Err(_) => panic!("test failed"),
    }
}

#[test]
fn parser_test_abstract_table_extends() {
    let schema: &str = r"
        abstract table foo extends bar {
            id: string
        }
    ";
    match parse("main.mecha", schema) {
        Ok(schema) => assert!(schema.tables.len() > 0),
        Err(_) => panic!("test failed"),
    }
}

#[test]
fn test_multiple_table() {
    let schema: &str = r"
        abstract table bar {
            created_at: timestamp,
            updated_at: timestamp
        }

        table foo extends bar {
            id: string primary
        }
    ";
    match parse("main.mecha", schema) {
        Ok(schema) => assert!(schema.tables.len() > 0),
        Err(_) => panic!("test failed"),
    }
}

#[test]
fn test_invalid_table_should_false() {
    let schema: &str = r"
        abstract table foo extends bar {
            created_at timestamp,
            updated_at: timestamp
        }
    ";
    match parse("main.mecha", schema) {
        Ok(schema) => assert!(schema.tables.len() > 0),
        Err(errs) => {
            assert_eq!(errs.len(), 1);
            assert_eq!(errs[0].expected, Expected::Colon);
            let at = schema.find("timestamp").unwrap();
            assert_eq!(errs[0].span, Span { start: at, end: at + 9 });
            assert_eq!(errs[0].found, Some(Token::Id("timestamp".to_string())));
        }
    }
}

#[test]
fn main_test_simple_table() {
    let schema: &str = r"
        table foo {
            id: string
        }
    ";
    let s = parse("main.mecha", schema).unwrap();
    assert_eq!(s.tables.len(), 1);
    assert_eq!(s.tables[0].id.name, "foo");
    assert!(!s.tables[0].is_abstract);
}

#[test]
fn main_test_abstract_table() {
    let schema: &str = r"
        abstract table foo {
            id: string
        }
    ";
    let s = parse("main.mecha", schema).unwrap();
    assert!(s.tables[0].is_abstract);
}

#[test]
fn main_test_abstract_table_extends() {
    let program: &str = r"
        abstract table foo extends bar {
            id: string
        }
    ";
    let s = parse("main.mecha", program).unwrap();
    assert_eq!(s.tables[0].extended_by.as_ref().unwrap().name, "bar");
}

// Lexer

#[test]
fn keywords_punctuation_and_operators() {
    let toks: Vec<Token> = tokenize("abstract table extends primary unique ref indexes { } ( ) . , : => == <>")
        .into_iter()
        .map(|(t, _)| t)
        .collect();
    assert_eq!(
        toks,
        vec![
            Token::Abstract,
            Token::Table,
            Token::Extends,
            Token::Primary,
            Token::Unique,
            Token::Ref,
            Token::Indexes,
            Token::LeftBrace,
            Token::RightBrace,
            Token::LeftParen,
            Token::RightParen,
            Token::Dot,
            Token::Comma,
            Token::Colon,
            Token::RefOneToMany,
            Token::RefOneToOne,
            Token::RefManyToMany,
        ]
    );
}

#[test]
fn identifiers_are_read_whole_with_spans() {
    let toks = tokenize("  tables\tfoo_1\n");
    assert_eq!(toks.len(), 2);
    assert_eq!(toks[0].0, Token::Id("tables".to_string()));
    assert_eq!(toks[0].1, Span { start: 2, end: 8 });
    assert_eq!(toks[1].0, Token::Id("foo_1".to_string()));
    assert_eq!(toks[1].1, Span { start: 9, end: 14 });
}

#[test]
fn unmatched_input_becomes_error_tokens() {
    let toks = tokenize("a # 1b = é");
    let kinds: Vec<Token> = toks.iter().map(|(t, _)| t.clone()).collect();
    assert_eq!(
        kinds,
        vec![
            Token::Id("a".to_string()),
            Token::Error,
            Token::Error,
            Token::Id("b".to_string()),
            Token::Error,
            Token::Error,
        ]
    );
    // a multi-byte character is one error token over all its bytes
    assert_eq!(toks[5].1, Span { start: 9, end: 11 });
    assert!(tokenize("").is_empty());
    assert!(tokenize(" \t\n\x0c").is_empty());
}

#[test]
fn token_descriptions() {
    assert_eq!(Token::Id("foo".to_string()).describe(), "Id<foo>");
    assert_eq!(Token::LeftBrace.describe(), "{");
    assert_eq!(Token::RefOneToMany.describe(), "=>");
    assert_eq!(Token::Error.describe(), "<error>");
}

// Parser

#[test]
fn full_table_structure_and_spans() {
    let src = "abstract table t extends p { id: uuid primary (ref <> o.c), n: s unique indexes { n, (id, n) } }";
    let s = parse("x.mecha", src).unwrap();
    assert_eq!(s.name, "x.mecha");
    assert_eq!(s.span, Span { start: 0, end: src.len() });
    let t = &s.tables[0];
    assert!(t.is_abstract);
    assert_eq!(t.id.name, "t");
    assert_eq!(t.id.span, Span { start: 15, end: 16 });
    assert_eq!(t.span, Span { start: 0, end: src.len() });
    assert_eq!(t.columns.len(), 2);
    let c0 = &t.columns[0];
    assert_eq!(c0.id.name, "id");
    assert_eq!(c0.typ.name, "uuid");
    assert_eq!(c0.attribute, Some(ColumnAttribute::Primary));
    let r = c0.reference.as_ref().unwrap();
    assert_eq!(r.operator, RefOperator::ManyToMany);
    assert_eq!(r.table.name, "o");
    assert_eq!(r.column.name, "c");
    let rs = src.find("(ref").unwrap();
    assert_eq!(r.span, Span { start: rs, end: src.find(')').unwrap() + 1 });
    assert_eq!(c0.span, Span { start: src.find("id:").unwrap(), end: r.span.end });
    assert_eq!(t.columns[1].attribute, Some(ColumnAttribute::Unique));
    let ix = t.indexes.as_ref().unwrap();
    assert_eq!(ix.len(), 2);
    match &ix[0] {
        Index::Single(id, sp) => {
            assert_eq!(id.name, "n");
            assert_eq!(*sp, id.span);
        }
        _ => panic!("expected a single index"),
    }
    match &ix[1] {
        Index::Composite(ids, _) => {
            assert_eq!(ids.iter().map(|i| i.name.as_str()).collect::<Vec<_>>(), vec!["id", "n"]);
        }
        _ => panic!("expected a composite index"),
    }
}

#[test]
fn reference_operators() {
    for (op, want) in [("=>", RefOperator::OneToMany), ("==", RefOperator::OneToOne), ("<>", RefOperator::ManyToMany)] {
        let src = format!("table a {{ b: c (ref {} d.e) }}", op);
        let s = parse("m", &src).unwrap();
        assert_eq!(s.tables[0].columns[0].reference.as_ref().unwrap().operator, want);
    }
}

#[test]
fn empty_input_is_a_syntax_error() {
    let errs = parse("m", "   ").unwrap_err();
    assert_eq!(errs.len(), 1);
    assert_eq!(errs[0].expected, Expected::Table);
    assert_eq!(errs[0].found, None);
    assert_eq!(errs[0].span, Span { start: 3, end: 3 });
}

#[test]
fn trailing_input_is_a_syntax_error() {
    let errs = parse("m", "table a { b: c } }").unwrap_err();
    assert_eq!(errs[0].expected, Expected::Table);
    assert_eq!(errs[0].found, Some(Token::RightBrace));
    assert_eq!(errs[0].span, Span { start: 17, end: 18 });
}

#[test]
fn premature_end_is_a_syntax_error() {
    let errs = parse("m", "table a { b: c").unwrap_err();
    assert_eq!(errs[0].expected, Expected::RightBrace);
    assert_eq!(errs[0].found, None);
    assert_eq!(errs[0].span, Span { start: 14, end: 14 });
}

#[test]
fn composite_index_needs_two_columns() {
    let errs = parse("m", "table a { b: c indexes { (b) } }").unwrap_err();
    assert_eq!(errs[0].expected, Expected::Comma);
    assert_eq!(errs[0].found, Some(Token::RightParen));
}

#[test]
fn lexer_error_token_fails_the_parse() {
    let errs = parse("m", "table a { b: c# }").unwrap_err();
    assert_eq!(errs[0].found, Some(Token::Error));
    assert_eq!(errs[0].span, Span { start: 14, end: 15 });
}

#[test]
fn bad_reference_operator() {
    let errs = parse("m", "table a { b: c (ref . d.e) }").unwrap_err();
    assert_eq!(errs[0].expected, Expected::RefOperator);
    assert_eq!(errs[0].found, Some(Token::Dot));
}

#[test]
fn syntax_error_messages() {
    let errs = parse("m", "table a { b c }").unwrap_err();
    assert_eq!(errs[0].message(), "found Id<c> expected ':'");
    let errs = parse("m", "table a { b: c").unwrap_err();
    assert_eq!(errs[0].message(), "found end of input expected '}'");
    assert_eq!(Expected::RefOperator.describe(), "ref operators given '=>, ==, <>'");
}

#[test]
fn index_section_after_the_closing_brace() {
    let src = "table foo { id: uuid, name: string } indexes { id, (id, name) }";
    let s = parse("m", src).unwrap();
    assert_eq!(s.tables.len(), 1);
    let ix = s.tables[0].indexes.as_ref().unwrap();
    assert_eq!(ix.len(), 2);
    match &ix[0] {
        Index::Single(id, _) => assert_eq!(id.name, "id"),
        _ => panic!("expected a single index"),
    }
    match &ix[1] {
        Index::Composite(ids, _) => {
            assert_eq!(ids.iter().map(|i| i.name.as_str()).collect::<Vec<_>>(), vec!["id", "name"]);
        }
        _ => panic!("expected a composite index"),
    }
    // the table's span covers the section
    assert_eq!(s.tables[0].span, Span { start: 0, end: src.len() });
    // a following table still parses
    let two = parse("m", "table a { x: t } indexes { x } table b { y: t }").unwrap();
    assert_eq!(two.tables.len(), 2);
    assert!(two.tables[0].indexes.is_some());
    assert!(two.tables[1].indexes.is_none());
}

#[test]
fn index_section_only_once_per_table() {
    let errs = parse("m", "table a { x: t indexes { x } } indexes { x }").unwrap_err();
    assert_eq!(errs[0].expected, Expected::Table);
    assert_eq!(errs[0].found, Some(Token::Indexes));
}
