use nonlang::error::NonError;
use nonlang::lexer::{NonLexer, Token};
use nonlang::nds::NonDefs;
use nonlang::non::Non;
use nonlang::parser::{Field, FieldValue, NonParser};

fn lit(s: &str) -> FieldValue {
    FieldValue::Literal(s.to_string())
}

fn own(name: &str) -> FieldValue {
    FieldValue::SelfFieldRef(name.to_string())
}

fn cross(record: &str, name: &str) -> FieldValue {
    FieldValue::CrossFieldRef(record.to_string(), name.to_string())
}

fn field(name: &str, value: FieldValue) -> Field {
    Field { name: name.to_string(), value }
}

fn record(id: &str, parents: &[&str], fields: Vec<Field>) -> Non {
    Non::new(
        id.to_string(),
        parents.iter().map(|p| p.to_string()).collect(),
        fields,
    )
}

fn parser(source: &str) -> NonParser {
    NonParser::new(NonLexer::new(source))
}

fn parse(source: &str) -> Result<NonDefs, NonError> {
    NonDefs::from_str(source)
}

fn parse_error(source: &str) -> NonError {
    match parse(source) {
        Ok(_) => panic!("the text was accepted"),
        Err(e) => e,
    }
}

#[test]
fn cyclic_definition_is_an_error() {
    let a = "a".to_string();
    let b = "b".to_string();
    let c = "c".to_string();
    let a_def = Non {
        id: a.clone(),
        parents: vec![],
        fields: vec![Field { name: a.clone(), value: FieldValue::Literal(a.clone()) }],
    };
    let b_def = Non {
        id: b.clone(),
        parents: vec![a.clone(), c.clone()],
        fields: vec![Field { name: b.clone(), value: FieldValue::Literal(b.clone()) }],
    };
    let c_def = Non {
        id: c.clone(),
        parents: vec![b.clone()],
        fields: vec![Field { name: c.clone(), value: FieldValue::Literal(c.clone()) }],
    };
    let nons = NonDefs::new(vec![a_def, b_def, c_def]);
    assert_eq!(
        NonParser::detect_cycles(&nons),
        Err(NonError::CyclicDependency("b".to_string()))
    );
}

#[test]
#[should_panic]
fn cyclic_definition() {
    let a = "a".to_string();
    let b = "b".to_string();
    let c = "c".to_string();
    let a_def = Non {
        id: a.clone(),
        parents: vec![],
        fields: vec![Field { name: a.clone(), value: FieldValue::Literal(a.clone()) }],
    };
    let b_def = Non {
        id: b.clone(),
        parents: vec![a.clone(), c.clone()],
        fields: vec![Field { name: b.clone(), value: FieldValue::Literal(b.clone()) }],
    };
    let c_def = Non {
        id: c.clone(),
        parents: vec![b.clone()],
        fields: vec![Field { name: c.clone(), value: FieldValue::Literal(c.clone()) }],
    };
    let nons = NonDefs::new(vec![a_def, b_def, c_def]);

    NonParser::detect_cycles(&nons).unwrap();
}

#[test]
fn field_value_of_one_token() {
    assert_eq!(parser("'x'\n").parse_field_value(), Ok(lit("x")));
    assert_eq!(parser("@\n").parse_field_value(), Ok(FieldValue::SelfId));
    assert_eq!(parser(".login\n").parse_field_value(), Ok(own("login")));
    assert_eq!(parser("univ.domain\n").parse_field_value(), Ok(cross("univ", "domain")));
}

#[test]
fn field_value_of_several_tokens_is_a_concatenation() {
    assert_eq!(
        parser(".login '@' univ.domain @\n").parse_field_value(),
        Ok(FieldValue::Concat(vec![
            own("login"),
            lit("@"),
            cross("univ", "domain"),
            FieldValue::SelfId,
        ]))
    );
}

#[test]
fn field_value_needs_no_spaces() {
    assert_eq!(
        parser("a.b.c'd'@\n").parse_field_value(),
        Ok(FieldValue::Concat(vec![
            cross("a", "b"),
            own("c"),
            lit("d"),
            FieldValue::SelfId,
        ]))
    );
}

#[test]
fn field_value_ends_with_the_text() {
    assert_eq!(parser("'x'").parse_field_value(), Ok(lit("x")));
}

#[test]
fn field_value_without_a_value() {
    assert_eq!(parser("\n").parse_field_value(), Err(NonError::EmptyFieldValue));
    assert_eq!(parser("").parse_field_value(), Err(NonError::EmptyFieldValue));
}

#[test]
fn bare_identifier_is_no_value() {
    assert_eq!(
        parser("login '@'\n").parse_field_value(),
        Err(NonError::UnexpectedIdentifier("login".to_string()))
    );
    assert_eq!(
        parser("'a' login\n").parse_field_value(),
        Err(NonError::UnexpectedIdentifier("login".to_string()))
    );
    assert_eq!(
        parser("login").parse_field_value(),
        Err(NonError::UnexpectedIdentifier("login".to_string()))
    );
}

#[test]
fn colon_is_no_value() {
    assert_eq!(
        parser("'a' : 'b'\n").parse_field_value(),
        Err(NonError::UnexpectedToken(Token::Colon))
    );
}

#[test]
fn reference_needs_a_name_behind_the_dot() {
    assert_eq!(
        parser(". 'a'\n").parse_field_value(),
        Err(NonError::UnexpectedToken(Token::Litteral("a".to_string())))
    );
    assert_eq!(
        parser("univ.\n").parse_field_value(),
        Err(NonError::UnexpectedToken(Token::Newline))
    );
    assert_eq!(parser("univ.").parse_field_value(), Err(NonError::UnexpectedEof));
    assert_eq!(parser(".").parse_field_value(), Err(NonError::UnexpectedEof));
}

#[test]
fn a_fault_of_the_lexer_ends_the_value() {
    assert_eq!(parser("'a' #\n").parse_field_value(), Err(NonError::TokenizeFailed));
    assert_eq!(parser("univ#").parse_field_value(), Err(NonError::TokenizeFailed));
    assert_eq!(parser("univ.#").parse_field_value(), Err(NonError::TokenizeFailed));
}

#[test]
fn parents_are_read_up_to_the_end_of_the_line() {
    assert_eq!(
        parser(" a b  c\n.x 'y'\n").parse_parents(),
        Ok(vec!["a".to_string(), "b".to_string(), "c".to_string()])
    );
    assert_eq!(parser("\n").parse_parents(), Ok(Vec::<String>::new()));
    assert_eq!(parser("").parse_parents(), Ok(Vec::<String>::new()));
}

#[test]
fn parents_are_identifiers_only() {
    assert_eq!(
        parser("a 'b'\n").parse_parents(),
        Err(NonError::UnexpectedToken(Token::Litteral("b".to_string())))
    );
    assert_eq!(
        parser("a.b\n").parse_parents(),
        Err(NonError::UnexpectedToken(Token::Dot))
    );
}

#[test]
fn field_is_a_dot_a_name_and_a_value() {
    assert_eq!(parser(".name 'Alice'\n").parse_field(), Ok(field("name", lit("Alice"))));
    assert_eq!(
        parser("name 'Alice'\n").parse_field(),
        Err(NonError::UnexpectedToken(Token::Identifier("name".to_string())))
    );
    assert_eq!(
        parser(".'Alice'\n").parse_field(),
        Err(NonError::UnexpectedToken(Token::Litteral("Alice".to_string())))
    );
    assert_eq!(parser(".name\n").parse_field(), Err(NonError::EmptyFieldValue));
    assert_eq!(parser("").parse_field(), Err(NonError::UnexpectedEof));
}

#[test]
fn fields_are_read_while_lines_start_with_a_dot() {
    assert_eq!(
        parser(".a 'x'\n.b @\nnext:\n").parse_fields(),
        Ok(vec![field("a", lit("x")), field("b", FieldValue::SelfId)])
    );
    assert_eq!(parser("next:\n").parse_fields(), Ok(Vec::<Field>::new()));
    assert_eq!(parser(".a 'x'").parse_fields(), Err(NonError::UnexpectedEof));
}

#[test]
fn record_is_a_header_and_its_fields() {
    assert_eq!(
        parser("\n\nbob: alice carol\n.name 'Bob'\n.name 'Bobby'\n").parse_non(),
        Ok(record(
            "bob",
            &["alice", "carol"],
            vec![field("name", lit("Bob")), field("name", lit("Bobby"))]
        ))
    );
}

#[test]
fn record_header_faults() {
    assert_eq!(
        parser(": a\n").parse_non(),
        Err(NonError::UnexpectedToken(Token::Colon))
    );
    assert_eq!(
        parser("a b\n").parse_non(),
        Err(NonError::UnexpectedToken(Token::Identifier("b".to_string())))
    );
    assert_eq!(parser("a").parse_non(), Err(NonError::UnexpectedEof));
    assert_eq!(parser("a:").parse_non(), Err(NonError::UnexpectedEof));
    assert_eq!(parser("a: b").parse_non(), Err(NonError::UnexpectedEof));
    assert_eq!(parser("\n\n").parse_non(), Err(NonError::UnexpectedEof));
    assert_eq!(
        parser("a: b @\n").parse_non(),
        Err(NonError::UnexpectedToken(Token::At))
    );
}

#[test]
fn file_of_nothing_is_an_empty_table() {
    assert_eq!(parse("").unwrap().len(), 0);
    assert_eq!(parse("\n\n\n").unwrap().len(), 0);
}

#[test]
fn file_keeps_the_order_of_declaration() {
    let defs = parse("\nb:\n\na: b\n.x 'y'\nc: a b\n").unwrap();
    assert_eq!(defs.len(), 3);
    assert_eq!(defs.get(0), &record("b", &[], vec![]));
    assert_eq!(defs.get(1), &record("a", &["b"], vec![field("x", lit("y"))]));
    assert_eq!(defs.get(2), &record("c", &["a", "b"], vec![]));
    assert_eq!(defs.at("a"), Some(&record("a", &["b"], vec![field("x", lit("y"))])));
    assert_eq!(defs.at("z"), None);
}

#[test]
fn later_declaration_replaces_the_record_as_a_whole() {
    let defs = parse("p:\na: p\n.x 'old'\n.y 'gone'\nb:\na:\n.x 'new'\n").unwrap();
    assert_eq!(defs.len(), 3);
    assert_eq!(defs.get(1), &record("a", &[], vec![field("x", lit("new"))]));
    assert_eq!(defs.get(2), &record("b", &[], vec![]));
}

#[test]
fn blank_lines_behind_the_last_record_are_a_fault() {
    assert_eq!(parse_error("a:\n\n"), NonError::UnexpectedEof);
}

#[test]
fn fault_of_the_lexer_ends_the_parse() {
    assert_eq!(parse_error("a:\n.x 'y'\n#\n"), NonError::TokenizeFailed);
    assert_eq!(parse_error("a:\n.x ''\n"), NonError::TokenizeFailed);
    assert_eq!(parse_error("?"), NonError::TokenizeFailed);
}

#[test]
fn fault_of_the_text_comes_before_a_fault_of_the_parents() {
    assert_eq!(parse_error("a: a\n.x\n"), NonError::EmptyFieldValue);
}

#[test]
fn parse_rejects_parent_cycles() {
    assert_eq!(
        parse_error("a: b\nb: a\n"),
        NonError::CyclicDependency("a".to_string())
    );
}

#[test]
fn parse_rejects_undefined_parents() {
    assert_eq!(
        parse_error("a: ghost\n"),
        NonError::UndefinedRecord("ghost".to_string())
    );
}

#[test]
fn parse_can_start_in_the_middle() {
    let mut p = parser("a:\nb:\n");
    assert_eq!(p.parse_non(), Ok(record("a", &[], vec![])));
    let defs = p.parse().unwrap();
    assert_eq!(defs.len(), 1);
    assert_eq!(defs.get(0), &record("b", &[], vec![]));
}

#[test]
fn field_value_equality_is_structural() {
    let a = FieldValue::Concat(vec![lit("a"), own("b")]);
    assert_eq!(a.clone(), a);
    assert_ne!(a, FieldValue::Concat(vec![lit("a")]));
    assert_ne!(a, FieldValue::Concat(vec![lit("a"), own("c")]));
    assert_ne!(lit("@"), FieldValue::SelfId);
    assert_ne!(own("a"), cross("a", "a"));
    assert_eq!(field("x", a.clone()).clone(), field("x", a.clone()));
    assert_ne!(field("x", a.clone()), field("y", a));
}
