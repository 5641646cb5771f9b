use nonlang::error::NonError;
use nonlang::lexer::Token;
use nonlang::nds::NonDefs;
use nonlang::non::Non;
use nonlang::parser::{Field, FieldValue};

fn lit(s: &str) -> FieldValue {
    FieldValue::Literal(s.to_string())
}

fn own(name: &str) -> FieldValue {
    FieldValue::SelfFieldRef(name.to_string())
}

fn cross(record: &str, name: &str) -> FieldValue {
    FieldValue::CrossFieldRef(record.to_string(), name.to_string())
}

fn field(name: &str, value: FieldValue) -> Field {
    Field { name: name.to_string(), value }
}

fn record(id: &str, parents: &[&str], fields: Vec<Field>) -> Non {
    Non::new(
        id.to_string(),
        parents.iter().map(|p| p.to_string()).collect(),
        fields,
    )
}

const SAMPLE: &str = "alice:\n.name 'Alice'\n.login @\n.mail .login '@' univ.domain\nbob: alice\n.name 'Bob'\nuniv:\n.domain 'example.edu'\n";

#[test]
fn sample_file_parses_and_resolves() {
    let defs = NonDefs::from_str(SAMPLE).unwrap();
    assert_eq!(
        defs.resolve("alice"),
        Ok(record(
            "alice",
            &[],
            vec![
                field("name", lit("Alice")),
                field("login", lit("alice")),
                field("mail", lit("alice@example.edu")),
            ]
        ))
    );
    assert_eq!(
        defs.resolve("bob"),
        Ok(record(
            "bob",
            &[],
            vec![
                field("name", lit("Bob")),
                field("login", lit("bob")),
                field("mail", lit("bob@example.edu")),
            ]
        ))
    );
    assert_eq!(
        defs.resolve("univ"),
        Ok(record("univ", &[], vec![field("domain", lit("example.edu"))]))
    );
}

#[test]
fn literal_record_resolves_to_itself() {
    let plain = record(
        "plain",
        &[],
        vec![field("a", lit("1")), field("b", lit("two words")), field("c", lit("@"))],
    );
    let defs = NonDefs::new(vec![plain.clone()]);
    assert_eq!(defs.resolve("plain"), Ok(plain));
}

#[test]
fn later_field_of_one_name_wins_within_a_record() {
    let defs = NonDefs::new(vec![record(
        "r",
        &[],
        vec![field("x", lit("first")), field("y", lit("y")), field("x", lit("last"))],
    )]);
    assert_eq!(
        defs.resolve("r"),
        Ok(record("r", &[], vec![field("x", lit("last")), field("y", lit("y"))]))
    );
}

#[test]
fn child_overrides_the_field_of_its_parent() {
    let defs = NonDefs::new(vec![
        record("p", &[], vec![field("x", lit("parent")), field("y", own("x"))]),
        record("c", &["p"], vec![field("x", lit("child"))]),
    ]);
    let c = defs.resolve("c").unwrap();
    assert_eq!(
        c,
        record("c", &[], vec![field("x", lit("child")), field("y", lit("child"))])
    );
    let p = defs.resolve("p").unwrap();
    assert_eq!(
        p,
        record("p", &[], vec![field("x", lit("parent")), field("y", lit("parent"))])
    );
}

#[test]
fn later_parent_overrides_earlier_parent() {
    let defs = NonDefs::new(vec![
        record("a", &[], vec![field("x", lit("a")), field("only_a", lit("1"))]),
        record("b", &[], vec![field("x", lit("b")), field("only_b", lit("2"))]),
        record("c", &["a", "b"], vec![]),
        record("d", &["b", "a"], vec![]),
    ]);
    assert_eq!(
        defs.resolve("c"),
        Ok(record(
            "c",
            &[],
            vec![field("x", lit("b")), field("only_a", lit("1")), field("only_b", lit("2"))]
        ))
    );
    assert_eq!(
        defs.resolve("d"),
        Ok(record(
            "d",
            &[],
            vec![field("x", lit("a")), field("only_b", lit("2")), field("only_a", lit("1"))]
        ))
    );
}

#[test]
fn self_id_is_the_id_of_the_resolved_record_at_any_depth() {
    let defs = NonDefs::new(vec![
        record("root", &[], vec![field("me", FieldValue::SelfId)]),
        record("mid", &["root"], vec![]),
        record("leaf", &["mid"], vec![]),
    ]);
    assert_eq!(defs.resolve("root"), Ok(record("root", &[], vec![field("me", lit("root"))])));
    assert_eq!(defs.resolve("mid"), Ok(record("mid", &[], vec![field("me", lit("mid"))])));
    assert_eq!(defs.resolve("leaf"), Ok(record("leaf", &[], vec![field("me", lit("leaf"))])));
}

#[test]
fn concatenation_keeps_order_and_adds_nothing() {
    let defs = NonDefs::new(vec![record(
        "r",
        &[],
        vec![field("ab", FieldValue::Concat(vec![lit("a"), lit("b")]))],
    )]);
    let r = defs.at("r").unwrap();
    assert_eq!(r.get(&defs, "ab"), Ok("ab".to_string()));
    assert_eq!(
        r.resolve_field(&defs, &FieldValue::Concat(vec![lit("a"), lit("b")])),
        Ok("ab".to_string())
    );
    assert_eq!(
        r.resolve_field(
            &defs,
            &FieldValue::Concat(vec![
                lit("x"),
                FieldValue::Concat(vec![FieldValue::SelfId, lit(" ")]),
                own("ab"),
            ])
        ),
        Ok("xr ab".to_string())
    );
    assert_eq!(r.resolve_field(&defs, &FieldValue::Concat(vec![])), Ok(String::new()));
}

#[test]
fn field_cycle_is_rejected() {
    let defs = NonDefs::new(vec![record(
        "a",
        &[],
        vec![field("field1", own("field2")), field("field2", own("field1"))],
    )]);
    assert_eq!(defs.validate(), Ok(()));
    let res = defs.resolve("a");
    assert!(matches!(res, Err(NonError::CyclicFieldReference(_, _))));
    assert_eq!(
        res,
        Err(NonError::CyclicFieldReference("a".to_string(), "field1".to_string()))
    );
    let a = defs.at("a").unwrap();
    assert_eq!(
        a.get(&defs, "field2"),
        Err(NonError::CyclicFieldReference("a".to_string(), "field2".to_string()))
    );
}

#[test]
fn field_that_refers_to_itself() {
    let defs = NonDefs::new(vec![record("a", &[], vec![field("x", own("x"))])]);
    assert_eq!(
        defs.resolve("a"),
        Err(NonError::CyclicFieldReference("a".to_string(), "x".to_string()))
    );
}

#[test]
fn field_cycle_through_another_record() {
    let defs = NonDefs::new(vec![
        record("a", &[], vec![field("x", cross("b", "y"))]),
        record("b", &[], vec![field("y", cross("a", "x"))]),
    ]);
    assert_eq!(
        defs.resolve("a"),
        Err(NonError::CyclicFieldReference("a".to_string(), "x".to_string()))
    );
    assert_eq!(
        defs.resolve("b"),
        Err(NonError::CyclicFieldReference("b".to_string(), "y".to_string()))
    );
}

#[test]
fn same_field_used_twice_is_no_cycle() {
    let defs = NonDefs::new(vec![record(
        "a",
        &[],
        vec![
            field("x", lit("v")),
            field("twice", FieldValue::Concat(vec![own("x"), own("x")])),
            field("again", FieldValue::Concat(vec![own("twice"), own("x")])),
        ],
    )]);
    assert_eq!(
        defs.resolve("a"),
        Ok(record(
            "a",
            &[],
            vec![field("x", lit("v")), field("twice", lit("vv")), field("again", lit("vvv"))]
        ))
    );
}

#[test]
fn cross_reference_reads_the_referenced_record() {
    let defs = NonDefs::new(vec![
        record("univ", &[], vec![field("domain", lit("example.edu")), field("login", lit("u"))]),
        record(
            "alice",
            &[],
            vec![
                field("login", lit("alice")),
                field("domain", lit("wrong")),
                field(
                    "mail",
                    FieldValue::Concat(vec![own("login"), lit("@"), cross("univ", "domain")]),
                ),
                field("other", cross("univ", "login")),
            ],
        ),
    ]);
    let alice = defs.at("alice").unwrap();
    assert_eq!(alice.get(&defs, "mail"), Ok("alice@example.edu".to_string()));
    assert_eq!(alice.get(&defs, "other"), Ok("u".to_string()));
}

#[test]
fn cross_reference_sees_the_inheritance_and_the_id_of_the_other_record() {
    let defs = NonDefs::new(vec![
        record("base", &[], vec![field("who", FieldValue::SelfId), field("kind", own("who"))]),
        record("other", &["base"], vec![]),
        record("me", &[], vec![field("x", cross("other", "kind"))]),
    ]);
    assert_eq!(defs.resolve("me"), Ok(record("me", &[], vec![field("x", lit("other"))])));
}

#[test]
fn reference_to_a_field_that_is_not_there() {
    let defs = NonDefs::new(vec![
        record("a", &[], vec![field("x", own("missing"))]),
        record("b", &[], vec![field("y", cross("a", "nothing"))]),
    ]);
    assert_eq!(defs.resolve("a"), Err(NonError::UndefinedField("missing".to_string())));
    assert_eq!(defs.resolve("b"), Err(NonError::UndefinedField("nothing".to_string())));
    let a = defs.at("a").unwrap();
    assert_eq!(a.get(&defs, "absent"), Err(NonError::UndefinedField("absent".to_string())));
}

#[test]
fn reference_to_a_record_that_is_not_there() {
    let defs = NonDefs::new(vec![record("a", &[], vec![field("x", cross("ghost", "y"))])]);
    assert_eq!(defs.resolve("a"), Err(NonError::UndefinedRecord("ghost".to_string())));
    assert_eq!(defs.resolve("nobody"), Err(NonError::UndefinedRecord("nobody".to_string())));
}

#[test]
fn first_failing_field_gives_the_error() {
    let defs = NonDefs::new(vec![record(
        "a",
        &[],
        vec![
            field("ok", lit("fine")),
            field("one", own("nowhere")),
            field("two", cross("ghost", "y")),
        ],
    )]);
    assert_eq!(defs.resolve("a"), Err(NonError::UndefinedField("nowhere".to_string())));
    let a = defs.at("a").unwrap();
    assert_eq!(a.get(&defs, "ok"), Ok("fine".to_string()));
    assert_eq!(a.get(&defs, "two"), Err(NonError::UndefinedRecord("ghost".to_string())));
}

#[test]
fn one_failing_record_leaves_the_others_resolvable() {
    let defs = NonDefs::new(vec![
        record("bad", &[], vec![field("x", own("x"))]),
        record("good", &[], vec![field("x", lit("v"))]),
    ]);
    assert!(defs.resolve("bad").is_err());
    assert_eq!(defs.resolve("good"), Ok(record("good", &[], vec![field("x", lit("v"))])));
}

#[test]
fn resolve_of_a_table_that_was_not_validated() {
    let defs = NonDefs::new(vec![
        record("a", &["b"], vec![field("x", lit("1"))]),
        record("b", &["a"], vec![]),
        record("c", &["ghost"], vec![]),
    ]);
    assert_eq!(defs.resolve("a"), Err(NonError::CyclicDependency("a".to_string())));
    assert_eq!(defs.resolve("b"), Err(NonError::CyclicDependency("b".to_string())));
    assert_eq!(defs.resolve("c"), Err(NonError::UndefinedRecord("ghost".to_string())));
}

#[test]
fn resolve_non_flattens_without_evaluating() {
    let defs = NonDefs::new(vec![
        record("p", &[], vec![field("x", lit("parent")), field("id", FieldValue::SelfId)]),
        record("c", &["p"], vec![field("y", own("x")), field("x", lit("child"))]),
    ]);
    let c = defs.at("c").unwrap();
    assert_eq!(
        defs.resolve_non(c),
        Ok(record(
            "c",
            &[],
            vec![
                field("x", lit("child")),
                field("id", FieldValue::SelfId),
                field("y", own("x")),
            ]
        ))
    );
    let stranger = record("s", &["p", "ghost"], vec![]);
    assert_eq!(
        defs.resolve_non(&stranger),
        Err(NonError::UndefinedRecord("ghost".to_string()))
    );
}

#[test]
fn resolve_field_evaluates_on_the_record_of_the_same_id() {
    let defs = NonDefs::new(vec![
        record("p", &[], vec![field("x", lit("inherited"))]),
        record("c", &["p"], vec![]),
    ]);
    let c = defs.at("c").unwrap();
    assert_eq!(c.resolve_field(&defs, &lit("plain")), Ok("plain".to_string()));
    assert_eq!(c.resolve_field(&defs, &FieldValue::SelfId), Ok("c".to_string()));
    assert_eq!(c.resolve_field(&defs, &own("x")), Ok("inherited".to_string()));
    assert_eq!(c.resolve_field(&defs, &cross("p", "x")), Ok("inherited".to_string()));
    let stranger = record("s", &[], vec![field("x", lit("own"))]);
    assert_eq!(stranger.resolve_field(&defs, &FieldValue::SelfId), Ok("s".to_string()));
    assert_eq!(
        stranger.resolve_field(&defs, &own("x")),
        Err(NonError::UndefinedRecord("s".to_string()))
    );
}

#[test]
fn record_builders() {
    let mut non = Non::from_id("a".to_string());
    assert_eq!(non, record("a", &[], vec![]));
    assert_eq!(non.id(), "a");
    non.add_field("x".to_string(), lit("1"));
    non.add_field("x".to_string(), lit("2"));
    assert_eq!(non, record("a", &[], vec![field("x", lit("1")), field("x", lit("2"))]));
    let other = record("b", &["p"], vec![field("y", lit("3")), field("x", lit("4"))]);
    non.merge_fields(&other);
    assert_eq!(
        non,
        record(
            "a",
            &[],
            vec![field("x", lit("1")), field("x", lit("4")), field("y", lit("3"))]
        )
    );
    assert_ne!(non, other);
    assert_eq!(other.clone(), other);
}

#[test]
fn union_joins_two_records() {
    let defs = NonDefs::new(vec![
        record("p", &[], vec![field("shared", lit("s"))]),
        record("q", &[], vec![]),
        record("a", &["p", "q"], vec![field("x", lit("1"))]),
        record("b", &["q", "p"], vec![field("y", lit("2")), field("x", lit("1"))]),
    ]);
    let a = defs.at("a").unwrap();
    let b = defs.at("b").unwrap();
    assert_eq!(
        a.union(&defs, b),
        Ok(record(
            "a_b",
            &["p", "q"],
            vec![field("shared", lit("s")), field("x", lit("1")), field("y", lit("2"))]
        ))
    );
}

#[test]
fn union_fails_on_a_field_with_two_values() {
    let defs = NonDefs::new(vec![
        record("a", &[], vec![field("ok", lit("same")), field("x", lit("1"))]),
        record("b", &[], vec![field("x", lit("2")), field("ok", lit("same"))]),
    ]);
    let a = defs.at("a").unwrap();
    let b = defs.at("b").unwrap();
    assert_eq!(
        a.union(&defs, b),
        Err("Duplicated field 'x' without same value.".to_string())
    );
}

#[test]
fn union_fails_where_a_record_does_not_flatten() {
    let defs = NonDefs::new(vec![record("a", &[], vec![])]);
    let a = defs.at("a").unwrap();
    let lost = record("lost", &["ghost"], vec![]);
    assert_eq!(a.union(&defs, &lost), Err("Undefined non: ghost".to_string()));
    assert_eq!(lost.union(&defs, a), Err("Undefined non: ghost".to_string()));
}

#[test]
fn error_messages() {
    assert_eq!(NonError::TokenizeFailed.to_string(), "Tokenize error");
    assert_eq!(
        NonError::UnexpectedToken(Token::Identifier("x".to_string())).to_string(),
        "Unexpected token: Identifier x"
    );
    assert_eq!(NonError::UnexpectedToken(Token::Colon).to_string(), "Unexpected token: Colon");
    assert_eq!(NonError::UnexpectedEof.to_string(), "Unexpected EOF");
    assert_eq!(
        NonError::UnexpectedIdentifier("login".to_string()).to_string(),
        "Unexpected identifier: login"
    );
    assert_eq!(NonError::EmptyFieldValue.to_string(), "Empty field value");
    assert_eq!(
        NonError::CyclicDependency("a".to_string()).to_string(),
        "Cyclic dependency found: a"
    );
    assert_eq!(NonError::UndefinedRecord("b".to_string()).to_string(), "Undefined non: b");
    assert_eq!(NonError::UndefinedField("f".to_string()).to_string(), "Undefined field: f");
    assert_eq!(
        NonError::CyclicFieldReference("a".to_string(), "f".to_string()).to_string(),
        "Cyclic field reference: a.f"
    );
    let e = NonError::UndefinedField("f".to_string());
    assert_eq!(e.clone(), e);
    assert_ne!(e, NonError::UndefinedRecord("f".to_string()));
}
