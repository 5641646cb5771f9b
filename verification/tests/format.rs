use nonlang::args::{Args, OutputFormat};
use nonlang::error::NonError;
use nonlang::nds::NonDefs;
use nonlang::non::Non;
use nonlang::parser::{Field, FieldValue};

fn lit(s: &str) -> FieldValue {
    FieldValue::Literal(s.to_string())
}

fn own(name: &str) -> FieldValue {
    FieldValue::SelfFieldRef(name.to_string())
}

fn cross(record: &str, name: &str) -> FieldValue {
    FieldValue::CrossFieldRef(record.to_string(), name.to_string())
}

fn field(name: &str, value: FieldValue) -> Field {
    Field { name: name.to_string(), value }
}

fn record(id: &str, parents: &[&str], fields: Vec<Field>) -> Non {
    Non::new(
        id.to_string(),
        parents.iter().map(|p| p.to_string()).collect(),
        fields,
    )
}

fn sample() -> NonDefs {
    NonDefs::new(vec![
        record(
            "alice",
            &[],
            vec![
                field("name", lit("Alice")),
                field("login", FieldValue::SelfId),
                field(
                    "mail",
                    FieldValue::Concat(vec![own("login"), lit("@"), cross("univ", "domain")]),
                ),
            ],
        ),
        record("bob", &["alice", "univ"], vec![field("name", lit("Bob"))]),
        record("univ", &[], vec![field("domain", lit("example.edu"))]),
    ])
}

#[test]
fn expression_as_it_is_shown() {
    assert_eq!(lit("Alice").to_string(), "Alice");
    assert_eq!(FieldValue::SelfId.to_string(), "@");
    assert_eq!(own("login").to_string(), ".login");
    assert_eq!(cross("univ", "domain").to_string(), "univ.domain");
    assert_eq!(
        FieldValue::Concat(vec![own("login"), lit("@"), cross("univ", "domain")]).to_string(),
        ".login @ univ.domain"
    );
    assert_eq!(FieldValue::Concat(vec![]).to_string(), "");
    assert_eq!(FieldValue::Concat(vec![lit("one")]).to_string(), "one");
}

#[test]
fn expression_as_source() {
    assert_eq!(lit("Alice").to_source(), "'Alice'");
    assert_eq!(FieldValue::SelfId.to_source(), "@");
    assert_eq!(own("login").to_source(), ".login");
    assert_eq!(cross("univ", "domain").to_source(), "univ.domain");
    assert_eq!(
        FieldValue::Concat(vec![own("login"), lit("@"), cross("univ", "domain")]).to_source(),
        ".login '@' univ.domain"
    );
}

#[test]
fn record_in_the_language() {
    let defs = sample();
    assert_eq!(
        defs.at("alice").unwrap().serialize_non(&defs, false),
        Ok("alice:\n.name 'Alice'\n.login @\n.mail .login '@' univ.domain\n".to_string())
    );
    assert_eq!(
        defs.at("bob").unwrap().serialize_non(&defs, false),
        Ok("bob: alice univ\n.name 'Bob'\n".to_string())
    );
    assert_eq!(
        defs.at("bob").unwrap().serialize_non(&defs, true),
        Ok("bob:\n.name 'Bob'\n.login 'bob'\n.mail 'bob@example.edu'\n.domain 'example.edu'\n"
            .to_string())
    );
    assert_eq!(record("e", &[], vec![]).serialize_non(&defs, false), Ok("e:\n".to_string()));
}

#[test]
fn record_as_json() {
    let defs = sample();
    assert_eq!(
        defs.at("alice").unwrap().serialize_json(&defs, false),
        Ok("{\n\t\"id\": \"alice\",\n\t\"fields\":\n\t{\n\t\t\"name\": \"Alice\",\n\t\t\"login\": \"@\",\n\t\t\"mail\": \".login @ univ.domain\"\n\t}\n}".to_string())
    );
    assert_eq!(
        defs.at("bob").unwrap().serialize_json(&defs, false),
        Ok("{\n\t\"id\": \"bob\",\n\t\"parents\": [\n\t\t\"alice\",\n\t\t\"univ\"\n\t],\n\t\"fields\":\n\t{\n\t\t\"name\": \"Bob\"\n\t}\n}".to_string())
    );
    assert_eq!(
        defs.at("univ").unwrap().serialize_json(&defs, true),
        Ok("{\n\t\"id\": \"univ\",\n\t\"fields\":\n\t{\n\t\t\"domain\": \"example.edu\"\n\t}\n}"
            .to_string())
    );
    assert_eq!(
        record("e", &[], vec![]).serialize_json(&defs, false),
        Ok("{\n\t\"id\": \"e\"\n}".to_string())
    );
    assert_eq!(
        record("e", &["p"], vec![]).serialize_json(&defs, false),
        Ok("{\n\t\"id\": \"e\",\n\t\"parents\": [\n\t\t\"p\"\n\t]\n}".to_string())
    );
}

#[test]
fn record_as_yaml() {
    let defs = sample();
    assert_eq!(
        defs.at("alice").unwrap().serialize_yaml(&defs, false),
        Ok("alice:\n\tname: Alice\n\tlogin: @\n\tmail: .login @ univ.domain\n".to_string())
    );
    assert_eq!(
        defs.at("bob").unwrap().serialize_yaml(&defs, false),
        Ok("bob:\n\tparents:\n\t  - alice\n\t  - univ\n\tname: Bob\n".to_string())
    );
    assert_eq!(
        defs.at("alice").unwrap().serialize_yaml(&defs, true),
        Ok("alice:\n\tname: Alice\n\tlogin: alice\n\tmail: alice@example.edu\n".to_string())
    );
    assert_eq!(record("e", &[], vec![]).serialize_yaml(&defs, false), Ok("e:\n".to_string()));
    assert_eq!(
        record("e", &["p"], vec![]).serialize_yaml(&defs, false),
        Ok("e:\n\tparents:\n\t  - p\n".to_string())
    );
}

#[test]
fn flat_output_needs_a_record_that_resolves() {
    let defs = NonDefs::new(vec![record("a", &[], vec![field("x", own("y"))])]);
    let a = defs.at("a").unwrap();
    assert_eq!(a.serialize_non(&defs, false), Ok("a:\n.x .y\n".to_string()));
    assert_eq!(a.serialize_non(&defs, true), Err(NonError::UndefinedField("y".to_string())));
    assert_eq!(a.serialize_json(&defs, true), Err(NonError::UndefinedField("y".to_string())));
    assert_eq!(a.serialize_yaml(&defs, true), Err(NonError::UndefinedField("y".to_string())));
    assert_eq!(
        defs.serialize(OutputFormat::Json, true),
        Err(NonError::UndefinedField("y".to_string()))
    );
    assert_eq!(
        record("stranger", &[], vec![]).shown(&defs, true),
        Err(NonError::UndefinedRecord("stranger".to_string()))
    );
    assert_eq!(record("stranger", &[], vec![]).shown(&defs, false), Ok(record("stranger", &[], vec![])));
}

#[test]
fn table_in_the_language() {
    let defs = sample();
    assert_eq!(
        defs.serialize(OutputFormat::Non, false),
        Ok("alice:\n.name 'Alice'\n.login @\n.mail .login '@' univ.domain\n\nbob: alice univ\n.name 'Bob'\n\nuniv:\n.domain 'example.edu'\n".to_string())
    );
    assert_eq!(NonDefs::new(vec![]).serialize(OutputFormat::Non, false), Ok(String::new()));
}

#[test]
fn table_as_json_and_yaml() {
    let defs = NonDefs::new(vec![record("a", &[], vec![]), record("b", &["a"], vec![])]);
    assert_eq!(
        defs.serialize(OutputFormat::Json, false),
        Ok("[\n{\n\t\"id\": \"a\"\n},\n{\n\t\"id\": \"b\",\n\t\"parents\": [\n\t\t\"a\"\n\t]\n}\n]".to_string())
    );
    assert_eq!(
        defs.serialize(OutputFormat::Json, true),
        Ok("[\n{\n\t\"id\": \"a\"\n},\n{\n\t\"id\": \"b\"\n}\n]".to_string())
    );
    assert_eq!(
        defs.serialize(OutputFormat::Yaml, false),
        Ok("a:\n\nb:\n\tparents:\n\t  - a\n".to_string())
    );
    assert_eq!(NonDefs::new(vec![]).serialize(OutputFormat::Json, false), Ok("[\n\n]".to_string()));
}

#[test]
fn text_of_a_table_parses_back_to_the_table() {
    let defs = sample();
    let text = defs.serialize(OutputFormat::Non, false).unwrap();
    let again = NonDefs::from_str(&text).unwrap();
    assert_eq!(again.len(), defs.len());
    for i in 0..defs.len() {
        assert_eq!(again.get(i), defs.get(i));
    }
    assert_eq!(again.serialize(OutputFormat::Non, false), Ok(text));
}

#[test]
fn format_names_and_options() {
    assert_eq!(OutputFormat::Json.to_string(), "json");
    assert_eq!(OutputFormat::Yaml.to_string(), "yaml");
    assert_eq!(OutputFormat::Non.to_string(), "non");
    assert_eq!(OutputFormat::default(), OutputFormat::Non);
    let args = Args {
        path: "in.non".to_string(),
        format: OutputFormat::default(),
        output: None,
        flat: false,
    };
    assert_eq!(args.format, OutputFormat::Non);
    assert_eq!(args.path, "in.non");
    assert_eq!(args.output, None);
    assert!(!args.flat);
}
