use nonlang::error::NonError;
use nonlang::nds::NonDefs;
use nonlang::non::Non;
use nonlang::parser::NonParser;

fn record(id: &str, parents: &[&str]) -> Non {
    Non::new(
        id.to_string(),
        parents.iter().map(|p| p.to_string()).collect(),
        vec![],
    )
}

fn table(records: &[(&str, &[&str])]) -> NonDefs {
    NonDefs::new(records.iter().map(|(id, parents)| record(id, parents)).collect())
}

#[test]
fn empty_table_is_valid() {
    assert_eq!(table(&[]).validate(), Ok(()));
}

#[test]
fn chain_and_diamond_are_valid() {
    assert_eq!(table(&[("a", &["b"]), ("b", &["c"]), ("c", &[])]).validate(), Ok(()));
    assert_eq!(
        table(&[("top", &[]), ("l", &["top"]), ("r", &["top"]), ("d", &["l", "r", "top"])])
            .validate(),
        Ok(())
    );
}

#[test]
fn two_records_that_inherit_from_each_other() {
    let defs = table(&[("a", &["b"]), ("b", &["a"])]);
    assert!(matches!(defs.validate(), Err(NonError::CyclicDependency(_))));
    assert_eq!(defs.validate(), Err(NonError::CyclicDependency("a".to_string())));
}

#[test]
fn record_that_inherits_from_itself() {
    assert_eq!(
        table(&[("a", &["a"])]).validate(),
        Err(NonError::CyclicDependency("a".to_string()))
    );
}

#[test]
fn cycle_is_named_after_the_root_of_the_search() {
    assert_eq!(
        table(&[("start", &["x"]), ("x", &["y"]), ("y", &["z"]), ("z", &["x"])]).validate(),
        Err(NonError::CyclicDependency("start".to_string()))
    );
}

#[test]
fn parent_that_is_not_there() {
    assert_eq!(
        table(&[("a", &["b"]), ("b", &["ghost"])]).validate(),
        Err(NonError::UndefinedRecord("ghost".to_string()))
    );
    assert!(matches!(
        table(&[("a", &["nobody"])]).validate(),
        Err(NonError::UndefinedRecord(_))
    ));
}

#[test]
fn first_fault_in_the_order_of_the_search_wins() {
    assert_eq!(
        table(&[("a", &["a"]), ("b", &["ghost"])]).validate(),
        Err(NonError::CyclicDependency("a".to_string()))
    );
    assert_eq!(
        table(&[("b", &["ghost"]), ("a", &["a"])]).validate(),
        Err(NonError::UndefinedRecord("ghost".to_string()))
    );
    assert_eq!(
        table(&[("a", &["ghost", "a"])]).validate(),
        Err(NonError::UndefinedRecord("ghost".to_string()))
    );
}

#[test]
fn detect_cycles_is_validate() {
    let defs = table(&[("a", &["b"]), ("b", &[])]);
    assert_eq!(NonParser::detect_cycles(&defs), Ok(()));
    let defs = table(&[("a", &["b"]), ("b", &["a"])]);
    assert_eq!(NonParser::detect_cycles(&defs), defs.validate());
}

#[test]
fn later_record_of_one_id_replaces_the_earlier_one() {
    let defs = table(&[("a", &["a"]), ("b", &[]), ("a", &["b"])]);
    assert_eq!(defs.len(), 2);
    assert_eq!(defs.get(0), &record("a", &["b"]));
    assert_eq!(defs.index_of(&"b".to_string()), Some(1));
    assert_eq!(defs.index_of(&"c".to_string()), None);
    assert_eq!(defs.validate(), Ok(()));
}

#[test]
fn insert_replaces_or_appends() {
    let mut defs = table(&[("a", &[]), ("b", &[])]);
    defs.insert(record("a", &["b"]));
    defs.insert(record("c", &["a"]));
    assert_eq!(defs.len(), 3);
    assert_eq!(defs.get(0), &record("a", &["b"]));
    assert_eq!(defs.get(2), &record("c", &["a"]));
}
