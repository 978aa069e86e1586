use format_table::evaluate::evaluate;
use format_table::hive::HiveDialect;
use format_table::leading::{
    leading_equality_partition_path, leading_equality_partition_values,
    leading_equality_values_from_predicate,
};
use format_table::model::{BinaryRow, DataField, DataType, Datum, TypeKind};
use format_table::partition::partition_path_from_row;
use format_table::path::join_path;
use format_table::predicate::{PartitionFilter, Predicate, PredicateOperator};

const DEFAULT: &str = "__DEFAULT_PARTITION__";

fn columns(names: &[&str]) -> Vec<DataField> {
    names
        .iter()
        .map(|name| DataField {
            name: name.to_string(),
            data_type: DataType { name: "VarChar(255)".to_string(), kind: TypeKind::Character },
        })
        .collect()
}

fn keys(names: &[&str]) -> Vec<String> {
    names.iter().map(|name| name.to_string()).collect()
}

fn leaf(index: usize, op: PredicateOperator, literals: &[&str]) -> Predicate {
    Predicate::Leaf {
        column: format!("c{index}"),
        index,
        data_type: DataType { name: "VarChar(255)".to_string(), kind: TypeKind::Character },
        op,
        literals: literals.iter().map(|text| Datum { text: text.to_string() }).collect(),
    }
}

fn eq(index: usize, literal: &str) -> Predicate {
    leaf(index, PredicateOperator::Eq, &[literal])
}

fn row(values: &[Option<&str>]) -> BinaryRow {
    BinaryRow {
        values: values
            .iter()
            .map(|value| value.map(|text| Datum { text: text.to_string() }))
            .collect(),
    }
}

fn pinned(predicate: &Predicate) -> Vec<String> {
    let fields = columns(&["dt", "hh", "mm"]);
    leading_equality_values_from_predicate(&HiveDialect, predicate, &fields, DEFAULT, false)
}

fn pinned_by_rows(rows: &[&[Option<&str>]]) -> Result<Vec<String>, String> {
    let filter = PartitionFilter::PartitionSet {
        partitions: rows.iter().map(|values| row(values)).collect(),
    };
    leading_equality_partition_values(
        &HiveDialect,
        &filter,
        &columns(&["dt", "hh", "mm"]),
        DEFAULT,
        false,
    )
    .map_err(|error| error.message().to_string())
}

#[test]
fn test_only_a_leading_run_of_equalities_is_pinned() {
    assert_eq!(pinned(&eq(0, "a")), vec!["a"]);
    assert_eq!(pinned(&eq(1, "10")), Vec::<String>::new());
    assert_eq!(pinned(&Predicate::And(vec![eq(1, "10"), eq(0, "a")])), vec!["a", "10"]);
    assert_eq!(pinned(&Predicate::And(vec![eq(0, "a"), eq(2, "5")])), vec!["a"]);
    assert_eq!(
        pinned(&Predicate::And(vec![
            eq(0, "a"),
            leaf(1, PredicateOperator::In, &["10", "11"]),
        ])),
        vec!["a"]
    );
    assert_eq!(pinned(&leaf(0, PredicateOperator::Gt, &["a"])), Vec::<String>::new());
}

#[test]
fn test_nested_conjunctions_are_taken_apart() {
    let nested = Predicate::And(vec![
        Predicate::And(vec![eq(0, "a")]),
        Predicate::And(vec![Predicate::And(vec![eq(2, "5"), eq(1, "10")])]),
    ]);
    assert_eq!(pinned(&nested), vec!["a", "10", "5"]);
    assert_eq!(pinned(&Predicate::Or(vec![eq(0, "a"), eq(0, "a")])), Vec::<String>::new());
    assert_eq!(pinned(&Predicate::Not(Box::new(eq(0, "a")))), Vec::<String>::new());
    assert_eq!(pinned(&Predicate::And(vec![])), Vec::<String>::new());
}

#[test]
fn test_the_last_equality_on_a_column_counts() {
    assert_eq!(pinned(&Predicate::And(vec![eq(0, "a"), eq(0, "b")])), vec!["b"]);
    assert_eq!(
        pinned(&Predicate::And(vec![eq(0, "a"), leaf(0, PredicateOperator::Eq, &[])])),
        Vec::<String>::new()
    );
    assert_eq!(pinned(&Predicate::And(vec![eq(0, "a"), eq(7, "x")])), vec!["a"]);
}

#[test]
fn test_enumerated_rows_pin_what_they_share() {
    let a10 = [Some("a"), Some("10"), Some("1")];
    let a11 = [Some("a"), Some("11"), Some("1")];
    let b10 = [Some("b"), Some("10"), Some("1")];
    let null = [Some("a"), None, Some("1")];
    assert_eq!(pinned_by_rows(&[]).unwrap(), Vec::<String>::new());
    assert_eq!(pinned_by_rows(&[&a10]).unwrap(), vec!["a", "10", "1"]);
    assert_eq!(pinned_by_rows(&[&a10, &a11]).unwrap(), vec!["a"]);
    assert_eq!(pinned_by_rows(&[&a10, &a11, &b10]).unwrap(), Vec::<String>::new());
    assert_eq!(pinned_by_rows(&[&null, &a10]).unwrap(), vec!["a"]);
}

#[test]
fn test_a_short_row_is_an_error_where_it_is_reached() {
    let short = [Some("a")];
    let a10 = [Some("a"), Some("10"), Some("1")];
    let b10 = [Some("b"), Some("10"), Some("1")];
    assert_eq!(pinned_by_rows(&[&short]).unwrap_err(), "Partition row has too few fields");
    assert_eq!(pinned_by_rows(&[&a10, &b10, &short]).unwrap(), Vec::<String>::new());
    assert_eq!(pinned_by_rows(&[&[None]]).unwrap(), Vec::<String>::new());
}

#[test]
fn test_leading_path() {
    let names = keys(&["dt", "hh", "mm"]);
    let fields = columns(&["dt", "hh", "mm"]);
    let path = |predicate: &Predicate, only_value| {
        leading_equality_partition_path(
            &HiveDialect,
            "/t/",
            &names,
            &fields,
            predicate,
            DEFAULT,
            false,
            only_value,
        )
    };
    let two = Predicate::And(vec![eq(0, "a/b"), eq(1, "10")]);
    assert_eq!(path(&two, false), Some("/t/dt=a%2Fb/hh=10".to_string()));
    assert_eq!(path(&two, true), Some("/t/a%2Fb/10".to_string()));
    assert_eq!(path(&eq(1, "10"), false), None);
}

#[test]
fn test_rows_that_meet_a_predicate_lie_below_the_leading_path() {
    let names = keys(&["dt", "hh"]);
    let fields = columns(&["dt", "hh"]);
    let predicate = Predicate::And(vec![
        eq(0, "a"),
        leaf(1, PredicateOperator::GtEq, &["10"]),
    ]);
    let root = leading_equality_partition_path(
        &HiveDialect,
        "/t",
        &names,
        &fields,
        &predicate,
        DEFAULT,
        false,
        false,
    )
    .unwrap();
    assert_eq!(root, "/t/dt=a");
    for cells in [[Some("a"), Some("10")], [Some("a"), Some("11")]] {
        let row = row(&cells);
        assert_eq!(evaluate(&predicate, &row), Some(true));
        let path = partition_path_from_row(&HiveDialect, &row, &fields, DEFAULT, false, false);
        assert!(join_path("/t", &path.unwrap()).starts_with(&format!("{root}/")));
    }
    assert_eq!(evaluate(&predicate, &row(&[Some("b"), Some("10")])), Some(false));
}

#[test]
fn test_predicates_and_nulls() {
    let null = row(&[None]);
    let a = row(&[Some("a")]);
    let leaf0 = |op, literals: &[&str]| leaf(0, op, literals);
    assert_eq!(evaluate(&eq(0, "a"), &a), Some(true));
    assert_eq!(evaluate(&eq(0, "a"), &null), None);
    assert_eq!(evaluate(&eq(3, "a"), &a), None);
    assert_eq!(evaluate(&leaf0(PredicateOperator::NotEq, &["a"]), &a), Some(false));
    assert_eq!(evaluate(&leaf0(PredicateOperator::Lt, &["b"]), &a), Some(true));
    assert_eq!(evaluate(&leaf0(PredicateOperator::LtEq, &["a"]), &a), Some(true));
    assert_eq!(evaluate(&leaf0(PredicateOperator::Gt, &["a"]), &a), Some(false));
    assert_eq!(evaluate(&leaf0(PredicateOperator::GtEq, &["a"]), &a), Some(true));
    assert_eq!(evaluate(&leaf0(PredicateOperator::IsNull, &[]), &null), Some(true));
    assert_eq!(evaluate(&leaf0(PredicateOperator::IsNotNull, &[]), &null), Some(false));
    assert_eq!(evaluate(&leaf0(PredicateOperator::In, &["b", "a"]), &a), Some(true));
    assert_eq!(evaluate(&leaf0(PredicateOperator::NotIn, &["b", "a"]), &a), Some(false));
    assert_eq!(evaluate(&leaf0(PredicateOperator::NotIn, &["b"]), &null), None);
    let unknown = || eq(0, "a");
    let yes = || leaf0(PredicateOperator::IsNull, &[]);
    let no = || leaf0(PredicateOperator::IsNotNull, &[]);
    assert_eq!(evaluate(&Predicate::And(vec![unknown(), no()]), &null), Some(false));
    assert_eq!(evaluate(&Predicate::And(vec![unknown(), yes()]), &null), None);
    assert_eq!(evaluate(&Predicate::Or(vec![unknown(), yes()]), &null), Some(true));
    assert_eq!(evaluate(&Predicate::Or(vec![unknown(), no()]), &null), None);
    assert_eq!(evaluate(&Predicate::Not(Box::new(unknown())), &null), None);
    assert_eq!(evaluate(&Predicate::Not(Box::new(no())), &null), Some(true));
    assert_eq!(evaluate(&Predicate::And(vec![]), &null), Some(true));
    assert_eq!(evaluate(&Predicate::Or(vec![]), &null), Some(false));
}
