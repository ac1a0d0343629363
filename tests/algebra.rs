use cozo::algebra::{
    assert_rule, build_ra_expr, AlgebraParseError, ParseRule, RaArg, RaCall, RaFromValues,
};
use cozo::value::DataValue;

fn schema(names: &[&str]) -> RaArg {
    RaArg {
        rule: ParseRule::ScopedList,
        names: names.iter().map(|s| s.to_string()).collect(),
        rows: vec![],
    }
}

fn data(rows: Vec<Vec<DataValue>>) -> RaArg {
    RaArg { rule: ParseRule::Expr, names: vec![], rows }
}

fn values_call(args: Vec<RaArg>) -> RaCall {
    RaCall { name: "Values".to_string(), args }
}

// Values(v: [id, vals], [[100, 'confidential'], [101, 'top secret']])
#[test]
fn parse_ra() -> Result<(), AlgebraParseError> {
    let call = values_call(vec![
        schema(&["v", "id", "vals"]),
        data(vec![
            vec![DataValue::Int(100), DataValue::Str("confidential".to_string())],
            vec![DataValue::Int(101), DataValue::Str("top secret".to_string())],
        ]),
    ]);
    build_ra_expr(&vec![call])?;
    Ok(())
}

#[test]
fn values_builds_columns_and_rows() {
    let call = values_call(vec![
        schema(&["v", "id", "vals"]),
        data(vec![
            vec![DataValue::Int(100), DataValue::Str("confidential".to_string())],
            vec![DataValue::Int(101), DataValue::Str("top secret".to_string())],
        ]),
    ]);
    let built = build_ra_expr(&vec![call]).unwrap();
    assert_eq!(built.binding, "v");
    assert_eq!(built.columns.len(), 2);
    assert_eq!(built.columns[0].name, "id");
    assert_eq!(built.columns[0].col_idx, 0);
    assert_eq!(built.columns[1].name, "vals");
    assert_eq!(built.columns[1].col_idx, 1);
    assert_eq!(built.values.len(), 2);
    assert!(matches!(built.values[1][0], DataValue::Int(101)));
    assert_eq!(built.name(), "Values");
}

#[test]
fn values_row_of_wrong_width_is_a_value_error() {
    let call = values_call(vec![
        schema(&["v", "id", "vals"]),
        data(vec![vec![DataValue::Int(1)]]),
    ]);
    match build_ra_expr(&vec![call]) {
        Err(AlgebraParseError::ValueError(row)) => assert_eq!(row.len(), 1),
        other => panic!("unexpected {:?}", other),
    }
}

#[test]
fn values_cannot_be_chained() {
    let make = || values_call(vec![schema(&["v", "id"]), data(vec![])]);
    match build_ra_expr(&vec![make(), make()]) {
        Err(AlgebraParseError::Unchainable(n)) => assert_eq!(n, "Values"),
        other => panic!("unexpected {:?}", other),
    }
}

#[test]
fn values_needs_two_arguments() {
    match RaFromValues::build(false, &vec![schema(&["v", "id"])]) {
        Err(AlgebraParseError::NotEnoughArguments(n)) => assert_eq!(n, "Values"),
        other => panic!("unexpected {:?}", other),
    }
}

#[test]
fn values_wrong_argument_kind() {
    match RaFromValues::build(false, &vec![data(vec![]), data(vec![])]) {
        Err(AlgebraParseError::WrongArgumentType(n, i, found)) => {
            assert_eq!(n, "Values");
            assert_eq!(i, 0);
            assert_eq!(found, "expr");
        }
        other => panic!("unexpected {:?}", other),
    }
}

#[test]
fn assert_rule_accepts_matching_kind() {
    assert!(assert_rule(&schema(&["v"]), ParseRule::ScopedList, "Values", 0).is_ok());
    match assert_rule(&schema(&["v"]), ParseRule::Expr, "Values", 1) {
        Err(AlgebraParseError::WrongArgumentType(n, i, found)) => {
            assert_eq!(n, "Values");
            assert_eq!(i, 1);
            assert_eq!(found, "scoped_list");
        }
        other => panic!("unexpected {:?}", other),
    }
}
