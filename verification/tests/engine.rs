use spready::reference::Reference;
use spready::value::{EvaluationError, Value};
use spready::Spreadsheet;

fn r(text: &str) -> Reference {
    Reference::from_str(text).unwrap()
}

fn value_of(sheet: &Spreadsheet, address: &str) -> Result<Value, EvaluationError> {
    sheet.get(r(address)).unwrap().value.clone()
}

#[test]
fn sum_of_two_literals() {
    let mut sheet = Spreadsheet::new();
    sheet.enter(r("A1"), "10").unwrap();
    sheet.enter(r("A2"), "20").unwrap();
    sheet.enter(r("B1"), "=A1+A2").unwrap();
    assert_eq!(value_of(&sheet, "B1"), Ok(Value::Integer(30)));
}

#[test]
fn division_by_zero_is_reported() {
    let mut sheet = Spreadsheet::new();
    sheet.enter(r("A1"), "10").unwrap();
    sheet.enter(r("B1"), "=A1/0").unwrap();
    assert_eq!(value_of(&sheet, "B1"), Err(EvaluationError::DivisionByZero));
}

#[test]
fn float_text_is_not_numeric() {
    // The engine stores no floating-point values: "1.0" is kept as text,
    // and arithmetic on it is an incompatible-types error.
    let mut sheet = Spreadsheet::new();
    sheet.enter(r("A1"), "1.0").unwrap();
    sheet.enter(r("A2"), "2").unwrap();
    sheet.enter(r("B1"), "=A1*A2").unwrap();
    assert_eq!(value_of(&sheet, "A1"), Ok(Value::Text("1.0".to_string())));
    assert_eq!(value_of(&sheet, "B1"), Err(EvaluationError::IncompatibleTypes));
}

#[test]
fn cycle_is_reported_and_values_are_kept() {
    let mut sheet = Spreadsheet::new();
    sheet.enter(r("A1"), "=A2").unwrap();
    let err = sheet.enter(r("A2"), "=A1");
    assert_eq!(err, Err(EvaluationError::CyclicDependency));
    // both cells retain their pre-write values: the default empty
    assert_eq!(value_of(&sheet, "A1"), Ok(Value::Empty));
    assert_eq!(value_of(&sheet, "A2"), Ok(Value::Empty));
}

#[test]
fn cycle_leaves_computed_values_untouched() {
    let mut sheet = Spreadsheet::new();
    sheet.enter(r("A1"), "5").unwrap();
    sheet.enter(r("B1"), "=A1+1").unwrap();
    assert_eq!(value_of(&sheet, "B1"), Ok(Value::Integer(6)));
    // writing a self-referencing formula into C1 introduces a cycle
    let err = sheet.enter(r("C1"), "=C1");
    assert_eq!(err, Err(EvaluationError::CyclicDependency));
    assert_eq!(value_of(&sheet, "B1"), Ok(Value::Integer(6)));
    // the broken cell still records its text and parsed state
    assert_eq!(sheet.get(r("C1")).unwrap().text(), "=C1");
}

#[test]
fn unparseable_formula_is_a_parse_error() {
    let mut sheet = Spreadsheet::new();
    sheet.enter(r("A1"), "=foo").unwrap();
    assert_eq!(value_of(&sheet, "A1"), Err(EvaluationError::ParseError));
    assert_eq!(sheet.get(r("A1")).unwrap().text(), "=foo");
    // a cell with an unparseable formula depends on nothing
    assert!(!sheet.dependencies().has_edges());
}

#[test]
fn absent_reference_counts_as_zero() {
    let mut sheet = Spreadsheet::new();
    sheet.enter(r("A1"), "=Z9+5").unwrap();
    assert_eq!(value_of(&sheet, "A1"), Ok(Value::Integer(5)));
}

#[test]
fn bare_absent_reference_is_empty() {
    let mut sheet = Spreadsheet::new();
    sheet.enter(r("A1"), "=Z9").unwrap();
    assert_eq!(value_of(&sheet, "A1"), Ok(Value::Empty));
}

#[test]
fn update_propagates_to_dependents() {
    let mut sheet = Spreadsheet::new();
    sheet.enter(r("A1"), "10").unwrap();
    sheet.enter(r("B1"), "=A1*2").unwrap();
    assert_eq!(value_of(&sheet, "B1"), Ok(Value::Integer(20)));
    sheet.enter(r("A1"), "30").unwrap();
    assert_eq!(value_of(&sheet, "B1"), Ok(Value::Integer(60)));
}

#[test]
fn update_propagates_through_chains() {
    let mut sheet = Spreadsheet::new();
    sheet.enter(r("A1"), "1").unwrap();
    sheet.enter(r("B1"), "=A1+1").unwrap();
    sheet.enter(r("C1"), "=B1+1").unwrap();
    sheet.enter(r("D1"), "=C1+B1").unwrap();
    assert_eq!(value_of(&sheet, "D1"), Ok(Value::Integer(5)));
    sheet.enter(r("A1"), "10").unwrap();
    assert_eq!(value_of(&sheet, "B1"), Ok(Value::Integer(11)));
    assert_eq!(value_of(&sheet, "C1"), Ok(Value::Integer(12)));
    assert_eq!(value_of(&sheet, "D1"), Ok(Value::Integer(23)));
}

#[test]
fn error_propagates_to_dependents() {
    let mut sheet = Spreadsheet::new();
    sheet.enter(r("A1"), "=1/0").unwrap();
    sheet.enter(r("B1"), "=A1+1").unwrap();
    assert_eq!(value_of(&sheet, "A1"), Err(EvaluationError::DivisionByZero));
    assert_eq!(value_of(&sheet, "B1"), Err(EvaluationError::DivisionByZero));
}

#[test]
fn rewriting_a_formula_replaces_its_dependencies() {
    let mut sheet = Spreadsheet::new();
    sheet.enter(r("A1"), "2").unwrap();
    sheet.enter(r("B1"), "3").unwrap();
    sheet.enter(r("C1"), "=A1").unwrap();
    assert_eq!(value_of(&sheet, "C1"), Ok(Value::Integer(2)));
    sheet.enter(r("C1"), "=B1").unwrap();
    assert_eq!(value_of(&sheet, "C1"), Ok(Value::Integer(3)));
    // the old dependency is gone: changing A1 no longer affects C1
    sheet.enter(r("A1"), "100").unwrap();
    assert_eq!(value_of(&sheet, "C1"), Ok(Value::Integer(3)));
}

#[test]
fn replacing_a_formula_with_a_literal_clears_edges() {
    let mut sheet = Spreadsheet::new();
    sheet.enter(r("B1"), "=A1+1").unwrap();
    sheet.enter(r("B1"), "7").unwrap();
    assert!(!sheet.dependencies().has_edges());
    assert_eq!(value_of(&sheet, "B1"), Ok(Value::Integer(7)));
}

#[test]
fn blank_text_is_the_empty_value() {
    let mut sheet = Spreadsheet::new();
    sheet.enter(r("A1"), "").unwrap();
    sheet.enter(r("A2"), "   ").unwrap();
    assert_eq!(value_of(&sheet, "A1"), Ok(Value::Empty));
    assert_eq!(value_of(&sheet, "A2"), Ok(Value::Empty));
}

#[test]
fn empty_operand_counts_as_zero() {
    let mut sheet = Spreadsheet::new();
    sheet.enter(r("A1"), "").unwrap();
    sheet.enter(r("B1"), "=A1+41").unwrap();
    assert_eq!(value_of(&sheet, "B1"), Ok(Value::Integer(41)));
}

#[test]
fn text_operand_is_incompatible() {
    let mut sheet = Spreadsheet::new();
    sheet.enter(r("A1"), "hello").unwrap();
    sheet.enter(r("B1"), "=A1+1").unwrap();
    assert_eq!(value_of(&sheet, "B1"), Err(EvaluationError::IncompatibleTypes));
}

#[test]
fn get_of_a_never_written_cell_is_none() {
    let sheet = Spreadsheet::new();
    assert!(sheet.get(r("A1")).is_none());
}

#[test]
fn cells_iterate_in_key_order() {
    let mut sheet = Spreadsheet::new();
    sheet.enter(r("B2"), "1").unwrap();
    sheet.enter(r("A10"), "2").unwrap();
    sheet.enter(r("A2"), "3").unwrap();
    sheet.enter(r("A1"), "4").unwrap();
    let order: Vec<String> = sheet
        .cells()
        .entries()
        .iter()
        .map(|(reference, _)| {
            let mut s = String::new();
            s.push(reference.first as char);
            if reference.second != 0 {
                s.push(reference.second as char);
            }
            s.push_str(&reference.number.to_string());
            s
        })
        .collect();
    assert_eq!(order, vec!["A1", "A2", "A10", "B2"]);
}

#[test]
fn raw_text_survives_every_kind_of_entry() {
    let mut sheet = Spreadsheet::new();
    sheet.enter(r("A1"), "  12 monkeys ").unwrap();
    assert_eq!(sheet.get(r("A1")).unwrap().text(), "  12 monkeys ");
    sheet.enter(r("A1"), "=1+1").unwrap();
    assert_eq!(sheet.get(r("A1")).unwrap().text(), "=1+1");
}

#[test]
fn wrapping_addition_at_the_integer_boundary() {
    let mut sheet = Spreadsheet::new();
    sheet.enter(r("A1"), "9223372036854775807").unwrap();
    sheet.enter(r("B1"), "=A1+1").unwrap();
    assert_eq!(value_of(&sheet, "B1"), Ok(Value::Integer(i64::MIN)));
}

#[test]
fn integer_division_truncates_toward_zero() {
    let mut sheet = Spreadsheet::new();
    sheet.enter(r("A1"), "=7/2").unwrap();
    sheet.enter(r("A2"), "=(0-7)/2").unwrap();
    assert_eq!(value_of(&sheet, "A1"), Ok(Value::Integer(3)));
    assert_eq!(value_of(&sheet, "A2"), Ok(Value::Integer(-3)));
}

#[test]
fn formula_on_parse_error_cell_propagates() {
    let mut sheet = Spreadsheet::new();
    sheet.enter(r("A1"), "=foo").unwrap();
    sheet.enter(r("B1"), "=A1+1").unwrap();
    assert_eq!(value_of(&sheet, "B1"), Err(EvaluationError::ParseError));
}

#[test]
fn references_are_case_sensitive_cells() {
    let mut sheet = Spreadsheet::new();
    sheet.enter(r("a1"), "1").unwrap();
    sheet.enter(r("A1"), "2").unwrap();
    assert_eq!(value_of(&sheet, "a1"), Ok(Value::Integer(1)));
    assert_eq!(value_of(&sheet, "A1"), Ok(Value::Integer(2)));
}

#[test]
fn formula_whitespace_is_insignificant() {
    let mut sheet = Spreadsheet::new();
    sheet.enter(r("A1"), "=  1  +  2 ").unwrap();
    assert_eq!(value_of(&sheet, "A1"), Ok(Value::Integer(3)));
}

#[test]
fn nested_parentheses_parse() {
    let mut sheet = Spreadsheet::new();
    sheet.enter(r("A1"), "=((((5))))").unwrap();
    assert_eq!(value_of(&sheet, "A1"), Ok(Value::Integer(5)));
}

#[test]
fn reentering_the_same_formula_is_stable() {
    let mut sheet = Spreadsheet::new();
    sheet.enter(r("A1"), "3").unwrap();
    sheet.enter(r("B1"), "=A1+1").unwrap();
    sheet.enter(r("B1"), "=A1+1").unwrap();
    assert_eq!(value_of(&sheet, "B1"), Ok(Value::Integer(4)));
}

#[test]
fn left_error_wins_over_right_error() {
    let mut sheet = Spreadsheet::new();
    sheet.enter(r("A1"), "=1/0").unwrap();
    sheet.enter(r("A2"), "=foo").unwrap();
    sheet.enter(r("B1"), "=A1+A2").unwrap();
    assert_eq!(value_of(&sheet, "B1"), Err(EvaluationError::DivisionByZero));
    sheet.enter(r("B2"), "=A2+A1").unwrap();
    assert_eq!(value_of(&sheet, "B2"), Err(EvaluationError::ParseError));
}
