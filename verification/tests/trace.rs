use toyni::errors::StarkError;
use toyni::vm::trace::{ExecutionTrace, Row};

fn generate_test_trace() -> ExecutionTrace {
    let mut execution_trace = ExecutionTrace::new(5, 5);
    for i in 0..execution_trace.height {
        let mut column = Row::new();
        column.insert("a".to_string(), i);
        column.insert("b".to_string(), i + 1);
        column.insert("c".to_string(), i + 2);
        column.insert("d".to_string(), i + 3);
        column.insert("e".to_string(), i + 4);
        execution_trace.insert_column(column).unwrap();
    }
    execution_trace
}

#[test]
fn print_test_trace() {
    let execution_trace = generate_test_trace();
    let cells = execution_trace.table(&vec![
        "a".to_string(),
        "b".to_string(),
        "c".to_string(),
        "d".to_string(),
        "e".to_string(),
    ]);
    for line in &cells {
        let mut text = String::new();
        for value in line {
            text.push_str(&format!("{} |", value));
        }
        println!("{}", text);
    }
    assert_eq!(cells.len(), 5);
    assert_eq!(cells[0], vec![0, 1, 2, 3, 4]);
    assert_eq!(cells[4], vec![4, 5, 6, 7, 8]);
}

#[test]
fn test_interpolation() {
    let execution_trace = generate_test_trace();

    // Test variable "a" interpolation between steps 0 and 1
    // step 0: 0, step 1: 1
    let interpolated = execution_trace.interpolate(&"a".to_string(), 0, 1, 50);
    assert_eq!(interpolated, 0); // At 50% between 0 and 1

    // Test variable "b" interpolation between steps 0 and 1
    // step 0: 1, step 1: 2
    let interpolated = execution_trace.interpolate(&"b".to_string(), 0, 1, 0);
    assert_eq!(interpolated, 1);

    // Test variable "c" interpolation between steps 0 and 1
    // step 0: 2, step 1: 3
    let interpolated = execution_trace.interpolate(&"c".to_string(), 0, 1, 100);
    assert_eq!(interpolated, 3);

    // Additional test cases
    let interpolated = execution_trace.interpolate(&"a".to_string(), 0, 1, 100);
    assert_eq!(interpolated, 1);

    let interpolated = execution_trace.interpolate(&"b".to_string(), 0, 1, 100);
    assert_eq!(interpolated, 2);
}

#[test]
fn interpolation_rounds_down() {
    let execution_trace = generate_test_trace();
    // From 0 to 4 at 30%: 4 * 30 / 100 = 1.
    assert_eq!(execution_trace.interpolate(&"a".to_string(), 0, 4, 30), 1);
    // From 4 to 8 at 99%: 4 + 4 * 99 / 100 = 7.
    assert_eq!(execution_trace.interpolate(&"e".to_string(), 0, 4, 99), 7);
    assert_eq!(execution_trace.interpolate(&"e".to_string(), 2, 2, 50), 6);
}

#[test]
fn table_shows_zero_for_a_missing_variable() {
    let execution_trace = generate_test_trace();
    let cells = execution_trace.table(&vec!["e".to_string(), "z".to_string()]);
    assert_eq!(cells[1], vec![5, 0]);
}

#[test]
fn row_of_wrong_width_is_refused() {
    let mut trace = ExecutionTrace::new(2, 2);
    let mut row = Row::new();
    row.insert("x".to_string(), 1);
    assert_eq!(trace.insert_column(row), Err(StarkError::WidthMismatch));
    assert_eq!(trace.trace.len(), 0);
}

#[test]
fn row_past_the_height_is_refused() {
    let mut trace = ExecutionTrace::new(1, 1);
    let mut row = Row::new();
    row.insert("x".to_string(), 1);
    assert_eq!(trace.insert_column(row), Ok(()));
    let mut row = Row::new();
    row.insert("x".to_string(), 2);
    assert_eq!(trace.insert_column(row), Err(StarkError::TraceFull));
    assert_eq!(trace.trace.len(), 1);
}

#[test]
fn width_is_checked_before_the_height() {
    let mut trace = ExecutionTrace::new(0, 1);
    assert_eq!(trace.insert_column(Row::new()), Err(StarkError::WidthMismatch));
}

#[test]
fn rows_are_read_once_the_trace_is_complete() {
    let mut trace = ExecutionTrace::new(2, 1);
    let mut row = Row::new();
    row.insert("x".to_string(), 7);
    trace.insert_column(row).unwrap();
    assert_eq!(trace.get_column(0).err(), Some(StarkError::OutOfRange));
    let mut row = Row::new();
    row.insert("x".to_string(), 8);
    trace.insert_column(row).unwrap();
    assert_eq!(trace.get_column(0).unwrap().get("x"), Some(&7));
    assert_eq!(trace.get_column(1).unwrap().get("x"), Some(&8));
    assert_eq!(trace.get_column(2).err(), Some(StarkError::OutOfRange));
}

#[test]
fn row_keeps_the_last_value_of_a_variable() {
    let mut row = Row::new();
    assert_eq!(row.len(), 0);
    row.insert("x".to_string(), 1);
    row.insert("x".to_string(), 2);
    row.insert("y".to_string(), 3);
    assert_eq!(row.len(), 2);
    assert_eq!(row.get("x"), Some(&2));
    assert_eq!(row.get("z"), None);
}
