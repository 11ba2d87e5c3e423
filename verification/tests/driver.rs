use excel_to_csv::from_excel::operators::{count_columns, CollectingOperator};
use excel_to_csv::from_excel::{get_max_line_length_of_first_x_lines, write_range};
use excel_to_csv::values::CellValue;

fn row_of_width(n: usize) -> Vec<CellValue> {
    let mut row = Vec::new();
    for i in 0..n {
        row.push(CellValue::Int(i as i64));
    }
    row
}

#[test]
fn write_path_scenario() {
    let grid = vec![
        vec![CellValue::Text("a".to_string()), CellValue::Text("b".to_string())],
        vec![CellValue::Empty, CellValue::Float(3.0f64.to_string())],
    ];
    let mut operator = CollectingOperator::new();
    let r = write_range(&grid, &mut operator, 10, ",".to_string());
    assert!(r.is_ok());
    assert_eq!(operator.rows.len(), 2);
    assert_eq!(operator.rows[0].separator, ",");
    assert_eq!(operator.rows[0].line_length, 10);
    assert_eq!(operator.rows[1].separator, ",");
    assert_eq!(operator.rows[1].line_length, 10);
    let row0: Vec<Result<String, String>> =
        operator.rows[0].cells.iter().map(|c| c.0.clone()).collect();
    assert_eq!(row0, vec![Ok("\"a\"".to_string()), Ok("\"b\"".to_string())]);
    let row1: Vec<Result<String, String>> =
        operator.rows[1].cells.iter().map(|c| c.0.clone()).collect();
    assert_eq!(row1, vec![Err("Empty Value".to_string()), Ok("3".to_string())]);
}

#[test]
fn write_path_preserves_row_and_column_order() {
    let grid = vec![
        vec![CellValue::Int(11), CellValue::Int(12), CellValue::Int(13)],
        vec![CellValue::Int(21)],
        vec![CellValue::Int(31), CellValue::Int(32)],
    ];
    let mut operator = CollectingOperator::new();
    let r = write_range(&grid, &mut operator, 0, ";".to_string());
    assert!(r.is_ok());
    let seen: Vec<Vec<Result<String, String>>> = operator
        .rows
        .iter()
        .map(|row| row.cells.iter().map(|c| c.0.clone()).collect())
        .collect();
    assert_eq!(
        seen,
        vec![
            vec![
                Ok("11".to_string()),
                Ok("12".to_string()),
                Ok("13".to_string())
            ],
            vec![Ok("21".to_string())],
            vec![Ok("31".to_string()), Ok("32".to_string())],
        ]
    );
}

#[test]
fn write_path_empty_grid() {
    let grid: Vec<Vec<CellValue>> = Vec::new();
    let mut operator = CollectingOperator::new();
    let r = write_range(&grid, &mut operator, 80, ",".to_string());
    assert!(r.is_ok());
    assert!(operator.rows.is_empty());
}

#[test]
fn scan_scenario_prefix_max() {
    let grid = vec![row_of_width(2), row_of_width(5), row_of_width(3)];
    assert_eq!(
        get_max_line_length_of_first_x_lines(&grid, 2).map_err(|e| e.0),
        Ok(5)
    );
}

#[test]
fn scan_bound_beyond_grid_examines_all_rows() {
    let grid = vec![row_of_width(2), row_of_width(5), row_of_width(3)];
    assert_eq!(
        get_max_line_length_of_first_x_lines(&grid, 10).map_err(|e| e.0),
        Ok(5)
    );
    assert_eq!(
        get_max_line_length_of_first_x_lines(&grid, 3).map_err(|e| e.0),
        Ok(5)
    );
}

#[test]
fn scan_first_row_only() {
    let grid = vec![row_of_width(2), row_of_width(5), row_of_width(3)];
    assert_eq!(
        get_max_line_length_of_first_x_lines(&grid, 1).map_err(|e| e.0),
        Ok(2)
    );
}

#[test]
fn scan_zero_or_negative_bound_examines_nothing() {
    let grid = vec![row_of_width(2), row_of_width(5)];
    assert_eq!(
        get_max_line_length_of_first_x_lines(&grid, 0).map_err(|e| e.0),
        Ok(0)
    );
    assert_eq!(
        get_max_line_length_of_first_x_lines(&grid, -3).map_err(|e| e.0),
        Ok(0)
    );
}

#[test]
fn scan_empty_grid() {
    let grid: Vec<Vec<CellValue>> = Vec::new();
    assert_eq!(
        get_max_line_length_of_first_x_lines(&grid, 4).map_err(|e| e.0),
        Ok(0)
    );
}

#[test]
fn scan_counts_cells_not_convertibility() {
    let grid = vec![vec![
        CellValue::Empty,
        CellValue::Error("#N/A".to_string()),
        CellValue::Empty,
    ]];
    assert_eq!(
        get_max_line_length_of_first_x_lines(&grid, 1).map_err(|e| e.0),
        Ok(3)
    );
}

#[test]
fn count_columns_matches_entry_point() {
    let grid = vec![row_of_width(4), row_of_width(1)];
    assert_eq!(count_columns(2, &grid).map_err(|e| e.0), Ok(4));
    assert_eq!(
        get_max_line_length_of_first_x_lines(&grid, 2).map_err(|e| e.0),
        Ok(4)
    );
}
