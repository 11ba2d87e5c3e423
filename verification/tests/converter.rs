use excel_to_csv::values::{CellValue, CsvValue};

#[test]
fn empty_cell_fails() {
    let r = CsvValue::from_cell(&CellValue::Empty);
    assert_eq!(r.0, Err("Empty Value".to_string()));
}

#[test]
fn text_is_quoted() {
    let r = CsvValue::from_cell(&CellValue::Text("a,b".to_string()));
    assert_eq!(r.0, Ok("\"a,b\"".to_string()));
}

#[test]
fn iso_date_text_is_quoted() {
    let r = CsvValue::from_cell(&CellValue::DateTimeIso("2021-01-01T12:30:00".to_string()));
    assert_eq!(r.0, Ok("\"2021-01-01T12:30:00\"".to_string()));
}

#[test]
fn iso_duration_text_is_quoted() {
    let r = CsvValue::from_cell(&CellValue::DurationIso("PT2H30M".to_string()));
    assert_eq!(r.0, Ok("\"PT2H30M\"".to_string()));
}

#[test]
fn embedded_quotes_are_kept_unescaped() {
    let r = CsvValue::from_cell(&CellValue::Text("say \"hi\"".to_string()));
    assert_eq!(r.0, Ok("\"say \"hi\"\"".to_string()));
}

#[test]
fn empty_text_still_quoted() {
    let r = CsvValue::from_cell(&CellValue::Text(String::new()));
    assert_eq!(r.0, Ok("\"\"".to_string()));
}

#[test]
fn float_repr_passes_through_unquoted() {
    let r = CsvValue::from_cell(&CellValue::Float(3.0f64.to_string()));
    assert_eq!(r.0, Ok("3".to_string()));
    let r = CsvValue::from_cell(&CellValue::Float(0.5f64.to_string()));
    assert_eq!(r.0, Ok("0.5".to_string()));
}

#[test]
fn integers_render_base_10() {
    let cases: Vec<(i64, &str)> = vec![
        (0, "0"),
        (7, "7"),
        (-42, "-42"),
        (1000000, "1000000"),
        (i64::MAX, "9223372036854775807"),
        (i64::MIN, "-9223372036854775808"),
    ];
    for (n, expected) in cases {
        let r = CsvValue::from_cell(&CellValue::Int(n));
        assert_eq!(r.0, Ok(expected.to_string()));
    }
}

#[test]
fn booleans_render_true_false() {
    assert_eq!(CsvValue::from_cell(&CellValue::Bool(true)).0, Ok("true".to_string()));
    assert_eq!(CsvValue::from_cell(&CellValue::Bool(false)).0, Ok("false".to_string()));
}

#[test]
fn error_cell_message_carries_text_verbatim() {
    let r = CsvValue::from_cell(&CellValue::Error("#DIV/0!".to_string()));
    assert_eq!(r.0, Err("error in sheet, fix or remove cell error: #DIV/0!".to_string()));
}

#[test]
fn error_cell_message_empty_text() {
    let r = CsvValue::from_cell(&CellValue::Error(String::new()));
    assert_eq!(r.0, Err("error in sheet, fix or remove cell error: ".to_string()));
}

#[test]
fn datetime_serial_to_date() {
    let r = CsvValue::from_cell(&CellValue::DateTime(44197));
    assert_eq!(r.0, Ok("2021-01-01".to_string()));
}

#[test]
fn datetime_epoch_edges() {
    assert_eq!(CsvValue::from_cell(&CellValue::DateTime(0)).0, Ok("1899-12-30".to_string()));
    assert_eq!(CsvValue::from_cell(&CellValue::DateTime(1)).0, Ok("1899-12-31".to_string()));
    assert_eq!(CsvValue::from_cell(&CellValue::DateTime(2)).0, Ok("1900-01-01".to_string()));
    assert_eq!(CsvValue::from_cell(&CellValue::DateTime(-1)).0, Ok("1899-12-29".to_string()));
}

#[test]
fn datetime_leap_years() {
    // 2000 is a leap year (divisible by 400), 1900 is not (divisible by 100).
    assert_eq!(CsvValue::from_cell(&CellValue::DateTime(36585)).0, Ok("2000-02-29".to_string()));
    assert_eq!(CsvValue::from_cell(&CellValue::DateTime(45351)).0, Ok("2024-02-29".to_string()));
    assert_eq!(CsvValue::from_cell(&CellValue::DateTime(60)).0, Ok("1900-02-28".to_string()));
    assert_eq!(CsvValue::from_cell(&CellValue::DateTime(61)).0, Ok("1900-03-01".to_string()));
}

#[test]
fn datetime_year_boundaries() {
    assert_eq!(CsvValue::from_cell(&CellValue::DateTime(44196)).0, Ok("2020-12-31".to_string()));
    // Day numbers reach back before year 1; year 0 is rendered as 0000 and
    // earlier years carry a sign.
    assert_eq!(
        CsvValue::from_cell(&CellValue::DateTime(-693593)).0,
        Ok("0001-01-01".to_string())
    );
    assert_eq!(
        CsvValue::from_cell(&CellValue::DateTime(-693594)).0,
        Ok("0000-12-31".to_string())
    );
    assert_eq!(
        CsvValue::from_cell(&CellValue::DateTime(-693960)).0,
        Ok("-0001-12-31".to_string())
    );
}

#[test]
fn datetime_same_serial_same_text() {
    let a = CsvValue::from_cell(&CellValue::DateTime(44197));
    let b = CsvValue::from_cell(&CellValue::DateTime(44197));
    assert_eq!(a.0, b.0);
}

#[test]
fn datetime_fractional_serials_round_to_whole_days() {
    // The boundary that reads the sheet rounds the floating-point serial to
    // the nearest whole day before building a cell.
    let low = 44197.2f64.round() as i64;
    let base = 44197.0f64.round() as i64;
    let high = 44197.7f64.round() as i64;
    assert_eq!(low, base);
    assert_eq!(high, base + 1);
    assert_eq!(
        CsvValue::from_cell(&CellValue::DateTime(low)).0,
        CsvValue::from_cell(&CellValue::DateTime(base)).0
    );
    assert_eq!(CsvValue::from_cell(&CellValue::DateTime(high)).0, Ok("2021-01-02".to_string()));
}
