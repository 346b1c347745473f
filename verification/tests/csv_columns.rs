use dive_overlay::binary64::Real;
use dive_overlay::csv_data::{
    find_column_index, format_duration, parse_column_map, parse_duration_to_seconds, parse_fields,
    parse_optional_float, ColumnMap,
};
use dive_overlay::dive_log::{
    load_samples, load_samples_checked, read_csv_datetime_columns, read_csv_headers, read_first_row_columns,
    samples_from_rows,
};
use dive_overlay::{CoreError, Field};

fn num(x: f64) -> Real {
    Real::from_bits(x.to_bits())
}

const DIVE_CSV: &str = "sample time (min),sample depth (m),sample temperature (C),sample pressure (bar),sample heartrate\n\
                        0:10,1.1,,,\n\
                        0:30,2.9,24.0,,\n\
                        0:20,2.0,,200,70\n";

#[test]
fn parses_mmss_and_hhmmss() {
    assert_eq!(parse_duration_to_seconds("0:10").unwrap(), num(10.0));
    assert_eq!(parse_duration_to_seconds("1:30").unwrap(), num(90.0));
    assert_eq!(parse_duration_to_seconds("1:00:00").unwrap(), num(3600.0));
    assert_eq!(parse_duration_to_seconds("5.5").unwrap(), num(5.5));
}

#[test]
fn rejects_empty_duration() {
    assert!(parse_duration_to_seconds("").is_err());
    assert!(parse_duration_to_seconds("   ").is_err());
}

#[test]
fn duration_errors_say_what_was_wrong() {
    assert_eq!(
        parse_duration_to_seconds("").unwrap_err().message(),
        "Invalid time value: Empty time value"
    );
    assert_eq!(parse_duration_to_seconds("abc").unwrap_err().message(), "Invalid time value: abc");
    assert_eq!(
        parse_duration_to_seconds(" 1:2:3:4 ").unwrap_err().message(),
        "Invalid time value: Unknown time format: 1:2:3:4"
    );
    assert_eq!(
        parse_duration_to_seconds("1.5:00").unwrap_err().message(),
        "Invalid time value: Unknown time format: 1.5:00"
    );
}

#[test]
fn format_duration_round_trip() {
    assert_eq!(format_duration(num(10.0)), "00:10");
    assert_eq!(format_duration(num(90.0)), "01:30");
    assert_eq!(format_duration(num(3600.0)), "01:00:00");
    assert_eq!(format_duration(num(-5.0)), "00:00");
}

#[test]
fn optional_float_handles_comma_decimals_and_blanks() {
    assert_eq!(parse_optional_float(Some("24,0")), Some(num(24.0)));
    assert_eq!(parse_optional_float(Some("")), None);
    assert_eq!(parse_optional_float(Some("  ")), None);
    assert_eq!(parse_optional_float(None), None);
    assert_eq!(parse_optional_float(Some("\"1.1\"")), Some(num(1.1)));
}

#[test]
fn find_column_index_exact_then_substring() {
    let headers = vec!["Sample Depth (m)".to_string(), "sample time (min)".to_string()];
    assert_eq!(find_column_index(&headers, &["sample depth (m)", "depth"]), Some(0));
    assert_eq!(find_column_index(&headers, &["depth"]), Some(0));
    assert_eq!(find_column_index(&headers, &["nonexistent"]), None);
}

#[test]
fn an_exact_column_comes_before_one_that_holds_the_name() {
    let headers = vec!["max depth".to_string(), "Depth ".to_string()];
    assert_eq!(find_column_index(&headers, &["depth"]), Some(1));
    let german = vec!["TIEFE Ä".to_string(), "Zeit".to_string()];
    assert_eq!(find_column_index(&german, &["tiefe ä"]), Some(0));
}

#[test]
fn parse_fields_rejects_unknown() {
    assert!(parse_fields("time,depth").is_ok());
    assert!(parse_fields("").is_err());
    assert!(parse_fields("time,bogus").is_err());
}

#[test]
fn parse_fields_lists_what_it_does_not_know() {
    assert_eq!(
        parse_fields(" Time , ,DEPTH").unwrap(),
        vec![Field::Time, Field::Depth]
    );
    assert_eq!(
        parse_fields("time,bogus,hr,nix").unwrap_err().message(),
        "Unknown fields in --fields: bogus, nix. Allowed: depth, hr, pressure, temp, time"
    );
    assert_eq!(parse_fields(" , ").unwrap_err().message(), "--fields must not be empty");
}

#[test]
fn a_field_is_found_under_its_own_name() {
    for f in [Field::Time, Field::Depth, Field::Temp, Field::Pressure, Field::Hr] {
        assert_eq!(Field::parse(f.as_str()), Some(f));
    }
}

#[test]
fn parse_column_map_rejects_unknown_key() {
    let map = parse_column_map("time=TIME,depth=Depth").unwrap();
    assert_eq!(map.get("time").unwrap(), "TIME");
    assert!(parse_column_map("bogus=Foo").is_err());
    assert!(parse_column_map("time=").is_err());
}

#[test]
fn column_map_errors_say_what_was_wrong() {
    assert_eq!(
        parse_column_map("time").unwrap_err().message(),
        "--column-map format: key=ColumnName, e.g. time=TIME,depth=Depth"
    );
    assert_eq!(
        parse_column_map("bogus=Foo").unwrap_err().message(),
        "Unknown column-map key: bogus"
    );
    assert_eq!(
        parse_column_map("time= ").unwrap_err().message(),
        "Column name in --column-map must not be empty"
    );
    let map = parse_column_map(" time = A , ,time=B").unwrap();
    assert_eq!(map.get("time").unwrap(), "B");
    assert!(map.get("depth").is_none());
    assert!(parse_column_map("  ").unwrap().get("time").is_none());
}

#[test]
fn loads_real_dive_csv_fixture() {
    let samples = load_samples(DIVE_CSV.as_bytes(), &ColumnMap::new()).unwrap();
    assert!(!samples.is_empty());
    // sorted ascending by elapsed_sec
    for pair in samples.windows(2) {
        assert!(pair[0].elapsed_sec.le(pair[1].elapsed_sec));
    }
    // the first sample: 0:10 -> 10s, depth 1.1m, no temp/pressure
    assert_eq!(samples[0].elapsed_sec, num(10.0));
    assert_eq!(samples[0].depth_m, Some(num(1.1)));
    assert_eq!(samples[0].temp_c, None);
    assert_eq!(samples[1].pressure_bar, Some(num(200.0)));
    assert_eq!(samples[1].heart_rate, Some(num(70.0)));
    assert_eq!(samples[2].temp_c, Some(num(24.0)));
}

#[test]
fn column_map_override_takes_precedence() {
    let mut map = ColumnMap::new();
    map.insert("depth".to_string(), "sample depth (m)".to_string());
    let samples = load_samples(DIVE_CSV.as_bytes(), &map).unwrap();
    assert!(!samples.is_empty());
    map.insert("depth".to_string(), "SAMPLE TIME (min)".to_string());
    let samples = load_samples("sample time (min),x\n7,9\n".as_bytes(), &map).unwrap();
    assert_eq!(samples[0].depth_m, Some(num(7.0)));
}

#[test]
fn a_byte_order_mark_and_quotes_do_not_count() {
    let bytes = "\u{feff}\" time \",depth\n\"0:05\",\"3,5\"\n".as_bytes();
    assert_eq!(read_csv_headers(bytes).unwrap(), vec!["time".to_string(), "depth".to_string()]);
    let samples = load_samples(bytes, &ColumnMap::new()).unwrap();
    assert_eq!(samples.len(), 1);
    assert_eq!(samples[0].elapsed_sec, num(5.0));
    assert_eq!(samples[0].depth_m, Some(num(3.5)));
}

#[test]
fn logs_that_cannot_be_read_say_why() {
    let map = ColumnMap::new();
    assert!(matches!(load_samples(b"", &map), Err(CoreError::NoHeader)));
    assert!(matches!(load_samples(b"depth\n1\n", &map), Err(CoreError::MissingTimeColumn)));
    assert!(matches!(load_samples(b"time\n1\n", &map), Err(CoreError::MissingDepthColumn)));
    assert!(matches!(load_samples(b"time,depth\n,1\n", &map), Err(CoreError::NoSamples)));
    assert!(matches!(load_samples(b"time,depth\nx,1\n", &map), Err(CoreError::InvalidDuration(_))));
    assert!(matches!(load_samples(b"time,depth\n1,\xff\n", &map), Err(CoreError::Csv(_))));
    assert!(matches!(read_csv_headers(b"\xff\n"), Err(CoreError::Csv(_))));
    let mut wrong = ColumnMap::new();
    wrong.insert("hr".to_string(), "pulse".to_string());
    match load_samples(b"x\n1\n", &wrong) {
        Err(e) => assert_eq!(e.message(), "Column 'pulse' not found"),
        Ok(_) => panic!("a column that does not exist was found"),
    }
    assert_eq!(CoreError::NoHeader.message(), "CSV has no header row");
    assert_eq!(CoreError::NoSamples.message(), "CSV contains no usable samples");
    match read_csv_headers(b"\xff\n") {
        Err(e) => assert!(e.message().starts_with("CSV error: ") && e.message().len() > 11),
        Ok(_) => panic!("bytes that are no text were read"),
    }
}

#[test]
fn times_without_an_order_are_refused() {
    let map = ColumnMap::new();
    assert!(load_samples_checked(b"time,depth\nnan,1\n2,3\n", &map).is_none());
    assert_eq!(load_samples_checked(b"time,depth\nnan,1\n", &map).unwrap().unwrap().len(), 1);
    assert_eq!(load_samples_checked(b"time,depth\n4,1\n2,3\n", &map).unwrap().unwrap().len(), 2);
    assert!(load_samples_checked(b"time\n4\n", &map).unwrap().is_err());
}

#[test]
fn samples_at_the_same_time_keep_their_order() {
    let headers = vec!["time".to_string(), "depth".to_string()];
    let rows = vec![
        Ok(vec!["5".to_string(), "1".to_string()]),
        Ok(vec!["3".to_string(), "2".to_string()]),
        Ok(vec!["5".to_string(), "3".to_string()]),
        Ok(vec!["3".to_string()]),
    ];
    let samples = samples_from_rows(&headers, rows, &ColumnMap::new()).unwrap();
    let depths: Vec<Option<Real>> = samples.iter().map(|s| s.depth_m).collect();
    assert_eq!(
        depths,
        vec![Some(num(2.0)), None, Some(num(1.0)), Some(num(3.0))]
    );
}

#[test]
fn the_columns_of_date_and_clock_are_found() {
    let (date, clock) = read_csv_datetime_columns(b"Datum,Zeit,depth\n1,2,3\n").unwrap();
    assert_eq!(date.as_deref(), Some("Datum"));
    assert_eq!(clock.as_deref(), Some("Zeit"));
    let (date, clock) = read_csv_datetime_columns(b"depth\n3\n").unwrap();
    assert_eq!(date, None);
    assert_eq!(clock, None);
    assert!(matches!(read_csv_datetime_columns(b""), Err(CoreError::NoHeader)));
}

#[test]
fn the_first_row_is_read_by_column() {
    let bytes = b"Date,Clock\n \"2025-07-05\" ,15:32\n2,3\n";
    assert_eq!(
        read_first_row_columns(bytes, &["clock", "DATE", "none"]).unwrap(),
        Some(vec!["15:32".to_string(), "2025-07-05".to_string(), "".to_string()])
    );
    assert_eq!(read_first_row_columns(b"a,b\n", &["a"]).unwrap(), None);
    assert!(matches!(read_first_row_columns(b"a\n\xff\n", &["a"]), Err(CoreError::Csv(_))));
}

#[test]
fn a_written_duration_is_read_back() {
    for total in [0u64, 59, 60, 3599, 3600, 86_399, 360_000, 1 << 40] {
        let written = format_duration(num(total as f64));
        assert_eq!(parse_duration_to_seconds(&written).unwrap(), num(total as f64), "{written}");
    }
}
