use seatsim::errors::AppError;
use seatsim::models::{seat_type_from_str, seat_type_label, SeatType};
use seatsim::text::{i32_to_string, join_comma, u32_to_string, u64_to_string, usize_to_string};

#[test]
fn decimal_rendering_is_exact() {
    assert_eq!(u64_to_string(0), "0");
    assert_eq!(u64_to_string(7), "7");
    assert_eq!(u64_to_string(30), "30");
    assert_eq!(u64_to_string(1234567890), "1234567890");
    assert_eq!(u64_to_string(u64::MAX), "18446744073709551615");
    assert_eq!(u32_to_string(4294967295), "4294967295");
    assert_eq!(usize_to_string(12), "12");
}

#[test]
fn signed_rendering_handles_negatives() {
    assert_eq!(i32_to_string(0), "0");
    assert_eq!(i32_to_string(42), "42");
    assert_eq!(i32_to_string(-1), "-1");
    assert_eq!(i32_to_string(i32::MIN), "-2147483648");
}

#[test]
fn join_comma_cases() {
    let empty: Vec<String> = vec![];
    assert_eq!(join_comma(&empty), "");
    assert_eq!(join_comma(&vec!["S01".to_string()]), "S01");
    assert_eq!(
        join_comma(&vec!["S01".to_string(), "S02".to_string(), "S03".to_string()]),
        "S01,S02,S03"
    );
}

#[test]
fn error_messages_name_their_kind() {
    assert_eq!(
        AppError::CsvParseError("bad row".to_string()).message(),
        "CSV Parsing Error: bad row"
    );
    assert_eq!(
        AppError::JsonParseError("bad doc".to_string()).message(),
        "JSON Parsing Error: bad doc"
    );
    assert_eq!(
        AppError::SimulationError("no seats configured".to_string()).message(),
        "Simulation Error: no seats configured"
    );
    assert_eq!(AppError::IoError("gone".to_string()).message(), "IO Error: gone");
}

#[test]
fn seat_capacities() {
    assert_eq!(seatsim::models::seat_capacity(SeatType::Single), 1);
    assert_eq!(seatsim::models::seat_capacity(SeatType::Table4), 4);
    assert_eq!(seatsim::models::seat_capacity(SeatType::Table6), 6);
}

#[test]
fn seat_type_vocabulary_round_trips() {
    assert_eq!(seat_type_from_str("SINGLE"), Some(SeatType::Single));
    assert_eq!(seat_type_from_str("4P"), Some(SeatType::Table4));
    assert_eq!(seat_type_from_str("6P"), Some(SeatType::Table6));
    assert_eq!(seat_type_from_str("BOOTH"), None);
    assert_eq!(seat_type_from_str("single"), None);
    for t in [SeatType::Single, SeatType::Table4, SeatType::Table6] {
        assert_eq!(seat_type_from_str(&seat_type_label(t)), Some(t));
    }
}
