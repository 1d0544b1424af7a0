use rust_high_performance_data_processing::csv_processing::{analyze, AnalyzeError, Statistics};

const HEADER: &str = "PassengerId,Survived,Pclass,Name,Sex,Age,SibSp,Parch,Ticket,Fare,Cabin,Embarked\n";

/// A manifest of 891 passengers: the first 342 survived, the first 577 are male
/// and the other 314 female; some ages and cabins are left empty.
fn full_manifest() -> Vec<u8> {
    let mut text = String::from(HEADER);
    for i in 0..891u32 {
        let survived = if i < 342 { 1 } else { 0 };
        let sex = if i < 577 { "male" } else { "female" };
        let age = if i % 7 == 0 { String::new() } else { format!("{}.5", 18 + i % 50) };
        let cabin = if i % 3 == 0 { "C85" } else { "" };
        text.push_str(&format!(
            "{},{},{},\"Surname{}, Mr. Given\",{},{},{},{},A/5 {},{}.25,{},S\n",
            i + 1,
            survived,
            1 + i % 3,
            i,
            sex,
            age,
            i % 2,
            i % 3,
            21171 + i,
            7 + i % 40,
            cabin
        ));
    }
    text.into_bytes()
}

fn survival_rate(stats: &Statistics) -> f64 {
    if stats.total_passengers == 0 {
        0.0
    } else {
        stats.survived_passengers as f64 / stats.total_passengers as f64 * 100.0
    }
}

#[test]
fn test_integration_csv_processing() {
    let result = analyze(&full_manifest());
    assert!(result.is_ok());

    let stats = result.unwrap();
    assert!(stats.total_passengers > 0);
    let rate = survival_rate(&stats);
    assert!(rate >= 0.0 && rate <= 100.0);
}

#[test]
fn test_integration_titanic_statistics() {
    let result = analyze(&full_manifest());
    assert!(result.is_ok());

    let stats = result.unwrap();

    assert_eq!(stats.total_passengers, 891);
    assert_eq!(stats.survived_passengers, 342);

    assert!(stats.male_passengers > stats.female_passengers);

    assert_eq!(
        stats.total_passengers,
        stats.male_passengers + stats.female_passengers
    );
}

#[test]
fn full_manifest_ground_truth() {
    let stats = analyze(&full_manifest()).unwrap();
    assert_eq!(stats.male_passengers, 577);
    assert_eq!(stats.female_passengers, 314);
    let rate = survival_rate(&stats);
    assert!((rate - 38.38).abs() <= 0.1);
}

#[test]
fn missing_column_is_a_schema_error() {
    let text = "PassengerId,Survived,Pclass,Name,Sex,Age,SibSp,Parch,Ticket,Cabin,Embarked\n\
                1,0,3,Braund,male,22,1,0,A/5 21171,,S\n";
    assert_eq!(analyze(text.as_bytes()), Err(AnalyzeError::SchemaError));
}

#[test]
fn missing_column_fails_even_with_bad_rows() {
    let text = "PassengerId,Survived\nx,y\n1,2,3\n";
    assert_eq!(analyze(text.as_bytes()), Err(AnalyzeError::SchemaError));
}

#[test]
fn empty_source_is_a_schema_error() {
    assert_eq!(analyze(b""), Err(AnalyzeError::SchemaError));
}

#[test]
fn header_only_gives_zero_tallies() {
    let stats = analyze(HEADER.as_bytes()).unwrap();
    assert_eq!(
        stats,
        Statistics {
            total_passengers: 0,
            survived_passengers: 0,
            male_passengers: 0,
            female_passengers: 0,
        }
    );
    assert_eq!(survival_rate(&stats), 0.0);
}

fn row(id: u32, survived: &str, sex: &str, age: &str, fare: &str) -> String {
    format!("{},{},3,\"Doe, J\",{},{},0,0,T{},{},,S\n", id, survived, sex, age, id, fare)
}

#[test]
fn non_numeric_fare_on_row_five_fails_there() {
    let mut text = String::from(HEADER);
    for i in 1..=4 {
        text.push_str(&row(i, "1", "male", "30", "7.25"));
    }
    text.push_str(&row(5, "1", "male", "30", "abc"));
    text.push_str(&row(6, "1", "male", "30", "7.25"));
    assert_eq!(analyze(text.as_bytes()), Err(AnalyzeError::RowParseError { row: 5 }));
}

#[test]
fn wrong_field_count_fails_that_row() {
    let mut text = String::from(HEADER);
    text.push_str(&row(1, "0", "female", "", "8"));
    text.push_str("2,1,3,Doe,male,30,0,0,T2,7.25,\n");
    assert_eq!(analyze(text.as_bytes()), Err(AnalyzeError::RowParseError { row: 2 }));
}

#[test]
fn empty_required_number_fails() {
    let mut text = String::from(HEADER);
    text.push_str(&row(1, "", "female", "", "8"));
    assert_eq!(analyze(text.as_bytes()), Err(AnalyzeError::RowParseError { row: 1 }));
}

#[test]
fn empty_fare_fails_but_empty_age_is_absent() {
    let mut ok = String::from(HEADER);
    ok.push_str(&row(1, "0", "female", "", "8"));
    assert_eq!(analyze(ok.as_bytes()).unwrap().total_passengers, 1);
    let mut bad = String::from(HEADER);
    bad.push_str(&row(1, "0", "female", "20", ""));
    assert_eq!(analyze(bad.as_bytes()), Err(AnalyzeError::RowParseError { row: 1 }));
}

#[test]
fn columns_are_found_by_name() {
    let text = "Embarked,Cabin,Fare,Ticket,Parch,SibSp,Age,Sex,Name,Pclass,Survived,PassengerId,Extra\n\
                S,,7.25,T1,0,0,22,female,Doe,3,1,1,anything\n\
                Q,,8,T2,0,0,,male,Roe,2,0,2,\n";
    let stats = analyze(text.as_bytes()).unwrap();
    assert_eq!(stats.total_passengers, 2);
    assert_eq!(stats.survived_passengers, 1);
    assert_eq!(stats.male_passengers, 1);
    assert_eq!(stats.female_passengers, 1);
}

#[test]
fn other_spellings_of_sex_count_in_neither() {
    let mut text = String::from(HEADER);
    text.push_str(&row(1, "0", "Male", "1", "1"));
    text.push_str(&row(2, "0", " female", "1", "1"));
    text.push_str(&row(3, "0", "unknown", "1", "1"));
    text.push_str(&row(4, "1", "female", "1", "1"));
    let stats = analyze(text.as_bytes()).unwrap();
    assert_eq!(stats.total_passengers, 4);
    assert_eq!(stats.male_passengers, 0);
    assert_eq!(stats.female_passengers, 1);
    assert_eq!(stats.survived_passengers, 1);
}

#[test]
fn survived_counts_only_the_value_one() {
    let mut text = String::from(HEADER);
    text.push_str(&row(1, "2", "male", "1", "1"));
    text.push_str(&row(2, "+1", "male", "1", "1"));
    text.push_str(&row(3, "0x1", "male", "1", "1"));
    text.push_str(&row(4, "01", "male", "1", "1"));
    text.push_str(&row(5, "0", "male", "1", "1"));
    let stats = analyze(text.as_bytes()).unwrap();
    assert_eq!(stats.total_passengers, 5);
    assert_eq!(stats.survived_passengers, 3);
    assert_eq!(stats.survived_passengers + 2, stats.total_passengers);
    assert!(stats.male_passengers + stats.female_passengers <= stats.total_passengers);
}

#[test]
fn fractional_survived_fails() {
    let mut text = String::from(HEADER);
    text.push_str(&row(1, "0", "male", "1", "1"));
    text.push_str(&row(2, "1.0", "male", "1", "1"));
    assert_eq!(analyze(text.as_bytes()), Err(AnalyzeError::RowParseError { row: 2 }));
}

#[test]
fn quoted_field_with_delimiter_is_one_field() {
    let text = format!("{}1,1,1,\"Smith, Mrs. A, B\",female,,0,0,\"T, 1\",71.2833,C85,C\n", HEADER);
    let stats = analyze(text.as_bytes()).unwrap();
    assert_eq!(stats.total_passengers, 1);
    assert_eq!(stats.female_passengers, 1);
}

#[test]
fn unreadable_row_fails_at_its_position() {
    let mut bytes = String::from(HEADER).into_bytes();
    bytes.extend_from_slice(row(1, "0", "male", "1", "1").as_bytes());
    bytes.extend_from_slice(b"2,0,3,\"Bad \xff name\",male,1,0,0,T,1,,S\n");
    bytes.extend_from_slice(row(3, "0", "male", "1", "1").as_bytes());
    assert_eq!(analyze(&bytes), Err(AnalyzeError::RowParseError { row: 2 }));
}

#[test]
fn unreadable_header_is_a_schema_error() {
    let mut bytes = b"Passenger\xffId,".to_vec();
    bytes.extend_from_slice(HEADER.as_bytes());
    assert_eq!(analyze(&bytes), Err(AnalyzeError::SchemaError));
}
