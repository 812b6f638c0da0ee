use airport_graph::table::{extract_pairs, parse_airports, parse_routes, TableError};

const SAMPLE: &str = "index,Airport ID,Name,City,Country,IATA,ICAO,Latitude,Longitude,Altitude,Timezone,DST,Tz database time zone,Type,Source\n0,1,Sample Airport,Sample City,Sample Country,SPL,SPLC,0.0,0.0,0,0,U,UTC,airport,OurAirports\n";

#[test]
fn test_process_airports_file() {
    let result = parse_airports(SAMPLE).unwrap();
    let name = result.iter().find(|(code, _)| code == "SPL").map(|(_, n)| n.as_str());
    assert_eq!(name.unwrap(), "Sample Airport");
}

#[test]
fn routes_are_read_by_column_name() {
    let text = "Airline,Source airport,Destination airport\n2B,AER,KZN\n2B,\"A,B\",KZN\n";
    let routes = parse_routes(text).unwrap();
    assert_eq!(
        routes,
        vec![
            ("AER".to_string(), "KZN".to_string()),
            ("A,B".to_string(), "KZN".to_string())
        ]
    );
}

#[test]
fn empty_text_has_no_records() {
    assert_eq!(parse_routes("").unwrap(), vec![]);
}

#[test]
fn missing_column_is_an_error() {
    match parse_airports("Name,City\nX,Y\n") {
        Err(TableError::MissingColumn(c)) => assert_eq!(c, "IATA"),
        other => panic!("unexpected {:?}", other),
    }
}

#[test]
fn uneven_rows_are_a_csv_error() {
    assert!(matches!(
        parse_routes("Source airport,Destination airport\nAER,KZN,EXTRA\n"),
        Err(TableError::Csv(_))
    ));
}

#[test]
fn short_record_is_reported() {
    let rows = vec![
        vec!["a".to_string(), "b".to_string()],
        vec!["1".to_string(), "2".to_string()],
        vec!["3".to_string()],
    ];
    assert!(matches!(extract_pairs(&rows, "b", "a"), Err(TableError::ShortRecord(1))));
    let ok = extract_pairs(&rows[..2].to_vec(), "b", "a").unwrap();
    assert_eq!(ok, vec![("2".to_string(), "1".to_string())]);
}
