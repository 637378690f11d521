use train_freight_system::command::{parse_command, parse_number, read_command, split_fields, Command, Rejection};

#[test]
fn parses_each_kind_of_line() {
    assert!(matches!(parse_command("n, a\n"), Command::AddNode(n) if n == "A"));
    match parse_command("E,E1,A,B,30\n") {
        Command::AddEdge(name, a, b, m) => {
            assert_eq!((name.as_str(), a.as_str(), b.as_str(), m), ("E1", "A", "B", 30));
        }
        other => panic!("{:?}", other),
    }
    assert!(matches!(parse_command("T,Q1,6,B"), Command::AddTrain(n, 6, at) if n == "Q1" && at == "B"));
    assert!(matches!(parse_command("P,K1,5,A,C"), Command::AddPackage(n, 5, a, c) if n == "K1" && a == "A" && c == "C"));
    assert!(matches!(parse_command("x\n"), Command::Deliver));
    assert!(matches!(parse_command("C"), Command::Clear));
    assert!(matches!(parse_command("?"), Command::Help));
    assert!(matches!(parse_command(""), Command::Help));
}

#[test]
fn refuses_malformed_lines() {
    assert!(matches!(read_command("N"), Command::Invalid(Rejection::NodeEntry)));
    assert!(matches!(read_command("N, "), Command::Invalid(Rejection::NodeEntry)));
    assert!(matches!(read_command("E,E1,A,B"), Command::Invalid(Rejection::EdgeEntry)));
    assert!(matches!(read_command("E,E1,A,B,X"), Command::Invalid(Rejection::TravelTime)));
    assert!(matches!(read_command("T,Q1,B"), Command::Invalid(Rejection::TrainEntry)));
    assert!(matches!(read_command("T,Q1,-1,B"), Command::Invalid(Rejection::Capacity)));
    assert!(matches!(read_command("P,K1,5,A"), Command::Invalid(Rejection::PackageEntry)));
    assert!(matches!(read_command("P,K1,99999999999,A,B"), Command::Invalid(Rejection::Weight)));
}

#[test]
fn numbers_read_like_parse() {
    assert_eq!(parse_number("42"), Some(42));
    assert_eq!(parse_number("+7"), Some(7));
    assert_eq!(parse_number("4294967295"), Some(u32::MAX));
    assert_eq!(parse_number("4294967296"), None);
    assert_eq!(parse_number(""), None);
    assert_eq!(parse_number("+"), None);
    assert_eq!(parse_number("1a"), None);
}

#[test]
fn fields_are_split_and_trimmed() {
    assert_eq!(split_fields(" a , b,,c \n"), vec!["a", "b", "", "c"]);
    assert_eq!(split_fields(""), vec![""]);
}
