use sokoban_solver::config::{CliError, Format, Method};

#[test]
fn method_names_round_trip() {
    for m in [
        Method::MovesPushes,
        Method::Moves,
        Method::PushesMoves,
        Method::Pushes,
        Method::Any,
    ] {
        assert_eq!(Method::from_str(&m.to_string()).unwrap(), m);
    }
    assert_eq!(Method::MovesPushes.to_string(), "moves-pushes");
    assert_eq!(Method::Any.to_string(), "any");
}

#[test]
fn unknown_option_names() {
    assert!(Method::from_str("fastest").is_err());
    assert!(Method::from_str("").is_err());
    assert!(Format::from_str("sok").is_err());
    assert_eq!(Format::from_str("xsb").unwrap(), Format::Xsb);
    assert_eq!(Format::from_str("custom").unwrap(), Format::Custom);
    assert_eq!(CliError.to_string(), "failed to parse");
}
