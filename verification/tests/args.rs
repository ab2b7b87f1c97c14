use rats::args::{parse_arguments, parse_bounded, parse_number, ArgumentError};
use rats::context::{ServerContext, Stats};

fn strings(items: &[&str]) -> Vec<String> {
    items.iter().map(|s| s.to_string()).collect()
}

#[test]
fn bounded_numbers_are_read() {
    assert_eq!(parse_bounded("0", 10), Some(0));
    assert_eq!(parse_bounded("10", 10), Some(10));
    assert_eq!(parse_bounded("11", 10), None);
    assert_eq!(parse_bounded("0010", 10), Some(10));
    assert_eq!(parse_bounded("", 10), None);
    assert_eq!(parse_bounded("+1", 10), None);
    assert_eq!(parse_bounded("-1", 10), None);
    assert_eq!(parse_bounded("1 ", 10), None);
    assert_eq!(parse_bounded("4294967295", u32::MAX), Some(u32::MAX));
    assert_eq!(parse_bounded("4294967296", u32::MAX), None);
    assert_eq!(parse_bounded("99999999999999999999999999", u32::MAX), None);
    assert_eq!(parse_bounded("1x", u32::MAX), None);
}

#[test]
fn numbers_may_carry_a_plus_sign() {
    assert_eq!(parse_number("7", 10), Some(7));
    assert_eq!(parse_number("+7", 10), Some(7));
    assert_eq!(parse_number("+007", 10), Some(7));
    assert_eq!(parse_number("+", 10), None);
    assert_eq!(parse_number("++7", 10), None);
    assert_eq!(parse_number("-7", 10), None);
    assert_eq!(parse_number("7+", 10), None);
    assert_eq!(parse_number("+11", 10), None);
    assert_eq!(parse_number("", 10), None);
}

#[test]
fn server_arguments_are_read() {
    let parsed = parse_arguments(&strings(&["ratsserver", "+12", "hello"])).unwrap();
    assert_eq!(parsed.maxconns, 12);
    let parsed = parse_arguments(&strings(&["ratsserver", "4", "hello"])).unwrap();
    assert_eq!(parsed.maxconns, 4);
    assert_eq!(parsed.message, "hello");
    assert_eq!(parsed.port, None);
    let parsed = parse_arguments(&strings(&["ratsserver", "10000", "hi there", "8080"])).unwrap();
    assert_eq!(parsed.maxconns, 10000);
    assert_eq!(parsed.message, "hi there");
    assert_eq!(parsed.port, Some(String::from("8080")));
    let parsed = parse_arguments(&strings(&["ratsserver", "1", "m", "0"])).unwrap();
    assert_eq!(parsed.port, Some(String::from("0")));
}

#[test]
fn wrong_server_arguments_are_a_usage_error() {
    for args in [
        vec![],
        vec!["ratsserver"],
        vec!["ratsserver", "4"],
        vec!["ratsserver", "4", "m", "80", "extra"],
        vec!["ratsserver", "", "m"],
        vec!["ratsserver", "4", ""],
        vec!["ratsserver", "4", "m", ""],
        vec!["ratsserver", "0", "m"],
        vec!["ratsserver", "10001", "m"],
        vec!["ratsserver", "-4", "m"],
        vec!["ratsserver", "four", "m"],
        vec!["ratsserver", "4x", "m", "99999"],
    ] {
        let error = parse_arguments(&strings(&args)).unwrap_err();
        assert_eq!(error, ArgumentError::Usage);
        assert_eq!(error.status(), 8);
    }
}

#[test]
fn a_port_out_of_range_has_its_own_status() {
    for port in ["65536", "99999", "port", "-1", "80 "] {
        let error = parse_arguments(&strings(&["ratsserver", "4", "m", port])).unwrap_err();
        assert_eq!(error, ArgumentError::Port);
        assert_eq!(error.status(), 17);
    }
    assert!(parse_arguments(&strings(&["ratsserver", "4", "m", "65535"])).is_ok());
}

#[test]
fn counters_are_reported_line_by_line() {
    let stats = Stats {
        current_connected: 3,
        total_connected: 12,
        running_games: 1,
        games_started: 4,
        games_completed: 2,
        games_terminated: 1,
        total_tricks: 31,
        max_connections: 8,
    };
    assert_eq!(
        stats.report(),
        "Players connected: 3\nTotal connected players: 12\nRunning games: 1\n\
         Games completed: 2\nGames terminated: 1\nTotal tricks: 31\n"
    );
}

#[test]
fn a_new_server_reports_zeros() {
    let ctx = ServerContext::new(5, String::from("hi"), 1);
    let stats = ctx.stats();
    assert_eq!(
        stats,
        Stats {
            current_connected: 0,
            total_connected: 0,
            running_games: 0,
            games_started: 0,
            games_completed: 0,
            games_terminated: 0,
            total_tricks: 0,
            max_connections: 5,
        }
    );
    assert_eq!(
        stats.report(),
        "Players connected: 0\nTotal connected players: 0\nRunning games: 0\n\
         Games completed: 0\nGames terminated: 0\nTotal tricks: 0\n"
    );
}
