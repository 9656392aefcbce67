use pastebuff::config::{parse_args, parse_level, ArgsError, Config, LogLevel};
use pastebuff::text::{decimal_text, parse_number, same_text};

fn args(list: &[&str]) -> Vec<String> {
    list.iter().map(|s| s.to_string()).collect()
}

fn parsed(list: &[&str]) -> Config {
    parse_args(&args(list)).unwrap()
}

fn refused(list: &[&str]) -> ArgsError {
    parse_args(&args(list)).unwrap_err()
}

#[test]
fn defaults() {
    let config = Config::default();
    assert_eq!(config.port, 7884);
    assert_eq!(config.log_level, LogLevel::Info);
    assert_eq!(config.store_size, 200);
    assert_eq!(config.db_file, "pastebuff.db");
}

#[test]
fn no_options_gives_the_defaults() {
    for list in [&[][..], &["server"][..], &["server", "stray"][..]] {
        let config = parsed(list);
        assert_eq!(config.port, 7884);
        assert_eq!(config.log_level, LogLevel::Info);
        assert_eq!(config.store_size, 200);
        assert_eq!(config.db_file, "pastebuff.db");
    }
}

#[test]
fn port_is_set_by_either_spelling() {
    assert_eq!(parsed(&["server", "-p", "8080"]).port, 8080);
    assert_eq!(parsed(&["server", "--port", "1"]).port, 1);
    assert_eq!(parsed(&["server", "-p", "65535"]).port, 65535);
    assert_eq!(parsed(&["server", "-p", "0"]).port, 0);
    assert_eq!(parsed(&["server", "-p", "+80"]).port, 80);
    assert_eq!(parsed(&["server", "-p", "00080"]).port, 80);
}

#[test]
fn a_port_that_is_no_port_is_refused() {
    for bad in ["65536", "99999999999999999999", "", "+", "-1", "80 ", " 80", "8o", "0x50", "８０", "++1", "1_000"] {
        assert_eq!(refused(&["server", "-p", bad]), ArgsError::InvalidPort);
        assert_eq!(refused(&["server", "--port", bad, "-s", "1"]), ArgsError::InvalidPort);
    }
}

#[test]
fn log_level_is_set_by_name() {
    assert_eq!(parsed(&["server", "-l", "trace"]).log_level, LogLevel::Trace);
    assert_eq!(parsed(&["server", "-l", "debug"]).log_level, LogLevel::Debug);
    assert_eq!(parsed(&["server", "--log-level", "info"]).log_level, LogLevel::Info);
    assert_eq!(parsed(&["server", "--log-level", "warn"]).log_level, LogLevel::Warn);
    assert_eq!(parsed(&["server", "-l", "error"]).log_level, LogLevel::Error);
}

#[test]
fn an_unknown_log_level_is_refused() {
    for bad in ["", "Info", "verbose", "off", "warning"] {
        assert_eq!(refused(&["server", "-l", bad]), ArgsError::InvalidLogLevel);
    }
}

#[test]
fn store_size_is_set() {
    assert_eq!(parsed(&["server", "-s", "5"]).store_size, 5);
    assert_eq!(parsed(&["server", "--store-size", "4294967295"]).store_size, 4294967295);
}

#[test]
fn a_store_size_that_is_no_size_is_refused() {
    for bad in ["4294967296", "-5", "five", ""] {
        assert_eq!(refused(&["server", "-s", bad]), ArgsError::InvalidStoreSize);
    }
}

#[test]
fn db_file_is_set() {
    assert_eq!(parsed(&["server", "--db", "cache.db"]).db_file, "cache.db");
}

#[test]
fn the_operand_of_db_is_read_again_as_an_option() {
    let config = parsed(&["server", "--db", "-p", "9000"]);
    assert_eq!(config.db_file, "-p");
    assert_eq!(config.port, 9000);
}

#[test]
fn an_option_in_the_last_place_is_passed_over() {
    let config = parsed(&["server", "-l", "debug", "-p"]);
    assert_eq!(config.log_level, LogLevel::Debug);
    assert_eq!(config.port, 7884);
}

#[test]
fn a_consumed_operand_is_not_read_as_an_option() {
    assert_eq!(refused(&["server", "-p", "-s", "7"]), ArgsError::InvalidPort);
    let config = parsed(&["server", "-s", "7", "-p", "9"]);
    assert_eq!(config.store_size, 7);
    assert_eq!(config.port, 9);
}

#[test]
fn options_combine_and_the_last_one_wins() {
    let config = parsed(&[
        "server", "-p", "1000", "x", "--db", "a.db", "-l", "warn", "-s", "9", "--port", "2000",
    ]);
    assert_eq!(config.port, 2000);
    assert_eq!(config.log_level, LogLevel::Warn);
    assert_eq!(config.store_size, 9);
    assert_eq!(config.db_file, "a.db");
}

#[test]
fn the_first_bad_operand_ends_the_reading() {
    assert_eq!(refused(&["server", "-l", "loud", "-p", "x"]), ArgsError::InvalidLogLevel);
    assert_eq!(refused(&["server", "-p", "x", "-l", "loud"]), ArgsError::InvalidPort);
}

#[test]
fn the_program_name_is_read_like_any_argument() {
    assert_eq!(parsed(&["-p", "81"]).port, 81);
}

#[test]
fn complaints() {
    assert_eq!(ArgsError::InvalidPort.message(), "Invalid port argument");
    assert_eq!(ArgsError::InvalidLogLevel.message(), "Invalid log level argument");
    assert_eq!(ArgsError::InvalidStoreSize.message(), "Invalid store size argument");
}

#[test]
fn levels_by_name() {
    assert_eq!(parse_level("warn"), Some(LogLevel::Warn));
    assert_eq!(parse_level("WARN"), None);
}

#[test]
fn numbers_are_read_as_the_standard_library_reads_them() {
    for text in ["0", "7", "+7", "007", "65535", "65536", "4294967295", "4294967296", "", "+", "-0", "1a", "a1", " 1", "１"] {
        assert_eq!(parse_number(text, u32::MAX), text.parse::<u32>().ok(), "{:?}", text);
        assert_eq!(
            parse_number(text, 65535),
            text.parse::<u16>().ok().map(|n| n as u32),
            "{:?}",
            text
        );
    }
    assert_eq!(parse_number("10", 9), None);
    assert_eq!(parse_number("9", 9), Some(9));
}

#[test]
fn numbers_are_written_in_decimal() {
    assert_eq!(decimal_text(0), "0");
    assert_eq!(decimal_text(7), "7");
    assert_eq!(decimal_text(10), "10");
    assert_eq!(decimal_text(1905), "1905");
    assert_eq!(decimal_text(u64::MAX), "18446744073709551615");
    for n in [0u64, 9, 99, 100, 12345, 1 << 40] {
        assert_eq!(decimal_text(n), n.to_string());
        assert_eq!(parse_number(&decimal_text(n % 1000), 1000), Some((n % 1000) as u32));
    }
}

#[test]
fn texts_are_compared_by_content() {
    assert!(same_text("", ""));
    assert!(same_text("--port", "--port"));
    assert!(!same_text("--port", "--porT"));
    assert!(!same_text("-p", "-p "));
    assert!(same_text("é", "\u{e9}"));
    assert!(!same_text("é", "e\u{301}"));
}
