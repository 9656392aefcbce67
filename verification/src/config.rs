//! The server's settings, and how its command line sets them.

use crate::text::{parse_number, parsed_number, same_text};
use vstd::prelude::*;

verus! {

/// How much the server logs.
#[derive(Debug, Clone, Copy, PartialEq, Eq)]
pub enum LogLevel {
    Trace,
    Debug,
    Info,
    Warn,
    Error,
}

/// The server's settings.
#[derive(Debug)]
pub struct Config {
    /// The port to listen on.
    pub port: u16,
    /// How much to log.
    pub log_level: LogLevel,
    /// The number of entries the cache can hold.
    pub store_size: u32,
    /// The name of the database file.
    pub db_file: String,
}

/// A [`Config`] as plain values.
pub struct ConfigView {
    pub port: u16,
    pub log_level: LogLevel,
    pub store_size: u32,
    pub db_file: Seq<char>,
}

impl View for Config {
    type V = ConfigView;

    open spec fn view(&self) -> ConfigView {
        ConfigView {
            port: self.port,
            log_level: self.log_level,
            store_size: self.store_size,
            db_file: self.db_file@,
        }
    }
}

/// An argument that the command line gives for an option and that the option
/// cannot take.
#[derive(Debug, Clone, Copy, PartialEq, Eq)]
pub enum ArgsError {
    /// What follows `-p` or `--port` is not a number from 0 to 65535.
    InvalidPort,
    /// What follows `-l` or `--log-level` is not the name of a log level.
    InvalidLogLevel,
    /// What follows `-s` or `--store-size` is not a number from 0 to
    /// 4294967295.
    InvalidStoreSize,
}

impl ArgsError {
    /// The complaint to show for this error.
    pub open spec fn spec_message(&self) -> Seq<char> {
        match self {
            ArgsError::InvalidPort => "Invalid port argument"@,
            ArgsError::InvalidLogLevel => "Invalid log level argument"@,
            ArgsError::InvalidStoreSize => "Invalid store size argument"@,
        }
    }

    /// The complaint to show for this error.
    pub fn message(&self) -> (result: &'static str)
        ensures
            result@ == self.spec_message(),
    {
        match self {
            ArgsError::InvalidPort => "Invalid port argument",
            ArgsError::InvalidLogLevel => "Invalid log level argument",
            ArgsError::InvalidStoreSize => "Invalid store size argument",
        }
    }
}

/// The settings of a server that was given no option.
pub open spec fn default_view() -> ConfigView {
    ConfigView {
        port: 7884,
        log_level: LogLevel::Info,
        store_size: 200,
        db_file: "pastebuff.db"@,
    }
}

/// The log level that `text` names, if it names one.
pub open spec fn parsed_level(text: Seq<char>) -> Option<LogLevel> {
    if text == "trace"@ {
        Some(LogLevel::Trace)
    } else if text == "debug"@ {
        Some(LogLevel::Debug)
    } else if text == "info"@ {
        Some(LogLevel::Info)
    } else if text == "warn"@ {
        Some(LogLevel::Warn)
    } else if text == "error"@ {
        Some(LogLevel::Error)
    } else {
        None
    }
}

/// The settings that the arguments from position `at` on turn `config` into.
///
/// The arguments are read left to right. An option is recognised wherever it
/// stands but in the last place, where nothing could follow it, and takes the
/// argument after it. The options that take a number or a level consume that
/// argument; `--db` leaves it to be read again as a possible option. Anything
/// else is passed over. The first argument that an option cannot take ends
/// the reading.
pub open spec fn parse_from(args: Seq<Seq<char>>, at: int, config: ConfigView) -> Result<
    ConfigView,
    ArgsError,
>
    decreases args.len() - at,
{
    if at < 0 || at + 1 >= args.len() {
        Ok(config)
    } else {
        let option = args[at];
        let operand = args[at + 1];
        if option == "-p"@ || option == "--port"@ {
            match parsed_number(operand, u16::MAX as nat) {
                Some(port) => parse_from(
                    args,
                    at + 2,
                    ConfigView { port: port as u16, ..config },
                ),
                None => Err(ArgsError::InvalidPort),
            }
        } else if option == "-l"@ || option == "--log-level"@ {
            match parsed_level(operand) {
                Some(level) => parse_from(args, at + 2, ConfigView { log_level: level, ..config }),
                None => Err(ArgsError::InvalidLogLevel),
            }
        } else if option == "-s"@ || option == "--store-size"@ {
            match parsed_number(operand, u32::MAX as nat) {
                Some(size) => parse_from(
                    args,
                    at + 2,
                    ConfigView { store_size: size as u32, ..config },
                ),
                None => Err(ArgsError::InvalidStoreSize),
            }
        } else if option == "--db"@ {
            parse_from(args, at + 1, ConfigView { db_file: operand, ..config })
        } else {
            parse_from(args, at + 1, config)
        }
    }
}

/// The arguments as plain text.
pub open spec fn texts(args: Seq<String>) -> Seq<Seq<char>> {
    Seq::new(args.len(), |i: int| args[i]@)
}

impl Config {
    /// The settings of a server that was given no option.
    pub fn default() -> (result: Self)
        ensures
            result@ == default_view(),
    {
        Config {
            port: 7884,
            log_level: LogLevel::Info,
            store_size: 200,
            db_file: "pastebuff.db".to_owned(),
        }
    }
}

/// Reads a log level by its name.
pub fn parse_level(text: &str) -> (result: Option<LogLevel>)
    ensures
        result == parsed_level(text@),
{
    if same_text(text, "trace") {
        Some(LogLevel::Trace)
    } else if same_text(text, "debug") {
        Some(LogLevel::Debug)
    } else if same_text(text, "info") {
        Some(LogLevel::Info)
    } else if same_text(text, "warn") {
        Some(LogLevel::Warn)
    } else if same_text(text, "error") {
        Some(LogLevel::Error)
    } else {
        None
    }
}

/// Reads the server's settings off its command line, the program's name
/// included as the first argument.
pub fn parse_args(args: &Vec<String>) -> (result: Result<Config, ArgsError>)
    ensures
        match result {
            Ok(config) => parse_from(texts(args@), 0, default_view()) == Ok::<
                ConfigView,
                ArgsError,
            >(config@),
            Err(error) => parse_from(texts(args@), 0, default_view()) == Err::<
                ConfigView,
                ArgsError,
            >(error),
        },
{
    let mut config = Config::default();
    let mut n: usize = 0;
    let ghost all = texts(args@);
    while n < args.len() && n + 1 < args.len()
        invariant
            n <= args@.len(),
            all == texts(args@),
            parse_from(all, 0, default_view()) == parse_from(all, n as int, config@),
        decreases args@.len() - n,
    {
        let option = args[n].as_str();
        let operand = args[n + 1].as_str();
        assert(all[n as int] == option@ && all[n + 1] == operand@);
        if same_text(option, "-p") || same_text(option, "--port") {
            match parse_number(operand, 65535) {
                Some(port) => {
                    config.port = port as u16;
                    n += 1;
                },
                None => {
                    return Err(ArgsError::InvalidPort);
                },
            }
        } else if same_text(option, "-l") || same_text(option, "--log-level") {
            match parse_level(operand) {
                Some(level) => {
                    config.log_level = level;
                    n += 1;
                },
                None => {
                    return Err(ArgsError::InvalidLogLevel);
                },
            }
        } else if same_text(option, "-s") || same_text(option, "--store-size") {
            match parse_number(operand, u32::MAX) {
                Some(size) => {
                    config.store_size = size;
                    n += 1;
                },
                None => {
                    return Err(ArgsError::InvalidStoreSize);
                },
            }
        } else if same_text(option, "--db") {
            config.db_file = operand.to_owned();
        }
        n += 1;
    }
    Ok(config)
}

} // verus!
