//! The configuration of a service: its defaults, what the command line
//! changes in it, and what it asks of the logger.

use std::time::Duration;
use vstd::prelude::*;
use vstd::string::*;
use crate::options::{
    all_fit, described, fail_text, first_value, names_described, opt_count, opt_present, opt_str,
    optflag, optflagmulti, optopt, options_new, options_usage, parse, parsed, usage_text,
    words_of,
};

verus! {

/// What the server of remote calls is set up with.
#[derive(Clone, Debug)]
pub struct GrpcServer {
    pub concurrency_limit_per_connection: Option<usize>,
    pub timeout: Option<Duration>,
    pub tcp_keepalive: Option<Duration>,
    pub reflection: bool,
}

impl Default for GrpcServer {
    /// No limit, no timeout, no keepalive, no reflection.
    fn default() -> (server: Self)
        ensures
            server.concurrency_limit_per_connection is None,
            server.timeout is None,
            server.tcp_keepalive is None,
            !server.reflection,
    {
        GrpcServer {
            concurrency_limit_per_connection: None,
            timeout: None,
            tcp_keepalive: None,
            reflection: false,
        }
    }
}

/// What a service is set up with.
#[derive(Clone, Debug)]
pub struct Service {
    /// Port number to bind when serving.
    pub port: u16,
    /// Hostname to bind to when serving.
    pub hostname: String,
    /// Debug mode prints verbose messages.
    pub debug: bool,
    /// Trace mode prints very verbose messages.
    pub trace: bool,
    /// Logger filters, one directive after another.
    pub logger_filters: String,
    /// What the server of remote calls is set up with.
    pub grpc_server: GrpcServer,
}

/// The place of configuration that a service of its own does not have.
#[derive(Clone, Copy, Debug, Default)]
pub struct Void {}

/// The port of a service that names none.
pub fn default_port() -> (port: u16)
    ensures
        port == 3000,
{
    3000
}

/// The hostname of a service that names none.
pub fn default_hostname() -> (hostname: String)
    ensures
        hostname@ == "0.0.0.0"@,
{
    String::from_str("0.0.0.0")
}

/// The logger filters of a service that names none.
pub fn default_logger_filters() -> (filters: String)
    ensures
        filters@ == "h2=warn,hyper=warn,tower_buffer=warn"@,
{
    String::from_str("h2=warn,hyper=warn,tower_buffer=warn")
}

/// Whether a server set up without a word on reflection offers it.
pub fn default_grpc_reflection() -> (reflection: bool)
    ensures
        reflection,
{
    true
}

/// A service set up with nothing but defaults.
pub open spec fn default_service_spec(service: Service) -> bool {
    &&& service.port == 3000
    &&& service.hostname@ == "0.0.0.0"@
    &&& !service.debug
    &&& !service.trace
    &&& service.logger_filters@ == "h2=warn,hyper=warn,tower_buffer=warn"@
    &&& service.grpc_server.concurrency_limit_per_connection is None
    &&& service.grpc_server.timeout is None
    &&& service.grpc_server.tcp_keepalive is None
    &&& !service.grpc_server.reflection
}

/// The service that an empty configuration describes.
pub fn default_service() -> (service: Service)
    ensures
        default_service_spec(service),
{
    Service {
        port: default_port(),
        hostname: default_hostname(),
        debug: false,
        trace: false,
        logger_filters: default_logger_filters(),
        grpc_server: GrpcServer::default(),
    }
}

/// All that a service is configured with.
#[derive(Clone, Debug)]
pub struct Config {
    /// What the service is set up with.
    pub service: Service,
}

impl Default for Config {
    /// The configuration that an empty file describes.
    fn default() -> (config: Self)
        ensures
            default_service_spec(config.service),
    {
        Config { service: default_service() }
    }
}

/// Why a text is no port number.
#[derive(Clone, Copy, Debug, PartialEq, Eq, Structural)]
pub enum PortError {
    /// The text is empty.
    Empty,
    /// The text holds something that is no decimal digit, or a sign alone.
    InvalidDigit,
    /// The number does not fit in 16 bits.
    TooLarge,
}

impl PortError {
    /// The error as a sentence.
    pub fn message(&self) -> (text: String)
        ensures
            text@ == match *self {
                PortError::Empty => "cannot parse integer from empty string"@,
                PortError::InvalidDigit => "invalid digit found in string"@,
                PortError::TooLarge => "number too large to fit in target type"@,
            },
    {
        match self {
            PortError::Empty => String::from_str("cannot parse integer from empty string"),
            PortError::InvalidDigit => String::from_str("invalid digit found in string"),
            PortError::TooLarge => String::from_str("number too large to fit in target type"),
        }
    }
}

/// `c` is one of the ten decimal digits.
pub open spec fn is_digit(c: char) -> bool {
    '0' <= c <= '9'
}

/// The number that the digit `c` stands for.
pub open spec fn digit_value(c: char) -> int {
    c as int - '0' as int
}

/// Reads `text` from place `i` on as a decimal number that continues
/// `so_far`: stops at the first character that is no digit, or where the
/// number no longer fits in 16 bits, whichever comes first.
pub open spec fn read_digits(text: Seq<char>, i: int, so_far: int) -> Result<u16, PortError>
    decreases text.len() - i,
{
    if i < 0 || i >= text.len() {
        Ok(so_far as u16)
    } else if !is_digit(text[i]) {
        Err(PortError::InvalidDigit)
    } else if so_far * 10 + digit_value(text[i]) > u16::MAX {
        Err(PortError::TooLarge)
    } else {
        read_digits(text, i + 1, so_far * 10 + digit_value(text[i]))
    }
}

/// The port number that `text` writes in decimal digits, with or without a
/// plus sign before them.
pub open spec fn port_of(text: Seq<char>) -> Result<u16, PortError> {
    if text.len() == 0 {
        Err(PortError::Empty)
    } else if text[0] == '+' {
        if text.len() == 1 {
            Err(PortError::InvalidDigit)
        } else {
            read_digits(text, 1, 0)
        }
    } else {
        read_digits(text, 0, 0)
    }
}

/// Reads a port number.
pub fn parse_port(text: &str) -> (r: Result<u16, PortError>)
    ensures
        r == port_of(text@),
{
    let n = text.unicode_len();
    if n == 0 {
        return Err(PortError::Empty);
    }
    let mut i: usize = 0;
    if text.get_char(0) == '+' {
        if n == 1 {
            return Err(PortError::InvalidDigit);
        }
        i = 1;
    }
    let ghost start = i;
    let mut value: u16 = 0;
    while i < n
        invariant
            n == text@.len(),
            start <= i <= n,
            port_of(text@) == read_digits(text@, start as int, 0),
            read_digits(text@, start as int, 0) == read_digits(text@, i as int, value as int),
        decreases n - i,
    {
        let c = text.get_char(i);
        if !(c >= '0' && c <= '9') {
            return Err(PortError::InvalidDigit);
        }
        let digit: u16 = (c as u32 - '0' as u32) as u16;
        if value > 6553 || (value == 6553 && digit > 5) {
            return Err(PortError::TooLarge);
        }
        value = value * 10 + digit;
        i = i + 1;
    }
    Ok(value)
}

/// What the command line says of a service.
#[derive(Clone, Debug, Default)]
pub struct Overrides {
    /// The port, as it was written.
    pub port: Option<String>,
    /// The hostname.
    pub hostname: Option<String>,
    /// How many times the debug flag was given.
    pub debug: usize,
}

/// `after` is `before` with what the command line says put over it: the port
/// and the hostname where they are given, debug mode where the flag was
/// given, and trace mode where it was given more than once.
pub open spec fn overridden(before: Service, over: Overrides, after: Service) -> bool {
    &&& after.port == match over.port {
        Some(text) => port_of(text@)->Ok_0,
        None => before.port,
    }
    &&& after.hostname@ == match over.hostname {
        Some(name) => name@,
        None => before.hostname@,
    }
    &&& after.debug == (before.debug || over.debug > 0)
    &&& after.trace == (before.trace || over.debug > 1)
    &&& after.logger_filters@ == before.logger_filters@
    &&& after.grpc_server == before.grpc_server
}

impl Service {
    /// Puts what the command line says over the service. Fails where the
    /// port given is no port number, and only there.
    pub fn with_overrides(self, over: &Overrides) -> (r: Result<Service, PortError>)
        ensures
            match r {
                Ok(after) => {
                    &&& overridden(self, *over, after)
                    &&& over.port matches Some(text) ==> port_of(text@) is Ok
                },
                Err(e) => over.port matches Some(text) && port_of(text@) == Err::<u16, PortError>(e),
            },
    {
        let mut service = self;
        if let Some(text) = &over.port {
            match parse_port(text.as_str()) {
                Ok(port) => {
                    service.port = port;
                },
                Err(e) => {
                    return Err(e);
                },
            }
        }
        if let Some(name) = &over.hostname {
            service.hostname = name.clone();
        }
        if over.debug > 0 {
            service.debug = true;
            if over.debug > 1 {
                service.trace = true;
            }
        }
        Ok(service)
    }
}

/// What a command line says.
#[derive(Clone, Debug)]
pub struct CommandLine {
    /// The name of the program.
    pub program: String,
    /// Whether help is asked for.
    pub help: bool,
    /// The configuration file that is named.
    pub config: Option<String>,
    /// What is said of the service.
    pub overrides: Overrides,
}

/// A command line does not parse.
#[derive(Clone, Debug)]
pub struct OptionsError {
    /// Why, as a sentence.
    pub text: String,
}

/// The options of a service, in their order: each with its short name, its
/// long name, whether it takes a value, and whether it may be given many
/// times.
pub open spec fn service_options_described() -> Seq<(Seq<char>, Seq<char>, bool, bool)> {
    seq![
        ("c"@, "config"@, true, false),
        ("p"@, "port"@, true, false),
        (""@, "hostname"@, true, false),
        ("d"@, "debug"@, false, true),
        ("h"@, "help"@, false, false),
    ]
}

/// The options of a service: a configuration file, a port, a hostname, the
/// debug flag, which may be given many times, and help.
fn service_options() -> (options: getopts::Options)
    ensures
        described(options) == service_options_described(),
        all_fit(described(options)),
        names_described(described(options)).contains("h"@),
        names_described(described(options)).contains("config"@),
        names_described(described(options)).contains("port"@),
        names_described(described(options)).contains("hostname"@),
        names_described(described(options)).contains("debug"@),
{
    proof {
        reveal_strlit("c");
        reveal_strlit("config");
        reveal_strlit("p");
        reveal_strlit("port");
        reveal_strlit("");
        reveal_strlit("hostname");
        reveal_strlit("d");
        reveal_strlit("debug");
        reveal_strlit("h");
        reveal_strlit("help");
    }
    let mut options = options_new();
    optopt(&mut options, "c", "config", "set TOML config file name", "NAME");
    optopt(&mut options, "p", "port", "set port to bind server", "PORT");
    optopt(&mut options, "", "hostname", "set hostname to bind server", "HOSTNAME");
    optflagmulti(&mut options, "d", "debug", "enable debug");
    optflag(&mut options, "h", "help", "print this help menu");
    proof {
        let names = described(options);
        assert(names =~= service_options_described());
        assert(names[4].0 == "h"@);
        assert(names[0].1 == "config"@);
        assert(names[1].1 == "port"@);
        assert(names[2].1 == "hostname"@);
        assert(names[3].1 == "debug"@);
    }
    options
}

/// What an optional string reads as.
pub open spec fn text_view(text: Option<String>) -> Option<Seq<char>> {
    match text {
        Some(t) => Some(t@),
        None => None,
    }
}

/// `line` is what a command line of the program `program` says, where the
/// parser found `found` in it: help is asked for where `h` was given; the
/// configuration file, the port and the hostname are the values that
/// `config`, `port` and `hostname` were first given with; and the debug flag
/// counts as many times as `debug` was given.
pub open spec fn line_of(
    program: Seq<char>,
    found: Map<Seq<char>, Seq<Option<Seq<char>>>>,
    line: CommandLine,
) -> bool {
    &&& line.program@ == program
    &&& line.help == (found["h"@].len() > 0)
    &&& text_view(line.config) == first_value(found["config"@])
    &&& text_view(line.overrides.port) == first_value(found["port"@])
    &&& text_view(line.overrides.hostname) == first_value(found["hostname"@])
    &&& line.overrides.debug == found["debug"@].len()
}

/// `r` is what the command line `args` reads as by `options`: where the
/// parser finds something in what follows the name of the program, the line
/// of what it finds; where it fails, a failure with the sentence of the
/// parser.
pub open spec fn reads_as(
    options: getopts::Options,
    args: Seq<Seq<char>>,
    r: Result<CommandLine, OptionsError>,
) -> bool {
    match parsed(options, args.skip(1)) {
        Ok(found) => r matches Ok(line) && line_of(args[0], found, line),
        Err(text) => r matches Err(e) && e.text@ == text,
    }
}

/// Reads a command line, the name of the program first: what it says of the
/// service, which configuration file it names, and whether it asks for help.
/// The arguments after the name of the program are parsed by the options of a
/// service; the result is the line of what the parser finds, and a failure
/// with the parser's sentence where, and only where, the parser fails.
pub fn command_line(args: Vec<String>) -> (r: Result<CommandLine, OptionsError>)
    requires
        args@.len() > 0,
    ensures
        r matches Ok(line) ==> line.program@ == args@[0]@,
        exists|options: getopts::Options|
            described(options) == service_options_described() && #[trigger] reads_as(
                options,
                words_of(args@),
                r,
            ),
{
    let ghost given_args = words_of(args@);
    let mut args = args;
    let program = args.remove(0);
    proof {
        assert(words_of(args@) =~= given_args.skip(1));
    }
    let options = service_options();
    let r = match parse(&options, &args) {
        Err(fail) => Err(OptionsError { text: fail_text(&fail) }),
        Ok(matches) => {
            let help = opt_present(&matches, "h");
            let config = opt_str(&matches, "config");
            let port = opt_str(&matches, "port");
            let hostname = opt_str(&matches, "hostname");
            let debug = opt_count(&matches, "debug");
            Ok(CommandLine { program, help, config, overrides: Overrides { port, hostname, debug } })
        },
    };
    proof {
        assert(reads_as(options, given_args, r));
    }
    r
}

/// The line above the help text: `Usage:`, the program and `[options]`.
pub open spec fn usage_brief(program: Seq<char>) -> Seq<char> {
    "Usage: "@ + program + " [options]"@
}

/// The help text of the options of a service, as `getopts` writes it, under
/// a line that names the program.
pub fn usage(program: &str) -> (text: String)
    ensures
        exists|options: getopts::Options|
            described(options) == service_options_described() && text@ == #[trigger] usage_text(
                options,
                usage_brief(program@),
            ),
{
    let mut brief = String::from_str("Usage: ");
    brief.append(program);
    brief.append(" [options]");
    let options = service_options();
    let text = options_usage(&options, brief.as_str());
    proof {
        assert(text@ == usage_text(options, usage_brief(program@)));
    }
    text
}

impl Config {
    /// The configuration `self`, as a file gives it or as the defaults do,
    /// with what the command line says put over it. Fails where the port
    /// given is no port number, and only there.
    pub fn with_command_line(self, line: &CommandLine) -> (r: Result<Config, PortError>)
        ensures
            match r {
                Ok(after) => {
                    &&& overridden(self.service, line.overrides, after.service)
                    &&& line.overrides.port matches Some(text) ==> port_of(text@) is Ok
                },
                Err(e) => line.overrides.port matches Some(text) && port_of(text@) == Err::<
                    u16,
                    PortError,
                >(e),
            },
    {
        match self.service.with_overrides(&line.overrides) {
            Ok(service) => Ok(Config { service }),
            Err(e) => Err(e),
        }
    }
}

/// What is made ready before the server starts: nothing, for a service
/// that reports no metrics.
pub fn pre_server(_service_config: &Service) {
}

/// How much the logger lets through.
#[derive(Clone, Copy, Debug, PartialEq, Eq, Structural)]
pub enum LogLevel {
    /// What the filters say, nothing more.
    Unchanged,
    /// Debug messages and above.
    Debug,
    /// Everything.
    Trace,
}

/// What the logger is set up with.
#[derive(Clone, Debug)]
pub struct LogSetup {
    pub level: LogLevel,
    pub filters: String,
}

/// The level that a service asks for: trace mode before debug mode.
pub open spec fn level_of(service: Service) -> LogLevel {
    if service.trace {
        LogLevel::Trace
    } else if service.debug {
        LogLevel::Debug
    } else {
        LogLevel::Unchanged
    }
}

/// What the logger is set up with for a service configured by `config`: the
/// level that its modes ask for, and the filters of the environment where it
/// gives any, else those of the service.
pub fn init(config: &Config, environment: Option<String>) -> (setup: LogSetup)
    ensures
        setup.level == level_of(config.service),
        setup.filters@ == match environment {
            Some(filters) => filters@,
            None => config.service.logger_filters@,
        },
{
    let level = if config.service.trace {
        LogLevel::Trace
    } else if config.service.debug {
        LogLevel::Debug
    } else {
        LogLevel::Unchanged
    };
    let filters = match environment {
        Some(filters) => filters,
        None => config.service.logger_filters.clone(),
    };
    LogSetup { level, filters }
}

} // verus!
