use mrbig::config::{
    command_line, default_grpc_reflection, default_hostname, default_logger_filters, default_port,
    default_service, init, parse_port, pre_server, usage, Config, GrpcServer, LogLevel, Overrides,
    PortError,
};
use mrbig::context::Context;
use mrbig::errors::{CliError, HatchError, ScaffoldError, SetupError};
use mrbig::hatch::HatchServer;
use mrbig::scaffold::ScaffoldCommandOptions;
use mrbig::service_args::{Args, NamedValue};

#[test]
fn defaults() {
    let service = default_service();

    assert_eq!(service.port, default_port());
    assert_eq!(service.hostname, default_hostname());
}

#[test]
fn just_args() {
    let line = command_line(vec![
        "mrbig".into(),
        "--port".into(),
        "4444".into(),
        "--hostname".into(),
        "localhost".into(),
        "--debug".into(),
    ])
    .unwrap();
    let cfg = Config::default().with_command_line(&line).unwrap();

    assert_eq!(cfg.service.port, 4444);
    assert_eq!(cfg.service.hostname, "localhost");
    assert_eq!(cfg.service.debug, true);

    let empty_grpc_server = GrpcServer::default();
    assert_eq!(
        empty_grpc_server.concurrency_limit_per_connection,
        cfg.service.grpc_server.concurrency_limit_per_connection
    );
    assert_eq!(empty_grpc_server.tcp_keepalive, cfg.service.grpc_server.tcp_keepalive);
    assert_eq!(empty_grpc_server.timeout, cfg.service.grpc_server.timeout);
}

fn words(args: &[&str]) -> Vec<String> {
    args.iter().map(|a| a.to_string()).collect()
}

#[test]
fn command_line_is_read_by_names() {
    let line = command_line(words(&["svc"])).unwrap();
    assert_eq!(line.program, "svc");
    assert!(!line.help);
    assert_eq!(line.config, None);
    assert_eq!(line.overrides.port, None);
    assert_eq!(line.overrides.hostname, None);
    assert_eq!(line.overrides.debug, 0);

    let line =
        command_line(words(&["svc", "-c", "svc.toml", "-p", "80", "-d", "-d", "free", "-h"]))
            .unwrap();
    assert!(line.help);
    assert_eq!(line.config.as_deref(), Some("svc.toml"));
    assert_eq!(line.overrides.port.as_deref(), Some("80"));
    assert_eq!(line.overrides.debug, 2);
    let cfg = Config::default().with_command_line(&line).unwrap();
    assert_eq!(cfg.service.port, 80);
    assert!(cfg.service.debug && cfg.service.trace);

    let line = command_line(words(&["svc", "--config=a.toml", "--port=x"])).unwrap();
    assert_eq!(line.config.as_deref(), Some("a.toml"));
    assert_eq!(
        Config::default().with_command_line(&line).err(),
        Some(PortError::InvalidDigit)
    );
}

#[test]
fn command_line_that_does_not_parse() {
    let error = command_line(words(&["svc", "--unknown"])).err().unwrap();
    assert_eq!(error.text, "Unrecognized option: 'unknown'");
    let error = command_line(words(&["svc", "--port"])).err().unwrap();
    assert_eq!(error.text, "Argument to option 'port' missing");
    let error = command_line(words(&["svc", "-h", "--help"])).err().unwrap();
    assert_eq!(error.text, "Option 'help' given more than once");
    let error = command_line(words(&["svc", "-p", "1", "-p", "2"])).err().unwrap();
    assert_eq!(error.text, "Option 'port' given more than once");
    let error = command_line(words(&["svc", "--debug=1"])).err().unwrap();
    assert_eq!(error.text, "Option 'debug' does not take an argument");
}

#[test]
fn usage_names_the_program_and_the_options() {
    let text = usage("mrbig");
    assert!(text.starts_with("Usage: mrbig [options]\n\nOptions:\n"));
    for option in ["-c, --config NAME", "-p, --port PORT", "--hostname HOSTNAME", "-d, --debug", "-h, --help"] {
        assert!(text.contains(option), "{} in {}", option, text);
    }
}

#[test]
fn default_values() {
    assert_eq!(default_port(), 3000);
    assert_eq!(default_hostname(), "0.0.0.0");
    assert_eq!(default_logger_filters(), "h2=warn,hyper=warn,tower_buffer=warn");
    assert!(default_grpc_reflection());
    let service = default_service();
    assert!(!service.debug);
    assert!(!service.trace);
    assert_eq!(service.logger_filters, "h2=warn,hyper=warn,tower_buffer=warn");
    let server = GrpcServer::default();
    assert_eq!(server.concurrency_limit_per_connection, None);
    assert_eq!(server.timeout, None);
    assert_eq!(server.tcp_keepalive, None);
    assert!(!server.reflection);
}

#[test]
fn command_line_overrides_service() {
    let over = Overrides { port: Some("4444".into()), hostname: Some("localhost".into()), debug: 1 };
    let service = default_service().with_overrides(&over).unwrap();
    assert_eq!(service.port, 4444);
    assert_eq!(service.hostname, "localhost");
    assert_eq!(service.debug, true);
    assert_eq!(service.trace, false);
    let empty_grpc_server = GrpcServer::default();
    assert_eq!(
        empty_grpc_server.concurrency_limit_per_connection,
        service.grpc_server.concurrency_limit_per_connection
    );
    assert_eq!(empty_grpc_server.tcp_keepalive, service.grpc_server.tcp_keepalive);
    assert_eq!(empty_grpc_server.timeout, service.grpc_server.timeout);

    let service = default_service().with_overrides(&Overrides::default()).unwrap();
    assert_eq!(service.port, 3000);
    assert_eq!(service.hostname, "0.0.0.0");
    assert!(!service.debug && !service.trace);

    let twice = Overrides { port: None, hostname: None, debug: 2 };
    let service = default_service().with_overrides(&twice).unwrap();
    assert!(service.debug && service.trace);

    let bad = Overrides { port: Some("http".into()), hostname: None, debug: 0 };
    assert_eq!(default_service().with_overrides(&bad).err(), Some(PortError::InvalidDigit));
}

#[test]
fn port_is_read_as_u16_is() {
    for text in [
        "", "+", "-", "0", "+0", "00080", "3000", "65535", "65536", "65540", "99999", "655350",
        "1x", "x1", "99999x", "9x9999", "+-1", "++1", "-1", " 1", "1 ", "4444", "\u{e9}",
        "١٢٣", "+65535", "+65536", "000000000000065535",
    ] {
        let expected = match text.parse::<u16>() {
            Ok(port) => Ok(port),
            Err(e) => Err(e.to_string()),
        };
        let got = match parse_port(text) {
            Ok(port) => Ok(port),
            Err(e) => Err(e.message()),
        };
        assert_eq!(got, expected, "for {:?}", text);
    }
    assert_eq!(parse_port("8080"), Ok(8080));
    assert_eq!(parse_port(""), Err(PortError::Empty));
    assert_eq!(parse_port("+"), Err(PortError::InvalidDigit));
    assert_eq!(parse_port("65536"), Err(PortError::TooLarge));
}

#[test]
fn logger_setup_follows_modes_and_environment() {
    let mut config = Config::default();
    let setup = init(&config, None);
    assert_eq!(setup.level, LogLevel::Unchanged);
    assert_eq!(setup.filters, "h2=warn,hyper=warn,tower_buffer=warn");
    config.service.debug = true;
    assert_eq!(init(&config, None).level, LogLevel::Debug);
    config.service.trace = true;
    assert_eq!(init(&config, None).level, LogLevel::Trace);
    config.service.debug = false;
    let setup = init(&config, Some("info".into()));
    assert_eq!(setup.level, LogLevel::Trace);
    assert_eq!(setup.filters, "info");
}

#[test]
fn get_set_config() {
    let mut ctx = Context::default();

    assert!(ctx.get_config().is_none());

    let config = Config::default();

    ctx.set_config(config.clone());

    assert!(ctx.get_config().is_some());

    let mref = ctx.get_config().unwrap();

    assert_eq!(mref.service.hostname, config.service.hostname);
}

#[test]
fn context_gives_its_config_away_once() {
    let mut ctx = Context::default();
    assert!(ctx.take_config().is_none());
    let mut config = Config::default();
    config.service.port = 8080;
    ctx.set_config(config);
    assert_eq!(ctx.get_config().unwrap().service.port, 8080);
    let mut other = Config::default();
    other.service.port = 9090;
    ctx.set_config(other);
    assert_eq!(ctx.take_config().unwrap().service.port, 9090);
    assert!(ctx.get_config().is_none());
    assert!(ctx.take_config().is_none());
}

#[test]
fn errors_read_as_sentences() {
    assert_eq!(CliError::UnknownLogLevel.message(), "unknown log level name");
    assert_eq!(
        CliError::LoginToCluster("refused".into()).message(),
        "cannot log to the remote cluster"
    );
    assert_eq!(CliError::UnknownCliError.message(), "unknown cli error... ╰U╯☜(◉ɷ◉ )");
    assert_eq!(
        ScaffoldError::ProjectFilesystemStructure("denied".into()).message(),
        "cannot create project's filesystem structure"
    );
    assert_eq!(
        ScaffoldError::UnknownScaffoldError.message(),
        "unknown scaffold error... ╰U╯☜(◉ɷ◉ )"
    );
    assert_eq!(
        SetupError::CannotCreateConfigFile("denied".into()).message(),
        "cannot create configuration file"
    );
    assert_eq!(SetupError::UnknownSetupError.message(), "unknown setup error... ╰U╯☜(◉ɷ◉ )");
    assert_eq!(
        HatchError::CannotSynchronizeProject("down".into()).message(),
        "cannot synchronize project's source code"
    );
    assert_eq!(HatchError::UnknownHatchError.message(), "unknown hatch error... ╰U╯☜(◉ɷ◉ )");
    assert_eq!(mrbig::hatch::HatchError::UnknownLogLevel.message(), "unknown log level name");
    assert_eq!(
        mrbig::hatch::HatchError::UnknownHatchError.message(),
        "unknown cli error... ╰U╯☜(◉ɷ◉ )"
    );
}

#[test]
fn nothing_is_made_ready_before_the_server() {
    let service = default_service();
    pre_server(&service);
    assert_eq!(service.port, 3000);
}

#[test]
fn hatch_server_listens_on_local_host() {
    let server = HatchServer::new();
    assert_eq!(server.port(), 9999);
    assert_eq!(server.address(), "127.0.0.1");
}

#[test]
fn scaffold_options_default_to_grpc() {
    let options = ScaffoldCommandOptions::default();
    assert!(options.with_grpc);
    assert!(options.from_template.is_none());
    assert!(options.name.is_none());
    assert!(options.output_path.is_none());
}

fn pair(name: &str, value: &str) -> NamedValue {
    NamedValue { name: name.into(), value: value.into() }
}

#[test]
fn service_arguments_are_switches() {
    assert_eq!(Args::parse(&vec![]).unwrap(), Args { telemetry: false, tracing: false });
    assert_eq!(
        Args::parse(&vec![pair("tracing", "true")]).unwrap(),
        Args { telemetry: false, tracing: true }
    );
    assert_eq!(
        Args::parse(&vec![pair("telemetry", "true"), pair("tracing", "false")]).unwrap(),
        Args { telemetry: true, tracing: false }
    );
    // once on, a later argument does not switch it off
    assert_eq!(
        Args::parse(&vec![pair("tracing", "true"), pair("tracing", "no")]).unwrap(),
        Args { telemetry: false, tracing: true }
    );
    let unsupported =
        Args::parse(&vec![pair("tracing", "true"), pair("metrics", "true"), pair("x", "y")])
            .err()
            .unwrap();
    assert_eq!(unsupported.name, "metrics");
    assert_eq!(unsupported.message(), "'metrics' not supported");
}
