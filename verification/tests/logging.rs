use cakemaster::logging::{
    accept_filter, is_blank, parse_directory, parse_filter, parse_level, parse_output,
    resolve_filter, trim, EnvironmentText, LogLevel, LogOutput, LoggingConfig, LoggingConfigError,
    LoggingEnvironment, LoggingOverrides, LoggingVariable,
};

fn nothing_set() -> LoggingEnvironment {
    LoggingEnvironment {
        rust_log: EnvironmentText::Absent,
        log_level: EnvironmentText::Absent,
        log_dir: None,
        log_output: EnvironmentText::Absent,
    }
}

#[test]
fn filter_sources_follow_cli_environment_and_default_precedence() {
    assert_eq!(
        resolve_filter(
            Some("warn".to_owned()),
            Some("trace".to_owned()),
            Some("debug".to_owned())
        )
        .unwrap(),
        "warn"
    );
    assert_eq!(
        resolve_filter(None, Some("info,cakemaster::server=debug".to_owned()), None).unwrap(),
        "info,cakemaster::server=debug"
    );
    assert_eq!(
        resolve_filter(None, None, Some("WARN".to_owned())).unwrap(),
        "warn"
    );
    assert_eq!(resolve_filter(None, None, None).unwrap(), "info");
}

#[test]
fn validates_logging_values() {
    assert_eq!(parse_level("DEBUG").unwrap(), "debug");
    assert!(parse_level("verbose").is_err());
    assert!(parse_filter("info,cakemaster::server=trace").is_ok());
    assert!(parse_filter("info,cakemaster=verbose").is_err());
    assert_eq!(parse_output("STDERR").unwrap(), LogOutput::Stderr);
    assert!(parse_output("stdout").is_err());
    assert!(parse_directory(Vec::new()).is_err());
}

#[test]
fn white_space_is_what_the_standard_library_says() {
    for code in 0..=0x10ffff_u32 {
        if let Some(c) = char::from_u32(code) {
            assert_eq!(is_blank(c), c.is_whitespace(), "{code:#x}");
        }
    }
    for text in ["", " ", "  a b \t\n", "\u{a0}x\u{3000}", "x"] {
        assert_eq!(trim(text), text.trim());
    }
}

#[test]
fn every_level_and_output_has_a_name() {
    let levels = [
        (LogLevel::Off, "off"),
        (LogLevel::Error, "error"),
        (LogLevel::Warn, "warn"),
        (LogLevel::Info, "info"),
        (LogLevel::Debug, "debug"),
        (LogLevel::Trace, "trace"),
        (LogLevel::All, "all"),
    ];
    for (level, name) in levels {
        assert_eq!(level.as_filter(), name);
        assert_eq!(parse_level(&format!(" {} ", name.to_uppercase())).unwrap(), name);
    }
    assert_eq!(parse_output(" File\n").unwrap(), LogOutput::File);
    assert_eq!(parse_output("both").unwrap(), LogOutput::Both);
    assert_eq!(
        parse_output("stdout"),
        Err(LoggingConfigError::InvalidOutput("stdout".to_owned()))
    );
    assert_eq!(
        parse_level(" loud "),
        Err(LoggingConfigError::InvalidLevel(" loud ".to_owned()))
    );
}

#[test]
fn filters_are_trimmed_and_refused_with_a_reason() {
    assert_eq!(parse_filter("  warn\n").unwrap(), "warn");
    assert_eq!(
        parse_filter(" \t"),
        Err(LoggingConfigError::InvalidFilter {
            value: " \t".to_owned(),
            reason: "filter must not be empty".to_owned(),
        })
    );
    match parse_filter(" info,cakemaster=verbose") {
        Err(LoggingConfigError::InvalidFilter { value, reason }) => {
            assert_eq!(value, " info,cakemaster=verbose");
            assert!(!reason.is_empty());
            assert_ne!(reason, "info,cakemaster=verbose");
        }
        other => panic!("{other:?}"),
    }
    assert_eq!(accept_filter(" a=b ", None).unwrap(), "a=b");
    assert_eq!(
        accept_filter(" a=b ", Some("because".to_owned())),
        Err(LoggingConfigError::InvalidFilter {
            value: " a=b ".to_owned(),
            reason: "because".to_owned(),
        })
    );
}

#[test]
fn defaults_apply_where_nothing_is_set() {
    let config = LoggingConfig::resolve(LoggingOverrides::default(), nothing_set()).unwrap();
    assert_eq!(config.filter, "info");
    assert_eq!(config.directory, b"logs".to_vec());
    assert_eq!(config.output, LogOutput::Both);
}

#[test]
fn the_command_line_goes_before_the_environment() {
    let environment = LoggingEnvironment {
        rust_log: EnvironmentText::NotUnicode,
        log_level: EnvironmentText::NotUnicode,
        log_dir: Some(Vec::new()),
        log_output: EnvironmentText::NotUnicode,
    };
    let overrides = LoggingOverrides {
        log_level: Some(LogLevel::Trace),
        log_filter: None,
        log_dir: Some(b"/var/log".to_vec()),
        log_output: Some(LogOutput::File),
    };
    let config = LoggingConfig::resolve(overrides, environment).unwrap();
    assert_eq!(config.filter, "trace");
    assert_eq!(config.directory, b"/var/log".to_vec());
    assert_eq!(config.output, LogOutput::File);
}

#[test]
fn the_first_wrong_setting_is_reported() {
    let resolve = |environment| LoggingConfig::resolve(LoggingOverrides::default(), environment);
    let mut environment = nothing_set();
    environment.rust_log = EnvironmentText::NotUnicode;
    assert_eq!(
        resolve(environment.clone()),
        Err(LoggingConfigError::NonUtf8Environment(LoggingVariable::RustLog))
    );
    assert_eq!(LoggingVariable::RustLog.name(), "RUST_LOG");
    environment.rust_log = EnvironmentText::Absent;
    environment.log_level = EnvironmentText::NotUnicode;
    assert_eq!(
        resolve(environment.clone()),
        Err(LoggingConfigError::NonUtf8Environment(LoggingVariable::LogLevel))
    );
    environment.rust_log = EnvironmentText::Text("error".to_owned());
    environment.log_dir = Some(Vec::new());
    assert_eq!(resolve(environment.clone()), Err(LoggingConfigError::EmptyDirectory));
    environment.log_dir = Some(b"x".to_vec());
    environment.log_output = EnvironmentText::Text("printer".to_owned());
    assert_eq!(
        resolve(environment.clone()),
        Err(LoggingConfigError::InvalidOutput("printer".to_owned()))
    );
    environment.log_output = EnvironmentText::NotUnicode;
    assert_eq!(
        resolve(environment.clone()),
        Err(LoggingConfigError::NonUtf8Environment(LoggingVariable::LogOutput))
    );
    environment.log_output = EnvironmentText::Text("stderr".to_owned());
    let config = resolve(environment).unwrap();
    assert_eq!(config.filter, "error");
    assert_eq!(config.directory, b"x".to_vec());
    assert_eq!(config.output, LogOutput::Stderr);
}
