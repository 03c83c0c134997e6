//! Where log records go and which of them.
//!
//! Settings come from the command line, from the environment, and from defaults,
//! in this order.

use vstd::prelude::*;
use vstd::string::*;

verus! {

/// Whether a character is white space.
pub open spec fn is_white_space(c: char) -> bool {
    let code = c as int;
    ||| 0x9 <= code <= 0xd
    ||| code == 0x20
    ||| code == 0x85
    ||| code == 0xa0
    ||| code == 0x1680
    ||| 0x2000 <= code <= 0x200a
    ||| code == 0x2028
    ||| code == 0x2029
    ||| code == 0x202f
    ||| code == 0x205f
    ||| code == 0x3000
}

pub fn is_blank(c: char) -> (blank: bool)
    ensures
        blank == is_white_space(c),
{
    let code: u32 = c as u32;
    (0x9 <= code && code <= 0xd) || code == 0x20 || code == 0x85 || code == 0xa0 || code == 0x1680
        || (0x2000 <= code && code <= 0x200a) || code == 0x2028 || code == 0x2029 || code == 0x202f
        || code == 0x205f || code == 0x3000
}

/// A text without white space in front.
pub open spec fn without_leading(text: Seq<char>) -> Seq<char>
    decreases text.len(),
{
    if text.len() > 0 && is_white_space(text[0]) {
        without_leading(text.drop_first())
    } else {
        text
    }
}

/// A text without white space at the end.
pub open spec fn without_trailing(text: Seq<char>) -> Seq<char>
    decreases text.len(),
{
    if text.len() > 0 && is_white_space(text.last()) {
        without_trailing(text.drop_last())
    } else {
        text
    }
}

/// A text without white space at either end.
pub open spec fn trimmed(text: Seq<char>) -> Seq<char> {
    without_trailing(without_leading(text))
}

/// Takes white space off both ends of a text.
pub fn trim<'a>(text: &'a str) -> (inner: &'a str)
    ensures
        inner@ == trimmed(text@),
{
    let length: usize = text.unicode_len();
    let mut from: usize = 0;
    assert(text@.skip(0) =~= text@);
    while from < length && is_blank(text.get_char(from))
        invariant
            from <= length,
            length == text@.len(),
            without_leading(text@) == without_leading(text@.skip(from as int)),
        decreases length - from,
    {
        assert(text@.skip(from as int).drop_first() =~= text@.skip(from as int + 1));
        from = from + 1;
    }
    let ghost front = text@.skip(from as int);
    let mut to: usize = length;
    assert(front =~= text@.subrange(from as int, to as int));
    while to > from && is_blank(text.get_char(to - 1))
        invariant
            from <= to <= length,
            length == text@.len(),
            without_trailing(front) == without_trailing(text@.subrange(from as int, to as int)),
        decreases to,
    {
        assert(text@.subrange(from as int, to as int).drop_last() =~= text@.subrange(
            from as int,
            to - 1,
        ));
        to = to - 1;
    }
    text.substring_char(from, to)
}

/// A letter's code without its case.
pub open spec fn folded(c: char) -> int {
    if 0x41 <= c as int <= 0x5a {
        c as int + 0x20
    } else {
        c as int
    }
}

/// Whether two texts differ in the case of ASCII letters at most.
pub open spec fn same_ignoring_case(left: Seq<char>, right: Seq<char>) -> bool {
    &&& left.len() == right.len()
    &&& forall|i: int| 0 <= i < left.len() ==> folded(#[trigger] left[i]) == folded(right[i])
}

fn fold(c: char) -> (code: u32)
    ensures
        code as int == folded(c),
{
    let code: u32 = c as u32;
    if 0x41 <= code && code <= 0x5a {
        code + 0x20
    } else {
        code
    }
}

fn is_name(text: &str, name: &str) -> (same: bool)
    ensures
        same == same_ignoring_case(text@, name@),
{
    let length: usize = text.unicode_len();
    if length != name.unicode_len() {
        return false;
    }
    let mut i: usize = 0;
    while i < length
        invariant
            i <= length,
            length == text@.len(),
            length == name@.len(),
            forall|j: int| 0 <= j < i ==> folded(#[trigger] text@[j]) == folded(name@[j]),
        decreases length - i,
    {
        if fold(text.get_char(i)) != fold(name.get_char(i)) {
            return false;
        }
        i = i + 1;
    }
    true
}

/// Where log records go.
#[derive(Clone, Copy, Debug, Eq, PartialEq, Structural)]
pub enum LogOutput {
    Stderr,
    File,
    Both,
}

impl LogOutput {
    pub open spec fn named(text: Seq<char>) -> Option<LogOutput> {
        if same_ignoring_case(text, "stderr"@) {
            Some(LogOutput::Stderr)
        } else if same_ignoring_case(text, "file"@) {
            Some(LogOutput::File)
        } else if same_ignoring_case(text, "both"@) {
            Some(LogOutput::Both)
        } else {
            None
        }
    }
}

/// How severe a log record has to be.
#[derive(Clone, Copy, Debug, Eq, PartialEq, Structural)]
pub enum LogLevel {
    Off,
    Error,
    Warn,
    Info,
    Debug,
    Trace,
    All,
}

impl LogLevel {
    /// The filter that stands for the level.
    pub open spec fn name(self) -> Seq<char> {
        match self {
            LogLevel::Off => "off"@,
            LogLevel::Error => "error"@,
            LogLevel::Warn => "warn"@,
            LogLevel::Info => "info"@,
            LogLevel::Debug => "debug"@,
            LogLevel::Trace => "trace"@,
            LogLevel::All => "all"@,
        }
    }

    pub open spec fn named(text: Seq<char>) -> Option<LogLevel> {
        if same_ignoring_case(text, "off"@) {
            Some(LogLevel::Off)
        } else if same_ignoring_case(text, "error"@) {
            Some(LogLevel::Error)
        } else if same_ignoring_case(text, "warn"@) {
            Some(LogLevel::Warn)
        } else if same_ignoring_case(text, "info"@) {
            Some(LogLevel::Info)
        } else if same_ignoring_case(text, "debug"@) {
            Some(LogLevel::Debug)
        } else if same_ignoring_case(text, "trace"@) {
            Some(LogLevel::Trace)
        } else if same_ignoring_case(text, "all"@) {
            Some(LogLevel::All)
        } else {
            None
        }
    }

    /// The filter that stands for the level.
    pub fn as_filter(self) -> (filter: &'static str)
        ensures
            filter@ == self.name(),
    {
        match self {
            Self::Off => "off",
            Self::Error => "error",
            Self::Warn => "warn",
            Self::Info => "info",
            Self::Debug => "debug",
            Self::Trace => "trace",
            Self::All => "all",
        }
    }
}

/// What the command line says about logging.
#[derive(Clone, Debug, Eq, PartialEq)]
pub struct LoggingOverrides {
    /// One global log level.
    pub log_level: Option<LogLevel>,
    /// Global and per-module directives. They were parsed as they came in.
    pub log_filter: Option<String>,
    /// The rolling log directory.
    pub log_dir: Option<Vec<u8>>,
    /// Stderr, rolling file, or both.
    pub log_output: Option<LogOutput>,
}

impl Default for LoggingOverrides {
    fn default() -> (overrides: Self)
        ensures
            overrides.log_level is None,
            overrides.log_filter is None,
            overrides.log_dir is None,
            overrides.log_output is None,
    {
        Self { log_level: None, log_filter: None, log_dir: None, log_output: None }
    }
}

/// The value of an environment variable.
#[derive(Clone, Debug, Eq, PartialEq)]
pub enum EnvironmentText {
    Absent,
    Text(String),
    NotUnicode,
}

/// What the environment says about logging.
#[derive(Clone, Debug, Eq, PartialEq)]
pub struct LoggingEnvironment {
    pub rust_log: EnvironmentText,
    pub log_level: EnvironmentText,
    pub log_dir: Option<Vec<u8>>,
    pub log_output: EnvironmentText,
}

/// An environment variable that is read.
#[derive(Clone, Copy, Debug, Eq, PartialEq, Structural)]
pub enum LoggingVariable {
    RustLog,
    LogLevel,
    LogOutput,
}

impl LoggingVariable {
    /// The variable's name.
    pub fn name(self) -> (name: &'static str)
        ensures
            name@ == match self {
                LoggingVariable::RustLog => "RUST_LOG"@,
                LoggingVariable::LogLevel => "CAKEMASTER_LOG_LEVEL"@,
                LoggingVariable::LogOutput => "CAKEMASTER_LOG_OUTPUT"@,
            },
    {
        match self {
            Self::RustLog => "RUST_LOG",
            Self::LogLevel => "CAKEMASTER_LOG_LEVEL",
            Self::LogOutput => "CAKEMASTER_LOG_OUTPUT",
        }
    }
}

/// Which log records go where.
#[derive(Clone, Debug, Eq, PartialEq)]
pub struct LoggingConfig {
    pub filter: String,
    pub directory: Vec<u8>,
    pub output: LogOutput,
}

/// What is wrong with a setting.
#[derive(Clone, Debug, Eq, PartialEq)]
pub enum LoggingConfigError {
    /// No level is named so.
    InvalidLevel(String),
    /// The filter cannot be used, for a reason.
    InvalidFilter { value: String, reason: String },
    /// The log directory must not be empty.
    EmptyDirectory,
    /// No output is named so.
    InvalidOutput(String),
    /// An environment variable is not valid UTF-8.
    NonUtf8Environment(LoggingVariable),
}

/// The contents of a [`LoggingConfigError`].
pub enum LoggingFault {
    InvalidLevel(Seq<char>),
    InvalidFilter { value: Seq<char>, reason: Seq<char> },
    EmptyDirectory,
    InvalidOutput(Seq<char>),
    NonUtf8Environment(LoggingVariable),
}

impl View for LoggingConfigError {
    type V = LoggingFault;

    open spec fn view(&self) -> LoggingFault {
        match *self {
            LoggingConfigError::InvalidLevel(value) => LoggingFault::InvalidLevel(value@),
            LoggingConfigError::InvalidFilter {
                value,
                reason,
            } => LoggingFault::InvalidFilter { value: value@, reason: reason@ },
            LoggingConfigError::EmptyDirectory => LoggingFault::EmptyDirectory,
            LoggingConfigError::InvalidOutput(value) => LoggingFault::InvalidOutput(value@),
            LoggingConfigError::NonUtf8Environment(variable) => LoggingFault::NonUtf8Environment(
                variable,
            ),
        }
    }
}

/// What a text setting comes to.
pub open spec fn is_setting(
    made: Result<String, LoggingConfigError>,
    expected: Result<Seq<char>, LoggingFault>,
) -> bool {
    match (made, expected) {
        (Ok(text), Ok(wanted)) => text@ == wanted,
        (Err(error), Err(fault)) => error@ == fault,
        _ => false,
    }
}

/// Why the filter parser of `logforth` refuses directives, in its own words.
pub uninterp spec fn rustlog_fault(directives: Seq<char>) -> Option<Seq<char>>;

/// The characters of a reason.
pub open spec fn reason_of(reason: Option<String>) -> Option<Seq<char>> {
    match reason {
        Some(text) => Some(text@),
        None => None,
    }
}

/// `logforth::filter::rustlog::RustLogFilterBuilder::try_from_spec`: parses
/// directives and hands back the text of its error, if there is one. Which
/// directives it refuses, and in which words, depends on the directives alone;
/// this is the name that the contract gives to it.
#[verifier::external_body]
fn check_directives(directives: &str) -> (reason: Option<String>)
    ensures
        reason_of(reason) == rustlog_fault(directives@),
{
    match logforth::filter::rustlog::RustLogFilterBuilder::try_from_spec(directives) {
        Ok(_) => None,
        Err(error) => Some(error.to_string()),
    }
}

/// What a level setting comes to.
pub open spec fn level_result(value: Seq<char>) -> Result<Seq<char>, LoggingFault> {
    match LogLevel::named(trimmed(value)) {
        Some(level) => Ok(level.name()),
        None => Err(LoggingFault::InvalidLevel(value)),
    }
}

/// What a filter setting comes to, given why the parser refuses it.
pub open spec fn filter_result(value: Seq<char>, refused: Option<Seq<char>>) -> Result<
    Seq<char>,
    LoggingFault,
> {
    if trimmed(value).len() == 0 {
        Err(LoggingFault::InvalidFilter { value, reason: "filter must not be empty"@ })
    } else {
        match refused {
            Some(reason) => Err(LoggingFault::InvalidFilter { value, reason }),
            None => Ok(trimmed(value)),
        }
    }
}

/// The filter that a level setting stands for.
pub fn parse_level(value: &str) -> (level: Result<String, LoggingConfigError>)
    ensures
        is_setting(level, level_result(value@)),
{
    let name = trim(value);
    let level = if is_name(name, "off") {
        LogLevel::Off
    } else if is_name(name, "error") {
        LogLevel::Error
    } else if is_name(name, "warn") {
        LogLevel::Warn
    } else if is_name(name, "info") {
        LogLevel::Info
    } else if is_name(name, "debug") {
        LogLevel::Debug
    } else if is_name(name, "trace") {
        LogLevel::Trace
    } else if is_name(name, "all") {
        LogLevel::All
    } else {
        return Err(LoggingConfigError::InvalidLevel(value.to_owned()));
    };
    Ok(level.as_filter().to_owned())
}

/// The filter that a filter setting stands for.
pub fn parse_filter(value: &str) -> (filter: Result<String, LoggingConfigError>)
    ensures
        is_setting(filter, filter_result(value@, rustlog_fault(trimmed(value@)))),
{
    let normalized = trim(value);
    let refused = if normalized.is_empty() {
        None
    } else {
        check_directives(normalized)
    };
    accept_filter(value, refused)
}

/// The filter that a filter setting stands for, given why the parser refuses it.
pub fn accept_filter(value: &str, refused: Option<String>) -> (filter: Result<
    String,
    LoggingConfigError,
>)
    ensures
        is_setting(filter, filter_result(value@, reason_of(refused))),
{
    let normalized = trim(value);
    if normalized.is_empty() {
        return Err(
            LoggingConfigError::InvalidFilter {
                value: value.to_owned(),
                reason: "filter must not be empty".to_owned(),
            },
        );
    }
    match refused {
        Some(reason) => Err(
            LoggingConfigError::InvalidFilter { value: value.to_owned(), reason },
        ),
        None => Ok(normalized.to_owned()),
    }
}

/// Any name of a directory but the empty one.
pub fn parse_directory(value: Vec<u8>) -> (directory: Result<Vec<u8>, LoggingConfigError>)
    ensures
        match directory {
            Ok(path) => value@.len() > 0 && path == value,
            Err(error) => value@.len() == 0 && error == LoggingConfigError::EmptyDirectory,
        },
{
    if value.len() == 0 {
        return Err(LoggingConfigError::EmptyDirectory);
    }
    Ok(value)
}

/// The output that an output setting stands for.
pub fn parse_output(value: &str) -> (output: Result<LogOutput, LoggingConfigError>)
    ensures
        match LogOutput::named(trimmed(value@)) {
            Some(named) => output == Ok::<LogOutput, LoggingConfigError>(named),
            None => output matches Err(error) && error@ == LoggingFault::InvalidOutput(value@),
        },
{
    let name = trim(value);
    if is_name(name, "stderr") {
        Ok(LogOutput::Stderr)
    } else if is_name(name, "file") {
        Ok(LogOutput::File)
    } else if is_name(name, "both") {
        Ok(LogOutput::Both)
    } else {
        Err(LoggingConfigError::InvalidOutput(value.to_owned()))
    }
}

/// The characters of a setting.
pub open spec fn characters(setting: Option<String>) -> Option<Seq<char>> {
    match setting {
        Some(text) => Some(text@),
        None => None,
    }
}

/// The filter that settings stand for: the command line goes before directives
/// of the environment, these go before a level of the environment, and where
/// nothing is set, the filter is `info`.
pub open spec fn resolved_filter(
    override_filter: Option<Seq<char>>,
    rust_log: Option<Seq<char>>,
    level: Option<Seq<char>>,
) -> Result<Seq<char>, LoggingFault> {
    match (override_filter, rust_log, level) {
        (Some(filter), _, _) => filter_result(filter, rustlog_fault(trimmed(filter))),
        (None, Some(filter), _) => filter_result(filter, rustlog_fault(trimmed(filter))),
        (None, None, Some(level)) => level_result(level),
        (None, None, None) => Ok("info"@),
    }
}

/// Resolves the filter from its sources.
pub fn resolve_filter(
    override_filter: Option<String>,
    rust_log: Option<String>,
    level: Option<String>,
) -> (filter: Result<String, LoggingConfigError>)
    ensures
        is_setting(
            filter,
            resolved_filter(characters(override_filter), characters(rust_log), characters(level)),
        ),
{
    if let Some(filter) = override_filter {
        return parse_filter(filter.as_str());
    }
    if let Some(filter) = rust_log {
        return parse_filter(filter.as_str());
    }
    match level {
        Some(level) => parse_level(level.as_str()),
        None => Ok("info".to_owned()),
    }
}

/// The text of an environment variable, if it is set.
pub open spec fn text_of(text: EnvironmentText) -> Option<Seq<char>> {
    match text {
        EnvironmentText::Text(text) => Some(text@),
        _ => None,
    }
}

fn environment_string(variable: LoggingVariable, text: EnvironmentText) -> (value: Result<
    Option<String>,
    LoggingConfigError,
>)
    ensures
        match value {
            Ok(found) => !(text is NotUnicode) && characters(found) == text_of(text),
            Err(error) => text is NotUnicode && error == LoggingConfigError::NonUtf8Environment(
                variable,
            ),
        },
{
    match text {
        EnvironmentText::Absent => Ok(None),
        EnvironmentText::Text(text) => Ok(Some(text)),
        EnvironmentText::NotUnicode => Err(LoggingConfigError::NonUtf8Environment(variable)),
    }
}

impl LoggingConfig {
    /// The filter that the command line and the environment stand for.
    pub open spec fn filter_for(overrides: LoggingOverrides, environment: LoggingEnvironment) -> Result<
        Seq<char>,
        LoggingFault,
    > {
        if overrides.log_filter is Some {
            Ok(overrides.log_filter.unwrap()@)
        } else if overrides.log_level is Some {
            Ok(overrides.log_level.unwrap().name())
        } else if environment.rust_log is NotUnicode {
            Err(LoggingFault::NonUtf8Environment(LoggingVariable::RustLog))
        } else if environment.rust_log is Absent && environment.log_level is NotUnicode {
            Err(LoggingFault::NonUtf8Environment(LoggingVariable::LogLevel))
        } else {
            resolved_filter(None, text_of(environment.rust_log), text_of(environment.log_level))
        }
    }

    /// The directory that the command line and the environment stand for.
    pub open spec fn directory_for(
        overrides: LoggingOverrides,
        environment: LoggingEnvironment,
    ) -> Result<Seq<u8>, LoggingFault> {
        match (overrides.log_dir, environment.log_dir) {
            (Some(directory), _) => Ok(directory@),
            (None, Some(directory)) => if directory@.len() == 0 {
                Err(LoggingFault::EmptyDirectory)
            } else {
                Ok(directory@)
            },
            (None, None) => Ok(default_directory()),
        }
    }

    /// The output that the command line and the environment stand for.
    pub open spec fn output_for(overrides: LoggingOverrides, environment: LoggingEnvironment) -> Result<
        LogOutput,
        LoggingFault,
    > {
        match (overrides.log_output, environment.log_output) {
            (Some(output), _) => Ok(output),
            (None, EnvironmentText::Absent) => Ok(LogOutput::Both),
            (None, EnvironmentText::NotUnicode) => Err(
                LoggingFault::NonUtf8Environment(LoggingVariable::LogOutput),
            ),
            (None, EnvironmentText::Text(text)) => match LogOutput::named(trimmed(text@)) {
                Some(output) => Ok(output),
                None => Err(LoggingFault::InvalidOutput(text@)),
            },
        }
    }

    /// Resolves where log records go and which of them. The first setting that
    /// is wrong is reported: filter, directory, output.
    pub fn resolve(overrides: LoggingOverrides, environment: LoggingEnvironment) -> (resolved: Result<
        Self,
        LoggingConfigError,
    >)
        ensures
            match (
                Self::filter_for(overrides, environment),
                Self::directory_for(overrides, environment),
                Self::output_for(overrides, environment),
            ) {
                (Err(fault), _, _) => resolved matches Err(error) && error@ == fault,
                (Ok(_), Err(fault), _) => resolved matches Err(error) && error@ == fault,
                (Ok(_), Ok(_), Err(fault)) => resolved matches Err(error) && error@ == fault,
                (Ok(filter), Ok(directory), Ok(output)) => resolved matches Ok(config)
                    && config.filter@ == filter && config.directory@ == directory && config.output
                    == output,
            },
    {
        let filter = match Self::resolve_overridden(
            overrides.log_filter,
            overrides.log_level,
            environment.rust_log,
            environment.log_level,
        ) {
            Ok(filter) => filter,
            Err(error) => return Err(error),
        };
        let directory = match overrides.log_dir {
            Some(directory) => directory,
            None => match environment.log_dir {
                Some(directory) => match parse_directory(directory) {
                    Ok(directory) => directory,
                    Err(error) => return Err(error),
                },
                None => default_log_directory(),
            },
        };
        let output = match overrides.log_output {
            Some(output) => output,
            None => match environment_string(LoggingVariable::LogOutput, environment.log_output) {
                Err(error) => return Err(error),
                Ok(None) => LogOutput::Both,
                Ok(Some(text)) => match parse_output(text.as_str()) {
                    Ok(output) => output,
                    Err(error) => return Err(error),
                },
            },
        };
        Ok(Self { filter, directory, output })
    }

    fn resolve_overridden(
        log_filter: Option<String>,
        log_level: Option<LogLevel>,
        rust_log: EnvironmentText,
        level: EnvironmentText,
    ) -> (filter: Result<String, LoggingConfigError>)
        ensures
            is_setting(
                filter,
                if log_filter is Some {
                    Ok(log_filter.unwrap()@)
                } else if log_level is Some {
                    Ok(log_level.unwrap().name())
                } else if rust_log is NotUnicode {
                    Err(LoggingFault::NonUtf8Environment(LoggingVariable::RustLog))
                } else if rust_log is Absent && level is NotUnicode {
                    Err(LoggingFault::NonUtf8Environment(LoggingVariable::LogLevel))
                } else {
                    resolved_filter(None, text_of(rust_log), text_of(level))
                },
            ),
    {
        if let Some(filter) = log_filter {
            return Ok(filter);
        }
        if let Some(level) = log_level {
            return Ok(level.as_filter().to_owned());
        }
        let rust_log = match environment_string(LoggingVariable::RustLog, rust_log) {
            Ok(value) => value,
            Err(error) => return Err(error),
        };
        let level = if rust_log.is_none() {
            match environment_string(LoggingVariable::LogLevel, level) {
                Ok(value) => value,
                Err(error) => return Err(error),
            }
        } else {
            None
        };
        resolve_filter(None, rust_log, level)
    }
}

/// The bytes of `logs`, the directory for log files unless another is set.
pub open spec fn default_directory() -> Seq<u8> {
    seq![0x6c, 0x6f, 0x67, 0x73]
}

fn default_log_directory() -> (directory: Vec<u8>)
    ensures
        directory@ == default_directory(),
{
    let mut directory: Vec<u8> = Vec::new();
    directory.push(0x6c);
    directory.push(0x6f);
    directory.push(0x67);
    directory.push(0x73);
    assert(directory@ =~= default_directory());
    directory
}

/// The command line decides: what the environment says has no say in a setting
/// that the command line makes.
pub proof fn law_command_line_goes_first(
    overrides: LoggingOverrides,
    environment: LoggingEnvironment,
    other: LoggingEnvironment,
)
    ensures
        overrides.log_filter is Some || overrides.log_level is Some ==> LoggingConfig::filter_for(
            overrides,
            environment,
        ) == LoggingConfig::filter_for(overrides, other),
        overrides.log_dir is Some ==> LoggingConfig::directory_for(overrides, environment)
            == LoggingConfig::directory_for(overrides, other),
        overrides.log_output is Some ==> LoggingConfig::output_for(overrides, environment)
            == LoggingConfig::output_for(overrides, other),
{
}

/// A filter that is accepted has no white space at either end and is accepted
/// again as it is.
pub proof fn law_accepted_filter_is_settled(value: Seq<char>, refused: Option<Seq<char>>)
    ensures
        match filter_result(value, refused) {
            Ok(filter) => trimmed(filter) == filter && filter_result(filter, None) == Ok::<
                Seq<char>,
                LoggingFault,
            >(filter),
            Err(_) => true,
        },
{
    lemma_trimmed(value);
}

/// Trimming what is trimmed changes nothing.
proof fn lemma_trimmed(text: Seq<char>)
    ensures
        trimmed(trimmed(text)) == trimmed(text),
{
    let front = without_leading(text);
    lemma_leading(text);
    lemma_trailing(front);
    let inner = without_trailing(front);
    if inner.len() > 0 {
        assert(inner[0] == front[0]);
        assert(without_leading(inner) == inner);
    }
}

proof fn lemma_leading(text: Seq<char>)
    ensures
        without_leading(text).len() > 0 ==> !is_white_space(without_leading(text)[0]),
    decreases text.len(),
{
    if text.len() > 0 && is_white_space(text[0]) {
        lemma_leading(text.drop_first());
    }
}

proof fn lemma_trailing(text: Seq<char>)
    ensures
        without_trailing(without_trailing(text)) == without_trailing(text),
        without_trailing(text).len() <= text.len(),
        forall|i: int|
            0 <= i < without_trailing(text).len() ==> (#[trigger] without_trailing(text)[i])
                == text[i],
    decreases text.len(),
{
    if text.len() > 0 && is_white_space(text.last()) {
        lemma_trailing(text.drop_last());
    }
}

proof fn lemma_leading_is_cut(text: Seq<char>)
    ensures
        without_leading(text).len() <= text.len(),
        without_leading(text) == text.skip(text.len() - without_leading(text).len()),
        forall|i: int|
            0 <= i < text.len() - without_leading(text).len() ==> is_white_space(
                #[trigger] text[i],
            ),
        without_leading(text).len() > 0 ==> !is_white_space(without_leading(text)[0]),
    decreases text.len(),
{
    if text.len() > 0 && is_white_space(text[0]) {
        let rest = text.drop_first();
        lemma_leading_is_cut(rest);
        let cut = rest.len() - without_leading(rest).len();
        assert(rest.skip(cut) =~= text.skip(cut + 1));
        assert forall|i: int| 0 <= i < cut + 1 implies is_white_space(#[trigger] text[i]) by {
            if i > 0 {
                assert(rest[i - 1] == text[i]);
            }
        }
    } else {
        assert(text.skip(0) =~= text);
    }
}

proof fn lemma_trailing_is_cut(text: Seq<char>)
    ensures
        without_trailing(text).len() <= text.len(),
        without_trailing(text) == text.take(without_trailing(text).len() as int),
        forall|i: int|
            without_trailing(text).len() <= i < text.len() ==> is_white_space(#[trigger] text[i]),
        without_trailing(text).len() > 0 ==> !is_white_space(without_trailing(text).last()),
    decreases text.len(),
{
    if text.len() > 0 && is_white_space(text.last()) {
        let rest = text.drop_last();
        lemma_trailing_is_cut(rest);
        let kept = without_trailing(rest).len() as int;
        assert(rest.take(kept) =~= text.take(kept));
        assert forall|i: int| kept <= i < text.len() implies is_white_space(#[trigger] text[i]) by {
            if i < rest.len() {
                assert(rest[i] == text[i]);
            }
        }
    } else {
        assert(text.take(text.len() as int) =~= text);
    }
}

/// Trimming takes white space off both ends and nothing else: what is left is a part
/// of the text, what was cut off is white space, and neither end of what is left is.
pub proof fn law_trimming(text: Seq<char>)
    ensures
        exists|from: int, to: int|
            0 <= from <= to <= text.len() && #[trigger] text.subrange(from, to) == trimmed(text)
                && (forall|i: int| 0 <= i < from ==> is_white_space(#[trigger] text[i])) && (
            forall|i: int| to <= i < text.len() ==> is_white_space(#[trigger] text[i])),
        trimmed(text).len() > 0 ==> !is_white_space(trimmed(text)[0]) && !is_white_space(
            trimmed(text).last(),
        ),
{
    lemma_leading_is_cut(text);
    let later = without_leading(text);
    lemma_trailing_is_cut(later);
    let from = text.len() - later.len();
    let to = from + trimmed(text).len();
    assert(text.subrange(from, to) =~= trimmed(text)) by {
        assert(trimmed(text) == later.take(trimmed(text).len() as int));
        assert(later == text.skip(from));
    }
    assert forall|i: int| to <= i < text.len() implies is_white_space(#[trigger] text[i]) by {
        assert(later[i - from] == text[i]);
    }
    if trimmed(text).len() > 0 {
        assert(trimmed(text)[0] == later[0]);
    }
}

proof fn lemma_names_differ()
    ensures
        "off"@.len() == 3,
        "error"@.len() == 5,
        "warn"@.len() == 4,
        "info"@.len() == 4,
        "debug"@.len() == 5,
        "trace"@.len() == 5,
        "all"@.len() == 3,
        "off"@[0] == 'o',
        "all"@[0] == 'a',
        "error"@[0] == 'e',
        "debug"@[0] == 'd',
        "trace"@[0] == 't',
        "warn"@[0] == 'w',
        "info"@[0] == 'i',
        "stderr"@.len() == 6,
        "file"@.len() == 4,
        "both"@.len() == 4,
        "file"@[0] == 'f',
        "both"@[0] == 'b',
{
    reveal_strlit("off");
    reveal_strlit("error");
    reveal_strlit("warn");
    reveal_strlit("info");
    reveal_strlit("debug");
    reveal_strlit("trace");
    reveal_strlit("all");
    reveal_strlit("stderr");
    reveal_strlit("file");
    reveal_strlit("both");
}

/// A level is meant by its name, in upper or lower case, and by nothing else.
pub proof fn law_levels_go_by_their_names(text: Seq<char>, level: LogLevel)
    ensures
        LogLevel::named(text) == Some(level) <==> same_ignoring_case(text, level.name()),
{
    lemma_names_differ();
    if same_ignoring_case(text, level.name()) {
        assert(folded(text[0]) == folded(level.name()[0]));
    }
}

/// An output is meant by its name, in upper or lower case, and by nothing else.
pub proof fn law_outputs_go_by_their_names(text: Seq<char>)
    ensures
        LogOutput::named(text) == Some(LogOutput::Stderr) <==> same_ignoring_case(text, "stderr"@),
        LogOutput::named(text) == Some(LogOutput::File) <==> same_ignoring_case(text, "file"@),
        LogOutput::named(text) == Some(LogOutput::Both) <==> same_ignoring_case(text, "both"@),
{
    lemma_names_differ();
    if same_ignoring_case(text, "both"@) {
        assert(folded(text[0]) == folded("both"@[0]));
    }
}

/// What is not set on the command line is taken from the environment. A filter there
/// goes before a level, which then has no say; with neither, records from `info` on
/// are logged. Without a directory or an output, `logs` and both are meant.
pub proof fn law_environment_decides_next(
    overrides: LoggingOverrides,
    environment: LoggingEnvironment,
    other: LoggingEnvironment,
)
    requires
        overrides.log_filter is None,
        overrides.log_level is None,
        overrides.log_dir is None,
        overrides.log_output is None,
    ensures
        environment.rust_log == other.rust_log && !(environment.rust_log is Absent)
            ==> LoggingConfig::filter_for(overrides, environment) == LoggingConfig::filter_for(
            overrides,
            other,
        ),
        environment.rust_log is NotUnicode ==> LoggingConfig::filter_for(overrides, environment)
            is Err,
        environment.rust_log is Absent && environment.log_level is Absent
            ==> LoggingConfig::filter_for(overrides, environment) == Ok::<Seq<char>, LoggingFault>(
            "info"@,
        ),
        environment.rust_log is Absent && environment.log_level is NotUnicode
            ==> LoggingConfig::filter_for(overrides, environment) is Err,
        environment.rust_log is Absent && environment.log_level is Text ==> (
        LoggingConfig::filter_for(overrides, environment) is Ok <==> LogLevel::named(
            trimmed(environment.log_level->Text_0@),
        ) is Some),
        environment.log_dir is None ==> LoggingConfig::directory_for(overrides, environment)
            is Ok && LoggingConfig::directory_for(overrides, environment)->Ok_0.len() == 4,
        environment.log_dir is Some && environment.log_dir.unwrap()@.len() == 0
            ==> LoggingConfig::directory_for(overrides, environment) == Err::<
            Seq<u8>,
            LoggingFault,
        >(LoggingFault::EmptyDirectory),
        environment.log_dir is Some && environment.log_dir.unwrap()@.len() > 0
            ==> LoggingConfig::directory_for(overrides, environment) == Ok::<
            Seq<u8>,
            LoggingFault,
        >(environment.log_dir.unwrap()@),
        environment.log_output is Absent ==> LoggingConfig::output_for(overrides, environment)
            == Ok::<LogOutput, LoggingFault>(LogOutput::Both),
        environment.log_output is NotUnicode ==> LoggingConfig::output_for(overrides, environment)
            is Err,
{
}

/// Upper-case letters count as their lower-case ones, and no other characters count as
/// anything but themselves. Blanks, tabs and ends of lines are white space; what can be
/// seen of the first characters is not.
pub proof fn law_characters(c: char, other: char)
    ensures
        0x41 <= c as int <= 0x5a ==> folded(c) == c as int + 0x20,
        !(0x41 <= c as int <= 0x5a) ==> folded(c) == c as int,
        c as int == 0x20 || c as int == 0x9 || c as int == 0xa || c as int == 0xd
            ==> is_white_space(c),
        0x21 <= c as int <= 0x7e ==> !is_white_space(c),
        folded(c) == folded(other) ==> c == other || c as int + 0x20 == other as int
            || other as int + 0x20 == c as int,
{
}

} // verus!
