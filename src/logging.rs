use vstd::prelude::*;

verus! {

/// How much the tool logs.
#[derive(Clone, Copy, Debug, PartialEq, Eq, Structural)]
pub enum LogLevel {
    Info,
    Debug,
    Trace,
}

/// Logging settings, as read from the configuration file and the command line.
#[derive(Clone, Debug)]
pub struct LogConfig {
    /// Verbosity level (0-3)
    pub verbosity: u8,
    /// Directory for log files; relative paths are taken from the working directory
    pub log_directory: Option<String>,
    /// Whether to log to a file
    pub log_to_file: bool,
    /// Whether to use JSON format (for machine parsing)
    pub json_format: bool,
    /// Maximum number of log files to keep
    pub max_log_files: Option<u32>,
}

pub open spec fn is_default_config(c: LogConfig) -> bool {
    &&& c.verbosity == 0
    &&& c.log_directory is None
    &&& !c.log_to_file
    &&& !c.json_format
    &&& c.max_log_files == Some(5u32)
}

impl Default for LogConfig {
    fn default() -> (r: Self)
        ensures
            is_default_config(r),
    {
        LogConfig {
            verbosity: 0,
            log_directory: None,
            log_to_file: false,
            json_format: false,
            max_log_files: Some(5),
        }
    }
}

pub open spec fn level_for(verbosity: u8) -> LogLevel {
    if verbosity == 0 {
        LogLevel::Info
    } else if verbosity == 1 {
        LogLevel::Debug
    } else {
        LogLevel::Trace
    }
}

/// `dir` followed by the path component `logs`.
pub open spec fn logs_under(dir: Seq<char>) -> Seq<char> {
    if dir.len() == 0 {
        seq!['l', 'o', 'g', 's']
    } else if dir.last() == '/' {
        dir + seq!['l', 'o', 'g', 's']
    } else {
        dir + seq!['/', 'l', 'o', 'g', 's']
    }
}

/// Relies on `directories::ProjectDirs::from` and `ProjectDirs::data_dir`: the
/// per-user data directory of the application, where the platform has one. It
/// depends on the environment, so nothing is stated of it.
#[verifier::external_body]
fn project_data_dir(qualifier: &str, organization: &str, application: &str) -> (r: Option<String>) {
    directories::ProjectDirs::from(qualifier, organization, application).map(
        |d| d.data_dir().to_string_lossy().into_owned(),
    )
}

impl LogConfig {
    pub fn get_log_level(&self) -> (r: LogLevel)
        ensures
            r == level_for(self.verbosity),
    {
        match self.verbosity {
            0 => LogLevel::Info,
            1 => LogLevel::Debug,
            _ => LogLevel::Trace,
        }
    }

    /// The configured log directory, else `logs` under the given data directory,
    /// else `./logs`.
    pub fn log_directory_from(&self, data_dir: Option<String>) -> (r: String)
        ensures
            self.log_directory matches Some(d) ==> r@ == d@,
            self.log_directory is None ==> (data_dir matches Some(d) ==> r@ == logs_under(d@)),
            self.log_directory is None && data_dir is None ==> r@ == seq!['.', '/', 'l', 'o', 'g', 's'],
    {
        if let Some(dir) = &self.log_directory {
            dir.clone()
        } else if let Some(d) = data_dir {
            let n = d.as_str().unicode_len();
            if n == 0 {
                proof {
                    reveal_strlit("logs");
                }
                String::from_str("logs")
            } else if d.as_str().get_char(n - 1) == '/' {
                let mut r = d;
                proof {
                    reveal_strlit("logs");
                }
                r.append("logs");
                r
            } else {
                let mut r = d;
                proof {
                    reveal_strlit("/logs");
                }
                r.append("/logs");
                r
            }
        } else {
            proof {
                reveal_strlit("./logs");
            }
            String::from_str("./logs")
        }
    }

    /// The log directory: the configured one, else `logs` under the user's data
    /// directory for this tool, else `./logs`.
    pub fn get_log_directory(&self) -> (r: String)
        ensures
            self.log_directory matches Some(d) ==> r@ == d@,
            self.log_directory is None ==> (r@ == seq!['.', '/', 'l', 'o', 'g', 's'] || exists|
                d: Seq<char>,
            | r@ == logs_under(d)),
    {
        let data_dir = project_data_dir("com", "biolens", "biolens");
        let ghost dd: Option<Seq<char>> = match &data_dir {
            Some(d) => Some(d@),
            None => None,
        };
        let r = self.log_directory_from(data_dir);
        proof {
            if self.log_directory is None && dd is Some {
                assert(r@ == logs_under(dd->0));
            }
        }
        r
    }
}

/// A default configuration with the given command-line switches.
pub fn build_config_from_args(verbosity: u8, log_to_file: bool, json_format: bool) -> (r: LogConfig)
    ensures
        r.verbosity == verbosity,
        r.log_to_file == log_to_file,
        r.json_format == json_format,
        r.log_directory is None,
        r.max_log_files == Some(5u32),
{
    let base = LogConfig::default();
    LogConfig { verbosity, log_to_file, json_format, ..base }
}

/// The configuration with each switch that was given on the command line put
/// in place of the stored one.
pub fn apply_overrides(
    config: LogConfig,
    verbosity_arg: Option<u8>,
    log_to_file_arg: Option<bool>,
    json_format_arg: Option<bool>,
) -> (r: LogConfig)
    ensures
        r.verbosity == (match verbosity_arg {
            Some(v) => v,
            None => config.verbosity,
        }),
        r.log_to_file == (match log_to_file_arg {
            Some(l) => l,
            None => config.log_to_file,
        }),
        r.json_format == (match json_format_arg {
            Some(j) => j,
            None => config.json_format,
        }),
        r.log_directory == config.log_directory,
        r.max_log_files == config.max_log_files,
{
    let mut config = config;
    if let Some(v) = verbosity_arg {
        config.verbosity = v;
    }
    if let Some(l) = log_to_file_arg {
        config.log_to_file = l;
    }
    if let Some(j) = json_format_arg {
        config.json_format = j;
    }
    config
}

} // verus!
