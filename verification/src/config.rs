//! Configuration: command line over configuration file over defaults.

use vstd::prelude::*;

verus! {

/// The interval where nothing else is asked for, in seconds.
pub const DEFAULT_INTERVAL_SECS: u64 = 1;

/// The lowest nice value that the tracker may be given.
pub const RENICE_MIN: i64 = 0;

/// The highest nice value that the tracker may be given.
pub const RENICE_MAX: i64 = 19;

/// The configuration file where no other is named.
pub const DEFAULT_CONFIG_FILE: &'static str = "resource-tracker.toml";

/// Output format emitted on each polling interval.
#[derive(Debug, Clone, Copy, PartialEq, Eq, Structural)]
pub enum OutputFormat {
    /// One JSON object per line.
    Json,
    /// A header, then one row per interval.
    Csv,
}

/// The configuration file.
#[derive(Debug)]
pub struct TomlConfig {
    pub job: Option<TomlJob>,
    pub tracker: Option<TomlTracker>,
}

/// The section on the job.
#[derive(Debug)]
pub struct TomlJob {
    /// Human-readable label attached to every sample.
    pub name: Option<String>,
    /// Root of the process tree to track.
    pub pid: Option<i32>,
}

/// The section on the tracker itself.
#[derive(Debug)]
pub struct TomlTracker {
    /// How often to emit a sample, in seconds.
    pub interval_secs: Option<u64>,
    /// Nice value of the tracker.
    pub renice: Option<i32>,
}

impl Default for TomlConfig {
    /// A file that says nothing.
    fn default() -> (r: Self)
        ensures
            r.job is None,
            r.tracker is None,
    {
        TomlConfig { job: None, tracker: None }
    }
}

/// Metadata of the job, sent along when a run is registered.
#[derive(Debug, Clone)]
pub struct JobMetadata {
    pub project_name: Option<String>,
    pub job_name: Option<String>,
    pub stage_name: Option<String>,
    pub task_name: Option<String>,
    pub team: Option<String>,
    pub env: Option<String>,
    pub language: Option<String>,
    pub orchestrator: Option<String>,
    pub executor: Option<String>,
    pub external_run_id: Option<String>,
    pub container_image: Option<String>,
    /// Arbitrary `key=value` tags.
    pub tags: Vec<String>,
    /// The wrapped command; empty when there is none.
    pub command: Vec<String>,
}

impl Default for JobMetadata {
    /// No metadata.
    fn default() -> (r: Self)
        ensures
            r.project_name is None,
            r.job_name is None,
            r.stage_name is None,
            r.task_name is None,
            r.team is None,
            r.env is None,
            r.language is None,
            r.orchestrator is None,
            r.executor is None,
            r.external_run_id is None,
            r.container_image is None,
            r.tags@.len() == 0,
            r.command@.len() == 0,
    {
        JobMetadata {
            project_name: None,
            job_name: None,
            stage_name: None,
            task_name: None,
            team: None,
            env: None,
            language: None,
            orchestrator: None,
            executor: None,
            external_run_id: None,
            container_image: None,
            tags: Vec::new(),
            command: Vec::new(),
        }
    }
}

/// What the command line and the environment say.
#[derive(Debug)]
pub struct Cli {
    pub pid: Option<i32>,
    pub interval: Option<u64>,
    pub renice: Option<i32>,
    /// Path of the configuration file.
    pub config: String,
    pub format: OutputFormat,
    pub output: Option<String>,
    pub quiet: bool,
    pub project_name: Option<String>,
    pub job_name: Option<String>,
    pub stage_name: Option<String>,
    pub task_name: Option<String>,
    pub team: Option<String>,
    pub env: Option<String>,
    pub language: Option<String>,
    pub orchestrator: Option<String>,
    pub executor: Option<String>,
    pub external_run_id: Option<String>,
    pub container_image: Option<String>,
    pub tags: Vec<String>,
    /// The command to spawn and monitor.
    pub command: Vec<String>,
}

/// Resolved configuration.
#[derive(Debug, Clone)]
pub struct Config {
    /// Root of the process tree to track; `None` is system-wide only.
    pub pid: Option<i32>,
    /// Polling interval in seconds.
    pub interval_secs: u64,
    /// Nice value applied to the tracker process itself (0..=19).
    pub renice: Option<i32>,
    pub format: OutputFormat,
    /// Where to write metrics instead of the terminal.
    pub output_file: Option<String>,
    /// Suppress all metric output.
    pub quiet: bool,
    pub metadata: JobMetadata,
    /// The wrapped command; empty when there is none.
    pub command: Vec<String>,
}

/// Why a configuration is refused.
#[derive(Debug, Clone, Copy, PartialEq, Eq, Structural)]
pub enum ConfigError {
    /// An interval of no length.
    ZeroInterval,
    /// A nice value on the command line that is out of range.
    NiceOutOfRange,
}

impl ConfigError {
    /// What to tell the user.
    pub fn message(&self) -> (r: &'static str)
        ensures
            r@ == (match self {
                ConfigError::ZeroInterval => "error: --interval must be >= 1 (got 0)"@,
                ConfigError::NiceOutOfRange => "error: --renice must be in 0..=19"@,
            }),
    {
        match self {
            ConfigError::ZeroInterval => "error: --interval must be >= 1 (got 0)",
            ConfigError::NiceOutOfRange => "error: --renice must be in 0..=19",
        }
    }
}

/// `first` if it says something, else `second`.
pub open spec fn first_of<T>(first: Option<T>, second: Option<T>) -> Option<T> {
    match first {
        Some(x) => Some(x),
        None => second,
    }
}

/// The interval that the file asks for.
pub open spec fn file_interval(file: Option<TomlConfig>) -> Option<u64> {
    match file {
        Some(TomlConfig { job, tracker: Some(t) }) => t.interval_secs,
        _ => None,
    }
}

/// A nice value that the tracker may be given.
pub open spec fn is_nice(n: i32) -> bool {
    RENICE_MIN <= n <= RENICE_MAX
}

/// The nice value that the file asks for.  One that is out of range counts as not
/// given.
pub open spec fn file_renice(file: Option<TomlConfig>) -> Option<i32> {
    match file {
        Some(TomlConfig { job, tracker: Some(t) }) => match t.renice {
            Some(n) if is_nice(n) => Some(n),
            _ => None,
        },
        _ => None,
    }
}

/// The process that the file names.
pub open spec fn file_pid(file: Option<TomlConfig>) -> Option<i32> {
    match file {
        Some(TomlConfig { job: Some(j), tracker }) => j.pid,
        _ => None,
    }
}

/// The job name that the file gives.
pub open spec fn file_job_name(file: Option<TomlConfig>) -> Option<String> {
    match file {
        Some(TomlConfig { job: Some(j), tracker }) => j.name,
        _ => None,
    }
}

/// The interval that is in force.
pub open spec fn interval_of(cli: Cli, file: Option<TomlConfig>) -> u64 {
    match first_of(cli.interval, file_interval(file)) {
        Some(secs) => secs,
        None => DEFAULT_INTERVAL_SECS,
    }
}

/// The metadata of a command line and a file: the command line's own, with the
/// job name of the file where it gives none.
pub open spec fn metadata_of(cli: Cli, file: Option<TomlConfig>, m: JobMetadata) -> bool {
    &&& m.project_name == cli.project_name
    &&& m.job_name == first_of(cli.job_name, file_job_name(file))
    &&& m.stage_name == cli.stage_name
    &&& m.task_name == cli.task_name
    &&& m.team == cli.team
    &&& m.env == cli.env
    &&& m.language == cli.language
    &&& m.orchestrator == cli.orchestrator
    &&& m.executor == cli.executor
    &&& m.external_run_id == cli.external_run_id
    &&& m.container_image == cli.container_image
    &&& m.tags == cli.tags
    &&& crate::text::texts_of(m.command@) == crate::text::texts_of(cli.command@)
}

/// `c` is what a command line and a file bring into force.
pub open spec fn in_force(cli: Cli, file: Option<TomlConfig>, c: Config) -> bool {
    &&& c.interval_secs == interval_of(cli, file)
    &&& c.renice == first_of(cli.renice, file_renice(file))
    &&& c.pid == first_of(cli.pid, file_pid(file))
    &&& c.format == cli.format
    &&& c.output_file == cli.output
    &&& c.quiet == cli.quiet
    &&& metadata_of(cli, file, c.metadata)
    &&& c.command == cli.command
}

/// A copy of a list of strings.
fn copy_strings(v: &Vec<String>) -> (r: Vec<String>)
    ensures
        crate::text::texts_of(r@) == crate::text::texts_of(v@),
{
    let mut r: Vec<String> = Vec::new();
    let mut i: usize = 0;
    while i < v.len()
        invariant
            i <= v@.len(),
            r@.len() == i,
            forall|k: int| 0 <= k < i ==> (#[trigger] r@[k])@ == v@[k]@,
        decreases v@.len() - i,
    {
        r.push(v[i].clone());
        i += 1;
    }
    assert(crate::text::texts_of(r@) =~= crate::text::texts_of(v@));
    r
}

/// Whether the tracker may be given this nice value.
fn nice_in_range(n: i32) -> (r: bool)
    ensures
        r == is_nice(n),
{
    RENICE_MIN <= n as i64 && n as i64 <= RENICE_MAX
}

impl Config {
    /// Merges the command line, the configuration file and the defaults: the
    /// command line wins, the file wins over the defaults.  A file that is missing
    /// or cannot be read says nothing, and neither does a nice value in it that is
    /// out of range.  An interval of no length is refused, and so is a nice value
    /// out of range on the command line.
    pub fn load(cli: Cli, file: Option<TomlConfig>) -> (r: Result<Config, ConfigError>)
        ensures
            r == Err::<Config, ConfigError>(ConfigError::ZeroInterval) <==> interval_of(cli, file)
                == 0,
            r == Err::<Config, ConfigError>(ConfigError::NiceOutOfRange) <==> interval_of(cli, file)
                != 0 && (cli.renice matches Some(n) && !is_nice(n)),
            r matches Ok(c) ==> in_force(cli, file, c),
            r matches Ok(c) ==> {
                &&& c.interval_secs == interval_of(cli, file)
                &&& c.interval_secs >= 1
                &&& c.renice == first_of(cli.renice, file_renice(file))
                &&& c.renice matches Some(n) ==> RENICE_MIN <= n <= RENICE_MAX
                &&& c.pid == first_of(cli.pid, file_pid(file))
                &&& c.format == cli.format
                &&& c.output_file == cli.output
                &&& c.quiet == cli.quiet
                &&& metadata_of(cli, file, c.metadata)
                &&& c.command == cli.command
            },
            r matches Ok(c) ==> {
                &&& c.metadata.project_name == cli.project_name
                &&& c.metadata.stage_name == cli.stage_name
                &&& c.metadata.task_name == cli.task_name
                &&& c.metadata.team == cli.team
                &&& c.metadata.env == cli.env
                &&& c.metadata.language == cli.language
                &&& c.metadata.orchestrator == cli.orchestrator
                &&& c.metadata.executor == cli.executor
                &&& c.metadata.external_run_id == cli.external_run_id
                &&& c.metadata.container_image == cli.container_image
                &&& c.metadata.tags == cli.tags
            },
            r matches Ok(c) ==> {
                &&& cli.job_name is Some ==> c.metadata.job_name == cli.job_name
                &&& cli.pid is Some ==> c.pid == cli.pid
                &&& cli.renice is Some ==> c.renice == cli.renice
                &&& cli.interval is Some ==> c.interval_secs == cli.interval->0
                &&& file is None ==> {
                    &&& c.metadata.job_name == cli.job_name
                    &&& c.pid == cli.pid
                    &&& c.renice == cli.renice
                    &&& cli.interval is None ==> c.interval_secs == 1
                }
            },
    {
        let (file_job, file_tracker): (Option<TomlJob>, Option<TomlTracker>) = match file {
            Some(f) => (f.job, f.tracker),
            None => (None, None),
        };
        let (file_interval_secs, file_nice): (Option<u64>, Option<i32>) = match file_tracker {
            Some(t) => (t.interval_secs, t.renice),
            None => (None, None),
        };
        let (file_name, file_root): (Option<String>, Option<i32>) = match file_job {
            Some(j) => (j.name, j.pid),
            None => (None, None),
        };
        let interval_secs: u64 = match cli.interval {
            Some(secs) => secs,
            None => match file_interval_secs {
                Some(secs) => secs,
                None => DEFAULT_INTERVAL_SECS,
            },
        };
        if interval_secs == 0 {
            return Err(ConfigError::ZeroInterval);
        }
        let renice: Option<i32> = match cli.renice {
            Some(n) => {
                if !nice_in_range(n) {
                    return Err(ConfigError::NiceOutOfRange);
                }
                Some(n)
            },
            None => match file_nice {
                Some(n) => if nice_in_range(n) {
                    Some(n)
                } else {
                    None
                },
                None => None,
            },
        };
        let pid: Option<i32> = if cli.pid.is_some() {
            cli.pid
        } else {
            file_root
        };
        let job_name: Option<String> = match cli.job_name {
            Some(name) => Some(name),
            None => file_name,
        };
        let metadata: JobMetadata = JobMetadata {
            project_name: cli.project_name,
            job_name,
            stage_name: cli.stage_name,
            task_name: cli.task_name,
            team: cli.team,
            env: cli.env,
            language: cli.language,
            orchestrator: cli.orchestrator,
            executor: cli.executor,
            external_run_id: cli.external_run_id,
            container_image: cli.container_image,
            tags: cli.tags,
            command: copy_strings(&cli.command),
        };
        Ok(
            Config {
                pid,
                interval_secs,
                renice,
                format: cli.format,
                output_file: cli.output,
                quiet: cli.quiet,
                metadata,
                command: cli.command,
            },
        )
    }
}

/// What the command line says is in force, whatever the file says.
pub proof fn lemma_command_line_wins(cli: Cli, file: Option<TomlConfig>)
    ensures
        cli.interval matches Some(secs) ==> interval_of(cli, file) == secs,
        cli.renice is Some ==> first_of(cli.renice, file_renice(file)) == cli.renice,
        cli.pid is Some ==> first_of(cli.pid, file_pid(file)) == cli.pid,
        cli.job_name is Some ==> first_of(cli.job_name, file_job_name(file)) == cli.job_name,
{
}

/// What the file says is in force where the command line says nothing.
pub proof fn lemma_file_wins_over_defaults(cli: Cli, file: Option<TomlConfig>)
    ensures
        cli.interval is None && file_interval(file) is Some ==> interval_of(cli, file)
            == file_interval(file)->0,
        cli.interval is None && file_interval(file) is None ==> interval_of(cli, file)
            == DEFAULT_INTERVAL_SECS,
        cli.renice is None ==> first_of(cli.renice, file_renice(file)) == file_renice(file),
        cli.pid is None ==> first_of(cli.pid, file_pid(file)) == file_pid(file),
        cli.job_name is None ==> first_of(cli.job_name, file_job_name(file)) == file_job_name(file),
{
}

} // verus!
