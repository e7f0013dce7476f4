use resource_tracker::config::{
    Cli, Config, ConfigError, JobMetadata, OutputFormat, TomlConfig, TomlJob, TomlTracker,
    DEFAULT_CONFIG_FILE, RENICE_MAX, RENICE_MIN,
};

fn cli() -> Cli {
    Cli {
        pid: None,
        interval: None,
        renice: None,
        config: DEFAULT_CONFIG_FILE.to_string(),
        format: OutputFormat::Json,
        output: None,
        quiet: false,
        project_name: None,
        job_name: None,
        stage_name: None,
        task_name: None,
        team: None,
        env: None,
        language: None,
        orchestrator: None,
        executor: None,
        external_run_id: None,
        container_image: None,
        tags: vec![],
        command: vec![],
    }
}

fn file(name: &str, pid: i32, interval: u64, renice: i32) -> TomlConfig {
    TomlConfig {
        job: Some(TomlJob { name: Some(name.to_string()), pid: Some(pid) }),
        tracker: Some(TomlTracker { interval_secs: Some(interval), renice: Some(renice) }),
    }
}

#[test]
fn test_toml_config_default_is_all_none() {
    let cfg = TomlConfig::default();
    assert!(cfg.job.is_none(), "job must be None in default TomlConfig");
    assert!(
        cfg.tracker.is_none(),
        "tracker must be None in default TomlConfig"
    );
}

#[test]
fn test_job_metadata_default_all_none() {
    let m = JobMetadata::default();
    assert!(m.project_name.is_none());
    assert!(m.job_name.is_none());
    assert!(m.stage_name.is_none());
    assert!(m.task_name.is_none());
    assert!(m.team.is_none());
    assert!(m.env.is_none());
    assert!(m.language.is_none());
    assert!(m.orchestrator.is_none());
    assert!(m.executor.is_none());
    assert!(m.external_run_id.is_none());
    assert!(m.container_image.is_none());
    assert!(
        m.tags.is_empty(),
        "tags must be empty in default JobMetadata"
    );
}

#[test]
fn test_output_format_equality() {
    assert_eq!(OutputFormat::Json, OutputFormat::Json);
    assert_eq!(OutputFormat::Csv, OutputFormat::Csv);
    assert_ne!(OutputFormat::Json, OutputFormat::Csv);
}

#[test]
fn defaults_apply_where_nothing_is_said() {
    let c = Config::load(cli(), None).unwrap();
    assert_eq!(c.interval_secs, 1);
    assert_eq!(c.renice, None);
    assert_eq!(c.pid, None);
    assert_eq!(c.metadata.job_name, None);
    assert_eq!(c.format, OutputFormat::Json);
    assert!(!c.quiet);
    assert!(c.command.is_empty());
}

#[test]
fn file_wins_over_defaults() {
    let c = Config::load(cli(), Some(file("bench", 42, 5, 7))).unwrap();
    assert_eq!(c.interval_secs, 5);
    assert_eq!(c.renice, Some(7));
    assert_eq!(c.pid, Some(42));
    assert_eq!(c.metadata.job_name.as_deref(), Some("bench"));
}

#[test]
fn command_line_wins_over_file() {
    let mut args = cli();
    args.interval = Some(2);
    args.renice = Some(19);
    args.pid = Some(7);
    args.job_name = Some("mine".to_string());
    args.format = OutputFormat::Csv;
    args.output = Some("out.csv".to_string());
    args.quiet = true;
    args.team = Some("core".to_string());
    args.tags = vec!["a=b".to_string()];
    args.command = vec!["stress".to_string(), "--cpu".to_string()];
    let c = Config::load(args, Some(file("bench", 42, 5, 7))).unwrap();
    assert_eq!(c.interval_secs, 2);
    assert_eq!(c.renice, Some(19));
    assert_eq!(c.pid, Some(7));
    assert_eq!(c.metadata.job_name.as_deref(), Some("mine"));
    assert_eq!(c.metadata.team.as_deref(), Some("core"));
    assert_eq!(c.metadata.tags, vec!["a=b".to_string()]);
    assert_eq!(c.format, OutputFormat::Csv);
    assert_eq!(c.output_file.as_deref(), Some("out.csv"));
    assert!(c.quiet);
    assert_eq!(c.command, vec!["stress".to_string(), "--cpu".to_string()]);
    assert_eq!(c.metadata.command, c.command);
}

#[test]
fn an_interval_of_zero_is_refused() {
    let mut args = cli();
    args.interval = Some(0);
    let e = Config::load(args, Some(file("bench", 42, 5, 7))).unwrap_err();
    assert_eq!(e, ConfigError::ZeroInterval);
    assert_eq!(e.message(), "error: --interval must be >= 1 (got 0)");
    assert!(Config::load(cli(), Some(file("bench", 42, 0, 7))).is_err());
}

#[test]
fn nice_values_have_bounds() {
    for n in [-5, -1, 20, i32::MIN, i32::MAX] {
        // The file's is passed over, the command line's is refused.
        let c = Config::load(cli(), Some(file("bench", 42, 5, n))).unwrap();
        assert_eq!(c.renice, None);
        assert_eq!(c.interval_secs, 5);
        let mut args = cli();
        args.renice = Some(n);
        let e = Config::load(args, Some(file("bench", 42, 5, 7))).unwrap_err();
        assert_eq!(e, ConfigError::NiceOutOfRange);
        assert_eq!(e.message(), "error: --renice must be in 0..=19");
        let mut args = cli();
        args.renice = Some(3);
        assert_eq!(Config::load(args, Some(file("bench", 42, 5, n))).unwrap().renice, Some(3));
    }
    for n in [0, 19] {
        assert_eq!(Config::load(cli(), Some(file("bench", 42, 5, n))).unwrap().renice, Some(n));
    }
    assert_eq!((RENICE_MIN, RENICE_MAX), (0, 19));
    assert_eq!(DEFAULT_CONFIG_FILE, "resource-tracker.toml");
}
