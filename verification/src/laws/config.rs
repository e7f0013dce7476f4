//! What the configuration in force is.

use crate::config::{
    file_job_name, file_pid, file_renice, first_of, in_force, interval_of, metadata_of, Cli, Config,
    JobMetadata, TomlConfig, TomlJob, TomlTracker,
};
use vstd::prelude::*;

verus! {

/// Each field of the metadata is the field of the same name on the command line.
pub proof fn lemma_metadata_is_the_command_lines(
    cli: Cli,
    file: Option<TomlConfig>,
    m: JobMetadata,
)
    requires
        metadata_of(cli, file, m),
    ensures
        m.project_name == cli.project_name,
        m.stage_name == cli.stage_name,
        m.task_name == cli.task_name,
        m.team == cli.team,
        m.env == cli.env,
        m.language == cli.language,
        m.orchestrator == cli.orchestrator,
        m.executor == cli.executor,
        m.external_run_id == cli.external_run_id,
        m.container_image == cli.container_image,
        m.tags == cli.tags,
        m.command@.len() == cli.command@.len(),
        forall|i: int|
            0 <= i < cli.command@.len() ==> (#[trigger] m.command@[i])@ == cli.command@[i]@,
        cli.job_name is Some ==> m.job_name == cli.job_name,
        cli.job_name is None && file is None ==> m.job_name is None,
        cli.job_name is None && file is Some && file->0.job is None ==> m.job_name is None,
        cli.job_name is None && file is Some && file->0.job is Some ==> m.job_name
            == file->0.job->0.name,
{
    let (ours, theirs) = (
        crate::text::texts_of(m.command@),
        crate::text::texts_of(cli.command@),
    );
    assert(ours.len() == m.command@.len() && theirs.len() == cli.command@.len());
    assert forall|i: int| 0 <= i < cli.command@.len() implies (#[trigger] m.command@[i])@
        == cli.command@[i]@ by {
        assert(ours[i] == theirs[i]);
    }
}

/// What is in force, setting by setting: the command line's where it says something,
/// else the file's, else nothing, or one second for the interval.  What only the
/// command line can say is as it says.
pub proof fn lemma_settings_in_force(cli: Cli, file: Option<TomlConfig>, c: Config)
    requires
        in_force(cli, file, c),
    ensures
        c.format == cli.format,
        c.output_file == cli.output,
        c.quiet == cli.quiet,
        c.command == cli.command,
        cli.pid is Some ==> c.pid == cli.pid,
        cli.renice is Some ==> c.renice == cli.renice,
        cli.interval is Some ==> c.interval_secs == cli.interval->0,
        file is None ==> {
            &&& c.pid == cli.pid
            &&& c.renice == cli.renice
            &&& cli.interval is None ==> c.interval_secs == 1
        },
        file is Some && cli.pid is None ==> c.pid == (match file->0.job {
            Some(job) => job.pid,
            None => None,
        }),
        file is Some && cli.interval is None ==> c.interval_secs == (match file->0.tracker {
            Some(tracker) => match tracker.interval_secs {
                Some(secs) => secs,
                None => 1u64,
            },
            None => 1u64,
        }),
        file is Some && cli.renice is None ==> {
            let asked = match file->0.tracker {
                Some(tracker) => tracker.renice,
                None => None,
            };
            &&& asked is None ==> c.renice is None
            &&& asked is Some && 0 <= asked->0 <= 19 ==> c.renice == asked
            &&& asked is Some && !(0 <= asked->0 <= 19) ==> c.renice is None
        },
{
}

/// The interval is the command line's, else the section's on the tracker in the
/// file, else one second.
pub proof fn lemma_interval_in_force(cli: Cli, job: Option<TomlJob>, tracker: TomlTracker)
    ensures
        cli.interval matches Some(secs) ==> forall|file: Option<TomlConfig>|
            #[trigger] interval_of(cli, file) == secs,
        cli.interval is None ==> interval_of(cli, None) == 1,
        cli.interval is None ==> interval_of(cli, Some(TomlConfig { job, tracker: None })) == 1,
        cli.interval is None ==> interval_of(
            cli,
            Some(TomlConfig { job, tracker: Some(tracker) }),
        ) == (match tracker.interval_secs {
            Some(secs) => secs,
            None => 1u64,
        }),
{
}

/// What the file says of the process and of the nice value; a nice value counts from
/// 0 to 19.
pub proof fn lemma_what_the_file_says(job: TomlJob, tracker: TomlTracker)
    ensures
        file_pid(None) is None,
        file_pid(Some(TomlConfig { job: None, tracker: Some(tracker) })) is None,
        file_pid(Some(TomlConfig { job: Some(job), tracker: Some(tracker) })) == job.pid,
        file_pid(Some(TomlConfig { job: Some(job), tracker: None })) == job.pid,
        file_job_name(Some(TomlConfig { job: Some(job), tracker: None })) == job.name,
        file_renice(None) is None,
        file_renice(Some(TomlConfig { job: Some(job), tracker: None })) is None,
        tracker.renice is None ==> file_renice(
            Some(TomlConfig { job: Some(job), tracker: Some(tracker) }),
        ) is None,
        tracker.renice matches Some(n) ==> {
            let full = file_renice(Some(TomlConfig { job: Some(job), tracker: Some(tracker) }));
            let bare = file_renice(Some(TomlConfig { job: None, tracker: Some(tracker) }));
            &&& 0 <= n <= 19 ==> full == Some(n) && bare == Some(n)
            &&& !(0 <= n <= 19) ==> full is None && bare is None
        },
{
}

/// What is said first holds.
pub proof fn lemma_first_said_holds<T>(first: Option<T>, second: Option<T>)
    ensures
        first is Some ==> first_of(first, second) == first,
        first is None ==> first_of(first, second) == second,
{
}

} // verus!
