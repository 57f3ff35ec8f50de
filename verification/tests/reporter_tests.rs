use brioche::fanout::{FanOut, FanOutStep, UPLOAD_CONCURRENCY_LIMIT};
use brioche::reporter::{
    visible_jobs, ConsoleState, Job, JobId, NewJob, ProcessPacket, ProcessStatus, Reporter,
    UpdateJob,
};

#[test]
fn process_packet_bytes_returns_the_payload() {
    let p = ProcessPacket::Stdout(b"out line".to_vec());
    assert_eq!(p.bytes(), b"out line");
    let p = ProcessPacket::Stderr(b"err line".to_vec());
    assert_eq!(p.bytes(), b"err line");
}

#[test]
fn reporter_hands_out_ids_in_order() {
    let mut reporter = Reporter::new();
    let a = reporter.add_job(NewJob::Unpack);
    let b = reporter.add_job(NewJob::Download { url: b"https://example/x".to_vec() });
    assert_eq!(a, JobId(0));
    assert_eq!(b, JobId(1));
    reporter.update_job(a, UpdateJob::Unpack { progress_percent: 50 });
    reporter.emit(b"one line".to_vec());
}

#[test]
fn job_updates_change_state_and_completion() {
    let mut job = Job::new(NewJob::Unpack);
    assert!(!job.is_complete());
    job.update(UpdateJob::Unpack { progress_percent: 100 }).unwrap();
    assert!(job.is_complete());
    // an update of the wrong kind is rejected and changes nothing
    assert!(job.update(UpdateJob::Download { progress_percent: Some(10) }).is_err());
    assert!(job.is_complete());

    let mut dl = Job::new(NewJob::Download { url: b"https://example/y".to_vec() });
    assert!(!dl.is_complete());
    dl.update(UpdateJob::Download { progress_percent: None }).unwrap();
    assert!(!dl.is_complete());
    dl.update(UpdateJob::Download { progress_percent: Some(100) }).unwrap();
    assert!(dl.is_complete());

    let start = ProcessStatus::Running { child_id: Some(7), start_millis: 1_000 };
    let mut proc = Job::new(NewJob::Process { status: start });
    assert!(!proc.is_complete());
    assert_eq!(start.child_id(), Some(7));
    assert_eq!(start.elapsed(3_500), 2_500);
    let exited = ProcessStatus::Exited { child_id: Some(7), code: Some(0), elapsed_millis: 2_500 };
    proc.update(UpdateJob::Process {
        packet: Some(ProcessPacket::Stdout(b"done".to_vec())),
        status: exited,
    })
    .unwrap();
    assert!(proc.is_complete());
    assert_eq!(exited.elapsed(9_999), 2_500);
}

#[test]
fn console_applies_events_to_its_job_table() {
    let mut console = ConsoleState::new();
    console.add_job(JobId(0), NewJob::Unpack);
    console.update_job(JobId(0), UpdateJob::Unpack { progress_percent: 100 });
    // updates to unknown jobs are ignored
    console.update_job(JobId(9), UpdateJob::Unpack { progress_percent: 1 });
}

#[test]
fn visible_jobs_shows_incomplete_first_and_caps_completed() {
    let done = ProcessStatus::Exited { child_id: None, code: Some(0), elapsed_millis: 10 };
    let mut jobs: Vec<(JobId, Job)> = Vec::new();
    // four completed processes, announced in order 0..4
    for i in 0..4usize {
        let mut j = Job::new(NewJob::Process {
            status: ProcessStatus::Running { child_id: None, start_millis: 0 },
        });
        j.update(UpdateJob::Process { packet: None, status: done }).unwrap();
        jobs.push((JobId(i), j));
    }
    // one incomplete download, announced last
    jobs.push((JobId(4), Job::new(NewJob::Download { url: b"u".to_vec() })));
    let visible = visible_jobs(jobs, 10);
    // the incomplete job first, then at most three completed ones,
    // newest first
    assert_eq!(visible, vec![JobId(4), JobId(3), JobId(2), JobId(1)]);
}

#[test]
fn fan_out_never_exceeds_its_capacity() {
    let items: Vec<u64> = (0..40u64).collect();
    let mut fan = FanOut::for_uploads(items);
    let mut launched = 0usize;
    while matches!(fan.next_step(), FanOutStep::Launch) {
        fan.launch();
        launched += 1;
    }
    assert_eq!(launched, UPLOAD_CONCURRENCY_LIMIT);
    assert!(matches!(fan.next_step(), FanOutStep::AwaitOne));
    fan.complete(0);
    assert!(matches!(fan.next_step(), FanOutStep::Launch));
    // drain everything
    loop {
        match fan.next_step() {
            FanOutStep::Launch => {
                fan.launch();
            },
            FanOutStep::AwaitOne => {
                fan.complete(0);
            },
            FanOutStep::Finished => break,
        }
    }
}
