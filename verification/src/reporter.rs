//! Progress reporting: jobs, their state transitions, and the order the
//! console shows them in.
//!
//! The reporter hands out job ids and records events; a console applies
//! those events to its job table.  Rendering itself — terminals, ticks,
//! log sinks — is outside the library; what is here is every decision the
//! renderer relies on: how a job update changes its state, when a job
//! counts as complete, and which jobs are visible in what order.

use vstd::prelude::*;

use crate::keyed::{AssocMap, EqKey};

verus! {

/// A packet of process output.
pub enum ProcessPacket {
    Stdout(Vec<u8>),
    Stderr(Vec<u8>),
}

impl ProcessPacket {
    /// The packet's payload, whichever stream it came from.
    pub open spec fn spec_bytes(self) -> Seq<u8> {
        match self {
            ProcessPacket::Stdout(b) => b@,
            ProcessPacket::Stderr(b) => b@,
        }
    }

    pub fn bytes(&self) -> (r: &[u8])
        ensures
            r@ == self.spec_bytes(),
    {
        match self {
            ProcessPacket::Stdout(b) => b.as_slice(),
            ProcessPacket::Stderr(b) => b.as_slice(),
        }
    }
}

/// The observed state of a sandboxed process, with instants carried as
/// milliseconds.
#[derive(Clone, Copy, PartialEq, Eq, Structural, Debug)]
pub enum ProcessStatus {
    Running { child_id: Option<u32>, start_millis: u64 },
    Exited { child_id: Option<u32>, code: Option<i32>, elapsed_millis: u64 },
}

impl ProcessStatus {
    /// The child process id, when one was observed.
    pub open spec fn spec_child_id(self) -> Option<u32> {
        match self {
            ProcessStatus::Running { child_id, .. } => child_id,
            ProcessStatus::Exited { child_id, .. } => child_id,
        }
    }

    pub fn child_id(&self) -> (r: Option<u32>)
        ensures
            r == self.spec_child_id(),
    {
        match self {
            ProcessStatus::Running { child_id, .. } => *child_id,
            ProcessStatus::Exited { child_id, .. } => *child_id,
        }
    }

    /// Time spent: up to `now_millis` while running, the recorded span
    /// once exited.
    pub open spec fn spec_elapsed(self, now_millis: u64) -> u64 {
        match self {
            ProcessStatus::Running { start_millis, .. } => if now_millis >= start_millis {
                (now_millis - start_millis) as u64
            } else {
                0u64
            },
            ProcessStatus::Exited { elapsed_millis, .. } => elapsed_millis,
        }
    }

    pub fn elapsed(&self, now_millis: u64) -> (r: u64)
        ensures
            r == self.spec_elapsed(now_millis),
    {
        match self {
            ProcessStatus::Running { start_millis, .. } => {
                if now_millis >= *start_millis {
                    now_millis - *start_millis
                } else {
                    0
                }
            },
            ProcessStatus::Exited { elapsed_millis, .. } => *elapsed_millis,
        }
    }
}

/// A new job announced to the reporter.
pub enum NewJob {
    Download { url: Vec<u8> },
    Unpack,
    Process { status: ProcessStatus },
}

/// An update to a job already announced.
pub enum UpdateJob {
    Download { progress_percent: Option<u8> },
    Unpack { progress_percent: u8 },
    Process { packet: Option<ProcessPacket>, status: ProcessStatus },
}

/// The state of one job.
pub enum Job {
    Download { url: Vec<u8>, progress_percent: Option<u8> },
    Unpack { progress_percent: u8 },
    Process { packet_queue: Vec<ProcessPacket>, status: ProcessStatus },
}

/// An update applied to a job of another kind.
#[derive(Clone, Copy, PartialEq, Eq, Structural, Debug)]
pub enum JobUpdateError {
    NotADownload,
    NotAnUnpack,
    NotAProcess,
}

impl JobUpdateError {
    /// A short description of the error kind.
    pub fn describe(&self) -> (r: &'static str)
        ensures
            true,
    {
        match self {
            JobUpdateError::NotADownload => "tried to update a non-download job with a download update",
            JobUpdateError::NotAnUnpack => "tried to update a non-unpack job with an unpack update",
            JobUpdateError::NotAProcess => "tried to update a non-process job with a process update",
        }
    }
}

impl Job {
    /// The state a newly announced job starts in.
    pub fn new(new: NewJob) -> (r: Job)
        ensures
            match new {
                NewJob::Download { url } => r matches Job::Download { url: u, progress_percent }
                    && u@ == url@ && progress_percent == Some(0u8),
                NewJob::Unpack => r matches Job::Unpack { progress_percent }
                    && progress_percent == 0u8,
                NewJob::Process { status } => r matches Job::Process { packet_queue, status: s }
                    && s == status && packet_queue@.len() == 0,
            },
    {
        match new {
            NewJob::Download { url } => Job::Download { url, progress_percent: Some(0) },
            NewJob::Unpack => Job::Unpack { progress_percent: 0 },
            NewJob::Process { status } => Job::Process { packet_queue: Vec::new(), status },
        }
    }

    /// Applies an update of the matching kind: download and unpack
    /// updates replace the progress, a process update queues its packet
    /// and replaces the status.  An update of another kind changes
    /// nothing and says which kind it expected.
    pub fn update(&mut self, update: UpdateJob) -> (r: Result<(), JobUpdateError>)
        ensures
            match r {
                Ok(_) => match update {
                    UpdateJob::Download { progress_percent } => {
                        &&& *old(self) matches Job::Download { .. }
                        &&& *final(self) matches Job::Download { .. }
                        &&& final(self)->Download_url == old(self)->Download_url
                        &&& final(self)->Download_progress_percent == progress_percent
                    },
                    UpdateJob::Unpack { progress_percent } => {
                        &&& *old(self) matches Job::Unpack { .. }
                        &&& *final(self) matches Job::Unpack { .. }
                        &&& final(self)->Unpack_progress_percent == progress_percent
                    },
                    UpdateJob::Process { packet, status } => {
                        &&& *old(self) matches Job::Process { .. }
                        &&& *final(self) matches Job::Process { .. }
                        &&& final(self)->Process_status == status
                        &&& (match packet {
                            Some(p) => final(self)->Process_packet_queue@ == old(self)->Process_packet_queue@.push(p),
                            None => final(self)->Process_packet_queue@ == old(self)->Process_packet_queue@,
                        })
                    },
                },
                Err(e) => {
                    &&& *final(self) == *old(self)
                    &&& match update {
                        UpdateJob::Download { .. } => e == JobUpdateError::NotADownload && !(old(self) matches Job::Download { .. }),
                        UpdateJob::Unpack { .. } => e == JobUpdateError::NotAnUnpack && !(old(self) matches Job::Unpack { .. }),
                        UpdateJob::Process { .. } => e == JobUpdateError::NotAProcess && !(old(self) matches Job::Process { .. }),
                    }
                },
            },
    {
        match update {
            UpdateJob::Download { progress_percent: new_progress } => {
                match self {
                    Job::Download { progress_percent, .. } => {
                        *progress_percent = new_progress;
                        Ok(())
                    },
                    _ => Err(JobUpdateError::NotADownload),
                }
            },
            UpdateJob::Unpack { progress_percent: new_progress } => {
                match self {
                    Job::Unpack { progress_percent } => {
                        *progress_percent = new_progress;
                        Ok(())
                    },
                    _ => Err(JobUpdateError::NotAnUnpack),
                }
            },
            UpdateJob::Process { packet, status: new_status } => {
                match self {
                    Job::Process { packet_queue, status } => {
                        match packet {
                            Some(p) => {
                                packet_queue.push(p);
                            },
                            None => {},
                        }
                        *status = new_status;
                        Ok(())
                    },
                    _ => Err(JobUpdateError::NotAProcess),
                }
            },
        }
    }

    /// Whether the job has finished.
    pub open spec fn spec_complete(self) -> bool {
        match self {
            Job::Download { progress_percent, .. } => match progress_percent {
                Some(p) => p >= 100,
                None => false,
            },
            Job::Unpack { progress_percent } => progress_percent >= 100,
            Job::Process { status, .. } => status is Exited,
        }
    }

    pub fn is_complete(&self) -> (r: bool)
        ensures
            r == self.spec_complete(),
    {
        match self {
            Job::Download { progress_percent, .. } => match progress_percent {
                Some(p) => *p >= 100,
                None => false,
            },
            Job::Unpack { progress_percent } => *progress_percent >= 100,
            Job::Process { status, .. } => match status {
                ProcessStatus::Exited { .. } => true,
                _ => false,
            },
        }
    }

    /// Display priority of the job's type; higher sorts first among
    /// completed jobs.
    pub open spec fn spec_priority(self) -> u8 {
        match self {
            Job::Unpack { .. } => 0,
            Job::Download { .. } => 1,
            Job::Process { .. } => 2,
        }
    }

    pub fn job_type_priority(&self) -> (r: u8)
        ensures
            r == self.spec_priority(),
    {
        match self {
            Job::Unpack { .. } => 0,
            Job::Download { .. } => 1,
            Job::Process { .. } => 2,
        }
    }
}

/// The identity of a job, in announcement order.
#[derive(Clone, Copy, PartialEq, Eq, Structural, Hash, Debug)]
pub struct JobId(pub usize);

impl EqKey for JobId {
    fn eq_key(&self, other: &Self) -> (r: bool)
        ensures
            r == (self == other),
    {
        self.0 == other.0
    }
}

/// An event the reporter records for the console.
pub enum ReportEvent {
    Emit { text: Vec<u8> },
    AddJob { id: JobId, job: NewJob },
    UpdateJobState { id: JobId, update: UpdateJob },
    Shutdown,
}

/// The reporter: allocates job ids and records events in order.
pub struct Reporter {
    next_id: usize,
    events: Vec<ReportEvent>,
}

impl Reporter {
    pub closed spec fn spec_next_id(self) -> usize {
        self.next_id
    }

    pub closed spec fn events_seq(self) -> Seq<ReportEvent> {
        self.events@
    }

    pub fn new() -> (r: Reporter)
        ensures
            r.spec_next_id() == 0,
            r.events_seq() =~= Seq::<ReportEvent>::empty(),
    {
        Reporter { next_id: 0, events: Vec::new() }
    }

    /// Records free-form output.
    pub fn emit(&mut self, text: Vec<u8>)
        ensures
            final(self).spec_next_id() == old(self).spec_next_id(),
            final(self).events_seq() == old(self).events_seq().push(ReportEvent::Emit { text }),
    {
        self.events.push(ReportEvent::Emit { text });
    }

    /// Announces a job under a fresh id and returns that id; ids are
    /// handed out in order.
    pub fn add_job(&mut self, job: NewJob) -> (id: JobId)
        requires
            old(self).spec_next_id() < usize::MAX,
        ensures
            id == JobId(old(self).spec_next_id()),
            final(self).spec_next_id() == old(self).spec_next_id() + 1,
            final(self).events_seq() == old(self).events_seq().push(
                ReportEvent::AddJob { id, job },
            ),
    {
        let id = JobId(self.next_id);
        self.next_id = self.next_id + 1;
        self.events.push(ReportEvent::AddJob { id, job });
        id
    }

    /// Records an update to a job.
    pub fn update_job(&mut self, id: JobId, update: UpdateJob)
        ensures
            final(self).spec_next_id() == old(self).spec_next_id(),
            final(self).events_seq() == old(self).events_seq().push(
                ReportEvent::UpdateJobState { id, update },
            ),
    {
        self.events.push(ReportEvent::UpdateJobState { id, update });
    }
}

/// The console's job table, fed by reporter events.
pub struct ConsoleState {
    pub jobs: AssocMap<JobId, Job>,
}

impl ConsoleState {
    pub open spec fn wf(self) -> bool {
        self.jobs.wf()
    }

    pub fn new() -> (r: ConsoleState)
        ensures
            r.wf(),
            r.jobs.view_map() =~= Map::<JobId, Job>::empty(),
    {
        ConsoleState { jobs: AssocMap::new() }
    }

    /// Starts tracking a new job under its id, in the state `Job::new`
    /// gives it; other jobs are untouched.
    pub fn add_job(&mut self, id: JobId, job: NewJob)
        requires
            old(self).wf(),
        ensures
            final(self).wf(),
            final(self).jobs.view_map().dom() =~= old(self).jobs.view_map().dom().insert(id),
            forall|id2: JobId| #[trigger]
                old(self).jobs.view_map().dom().contains(id2) && id2 != id ==> final(self).jobs.view_map()[id2] == old(self).jobs.view_map()[id2],
            ({
                let stored = final(self).jobs.view_map()[id];
                match job {
                    NewJob::Download { url } => stored matches Job::Download {
                        url: u,
                        progress_percent,
                    } && u@ == url@ && progress_percent == Some(0u8),
                    NewJob::Unpack => stored matches Job::Unpack { progress_percent }
                        && progress_percent == 0u8,
                    NewJob::Process { status } => stored matches Job::Process {
                        packet_queue,
                        status: s,
                    } && s == status && packet_queue@.len() == 0,
                }
            }),
    {
        let j = Job::new(job);
        self.jobs.insert(id, j);
    }

    /// Applies an update to a tracked job: the stored job changes exactly
    /// as `Job::update` says, a kind mismatch leaves it as it was, an
    /// unknown id is ignored, and other jobs are untouched.
    pub fn update_job(&mut self, id: JobId, update: UpdateJob)
        requires
            old(self).wf(),
        ensures
            final(self).wf(),
            final(self).jobs.view_map().dom() =~= old(self).jobs.view_map().dom(),
            !old(self).jobs.view_map().dom().contains(id) ==> final(self).jobs.view_map() =~= old(self).jobs.view_map(),
            forall|id2: JobId| #[trigger]
                old(self).jobs.view_map().dom().contains(id2) && id2 != id ==> final(self).jobs.view_map()[id2] == old(self).jobs.view_map()[id2],
            old(self).jobs.view_map().dom().contains(id) ==> ({
                let before = old(self).jobs.view_map()[id];
                let after = final(self).jobs.view_map()[id];
                match update {
                    UpdateJob::Download { progress_percent } => if before is Download {
                        after is Download && after->Download_url == before->Download_url
                            && after->Download_progress_percent == progress_percent
                    } else {
                        after == before
                    },
                    UpdateJob::Unpack { progress_percent } => if before is Unpack {
                        after == (Job::Unpack { progress_percent })
                    } else {
                        after == before
                    },
                    UpdateJob::Process { packet, status } => if before is Process {
                        after is Process && after->Process_status == status && (match packet {
                            Some(p) => after->Process_packet_queue@
                                == before->Process_packet_queue@.push(p),
                            None => after->Process_packet_queue@ == before->Process_packet_queue@,
                        })
                    } else {
                        after == before
                    },
                }
            }),
    {
        let ghost before_map = self.jobs.view_map();
        match self.jobs.take(&id) {
            None => {},
            Some(job) => {
                let mut job = job;
                let _ = job.update(update);
                self.jobs.insert(id, job);
                proof {
                    assert(self.jobs.view_map() =~= before_map.insert(id, job));
                    assert(self.jobs.view_map().dom() =~= before_map.dom());
                }
            },
        }
    }
}

// ------------------------------------------------------------------
// Display order.
// ------------------------------------------------------------------

/// Whether `a` is shown no later than `b`: incomplete jobs first, oldest
/// first among them; among completed jobs, higher type priority first,
/// then newest first.
pub open spec fn job_le(a: (JobId, Job), b: (JobId, Job)) -> bool {
    let ac = a.1.spec_complete();
    let bc = b.1.spec_complete();
    if ac != bc {
        !ac
    } else if !ac {
        a.0.0 <= b.0.0
    } else {
        let ap = a.1.spec_priority();
        let bp = b.1.spec_priority();
        if ap != bp {
            ap > bp
        } else {
            a.0.0 >= b.0.0
        }
    }
}

/// Compares two job entries for display: the verified form of the
/// console's ordering.
pub fn cmp_job_entries(a: &(JobId, Job), b: &(JobId, Job)) -> (r: bool)
    ensures
        r == job_le(*a, *b),
{
    let ac = a.1.is_complete();
    let bc = b.1.is_complete();
    if ac != bc {
        !ac
    } else if !ac {
        a.0.0 <= b.0.0
    } else {
        let ap = a.1.job_type_priority();
        let bp = b.1.job_type_priority();
        if ap != bp {
            ap > bp
        } else {
            a.0.0 >= b.0.0
        }
    }
}

/// The display order is total.
pub proof fn lemma_job_le_total(a: (JobId, Job), b: (JobId, Job))
    ensures
        job_le(a, b) || job_le(b, a),
{
}

/// The display order is transitive.
pub proof fn lemma_job_le_trans(a: (JobId, Job), b: (JobId, Job), c: (JobId, Job))
    requires
        job_le(a, b),
        job_le(b, c),
    ensures
        job_le(a, c),
{
}

/// Sorts job entries into display order.  The result is a permutation of
/// the input, sorted by `job_le`.
pub fn sort_job_entries(jobs: Vec<(JobId, Job)>) -> (r: Vec<(JobId, Job)>)
    ensures
        r@.to_multiset() == jobs@.to_multiset(),
        r@.len() == jobs@.len(),
        forall|a: int, b: int| 0 <= a < b < r@.len() ==> job_le(#[trigger] r@[a], #[trigger] r@[b]),
{
    let mut rest = jobs;
    let mut out: Vec<(JobId, Job)> = Vec::new();
    proof {
        jobs@.to_multiset_ensures();
        assert(out@.to_multiset().add(rest@.to_multiset()) =~= jobs@.to_multiset()) by {
            out@.to_multiset_ensures();
        }
    }
    while rest.len() > 0
        invariant
            out@.to_multiset().add(rest@.to_multiset()) == jobs@.to_multiset(),
            out@.len() + rest@.len() == jobs@.len(),
            forall|a: int, b: int|
                0 <= a < b < out@.len() ==> job_le(#[trigger] out@[a], #[trigger] out@[b]),
            forall|a: int, b: int|
                0 <= a < out@.len() && 0 <= b < rest@.len() ==> job_le(
                    #[trigger] out@[a],
                    #[trigger] rest@[b],
                ),
        decreases rest@.len(),
    {
        // select the least remaining entry
        let n = rest.len();
        let mut m: usize = 0;
        let mut i: usize = 1;
        while i < n
            invariant
                m < i <= n,
                n == rest@.len(),
                forall|j: int| 0 <= j < i ==> job_le(rest@[m as int], #[trigger] rest@[j]),
            decreases n - i,
        {
            if !cmp_job_entries(&rest[m], &rest[i]) {
                proof {
                    lemma_job_le_total(rest@[m as int], rest@[i as int]);
                    assert forall|j: int| 0 <= j < i + 1 implies job_le(
                        rest@[i as int],
                        #[trigger] rest@[j],
                    ) by {
                        if j < i {
                            lemma_job_le_trans(rest@[i as int], rest@[m as int], rest@[j]);
                        }
                    }
                }
                m = i;
            }
            i = i + 1;
        }
        let ghost rest_before = rest@;
        let ghost out_before = out@;
        let least = rest.remove(m);
        out.push(least);
        proof {
            rest_before.to_multiset_ensures();
            out_before.to_multiset_ensures();
            assert(rest@.to_multiset() =~= rest_before.to_multiset().remove(least));
            assert(out@.to_multiset() =~= out_before.to_multiset().insert(least));
            assert(rest_before.to_multiset().contains(least)) by {
                assert(rest_before.contains(least));
            }
            assert(out@.to_multiset().add(rest@.to_multiset()) =~= jobs@.to_multiset());
            assert forall|a: int, b: int|
                0 <= a < out@.len() && 0 <= b < rest@.len() implies job_le(
                #[trigger] out@[a],
                #[trigger] rest@[b],
            ) by {
                let b0 = if b < m { b } else { b + 1 };
                assert(rest@[b] == rest_before[b0]);
                if a < out@.len() - 1 {
                    assert(out@[a] == out_before[a]);
                } else {
                    assert(out@[a] == least);
                }
            }
        }
    }
    proof {
        rest@.to_multiset_ensures();
        assert forall|x: (JobId, Job)|
            out@.to_multiset().add(rest@.to_multiset()).count(x) == out@.to_multiset().count(
            x,
        ) by {
            if rest@.to_multiset().count(x) > 0 {
                assert(rest@.contains(x));
            }
        }
        assert(out@.to_multiset() =~= out@.to_multiset().add(rest@.to_multiset()));
    }
    out
}

/// The ids visible on a console of the given height, over entries already
/// in display order from position `i`: incomplete jobs, then at most
/// three completed ones, capped at the height.
pub open spec fn spec_visible(
    s: Seq<(JobId, Job)>,
    i: int,
    taken: int,
    complete_taken: int,
    max_visible: int,
) -> Seq<JobId>
    decreases s.len() - i,
{
    if i < 0 || i >= s.len() || taken >= max_visible {
        Seq::empty()
    } else if s[i].1.spec_complete() {
        if complete_taken < 3 {
            seq![s[i].0] + spec_visible(s, i + 1, taken + 1, complete_taken + 1, max_visible)
        } else {
            spec_visible(s, i + 1, taken, complete_taken, max_visible)
        }
    } else {
        seq![s[i].0] + spec_visible(s, i + 1, taken + 1, complete_taken, max_visible)
    }
}

/// Picks the visible jobs for a console of height `max_visible`: the
/// entries are sorted into display order, every incomplete job is shown
/// first, at most three completed jobs follow, and the list is capped at
/// the height.
pub fn visible_jobs(jobs: Vec<(JobId, Job)>, max_visible: usize) -> (r: Vec<JobId>)
    ensures
        exists|sorted: Seq<(JobId, Job)>|
            {
                &&& #[trigger] sorted.to_multiset() == jobs@.to_multiset()
                &&& sorted.len() == jobs@.len()
                &&& (forall|a: int, b: int|
                    0 <= a < b < sorted.len() ==> job_le(
                        #[trigger] sorted[a],
                        #[trigger] sorted[b],
                    ))
                &&& r@ == spec_visible(sorted, 0, 0, 0, max_visible as int)
            },
{
    let sorted = sort_job_entries(jobs);
    let r = visible_from(&sorted, 0, 0, 0, max_visible);
    proof {
        assert(sorted@.to_multiset() == jobs@.to_multiset());
    }
    r
}

/// Appends a list of ids.
fn append_ids(out: &mut Vec<JobId>, rest: Vec<JobId>)
    ensures
        final(out)@ == old(out)@ + rest@,
{
    let n = rest.len();
    let mut i: usize = 0;
    while i < n
        invariant
            i <= n,
            n == rest@.len(),
            out@ =~= old(out)@ + rest@.subrange(0, i as int),
        decreases n - i,
    {
        out.push(rest[i]);
        proof {
            assert(out@ =~= old(out)@ + rest@.subrange(0, i + 1));
        }
        i = i + 1;
    }
    proof {
        assert(out@ =~= old(out)@ + rest@);
    }
}

/// Collects the visible ids from position `i` onward.
fn visible_from(
    sorted: &Vec<(JobId, Job)>,
    i: usize,
    taken: usize,
    complete_taken: usize,
    max_visible: usize,
) -> (r: Vec<JobId>)
    requires
        i <= sorted@.len(),
    ensures
        r@ == spec_visible(
            sorted@,
            i as int,
            taken as int,
            complete_taken as int,
            max_visible as int,
        ),
    decreases sorted@.len() - i,
{
    if i >= sorted.len() || taken >= max_visible {
        Vec::new()
    } else if sorted[i].1.is_complete() {
        if complete_taken < 3 {
            let mut v: Vec<JobId> = Vec::new();
            v.push(sorted[i].0);
            let rest = visible_from(sorted, i + 1, taken + 1, complete_taken + 1, max_visible);
            let mut out = v;
            append_ids(&mut out, rest);
            proof {
                assert(out@ =~= seq![sorted@[i as int].0] + spec_visible(
                    sorted@,
                    i + 1,
                    taken + 1,
                    complete_taken + 1,
                    max_visible as int,
                ));
            }
            out
        } else {
            visible_from(sorted, i + 1, taken, complete_taken, max_visible)
        }
    } else {
        let mut v: Vec<JobId> = Vec::new();
        v.push(sorted[i].0);
        let rest = visible_from(sorted, i + 1, taken + 1, complete_taken, max_visible);
        let mut out = v;
        append_ids(&mut out, rest);
        proof {
            assert(out@ =~= seq![sorted@[i as int].0] + spec_visible(
                sorted@,
                i + 1,
                taken + 1,
                complete_taken as int,
                max_visible as int,
            ));
        }
        out
    }
}

} // verus!
