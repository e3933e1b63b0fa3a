//! The job manager of the master: the jobs, their pipelines of stages, and the directives
//! that each completed stage releases.
use vstd::prelude::*;
use std::collections::VecDeque;
use std::collections::HashMap;
use crate::messages::{DirectiveView, MasterMessage};
use crate::worker::map::{lemma_words_concat, occurrences, words, is_word};
use crate::number::{decimal, push_decimal};
use crate::text::{chars_of, line_ranges, lines, push_char, push_range, push_str, ranges_within, slices, string_of};

verus! {

broadcast use vstd::std_specs::hash::group_hash_axioms;

/// How many splits a job's input is cut into.
#[derive(Clone, Copy, PartialEq, Eq, Debug, Structural)]
pub enum Splits {
    /// One split per connected worker.
    Max,
    /// This many splits; 0 stands for one per connected worker.
    Count(usize),
}

/// A stage of a job's pipeline.
#[derive(Clone, Copy, PartialEq, Eq, Debug, Structural)]
pub enum TaskType {
    Mapping,
    Shuffle,
    Reduce,
}

/// The name of a stage, as it appears in file names.
pub open spec fn task_name(t: TaskType) -> Seq<char> {
    match t {
        TaskType::Mapping => "map"@,
        TaskType::Shuffle => "shuffle"@,
        TaskType::Reduce => "reduce"@,
    }
}

impl TaskType {
    /// The name of the stage: `map`, `shuffle` or `reduce`.
    pub fn name(&self) -> (s: String)
        ensures
            s@ == task_name(*self),
    {
        let mut s = String::new();
        match self {
            TaskType::Mapping => push_str(&mut s, "map"),
            TaskType::Shuffle => push_str(&mut s, "shuffle"),
            TaskType::Reduce => push_str(&mut s, "reduce"),
        }
        s
    }
}

/// One stage of a job's pipeline.
#[derive(Clone, Copy, PartialEq, Eq, Debug, Structural)]
pub struct PipelineTask {
    pub task_type: TaskType,
}

/// The name of split `idx` of stage `task` of job `job_name`: `{job}_{task}_split_{idx}.txt`.
pub open spec fn splitfile_name(job_name: Seq<char>, task: Seq<char>, idx: nat) -> Seq<char> {
    job_name + "_"@ + task + "_split_"@ + decimal(idx) + ".txt"@
}

pub fn get_splitfile_name(job_name: &str, task: &str, idx: usize) -> (s: String)
    ensures
        s@ == splitfile_name(job_name@, task@, idx as nat),
{
    let mut s = String::new();
    push_str(&mut s, job_name);
    push_str(&mut s, "_");
    push_str(&mut s, task);
    push_str(&mut s, "_split_");
    push_decimal(&mut s, idx as u64);
    push_str(&mut s, ".txt");
    s
}

/// The number of splits that `splits` asks for when `connected` workers are connected.
pub open spec fn effective_splits(splits: Splits, connected: usize) -> usize {
    match splits {
        Splits::Max => connected,
        Splits::Count(n) => if n == 0 {
            connected
        } else {
            n
        },
    }
}

pub fn effective_splits_of(splits: Splits, connected: usize) -> (n: usize)
    ensures
        n == effective_splits(splits, connected),
{
    match splits {
        Splits::Max => connected,
        Splits::Count(0) => connected,
        Splits::Count(n) => n,
    }
}

/// A job as the manager sees it.
pub struct JobView {
    pub name: Seq<char>,
    pub id: usize,
    pub input_file: Seq<char>,
    pub splits: Splits,
    pub remaining_count: usize,
    pub pipeline: Seq<TaskType>,
}

/// A job: its name and input, how it is split, how many tasks of the current stage are
/// still running, and the stages still to come.
pub struct Job {
    name: String,
    id: usize,
    input_file: String,
    splits: Splits,
    remaining_count: usize,
    pipeline: VecDeque<PipelineTask>,
}

impl View for Job {
    type V = JobView;

    closed spec fn view(&self) -> JobView {
        JobView {
            name: self.name@,
            id: self.id,
            input_file: self.input_file@,
            splits: self.splits,
            remaining_count: self.remaining_count,
            pipeline: self.pipeline@.map_values(|p: PipelineTask| p.task_type),
        }
    }
}

impl Job {
    /// A job over `input_file` with the given stages, split once per connected worker.
    pub fn new(name: &str, input_file: &str, pipeline: VecDeque<PipelineTask>) -> (j: Job)
        ensures
            j@ == (JobView {
                name: name@,
                id: 0,
                input_file: input_file@,
                splits: Splits::Max,
                remaining_count: 0,
                pipeline: pipeline@.map_values(|p: PipelineTask| p.task_type),
            }),
    {
        let mut n = String::new();
        push_str(&mut n, name);
        let mut f = String::new();
        push_str(&mut f, input_file);
        Job { name: n, id: 0, input_file: f, splits: Splits::Max, remaining_count: 0, pipeline }
    }

    /// Chooses into how many files the input is split.
    pub fn set_splits(&mut self, splits: Splits)
        ensures
            final(self)@ == (JobView { splits, ..old(self)@ }),
    {
        self.splits = splits;
    }
}

/// The directive for a task of stage `t` of job `id`, reading `input_file` and writing
/// `output_file`; shuffle directives name the number of connected workers instead of an output.
pub open spec fn queued_directive(
    t: TaskType,
    id: usize,
    input_file: Seq<char>,
    output_file: Seq<char>,
    connected: usize,
) -> DirectiveView {
    match t {
        TaskType::Mapping => DirectiveView::MapDirective { id, input_file, output_file },
        TaskType::Shuffle => DirectiveView::ShuffleDirective { id, input_file, splits: connected },
        TaskType::Reduce => DirectiveView::ReduceDirective { id, input_file, output_file },
    }
}

/// The stage name that follows the current stage: the next stage of the pipeline, or `result`.
pub open spec fn next_stage_name(pipeline: Seq<TaskType>) -> Seq<char> {
    if pipeline.len() > 0 {
        task_name(pipeline[0])
    } else {
        "result"@
    }
}

/// The directives of one stage of job `id`: the one for split `x` (counting from 1) reads
/// split file `x` of stage `stage` and writes split file `x` of stage `next`.
pub open spec fn batch(
    t: TaskType,
    id: usize,
    name: Seq<char>,
    stage: Seq<char>,
    next: Seq<char>,
    s: usize,
    connected: usize,
) -> Seq<DirectiveView> {
    Seq::new(
        s as nat,
        |x: int|
            queued_directive(
                t,
                id,
                splitfile_name(name, stage, (x + 1) as nat),
                splitfile_name(name, next, (x + 1) as nat),
                connected,
            ),
    )
}

/// The directives of the first map stage of job `key`.
pub open spec fn initial_directives(key: usize, j: JobView, connected: usize) -> Seq<DirectiveView> {
    batch(
        TaskType::Mapping,
        key,
        j.name,
        "map"@,
        "shuffle"@,
        effective_splits(j.splits, connected),
        connected,
    )
}

/// The directives that the completion of the current stage of `j` releases:
/// one per split for the next stage of its pipeline.
pub open spec fn stage_directives(j: JobView, connected: usize) -> Seq<DirectiveView> {
    batch(
        j.pipeline[0],
        j.id,
        j.name,
        task_name(j.pipeline[0]),
        next_stage_name(j.pipeline.drop_first()),
        effective_splits(j.splits, connected),
        connected,
    )
}

/// `j` with `r` tasks of its current stage running.
pub open spec fn with_remaining(j: JobView, r: usize) -> JobView {
    JobView {
        name: j.name,
        id: j.id,
        input_file: j.input_file,
        splits: j.splits,
        remaining_count: r,
        pipeline: j.pipeline,
    }
}

/// `j` after its current stage completed: the first stage of its pipeline starts,
/// with one task per split.
pub open spec fn advanced(j: JobView, connected: usize) -> JobView {
    JobView {
        name: j.name,
        id: j.id,
        input_file: j.input_file,
        splits: j.splits,
        remaining_count: effective_splits(j.splits, connected),
        pipeline: j.pipeline.drop_first(),
    }
}

/// What one report of a finished task does to job `j`: the job, and the directives released.
/// The count of running tasks goes down by one; when it reaches zero and the pipeline holds
/// another stage, that stage starts with one directive per split.
pub open spec fn report_step(j: JobView, connected: usize) -> (JobView, Seq<DirectiveView>) {
    let r = (j.remaining_count - 1) as usize;
    if r > 0 || j.pipeline.len() == 0 {
        (with_remaining(j, r), Seq::empty())
    } else {
        (advanced(j, connected), stage_directives(j, connected))
    }
}

/// Job `j` after `k` reports.
pub open spec fn after_reports(j: JobView, k: nat, connected: usize) -> JobView
    decreases k,
{
    if k == 0 {
        j
    } else {
        report_step(after_reports(j, (k - 1) as nat, connected), connected).0
    }
}

/// The directives released by the first `k` reports of job `j`, in order.
pub open spec fn released(j: JobView, k: nat, connected: usize) -> Seq<DirectiveView>
    decreases k,
{
    if k == 0 {
        Seq::empty()
    } else {
        released(j, (k - 1) as nat, connected) + report_step(
            after_reports(j, (k - 1) as nat, connected),
            connected,
        ).1
    }
}

/// The batch law: with `n` tasks of the current stage running, the first `n - 1` reports
/// release nothing, and the `n`-th releases the whole next stage, one directive per split
/// (nothing when the pipeline is finished).
pub proof fn law_batch_after_all_reports(j: JobView, connected: usize)
    requires
        j.remaining_count > 0,
    ensures
        forall|k: nat|
            k < j.remaining_count ==> #[trigger] released(j, k, connected) == Seq::<DirectiveView>::empty()
                && after_reports(j, k, connected) == with_remaining(j, (j.remaining_count - k) as usize),
        released(j, j.remaining_count as nat, connected) == if j.pipeline.len() > 0 {
            stage_directives(j, connected)
        } else {
            Seq::<DirectiveView>::empty()
        },
{
    assert forall|k: nat| k < j.remaining_count implies #[trigger] released(j, k, connected)
        == Seq::<DirectiveView>::empty() && after_reports(j, k, connected) == with_remaining(
        j,
        (j.remaining_count - k) as usize,
    ) by {
        lemma_reports_before_last(j, k, connected);
    }
    let n = j.remaining_count as nat;
    lemma_reports_before_last(j, (n - 1) as nat, connected);
    assert(released(j, (n - 1) as nat, connected) + report_step(with_remaining(j, 1), connected).1
        =~= report_step(with_remaining(j, 1), connected).1);
}

proof fn lemma_reports_before_last(j: JobView, k: nat, connected: usize)
    requires
        k < j.remaining_count,
    ensures
        released(j, k, connected) == Seq::<DirectiveView>::empty(),
        after_reports(j, k, connected) == with_remaining(j, (j.remaining_count - k) as usize),
    decreases k,
{
    if k == 0 {
        assert(with_remaining(j, j.remaining_count) == j);
    } else {
        lemma_reports_before_last(j, (k - 1) as nat, connected);
        let prev = with_remaining(j, (j.remaining_count - (k - 1)) as usize);
        assert(report_step(prev, connected).0 == with_remaining(j, (j.remaining_count - k) as usize));
        assert(released(j, k, connected) =~= Seq::<DirectiveView>::empty());
    }
}

/// The directives of one stage, one per split file.
fn stage_batch(
    t: TaskType,
    id: usize,
    name: &String,
    stage: &str,
    next: &str,
    splits: usize,
    connected: usize,
) -> (out: Vec<MasterMessage>)
    ensures
        out@.map_values(|m: MasterMessage| m@) == batch(t, id, name@, stage@, next@, splits, connected),
{
    let ghost want = batch(t, id, name@, stage@, next@, splits, connected);
    let mut out: Vec<MasterMessage> = Vec::new();
    let mut x: usize = 0;
    while x < splits
        invariant
            want == batch(t, id, name@, stage@, next@, splits, connected),
            x <= splits,
            out@.len() == x,
            forall|y: int| 0 <= y < x ==> (#[trigger] out@[y])@ == want[y],
        decreases splits - x,
    {
        let idx = x + 1;
        let input_file = get_splitfile_name(name.as_str(), stage, idx);
        let output_file = get_splitfile_name(name.as_str(), next, idx);
        let m = match t {
            TaskType::Mapping => MasterMessage::MapDirective { id, input_file, output_file },
            TaskType::Shuffle => MasterMessage::ShuffleDirective { id, input_file, splits: connected },
            TaskType::Reduce => MasterMessage::ReduceDirective { id, input_file, output_file },
        };
        assert(m@ == want[x as int]);
        out.push(m);
        x = x + 1;
    }
    assert(out@.map_values(|m: MasterMessage| m@) =~= want);
    out
}

/// The stage size law: a stage runs as many tasks as directives were released for it, one per
/// split file: `n` for `Splits::Count(n)` with `n > 0`, and one per connected worker
/// otherwise. So a report that releases a stage leaves the job waiting for exactly as many
/// reports as it released directives.
pub proof fn law_stage_size(j: JobView, connected: usize)
    ensures
        report_step(j, connected).1.len() > 0 ==> report_step(j, connected).0.remaining_count
            == report_step(j, connected).1.len(),
        stage_directives(j, connected).len() == effective_splits(j.splits, connected),
        initial_directives(0, j, connected).len() == effective_splits(j.splits, connected),
        j.splits == Splits::Max ==> effective_splits(j.splits, connected) == connected,
        j.splits is Count && j.splits->0 > 0 ==> effective_splits(j.splits, connected) == j.splits->0,
        j.splits is Count && j.splits->0 == 0 ==> effective_splits(j.splits, connected) == connected,
{
}

/// At the start of tracking, each job waits for as many reports as its first stage has
/// directives.
pub proof fn law_start_size(m: Map<usize, JobView>, connected: usize, id: usize)
    requires
        m.contains_key(id),
    ensures
        tracking_start(m, connected)[id].remaining_count == initial_directives(id, m[id], connected).len(),
{
}

/// The jobs as tracking starts them: each job runs one task per split of its map stage.
pub open spec fn tracking_start(m: Map<usize, JobView>, connected: usize) -> Map<usize, JobView> {
    m.map_values(|j: JobView| with_remaining(j, effective_splits(j.splits, connected)))
}

/// Job `id` has a task running in `m`, so a report for it is accepted.
pub open spec fn accepts_in(m: Map<usize, JobView>, id: usize) -> bool {
    m.contains_key(id) && m[id].remaining_count > 0
}

/// The jobs after a report for job `id`.
pub open spec fn report_in(m: Map<usize, JobView>, connected: usize, id: usize) -> Map<usize, JobView> {
    m.insert(id, report_step(m[id], connected).0)
}

/// The jobs after the reports `ids`, in order, starting from `m`; `None` when one of them
/// is not accepted.
pub open spec fn tracking_run(m: Map<usize, JobView>, connected: usize, ids: Seq<usize>) -> Option<
    Map<usize, JobView>,
>
    decreases ids.len(),
{
    if ids.len() == 0 {
        Some(m)
    } else {
        match tracking_run(m, connected, ids.drop_last()) {
            Some(u) => if accepts_in(u, ids.last()) {
                Some(report_in(u, connected, ids.last()))
            } else {
                None
            },
            None => None,
        }
    }
}

/// No job has a task running.
pub open spec fn finished(m: Map<usize, JobView>) -> bool {
    forall|id: usize| #[trigger] m.contains_key(id) ==> m[id].remaining_count == 0
}

/// While tracking runs, a job without running tasks has no stage left.
pub open spec fn run_invariant(m: Map<usize, JobView>) -> bool {
    forall|id: usize| #[trigger] m.contains_key(id) ==> m[id].remaining_count > 0 || m[id].pipeline.len() == 0
}

/// Every job is split at least once.
pub open spec fn splits_positive(m: Map<usize, JobView>, connected: usize) -> bool {
    forall|id: usize| #[trigger] m.contains_key(id) ==> effective_splits(m[id].splits, connected) > 0
}

proof fn lemma_run_keeps(m: Map<usize, JobView>, connected: usize, ids: Seq<usize>)
    requires
        splits_positive(m, connected),
    ensures
        tracking_run(tracking_start(m, connected), connected, ids) matches Some(u) ==> {
            &&& run_invariant(u)
            &&& u.dom() == m.dom()
            &&& splits_positive(u, connected)
        },
    decreases ids.len(),
{
    let m0 = tracking_start(m, connected);
    if ids.len() == 0 {
        assert(m0.dom() =~= m.dom());
        assert forall|id: usize| #[trigger] m0.contains_key(id) implies m0[id].remaining_count > 0
            || m0[id].pipeline.len() == 0 by {
            assert(m0[id].remaining_count == effective_splits(m[id].splits, connected));
        }
        assert forall|id: usize| #[trigger] m0.contains_key(id) implies effective_splits(m0[id].splits, connected) > 0 by {
            assert(m0[id].splits == m[id].splits);
        }
    } else {
        lemma_run_keeps(m, connected, ids.drop_last());
        match tracking_run(m0, connected, ids.drop_last()) {
            Some(u) => {
                let id = ids.last();
                if accepts_in(u, id) {
                    let v = report_in(u, connected, id);
                    assert(v.dom() =~= u.dom());
                    assert forall|x: usize| #[trigger] v.contains_key(x) implies v[x].remaining_count > 0
                        || v[x].pipeline.len() == 0 by {
                        if x != id {
                            assert(v[x] == u[x]);
                        }
                    }
                    assert forall|x: usize| #[trigger] v.contains_key(x) implies effective_splits(v[x].splits, connected) > 0 by {
                        if x != id {
                            assert(v[x] == u[x]);
                        }
                    }
                }
            },
            None => {},
        }
    }
}

/// The run law: start tracking, then take any reports that are each accepted. Once no job
/// has a task running, every stage of every job has run: each pipeline is empty.
pub proof fn law_finished_run_ran_every_stage(m: Map<usize, JobView>, connected: usize, ids: Seq<usize>)
    requires
        splits_positive(m, connected),
        tracking_run(tracking_start(m, connected), connected, ids) is Some,
        finished(tracking_run(tracking_start(m, connected), connected, ids).unwrap()),
    ensures
        tracking_run(tracking_start(m, connected), connected, ids).unwrap().dom() == m.dom(),
        forall|id: usize|
            #[trigger] m.contains_key(id) ==> tracking_run(tracking_start(m, connected), connected, ids).unwrap()[id].pipeline.len()
                == 0,
{
    lemma_run_keeps(m, connected, ids);
    let u = tracking_run(tracking_start(m, connected), connected, ids).unwrap();
    assert forall|id: usize| #[trigger] m.contains_key(id) implies u[id].pipeline.len() == 0 by {
        assert(u.contains_key(id));
    }
}

/// The keys of `m`, each once, in the order in which the map walks them.
fn key_list(m: &HashMap<usize, Job>) -> (ks: Vec<usize>)
    ensures
        ks@.to_set() == m@.dom(),
        ks@.no_duplicates(),
{
    let ghost all = vstd::std_specs::iter::IteratorSpec::remaining(&vstd::std_specs::hash::spec_keys_iter(m));
    let mut ks: Vec<usize> = Vec::new();
    for k in it: m.keys()
        invariant
            it.seq() == all,
            ks@ == it.seq().take(it.index() as int).map_values(|r: &usize| *r),
    {
        ks.push(*k);
        assert(ks@ =~= it.seq().take(it.index() + 1).map_values(|r: &usize| *r));
    }
    assert(ks@ =~= all.map_values(|r: &usize| *r));
    assert(all.map_values(|r: &usize| *r) =~= all.unref());
    ks
}

/// The jobs by id, the id the next queued job gets, and the number of connected workers.
pub struct JobManager {
    id_ctr: usize,
    jobs: HashMap<usize, Job>,
    connected: usize,
}

impl JobManager {
    /// The jobs, by id.
    pub closed spec fn jobs(&self) -> Map<usize, JobView> {
        self.jobs@.map_values(|j: Job| j@)
    }

    pub closed spec fn next_id(&self) -> usize {
        self.id_ctr
    }

    pub closed spec fn connected(&self) -> usize {
        self.connected
    }

    /// Ids are below the next id, and each job carries the id it is queued under.
    pub open spec fn wf(&self) -> bool {
        forall|id: usize| #[trigger] self.jobs().contains_key(id) ==> id < self.next_id() && self.jobs()[id].id == id
    }

    pub fn new(connected: usize) -> (m: JobManager)
        ensures
            m.wf(),
            m.jobs() == Map::<usize, JobView>::empty(),
            m.next_id() == 1,
            m.connected() == connected,
    {
        let m = JobManager { id_ctr: 1, jobs: HashMap::new(), connected };
        assert(m.jobs() =~= Map::<usize, JobView>::empty());
        m
    }

    /// Queues `job` under the next id, which becomes the job's own id.
    pub fn queue_job(&mut self, job: Job)
        requires
            old(self).wf(),
            old(self).next_id() < usize::MAX,
        ensures
            final(self).wf(),
            final(self).jobs() == old(self).jobs().insert(
                old(self).next_id(),
                JobView { id: old(self).next_id(), ..job@ },
            ),
            final(self).next_id() == old(self).next_id() + 1,
            final(self).connected() == old(self).connected(),
    {
        let ghost before = self.jobs();
        let mut job = job;
        job.id = self.id_ctr;
        let ghost jv = job@;
        self.jobs.insert(self.id_ctr, job);
        self.id_ctr = self.id_ctr + 1;
        assert(self.jobs() =~= before.insert(old(self).next_id(), jv));
    }

    pub open spec fn accepts(&self, id: usize) -> bool {
        accepts_in(self.jobs(), id)
    }

    /// Whether a report for job `id` is accepted: the job exists and has a task running.
    pub fn accepts_done(&self, id: usize) -> (b: bool)
        ensures
            b == self.accepts(id),
    {
        match self.jobs.get(&id) {
            Some(j) => {
                assert(self.jobs@.contains_key(id) && self.jobs@[id] == *j);
                j.remaining_count > 0
            },
            None => false,
        }
    }

    /// Every job has no task running: all handed out work is done.
    pub open spec fn all_done(&self) -> bool {
        finished(self.jobs())
    }

    /// Whether tracking is over: no job has a task running.
    pub fn tracking_done(&self) -> (b: bool)
        ensures
            b == self.all_done(),
    {
        let ks = key_list(&self.jobs);
        let mut i: usize = 0;
        while i < ks.len()
            invariant
                ks@.to_set() == self.jobs@.dom(),
                i <= ks@.len(),
                forall|x: int| 0 <= x < i ==> #[trigger] self.jobs()[ks@[x]].remaining_count == 0,
            decreases ks@.len() - i,
        {
            let k = ks[i];
            assert(ks@.to_set().contains(k));
            match self.jobs.get(&k) {
                Some(j) => {
                    assert(self.jobs@[k] == *j);
                    if j.remaining_count != 0 {
                        assert(self.jobs().contains_key(k));
                        return false;
                    }
                },
                None => {
                    assert(false);
                },
            }
            i = i + 1;
        }
        assert forall|id: usize| #[trigger] self.jobs().contains_key(id) implies self.jobs()[id].remaining_count == 0 by {
            assert(ks@.to_set().contains(id));
            let x = choose|x: int| 0 <= x < ks@.len() && ks@[x] == id;
            assert(self.jobs()[ks@[x]].remaining_count == 0);
        }
        true
    }

    /// The id law: each job's id is the one it is queued under, below the id that
    /// `queue_job` gives next, so no two calls of `queue_job` give one id.
    pub proof fn law_job_ids_distinct(&self)
        requires
            self.wf(),
        ensures
            forall|id: usize| #[trigger] self.jobs().contains_key(id) ==> id < self.next_id() && self.jobs()[id].id == id,
    {
    }

    /// Starts tracking: each job's first stage is its map stage, with one task per split.
    /// The result holds the directives of those tasks, job after job, in the order in which
    /// the table of jobs is walked.
    pub fn begin_tracking(&mut self) -> (out: Vec<MasterMessage>)
        requires
            old(self).wf(),
        ensures
            final(self).wf(),
            final(self).next_id() == old(self).next_id(),
            final(self).connected() == old(self).connected(),
            final(self).jobs() == tracking_start(old(self).jobs(), old(self).connected()),
            exists|ks: Seq<usize>|
                ks.no_duplicates() && ks.to_set() == old(self).jobs().dom() && out@.map_values(
                    |m: MasterMessage| m@,
                ) == ks.flat_map(|k: usize| initial_directives(k, old(self).jobs()[k], old(self).connected())),
    {
        let ghost m0 = self.jobs();
        let ghost c = self.connected;
        let ghost f = |k: usize| initial_directives(k, m0[k], c);
        let ks = key_list(&self.jobs);
        let mut out: Vec<MasterMessage> = Vec::new();
        let mut i: usize = 0;
        assert(ks@.take(0).flat_map(f) =~= Seq::<DirectiveView>::empty());
        while i < ks.len()
            invariant
                c == self.connected,
                f == (|k: usize| initial_directives(k, m0[k], c)),
                self.id_ctr == old(self).id_ctr,
                self.connected == old(self).connected,
                m0 == old(self).jobs(),
                forall|id: usize| #[trigger] m0.contains_key(id) ==> id < self.id_ctr && m0[id].id == id,
                ks@.to_set() == m0.dom(),
                ks@.no_duplicates(),
                self.jobs@.dom() == m0.dom(),
                i <= ks@.len(),
                forall|id: usize|
                    #[trigger] m0.contains_key(id) ==> self.jobs()[id] == if ks@.take(i as int).contains(id) {
                        with_remaining(m0[id], effective_splits(m0[id].splits, c))
                    } else {
                        m0[id]
                    },
                out@.map_values(|m: MasterMessage| m@) == ks@.take(i as int).flat_map(f),
            decreases ks@.len() - i,
        {
            let k = ks[i];
            assert(ks@.to_set().contains(k));
            assert(!ks@.take(i as int).contains(k)) by {
                if ks@.take(i as int).contains(k) {
                    let y = choose|y: int| 0 <= y < i && ks@.take(i as int)[y] == k;
                    assert(ks@[y] == ks@[i as int]);
                }
            }
            let ghost before = self.jobs();
            let mut job = match self.jobs.remove(&k) {
                Some(j) => j,
                None => {
                    assert(false);
                    return out;
                },
            };
            assert(job@ == m0[k]);
            let s = effective_splits_of(job.splits, self.connected);
            job.remaining_count = s;
            let mut batch = stage_batch(TaskType::Mapping, k, &job.name, "map", "shuffle", s, self.connected);
            let ghost prev_out = out@.map_values(|m: MasterMessage| m@);
            let ghost batch_view = batch@.map_values(|m: MasterMessage| m@);
            out.append(&mut batch);
            let ghost jv = job@;
            self.jobs.insert(k, job);
            proof {
                assert(batch_view =~= f(k));
                assert(out@.map_values(|m: MasterMessage| m@) =~= prev_out + batch_view);
                ks@.take(i as int).lemma_flat_map_push(f, k);
                assert(ks@.take(i + 1) == ks@.take(i as int).push(k));
                assert(self.jobs@.dom() =~= m0.dom());
                assert forall|id: usize| #[trigger] m0.contains_key(id) implies self.jobs()[id] == if ks@.take(i + 1).contains(id) {
                    with_remaining(m0[id], effective_splits(m0[id].splits, c))
                } else {
                    m0[id]
                } by {
                    if id == k {
                        assert(ks@.take(i + 1)[i as int] == k);
                        assert(jv == with_remaining(m0[k], effective_splits(m0[k].splits, c)));
                    } else {
                        assert(self.jobs()[id] == before[id]);
                        if ks@.take(i as int).contains(id) {
                            let y = choose|y: int| 0 <= y < i && ks@.take(i as int)[y] == id;
                            assert(ks@.take(i + 1)[y] == id);
                        }
                        let t1 = ks@.take(i + 1);
                        if t1.contains(id) {
                            let y = choose|y: int| 0 <= y < t1.len() && t1[y] == id;
                            assert(y != i);
                            assert(ks@.take(i as int)[y] == id);
                        }
                    }
                }
            }
            i = i + 1;
        }
        assert(ks@.take(ks@.len() as int) == ks@);
        assert forall|id: usize| #[trigger] m0.contains_key(id) implies ks@.contains(id) by {
            assert(ks@.to_set().contains(id));
        }
        assert(self.jobs() =~= tracking_start(m0, c));
        out
    }

    /// A task of job `id` is done. When it was the last task of the current stage and the
    /// pipeline holds another stage, that stage starts: the result holds one directive per
    /// split for it. Otherwise the result is empty.
    pub fn on_done(&mut self, id: usize) -> (out: Vec<MasterMessage>)
        requires
            old(self).wf(),
            old(self).accepts(id),
        ensures
            final(self).wf(),
            final(self).next_id() == old(self).next_id(),
            final(self).connected() == old(self).connected(),
            final(self).jobs() == report_in(old(self).jobs(), old(self).connected(), id),
            out@.map_values(|m: MasterMessage| m@) == report_step(old(self).jobs()[id], old(self).connected()).1,
            out@.len() > 0 ==> final(self).jobs()[id].remaining_count == out@.len(),
    {
        let ghost m0 = self.jobs();
        let ghost j0 = m0[id];
        let mut job = match self.jobs.remove(&id) {
            Some(j) => j,
            None => {
                assert(false);
                return Vec::new();
            },
        };
        assert(job@ == j0);
        job.remaining_count = job.remaining_count - 1;
        let mut out: Vec<MasterMessage> = Vec::new();
        if job.remaining_count == 0 {
            match job.pipeline.pop_front() {
                None => {},
                Some(task) => {
                    let next = if job.pipeline.len() > 0 {
                        job.pipeline[0].task_type.name()
                    } else {
                        let mut r = String::new();
                        push_str(&mut r, "result");
                        r
                    };
                    let s = effective_splits_of(job.splits, self.connected);
                    job.remaining_count = s;
                    let name = task.task_type.name();
                    out = stage_batch(task.task_type, job.id, &job.name, name.as_str(), next.as_str(), s, self.connected);
                    proof {
                        let rest = j0.pipeline.drop_first();
                        assert(job@.pipeline =~= rest);
                        if rest.len() > 0 {
                            assert(job.pipeline@[0].task_type == rest[0]);
                        }
                        assert(next@ == next_stage_name(rest));
                        assert(out@.map_values(|m: MasterMessage| m@) =~= stage_directives(j0, self.connected));
                        assert(job@ == advanced(j0, self.connected));
                    }
                },
            }
        }
        let ghost jv = job@;
        self.jobs.insert(id, job);
        assert(jv == report_step(j0, self.connected).0);
        assert(self.jobs() =~= m0.insert(id, jv));
        if out.len() == 0 {
            assert(out@.map_values(|m: MasterMessage| m@) =~= Seq::<DirectiveView>::empty());
        }
        out
    }

    /// For each job, in the order in which the table of jobs is walked: its name, its input
    /// file and its number of splits.
    pub fn split_requests(&self) -> (r: Vec<(String, String, usize)>)
        ensures
            exists|ks: Seq<usize>|
                #![trigger ks.to_set()]
                ks.no_duplicates() && ks.to_set() == self.jobs().dom() && r@.len() == ks.len() && forall|i: int|
                    0 <= i < r@.len() ==> (#[trigger] r@[i]).0@ == self.jobs()[ks[i]].name && r@[i].1@
                        == self.jobs()[ks[i]].input_file && r@[i].2 == effective_splits(
                        self.jobs()[ks[i]].splits,
                        self.connected(),
                    ),
    {
        let ks = key_list(&self.jobs);
        let mut r: Vec<(String, String, usize)> = Vec::new();
        let mut i: usize = 0;
        while i < ks.len()
            invariant
                ks@.to_set() == self.jobs@.dom(),
                i <= ks@.len(),
                r@.len() == i,
                forall|x: int|
                    0 <= x < i ==> (#[trigger] r@[x]).0@ == self.jobs()[ks@[x]].name && r@[x].1@
                        == self.jobs()[ks@[x]].input_file && r@[x].2 == effective_splits(
                        self.jobs()[ks@[x]].splits,
                        self.connected(),
                    ),
            decreases ks@.len() - i,
        {
            let k = ks[i];
            assert(ks@.to_set().contains(k));
            match self.jobs.get(&k) {
                Some(job) => {
                    assert(self.jobs@[k] == *job);
                    let mut n = String::new();
                    push_str(&mut n, job.name.as_str());
                    let mut f = String::new();
                    push_str(&mut f, job.input_file.as_str());
                    let e = effective_splits_of(job.splits, self.connected);
                    r.push((n, f, e));
                },
                None => {
                    assert(false);
                },
            }
            i = i + 1;
        }
        assert(self.jobs().dom() =~= self.jobs@.dom());
        r
    }
}

/// The bytes a line takes in a split file: its UTF-8 encoding and a line feed.
pub open spec fn line_bytes(l: Seq<char>) -> nat {
    vstd::utf8::encode_utf8(l).len() + 1
}

/// The bytes that the first `n` lines of `ls` take in a split file.
pub open spec fn fill_bytes(ls: Seq<Seq<char>>, n: int) -> nat
    decreases n,
{
    if n <= 0 {
        0
    } else {
        fill_bytes(ls, n - 1) + line_bytes(ls[n - 1])
    }
}

/// How many lines of `ls` go into a split file that already holds `acc` bytes: lines are
/// added while the file holds fewer than `size` bytes and lines remain.
pub open spec fn fill_count(ls: Seq<Seq<char>>, size: nat, acc: nat) -> nat
    decreases ls.len(),
{
    if acc >= size || ls.len() == 0 {
        0
    } else {
        1 + fill_count(ls.drop_first(), size, acc + line_bytes(ls[0]))
    }
}

/// The lines, each followed by a line feed.
pub open spec fn with_newlines(ls: Seq<Seq<char>>) -> Seq<char> {
    ls.flat_map(|l: Seq<char>| l.push('\n'))
}

/// The contents of the split files of the lines `ls`: exactly `files` files, each but the last
/// filled line by line until it holds at least `size` bytes or the lines run out, and the
/// last holding every line that remains.
pub open spec fn split_contents(ls: Seq<Seq<char>>, files: nat, size: nat) -> Seq<Seq<char>>
    decreases files,
{
    if files == 0 {
        Seq::empty()
    } else if files == 1 {
        seq![with_newlines(ls)]
    } else {
        let n = fill_count(ls, size, 0);
        seq![with_newlines(ls.take(n as int))] + split_contents(ls.skip(n as int), (files - 1) as nat, size)
    }
}

proof fn lemma_fill_count_bound(ls: Seq<Seq<char>>, size: nat, acc: nat)
    ensures
        fill_count(ls, size, acc) <= ls.len(),
    decreases ls.len(),
{
    if !(acc >= size || ls.len() == 0) {
        lemma_fill_count_bound(ls.drop_first(), size, acc + line_bytes(ls[0]));
    }
}

proof fn lemma_with_newlines_concat(a: Seq<Seq<char>>, b: Seq<Seq<char>>)
    ensures
        with_newlines(a + b) == with_newlines(a) + with_newlines(b),
    decreases b.len(),
{
    let nl = |l: Seq<char>| l.push('\n');
    if b.len() == 0 {
        assert(a + b == a);
        assert(b.flat_map(nl) =~= Seq::<char>::empty());
        assert(with_newlines(a) + with_newlines(b) =~= with_newlines(a));
    } else {
        let b1 = b.drop_last();
        lemma_with_newlines_concat(a, b1);
        assert(a + b == (a + b1).push(b.last()));
        assert(b == b1.push(b.last()));
        (a + b1).lemma_flat_map_push(nl, b.last());
        b1.lemma_flat_map_push(nl, b.last());
        assert(with_newlines(a + b) =~= with_newlines(a) + with_newlines(b));
    }
}

/// The split law: there are exactly `files` split files, and together, in order, they hold
/// every line of the input once, each followed by a line feed.
pub proof fn law_split_keeps_line_order(ls: Seq<Seq<char>>, files: nat, size: nat)
    requires
        files >= 1,
    ensures
        split_contents(ls, files, size).len() == files,
        split_contents(ls, files, size).flatten() == with_newlines(ls),
    decreases files,
{
    if files == 1 {
        seq![with_newlines(ls)].lemma_flatten_one_element();
    } else {
        let n = fill_count(ls, size, 0);
        lemma_fill_count_bound(ls, size, 0);
        let content = with_newlines(ls.take(n as int));
        let rest = ls.skip(n as int);
        law_split_keeps_line_order(rest, (files - 1) as nat, size);
        let tail = split_contents(rest, (files - 1) as nat, size);
        assert(split_contents(ls, files, size) == seq![content] + tail);
        assert((seq![content] + tail).flatten() == content + tail.flatten()) by {
            assert((seq![content] + tail).first() == content);
            assert((seq![content] + tail).drop_first() =~= tail);
        }
        assert(ls.take(n as int) + rest =~= ls);
        lemma_with_newlines_concat(ls.take(n as int), rest);
    }
}

/// The contents of the split files of the input text `ip`: `splits` files, each but the
/// last filled line by line until it holds at least `split_size` bytes or the lines run out,
/// and the last holding the lines that remain.
pub fn split_file_contents(ip: &str, splits: usize, split_size: u64) -> (out: Vec<String>)
    ensures
        out@.map_values(|c: String| c@) == split_contents(lines(ip@), splits as nat, split_size as nat),
{
    let cs = chars_of(ip);
    let lrs = line_ranges(&cs, 0, cs.len());
    assert(cs@.subrange(0, cs@.len() as int) == cs@);
    let ghost ls = lines(ip@);
    let ghost size = split_size as nat;
    let ghost nl = |l: Seq<char>| l.push('\n');
    let n = lrs.len();
    let mut out: Vec<String> = Vec::new();
    if splits == 0 {
        assert(out@.map_values(|c: String| c@) =~= Seq::<Seq<char>>::empty());
        return out;
    }
    let mut p: usize = 0;
    let mut f: usize = 0;
    assert(ls.skip(0) == ls);
    assert(out@.map_values(|c: String| c@) =~= Seq::<Seq<char>>::empty());
    while f < splits - 1
        invariant
            cs@ == ip@,
            ls == lines(ip@),
            n == lrs@.len(),
            slices(cs@, lrs@) == ls,
            ranges_within(lrs@, 0, cs@.len() as int),
            size == split_size as nat,
            nl == (|l: Seq<char>| l.push('\n')),
            splits > 0,
            p <= n,
            f <= splits - 1,
            out@.map_values(|c: String| c@) + split_contents(ls.skip(p as int), (splits - f) as nat, size)
                == split_contents(ls, splits as nat, size),
        decreases splits - f,
    {
        let ghost rest = ls.skip(p as int);
        let ghost p0 = p;
        let mut content = String::new();
        let mut acc: u128 = 0;
        assert(rest.take(0).flat_map(nl) =~= Seq::<char>::empty());
        assert(rest.skip(0) == rest);
        while acc < split_size as u128 && p < n
            invariant
                cs@ == ip@,
                ls == lines(ip@),
                n == lrs@.len(),
                slices(cs@, lrs@) == ls,
                ranges_within(lrs@, 0, cs@.len() as int),
                size == split_size as nat,
                nl == (|l: Seq<char>| l.push('\n')),
                rest == ls.skip(p0 as int),
                p0 <= p <= n,
                acc == fill_bytes(rest, p - p0),
                acc <= size + 0x1_0000_0000_0000_0001,
                content@ == rest.take(p - p0).flat_map(nl),
                fill_count(rest, size, 0) == (p - p0) + fill_count(rest.skip(p - p0), size, acc as nat),
            decreases n - p,
        {
            let r = lrs[p];
            assert(r == lrs@[p as int]);
            let line = string_of(&cs, r.0, r.1);
            let ghost q = p - p0;
            assert(line@ == rest[q]);
            let len = line.as_str().as_bytes().len();
            proof {
                assert(len as nat == vstd::utf8::encode_utf8(rest[q]).len());
                assert(fill_bytes(rest, q + 1) == fill_bytes(rest, q) + line_bytes(rest[q]));
                assert(rest.skip(q).len() > 0);
                assert(fill_count(rest.skip(q), size, acc as nat) == 1 + fill_count(
                    rest.skip(q).drop_first(),
                    size,
                    acc as nat + line_bytes(rest.skip(q)[0]),
                ));
                assert(rest.skip(q).drop_first() == rest.skip(q + 1));
                assert(rest.skip(q)[0] == rest[q]);
                rest.take(q).lemma_flat_map_push(nl, rest[q]);
                assert(rest.take(q + 1) == rest.take(q).push(rest[q]));
            }
            acc = acc + len as u128 + 1;
            push_str(&mut content, line.as_str());
            push_char(&mut content, '\n');
            p = p + 1;
        }
        let ghost q = p - p0;
        assert(fill_count(rest.skip(q), size, acc as nat) == 0);
        let ghost c = content@;
        out.push(content);
        proof {
            assert(rest.skip(q) == ls.skip(p as int));
        }
        assert(out@.map_values(|c: String| c@) =~= out@.drop_last().map_values(|c: String| c@).push(c));
        assert(split_contents(rest, (splits - f) as nat, size) == seq![c] + split_contents(
            ls.skip(p as int),
            (splits - f - 1) as nat,
            size,
        ));
        f = f + 1;
    }
    let ghost rest = ls.skip(p as int);
    let ghost p0 = p;
    let mut content = String::new();
    assert(rest.take(0).flat_map(nl) =~= Seq::<char>::empty());
    while p < n
        invariant
            cs@ == ip@,
            ls == lines(ip@),
            n == lrs@.len(),
            slices(cs@, lrs@) == ls,
            ranges_within(lrs@, 0, cs@.len() as int),
            nl == (|l: Seq<char>| l.push('\n')),
            rest == ls.skip(p0 as int),
            p0 <= p <= n,
            content@ == rest.take(p - p0).flat_map(nl),
        decreases n - p,
    {
        let r = lrs[p];
        assert(r == lrs@[p as int]);
        let line = string_of(&cs, r.0, r.1);
        let ghost q = p - p0;
        assert(line@ == rest[q]);
        proof {
            rest.take(q).lemma_flat_map_push(nl, rest[q]);
            assert(rest.take(q + 1) == rest.take(q).push(rest[q]));
        }
        push_str(&mut content, line.as_str());
        push_char(&mut content, '\n');
        p = p + 1;
    }
    assert(rest.take(n - p0) == rest);
    let ghost c = content@;
    out.push(content);
    assert(out@.map_values(|c: String| c@) =~= out@.drop_last().map_values(|c: String| c@).push(c));
    assert(split_contents(rest, 1, size) == seq![c]);
    out
}

/// How often `w` occurs in the split files, added up over the files.
pub open spec fn split_occurrences(files: Seq<Seq<char>>, w: Seq<char>) -> nat
    decreases files.len(),
{
    if files.len() == 0 {
        0
    } else {
        occurrences(words(files[0]), w) + split_occurrences(files.drop_first(), w)
    }
}

proof fn lemma_with_newlines_end(ls: Seq<Seq<char>>)
    ensures
        with_newlines(ls).len() == 0 || with_newlines(ls).last() == '\n',
{
    let nl = |l: Seq<char>| l.push('\n');
    if ls.len() == 0 {
        assert(ls.flat_map(nl) =~= Seq::<char>::empty());
    } else {
        assert(ls == ls.drop_last().push(ls.last()));
        ls.drop_last().lemma_flat_map_push(nl, ls.last());
    }
}

proof fn lemma_split_files_end(ls: Seq<Seq<char>>, files: nat, size: nat)
    ensures
        forall|i: int|
            0 <= i < split_contents(ls, files, size).len() ==> (#[trigger] split_contents(ls, files, size)[i]).len()
                == 0 || split_contents(ls, files, size)[i].last() == '\n',
    decreases files,
{
    if files == 1 {
        lemma_with_newlines_end(ls);
    } else if files > 1 {
        let n = fill_count(ls, size, 0);
        lemma_with_newlines_end(ls.take(n as int));
        lemma_split_files_end(ls.skip(n as int), (files - 1) as nat, size);
        let tail = split_contents(ls.skip(n as int), (files - 1) as nat, size);
        assert forall|i: int| 0 < i < split_contents(ls, files, size).len() implies split_contents(ls, files, size)[i]
            == tail[i - 1] by {}
    }
}

proof fn lemma_occurrences_flatten(files: Seq<Seq<char>>, w: Seq<char>)
    requires
        forall|i: int| 0 <= i < files.len() ==> (#[trigger] files[i]).len() == 0 || files[i].last() == '\n',
    ensures
        occurrences(words(files.flatten()), w) == split_occurrences(files, w),
    decreases files.len(),
{
    if files.len() == 0 {
        assert(words(Seq::<char>::empty()) =~= Seq::<Seq<char>>::empty()) by {
            lemma_words_concat(Seq::<char>::empty(), Seq::<char>::empty());
        }
    } else {
        let rest = files.drop_first();
        assert forall|i: int| 0 <= i < rest.len() implies (#[trigger] rest[i]).len() == 0 || rest[i].last() == '\n' by {
            assert(rest[i] == files[i + 1]);
        }
        lemma_occurrences_flatten(rest, w);
        assert(files[0].len() == 0 || files[0].last() == '\n');
        lemma_words_concat(files[0], rest.flatten());
        Seq::filter_distributes_over_add(words(files[0]), words(rest.flatten()), is_word(w));
    }
}

/// The split counting law: each word occurs in the text of the split files, taken whole, as
/// often as in the split files, added up over the files.
pub proof fn law_split_counts_add(ls: Seq<Seq<char>>, files: nat, size: nat, w: Seq<char>)
    requires
        files >= 1,
    ensures
        occurrences(words(with_newlines(ls)), w) == split_occurrences(split_contents(ls, files, size), w),
{
    law_split_keeps_line_order(ls, files, size);
    lemma_split_files_end(ls, files, size);
    lemma_occurrences_flatten(split_contents(ls, files, size), w);
}

} // verus!
