use mapreduce::job_manager::{
    effective_splits_of, get_splitfile_name, Job, JobManager, PipelineTask, Splits, TaskType,
};
use mapreduce::manager::{Manager, Tasks, WorkerType};
use mapreduce::messages::MasterMessage;
use std::collections::VecDeque;

fn map_msg(id: usize) -> MasterMessage {
    MasterMessage::MapDirective { id, input_file: "in".to_string(), output_file: "out".to_string() }
}

fn is_map(m: &MasterMessage, want: usize) -> bool {
    matches!(m, MasterMessage::MapDirective { id, .. } if *id == want)
}

#[test]
fn manager_hands_out_and_queues() {
    let mut m = Manager::new();
    m.add_worker(1);
    m.add_worker(2);
    let s = m.allocate(map_msg(10)).unwrap();
    assert_eq!(s.0, 1);
    assert!(is_map(&s.1, 10));
    let s = m.allocate(map_msg(11)).unwrap();
    assert_eq!(s.0, 2);
    assert!(m.allocate(map_msg(12)).is_none());
    assert_eq!(m.pending.len(), 1);
    assert!(!m.tasks_done());
    let s = m.worker_done(1).unwrap();
    assert_eq!(s.0, 1);
    assert!(is_map(&s.1, 12));
    assert!(m.pending.is_empty());
    assert!(m.worker_done(2).is_none());
    assert!(m.worker_done(99).is_none());
    assert!(!m.tasks_done());
    assert!(m.worker_done(1).is_none());
    assert!(m.tasks_done());
    // worker 2 became free first, so it is handed the next directive
    assert_eq!(m.allocate(map_msg(13)).unwrap().0, 2);
}

#[test]
fn manager_handles_tasks() {
    let mut m = Manager::new();
    let step = m.handle(Tasks::AddWorker { ip: 7 });
    assert!(step.send.is_none() && !step.all_done);
    let step = m.handle(Tasks::Allocate { message: map_msg(1) });
    assert_eq!(step.send.unwrap().0, 7);
    let step = m.handle(Tasks::FreeWorker { ip: 8 });
    assert!(step.send.is_none() && !step.all_done);
    let step = m.handle(Tasks::FreeWorker { ip: 7 });
    assert!(step.send.is_none() && step.all_done);
    assert_eq!(WorkerType::Unassigned, WorkerType::Unassigned);
}

fn pipeline() -> VecDeque<PipelineTask> {
    let mut p = VecDeque::new();
    p.push_back(PipelineTask { task_type: TaskType::Mapping });
    p.push_back(PipelineTask { task_type: TaskType::Shuffle });
    p.push_back(PipelineTask { task_type: TaskType::Reduce });
    p
}

fn files(m: &MasterMessage) -> (usize, String, String) {
    match m {
        MasterMessage::MapDirective { id, input_file, output_file } => (*id, input_file.clone(), output_file.clone()),
        MasterMessage::ReduceDirective { id, input_file, output_file } => (*id, input_file.clone(), output_file.clone()),
        MasterMessage::ShuffleDirective { id, input_file, splits } => (*id, input_file.clone(), splits.to_string()),
    }
}

#[test]
fn split_file_names() {
    assert_eq!(get_splitfile_name("wc", "map", 3), "wc_map_split_3.txt");
    assert_eq!(TaskType::Mapping.name(), "map");
    assert_eq!(TaskType::Shuffle.name(), "shuffle");
    assert_eq!(TaskType::Reduce.name(), "reduce");
    assert_eq!(effective_splits_of(Splits::Max, 4), 4);
    assert_eq!(effective_splits_of(Splits::Count(0), 4), 4);
    assert_eq!(effective_splits_of(Splits::Count(2), 4), 2);
}

#[test]
fn job_manager_runs_pipeline() {
    let mut jm = JobManager::new(2);
    jm.queue_job(Job::new("wc", "in.txt", pipeline()));
    let req = jm.split_requests();
    assert_eq!(req, vec![("wc".to_string(), "in.txt".to_string(), 2)]);
    assert!(jm.tracking_done());
    let first = jm.begin_tracking();
    assert_eq!(first.len(), 2);
    assert!(!jm.tracking_done());
    assert_eq!(files(&first[0]), (1, "wc_map_split_1.txt".to_string(), "wc_shuffle_split_1.txt".to_string()));
    assert_eq!(files(&first[1]), (1, "wc_map_split_2.txt".to_string(), "wc_shuffle_split_2.txt".to_string()));
    assert!(jm.accepts_done(1));
    assert!(!jm.accepts_done(2));
    assert!(jm.on_done(1).is_empty());
    let next = jm.on_done(1);
    assert_eq!(next.len(), 2);
    assert_eq!(files(&next[0]), (1, "wc_map_split_1.txt".to_string(), "wc_shuffle_split_1.txt".to_string()));
    assert_eq!(files(&next[1]), (1, "wc_map_split_2.txt".to_string(), "wc_shuffle_split_2.txt".to_string()));
    assert!(jm.on_done(1).is_empty());
    let shuffles = jm.on_done(1);
    assert_eq!(shuffles.len(), 2);
    assert_eq!(files(&shuffles[0]), (1, "wc_shuffle_split_1.txt".to_string(), "2".to_string()));
    assert_eq!(files(&shuffles[1]), (1, "wc_shuffle_split_2.txt".to_string(), "2".to_string()));
    jm.on_done(1);
    let reduces = jm.on_done(1);
    assert_eq!(files(&reduces[0]), (1, "wc_reduce_split_1.txt".to_string(), "wc_result_split_1.txt".to_string()));
    assert_eq!(files(&reduces[1]), (1, "wc_reduce_split_2.txt".to_string(), "wc_result_split_2.txt".to_string()));
    jm.on_done(1);
    assert!(jm.accepts_done(1));
    assert!(!jm.tracking_done());
    assert!(jm.on_done(1).is_empty());
    assert!(!jm.accepts_done(1));
    assert!(jm.tracking_done());
}

#[test]
fn job_manager_counts_splits() {
    let mut jm = JobManager::new(4);
    let mut job = Job::new("wc", "in.txt", VecDeque::new());
    job.set_splits(Splits::Count(3));
    jm.queue_job(job);
    jm.queue_job(Job::new("mx", "m.txt", VecDeque::new()));
    let mut req = jm.split_requests();
    req.sort();
    assert_eq!(
        req,
        vec![("mx".to_string(), "m.txt".to_string(), 4), ("wc".to_string(), "in.txt".to_string(), 3)]
    );
    let first = jm.begin_tracking();
    assert_eq!(first.len(), 7);
    let mut all: Vec<(usize, String, String)> = first.iter().map(files).collect();
    all.sort();
    assert_eq!(all[2], (1, "wc_map_split_3.txt".to_string(), "wc_shuffle_split_3.txt".to_string()));
    assert_eq!(all[3], (2, "mx_map_split_1.txt".to_string(), "mx_shuffle_split_1.txt".to_string()));
    // each job's directives come together, one per split in order
    let wc_first = first.iter().position(|m| files(m).0 == 1).unwrap();
    assert_eq!(files(&first[wc_first + 1]).1, "wc_map_split_2.txt");
    assert!(jm.accepts_done(2));
}
