use da_sampler::downloader::{
    segment_valid, task_step, DownloadStep, Downloader, EndpointReply, TaskStep, MAX_DOWNLOAD_TASK, MAX_RETRY,
};

#[test]
fn segment_validation_rules() {
    let root = [7u8; 32];
    let mut other = root;
    other[31] = 8;
    assert!(segment_valid(256 * 1024, &root, &root, true));
    assert!(segment_valid(0, &root, &root, true));
    assert!(!segment_valid(256 * 1024 + 1, &root, &root, true));
    assert!(!segment_valid(512, &other, &root, true));
    assert!(!segment_valid(512, &root, &root, false));
}

#[test]
fn endpoints_are_tried_in_order() {
    assert_eq!(task_step(0, 3, EndpointReply::Valid), TaskStep::Deliver);
    assert_eq!(task_step(0, 3, EndpointReply::NotFound), TaskStep::TryNext { next: 1 });
    assert_eq!(task_step(1, 3, EndpointReply::Invalid), TaskStep::TryNext { next: 2 });
    assert_eq!(task_step(2, 3, EndpointReply::TransportError), TaskStep::GiveUp);
    assert_eq!(task_step(2, 3, EndpointReply::Valid), TaskStep::Deliver);
}

#[test]
fn results_follow_request_order() {
    let indexes = vec![10, 11, 12, 13, 14, 15, 16];
    let (mut d, first) = Downloader::new(indexes);
    assert_eq!(first, vec![0, 1, 2, 3, 4]);
    assert_eq!(first.len(), MAX_DOWNLOAD_TASK);
    assert_eq!(d.on_outcome(3, Some(vec![3])), DownloadStep::Launch(5));
    assert_eq!(d.on_outcome(1, None), DownloadStep::Launch(1));
    assert_eq!(d.on_outcome(5, Some(vec![5])), DownloadStep::Launch(6));
    assert_eq!(d.on_outcome(0, Some(vec![0])), DownloadStep::Wait);
    assert_eq!(d.on_outcome(6, Some(vec![6])), DownloadStep::Wait);
    assert_eq!(d.on_outcome(1, Some(vec![1])), DownloadStep::Wait);
    assert_eq!(d.on_outcome(4, Some(vec![4])), DownloadStep::Wait);
    assert!(!d.is_done());
    assert_eq!(d.on_outcome(2, Some(vec![2])), DownloadStep::Wait);
    assert!(d.is_done());
    assert_eq!(d.into_results(), vec![vec![0], vec![1], vec![2], vec![3], vec![4], vec![5], vec![6]]);
}

#[test]
fn repeated_segments_are_fetched_per_request() {
    let (mut d, first) = Downloader::new(vec![4, 4]);
    assert_eq!(first, vec![0, 1]);
    assert_eq!(d.on_outcome(1, Some(vec![9])), DownloadStep::Wait);
    assert_eq!(d.on_outcome(0, Some(vec![9])), DownloadStep::Wait);
    assert!(d.is_done());
    assert_eq!(d.into_results(), vec![vec![9], vec![9]]);
}

#[test]
fn retries_run_out() {
    let (mut d, _) = Downloader::new(vec![42, 43]);
    for _ in 0..MAX_RETRY {
        assert_eq!(d.on_outcome(0, None), DownloadStep::Launch(0));
    }
    assert_eq!(d.on_outcome(0, None), DownloadStep::Failed { task: 0, segment_index: 42 });
}

#[test]
fn reports_of_idle_tasks_are_ignored() {
    let (mut d, _) = Downloader::new(vec![1]);
    assert_eq!(d.on_outcome(5, Some(vec![1])), DownloadStep::Wait);
    assert_eq!(d.on_outcome(0, Some(vec![1])), DownloadStep::Wait);
    assert_eq!(d.on_outcome(0, None), DownloadStep::Wait);
    assert!(d.is_done());
    assert_eq!(d.into_results(), vec![vec![1]]);
}

#[test]
fn empty_download_is_done_at_once() {
    let (d, first) = Downloader::new(vec![]);
    assert!(first.is_empty());
    assert!(d.is_done());
    assert!(d.into_results().is_empty());
}
