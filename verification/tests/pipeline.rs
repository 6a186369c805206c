use json_fanout::errors::ParseError;
use json_fanout::queue::{BoundedQueue, PushStep};
use json_fanout::report::aggregate_run;

fn doc(s: &str) -> Option<String> {
    Some(s.to_string())
}

#[test]
fn documents_in_the_queue_never_exceed_the_capacity() {
    let mut q = BoundedQueue::new(2);
    assert_eq!(q.push_step(doc("a"), false), PushStep::Inserted);
    assert_eq!(q.push_step(doc("b"), false), PushStep::Inserted);
    assert_eq!(q.document_total(), 2);
    // full: a further document is refused, however often it is tried
    assert_eq!(q.push_step(doc("c"), false), PushStep::Wait);
    assert_eq!(q.push_step(doc("c"), false), PushStep::Wait);
    assert_eq!(q.document_total(), 2);
    assert_eq!(q.len(), 2);
}

#[test]
fn sentinels_bypass_the_capacity_limit() {
    let mut q = BoundedQueue::new(1);
    assert_eq!(q.push_step(doc("a"), false), PushStep::Inserted);
    assert_eq!(q.push_step(None, false), PushStep::Inserted);
    assert_eq!(q.push_step(None, true), PushStep::Inserted);
    assert_eq!(q.document_total(), 1);
    assert_eq!(q.len(), 3);
}

#[test]
fn delivery_order_matches_arrival_order() {
    let mut q = BoundedQueue::new(3);
    q.push_step(doc("first"), false);
    q.push_step(doc("second"), false);
    q.push_step(doc("third"), false);
    assert_eq!(q.try_pop(), Some(doc("first")));
    assert_eq!(q.try_pop(), Some(doc("second")));
    assert_eq!(q.try_pop(), Some(doc("third")));
    assert_eq!(q.try_pop(), None);
}

#[test]
fn a_full_queue_aborts_the_producer_once_a_crash_is_seen() {
    let mut q = BoundedQueue::new(1);
    assert_eq!(q.push_step(doc("a"), false), PushStep::Inserted);
    // first attempt: no crash seen yet, so the producer is told to wait
    assert_eq!(q.push_step(doc("b"), false), PushStep::Wait);
    // the wait timed out and the crash flag was set: abort, nothing enqueued
    assert_eq!(q.push_step(doc("b"), true), PushStep::Aborted);
    assert_eq!(q.len(), 1);
    assert_eq!(q.try_pop(), Some(doc("a")));
}

#[test]
fn shutdown_delivers_exactly_one_sentinel_per_worker() {
    let mut q = BoundedQueue::new(1);
    assert_eq!(q.push_step(doc("pending"), false), PushStep::Inserted);
    // the queue is full, yet shutdown goes through and keeps the document
    q.enqueue_shutdown(3);
    assert_eq!(q.len(), 4);
    assert_eq!(q.document_total(), 1);
    // the pending document is still delivered first, then each of the three
    // workers pops one sentinel and stops
    assert_eq!(q.try_pop(), Some(doc("pending")));
    let mut sentinels: usize = 0;
    while let Some(entry) = q.try_pop() {
        assert_eq!(entry, None);
        sentinels += 1;
    }
    assert_eq!(sentinels, 3);
}

#[test]
fn shutdown_on_an_empty_queue_serves_every_worker() {
    let mut q = BoundedQueue::new(4);
    q.enqueue_shutdown(2);
    assert_eq!(q.try_pop(), Some(None));
    assert_eq!(q.try_pop(), Some(None));
    assert_eq!(q.try_pop(), None);
}

#[test]
fn a_successful_run_reports_success() {
    let results: Vec<Result<(), String>> = vec![Ok(()), Ok(()), Ok(())];
    let report = aggregate_run(None, &results);
    assert!(report.is_success());
    assert_eq!(report.parse_error, None);
    assert_eq!(report.worker_errors.len(), 0);
}

#[test]
fn every_worker_error_is_collected_in_order() {
    let results: Vec<Result<(), String>> = vec![
        Err("connection lost".to_string()),
        Ok(()),
        Err("statement failed".to_string()),
    ];
    let report = aggregate_run(None, &results);
    assert!(!report.is_success());
    assert_eq!(report.worker_errors, vec!["connection lost", "statement failed"]);
}

#[test]
fn an_extraction_error_alone_fails_the_run() {
    let results: Vec<Result<(), String>> = vec![Ok(())];
    let report = aggregate_run(Some(ParseError::UnexpectedEndOfInput), &results);
    assert!(!report.is_success());
    assert_eq!(report.parse_error, Some(ParseError::UnexpectedEndOfInput));
    assert_eq!(report.worker_errors.len(), 0);
}

#[test]
fn a_sink_failure_on_the_first_document_reaches_the_report() {
    // one worker, capacity one: the worker's sink fails on its first call
    let mut q = BoundedQueue::new(1);
    assert_eq!(q.push_step(doc("d1"), false), PushStep::Inserted);
    // the worker pops the document, its sink fails, it sets the crash flag
    let popped = q.try_pop().unwrap();
    assert_eq!(popped, doc("d1"));
    let sink_result: Result<(), String> = Err("sink failed".to_string());
    let crash_flag = sink_result.is_err();
    // the producer keeps extracting and filling the queue meanwhile
    assert_eq!(q.push_step(doc("d2"), false), PushStep::Inserted);
    // the next push finds the queue full; after one timed-out wait it sees
    // the crash flag and observes the abort
    assert_eq!(q.push_step(doc("d3"), false), PushStep::Wait);
    assert_eq!(q.push_step(doc("d3"), crash_flag), PushStep::Aborted);
    // the run result includes that sink error
    let report = aggregate_run(None, &vec![sink_result]);
    assert!(!report.is_success());
    assert_eq!(report.worker_errors, vec!["sink failed"]);
}

#[test]
fn an_aborted_producer_fails_the_run_as_a_pipeline_abort() {
    let results: Vec<Result<(), String>> = vec![Err("sink failed".to_string())];
    let report = aggregate_run(Some(ParseError::PipelineAborted), &results);
    assert!(!report.is_success());
    assert_eq!(report.parse_error, Some(ParseError::PipelineAborted));
    assert_eq!(report.worker_errors, vec!["sink failed"]);
}
