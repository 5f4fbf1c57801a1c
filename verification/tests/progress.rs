use graph::progress::{IndexingProgress, ProgressToken, WorkDoneProgress};

fn indexing() -> ProgressToken {
    ProgressToken::String("rustAnalyzer/Indexing".to_string())
}

fn named(name: &str) -> ProgressToken {
    ProgressToken::String(name.to_string())
}

#[test]
fn tokens_compare_by_kind_and_value() {
    assert!(ProgressToken::Number(3).same(&ProgressToken::Number(3)));
    assert!(!ProgressToken::Number(3).same(&ProgressToken::Number(4)));
    assert!(named("a").same(&named("a")));
    assert!(!named("a").same(&named("b")));
    assert!(!named("3").same(&ProgressToken::Number(3)));
    assert!(!ProgressToken::Number(3).same(&named("3")));
}

#[test]
fn indexing_is_awaited_from_the_start() {
    let progress = IndexingProgress::new();
    assert!(!progress.is_done());
}

#[test]
fn the_end_of_indexing_ends_the_wait() {
    let mut progress = IndexingProgress::new();
    assert!(!progress.observe(indexing(), WorkDoneProgress::Begin));
    assert!(!progress.observe(indexing(), WorkDoneProgress::Report));
    assert!(progress.observe(indexing(), WorkDoneProgress::End));
    assert!(progress.is_done());
}

#[test]
fn a_begin_twice_is_ended_once() {
    let mut progress = IndexingProgress::new();
    assert!(!progress.observe(indexing(), WorkDoneProgress::Begin));
    assert!(!progress.observe(indexing(), WorkDoneProgress::Begin));
    assert!(progress.observe(indexing(), WorkDoneProgress::End));
}

#[test]
fn other_work_is_awaited_too() {
    let mut progress = IndexingProgress::new();
    assert!(!progress.observe(ProgressToken::Number(7), WorkDoneProgress::Begin));
    assert!(!progress.observe(named("rustAnalyzer/Fetching"), WorkDoneProgress::Begin));
    assert!(!progress.observe(indexing(), WorkDoneProgress::End));
    assert!(!progress.observe(ProgressToken::Number(7), WorkDoneProgress::End));
    assert!(!progress.observe(ProgressToken::Number(7), WorkDoneProgress::End));
    assert!(progress.observe(named("rustAnalyzer/Fetching"), WorkDoneProgress::End));
}

#[test]
fn the_end_of_unknown_work_changes_nothing() {
    let mut progress = IndexingProgress::new();
    assert!(!progress.observe(ProgressToken::Number(1), WorkDoneProgress::End));
    assert!(!progress.observe(named("rustAnalyzer/indexing"), WorkDoneProgress::End));
    assert!(!progress.is_done());
    assert!(progress.observe(indexing(), WorkDoneProgress::End));
}

#[test]
fn a_report_is_not_a_begin() {
    let mut progress = IndexingProgress::new();
    assert!(!progress.observe(ProgressToken::Number(1), WorkDoneProgress::Report));
    assert!(progress.observe(indexing(), WorkDoneProgress::End));
}

#[test]
fn once_done_a_report_finds_it_done() {
    let mut progress = IndexingProgress::new();
    assert!(progress.observe(indexing(), WorkDoneProgress::End));
    assert!(progress.observe(ProgressToken::Number(1), WorkDoneProgress::Report));
    assert!(!progress.observe(ProgressToken::Number(1), WorkDoneProgress::Begin));
}
