use sismokaos::events::{
    chunk_length_warning, preprocess_outcome, run_outcome, PipelineEvent, ProgressMonitor, ProgressOutput,
};
use sismokaos::text::decimal_string;

fn shown(out: ProgressOutput) -> Option<(String, bool)> {
    match out {
        ProgressOutput::Nothing => None,
        ProgressOutput::Line(s) => Some((s, true)),
        ProgressOutput::Overwrite(s) => Some((s, false)),
    }
}

#[test]
fn windows_are_reported_every_120() {
    let mut m = ProgressMonitor::new();
    let mut lines = Vec::new();
    for _ in 0..250 {
        if let Some(l) = shown(m.observe(&PipelineEvent::WindowProcessed)) {
            lines.push(l);
        }
    }
    assert_eq!(
        lines,
        vec![
            ("\r Windows processed: 120".to_string(), false),
            ("\r Windows processed: 240".to_string(), false)
        ]
    );
    assert_eq!(m.processed(), 250);
    assert_eq!(
        shown(m.observe(&PipelineEvent::Completed)),
        Some(("\r Windows processed: 250".to_string(), true))
    );
}

#[test]
fn samples_are_reported_when_passing_a_multiple_of_100000() {
    let mut m = ProgressMonitor::new();
    assert_eq!(shown(m.observe(&PipelineEvent::ChunkProcessed(99_999))), None);
    assert_eq!(
        shown(m.observe(&PipelineEvent::ChunkProcessed(1))),
        Some(("\r Samples processed: 100000".to_string(), false))
    );
    assert_eq!(shown(m.observe(&PipelineEvent::ChunkProcessed(50_000))), None);
    assert_eq!(
        shown(m.observe(&PipelineEvent::ChunkProcessed(250_000))),
        Some(("\r Samples processed: 400000".to_string(), false))
    );
    assert_eq!(shown(m.observe(&PipelineEvent::ChunkProcessed(0))), None);
}

#[test]
fn other_events_print_lines() {
    let mut m = ProgressMonitor::new();
    assert_eq!(
        shown(m.observe(&PipelineEvent::FolderStarted("/data/x".to_string()))),
        Some((" Input: /data/x".to_string(), true))
    );
    assert_eq!(
        shown(m.observe(&PipelineEvent::Warning("careful".to_string()))),
        Some(("\r Warning: careful".to_string(), true))
    );
    assert_eq!(
        shown(m.observe(&PipelineEvent::Finished)),
        Some(("All processing finished successfully".to_string(), true))
    );
    assert_eq!(m.processed(), 0);
}

#[test]
fn decimal_strings_match_to_string() {
    for n in [0u64, 7, 10, 99, 100, 120, 100000, 1234567890, u64::MAX] {
        assert_eq!(decimal_string(n), n.to_string());
    }
}

#[test]
fn mismatched_chunk_lengths_warn() {
    assert!(chunk_length_warning(5, 5, 5).is_none());
    match chunk_length_warning(5, 4, 5) {
        Some(PipelineEvent::Warning(m)) => {
            assert_eq!(m, "Channel lengths mismatched in chunk! E: 5, N: 4, Z: 5")
        }
        _ => panic!("expected a warning"),
    }
}

#[test]
fn run_without_a_window_ends_with_a_warning() {
    match run_outcome(0) {
        PipelineEvent::Warning(msg) => assert_eq!(msg, "Not enough data for a single window."),
        other => panic!("unexpected {:?}", other),
    }
    assert!(matches!(run_outcome(3), PipelineEvent::Completed));
}

#[test]
fn preprocess_without_samples_ends_with_a_warning() {
    match preprocess_outcome(0) {
        PipelineEvent::Warning(msg) => assert_eq!(msg, "No samples produced during preprocessing."),
        other => panic!("unexpected {:?}", other),
    }
    assert!(matches!(preprocess_outcome(1), PipelineEvent::Completed));
}
