//! Pipeline events and the console progress report driven by them.

use vstd::prelude::*;
use vstd::string::*;

use crate::text::{append_decimal, decimal};

verus! {

/// Represents an event emitted by the background processing pipeline.
///
/// The pipeline streams: it discovers how much data there is as it goes, so events report
/// progress made rather than progress against a known total.
#[derive(Debug)]
pub enum PipelineEvent {
    /// Started processing the input directory
    FolderStarted(String),
    /// Successfully computed and wrote a single window
    WindowProcessed,
    /// Wrote a chunk of this many preprocessed samples
    ChunkProcessed(usize),
    /// All windows have been written
    Completed,
    /// Non-fatal error or warning during processing
    Warning(String),
    /// Pipeline finished completely
    Finished,
}

/// What the console should show in answer to one event.
pub enum ProgressOutput {
    /// Show nothing.
    Nothing,
    /// Print the text followed by a newline.
    Line(String),
    /// Print the text without a newline (it starts with a carriage return, so it
    /// overwrites the running counter) and flush.
    Overwrite(String),
}

/// Windows are reported every this many windows.
pub const WINDOW_REPORT_EVERY: u64 = 120;

/// Samples are reported each time the running total passes a multiple of this.
pub const SAMPLE_REPORT_EVERY: u64 = 100_000;

/// The running counter behind the console progress report.
///
/// Windows and samples share one counter: a run emits either window events
/// (full pipeline) or chunk events (preprocess-only), never both.
pub struct ProgressMonitor {
    processed: u64,
}

impl ProgressMonitor {
    /// The number of windows or samples counted so far.
    pub closed spec fn count(&self) -> nat {
        self.processed as nat
    }

    pub fn new() -> (m: Self)
        ensures
            m.count() == 0,
    {
        ProgressMonitor { processed: 0 }
    }

    pub fn processed(&self) -> (n: u64)
        ensures
            n == self.count(),
    {
        self.processed
    }

    /// Whether `observe` can count `event` without the counter overflowing.
    pub open spec fn can_count(&self, event: &PipelineEvent) -> bool {
        match *event {
            PipelineEvent::WindowProcessed => self.count() + 1 <= u64::MAX,
            PipelineEvent::ChunkProcessed(c) => self.count() + c <= u64::MAX,
            _ => true,
        }
    }

    /// Updates the counter for `event` and says what to show for it.
    pub fn observe(&mut self, event: &PipelineEvent) -> (out: ProgressOutput)
        requires
            old(self).can_count(event),
        ensures
            match *event {
                PipelineEvent::FolderStarted(folder) => {
                    &&& final(self).count() == old(self).count()
                    &&& out matches ProgressOutput::Line(s) && s@ == " Input: "@ + folder@
                },
                PipelineEvent::WindowProcessed => {
                    &&& final(self).count() == old(self).count() + 1
                    &&& if final(self).count() % (WINDOW_REPORT_EVERY as nat) == 0 {
                        out matches ProgressOutput::Overwrite(s) && s@ == "\r Windows processed: "@
                            + decimal(final(self).count())
                    } else {
                        out is Nothing
                    }
                },
                PipelineEvent::ChunkProcessed(c) => {
                    &&& final(self).count() == old(self).count() + c
                    &&& if final(self).count() % (SAMPLE_REPORT_EVERY as nat) < c {
                        out matches ProgressOutput::Overwrite(s) && s@ == "\r Samples processed: "@
                            + decimal(final(self).count())
                    } else {
                        out is Nothing
                    }
                },
                PipelineEvent::Completed => {
                    &&& final(self).count() == old(self).count()
                    &&& out matches ProgressOutput::Line(s) && s@ == "\r Windows processed: "@
                        + decimal(final(self).count())
                },
                PipelineEvent::Warning(msg) => {
                    &&& final(self).count() == old(self).count()
                    &&& out matches ProgressOutput::Line(s) && s@ == "\r Warning: "@ + msg@
                },
                PipelineEvent::Finished => {
                    &&& final(self).count() == old(self).count()
                    &&& out matches ProgressOutput::Line(s) && s@
                        == "All processing finished successfully"@
                },
            },
    {
        match event {
            PipelineEvent::FolderStarted(folder) => {
                let mut s = String::from_str(" Input: ");
                s.append(folder.as_str());
                ProgressOutput::Line(s)
            },
            PipelineEvent::WindowProcessed => {
                self.processed = self.processed + 1;
                if self.processed % WINDOW_REPORT_EVERY == 0 {
                    let mut s = String::from_str("\r Windows processed: ");
                    append_decimal(&mut s, self.processed);
                    ProgressOutput::Overwrite(s)
                } else {
                    ProgressOutput::Nothing
                }
            },
            PipelineEvent::ChunkProcessed(c) => {
                let c64 = *c as u64;
                self.processed = self.processed + c64;
                if self.processed % SAMPLE_REPORT_EVERY < c64 {
                    let mut s = String::from_str("\r Samples processed: ");
                    append_decimal(&mut s, self.processed);
                    ProgressOutput::Overwrite(s)
                } else {
                    ProgressOutput::Nothing
                }
            },
            PipelineEvent::Completed => {
                let mut s = String::from_str("\r Windows processed: ");
                append_decimal(&mut s, self.processed);
                ProgressOutput::Line(s)
            },
            PipelineEvent::Warning(msg) => {
                let mut s = String::from_str("\r Warning: ");
                s.append(msg.as_str());
                ProgressOutput::Line(s)
            },
            PipelineEvent::Finished => ProgressOutput::Line(
                String::from_str("All processing finished successfully"),
            ),
        }
    }
}

/// The warning for a chunk whose three components differ in length (only the
/// common length is written): `None` when the lengths agree.
pub fn chunk_length_warning(e_len: usize, n_len: usize, z_len: usize) -> (w: Option<PipelineEvent>)
    ensures
        w is None <==> (e_len == n_len && n_len == z_len),
        w matches Some(ev) ==> ev matches PipelineEvent::Warning(msg) && msg@
            == "Channel lengths mismatched in chunk! E: "@ + decimal(e_len as nat) + ", N: "@ + decimal(
            n_len as nat,
        ) + ", Z: "@ + decimal(z_len as nat),
{
    if e_len == n_len && n_len == z_len {
        return None;
    }
    let mut msg = String::from_str("Channel lengths mismatched in chunk! E: ");
    append_decimal(&mut msg, e_len as u64);
    msg.append(", N: ");
    append_decimal(&mut msg, n_len as u64);
    msg.append(", Z: ");
    append_decimal(&mut msg, z_len as u64);
    Some(PipelineEvent::Warning(msg))
}

/// The event that closes a full run: `Completed` once at least one window was
/// written, otherwise the warning that the data never filled a window.
pub fn run_outcome(windows_written: usize) -> (ev: PipelineEvent)
    ensures
        windows_written == 0 ==> (ev matches PipelineEvent::Warning(msg) && msg@
            == "Not enough data for a single window."@),
        windows_written > 0 ==> ev is Completed,
{
    if windows_written == 0 {
        PipelineEvent::Warning(String::from_str("Not enough data for a single window."))
    } else {
        PipelineEvent::Completed
    }
}

/// The event that closes a preprocess-only run: `Completed` once at least one
/// sample was written, otherwise the warning that nothing came out.
pub fn preprocess_outcome(samples_written: u64) -> (ev: PipelineEvent)
    ensures
        samples_written == 0 ==> (ev matches PipelineEvent::Warning(msg) && msg@
            == "No samples produced during preprocessing."@),
        samples_written > 0 ==> ev is Completed,
{
    if samples_written == 0 {
        PipelineEvent::Warning(String::from_str("No samples produced during preprocessing."))
    } else {
        PipelineEvent::Completed
    }
}

/// A sample-count line is shown exactly when the running total passes a
/// multiple of the report interval: adding `c` to a total of `before` reports
/// iff `(before + c) % interval < c`, iff the number of whole intervals grew.
pub proof fn lemma_sample_report_on_crossing(before: nat, c: nat)
    ensures
        ((before + c) % (SAMPLE_REPORT_EVERY as nat) < c) <==> (before / (SAMPLE_REPORT_EVERY as nat)
            < (before + c) / (SAMPLE_REPORT_EVERY as nat)),
{
    let p = SAMPLE_REPORT_EVERY as int;
    let b = before as int;
    let after = b + c;
    let q = after / p;
    let r = after % p;
    assert(after == q * p + r && 0 <= r < p) by (nonlinear_arith)
        requires
            p > 0,
            q == after / p,
            r == after % p,
    ;
    if r < c {
        assert(b < q * p);
        assert(b / p < q) by (nonlinear_arith)
            requires
                p > 0,
                0 <= b < q * p,
        ;
    } else {
        assert(b == q * p + (r - c));
        assert(b / p == q) by (nonlinear_arith)
            requires
                p > 0,
                b == q * p + (r - c),
                0 <= r - c < p,
        ;
    }
}

} // verus!
