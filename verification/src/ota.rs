//! Reporting the outcome of an over-the-air firmware update.
use vstd::prelude::*;
use crate::text::{trim, trimmed};

verus! {

/// How an update attempt ended: the primary tool succeeded, or the fallback
/// tool ran and either succeeded or failed with the given output.
pub enum OtaOutcome {
    PrimarySucceeded,
    FallbackSucceeded,
    FallbackFailed { stderr: String, stdout: String },
}

/// The report line for an update of display `id`: "ID: OK" on success,
/// otherwise "ID: FAILED — " and the trimmed error output, or the trimmed
/// standard output when the error output is empty.
pub open spec fn ota_report_text(id: Seq<char>, outcome: OtaOutcome) -> Seq<char> {
    match outcome {
        OtaOutcome::FallbackFailed { stderr, stdout } => id + ": FAILED — "@ + (if stderr@.len()
            == 0 {
            trimmed(stdout@)
        } else {
            trimmed(stderr@)
        }),
        _ => id + ": OK"@,
    }
}

/// The report line for an update of display `id`.
pub fn ota_report(id: &str, outcome: &OtaOutcome) -> (r: String)
    ensures
        r@ == ota_report_text(id@, *outcome),
{
    let mut r = String::from_str(id);
    match outcome {
        OtaOutcome::FallbackFailed { stderr, stdout } => {
            r.append(": FAILED — ");
            if stderr.as_str().is_empty() {
                r.append(trim(stdout.as_str()).as_str());
            } else {
                r.append(trim(stderr.as_str()).as_str());
            }
        },
        _ => {
            r.append(": OK");
        },
    }
    r
}

} // verus!
