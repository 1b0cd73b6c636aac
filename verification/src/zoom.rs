//! Zoom meeting detection from the Zoom processes that run.
use vstd::prelude::*;
use crate::text::{count_lines, line_count};

verus! {

/// The number of `caphost` processes that run while Zoom is idle; more
/// mean a meeting.
pub const IDLE_CAPHOST_PROCESSES: usize = 2;

/// The number of processes that a `pgrep` run reported: one per line of
/// its output when it found any, none when it exited unsuccessfully.
pub fn process_count(succeeded: bool, stdout: &str) -> (res: usize)
    ensures
        res == (if succeeded {
            line_count(stdout@)
        } else {
            0
        }),
{
    if succeeded {
        count_lines(stdout)
    } else {
        0
    }
}

/// Detect if the user is currently in a Zoom meeting: `ZoomAudioDevice`
/// runs, more `caphost` processes run than when idle (when they could be
/// counted), or `CptHost` runs.
pub fn is_in_meeting(
    zoom_audio_running: bool,
    caphost_count: Option<usize>,
    cpt_host_running: bool,
) -> (res: bool)
    ensures
        res == (zoom_audio_running || (caphost_count matches Some(c) && c > IDLE_CAPHOST_PROCESSES)
            || cpt_host_running),
{
    if zoom_audio_running {
        return true;
    }
    if let Some(count) = caphost_count {
        if count > IDLE_CAPHOST_PROCESSES {
            return true;
        }
    }
    cpt_host_running
}

} // verus!
