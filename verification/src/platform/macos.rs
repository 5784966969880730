//! macOS "Open With" handling. macOS delivers files opened through Finder as
//! Apple Events, which the windowing layer does not pass on yet, so no paths
//! arrive this way.
use vstd::prelude::*;

verus! {

/// File paths passed through macOS "Open With": none, until the windowing
/// layer passes the events on.
pub fn get_open_file_paths() -> (r: Vec<String>)
    ensures
        r@.len() == 0,
{
    Vec::new()
}

/// Set up macOS-specific handling. Nothing is done: installing an
/// application delegate before the event loop starts crashes it.
pub fn init_app_delegate() {
}

} // verus!
