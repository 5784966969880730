//! Platform-specific functionality. Paths are carried as strings.
use vstd::prelude::*;

pub mod macos;

verus! {

/// File paths handed to the application by the platform when it was
/// launched to open them; none are delivered on any platform yet, so files
/// are opened from the command line.
pub fn get_open_file_paths() -> (r: Vec<String>)
    ensures
        r@.len() == 0,
{
    macos::get_open_file_paths()
}

} // verus!
