//! Durable recent command history for a server profile: the decisions
//! around reading and writing the history file. The file I/O and the JSON
//! encoding happen at the caller's edge; this module decides what a read
//! yields and whether a write may proceed.

use vstd::prelude::*;

verus! {

/// The stored shape of a profile's history file: commands, newest first.
#[derive(Debug)]
pub struct StoredInputHistory {
    pub commands: Vec<String>,
}

/// What reading the history file produced.
#[derive(Debug)]
pub enum HistoryRead {
    /// The file does not exist: the normal first-session case.
    Missing,
    /// The file exists but could not be read.
    Unreadable,
    /// The file was read but is not a valid history document.
    Malformed,
    /// The file was read and parsed.
    Parsed(StoredInputHistory),
}

/// Why loading or saving the history failed.
#[derive(Debug, Clone, Copy, PartialEq, Eq, Structural)]
pub enum HistoryError {
    /// The history file could not be read.
    Unreadable,
    /// The history file could not be parsed.
    Malformed,
    /// The profile directory is missing or is not a directory.
    MissingProfile,
}

/// The commands of `commands`, element by element.
pub open spec fn strings_view(commands: Seq<String>) -> Seq<Seq<char>> {
    commands.map_values(|s: String| s@)
}

/// The recent command history a read yields, newest first: a missing file
/// is an empty history; an unreadable or malformed one is reported so the
/// caller can log it and still open the session with an empty history.
pub fn load_input_history(read: HistoryRead) -> (r: Result<Vec<String>, HistoryError>)
    ensures
        match read {
            HistoryRead::Missing => r matches Ok(v) && v@.len() == 0,
            HistoryRead::Unreadable => r == Err::<Vec<String>, HistoryError>(HistoryError::Unreadable),
            HistoryRead::Malformed => r == Err::<Vec<String>, HistoryError>(HistoryError::Malformed),
            HistoryRead::Parsed(stored) => r matches Ok(v) && v@ == stored.commands@,
        },
{
    match read {
        HistoryRead::Missing => Ok(Vec::new()),
        HistoryRead::Unreadable => Err(HistoryError::Unreadable),
        HistoryRead::Malformed => Err(HistoryError::Malformed),
        HistoryRead::Parsed(stored) => Ok(stored.commands),
    }
}

/// The document to write for a profile's history, newest first. The
/// profile directory must already exist: saving never resurrects a deleted
/// or renamed profile when a stale session eventually closes.
pub fn save_input_history(profile_dir_exists: bool, commands: &[String]) -> (r: Result<
    StoredInputHistory,
    HistoryError,
>)
    ensures
        !profile_dir_exists <==> r == Err::<StoredInputHistory, HistoryError>(HistoryError::MissingProfile),
        r matches Ok(stored) ==> strings_view(stored.commands@) == strings_view(commands@),
        profile_dir_exists ==> r is Ok,
{
    if !profile_dir_exists {
        return Err(HistoryError::MissingProfile);
    }
    let mut out: Vec<String> = Vec::new();
    let mut i: usize = 0;
    while i < commands.len()
        invariant
            i <= commands@.len(),
            out@.len() == i,
            forall|j: int| 0 <= j < i ==> (#[trigger] out@[j])@ == commands@[j]@,
        decreases commands@.len() - i,
    {
        out.push(commands[i].clone());
        i += 1;
    }
    proof {
        assert(strings_view(out@) =~= strings_view(commands@));
    }
    Ok(StoredInputHistory { commands: out })
}

} // verus!
