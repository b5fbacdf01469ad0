//! What is kept of a parsed file from one run to the next.
use crate::parser::{FileSymbols, FileView};
use vstd::prelude::*;
use vstd::string::*;

verus! {

/// What a file defines and calls, as it was when the file had last been changed at `mtime_secs`.
#[derive(Debug)]
pub struct CachedFile {
    pub mtime_secs: u64,
    pub symbols: FileSymbols,
}

/// What the entry `cached` of a file still says of it when it was last changed at
/// `current_mtime`: nothing where there is no entry, and nothing where the file has changed since.
pub open spec fn still_valid(cached: Option<(u64, FileView)>, current_mtime: u64) -> Option<
    FileView,
> {
    match cached {
        Some((mtime, symbols)) => if mtime == current_mtime {
            Some(symbols)
        } else {
            None
        },
        None => None,
    }
}

/// What an entry holds.
pub open spec fn entry_view(cached: Option<CachedFile>) -> Option<(u64, FileView)> {
    match cached {
        Some(entry) => Some((entry.mtime_secs, entry.symbols@)),
        None => None,
    }
}

/// The entry for a file that was last changed at `mtime`.
pub fn entry(mtime: u64, syms: &FileSymbols) -> (r: CachedFile)
    ensures
        entry_view(Some(r)) == Some((mtime, syms@)),
{
    CachedFile { mtime_secs: mtime, symbols: syms.clone() }
}

/// What the entry `cached` of a file still says of it when it was last changed at
/// `current_mtime`.
pub fn lookup(cached: Option<CachedFile>, current_mtime: u64) -> (r: Option<FileSymbols>)
    ensures
        match r {
            Some(symbols) => still_valid(entry_view(cached), current_mtime) == Some(symbols@),
            None => still_valid(entry_view(cached), current_mtime) is None,
        },
{
    match cached {
        Some(entry) => if entry.mtime_secs == current_mtime {
            Some(entry.symbols)
        } else {
            None
        },
        None => None,
    }
}

/// An entry gives back what it was made of for as long as the file keeps its time of change, and
/// nothing once that differs.
pub proof fn lemma_entry_is_given_back(mtime: u64, symbols: FileView, current_mtime: u64)
    ensures
        still_valid(Some((mtime, symbols)), current_mtime) == if current_mtime == mtime {
            Some(symbols)
        } else {
            None
        },
{
}

/// `text` where there is one, `otherwise` where there is none.
pub open spec fn text_or(text: Option<String>, otherwise: Seq<char>) -> Seq<char> {
    match text {
        Some(text) => text@,
        None => otherwise,
    }
}

/// The directory that holds the entries of a repository, one part of its path after the other:
/// under the home directory of the user, or `/tmp` where they have none, and by the name of the
/// repository, or `unknown` where it has none.
pub fn dirs_cache_path(home: Option<String>, repo_name: Option<String>) -> (r: Vec<String>)
    ensures
        r@.len() == 5,
        r@[0]@ == text_or(home, "/tmp"@),
        r@[1]@ == ".cache"@,
        r@[2]@ == "pyrisk"@,
        r@[3]@ == text_or(repo_name, "unknown"@),
        r@[4]@ == "index"@,
{
    let base = match home {
        Some(home) => home,
        None => "/tmp".to_owned(),
    };
    let name = match repo_name {
        Some(name) => name,
        None => "unknown".to_owned(),
    };
    let mut r: Vec<String> = Vec::new();
    r.push(base);
    r.push(".cache".to_owned());
    r.push("pyrisk".to_owned());
    r.push(name);
    r.push("index".to_owned());
    r
}

} // verus!
