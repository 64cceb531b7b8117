use vstd::prelude::*;
use crate::iso::DirectoryEntry;
use crate::text::{contains_seq, str_contains, string_views};

verus! {

/// The paths among `paths` that hold `search` (all of them when there is no
/// search text), in order.
pub open spec fn paths_matching(paths: Seq<Seq<char>>, search: Option<Seq<char>>) -> Seq<Seq<char>>
    decreases paths.len(),
{
    if paths.len() == 0 {
        Seq::empty()
    } else {
        let before = paths_matching(paths.drop_last(), search);
        match search {
            Some(s) => if contains_seq(paths.last(), s) {
                before.push(paths.last())
            } else {
                before
            },
            None => before.push(paths.last()),
        }
    }
}

/// The view of an optional search text.
pub open spec fn search_view(search: Option<&str>) -> Option<Seq<char>> {
    match search {
        Some(s) => Some(s@),
        None => None,
    }
}

/// Keeps the listed paths that hold `search` (all of them when there is none).
pub fn filter_listing(paths: &Vec<String>, search: Option<&str>) -> (res: Vec<String>)
    ensures
        string_views(res@) == paths_matching(string_views(paths@), search_view(search)),
{
    let ghost all = string_views(paths@);
    let mut out: Vec<String> = Vec::new();
    let n = paths.len();
    let mut i: usize = 0;
    assert(all.take(0) =~= Seq::<Seq<char>>::empty());
    assert(string_views(out@) =~= Seq::<Seq<char>>::empty());
    while i < n
        invariant
            n == paths@.len(),
            all == string_views(paths@),
            i <= n,
            string_views(out@) == paths_matching(all.take(i as int), search_view(search)),
        decreases n - i,
    {
        let path = &paths[i];
        assert(all.take(i + 1).drop_last() =~= all.take(i as int));
        assert(all.take(i + 1).last() == path@);
        let keep = match search {
            Some(s) => str_contains(path.as_str(), s),
            None => true,
        };
        let ghost before = out@;
        if keep {
            out.push(path.clone());
            assert(string_views(out@) =~= string_views(before).push(path@));
        }
        i = i + 1;
    }
    assert(all.take(n as int) =~= all);
    out
}

/// Why a file cannot be extracted from an image.
#[derive(Debug, Clone, Copy, PartialEq, Eq, Structural)]
pub enum ExtractError {
    /// The path names nothing in the image.
    NotFound,
    /// The path names a directory.
    IsDirectory,
}

/// The entry to extract, given what looking its path up found.
pub fn extraction_target(found: Option<DirectoryEntry>) -> (res: Result<DirectoryEntry, ExtractError>)
    ensures
        found is None ==> res == Err::<DirectoryEntry, ExtractError>(ExtractError::NotFound),
        found matches Some(e) ==> (if e.is_dir {
            res == Err::<DirectoryEntry, ExtractError>(ExtractError::IsDirectory)
        } else {
            res matches Ok(t) && t@ == e@
        }),
{
    match found {
        None => Err(ExtractError::NotFound),
        Some(entry) => {
            if entry.is_dir {
                Err(ExtractError::IsDirectory)
            } else {
                Ok(entry)
            }
        },
    }
}

#[verifier::external_type_specification]
#[verifier::external_body]
pub struct ExJsonValue(serde_json::Value);

/// Whether `serde_json` reads `text` as a JSON document.
pub uninterp spec fn spec_json_parses(text: Seq<char>) -> bool;

/// `serde_json::from_str::<serde_json::Value>`. Claimed: it gives a value
/// exactly when `spec_json_parses` holds of the text. What the value holds is
/// not stated: it stays opaque.
#[verifier::external_body]
fn json_from_str(text: &str) -> (res: Option<serde_json::Value>)
    ensures
        res is Some <==> spec_json_parses(text@),
{
    serde_json::from_str::<serde_json::Value>(text).ok()
}

/// Reads a JSON document; `None` when the text is not JSON.
pub fn read_json(text: &str) -> (res: Option<serde_json::Value>)
    ensures
        res is Some <==> spec_json_parses(text@),
{
    json_from_str(text)
}

} // verus!
