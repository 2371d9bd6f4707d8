//! Store decisions for the aggregate file: which file a store uses, what
//! clearing and local initialisation write, and whether an editor result is
//! saved at all. Reading, writing and environment lookups stay with the
//! caller; these functions decide, over plain values.

use vstd::prelude::*;
use crate::codec::{decoded, encoded};

verus! {

/// The aggregate file a store uses: the current directory's file first, then
/// the configured override, then the default under the home directory; the
/// first existing candidate wins, and when none exists the current
/// directory's path is the target for a future write.
pub open spec fn located(
    cwd_path: Seq<char>,
    cwd_exists: bool,
    override_path: Option<Seq<char>>,
    override_exists: bool,
    home_path: Seq<char>,
    home_exists: bool,
) -> Seq<char> {
    if cwd_exists {
        cwd_path
    } else if override_path is Some && override_exists {
        override_path.unwrap()
    } else if home_exists {
        home_path
    } else {
        cwd_path
    }
}

/// Resolve which aggregate file to use, given each candidate path and
/// whether a file already exists there.
pub fn locate(
    cwd_path: String,
    cwd_exists: bool,
    override_path: Option<String>,
    override_exists: bool,
    home_path: String,
    home_exists: bool,
) -> (r: String)
    ensures
        r@ == located(
            cwd_path@,
            cwd_exists,
            match override_path {
                Some(p) => Some(p@),
                None => None,
            },
            override_exists,
            home_path@,
            home_exists,
        ),
{
    if cwd_exists {
        cwd_path
    } else {
        match override_path {
            Some(p) if override_exists => p,
            _ => {
                if home_exists {
                    home_path
                } else {
                    cwd_path
                }
            },
        }
    }
}

/// The aggregate-file content after clearing: the encoding of the empty
/// collection, which loads back as the empty collection.
pub fn clear_content() -> (r: String)
    ensures
        r@ == encoded(Seq::empty()),
        decoded(r@) == Some(Seq::<(Seq<char>, Seq<char>)>::empty()),
{
    String::new()
}

/// What initialising a local store writes: a fresh empty store when no file
/// exists at the location yet, nothing (the command is a no-op with a
/// notice) when one already does.
pub fn init_local_content(already_exists: bool) -> (r: Option<String>)
    ensures
        already_exists ==> r is None,
        !already_exists ==> (r matches Some(c) && c@ == encoded(Seq::empty())),
{
    if already_exists {
        None
    } else {
        Some(String::new())
    }
}

/// The decision after the editor returns: the body to save, exactly when
/// the editor produced non-empty text. A cancelled edit or empty text means
/// no note is written and no entry appended — the caller aborts quietly.
pub fn accept_editor_text(text: Option<String>) -> (r: Option<String>)
    ensures
        r is Some <==> (text is Some && text.unwrap()@.len() > 0),
        r is Some ==> r.unwrap()@ == text.unwrap()@,
{
    match text {
        None => None,
        Some(t) => {
            if t.as_str().is_empty() {
                None
            } else {
                Some(t)
            }
        },
    }
}

} // verus!
