//! Where the memory is stored.
//!
//! Paths are bytes here, as they are on Unix: an environment variable need not
//! hold text.

use vstd::prelude::*;
use vstd::string::{is_ascii, StringSliceAdditionalSpecFns};

verus! {

/// The byte between the parts of a path.
pub const SEPARATOR: u8 = 0x2f;

/// `base` extended by the relative path `part`, with one separator between them
/// unless `base` is empty or ends in one.
pub open spec fn joined(base: Seq<u8>, part: Seq<u8>) -> Seq<u8> {
    if base.len() == 0 || base.last() == SEPARATOR {
        base + part
    } else {
        base.push(SEPARATOR) + part
    }
}

/// The directory for state files: the one that is set, unless it is empty, and
/// otherwise `.local/state` in the home directory, or in the current directory
/// when there is none.
pub open spec fn state_directory(xdg_state_home: Option<Seq<u8>>, home: Option<Seq<u8>>) -> Seq<
    u8,
> {
    match xdg_state_home {
        Some(directory) if directory.len() > 0 => directory,
        _ => {
            let base = match home {
                Some(directory) => directory,
                None => ".".spec_bytes(),
            };
            joined(joined(base, ".local".spec_bytes()), "state".spec_bytes())
        },
    }
}

/// Extends a path by a relative path.
pub fn join(base: &[u8], part: &str) -> (path: Vec<u8>)
    ensures
        path@ == joined(base@, part.spec_bytes()),
{
    let mut path: Vec<u8> = Vec::new();
    path.extend_from_slice(base);
    assert(path@ =~= base@);
    if path.len() > 0 && path[path.len() - 1] != SEPARATOR {
        path.push(SEPARATOR);
    }
    let ghost lead = path@;
    path.extend_from_slice(part.as_bytes());
    assert(path@ =~= lead + part.spec_bytes());
    path
}

/// `$XDG_STATE_HOME/i3-awm/state.json`, falling back to `~/.local/state`.
pub fn state_path(xdg_state_home: Option<&[u8]>, home: Option<&[u8]>) -> (path: Vec<u8>)
    ensures
        path@ == joined(
            joined(
                state_directory(
                    match xdg_state_home {
                        Some(directory) => Some(directory@),
                        None => None,
                    },
                    match home {
                        Some(directory) => Some(directory@),
                        None => None,
                    },
                ),
                "i3-awm".spec_bytes(),
            ),
            "state.json".spec_bytes(),
        ),
{
    let directory = match xdg_state_home {
        Some(directory) if directory.len() > 0 => join(directory, "i3-awm"),
        _ => {
            let local = match home {
                Some(directory) => join(directory, ".local"),
                None => join(".".as_bytes(), ".local"),
            };
            join(join(local.as_slice(), "state").as_slice(), "i3-awm")
        },
    };
    join(directory.as_slice(), "state.json")
}

/// A joined path begins with the base and ends with the part, and between them
/// stands what it takes to have one separator there, unless the base is empty.
pub proof fn law_joined_paths(base: Seq<u8>, part: Seq<u8>)
    ensures
        ({
            let path = joined(base, part);
            let cut = path.len() - part.len();
            &&& base.len() <= cut <= base.len() + 1
            &&& path.take(base.len() as int) == base
            &&& path.skip(cut) == part
            &&& base.len() == 0 <==> cut == 0
            &&& cut > 0 ==> path[cut - 1] == 0x2f
            &&& cut > base.len() ==> base.last() != 0x2f
        }),
{
    let path = joined(base, part);
    let cut = path.len() - part.len();
    assert(path.take(base.len() as int) =~= base);
    assert(path.skip(cut) =~= part);
}

/// The variable for the state directory decides, whatever the home directory is,
/// unless it is empty, which is as good as unset.
pub proof fn law_state_directory(set: Seq<u8>, home: Option<Seq<u8>>)
    ensures
        set.len() > 0 ==> state_directory(Some(set), home) == set,
        state_directory(Some(Seq::empty()), home) == state_directory(None, home),
{
}

/// Without that variable the state directory is `.local/state` below the home
/// directory, and below `.` when there is none.
pub proof fn law_state_directory_in_home(home: Seq<u8>)
    ensures
        state_directory(None, Some(home)) == joined(home, ".local/state".spec_bytes()),
        state_directory(None, None) == "./.local/state".spec_bytes(),
{
    broadcast use vstd::string::is_ascii_spec_bytes;

    reveal_strlit(".");
    reveal_strlit(".local");
    reveal_strlit("state");
    reveal_strlit(".local/state");
    reveal_strlit("./.local/state");
    assert(is_ascii(".") && is_ascii(".local") && is_ascii("state"));
    assert(is_ascii(".local/state") && is_ascii("./.local/state"));
    let local = ".local".spec_bytes();
    let state = "state".spec_bytes();
    assert(local.last() == 'l' as u8);
    assert(joined(home, local).last() == local.last());
    assert(joined(joined(home, local), state) =~= joined(home, ".local/state".spec_bytes()));
    let here = ".".spec_bytes();
    assert(joined(joined(here, local), state) =~= "./.local/state".spec_bytes());
}

} // verus!
