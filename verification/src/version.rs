//! What the `version` command shows: the commit the kernel is built from.

use vstd::prelude::*;
use vstd::string::StringExecFns;

verus! {

/// The commit, or `unknown` without one; marked if the working tree has changes, as its status
/// shows.
pub open spec fn version_of(commit: Option<Seq<char>>, status: Option<Seq<char>>) -> Seq<char> {
    (match commit {
        Some(commit) => commit,
        None => "unknown"@,
    }) + (match status {
        Some(status) => if status.len() > 0 {
            "-dirty"@
        } else {
            Seq::empty()
        },
        None => Seq::empty(),
    })
}

/// The version of a kernel built from `commit` (`None` if it can't be told), when the working
/// tree has that `status`.
pub fn version(commit: Option<&str>, status: Option<&str>) -> (r: String)
    ensures
        r@ == version_of(
            match commit {
                Some(commit) => Some(commit@),
                None => None,
            },
            match status {
                Some(status) => Some(status@),
                None => None,
            },
        ),
{
    let mut version = match commit {
        Some(commit) => commit.to_owned(),
        None => "unknown".to_owned(),
    };
    if let Some(status) = status {
        if status.as_bytes().len() > 0 {
            version.append("-dirty");
        }
    }
    assert(version@ =~= version_of(
        match commit {
            Some(commit) => Some(commit@),
            None => None,
        },
        match status {
            Some(status) => Some(status@),
            None => None,
        },
    ));
    version
}

} // verus!
