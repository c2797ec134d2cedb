//! What can't be written, made or removed.

use super::change::Volume;
use super::entries::EntryKind;
use super::names;
use super::paths;
use super::volume::Fault;
use vstd::prelude::*;

verus! {

/// The characters that no name has, besides those below the space.
pub open spec fn kept_from_names() -> Seq<char> {
    seq!['"', '*', '/', ':', '<', '>', '?', '\\', '|']
}

/// Names that can be stored are those of 1 to 255 UTF-16 units, without control characters and
/// the characters that have a meaning of their own, which end neither in a space nor in a dot.
pub proof fn names_can_be_stored(name: Seq<char>)
    ensures
        names::storable(name) <==> {
            &&& 1 <= name.len()
            &&& names::utf16(name).len() <= 255
            &&& name[name.len() - 1] != ' ' && name[name.len() - 1] != '.'
            &&& forall|i: int|
                0 <= i < name.len() ==> (#[trigger] name[i]) as u32 >= 32
                    && !kept_from_names().contains(name[i])
        },
{
    let kept = kept_from_names();
    assert(kept[0] == '"' && kept[1] == '*' && kept[2] == '/' && kept[3] == ':' && kept[4] == '<'
        && kept[5] == '>' && kept[6] == '?' && kept[7] == '\\' && kept[8] == '|');
    assert forall|i: int| 0 <= i < name.len() implies (names::is_forbidden(#[trigger] name[i])
        <==> (name[i] as u32) < 32 || kept.contains(name[i])) by {}
}

/// What can't be done is refused, and nothing is changed for it but the count of free clusters
/// that the volume keeps. Nothing is done where the directory can't be read, and the reason is the
/// same. A file of more than 4GB, or by a name that can't be stored, isn't written; nor is one
/// over a directory. A directory isn't made where something has the name, whatever case it
/// is in. What isn't there isn't removed, nor is a directory that something is in.
pub proof fn impossible_changes_are_refused(
    v: Volume,
    way: Seq<char>,
    name: Seq<char>,
    n: nat,
    data: Seq<u8>,
)
    requires
        name.len() > 0,
        !name.contains('/'),
    ensures
        ({
            let path = way + seq!['/'] + name + paths::slashes(n);
            let found = v.layout.entry_of(v.disk, path);
            let written = v.file_written(path, data);
            let made = v.dir_created(path);
            let removed = v.removed(path);
            let same = v.finished();
            let small = data.len() <= 0xFFFF_FFFF;
            let good = names::storable(name);
            &&& !small ==> written == (Err::<(), Fault>(Fault::TooBig), same)
            &&& small && !good ==> written == (Err::<(), Fault>(Fault::InvalidName), same)
            &&& !good ==> made == (Err::<(), Fault>(Fault::InvalidName), same)
            &&& match v.layout.list_of(v.disk, way) {
                Err(fault) => {
                    &&& small && good ==> written == (Err::<(), Fault>(fault), same)
                    &&& good ==> made == (Err::<(), Fault>(fault), same)
                    &&& removed == (Err::<(), Fault>(fault), same)
                },
                Ok(_) => match found {
                    Ok(entry) => {
                        &&& small && good && entry.kind == EntryKind::Directory ==> written == (
                            Err::<(), Fault>(Fault::NotAFile),
                            same,
                        )
                        &&& good ==> made == (Err::<(), Fault>(Fault::AlreadyExists), same)
                        &&& entry.kind == EntryKind::Directory && entry.first_cluster.0 != 0 && (
                        v.layout.list_of(v.disk, way + seq!['/'] + name) matches Ok(list)
                            && list.len() > 0) ==> removed == (
                            Err::<(), Fault>(Fault::NotEmpty),
                            same,
                        )
                    },
                    Err(_) => removed == (Err::<(), Fault>(Fault::NotFound), same),
                },
            }
        }),
{
    let path = way + seq!['/'] + name + paths::slashes(n);
    let bare = way + seq!['/'] + name;
    paths::lemma_joined(way, name, n);
    paths::lemma_joined(way, name, 0);
    assert(bare + paths::slashes(0) =~= bare);
    paths::directories_are_entered(v.layout, v.disk, way, name);
    assert(v.layout.entry_of(v.disk, bare) == v.layout.entry_of(v.disk, path));
}

} // verus!
