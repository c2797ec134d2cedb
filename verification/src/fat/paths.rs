//! What paths lead to: the first entry that matches, whatever the case and the slashes at the end.

use super::entries;
use super::entries::{EntryKind, EntryModel, FatType, LocatedModel};
use super::laws;
use super::names;
use super::volume;
use super::volume::{Dir, Disk, Fault, Layout};
use crate::text;
use vstd::prelude::*;

verus! {

/// Whether `list[i]` is the first entry of a listing that goes by `name`, but for case.
pub open spec fn first_match(list: Seq<LocatedModel>, name: Seq<char>, i: int) -> bool {
    &&& 0 <= i < list.len()
    &&& names::same_name(list[i].entry.name, name)
    &&& forall|j: int| 0 <= j < i ==> !names::same_name((#[trigger] list[j]).entry.name, name)
}

/// Whether no entry of a listing goes by `name`, but for case.
pub open spec fn no_match(list: Seq<LocatedModel>, name: Seq<char>) -> bool {
    forall|j: int| 0 <= j < list.len() ==> !names::same_name((#[trigger] list[j]).entry.name, name)
}

/// The entry found for a name is the first listed that matches.
pub proof fn lemma_found_in_listing(dir: Seq<u8>, fat_type: FatType, name: Seq<char>, n: int)
    requires
        0 <= n,
    ensures
        match entries::slot_of(dir, name, 0, n) {
            Some(slot) => exists|i: int| #[trigger]
                first_match(entries::listed(dir, fat_type, n), name, i) && entries::listed(
                    dir,
                    fat_type,
                    n,
                )[i] == entries::located_at(dir, slot, fat_type),
            None => no_match(entries::listed(dir, fat_type, n), name),
        },
    decreases n,
{
    if n > 0 {
        lemma_found_in_listing(dir, fat_type, name, n - 1);
        laws::lemma_slot_first(dir, name, 0, n - 1);
        laws::lemma_slot_first(dir, name, 0, n);
        let before = entries::listed(dir, fat_type, n - 1);
        let list = entries::listed(dir, fat_type, n);
        match entries::slot_of(dir, name, 0, n - 1) {
            Some(slot) => {
                laws::lemma_slot_found(dir, name, 0, slot, n);
                let i = choose|i: int| #[trigger]
                    first_match(before, name, i) && before[i] == entries::located_at(
                        dir,
                        slot,
                        fat_type,
                    );
                assert forall|j: int| 0 <= j < before.len() implies list[j] == #[trigger] before[j] by {}
                assert(first_match(list, name, i));
            },
            None => {
                if let Some(slot) = entries::slot_of(dir, name, 0, n) {
                    assert(slot == n - 1) by {
                        if slot < n - 1 {
                            assert(!(entries::is_listed(dir, slot) && names::same_name(
                                entries::name_at(dir, slot),
                                name,
                            )));
                        }
                    }
                    let i = before.len() as int;
                    assert forall|j: int| 0 <= j < i implies list[j] == #[trigger] before[j] by {}
                    assert(first_match(list, name, i));
                } else {
                    assert(!(entries::is_listed(dir, n - 1) && names::same_name(
                        entries::name_at(dir, n - 1),
                        name,
                    )));
                    assert forall|j: int| 0 <= j < list.len() implies !names::same_name(
                        (#[trigger] list[j]).entry.name,
                        name,
                    ) by {
                        if j < before.len() {
                            assert(list[j] == before[j]);
                        }
                    }
                }
            },
        }
    }
}

/// `n` slashes.
pub open spec fn slashes(n: nat) -> Seq<char> {
    Seq::new(n, |i: int| '/')
}

proof fn lemma_bare(path: Seq<char>, n: nat)
    requires
        path.len() > 0,
        path.last() != '/',
    ensures
        volume::without_slashes(path + slashes(n)) == path,
    decreases n,
{
    let whole = path + slashes(n);
    if n == 0 {
        assert(whole =~= path);
    } else {
        assert(whole.last() == '/');
        assert(whole.drop_last() =~= path + slashes((n - 1) as nat));
        lemma_bare(path, (n - 1) as nat);
    }
}

/// Where a name in a directory is split from the way to it.
pub proof fn lemma_joined(way: Seq<char>, name: Seq<char>, n: nat)
    requires
        name.len() > 0,
        !name.contains('/'),
    ensures
        volume::split_path(way + seq!['/'] + name + slashes(n)) == (way, name),
{
    let bare = way + seq!['/'] + name;
    assert(name.contains(name.last()));
    assert(bare.last() == name.last());
    lemma_bare(bare, n);
    lemma_last_slash(bare, way.len() as int, bare.len() as int);
    assert(bare.subrange(0, way.len() as int) =~= way);
    assert(bare.subrange(way.len() as int + 1, bare.len() as int) =~= name) by {
        assert forall|i: int| 0 <= i < name.len() implies bare[way.len() + 1 + i] == name[i] by {}
    }
}

proof fn lemma_last_slash(s: Seq<char>, at: int, end: int)
    requires
        0 <= at < end <= s.len(),
        s[at] == '/',
        forall|i: int| at < i < s.len() ==> s[i] != '/',
    ensures
        names::last_place(s, '/', end) == at,
    decreases end,
{
    if end - 1 > at {
        lemma_last_slash(s, at, end - 1);
    }
}

/// Looking up a name in a directory gives the first of the entries that the directory lists by
/// that name, but for case, and `NotFound` if it lists none; slashes at the end change nothing.
pub proof fn paths_lead_to_the_first_match(
    layout: Layout,
    disk: Disk,
    way: Seq<char>,
    name: Seq<char>,
    n: nat,
)
    requires
        name.len() > 0,
        !name.contains('/'),
    ensures
        ({
            let found = layout.entry_of(disk, way + seq!['/'] + name + slashes(n));
            match layout.list_of(disk, way) {
                Err(fault) => found == Err::<EntryModel, Fault>(fault),
                Ok(list) => {
                    ||| no_match(list, name) && found == Err::<EntryModel, Fault>(Fault::NotFound)
                    ||| exists|i: int| #[trigger]
                        first_match(list, name, i) && found == Ok::<EntryModel, Fault>(
                            list[i].entry,
                        )
                },
            }
        }),
{
    lemma_joined(way, name, n);
    if let Ok(dir) = layout.dir_of(disk, way) {
        if let Ok(held) = layout.dir_bytes(disk, dir) {
            entries::lemma_end_slot(held, 0);
            lemma_found_in_listing(held, layout.fat_type, name, entries::end_slot(held, 0));
        }
    }
}

/// A path's parts are those of the way to it, and its name.
proof fn lemma_parts(way: Seq<char>, name: Seq<char>, from: int)
    requires
        0 <= from <= way.len(),
        !name.contains('/'),
    ensures
        text::pieces_from(way + seq!['/'] + name, from, '/') == text::pieces_from(
            way,
            from,
            '/',
        ).push(name),
    decreases way.len() - from,
{
    let path = way + seq!['/'] + name;
    let at = text::find_from(way, from, '/');
    text::lemma_found(way, from, '/');
    assert forall|i: int| from <= i < at implies path[i] != '/' by {
        assert(path[i] == way[i]);
    }
    text::lemma_find_unique(path, from, '/', at);
    assert(path.subrange(from, at) =~= way.subrange(from, at));
    let n = path.len() as int;
    if at < way.len() {
        lemma_parts(way, name, at + 1);
        assert(text::pieces_from(path, from, '/') =~= text::pieces_from(way, from, '/').push(name));
    } else {
        assert forall|i: int| at + 1 <= i < n implies path[i] != '/' by {
            if path[i] == '/' {
                assert(name[i - at - 1] == '/');
            }
        }
        text::lemma_find_unique(path, at + 1, '/', n);
        assert(path.subrange(at + 1, n) =~= name);
        assert(text::pieces_from(path, at + 1, '/') =~= seq![name]);
        assert(text::pieces_from(path, from, '/') =~= text::pieces_from(way, from, '/').push(name));
    }
}

/// The last part of a way leads on from where the others do.
proof fn lemma_last_part(
    layout: Layout,
    disk: Disk,
    dir: Dir,
    parts: Seq<Seq<char>>,
    name: Seq<char>,
)
    ensures
        layout.dir_from(disk, dir, parts.push(name)) == (match layout.dir_from(disk, dir, parts) {
            Ok(found) => layout.dir_from(disk, found, seq![name]),
            Err(fault) => Err(fault),
        }),
    decreases parts.len(),
{
    let more = parts.push(name);
    if parts.len() == 0 {
        assert(more =~= seq![name]);
    } else {
        let rest = parts.subrange(1, parts.len() as int);
        assert(more.subrange(1, more.len() as int) =~= rest.push(name));
        if parts[0].len() == 0 {
            lemma_last_part(layout, disk, dir, rest, name);
        } else if let Ok(located) = layout.lookup(disk, dir, parts[0]) {
            lemma_last_part(
                layout,
                disk,
                volume::dir_at(located.entry.first_cluster),
                rest,
                name,
            );
        }
    }
}

/// A path leads to a directory where its entry is one: to the directory that starts at the entry's
/// first cluster, or to the root if that is 0. Where the entry is a file it leads nowhere,
/// and where there is no entry neither. The empty path is the root, and a slash at the end
/// changes nothing.
pub proof fn directories_are_entered(
    layout: Layout,
    disk: Disk,
    way: Seq<char>,
    name: Seq<char>,
)
    requires
        name.len() > 0,
        !name.contains('/'),
    ensures
        layout.dir_of(disk, way + seq!['/'] + name) == (match layout.entry_of(
            disk,
            way + seq!['/'] + name,
        ) {
            Ok(entry) => if entry.kind == EntryKind::File {
                Err(Fault::NotADirectory)
            } else if entry.first_cluster.0 == 0 {
                Ok(Dir::Root)
            } else {
                Ok(Dir::Chain(entry.first_cluster))
            },
            Err(fault) => Err(fault),
        }),
        layout.dir_of(disk, way + seq!['/']) == layout.dir_of(disk, way),
        layout.dir_of(disk, Seq::empty()) == Ok::<Dir, Fault>(Dir::Root),
{
    let path = way + seq!['/'] + name;
    let parts = text::pieces_from(way, 0, '/');
    lemma_joined(way, name, 0);
    assert(path + slashes(0) =~= path);
    lemma_parts(way, name, 0);
    lemma_last_part(layout, disk, Dir::Root, parts, name);
    let none = Seq::<char>::empty();
    lemma_parts(way, none, 0);
    assert(way + seq!['/'] + none =~= way + seq!['/']);
    lemma_last_part(layout, disk, Dir::Root, parts, none);
    reveal_with_fuel(Layout::dir_from, 2);
    assert(seq![name].subrange(1, 1) =~= Seq::<Seq<char>>::empty());
    assert(seq![none].subrange(1, 1) =~= Seq::<Seq<char>>::empty());
    text::lemma_find_unique(none, 0, '/', 0);
    assert(none.subrange(0, 0) =~= none);
    assert(text::pieces_from(none, 0, '/') =~= seq![none]);
}

/// The root has no entry.
pub proof fn the_root_has_no_entry(layout: Layout, disk: Disk, n: nat)
    ensures
        layout.entry_of(disk, slashes(n)) == Err::<EntryModel, Fault>(Fault::NotFound),
{
    lemma_only_slashes(n);
}

proof fn lemma_only_slashes(n: nat)
    ensures
        volume::without_slashes(slashes(n)) == Seq::<char>::empty(),
    decreases n,
{
    if n > 0 {
        assert(slashes(n).drop_last() =~= slashes((n - 1) as nat));
        lemma_only_slashes((n - 1) as nat);
    } else {
        assert(slashes(n) =~= Seq::<char>::empty());
    }
}

/// Whether names are the same, but for case, one by one.
pub open spec fn ways_match(a: Seq<Seq<char>>, b: Seq<Seq<char>>) -> bool {
    &&& a.len() == b.len()
    &&& forall|i: int|
        0 <= i < a.len() ==> names::same_name(#[trigger] a[i], b[i]) && (a[i].len() == 0 <==> b[i].len()
            == 0)
}

/// Whether two paths are the same, but for case.
pub open spec fn paths_match(a: Seq<char>, b: Seq<char>) -> bool {
    let (way_a, name_a) = volume::split_path(a);
    let (way_b, name_b) = volume::split_path(b);
    &&& names::same_name(name_a, name_b)
    &&& name_a.len() == 0 <==> name_b.len() == 0
    &&& ways_match(text::pieces_from(way_a, 0, '/'), text::pieces_from(way_b, 0, '/'))
}

proof fn lemma_slot_either(dir: Seq<u8>, a: Seq<char>, b: Seq<char>, from: int, to: int)
    requires
        names::same_name(a, b),
    ensures
        entries::slot_of(dir, a, from, to) == entries::slot_of(dir, b, from, to),
    decreases to - from,
{
    if from < to {
        lemma_slot_either(dir, a, b, from + 1, to);
    }
}

pub proof fn lemma_lookup_either(layout: Layout, disk: Disk, dir: Dir, a: Seq<char>, b: Seq<char>)
    requires
        names::same_name(a, b),
    ensures
        layout.lookup(disk, dir, a) == layout.lookup(disk, dir, b),
{
    if let Ok(held) = layout.dir_bytes(disk, dir) {
        lemma_slot_either(held, a, b, 0, entries::end_slot(held, 0));
    }
}

proof fn lemma_way_either(layout: Layout, disk: Disk, dir: Dir, a: Seq<Seq<char>>, b: Seq<Seq<char>>)
    requires
        ways_match(a, b),
    ensures
        layout.dir_from(disk, dir, a) == layout.dir_from(disk, dir, b),
    decreases a.len(),
{
    if a.len() > 0 {
        let rest_a = a.subrange(1, a.len() as int);
        let rest_b = b.subrange(1, b.len() as int);
        assert forall|i: int| 0 <= i < rest_a.len() implies names::same_name(
            #[trigger] rest_a[i],
            rest_b[i],
        ) && (rest_a[i].len() == 0 <==> rest_b[i].len() == 0) by {
            assert(rest_a[i] == a[i + 1] && rest_b[i] == b[i + 1]);
        }
        assert(names::same_name(a[0], b[0]));
        if a[0].len() == 0 {
            lemma_way_either(layout, disk, dir, rest_a, rest_b);
        } else {
            lemma_lookup_either(layout, disk, dir, a[0], b[0]);
            if let Ok(located) = layout.lookup(disk, dir, a[0]) {
                lemma_way_either(
                    layout,
                    disk,
                    volume::dir_at(located.entry.first_cluster),
                    rest_a,
                    rest_b,
                );
            }
        }
    }
}

/// Paths that are the same but for case lead to the same file or directory.
pub proof fn case_makes_no_difference(layout: Layout, disk: Disk, a: Seq<char>, b: Seq<char>)
    requires
        paths_match(a, b),
    ensures
        layout.entry_of(disk, a) == layout.entry_of(disk, b),
        layout.file_of(disk, a) == layout.file_of(disk, b),
{
    let (way_a, name_a) = volume::split_path(a);
    let (way_b, name_b) = volume::split_path(b);
    lemma_way_either(
        layout,
        disk,
        Dir::Root,
        text::pieces_from(way_a, 0, '/'),
        text::pieces_from(way_b, 0, '/'),
    );
    if let Ok(dir) = layout.dir_of(disk, way_a) {
        lemma_lookup_either(layout, disk, dir, name_a, name_b);
    }
}

} // verus!
