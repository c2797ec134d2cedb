//! A whole volume in order, which every change keeps so.

use super::change;
use super::change::{ImageModel, Volume};
use super::counts;
use super::cuts;
use super::entries;
use super::entries::{Cluster, EntryKind};
use super::failures;
use super::laws;
use super::listings;
use super::names;
use super::neat;
use super::others;
use super::paths;
use super::read;
use super::stored;
use super::volume;
use super::volume::{Dir, Disk, Fault, Layout};
use crate::text;
use vstd::prelude::*;

verus! {

/// Something that has sectors of its own: the root directory, or the entry in a slot of a
/// directory.
pub enum Holder {
    Root,
    Entry(Dir, int),
}

/// What a directory holds.
pub open spec fn held_in(layout: Layout, disk: Disk, dir: Dir) -> Seq<u8> {
    layout.dir_bytes(disk, dir)->Ok_0
}

/// The entry in a slot of a directory.
pub open spec fn entry_in(layout: Layout, disk: Disk, dir: Dir, i: int) -> entries::EntryModel {
    neat::entry_at(held_in(layout, disk, dir), layout.fat_type, i)
}

/// Whether a holder is on a disk that has the directories of `tree`.
pub open spec fn there(layout: Layout, disk: Disk, tree: Map<Dir, nat>, h: Holder) -> bool {
    match h {
        Holder::Root => true,
        Holder::Entry(dir, i) => tree.contains_key(dir) && neat::lists_at(
            held_in(layout, disk, dir),
            i,
        ),
    }
}

/// The sectors of a holder.
pub open spec fn sectors(layout: Layout, disk: Disk, h: Holder) -> Seq<int> {
    match h {
        Holder::Root => layout.dir_sectors(disk, Dir::Root)->Ok_0,
        Holder::Entry(dir, i) => laws::sectors_from(
            layout,
            disk,
            entry_in(layout, disk, dir, i).first_cluster.0,
        ),
    }
}

/// Whether a directory is there, and in order.
pub open spec fn settled(layout: Layout, disk: Disk, dir: Dir) -> bool {
    layout.dir_bytes(disk, dir) is Ok && neat::neat(held_in(layout, disk, dir))
}

/// Whether an entry's chain is whole, and there if the entry says it has bytes; and, if it is a
/// directory's, that is in the tree, one deeper than the directory it is in.
pub open spec fn entry_fine(
    layout: Layout,
    disk: Disk,
    tree: Map<Dir, nat>,
    dir: Dir,
    i: int,
) -> bool {
    let entry = entry_in(layout, disk, dir, i);
    let first = entry.first_cluster;
    &&& first.0 != 0 ==> layout.chain(disk, first.0) is Ok
    &&& entry.size > 0 ==> first.0 != 0
    &&& entry.kind == EntryKind::Directory ==> first.0 != 0 && tree.contains_key(Dir::Chain(first))
        && tree[Dir::Chain(first)] == tree[dir] + 1
}

/// Whether a holder is the entry of a directory.
pub open spec fn leads_to(
    layout: Layout,
    disk: Disk,
    tree: Map<Dir, nat>,
    h: Holder,
    dir: Dir,
) -> bool {
    &&& there(layout, disk, tree, h)
    &&& h matches Holder::Entry(d, i) && entry_in(layout, disk, d, i).kind == EntryKind::Directory
        && Dir::Chain(entry_in(layout, disk, d, i).first_cluster) == dir
}

/// Whether two holders, if they are two, have no sector in common.
pub open spec fn share_nothing(
    layout: Layout,
    disk: Disk,
    tree: Map<Dir, nat>,
    g: Holder,
    h: Holder,
) -> bool {
    there(layout, disk, tree, g) && there(layout, disk, tree, h) && g != h ==> laws::apart(
        sectors(layout, disk, g),
        sectors(layout, disk, h),
    )
}

/// Whether a disk's directories are those of `tree`, which says how deep each is: each is in
/// order and has an entry, but for the root; every entry's chain is whole; and no two entries,
/// nor one and the root, have a sector in common.
pub open spec fn arranged(layout: Layout, disk: Disk, tree: Map<Dir, nat>) -> bool {
    &&& laws::sound(layout, disk)
    &&& tree.contains_key(Dir::Root)
    &&& forall|d: Dir| tree.contains_key(d) ==> #[trigger] settled(layout, disk, d)
    &&& forall|d: Dir, i: int|
        there(layout, disk, tree, Holder::Entry(d, i)) ==> #[trigger] entry_fine(
            layout,
            disk,
            tree,
            d,
            i,
        )
    &&& forall|d: Dir| #[trigger]
        tree.contains_key(d) && d != Dir::Root ==> exists|h: Holder| #[trigger]
            leads_to(layout, disk, tree, h, d)
    &&& forall|g: Holder, h: Holder| #[trigger] share_nothing(layout, disk, tree, g, h)
}

/// Whether a disk is in order as a whole.
pub open spec fn orderly(layout: Layout, disk: Disk) -> bool {
    exists|tree: Map<Dir, nat>| #[trigger] arranged(layout, disk, tree)
}

/// The holder that a directory's sectors belong to.
pub open spec fn home(layout: Layout, disk: Disk, tree: Map<Dir, nat>, dir: Dir) -> Holder {
    if dir == Dir::Root {
        Holder::Root
    } else {
        choose|h: Holder| #[trigger] leads_to(layout, disk, tree, h, dir)
    }
}

proof fn lemma_home(layout: Layout, disk: Disk, tree: Map<Dir, nat>, dir: Dir)
    requires
        arranged(layout, disk, tree),
        tree.contains_key(dir),
    ensures
        ({
            let h = home(layout, disk, tree, dir);
            &&& there(layout, disk, tree, h)
            &&& layout.dir_sectors(disk, dir) == Ok::<Seq<int>, Fault>(sectors(layout, disk, h))
            &&& dir == Dir::Root <==> h == Holder::Root
            &&& dir != Dir::Root ==> leads_to(layout, disk, tree, h, dir)
        }),
{
    assert(settled(layout, disk, dir));
    if dir != Dir::Root {
        let h = home(layout, disk, tree, dir);
        assert(leads_to(layout, disk, tree, h, dir));
        if let Holder::Entry(d, i) = h {
            assert(entry_fine(layout, disk, tree, d, i));
        }
    }
}

proof fn lemma_homes_differ(layout: Layout, disk: Disk, tree: Map<Dir, nat>, a: Dir, b: Dir)
    requires
        arranged(layout, disk, tree),
        tree.contains_key(a),
        tree.contains_key(b),
        a != b,
    ensures
        home(layout, disk, tree, a) != home(layout, disk, tree, b),
{
    lemma_home(layout, disk, tree, a);
    lemma_home(layout, disk, tree, b);
}

proof fn lemma_apart_swapped(a: Seq<int>, b: Seq<int>)
    requires
        laws::apart(a, b),
    ensures
        laws::apart(b, a),
{
    assert forall|i: int| 0 <= i < b.len() implies !a.contains(#[trigger] b[i]) by {
        if a.contains(b[i]) {
            let k = choose|k: int| 0 <= k < a.len() && a[k] == b[i];
            assert(b.contains(a[k]));
        }
    }
}

proof fn lemma_apart_both(a: Seq<int>, b: Seq<int>, c: Seq<int>)
    requires
        laws::apart(a, b),
        laws::apart(a, c),
    ensures
        laws::apart(a, b + c),
{
    assert forall|i: int| 0 <= i < a.len() implies !(b + c).contains(#[trigger] a[i]) by {
        laws::lemma_concat_contains(b, c, a[i]);
    }
}

/// A whole chain has sectors.
proof fn lemma_some_sector(layout: Layout, disk: Disk, first: u32)
    requires
        laws::sound(layout, disk),
        layout.chain(disk, first) is Ok,
    ensures
        layout.chain(disk, first)->Ok_0.len() > 0,
        layout.chain(disk, first)->Ok_0[0] == first,
        layout.has_cluster(first),
        layout.fat_entry(disk, first) != 0,
        layout.sectors_of(layout.chain(disk, first)->Ok_0).contains(layout.first_sector(first)),
{
    let clusters = layout.chain(disk, first)->Ok_0;
    let left = layout.cluster_count as nat;
    read::lemma_chain_valid(layout, disk, first, left, None);
    laws::lemma_chain_used(layout, disk, first, left);
    assert(layout.has_cluster(clusters[0]));
    assert(laws::in_cluster(layout, clusters[0], layout.first_sector(first)));
    laws::lemma_sector_of(layout, clusters, layout.first_sector(first));
    assert(layout.fat_entry(disk, clusters[0]) != 0);
}

/// What sectors a holder has are after the FATs, and in no free cluster.
proof fn lemma_sectors_used(layout: Layout, disk: Disk, tree: Map<Dir, nat>, h: Holder)
    requires
        arranged(layout, disk, tree),
        there(layout, disk, tree, h),
    ensures
        forall|k: int|
            0 <= k < sectors(layout, disk, h).len() ==> !laws::in_free(
                layout,
                disk,
                #[trigger] sectors(layout, disk, h)[k],
            ),
{
    assert(settled(layout, disk, Dir::Root));
    match h {
        Holder::Root => {
            laws::lemma_dir_sectors(layout, disk, Dir::Root);
        },
        Holder::Entry(d, i) => {
            assert(entry_fine(layout, disk, tree, d, i));
            laws::lemma_dir_sectors(
                layout,
                disk,
                Dir::Chain(entry_in(layout, disk, d, i).first_cluster),
            );
        },
    }
}

/// A directory, or a chain seen as one, that was spared has its sectors and holds what it did.
proof fn lemma_spared(layout: Layout, a: Disk, b: Disk, dir: Dir, touched: Seq<int>)
    requires
        laws::sound(layout, a),
        laws::spared(layout, a, b, touched),
        layout.dir_sectors(a, dir) matches Ok(places) && laws::apart(places, touched),
    ensures
        layout.dir_sectors(b, dir) == layout.dir_sectors(a, dir),
        layout.dir_bytes(b, dir) == layout.dir_bytes(a, dir),
{
    let places = layout.dir_sectors(a, dir)->Ok_0;
    laws::lemma_dir_spared(layout, a, b, dir, touched);
    assert forall|c: u32|
        layout.has_cluster(c) && layout.fat_entry(a, c) != 0 && places.contains(
            layout.first_sector(c),
        ) implies #[trigger] layout.fat_entry(b, c) == layout.fat_entry(a, c) by {
        let i = choose|i: int| 0 <= i < places.len() && places[i] == layout.first_sector(c);
        assert(!touched.contains(places[i]));
    }
    laws::lemma_dir_kept(layout, a, b, dir);
}

/// A chain that was spared is the same chain.
proof fn lemma_chain_spared(layout: Layout, a: Disk, b: Disk, first: u32, touched: Seq<int>)
    requires
        laws::sound(layout, a),
        laws::spared(layout, a, b, touched),
        layout.chain(a, first) matches Ok(clusters) && laws::apart(
            layout.sectors_of(clusters),
            touched,
        ),
    ensures
        layout.chain(b, first) == layout.chain(a, first),
{
    let clusters = layout.chain(a, first)->Ok_0;
    let places = layout.sectors_of(clusters);
    let left = layout.cluster_count as nat;
    laws::lemma_chain_used(layout, a, first, left);
    read::lemma_chain_valid(layout, a, first, left, None);
    assert forall|k: int| 0 <= k < clusters.len() implies layout.fat_entry(
        b,
        #[trigger] clusters[k],
    ) == layout.fat_entry(a, clusters[k]) by {
        let c = clusters[k];
        assert(layout.has_cluster(c));
        assert(laws::in_cluster(layout, clusters[k], layout.first_sector(c)));
        laws::lemma_sector_of(layout, clusters, layout.first_sector(c));
        let i = choose|i: int| 0 <= i < places.len() && places[i] == layout.first_sector(c);
        assert(!touched.contains(places[i]));
    }
    laws::lemma_chain_same(layout, a, b, first, left, None);
}

/// The sectors that a change of slot `s` of a directory touches, besides free ones: those of the
/// directory, and those of the entry that was there.
pub open spec fn touched_by(layout: Layout, disk: Disk, dir: Dir, s: int) -> Seq<int> {
    layout.dir_sectors(disk, dir)->Ok_0 + if neat::lists_at(held_in(layout, disk, dir), s) {
        sectors(layout, disk, Holder::Entry(dir, s))
    } else {
        Seq::empty()
    }
}

/// A holder other than the changed directory's and the changed entry has none of the sectors
/// that are touched.
proof fn lemma_untouched(
    layout: Layout,
    a: Disk,
    tree: Map<Dir, nat>,
    dir: Dir,
    s: int,
    h: Holder,
)
    requires
        arranged(layout, a, tree),
        tree.contains_key(dir),
        there(layout, a, tree, h),
        h != home(layout, a, tree, dir),
        h != Holder::Entry(dir, s),
    ensures
        laws::apart(sectors(layout, a, h), touched_by(layout, a, dir, s)),
{
    lemma_home(layout, a, tree, dir);
    assert(share_nothing(layout, a, tree, h, home(layout, a, tree, dir)));
    if neat::lists_at(held_in(layout, a, dir), s) {
        assert(share_nothing(layout, a, tree, h, Holder::Entry(dir, s)));
        lemma_apart_both(
            sectors(layout, a, h),
            layout.dir_sectors(a, dir)->Ok_0,
            sectors(layout, a, Holder::Entry(dir, s)),
        );
    } else {
        assert(touched_by(layout, a, dir, s) =~= layout.dir_sectors(a, dir)->Ok_0);
    }
}

/// A change of slot `s` of a directory, from one disk to another, with a new chain for it.
pub struct Step {
    pub layout: Layout,
    pub a: Disk,
    pub b: Disk,
    pub tree: Map<Dir, nat>,
    pub dir: Dir,
    pub s: int,
    pub new: Seq<u32>,
}

/// Whether a slot of the changed directory is as it was.
pub open spec fn slot_stays(c: Step, i: int) -> bool {
    let was = held_in(c.layout, c.a, c.dir);
    let now = held_in(c.layout, c.b, c.dir);
    &&& neat::lists_at(was, i) == neat::lists_at(now, i)
    &&& neat::lists_at(was, i) ==> entry_in(c.layout, c.a, c.dir, i) == entry_in(
        c.layout,
        c.b,
        c.dir,
        i,
    )
}

/// What every such change does: the rest of the disk is spared, the directory is in order, and
/// all its other slots are as they were; the new chain is in clusters that were free.
pub open spec fn changes(c: Step) -> bool {
    &&& arranged(c.layout, c.a, c.tree)
    &&& c.tree.contains_key(c.dir)
    &&& laws::sound(c.layout, c.b)
    &&& laws::spared(c.layout, c.a, c.b, touched_by(c.layout, c.a, c.dir, c.s))
    &&& settled(c.layout, c.b, c.dir)
    &&& laws::laid_out(
        c.layout,
        c.a,
        c.b,
        c.dir,
        c.layout.dir_sectors(c.a, c.dir)->Ok_0,
        c.new,
    )
    &&& forall|i: int| i != c.s ==> #[trigger] slot_stays(c, i)
    &&& forall|k: int|
        0 <= k < c.new.len() ==> c.layout.has_cluster(#[trigger] c.new[k]) && c.layout.fat_entry(
            c.a,
            c.new[k],
        ) == 0
    &&& neat::lists_at(held_in(c.layout, c.b, c.dir), c.s) ==> entry_in(
        c.layout,
        c.b,
        c.dir,
        c.s,
    ).first_cluster.0 == (if c.new.len() == 0 {
        0
    } else {
        c.new[0]
    })
}

/// The home of the changed directory.
pub open spec fn changed_home(c: Step) -> Holder {
    home(c.layout, c.a, c.tree, c.dir)
}

/// A directory that the changed entry doesn't lead to, and that isn't the changed one, stays.
proof fn lemma_dir_stays(c: Step, d: Dir)
    requires
        changes(c),
        c.tree.contains_key(d),
        d != c.dir,
        home(c.layout, c.a, c.tree, d) != Holder::Entry(c.dir, c.s),
    ensures
        c.layout.dir_sectors(c.b, d) == c.layout.dir_sectors(c.a, d),
        c.layout.dir_bytes(c.b, d) == c.layout.dir_bytes(c.a, d),
        settled(c.layout, c.b, d),
{
    let h = home(c.layout, c.a, c.tree, d);
    lemma_home(c.layout, c.a, c.tree, d);
    lemma_homes_differ(c.layout, c.a, c.tree, d, c.dir);
    lemma_untouched(c.layout, c.a, c.tree, c.dir, c.s, h);
    assert(settled(c.layout, c.a, d));
    lemma_spared(c.layout, c.a, c.b, d, touched_by(c.layout, c.a, c.dir, c.s));
}

/// Whether the directory that a holder is in stays, or is the changed one.
pub open spec fn in_place(c: Step, h: Holder) -> bool {
    h matches Holder::Entry(d, i) ==> d == c.dir || home(c.layout, c.a, c.tree, d)
        != Holder::Entry(c.dir, c.s)
}

/// What becomes of a holder that isn't the changed entry: it stays, with its sectors; those of
/// the changed directory's home are the directory's.
proof fn lemma_holder_stays(c: Step, h: Holder)
    requires
        changes(c),
        there(c.layout, c.a, c.tree, h),
        h != Holder::Entry(c.dir, c.s),
        in_place(c, h),
    ensures
        h matches Holder::Entry(d, i) ==> neat::lists_at(held_in(c.layout, c.b, d), i)
            && entry_in(c.layout, c.b, d, i) == entry_in(c.layout, c.a, d, i) && (entry_in(
            c.layout,
            c.a,
            d,
            i,
        ).first_cluster.0 != 0 ==> c.layout.chain(
            c.b,
            entry_in(c.layout, c.a, d, i).first_cluster.0,
        ) is Ok),
        h != changed_home(c) ==> sectors(c.layout, c.b, h) == sectors(c.layout, c.a, h),
        h == changed_home(c) ==> c.layout.dir_sectors(c.b, c.dir) == Ok::<Seq<int>, Fault>(
            sectors(c.layout, c.b, h),
        ),
{
    let touched = touched_by(c.layout, c.a, c.dir, c.s);
    lemma_home(c.layout, c.a, c.tree, c.dir);
    assert(settled(c.layout, c.b, c.dir));
    assert(settled(c.layout, c.a, Dir::Root));
    match h {
        Holder::Root => {
            if h != changed_home(c) {
                lemma_untouched(c.layout, c.a, c.tree, c.dir, c.s, h);
                lemma_spared(c.layout, c.a, c.b, Dir::Root, touched);
            }
        },
        Holder::Entry(d, i) => {
            assert(entry_fine(c.layout, c.a, c.tree, d, i));
            if d == c.dir {
                assert(slot_stays(c, i));
            } else {
                lemma_dir_stays(c, d);
            }
            let first = entry_in(c.layout, c.a, d, i).first_cluster.0;
            if h != changed_home(c) && first != 0 {
                lemma_untouched(c.layout, c.a, c.tree, c.dir, c.s, h);
                lemma_chain_spared(c.layout, c.a, c.b, first, touched);
            }
        },
    }
}

/// The sectors of the new chain were free, and aren't the directory's.
proof fn lemma_new_sectors(c: Step)
    requires
        changes(c),
        neat::lists_at(held_in(c.layout, c.b, c.dir), c.s),
    ensures
        forall|k: int|
            0 <= k < sectors(c.layout, c.b, Holder::Entry(c.dir, c.s)).len() ==> laws::in_free(
                c.layout,
                c.a,
                #[trigger] sectors(c.layout, c.b, Holder::Entry(c.dir, c.s))[k],
            ),
        laws::apart(
            c.layout.dir_sectors(c.b, c.dir)->Ok_0,
            sectors(c.layout, c.b, Holder::Entry(c.dir, c.s)),
        ),
        c.new.len() > 0 ==> c.new[0] != 0 && c.layout.chain(c.b, c.new[0]) is Ok,
{
    reveal(laws::laid_out);
    let all = sectors(c.layout, c.b, Holder::Entry(c.dir, c.s));
    if c.new.len() > 0 {
        assert(c.layout.has_cluster(c.new[0]));
        assert(all == c.layout.sectors_of(c.new));
        assert forall|k: int| 0 <= k < all.len() implies laws::in_free(
            c.layout,
            c.a,
            #[trigger] all[k],
        ) by {
            assert(all.contains(all[k]));
            laws::lemma_free_sectors(c.layout, c.a, c.new, all[k]);
        }
    }
}

/// Whether a holder is there after a change because it was before, in a directory that stays.
pub open spec fn stayed(c: Step, h: Holder) -> bool {
    &&& there(c.layout, c.a, c.tree, h)
    &&& h != Holder::Entry(c.dir, c.s)
    &&& in_place(c, h)
}

/// Two holders that are there after a change share nothing.
proof fn lemma_share_after(c: Step, g: Holder, h: Holder)
    requires
        changes(c),
        g != h,
        stayed(c, g),
        stayed(c, h) || h == Holder::Entry(c.dir, c.s) && neat::lists_at(
            held_in(c.layout, c.b, c.dir),
            c.s,
        ),
    ensures
        laws::apart(sectors(c.layout, c.b, g), sectors(c.layout, c.b, h)),
        laws::apart(sectors(c.layout, c.b, h), sectors(c.layout, c.b, g)),
{
    let x = sectors(c.layout, c.b, g);
    let y = sectors(c.layout, c.b, h);
    lemma_holder_stays(c, g);
    lemma_sectors_used(c.layout, c.a, c.tree, g);
    lemma_home(c.layout, c.a, c.tree, c.dir);
    assert(share_nothing(c.layout, c.a, c.tree, g, h));
    if stayed(c, h) {
        lemma_holder_stays(c, h);
        lemma_sectors_used(c.layout, c.a, c.tree, h);
        if g == changed_home(c) {
            lemma_grown_apart(c, h);
            lemma_apart_swapped(y, x);
        } else if h == changed_home(c) {
            lemma_grown_apart(c, g);
        }
    } else {
        lemma_new_sectors(c);
        if g != changed_home(c) {
            assert forall|k: int| 0 <= k < x.len() implies !y.contains(#[trigger] x[k]) by {
                if y.contains(x[k]) {
                    let m = choose|m: int| 0 <= m < y.len() && y[m] == x[k];
                    assert(laws::in_free(c.layout, c.a, y[m]));
                }
            }
        }
    }
    lemma_apart_swapped(x, y);
}

/// The changed directory, grown or not, has no sector of a holder that stayed.
proof fn lemma_grown_apart(c: Step, h: Holder)
    requires
        changes(c),
        stayed(c, h),
        h != changed_home(c),
    ensures
        laws::apart(sectors(c.layout, c.a, h), c.layout.dir_sectors(c.b, c.dir)->Ok_0),
{
    reveal(laws::laid_out);
    let x = sectors(c.layout, c.a, h);
    let places = c.layout.dir_sectors(c.a, c.dir)->Ok_0;
    let now = c.layout.dir_sectors(c.b, c.dir)->Ok_0;
    lemma_home(c.layout, c.a, c.tree, c.dir);
    lemma_sectors_used(c.layout, c.a, c.tree, h);
    assert(share_nothing(c.layout, c.a, c.tree, h, changed_home(c)));
    assert forall|k: int| 0 <= k < x.len() implies !now.contains(#[trigger] x[k]) by {
        if now.contains(x[k]) {
            let m = choose|m: int| 0 <= m < now.len() && now[m] == x[k];
            assert(laws::in_free(c.layout, c.a, now[m]) || places.contains(now[m]));
            assert(!places.contains(x[k]));
        }
    }
}

/// A change of a file's entry keeps the order.
#[verifier::spinoff_prover]
proof fn lemma_file_step(c: Step)
    requires
        changes(c),
        neat::lists_at(held_in(c.layout, c.a, c.dir), c.s) ==> entry_in(
            c.layout,
            c.a,
            c.dir,
            c.s,
        ).kind == EntryKind::File,
        neat::lists_at(held_in(c.layout, c.b, c.dir), c.s) ==> entry_in(
            c.layout,
            c.b,
            c.dir,
            c.s,
        ).kind == EntryKind::File && (entry_in(c.layout, c.b, c.dir, c.s).size > 0 ==> c.new.len()
            > 0),
    ensures
        arranged(c.layout, c.b, c.tree),
{
    let changed = Holder::Entry(c.dir, c.s);
    assert forall|d: Dir| c.tree.contains_key(d) implies #[trigger] settled(c.layout, c.b, d)
        && home(c.layout, c.a, c.tree, d) != changed by {
        lemma_home(c.layout, c.a, c.tree, d);
        if d != c.dir {
            lemma_dir_stays(c, d);
        }
    }
    assert forall|h: Holder| #[trigger]
        there(c.layout, c.b, c.tree, h) && h != changed implies stayed(c, h) by {
        if let Holder::Entry(d, i) = h {
            assert(settled(c.layout, c.b, d));
            if d == c.dir {
                assert(slot_stays(c, i));
            } else {
                lemma_dir_stays(c, d);
            }
        }
    }
    assert forall|d: Dir, i: int|
        there(c.layout, c.b, c.tree, Holder::Entry(d, i)) implies #[trigger] entry_fine(
        c.layout,
        c.b,
        c.tree,
        d,
        i,
    ) by {
        let h = Holder::Entry(d, i);
        if h == changed {
            lemma_new_sectors(c);
        } else {
            assert(stayed(c, h));
            lemma_holder_stays(c, h);
            assert(entry_fine(c.layout, c.a, c.tree, d, i));
        }
    }
    assert forall|d: Dir| #[trigger] c.tree.contains_key(d) && d != Dir::Root implies exists|
        h: Holder,
    | #[trigger] leads_to(c.layout, c.b, c.tree, h, d) by {
        let h = home(c.layout, c.a, c.tree, d);
        lemma_home(c.layout, c.a, c.tree, d);
        if let Holder::Entry(p, i) = h {
            assert(settled(c.layout, c.b, p));
            lemma_holder_stays(c, h);
            assert(leads_to(c.layout, c.b, c.tree, h, d));
        }
    }
    assert forall|g: Holder, h: Holder| #[trigger] share_nothing(c.layout, c.b, c.tree, g, h) by {
        if there(c.layout, c.b, c.tree, g) && there(c.layout, c.b, c.tree, h) && g != h {
            if g == changed {
                assert(stayed(c, h));
                lemma_share_after(c, h, g);
            } else {
                assert(stayed(c, g));
                lemma_share_after(c, g, h);
            }
        }
    }
}

/// Making a directory keeps the order: it is one more in the tree.
#[verifier::rlimit(30)]
#[verifier::spinoff_prover]
proof fn lemma_made_step(c: Step)
    requires
        changes(c),
        !neat::lists_at(held_in(c.layout, c.a, c.dir), c.s),
        neat::lists_at(held_in(c.layout, c.b, c.dir), c.s),
        entry_in(c.layout, c.b, c.dir, c.s).kind == EntryKind::Directory,
        c.new.len() > 0,
        settled(c.layout, c.b, Dir::Chain(Cluster(c.new[0]))),
        forall|i: int|
            !#[trigger] neat::lists_at(
                held_in(c.layout, c.b, Dir::Chain(Cluster(c.new[0]))),
                i,
            ),
    ensures
        arranged(
            c.layout,
            c.b,
            c.tree.insert(Dir::Chain(Cluster(c.new[0])), c.tree[c.dir] + 1),
        ),
{
    let changed = Holder::Entry(c.dir, c.s);
    let made = Dir::Chain(Cluster(c.new[0]));
    let tree = c.tree.insert(made, c.tree[c.dir] + 1);
    assert(!c.tree.contains_key(made)) by {
        if c.tree.contains_key(made) {
            assert(settled(c.layout, c.a, made));
            lemma_some_sector(c.layout, c.a, c.new[0]);
            assert(c.layout.fat_entry(c.a, c.new[0]) == 0);
        }
    }
    assert forall|d: Dir| tree.contains_key(d) implies #[trigger] settled(c.layout, c.b, d) && (d
        != made ==> home(c.layout, c.a, c.tree, d) != changed) by {
        if d != made {
            lemma_home(c.layout, c.a, c.tree, d);
            if d != c.dir {
                lemma_dir_stays(c, d);
            }
        }
    }
    assert forall|h: Holder| #[trigger] there(c.layout, c.b, tree, h) && h != changed implies stayed(
        c,
        h,
    ) by {
        if let Holder::Entry(d, i) = h {
            assert(settled(c.layout, c.b, d));
            assert(d != made);
            if d == c.dir {
                assert(slot_stays(c, i));
            } else {
                lemma_dir_stays(c, d);
            }
        }
    }
    lemma_new_sectors(c);
    assert forall|d: Dir, i: int|
        there(c.layout, c.b, tree, Holder::Entry(d, i)) implies #[trigger] entry_fine(
        c.layout,
        c.b,
        tree,
        d,
        i,
    ) by {
        let h = Holder::Entry(d, i);
        if h != changed {
            assert(stayed(c, h));
            lemma_holder_stays(c, h);
            assert(entry_fine(c.layout, c.a, c.tree, d, i));
        }
    }
    assert forall|d: Dir| #[trigger] tree.contains_key(d) && d != Dir::Root implies exists|
        h: Holder,
    | #[trigger] leads_to(c.layout, c.b, tree, h, d) by {
        if d == made {
            assert(leads_to(c.layout, c.b, tree, changed, d));
        } else {
            let h = home(c.layout, c.a, c.tree, d);
            lemma_home(c.layout, c.a, c.tree, d);
            if let Holder::Entry(p, i) = h {
                assert(tree.contains_key(p));
                assert(settled(c.layout, c.b, p));
                lemma_holder_stays(c, h);
                assert(leads_to(c.layout, c.b, tree, h, d));
            }
        }
    }
    assert forall|g: Holder, h: Holder| #[trigger] share_nothing(c.layout, c.b, tree, g, h) by {
        if there(c.layout, c.b, tree, g) && there(c.layout, c.b, tree, h) && g != h {
            if g == changed {
                assert(stayed(c, h));
                lemma_share_after(c, h, g);
            } else {
                assert(stayed(c, g));
                lemma_share_after(c, g, h);
            }
        }
    }
}

/// Removing an empty directory keeps the order: it is no longer in the tree.
#[verifier::rlimit(30)]
#[verifier::spinoff_prover]
proof fn lemma_gone_step(c: Step)
    requires
        changes(c),
        neat::lists_at(held_in(c.layout, c.a, c.dir), c.s),
        !neat::lists_at(held_in(c.layout, c.b, c.dir), c.s),
        entry_in(c.layout, c.a, c.dir, c.s).kind == EntryKind::Directory,
        forall|i: int|
            !#[trigger] neat::lists_at(
                held_in(
                    c.layout,
                    c.a,
                    Dir::Chain(entry_in(c.layout, c.a, c.dir, c.s).first_cluster),
                ),
                i,
            ),
    ensures
        arranged(
            c.layout,
            c.b,
            c.tree.remove(Dir::Chain(entry_in(c.layout, c.a, c.dir, c.s).first_cluster)),
        ),
{
    let changed = Holder::Entry(c.dir, c.s);
    let first = entry_in(c.layout, c.a, c.dir, c.s).first_cluster;
    let gone = Dir::Chain(first);
    let tree = c.tree.remove(gone);
    assert(there(c.layout, c.a, c.tree, changed));
    assert(entry_fine(c.layout, c.a, c.tree, c.dir, c.s));
    assert(gone != c.dir);
    assert forall|d: Dir| tree.contains_key(d) implies #[trigger] settled(c.layout, c.b, d)
        && home(c.layout, c.a, c.tree, d) != changed by {
        lemma_home(c.layout, c.a, c.tree, d);
        if d != c.dir {
            lemma_dir_stays(c, d);
        }
    }
    assert forall|h: Holder| #[trigger] there(c.layout, c.b, tree, h) implies stayed(c, h) by {
        if let Holder::Entry(d, i) = h {
            assert(settled(c.layout, c.b, d));
            if d == c.dir {
                assert(slot_stays(c, i));
            } else {
                lemma_dir_stays(c, d);
            }
        }
    }
    assert forall|d: Dir, i: int|
        there(c.layout, c.b, tree, Holder::Entry(d, i)) implies #[trigger] entry_fine(
        c.layout,
        c.b,
        tree,
        d,
        i,
    ) by {
        let h = Holder::Entry(d, i);
        assert(stayed(c, h));
        lemma_holder_stays(c, h);
        assert(entry_fine(c.layout, c.a, c.tree, d, i));
        let other = entry_in(c.layout, c.a, d, i).first_cluster;
        if other == first {
            // Two entries with one chain would share its sectors.
            assert(share_nothing(c.layout, c.a, c.tree, h, changed));
            lemma_some_sector(c.layout, c.a, first.0);
            let all = sectors(c.layout, c.a, h);
            let k = choose|k: int|
                0 <= k < all.len() && all[k] == c.layout.first_sector(first.0);
            assert(!all.contains(all[k]));
        }
    }
    assert forall|d: Dir| #[trigger] tree.contains_key(d) && d != Dir::Root implies exists|
        h: Holder,
    | #[trigger] leads_to(c.layout, c.b, tree, h, d) by {
        let h = home(c.layout, c.a, c.tree, d);
        lemma_home(c.layout, c.a, c.tree, d);
        if let Holder::Entry(p, i) = h {
            assert(p != gone);
            assert(tree.contains_key(p));
            assert(settled(c.layout, c.b, p));
            lemma_holder_stays(c, h);
            assert(leads_to(c.layout, c.b, tree, h, d));
        }
    }
    assert forall|g: Holder, h: Holder| #[trigger] share_nothing(c.layout, c.b, tree, g, h) by {
        if there(c.layout, c.b, tree, g) && there(c.layout, c.b, tree, h) && g != h {
            assert(stayed(c, g));
            assert(stayed(c, h));
            lemma_share_after(c, g, h);
        }
    }
}

/// A disk on which nothing but free clusters changed is in order as well.
proof fn lemma_same_order(layout: Layout, a: Disk, b: Disk, tree: Map<Dir, nat>)
    requires
        arranged(layout, a, tree),
        laws::sound(layout, b),
        laws::spared(layout, a, b, Seq::empty()),
    ensures
        arranged(layout, b, tree),
{
    let none = Seq::<int>::empty();
    assert forall|d: Dir| tree.contains_key(d) implies #[trigger] settled(layout, b, d)
        && layout.dir_bytes(b, d) == layout.dir_bytes(a, d) && layout.dir_sectors(b, d)
        == layout.dir_sectors(a, d) by {
        assert(settled(layout, a, d));
        lemma_spared(layout, a, b, d, none);
    }
    assert forall|d: Dir, i: int|
        there(layout, b, tree, Holder::Entry(d, i)) implies #[trigger] entry_fine(
        layout,
        b,
        tree,
        d,
        i,
    ) && sectors(layout, b, Holder::Entry(d, i)) == sectors(layout, a, Holder::Entry(d, i)) by {
        assert(settled(layout, b, d));
        assert(there(layout, a, tree, Holder::Entry(d, i)));
        assert(entry_fine(layout, a, tree, d, i));
        let first = entry_in(layout, a, d, i).first_cluster.0;
        if first != 0 {
            lemma_chain_spared(layout, a, b, first, none);
        }
    }
    assert forall|d: Dir| #[trigger] tree.contains_key(d) && d != Dir::Root implies exists|
        h: Holder,
    | #[trigger] leads_to(layout, b, tree, h, d) by {
        let h = home(layout, a, tree, d);
        lemma_home(layout, a, tree, d);
        if let Holder::Entry(p, i) = h {
            assert(settled(layout, b, p));
            assert(leads_to(layout, b, tree, h, d));
        }
    }
    assert forall|g: Holder, h: Holder| #[trigger] share_nothing(layout, b, tree, g, h) by {
        if there(layout, b, tree, g) && there(layout, b, tree, h) && g != h {
            assert(settled(layout, b, Dir::Root));
            if let Holder::Entry(d, i) = g {
                assert(settled(layout, b, d));
                assert(entry_fine(layout, b, tree, d, i));
            }
            if let Holder::Entry(d, i) = h {
                assert(settled(layout, b, d));
                assert(entry_fine(layout, b, tree, d, i));
            }
            assert(share_nothing(layout, a, tree, g, h));
        }
    }
}

/// What is looked up is in a slot that lists it.
proof fn lemma_looked_up(layout: Layout, disk: Disk, dir: Dir, name: Seq<char>)
    requires
        layout.lookup(disk, dir, name) is Ok,
    ensures
        ({
            let located = layout.lookup(disk, dir, name)->Ok_0;
            let held = held_in(layout, disk, dir);
            &&& entries::entry_for(held, layout.fat_type, name) == Some(located)
            &&& neat::lists_at(held, located.slot)
            &&& entry_in(layout, disk, dir, located.slot) == located.entry
            &&& names::same_name(entries::name_at(held, located.slot), name)
        }),
{
    let held = held_in(layout, disk, dir);
    laws::lemma_slot_first(held, name, 0, entries::end_slot(held, 0));
}

/// Names lead from a directory of the tree to another, down, past directories that share nothing
/// with it nor with what is in a slot of it.
proof fn lemma_way(
    layout: Layout,
    disk: Disk,
    tree: Map<Dir, nat>,
    dir: Dir,
    parts: Seq<Seq<char>>,
    s: int,
)
    requires
        arranged(layout, disk, tree),
        tree.contains_key(dir),
        layout.dir_from(disk, dir, parts) is Ok,
    ensures
        ({
            let end = layout.dir_from(disk, dir, parts)->Ok_0;
            &&& tree.contains_key(end)
            &&& tree[end] >= tree[dir]
            &&& laws::way_clear(layout, disk, dir, parts, touched_by(layout, disk, end, s))
        }),
    decreases parts.len(),
{
    if parts.len() > 0 {
        let rest = parts.subrange(1, parts.len() as int);
        let end = layout.dir_from(disk, dir, parts)->Ok_0;
        if parts[0].len() == 0 {
            lemma_way(layout, disk, tree, dir, rest, s);
        } else {
            let located = layout.lookup(disk, dir, parts[0])->Ok_0;
            lemma_looked_up(layout, disk, dir, parts[0]);
            assert(there(layout, disk, tree, Holder::Entry(dir, located.slot)));
            assert(entry_fine(layout, disk, tree, dir, located.slot));
            lemma_way(layout, disk, tree, volume::dir_at(located.entry.first_cluster), rest, s);
            assert(dir != end);
            lemma_beside_home(layout, disk, tree, dir, end, s);
        }
    }
}

/// A directory that isn't deeper than another, nor it, shares nothing with it nor with what is in
/// a slot of it.
proof fn lemma_beside_home(
    layout: Layout,
    disk: Disk,
    tree: Map<Dir, nat>,
    dir: Dir,
    end: Dir,
    s: int,
)
    requires
        arranged(layout, disk, tree),
        tree.contains_key(dir),
        tree.contains_key(end),
        dir != end,
        tree[dir] <= tree[end] || home(layout, disk, tree, dir) != Holder::Entry(end, s),
    ensures
        layout.dir_sectors(disk, dir) matches Ok(places) && laws::apart(
            places,
            touched_by(layout, disk, end, s),
        ),
{
    lemma_home(layout, disk, tree, dir);
    lemma_homes_differ(layout, disk, tree, dir, end);
    if home(layout, disk, tree, dir) == Holder::Entry(end, s) {
        assert(entry_fine(layout, disk, tree, end, s));
    }
    lemma_untouched(layout, disk, tree, end, s, home(layout, disk, tree, dir));
}

/// The slot that a name is listed in; one before all for none.
pub open spec fn slot_for(layout: Layout, disk: Disk, dir: Dir, name: Seq<char>) -> int {
    match layout.lookup(disk, dir, name) {
        Ok(located) => located.slot,
        Err(_) => -1,
    }
}

/// What a change of a name in a directory touches.
proof fn lemma_touched(v: Volume, tree: Map<Dir, nat>, dir: Dir, name: Seq<char>)
    requires
        arranged(v.layout, v.disk, tree),
        tree.contains_key(dir),
    ensures
        ({
            let places = v.layout.dir_sectors(v.disk, dir)->Ok_0;
            let held = v.layout.bytes_at(v.disk, places);
            let s = slot_for(v.layout, v.disk, dir, name);
            let old = laws::old_start(v, held, name);
            &&& v.layout.dir_sectors(v.disk, dir) is Ok
            &&& held == held_in(v.layout, v.disk, dir)
            &&& touched_by(v.layout, v.disk, dir, s) == places + laws::sectors_from(
                v.layout,
                v.disk,
                old,
            )
            &&& old != 0 ==> v.layout.chain(v.disk, old) is Ok
            &&& laws::apart(places, laws::sectors_from(v.layout, v.disk, old))
        }),
{
    let s = slot_for(v.layout, v.disk, dir, name);
    assert(settled(v.layout, v.disk, dir));
    lemma_home(v.layout, v.disk, tree, dir);
    if v.layout.lookup(v.disk, dir, name) is Ok {
        lemma_looked_up(v.layout, v.disk, dir, name);
        let h = Holder::Entry(dir, s);
        assert(there(v.layout, v.disk, tree, h));
        assert(entry_fine(v.layout, v.disk, tree, dir, s));
        let own = home(v.layout, v.disk, tree, dir);
        if own == h {
            // Its entry would be in itself, one deeper than it is.
            assert(false);
        }
        assert(share_nothing(v.layout, v.disk, tree, own, h));
    }
}

/// A volume in order as a whole is ready for a change of whatever is at a path.
pub proof fn orderly_volumes_are_ready(v: Volume, path: Seq<char>)
    requires
        orderly(v.layout, v.disk),
    ensures
        laws::ready(v, path),
        cuts::tidy_place(v, path),
        v.layout.dir_of(v.disk, volume::split_path(path).0) matches Ok(dir) ==> (
        v.layout.dir_bytes(v.disk, dir) matches Ok(held) && laws::no_stray_pieces(held)
            && laws::listed_once(held, volume::split_path(path).1)),
{
    let tree = choose|tree: Map<Dir, nat>| #[trigger] arranged(v.layout, v.disk, tree);
    let (parent, name) = volume::split_path(path);
    if let Ok(dir) = v.layout.dir_of(v.disk, parent) {
        let s = slot_for(v.layout, v.disk, dir, name);
        let held = held_in(v.layout, v.disk, dir);
        lemma_way(v.layout, v.disk, tree, Dir::Root, text::pieces_from(parent, 0, '/'), s);
        lemma_touched(v, tree, dir, name);
        assert(settled(v.layout, v.disk, dir));
        neat::lemma_neat_unstrayed(held);
        assert forall|i: int, j: int| 0 <= i < j < entries::end_slot(held, 0) implies !(
        #[trigger] laws::lists(held, name, i) && #[trigger] laws::lists(held, name, j)) by {
            assert(neat::names_differ(held, i, j));
        }
    }
}

/// On a volume in order as a whole, every name that can be stored so that it comes back can be
/// stored.
pub proof fn orderly_volumes_are_in_order(v: Volume, path: Seq<char>)
    requires
        orderly(v.layout, v.disk),
        laws::plain_name(volume::split_path(path).1),
    ensures
        laws::in_order(v, path),
{
    orderly_volumes_are_ready(v, path);
}

/// Keeping up FSInfo keeps the order.
proof fn lemma_finished_order(z: Volume, tree: Map<Dir, nat>)
    requires
        arranged(z.layout, z.disk, tree),
    ensures
        arranged(z.layout, z.finished().disk, tree),
{
    laws::lemma_finished(z);
    laws::lemma_fat_end(z.layout);
    lemma_same_order(z.layout, z.disk, z.finished().disk, tree);
}

/// Adding a file or directory to a directory is a change of one slot of it.
#[verifier::rlimit(30)]
#[verifier::spinoff_prover]
proof fn lemma_added_changes(
    v: Volume,
    w: Volume,
    new: Seq<u32>,
    tree: Map<Dir, nat>,
    dir: Dir,
    name: Seq<char>,
    data: Seq<u8>,
    first: u32,
    attr: u8,
    size: u32,
) -> (c: Step)
    requires
        arranged(v.layout, v.disk, tree),
        tree.contains_key(dir),
        laws::put_in(v, w, new, data),
        laws::plain_name(name),
        attr == entries::ATTR_ARCHIVE || attr == entries::ATTR_DIRECTORY,
        attr == entries::ATTR_ARCHIVE ==> size == data.len(),
        first == (if data.len() == 0 {
            0
        } else {
            new[0]
        }),
        v.layout.fat_type == entries::FatType::Fat16 ==> first < 0x1_0000,
        entries::entry_for(held_in(v.layout, v.disk, dir), v.layout.fat_type, name) is None,
        w.entry_added(dir, v.image_of(dir)->Ok_0, name, attr, first, size).0 is Ok,
    ensures
        ({
            let z = w.entry_added(dir, v.image_of(dir)->Ok_0, name, attr, first, size).1;
            &&& z.layout == v.layout
            &&& c.layout == v.layout && c.a == v.disk && c.b == z.disk && c.tree == tree && c.dir
                == dir && c.new == new
            &&& changes(c)
            &&& laws::has_entry(v.layout, z.disk, dir, name, attr, data)
            &&& !neat::lists_at(held_in(c.layout, c.a, c.dir), c.s)
            &&& neat::lists_at(held_in(c.layout, c.b, c.dir), c.s)
            &&& entry_in(c.layout, c.b, c.dir, c.s).kind == (if attr == entries::ATTR_DIRECTORY {
                EntryKind::Directory
            } else {
                EntryKind::File
            })
            &&& attr == entries::ATTR_ARCHIVE ==> entry_in(c.layout, c.b, c.dir, c.s).size
                == data.len()
        }),
{
    let layout = v.layout;
    assert(settled(layout, v.disk, dir));
    let places = layout.dir_sectors(v.disk, dir)->Ok_0;
    let held = held_in(layout, v.disk, dir);
    assert(v.image_of(dir)->Ok_0 == ImageModel { places, bytes: held });
    neat::lemma_neat_unstrayed(held);
    laws::lemma_added(v, w, new, dir, places, name, data, first, attr, size);
    laws::lemma_added_laid_out(v, w, new, dir, places, name, data, first, attr, size);
    let z = w.entry_added(dir, v.image_of(dir)->Ok_0, name, attr, first, size).1;
    let s = neat::lemma_neat_with(v, w, new, dir, places, name, data, first, attr, size);
    let c = Step { layout, a: v.disk, b: z.disk, tree, dir, s, new };
    assert(touched_by(layout, v.disk, dir, s) =~= places);
    assert forall|i: int| i != s implies #[trigger] slot_stays(c, i) by {
        assert(neat::stays_in(held, held_in(layout, z.disk, dir), layout.fat_type, i));
    }
    assert forall|k: int| 0 <= k < new.len() implies layout.has_cluster(#[trigger] new[k])
        && layout.fat_entry(v.disk, new[k]) == 0 by {}
    c
}

/// Pointing a file's entry at new data, and giving back the old, is a change of one slot.
#[verifier::rlimit(30)]
#[verifier::spinoff_prover]
proof fn lemma_replaced_changes(
    v: Volume,
    tree: Map<Dir, nat>,
    dir: Dir,
    name: Seq<char>,
    data: Seq<u8>,
) -> (c: Step)
    requires
        arranged(v.layout, v.disk, tree),
        tree.contains_key(dir),
        data.len() <= u32::MAX,
        entries::entry_for(held_in(v.layout, v.disk, dir), v.layout.fat_type, name) is Some,
        v.file_put(dir, v.image_of(dir)->Ok_0, name, data).0 is Ok,
    ensures
        ({
            let z = v.file_put(dir, v.image_of(dir)->Ok_0, name, data).1;
            &&& z.layout == v.layout
            &&& c.layout == v.layout && c.a == v.disk && c.b == z.disk && c.tree == tree && c.dir
                == dir
            &&& changes(c)
            &&& neat::lists_at(held_in(c.layout, c.a, c.dir), c.s)
            &&& neat::lists_at(held_in(c.layout, c.b, c.dir), c.s)
            &&& entry_in(c.layout, c.a, c.dir, c.s).kind == EntryKind::File
            &&& entry_in(c.layout, c.b, c.dir, c.s).kind == EntryKind::File
            &&& entry_in(c.layout, c.b, c.dir, c.s).size > 0 ==> c.new.len() > 0
        }),
{
    let layout = v.layout;
    assert(settled(layout, v.disk, dir));
    let places = layout.dir_sectors(v.disk, dir)->Ok_0;
    let held = held_in(layout, v.disk, dir);
    let image = ImageModel { places, bytes: held };
    assert(v.image_of(dir)->Ok_0 == image);
    lemma_touched(v, tree, dir, name);
    lemma_looked_up(layout, v.disk, dir, name);
    let b = v.begun();
    let w = b.chain_written(data).1;
    let first = b.chain_written(data).0->Ok_0;
    let new = laws::clusters_taken(b, data);
    let size = data.len() as u32;
    let located = entries::entry_for(held, layout.fat_type, name)->0;
    let s = located.slot;
    let old = located.entry.first_cluster.0;
    laws::lemma_chain_written(b, data);
    let changed = cuts::pointed(image, s, first, size, v.stamp);
    let x = w.dir_stored(changed, s, s + 1);
    laws::lemma_repointed_disk(b, w, new, dir, places, name, data, first);
    laws::lemma_freed_after(b, x, new, dir, places, changed.bytes, data, old);
    laws::lemma_dir_unchanged(b, w, new, data, dir);
    let z = v.file_put(dir, image, name, data).1;
    assert(z == x.chain_freed(old).1);
    let pointer = stored::pointer(first, size, v.stamp);
    neat::lemma_neat_repointed(held, layout.fat_type, name, pointer);
    laws::lemma_repointed(held, layout.fat_type, name, first, size, v.stamp);
    listings::lemma_repointed_slot(held, layout.fat_type, name, first, size, v.stamp);
    let c = Step { layout, a: v.disk, b: z.disk, tree, dir, s, new };
    assert(held_in(layout, z.disk, dir) == changed.bytes);
    assert forall|i: int| i != s implies #[trigger] slot_stays(c, i) by {
        entries::lemma_end_slot(held, 0);
        entries::lemma_end_slot(changed.bytes, 0);
        if 0 <= i < entries::slot_count(held) {
            assert(neat::slot_kept(held, changed.bytes, i));
        }
    }
    lemma_places_laid_out(layout, v.disk, z.disk, dir, places, new);
    assert forall|k: int| 0 <= k < new.len() implies layout.has_cluster(#[trigger] new[k])
        && layout.fat_entry(v.disk, new[k]) == 0 by {}
    c
}

/// A directory that keeps its sectors, none of them in a new chain.
proof fn lemma_places_laid_out(
    layout: Layout,
    a: Disk,
    b: Disk,
    dir: Dir,
    places: Seq<int>,
    new: Seq<u32>,
)
    requires
        layout.dir_sectors(b, dir) == Ok::<Seq<int>, Fault>(places),
        laws::apart(places, layout.sectors_of(new)),
        new.len() > 0 ==> layout.chain(b, new[0]) == Ok::<Seq<u32>, Fault>(new),
    ensures
        laws::laid_out(layout, a, b, dir, places, new),
{
    reveal(laws::laid_out);
    assert forall|i: int| 0 <= i < places.len() implies !layout.sectors_of(new).contains(
        #[trigger] places[i],
    ) && places.contains(places[i]) by {}
}

/// Writing a file keeps a volume in order as a whole.
pub proof fn writing_keeps_the_order(v: Volume, path: Seq<char>, data: Seq<u8>)
    requires
        orderly(v.layout, v.disk),
        laws::plain_name(volume::split_path(path).1),
        v.file_written(path, data).0 is Ok,
    ensures
        orderly(v.layout, v.file_written(path, data).1.disk),
{
    let layout = v.layout;
    let tree = choose|tree: Map<Dir, nat>| #[trigger] arranged(v.layout, v.disk, tree);
    let (parent, name) = volume::split_path(path);
    let dir = layout.dir_of(v.disk, parent)->Ok_0;
    lemma_way(layout, v.disk, tree, Dir::Root, text::pieces_from(parent, 0, '/'), 0);
    let image = v.image_of(dir)->Ok_0;
    let z = v.file_put(dir, image, name, data).1;
    if entries::entry_for(held_in(layout, v.disk, dir), layout.fat_type, name) is Some {
        let c = lemma_replaced_changes(v, tree, dir, name, data);
        lemma_file_step(c);
    } else {
        let b = v.begun();
        let w = b.chain_written(data).1;
        let first = b.chain_written(data).0->Ok_0;
        laws::lemma_chain_written(b, data);
        let c = lemma_added_changes(
            b,
            w,
            laws::clusters_taken(b, data),
            tree,
            dir,
            name,
            data,
            first,
            entries::ATTR_ARCHIVE,
            data.len() as u32,
        );
        lemma_file_step(c);
    }
    lemma_finished_order(z, tree);
}

/// Making a directory keeps a volume in order as a whole.
#[verifier::rlimit(30)]
#[verifier::spinoff_prover]
pub proof fn making_directories_keeps_the_order(v: Volume, path: Seq<char>)
    requires
        orderly(v.layout, v.disk),
        laws::plain_name(volume::split_path(path).1),
        v.dir_created(path).0 is Ok,
    ensures
        orderly(v.layout, v.dir_created(path).1.disk),
{
    let layout = v.layout;
    let tree = choose|tree: Map<Dir, nat>| #[trigger] arranged(v.layout, v.disk, tree);
    let (parent, name) = volume::split_path(path);
    let dir = layout.dir_of(v.disk, parent)->Ok_0;
    lemma_way(layout, v.disk, tree, Dir::Root, text::pieces_from(parent, 0, '/'), 0);
    let b = v.begun();
    let clusters = b.allocated(1)->0;
    let dots = v.dots(clusters[0], dir);
    let size = layout.cluster_bytes();
    assert(dots.len() == 64);
    assert((64 + size - 1) / size == 1) by (nonlinear_arith)
        requires
            size >= 512,
    ;
    assert(b.chain_written(dots) == (
        Ok::<u32, Fault>(clusters[0]),
        b.with_chain(clusters, dots),
    ));
    laws::lemma_chain_written(b, dots);
    let w = b.with_chain(clusters, dots);
    assert(laws::clusters_taken(b, dots) == clusters);
    let attr = entries::ATTR_DIRECTORY;
    let c = lemma_added_changes(b, w, clusters, tree, dir, name, dots, clusters[0], attr, 0);
    let z = v.dir_changed(path).1;
    let made = Dir::Chain(Cluster(clusters[0]));
    assert(size % 32 == 0);
    neat::lemma_neat_dots(v, clusters[0], dir, size);
    lemma_made_held(c, name, dots);
    lemma_made_step(c);
    lemma_finished_order(z, tree.insert(made, tree[dir] + 1));
}

/// What a new directory holds.
proof fn lemma_made_held(c: Step, name: Seq<char>, dots: Seq<u8>)
    requires
        changes(c),
        entries::entry_for(held_in(c.layout, c.a, c.dir), c.layout.fat_type, name) is None,
        laws::has_entry(c.layout, c.b, c.dir, name, entries::ATTR_DIRECTORY, dots),
        0 < dots.len() <= c.layout.cluster_bytes(),
        neat::lists_at(held_in(c.layout, c.b, c.dir), c.s),
        c.new.len() > 0,
    ensures
        c.layout.dir_bytes(c.b, Dir::Chain(Cluster(c.new[0]))) == Ok::<Seq<u8>, Fault>(
            change::padded(dots, c.layout.cluster_bytes()),
        ),
{
    let was = held_in(c.layout, c.a, c.dir);
    let located = c.layout.lookup(c.b, c.dir, name)->Ok_0;
    lemma_looked_up(c.layout, c.b, c.dir, name);
    laws::lemma_slot_first(was, name, 0, entries::end_slot(was, 0));
    if located.slot != c.s {
        assert(slot_stays(c, located.slot));
        assert(entry_in(c.layout, c.a, c.dir, located.slot).name == entries::name_at(
            was,
            located.slot,
        ));
    }
    assert(located.entry.first_cluster == Cluster(c.new[0]));
}

/// Removing a file or an empty directory keeps a volume in order as a whole.
#[verifier::rlimit(30)]
#[verifier::spinoff_prover]
pub proof fn removing_keeps_the_order(v: Volume, path: Seq<char>)
    requires
        orderly(v.layout, v.disk),
        v.removed(path).0 is Ok,
    ensures
        orderly(v.layout, v.removed(path).1.disk),
{
    let layout = v.layout;
    let tree = choose|tree: Map<Dir, nat>| #[trigger] arranged(v.layout, v.disk, tree);
    let (parent, name) = volume::split_path(path);
    let dir = layout.dir_of(v.disk, parent)->Ok_0;
    lemma_way(layout, v.disk, tree, Dir::Root, text::pieces_from(parent, 0, '/'), 0);
    let c = lemma_removed_changes(v, tree, dir, path);
    let entry = entry_in(layout, v.disk, dir, c.s);
    let z = v.path_removed(path).1;
    if entry.kind == EntryKind::Directory {
        let gone = Dir::Chain(entry.first_cluster);
        let contents = held_in(layout, v.disk, gone);
        assert forall|i: int| !#[trigger] neat::lists_at(contents, i) by {
            lemma_lists_nothing(contents, layout.fat_type, entries::end_slot(contents, 0), i);
        }
        lemma_gone_step(c);
        lemma_finished_order(z, tree.remove(gone));
    } else {
        lemma_file_step(c);
        lemma_finished_order(z, tree);
    }
}

/// What lists no entries lists nothing in any slot.
proof fn lemma_lists_nothing(dir: Seq<u8>, fat_type: entries::FatType, n: int, i: int)
    requires
        entries::listed(dir, fat_type, n).len() == 0,
    ensures
        0 <= i < n ==> !entries::is_listed(dir, i),
    decreases n,
{
    if n > 0 && i < n - 1 {
        lemma_lists_nothing(dir, fat_type, n - 1, i);
    }
}

/// Removing an entry, and giving back what it pointed at, is a change of one slot.
#[verifier::rlimit(30)]
#[verifier::spinoff_prover]
proof fn lemma_removed_changes(v: Volume, tree: Map<Dir, nat>, dir: Dir, path: Seq<char>) -> (c:
    Step)
    requires
        arranged(v.layout, v.disk, tree),
        tree.contains_key(dir),
        v.layout.dir_of(v.disk, volume::split_path(path).0) == Ok::<Dir, Fault>(dir),
        v.removed(path).0 is Ok,
    ensures
        ({
            let name = volume::split_path(path).1;
            let z = v.path_removed(path).1;
            let held = held_in(v.layout, v.disk, dir);
            &&& z.layout == v.layout
            &&& c.layout == v.layout && c.a == v.disk && c.b == z.disk && c.tree == tree && c.dir
                == dir
            &&& changes(c)
            &&& entries::entry_for(held, v.layout.fat_type, name) matches Some(located)
                && located.slot == c.s && located.entry == entry_in(v.layout, v.disk, dir, c.s)
            &&& neat::lists_at(held, c.s)
            &&& !neat::lists_at(held_in(c.layout, c.b, c.dir), c.s)
        }),
{
    let layout = v.layout;
    let name = volume::split_path(path).1;
    assert(settled(layout, v.disk, dir));
    let places = layout.dir_sectors(v.disk, dir)->Ok_0;
    let held = held_in(layout, v.disk, dir);
    let image = ImageModel { places, bytes: held };
    assert(v.image_of(dir)->Ok_0 == image);
    lemma_touched(v, tree, dir, name);
    lemma_looked_up(layout, v.disk, dir, name);
    let located = entries::entry_for(held, layout.fat_type, name)->0;
    let s = located.slot;
    let old = located.entry.first_cluster.0;
    let b = v.begun();
    let changed = cuts::without(image, located.first_slot, s);
    let x = b.dir_stored(changed, located.first_slot, s + 1);
    let none = Seq::<u32>::empty();
    others::lemma_deleted_part(held, layout.fat_type, name);
    laws::lemma_dir_sectors(layout, v.disk, dir);
    laws::lemma_held_length(layout, v.disk, places);
    laws::lemma_dir_stored(
        layout,
        b.disk,
        dir,
        places,
        changed.bytes,
        located.first_slot,
        s + 1,
    );
    assert(layout.sectors_of(none) + places =~= places);
    laws::lemma_dir_kept(layout, b.disk, x.disk, dir);
    laws::lemma_freed_after(b, x, none, dir, places, changed.bytes, Seq::empty(), old);
    let z = v.path_removed(path).1;
    assert(z == x.chain_freed(old).1);
    neat::lemma_neat_deleted(held, layout.fat_type, name);
    let c = Step { layout, a: v.disk, b: z.disk, tree, dir, s, new: none };
    assert(held_in(layout, z.disk, dir) == changed.bytes);
    assert forall|i: int| i != s implies #[trigger] slot_stays(c, i) by {
        entries::lemma_end_slot(held, 0);
        if 0 <= i < entries::slot_count(held) {
            assert(neat::lists_at(held, i) == neat::lists_at(changed.bytes, i));
        }
    }
    assert(layout.sectors_of(none) =~= Seq::<int>::empty());
    lemma_places_laid_out(layout, v.disk, z.disk, dir, places, none);
    c
}

/// Whether two paths lead to one place in one directory.
pub open spec fn same_place(v: Volume, path: Seq<char>, other: Seq<char>) -> bool {
    let (parent, name) = volume::split_path(path);
    let (way, last) = volume::split_path(other);
    &&& v.layout.dir_of(v.disk, parent) is Ok
    &&& v.layout.dir_of(v.disk, way) == v.layout.dir_of(v.disk, parent)
    &&& names::same_name(last, name)
}

/// Whether a directory lists nothing.
pub open spec fn lists_none(layout: Layout, disk: Disk, dir: Dir) -> bool {
    forall|i: int| !#[trigger] neat::lists_at(held_in(layout, disk, dir), i)
}

/// Whether what is at a path, if it is a directory, lists nothing.
pub open spec fn nothing_inside(v: Volume, path: Seq<char>) -> bool {
    let (parent, name) = volume::split_path(path);
    v.layout.dir_of(v.disk, parent) matches Ok(dir) ==> (v.layout.lookup(
        v.disk,
        dir,
        name,
    ) matches Ok(located) ==> (located.entry.kind == EntryKind::Directory ==> lists_none(
        v.layout,
        v.disk,
        Dir::Chain(located.entry.first_cluster),
    )))
}

/// A directory that lists nothing leads nowhere else.
proof fn lemma_dead_end(layout: Layout, disk: Disk, dir: Dir, parts: Seq<Seq<char>>)
    requires
        lists_none(layout, disk, dir),
        layout.dir_from(disk, dir, parts) is Ok,
    ensures
        layout.dir_from(disk, dir, parts) == Ok::<Dir, Fault>(dir),
    decreases parts.len(),
{
    if parts.len() > 0 {
        let rest = parts.subrange(1, parts.len() as int);
        if parts[0].len() == 0 {
            lemma_dead_end(layout, disk, dir, rest);
        } else {
            lemma_looked_up(layout, disk, dir, parts[0]);
        }
    }
}

/// A directory in which something is found is beside a change of another place.
proof fn lemma_found_beside(
    layout: Layout,
    disk: Disk,
    tree: Map<Dir, nat>,
    x: Dir,
    part: Seq<char>,
    dir: Dir,
    name: Seq<char>,
)
    requires
        arranged(layout, disk, tree),
        tree.contains_key(x),
        tree.contains_key(dir),
        layout.lookup(disk, x, part) is Ok,
        layout.lookup(disk, dir, name) matches Ok(located) ==> (located.entry.kind
            == EntryKind::Directory ==> lists_none(
            layout,
            disk,
            Dir::Chain(located.entry.first_cluster),
        )),
        x == dir ==> !names::same_name(part, name),
    ensures
        others::beside(
            layout,
            disk,
            x,
            part,
            dir,
            name,
            touched_by(layout, disk, dir, slot_for(layout, disk, dir, name)),
        ),
{
    let s = slot_for(layout, disk, dir, name);
    if x != dir {
        lemma_home(layout, disk, tree, x);
        lemma_looked_up(layout, disk, x, part);
        if home(layout, disk, tree, x) == Holder::Entry(dir, s) {
            // It would be the directory that lists nothing.
            lemma_looked_up(layout, disk, dir, name);
        }
        lemma_beside_home(layout, disk, tree, x, dir, s);
    }
}

/// Whether a directory is the one at a place.
pub open spec fn is_at(layout: Layout, disk: Disk, x: Dir, dir: Dir, name: Seq<char>) -> bool {
    layout.lookup(disk, dir, name) matches Ok(located) && located.entry.kind
        == EntryKind::Directory && x == Dir::Chain(located.entry.first_cluster)
}

/// A way to a directory is beside a change of a place it isn't at.
proof fn lemma_way_beside(
    layout: Layout,
    disk: Disk,
    tree: Map<Dir, nat>,
    x: Dir,
    parts: Seq<Seq<char>>,
    dir: Dir,
    name: Seq<char>,
)
    requires
        arranged(layout, disk, tree),
        tree.contains_key(x),
        tree.contains_key(dir),
        layout.dir_from(disk, x, parts) matches Ok(end) && !is_at(layout, disk, end, dir, name),
        layout.lookup(disk, dir, name) matches Ok(located) ==> (located.entry.kind
            == EntryKind::Directory ==> lists_none(
            layout,
            disk,
            Dir::Chain(located.entry.first_cluster),
        )),
    ensures
        tree.contains_key(layout.dir_from(disk, x, parts)->Ok_0),
        others::way_beside(
            layout,
            disk,
            x,
            parts,
            dir,
            name,
            touched_by(layout, disk, dir, slot_for(layout, disk, dir, name)),
        ),
    decreases parts.len(),
{
    if parts.len() > 0 {
        let rest = parts.subrange(1, parts.len() as int);
        if parts[0].len() == 0 {
            lemma_way_beside(layout, disk, tree, x, rest, dir, name);
        } else {
            let located = layout.lookup(disk, x, parts[0])->Ok_0;
            let next = volume::dir_at(located.entry.first_cluster);
            lemma_looked_up(layout, disk, x, parts[0]);
            assert(there(layout, disk, tree, Holder::Entry(x, located.slot)));
            assert(entry_fine(layout, disk, tree, x, located.slot));
            lemma_way_beside(layout, disk, tree, next, rest, dir, name);
            if x == dir && names::same_name(parts[0], name) {
                paths::lemma_lookup_either(layout, disk, dir, parts[0], name);
                lemma_dead_end(layout, disk, next, rest);
            }
            lemma_found_beside(layout, disk, tree, x, parts[0], dir, name);
        }
    }
}

/// On a volume in order as a whole, whatever is at another path has nothing to do with a change
/// of a file, of an empty directory or of what isn't there yet.
pub proof fn other_paths_are_elsewhere(v: Volume, path: Seq<char>, other: Seq<char>)
    requires
        orderly(v.layout, v.disk),
        nothing_inside(v, path),
        v.layout.entry_of(v.disk, other) is Ok,
        !same_place(v, path, other),
    ensures
        others::elsewhere(v, path, other),
{
    let layout = v.layout;
    let disk = v.disk;
    let tree = choose|tree: Map<Dir, nat>| #[trigger] arranged(layout, disk, tree);
    let (parent, name) = volume::split_path(path);
    let (way, last) = volume::split_path(other);
    if let Ok(dir) = layout.dir_of(disk, parent) {
        let s = slot_for(layout, disk, dir, name);
        let x = layout.dir_of(disk, way)->Ok_0;
        let touched = touched_by(layout, disk, dir, s);
        lemma_way(layout, disk, tree, Dir::Root, text::pieces_from(parent, 0, '/'), 0);
        lemma_touched(v, tree, dir, name);
        lemma_looked_up(layout, disk, x, last);
        lemma_way_beside(
            layout,
            disk,
            tree,
            Dir::Root,
            text::pieces_from(way, 0, '/'),
            dir,
            name,
        );
        lemma_found_beside(layout, disk, tree, x, last, dir, name);
        let located = layout.lookup(disk, x, last)->Ok_0;
        let entry = located.entry;
        if entry.kind == EntryKind::File && entry.size > 0 {
            let h = Holder::Entry(x, located.slot);
            assert(there(layout, disk, tree, h));
            assert(entry_fine(layout, disk, tree, x, located.slot));
            lemma_home(layout, disk, tree, dir);
            if h == Holder::Entry(dir, s) {
                lemma_looked_up(layout, disk, dir, name);
            }
            lemma_untouched(layout, disk, tree, dir, s, h);
        }
    }
}

/// On a volume in order as a whole, what other directories list has nothing to do with a change
/// of a file, of an empty directory or of what isn't there yet.
pub proof fn other_directories_are_elsewhere(v: Volume, path: Seq<char>, other: Seq<char>)
    requires
        orderly(v.layout, v.disk),
        nothing_inside(v, path),
        another_directory(v, path, other),
    ensures
        listings::listed_elsewhere(v, path, other),
{
    let layout = v.layout;
    let disk = v.disk;
    let tree = choose|tree: Map<Dir, nat>| #[trigger] arranged(layout, disk, tree);
    let (parent, name) = volume::split_path(path);
    let dir = layout.dir_of(disk, parent)->Ok_0;
    let x = layout.dir_of(disk, other)->Ok_0;
    let s = slot_for(layout, disk, dir, name);
    lemma_way(layout, disk, tree, Dir::Root, text::pieces_from(parent, 0, '/'), 0);
    lemma_way(layout, disk, tree, Dir::Root, text::pieces_from(other, 0, '/'), 0);
    lemma_touched(v, tree, dir, name);
    lemma_way_beside(
        layout,
        disk,
        tree,
        Dir::Root,
        text::pieces_from(other, 0, '/'),
        dir,
        name,
    );
    lemma_home(layout, disk, tree, x);
    if home(layout, disk, tree, x) == Holder::Entry(dir, s) && layout.lookup(disk, dir, name) is Ok {
        lemma_looked_up(layout, disk, dir, name);
    }
    lemma_beside_home(layout, disk, tree, x, dir, s);
}

/// A write that fails keeps a volume in order as a whole.
pub proof fn failed_writes_keep_the_order(v: Volume, path: Seq<char>, data: Seq<u8>)
    requires
        orderly(v.layout, v.disk),
        v.file_written(path, data).0 is Err,
    ensures
        orderly(v.layout, v.file_written(path, data).1.disk),
{
    let tree = choose|tree: Map<Dir, nat>| #[trigger] arranged(v.layout, v.disk, tree);
    orderly_volumes_are_ready(v, path);
    failures::failed_writes_lose_nothing(v, path, data, path);
    lemma_same_order(v.layout, v.disk, v.file_written(path, data).1.disk, tree);
}

/// Making a directory, where it fails, keeps a volume in order as a whole.
pub proof fn directories_not_made_keep_the_order(v: Volume, path: Seq<char>)
    requires
        orderly(v.layout, v.disk),
        v.dir_created(path).0 is Err,
    ensures
        orderly(v.layout, v.dir_created(path).1.disk),
{
    let tree = choose|tree: Map<Dir, nat>| #[trigger] arranged(v.layout, v.disk, tree);
    orderly_volumes_are_ready(v, path);
    failures::directories_not_made_lose_nothing(v, path, path);
    lemma_same_order(v.layout, v.disk, v.dir_created(path).1.disk, tree);
}

/// Removing, where it fails, keeps a volume in order as a whole.
pub proof fn failed_removals_keep_the_order(v: Volume, path: Seq<char>)
    requires
        orderly(v.layout, v.disk),
        v.removed(path).0 is Err,
    ensures
        orderly(v.layout, v.removed(path).1.disk),
{
    let tree = choose|tree: Map<Dir, nat>| #[trigger] arranged(v.layout, v.disk, tree);
    orderly_volumes_are_ready(v, path);
    failures::failed_removals_lose_nothing(v, path, path);
    lemma_same_order(v.layout, v.disk, v.removed(path).1.disk, tree);
}

/// Whether `other` is a directory on a volume, but neither the one that `path` is in nor one that
/// is at `path`.
pub open spec fn another_directory(v: Volume, path: Seq<char>, other: Seq<char>) -> bool {
    let (parent, name) = volume::split_path(path);
    v.layout.dir_of(v.disk, other) matches Ok(x) && v.layout.dir_of(v.disk, parent) matches Ok(dir)
        && x != dir && !is_at(v.layout, v.disk, x, dir, name)
}

/// Changes follow each other on a volume in order as a whole: a file that is written reads back,
/// whatever is at other paths stays, other directories list what they did, and the volume is in
/// order for the next change.
pub proof fn writes_follow_each_other(
    v: Volume,
    path: Seq<char>,
    data: Seq<u8>,
    other: Seq<char>,
)
    requires
        orderly(v.layout, v.disk),
        laws::plain_name(volume::split_path(path).1),
        v.file_written(path, data).0 is Ok,
    ensures
        orderly(v.layout, v.file_written(path, data).1.disk),
        v.layout.file_of(v.file_written(path, data).1.disk, path) == Ok::<Seq<u8>, Fault>(data),
        !same_place(v, path, other) ==> others::stays(
            v.layout,
            v.disk,
            v.file_written(path, data).1.disk,
            other,
        ),
        another_directory(v, path, other) ==> listings::shown_of(
            v.layout,
            v.file_written(path, data).1.disk,
            other,
        ) == listings::shown_of(v.layout, v.disk, other),
{
    writing_keeps_the_order(v, path, data);
    orderly_volumes_are_in_order(v, path);
    laws::written_files_read_back(v, path, data);
    let (parent, name) = volume::split_path(path);
    let dir = v.layout.dir_of(v.disk, parent)->Ok_0;
    if let Ok(located) = v.layout.lookup(v.disk, dir, name) {
        // A directory would have been refused.
        assert(located.entry.kind == EntryKind::File);
    }
    if another_directory(v, path, other) {
        lemma_shown_there(v.layout, v.disk, other);
        other_directories_are_elsewhere(v, path, other);
        listings::writing_leaves_other_listings(v, path, data, other);
    }
    if v.layout.entry_of(v.disk, other) is Ok && !same_place(v, path, other) {
        other_paths_are_elsewhere(v, path, other);
        others::writing_leaves_the_rest(v, path, data, other);
    }
}

/// Every directory on a volume in order as a whole can be listed.
proof fn lemma_shown_there(layout: Layout, disk: Disk, path: Seq<char>)
    requires
        orderly(layout, disk),
        layout.dir_of(disk, path) is Ok,
    ensures
        listings::shown_of(layout, disk, path) is Ok,
{
    let tree = choose|tree: Map<Dir, nat>| #[trigger] arranged(layout, disk, tree);
    lemma_way(layout, disk, tree, Dir::Root, text::pieces_from(path, 0, '/'), 0);
    assert(settled(layout, disk, layout.dir_of(disk, path)->Ok_0));
}

/// Every file on a volume in order as a whole has a whole chain.
proof fn lemma_all_whole(layout: Layout, disk: Disk, path: Seq<char>)
    requires
        orderly(layout, disk),
    ensures
        failures::whole(layout, disk, path),
{
    let tree = choose|tree: Map<Dir, nat>| #[trigger] arranged(layout, disk, tree);
    let (parent, name) = volume::split_path(path);
    if layout.entry_of(disk, path) is Ok {
        let dir = layout.dir_of(disk, parent)->Ok_0;
        lemma_way(layout, disk, tree, Dir::Root, text::pieces_from(parent, 0, '/'), 0);
        lemma_looked_up(layout, disk, dir, name);
        let located = layout.lookup(disk, dir, name)->Ok_0;
        assert(there(layout, disk, tree, Holder::Entry(dir, located.slot)));
        assert(entry_fine(layout, disk, tree, dir, located.slot));
    }
}

/// Whether between two disks nothing can be told apart: every file, directory and listing that
/// was there is as it was, and as many clusters are free.
pub open spec fn all_as_before(layout: Layout, a: Disk, b: Disk) -> bool {
    &&& forall|other: Seq<char>| #[trigger] others::stays(layout, a, b, other)
    &&& forall|other: Seq<char>| #[trigger]
        listings::shown_of(layout, a, other) is Ok ==> listings::shown_of(layout, b, other)
            == listings::shown_of(layout, a, other)
    &&& layout.free_in(b) == layout.free_in(a)
}

proof fn lemma_all_as_before(layout: Layout, a: Disk, b: Disk)
    requires
        orderly(layout, a),
        failures::nothing_lost(layout, a, b),
    ensures
        all_as_before(layout, a, b),
{
    let none = Seq::<u32>::empty();
    let tree = choose|tree: Map<Dir, nat>| #[trigger] arranged(layout, a, tree);
    assert forall|other: Seq<char>| #[trigger] others::stays(layout, a, b, other) by {
        lemma_all_whole(layout, a, other);
        failures::lemma_lossless(layout, a, b, other);
    }
    assert forall|other: Seq<char>| #[trigger]
        listings::shown_of(layout, a, other) is Ok implies listings::shown_of(layout, b, other)
        == listings::shown_of(layout, a, other) by {
        let parts = text::pieces_from(other, 0, '/');
        cuts::lemma_way_free(layout, a, Dir::Root, parts);
        laws::lemma_way_spared(layout, a, b, Dir::Root, parts, Seq::empty());
        laws::lemma_dir_spared(layout, a, b, layout.dir_of(a, other)->Ok_0, Seq::empty());
    }
    assert forall|c: u32| layout.has_cluster(c) && !none.contains(c) && !none.contains(c) implies (
    #[trigger] layout.fat_entry(b, c) == 0 <==> layout.fat_entry(a, c) == 0) by {}
    counts::lemma_free_moved(layout, a, b, none, none);
}

/// Whether what is at a path is a directory that lists something.
pub open spec fn lists_some(layout: Layout, disk: Disk, entry: entries::EntryModel) -> bool {
    &&& entry.kind == EntryKind::Directory
    &&& layout.dir_bytes(disk, Dir::Chain(entry.first_cluster)) matches Ok(contents)
        && entries::listing(contents, layout.fat_type).len() > 0
}

/// Removing succeeds just if there is something at the path, whatever its name, that is no
/// directory that lists anything.
#[verifier::spinoff_prover]
proof fn lemma_removal_done(v: Volume, path: Seq<char>)
    requires
        orderly(v.layout, v.disk),
        v.layout.dir_of(v.disk, volume::split_path(path).0) is Ok,
    ensures
        ({
            let (parent, name) = volume::split_path(path);
            let dir = v.layout.dir_of(v.disk, parent)->Ok_0;
            match v.layout.lookup(v.disk, dir, name) {
                Err(_) => v.removed(path).0 == Err::<(), Fault>(Fault::NotFound),
                Ok(located) => if lists_some(v.layout, v.disk, located.entry) {
                    v.removed(path).0 == Err::<(), Fault>(Fault::NotEmpty)
                } else {
                    v.removed(path).0 is Ok && nothing_inside(v, path)
                },
            }
        }),
{
    let layout = v.layout;
    let tree = choose|tree: Map<Dir, nat>| #[trigger] arranged(layout, v.disk, tree);
    let (parent, name) = volume::split_path(path);
    let dir = layout.dir_of(v.disk, parent)->Ok_0;
    lemma_way(layout, v.disk, tree, Dir::Root, text::pieces_from(parent, 0, '/'), 0);
    assert(settled(layout, v.disk, dir));
    if let Ok(located) = layout.lookup(v.disk, dir, name) {
        lemma_looked_up(layout, v.disk, dir, name);
        assert(there(layout, v.disk, tree, Holder::Entry(dir, located.slot)));
        assert(entry_fine(layout, v.disk, tree, dir, located.slot));
        if located.entry.kind == EntryKind::Directory {
            let inside = Dir::Chain(located.entry.first_cluster);
            assert(settled(layout, v.disk, inside));
            let contents = held_in(layout, v.disk, inside);
            if !lists_some(layout, v.disk, located.entry) {
                assert forall|i: int| !#[trigger] neat::lists_at(contents, i) by {
                    lemma_lists_nothing(
                        contents,
                        layout.fat_type,
                        entries::end_slot(contents, 0),
                        i,
                    );
                }
            }
        }
        if !lists_some(layout, v.disk, located.entry) {
            let held = held_in(layout, v.disk, dir);
            let places = layout.dir_sectors(v.disk, dir)->Ok_0;
            let image = ImageModel { places, bytes: held };
            let old = located.entry.first_cluster.0;
            let b = v.begun();
            let none = Seq::<u32>::empty();
            let changed = cuts::without(image, located.first_slot, located.slot);
            let x = b.dir_stored(changed, located.first_slot, located.slot + 1);
            lemma_touched(v, tree, dir, name);
            others::lemma_deleted_part(held, layout.fat_type, name);
            laws::lemma_dir_sectors(layout, v.disk, dir);
            laws::lemma_held_length(layout, v.disk, places);
            laws::lemma_dir_stored(
                layout,
                b.disk,
                dir,
                places,
                changed.bytes,
                located.first_slot,
                located.slot + 1,
            );
            assert(layout.sectors_of(none) + places =~= places);
            laws::lemma_dir_kept(layout, b.disk, x.disk, dir);
            laws::lemma_freed_after(b, x, none, dir, places, changed.bytes, Seq::empty(), old);
            assert(v.path_removed(path) == x.chain_freed(old));
        }
    }
}

/// Removing, on a volume in order as a whole, of a path whose directory is there: what isn't
/// there isn't found, and a directory that lists anything isn't empty; both leave everything as
/// it was. All else is removed: it isn't found any more, its clusters are free, its directory
/// lists the rest in its order, whatever is at other paths stays, and other directories list what
/// they did. The volume is in order for the next change.
pub proof fn removals_follow_each_other(v: Volume, path: Seq<char>, other: Seq<char>)
    requires
        orderly(v.layout, v.disk),
        v.layout.dir_of(v.disk, volume::split_path(path).0) is Ok,
    ensures
        orderly(v.layout, v.removed(path).1.disk),
        ({
            let (parent, name) = volume::split_path(path);
            let dir = v.layout.dir_of(v.disk, parent)->Ok_0;
            let (result, after) = v.removed(path);
            match v.layout.lookup(v.disk, dir, name) {
                Err(_) => result == Err::<(), Fault>(Fault::NotFound) && all_as_before(
                    v.layout,
                    v.disk,
                    after.disk,
                ),
                Ok(located) => if lists_some(v.layout, v.disk, located.entry) {
                    result == Err::<(), Fault>(Fault::NotEmpty) && all_as_before(
                        v.layout,
                        v.disk,
                        after.disk,
                    )
                } else {
                    &&& result is Ok
                    &&& v.layout.entry_of(after.disk, path) == Err::<entries::EntryModel, Fault>(
                        Fault::NotFound,
                    )
                    &&& v.layout.free_in(after.disk) == v.layout.free_in(v.disk)
                        + counts::chain_length(v.layout, v.disk, located.entry.first_cluster.0)
                    &&& listings::one_out(
                        listings::shown_of(v.layout, v.disk, parent)->Ok_0,
                        listings::shown_of(v.layout, after.disk, parent)->Ok_0,
                        located.entry,
                    )
                    &&& !same_place(v, path, other) ==> others::stays(
                        v.layout,
                        v.disk,
                        after.disk,
                        other,
                    )
                    &&& another_directory(v, path, other) ==> listings::shown_of(
                        v.layout,
                        after.disk,
                        other,
                    ) == listings::shown_of(v.layout, v.disk, other)
                },
            }
        }),
{
    let (parent, name) = volume::split_path(path);
    let dir = v.layout.dir_of(v.disk, parent)->Ok_0;
    orderly_volumes_are_ready(v, path);
    lemma_removal_done(v, path);
    if v.removed(path).0 is Ok {
        removing_keeps_the_order(v, path);
        laws::removed_paths_are_not_found(v, path);
        counts::removing_gives_back_the_clusters(v, path);
        listings::removing_lists_the_rest(v, path);
        if another_directory(v, path, other) {
            lemma_shown_there(v.layout, v.disk, other);
            other_directories_are_elsewhere(v, path, other);
            listings::removing_leaves_other_listings(v, path, other);
        }
        if v.layout.entry_of(v.disk, other) is Ok && !same_place(v, path, other) {
            other_paths_are_elsewhere(v, path, other);
            others::removing_leaves_the_rest(v, path, other);
        }
    } else {
        failed_removals_keep_the_order(v, path);
        failures::failed_removals_lose_nothing(v, path, other);
        lemma_all_as_before(v.layout, v.disk, v.removed(path).1.disk);
    }
}

/// A volume whose root was never used is in order.
pub proof fn unused_volumes_are_orderly(layout: Layout, disk: Disk)
    requires
        laws::sound(layout, disk),
        layout.dir_bytes(disk, Dir::Root) matches Ok(held) && forall|i: int|
            0 <= i < entries::slot_count(held) ==> #[trigger] cuts::unused(held, i),
    ensures
        orderly(layout, disk),
{
    let tree = map![Dir::Root => 0nat];
    let held = held_in(layout, disk, Dir::Root);
    entries::lemma_end_slot(held, 0);
    assert(entries::end_slot(held, 0) == 0) by {
        if entries::slot_count(held) > 0 {
            assert(cuts::unused(held, 0));
        }
    }
    assert(neat::neat(held));
    assert(arranged(layout, disk, tree));
}

} // verus!
