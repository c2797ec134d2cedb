//! What a power cut leaves: what the disk holds at every moment of a change.

use super::change;
use super::change::{ImageModel, Volume};
use super::entries;
use super::failures;
use super::laws;
use super::names;
use super::others;
use super::stored;
use super::volume;
use super::volume::{Dir, Disk, Fault, Layout};
use crate::bytes;
use crate::text;
use vstd::prelude::*;

verus! {

/// Whether `after` are the moments `before`, and more.
pub open spec fn extends(before: Seq<Disk>, after: Seq<Disk>) -> bool {
    before.len() <= after.len() && after.subrange(0, before.len() as int) == before
}

/// Whether at every moment since `before` nothing was changed from `a` but, of the sectors after
/// the FATs, `places`, and the FAT entries of `clusters`.
pub open spec fn through(
    layout: Layout,
    a: Disk,
    before: Seq<Disk>,
    after: Seq<Disk>,
    places: Seq<int>,
    clusters: Seq<u32>,
) -> bool {
    &&& extends(before, after)
    &&& forall|i: int|
        before.len() <= i < after.len() ==> laws::only(
            layout,
            a,
            #[trigger] after[i],
            places,
            clusters,
        )
}

pub proof fn lemma_extends(a: Seq<Disk>, b: Seq<Disk>, c: Seq<Disk>)
    requires
        extends(a, b),
        extends(b, c),
    ensures
        extends(a, c),
        forall|i: int| 0 <= i < b.len() ==> #[trigger] c[i] == b[i],
{
    assert forall|i: int| 0 <= i < b.len() implies #[trigger] c[i] == b[i] by {
        assert(c.subrange(0, b.len() as int)[i] == c[i]);
    }
    assert(c.subrange(0, a.len() as int) =~= b.subrange(0, a.len() as int));
}

/// A change that is allowed stays allowed where more is.
pub proof fn lemma_only_more(
    layout: Layout,
    a: Disk,
    b: Disk,
    places: Seq<int>,
    clusters: Seq<u32>,
    more_places: Seq<int>,
    more_clusters: Seq<u32>,
)
    requires
        laws::only(layout, a, b, places, clusters),
        forall|t: int| places.contains(t) ==> #[trigger] more_places.contains(t),
        forall|c: u32| clusters.contains(c) ==> #[trigger] more_clusters.contains(c),
    ensures
        laws::only(layout, a, b, more_places, more_clusters),
{
}

/// A change after another, both of which are allowed.
pub proof fn lemma_only_then(
    layout: Layout,
    a: Disk,
    b: Disk,
    c: Disk,
    places: Seq<int>,
    clusters: Seq<u32>,
    more_places: Seq<int>,
    more_clusters: Seq<u32>,
)
    requires
        laws::only(layout, a, b, places, clusters),
        laws::only(layout, b, c, more_places, more_clusters),
        forall|t: int| more_places.contains(t) ==> #[trigger] places.contains(t),
        forall|c: u32| more_clusters.contains(c) ==> #[trigger] clusters.contains(c),
    ensures
        laws::only(layout, a, c, places, clusters),
{
    assert forall|t: int| laws::fat_end(layout) <= t <= 0xFFFF_FFFF && !places.contains(t) implies #[trigger] layout.sector(c, t)
        == layout.sector(a, t) by {
        assert(layout.sector(b, t) == layout.sector(a, t));
    }
    assert forall|o: u32| layout.has_cluster(o) && !clusters.contains(o) implies #[trigger] layout.fat_entry(
        c,
        o,
    ) == layout.fat_entry(a, o) by {
        assert(layout.fat_entry(b, o) == layout.fat_entry(a, o));
    }
}

/// Moments of a change after another.
pub proof fn lemma_through_then(
    layout: Layout,
    a: Disk,
    b: Disk,
    p0: Seq<Disk>,
    p1: Seq<Disk>,
    p2: Seq<Disk>,
    places: Seq<int>,
    clusters: Seq<u32>,
    more_places: Seq<int>,
    more_clusters: Seq<u32>,
)
    requires
        through(layout, a, p0, p1, places, clusters),
        laws::only(layout, a, b, places, clusters),
        through(layout, b, p1, p2, more_places, more_clusters),
        forall|t: int| more_places.contains(t) ==> #[trigger] places.contains(t),
        forall|c: u32| more_clusters.contains(c) ==> #[trigger] clusters.contains(c),
    ensures
        through(layout, a, p0, p2, places, clusters),
{
    lemma_extends(p0, p1, p2);
    assert forall|i: int| p0.len() <= i < p2.len() implies laws::only(
        layout,
        a,
        #[trigger] p2[i],
        places,
        clusters,
    ) by {
        if i < p1.len() {
            assert(p2[i] == p1[i]);
            assert(laws::only(layout, a, p1[i], places, clusters));
        } else {
            lemma_only_then(layout, a, b, p2[i], places, clusters, more_places, more_clusters);
        }
    }
}

pub proof fn lemma_no_moments(
    layout: Layout,
    a: Disk,
    p: Seq<Disk>,
    places: Seq<int>,
    clusters: Seq<u32>,
)
    ensures
        through(layout, a, p, p, places, clusters),
{
    assert(p.subrange(0, p.len() as int) =~= p);
}

/// One moment more.
pub proof fn lemma_pushed(
    layout: Layout,
    a: Disk,
    before: Seq<Disk>,
    past: Seq<Disk>,
    m: Disk,
    places: Seq<int>,
    clusters: Seq<u32>,
)
    requires
        through(layout, a, before, past, places, clusters),
        laws::only(layout, a, m, places, clusters),
    ensures
        through(layout, a, before, past.push(m), places, clusters),
{
    let after = past.push(m);
    assert(after.subrange(0, before.len() as int) =~= past.subrange(0, before.len() as int));
    assert forall|i: int| before.len() <= i < after.len() implies laws::only(
        layout,
        a,
        #[trigger] after[i],
        places,
        clusters,
    ) by {
        if i < past.len() {
            assert(after[i] == past[i]);
        }
    }
}

/// The clusters of the chain that starts at `first`, if there is one (none for 0).
pub open spec fn chain_at(layout: Layout, disk: Disk, first: u32) -> Seq<u32> {
    if first == 0 {
        Seq::empty()
    } else {
        match layout.chain(disk, first) {
            Ok(clusters) => clusters,
            Err(_) => Seq::empty(),
        }
    }
}

/// While the copies of a FAT sector are written, the FAT says what it will, from the first copy
/// on.
pub proof fn lemma_copies_only(layout: Layout, disk: Disk, s: int, block: Seq<u8>, k: int)
    requires
        laws::sound(layout, disk),
        layout.fat_start <= s < layout.fat_start + layout.fat_size,
        block.len() == 512,
        1 <= k <= layout.fat_count,
    ensures
        laws::sound(layout, layout.with_copies(disk, s, block, layout.fat_count as int)),
        laws::only(
            layout,
            layout.with_copies(disk, s, block, layout.fat_count as int),
            layout.with_copies(disk, s, block, k),
            Seq::empty(),
            Seq::empty(),
        ),
{
    let n = layout.fat_count as int;
    let fs = layout.fat_size as int;
    let all = layout.with_copies(disk, s, block, n);
    let some = layout.with_copies(disk, s, block, k);
    layout.lemma_copies(disk, s, block, n);
    layout.lemma_copies(disk, s, block, k);
    laws::lemma_fat_end(layout);
    assert forall|t: int| 0 <= t <= 0xFFFF_FFFF implies (#[trigger] layout.sector(all, t)).len()
        == 512 by {
        assert(layout.sector(disk, t).len() == 512);
        assert(all[layout.block(t)] == if layout.is_copy(s, n, layout.block(t)) {
            block
        } else {
            disk[layout.block(t)]
        });
    }
    assert forall|t: int| 0 <= t <= 0xFFFF_FFFF implies (#[trigger] layout.sector(some, t)).len()
        == 512 by {
        assert(layout.sector(disk, t).len() == 512);
        assert(some[layout.block(t)] == if layout.is_copy(s, k, layout.block(t)) {
            block
        } else {
            disk[layout.block(t)]
        });
    }
    assert forall|t: int| laws::fat_end(layout) <= t <= 0xFFFF_FFFF implies #[trigger] layout.sector(
        some,
        t,
    ) == layout.sector(all, t) by {
        let l = layout.block(t);
        lemma_copies_within(layout, s, k, l);
        if layout.is_copy(s, n, l) {
            let j = choose|j: int| 0 <= j < n && #[trigger] layout.block(s + j * fs) == l;
            assert(0 <= j * fs <= (n - 1) * fs) by (nonlinear_arith)
                requires
                    0 <= j <= n - 1,
                    fs >= 0,
            ;
            assert((n - 1) * fs + fs == n * fs) by (nonlinear_arith);
            assert(false);
        }
        assert(all[l] == disk[l] && some[l] == disk[l]);
    }
    assert forall|o: u32| layout.has_cluster(o) implies #[trigger] layout.fat_entry(some, o)
        == layout.fat_entry(all, o) by {
        laws::lemma_entry_place(layout, disk, o);
        let so = layout.fat_sector(o);
        let l = layout.block(so);
        assert(0 * fs == 0);
        lemma_copies_within(layout, s, k, l);
        assert(all[l] == if layout.is_copy(s, n, l) {
            block
        } else {
            disk[l]
        });
        assert(some[l] == if layout.is_copy(s, k, l) {
            block
        } else {
            disk[l]
        });
        if so == s {
            assert(layout.block(s + 0 * fs) == l);
            assert(layout.is_copy(s, k, l));
        } else {
            super::upkeep::lemma_not_copy(layout, s, so, 0);
        }
    }
}

proof fn lemma_copies_within(layout: Layout, s: int, k: int, l: u64)
    requires
        k <= layout.fat_count,
    ensures
        layout.is_copy(s, k, l) ==> layout.is_copy(s, layout.fat_count as int, l),
{
    if layout.is_copy(s, k, l) {
        let j = choose|j: int|
            0 <= j < k && #[trigger] layout.block(s + j * layout.fat_size) == l;
        assert(layout.block(s + j * layout.fat_size) == l);
    }
}

/// Chaining clusters changes their FAT entries only.
pub proof fn lemma_links_only(layout: Layout, disk: Disk, clusters: Seq<u32>, n: int)
    requires
        laws::sound(layout, disk),
        super::write::all_there(layout, clusters),
        0 <= n <= clusters.len(),
    ensures
        laws::only(
            layout,
            disk,
            layout.with_links(disk, clusters, n),
            Seq::empty(),
            clusters,
        ),
    decreases n,
{
    if n > 0 {
        lemma_links_only(layout, disk, clusters, n - 1);
        let before = layout.with_links(disk, clusters, n - 1);
        let c = clusters[n - 1];
        assert(layout.has_cluster(c));
        if n < clusters.len() {
            assert(layout.has_cluster(clusters[n]));
        }
        laws::lemma_with_entry(layout, before, c, laws::next_of(layout, clusters, n - 1));
        laws::lemma_fat_end(layout);
        assert(clusters.contains(c));
        let after = layout.with_links(disk, clusters, n);
        assert forall|o: u32| layout.has_cluster(o) && !clusters.contains(o) implies #[trigger] layout.fat_entry(
            after,
            o,
        ) == layout.fat_entry(disk, o) by {
            assert(layout.fat_entry(before, o) == layout.fat_entry(disk, o));
        }
        assert forall|t: int| laws::fat_end(layout) <= t <= 0xFFFF_FFFF implies #[trigger] layout.sector(
            after,
            t,
        ) == layout.sector(disk, t) by {
            assert(layout.sector(before, t) == layout.sector(disk, t));
        }
    }
}

/// Freeing clusters changes their FAT entries only.
pub proof fn lemma_freed_only(layout: Layout, disk: Disk, clusters: Seq<u32>, n: int)
    requires
        laws::sound(layout, disk),
        super::write::all_there(layout, clusters),
        0 <= n <= clusters.len(),
    ensures
        laws::only(
            layout,
            disk,
            layout.with_freed(disk, clusters, n),
            Seq::empty(),
            clusters,
        ),
{
    laws::lemma_with_freed(layout, disk, clusters, n);
    laws::lemma_fat_end(layout);
}

/// Writing data changes the sectors it is written to only.
pub proof fn lemma_data_only(layout: Layout, disk: Disk, sectors: Seq<int>, data: Seq<u8>)
    requires
        laws::sound(layout, disk),
        laws::past_fats(layout, sectors),
        data.len() >= 512 * sectors.len(),
    ensures
        laws::only(layout, disk, layout.with_data(disk, sectors, data), sectors, Seq::empty()),
{
    laws::lemma_with_data(layout, disk, sectors, data);
    laws::lemma_fat_end(layout);
}

/// Moments in which only consecutive sectors after the FATs changed.
pub proof fn lemma_blocks_through(
    layout: Layout,
    disk: Disk,
    before: Seq<Disk>,
    after: Seq<Disk>,
    first: int,
    count: nat,
)
    requires
        laws::sound(layout, disk),
        laws::fat_end(layout) <= first,
        first + count <= 0x1_0000_0000,
        crate::block::went_through(before, after, disk, layout.block(first), count),
    ensures
        through(
            layout,
            disk,
            before,
            after,
            volume::sector_range(first, count as int),
            Seq::empty(),
        ),
{
    let places = volume::sector_range(first, count as int);
    laws::lemma_fat_end(layout);
    assert forall|i: int| before.len() <= i < after.len() implies laws::only(
        layout,
        disk,
        #[trigger] after[i],
        places,
        Seq::empty(),
    ) by {
        let m = after[i];
        assert forall|t: int| 0 <= t <= 0xFFFF_FFFF implies (#[trigger] layout.sector(m, t)).len()
            == 512 by {
            assert(layout.sector(disk, t).len() == 512);
            assert(after[i][layout.block(t)] == disk[layout.block(t)]
                || after[i][layout.block(t)].len() == 512);
        }
        assert forall|t: int| 0 <= t <= 0xFFFF_FFFF && !places.contains(t) implies #[trigger] layout.sector(m, t)
            == layout.sector(disk, t) by {
            if first <= t < first + count {
                assert(places[t - first] == t);
            }
            assert(m[layout.block(t)] == disk[layout.block(t)]);
        }
        assert forall|o: u32| layout.has_cluster(o) implies #[trigger] layout.fat_entry(m, o)
            == layout.fat_entry(disk, o) by {
            laws::lemma_entry_place(layout, disk, o);
            let so = layout.fat_sector(o);
            assert(!places.contains(so)) by {
                if places.contains(so) {
                    let k = choose|k: int| 0 <= k < places.len() && places[k] == so;
                    assert(places[k] == first + k);
                }
            }
            assert(layout.sector(m, so) == layout.sector(disk, so));
        }
    }
}

/// Moments in which a run of clusters is written, after those before it.
pub proof fn lemma_run_through(
    layout: Layout,
    disk: Disk,
    here: Disk,
    p0: Seq<Disk>,
    p1: Seq<Disk>,
    p2: Seq<Disk>,
    clusters: Seq<u32>,
    i: int,
    run: int,
    all: Seq<u8>,
)
    requires
        laws::sound(layout, disk),
        super::write::all_there(layout, clusters),
        0 <= i,
        1 <= run <= 256,
        i + run <= clusters.len(),
        forall|k: int| 0 <= k < run ==> #[trigger] clusters[i + k] == clusters[i] + k,
        all.len() == clusters.len() * layout.cluster_bytes(),
        here == layout.with_data(disk, layout.sectors_of(clusters.subrange(0, i)), all),
        through(layout, disk, p0, p1, layout.sectors_of(clusters), Seq::empty()),
        crate::block::went_through(
            p1,
            p2,
            here,
            layout.block(layout.first_sector(clusters[i])),
            (run * layout.sectors_per_cluster) as nat,
        ),
    ensures
        through(layout, disk, p0, p2, layout.sectors_of(clusters), Seq::empty()),
{
    let everywhere = layout.sectors_of(clusters);
    let part = clusters.subrange(0, i);
    let done = layout.sectors_of(part);
    let first = layout.first_sector(clusters[i]);
    let count = (run * layout.sectors_per_cluster) as nat;
    let range = volume::sector_range(first, count as int);
    super::write::lemma_run_place(layout, clusters, i, run);
    assert forall|k: int| 0 <= k < part.len() implies layout.has_cluster(#[trigger] part[k]) by {
        assert(part[k] == clusters[k]);
    }
    laws::lemma_past_fats(layout, part);
    super::write::lemma_sectors_length(layout, part);
    assert(all.len() >= 512 * done.len()) by (nonlinear_arith)
        requires
            all.len() == clusters.len() * (layout.sectors_per_cluster * 512),
            done.len() == i * layout.sectors_per_cluster,
            i <= clusters.len(),
            layout.sectors_per_cluster >= 0,
    ;
    lemma_data_only(layout, disk, done, all);
    assert(layout.has_cluster(clusters[i]));
    layout.lemma_cluster_place(clusters[i]);
    laws::lemma_fat_end(layout);
    lemma_blocks_through(layout, here, p1, p2, first, count);
    // What is written is part of what is to be.
    let so_far = clusters.subrange(0, i + run);
    let rest = clusters.subrange(i + run, clusters.len() as int);
    assert(clusters =~= so_far + rest);
    layout.lemma_sectors_concat(so_far, rest);
    assert forall|t: int| range.contains(t) || done.contains(t) implies #[trigger] everywhere.contains(
        t,
    ) by {
        laws::lemma_concat_contains(done, range, t);
        laws::lemma_concat_contains(done + range, layout.sectors_of(rest), t);
    }
    lemma_only_more(layout, disk, here, done, Seq::empty(), everywhere, Seq::empty());
    lemma_through_then(
        layout,
        disk,
        here,
        p0,
        p1,
        p2,
        everywhere,
        Seq::empty(),
        range,
        Seq::empty(),
    );
}

/// Moments in which data is put in clusters, and then they are chained.
pub proof fn lemma_put_through(
    layout: Layout,
    disk: Disk,
    written: Disk,
    p0: Seq<Disk>,
    p1: Seq<Disk>,
    p2: Seq<Disk>,
    clusters: Seq<u32>,
    all: Seq<u8>,
)
    requires
        laws::sound(layout, disk),
        super::write::all_there(layout, clusters),
        all.len() == clusters.len() * layout.cluster_bytes(),
        written == layout.with_data(disk, layout.sectors_of(clusters), all),
        through(layout, disk, p0, p1, layout.sectors_of(clusters), Seq::empty()),
        laws::sound(layout, written) ==> through(
            layout,
            written,
            p1,
            p2,
            Seq::empty(),
            clusters,
        ),
    ensures
        through(layout, disk, p0, p2, layout.sectors_of(clusters), clusters),
{
    let sectors = layout.sectors_of(clusters);
    let none = Seq::<u32>::empty();
    laws::lemma_past_fats(layout, clusters);
    super::write::lemma_sectors_length(layout, clusters);
    assert(all.len() >= 512 * sectors.len()) by (nonlinear_arith)
        requires
            all.len() == clusters.len() * (layout.sectors_per_cluster * 512),
            sectors.len() == clusters.len() * layout.sectors_per_cluster,
    ;
    lemma_data_only(layout, disk, sectors, all);
    assert forall|i: int| p0.len() <= i < p1.len() implies laws::only(
        layout,
        disk,
        #[trigger] p1[i],
        sectors,
        clusters,
    ) by {
        lemma_only_more(layout, disk, p1[i], sectors, none, sectors, clusters);
    }
    lemma_only_more(layout, disk, written, sectors, none, sectors, clusters);
    lemma_through_then(
        layout,
        disk,
        written,
        p0,
        p1,
        p2,
        sectors,
        clusters,
        Seq::empty(),
        clusters,
    );
}

/// The disk once `n` of the sectors that hold the slots from `from` to `to` of a directory are
/// written back.
pub open spec fn partly_stored(v: Volume, image: ImageModel, from: int, to: int, n: int) -> Disk {
    let first = from / 16;
    let end = (to + 15) / 16;
    v.layout.with_data(
        v.disk,
        image.places.subrange(first, first + n),
        image.bytes.subrange(512 * first, 512 * end),
    )
}

/// The first `n` moments in which slots of a directory are written back.
pub open spec fn stored_moments(v: Volume, image: ImageModel, from: int, to: int, n: nat) -> Seq<
    Disk,
> {
    Seq::new(n, |i: int| partly_stored(v, image, from, to, i + 1))
}

/// The moments in which slots of a directory are written back.
pub open spec fn storing_moments(v: Volume, image: ImageModel, from: int, to: int) -> Seq<Disk> {
    stored_moments(v, image, from, to, ((to + 15) / 16 - from / 16) as nat)
}

/// Putting data in clusters and chaining them changes them only.
pub proof fn lemma_put_only(layout: Layout, disk: Disk, clusters: Seq<u32>, all: Seq<u8>)
    requires
        laws::sound(layout, disk),
        super::write::all_there(layout, clusters),
        all.len() == clusters.len() * layout.cluster_bytes(),
    ensures
        laws::only(
            layout,
            disk,
            layout.with_links(
                layout.with_data(disk, layout.sectors_of(clusters), all),
                clusters,
                clusters.len() as int,
            ),
            layout.sectors_of(clusters),
            clusters,
        ),
{
    let sectors = layout.sectors_of(clusters);
    let none = Seq::<u32>::empty();
    laws::lemma_past_fats(layout, clusters);
    super::write::lemma_sectors_length(layout, clusters);
    assert(all.len() >= 512 * sectors.len()) by (nonlinear_arith)
        requires
            all.len() == clusters.len() * (layout.sectors_per_cluster * 512),
            sectors.len() == clusters.len() * layout.sectors_per_cluster,
    ;
    let written = layout.with_data(disk, sectors, all);
    lemma_data_only(layout, disk, sectors, all);
    lemma_links_only(layout, written, clusters, clusters.len() as int);
    lemma_only_more(layout, disk, written, sectors, none, sectors, clusters);
    lemma_only_then(
        layout,
        disk,
        written,
        layout.with_links(written, clusters, clusters.len() as int),
        sectors,
        clusters,
        Seq::empty(),
        clusters,
    );
}

/// The clusters that a directory takes to grow.
pub open spec fn growth(w: Volume, image: ImageModel, needed: int) -> Seq<u32> {
    let end = entries::end_slot(image.bytes, 0);
    let free_at_end = entries::slot_count(image.bytes) - end;
    w.allocated(w.clusters_for(32 * (needed - free_at_end)))->0
}

/// Whether the moments since `before` are those in which a directory grew: its new clusters were
/// written and chained, and then it was as it is on `grown`.
pub open spec fn grew(
    w: Volume,
    image: ImageModel,
    needed: int,
    grown: Disk,
    before: Seq<Disk>,
    after: Seq<Disk>,
) -> bool {
    &&& extends(before, after)
    &&& forall|i: int|
        before.len() <= i < after.len() ==> growing(w, image, needed, grown, #[trigger] after[i])
}

/// Whether a disk is one on which a directory grows, or has grown.
pub open spec fn growing(
    w: Volume,
    image: ImageModel,
    needed: int,
    grown: Disk,
    m: Disk,
) -> bool {
    let new = growth(w, image, needed);
    ||| laws::only(w.layout, w.disk, m, w.layout.sectors_of(new), new)
    ||| laws::only(w.layout, grown, m, Seq::empty(), Seq::empty())
}

pub proof fn lemma_grew(
    w: Volume,
    image: ImageModel,
    needed: int,
    chained: Disk,
    grown: Disk,
    p0: Seq<Disk>,
    p1: Seq<Disk>,
    p2: Seq<Disk>,
    p3: Seq<Disk>,
    new: Seq<u32>,
)
    requires
        new == growth(w, image, needed),
        through(w.layout, w.disk, p0, p1, w.layout.sectors_of(new), new),
        laws::only(w.layout, w.disk, chained, w.layout.sectors_of(new), new),
        through(w.layout, chained, p1, p2, Seq::empty(), Seq::empty()),
        through(w.layout, grown, p2, p3, Seq::empty(), Seq::empty()),
    ensures
        grew(w, image, needed, grown, p0, p3),
{
    lemma_through_then(
        w.layout,
        w.disk,
        chained,
        p0,
        p1,
        p2,
        w.layout.sectors_of(new),
        new,
        Seq::empty(),
        Seq::empty(),
    );
    lemma_extends(p0, p2, p3);
    assert forall|i: int| p0.len() <= i < p3.len() implies growing(
        w,
        image,
        needed,
        grown,
        #[trigger] p3[i],
    ) by {
        if i < p2.len() {
            assert(p3[i] == p2[i]);
        }
    }
}

/// Whether a disk is one on which entries for `name` are being added to a directory, or have
/// been.
pub open spec fn adding(
    w: Volume,
    dir: Dir,
    image: ImageModel,
    name: Seq<char>,
    attr: u8,
    cluster: u32,
    size: u32,
    m: Disk,
) -> bool {
    match stored::new_entries(
        name,
        stored::taken_names(image.bytes),
        attr,
        cluster,
        size,
        w.stamp,
    ) {
        None => false,
        Some(new) => {
            let count = new.len() as int / 32;
            match stored::run_from(image.bytes, 0, count) {
                Some(at) => storing_moments(
                    w,
                    with_entries(image, at, new),
                    at,
                    at + count,
                ).contains(m),
                None => match w.dir_grown(dir, image, count) {
                    (Ok((at, more)), grown) => {
                        ||| growing(w, image, count, grown.disk, m)
                        ||| storing_moments(
                            grown,
                            with_entries(more, at, new),
                            at,
                            at + count,
                        ).contains(m)
                    },
                    (Err(_), _) => false,
                },
            }
        },
    }
}

/// A directory with `new` in its slots from `at` on.
pub open spec fn with_entries(image: ImageModel, at: int, new: Seq<u8>) -> ImageModel {
    ImageModel { bytes: bytes::splice(image.bytes, 32 * at, new), ..image }
}

/// Whether the moments since `before` are those in which entries for `name` were added to a
/// directory.
pub open spec fn added_through(
    w: Volume,
    dir: Dir,
    image: ImageModel,
    name: Seq<char>,
    attr: u8,
    cluster: u32,
    size: u32,
    before: Seq<Disk>,
    after: Seq<Disk>,
) -> bool {
    &&& extends(before, after)
    &&& forall|i: int|
        before.len() <= i < after.len() ==> adding(
            w,
            dir,
            image,
            name,
            attr,
            cluster,
            size,
            #[trigger] after[i],
        )
}

pub proof fn lemma_added_through(
    w: Volume,
    dir: Dir,
    image: ImageModel,
    name: Seq<char>,
    attr: u8,
    cluster: u32,
    size: u32,
    grown: Volume,
    changed: ImageModel,
    at: int,
    p0: Seq<Disk>,
    p1: Seq<Disk>,
    p2: Seq<Disk>,
)
    requires
        ({
            let made = stored::new_entries(
                name,
                stored::taken_names(image.bytes),
                attr,
                cluster,
                size,
                w.stamp,
            );
            let new = made->0;
            let count = new.len() as int / 32;
            &&& made is Some
            &&& p2 == p1 + storing_moments(grown, changed, at, at + count)
            &&& match stored::run_from(image.bytes, 0, count) {
                Some(found) => at == found && grown == w && changed == with_entries(
                    image,
                    at,
                    new,
                ) && p1 == p0,
                None => {
                    &&& w.dir_grown(dir, image, count).0 matches Ok((place, more))
                    &&& place == at
                    &&& w.dir_grown(dir, image, count).1 == grown
                    &&& changed == with_entries(more, at, new)
                    &&& grew(w, image, count, grown.disk, p0, p1)
                },
            }
        }),
    ensures
        added_through(w, dir, image, name, attr, cluster, size, p0, p2),
{
    let new = stored::new_entries(
        name,
        stored::taken_names(image.bytes),
        attr,
        cluster,
        size,
        w.stamp,
    )->0;
    let count = new.len() as int / 32;
    let steps = storing_moments(grown, changed, at, at + count);
    assert(p1.subrange(0, p1.len() as int) =~= p1);
    assert(p2.subrange(0, p1.len() as int) =~= p1);
    if stored::run_from(image.bytes, 0, count) is Some {
        assert(extends(p0, p1));
    }
    lemma_extends(p0, p1, p2);
    assert forall|i: int| p0.len() <= i < p2.len() implies adding(
        w,
        dir,
        image,
        name,
        attr,
        cluster,
        size,
        #[trigger] p2[i],
    ) by {
        if i < p1.len() {
            assert(p2[i] == p1[i]);
        } else {
            assert(p2[i] == steps[i - p1.len()]);
            assert(steps.contains(p2[i]));
        }
    }
}

pub proof fn lemma_no_disks(p: Seq<Disk>)
    ensures
        extends(p, p),
{
    assert(p.subrange(0, p.len() as int) =~= p);
}

/// Whether a disk is one on which `data` is being put in the file `name` of a directory, or has
/// been.
pub open spec fn putting(
    v: Volume,
    dir: Dir,
    image: ImageModel,
    name: Seq<char>,
    data: Seq<u8>,
    m: Disk,
) -> bool {
    let b = v.begun();
    let layout = v.layout;
    let new = laws::clusters_taken(b, data);
    let existing = entries::entry_for(image.bytes, layout.fat_type, name);
    let (first, written) = b.chain_written(data);
    &&& first is Ok
    &&& existing matches Some(located) ==> located.entry.kind == entries::EntryKind::File
    &&& {
        // The new data is put in free clusters, which are chained.
        ||| laws::only(layout, v.disk, m, layout.sectors_of(new), new)
        // An entry points at them, and what it pointed at is freed.
        ||| match existing {
            Some(located) => {
                let x = written.dir_stored(
                    pointed(image, located.slot, first->Ok_0, data.len() as u32, v.stamp),
                    located.slot,
                    located.slot + 1,
                );
                ||| m == x.disk
                ||| laws::only(
                    layout,
                    x.disk,
                    m,
                    Seq::empty(),
                    chain_at(layout, x.disk, located.entry.first_cluster.0),
                )
            },
            None => {
                ||| adding(
                    written,
                    dir,
                    image,
                    name,
                    entries::ATTR_ARCHIVE,
                    first->Ok_0,
                    data.len() as u32,
                    m,
                )
                // Without room for an entry, they are given back.
                ||| laws::only(
                    layout,
                    written.disk,
                    m,
                    Seq::empty(),
                    chain_at(layout, written.disk, first->Ok_0),
                )
            },
        }
    }
}

/// A directory whose entry in slot `slot` points at other data.
pub open spec fn pointed(
    image: ImageModel,
    slot: int,
    cluster: u32,
    size: u32,
    stamp: entries::Stamp,
) -> ImageModel {
    ImageModel {
        bytes: bytes::splice(image.bytes, 32 * slot + 20, stored::pointer(cluster, size, stamp)),
        ..image
    }
}

/// Whether the moments since `before` are those in which `data` was put in a directory's file.
pub open spec fn put_through(
    v: Volume,
    dir: Dir,
    image: ImageModel,
    name: Seq<char>,
    data: Seq<u8>,
    before: Seq<Disk>,
    after: Seq<Disk>,
) -> bool {
    &&& extends(before, after)
    &&& forall|i: int|
        before.len() <= i < after.len() ==> putting(v, dir, image, name, data, #[trigger] after[i])
}

pub proof fn lemma_replaced_through(
    v: Volume,
    dir: Dir,
    image: ImageModel,
    name: Seq<char>,
    data: Seq<u8>,
    p0: Seq<Disk>,
    p1: Seq<Disk>,
    p2: Seq<Disk>,
    p3: Seq<Disk>,
)
    requires
        laws::sound(v.layout, v.disk),
        entries::entry_for(image.bytes, v.layout.fat_type, name) matches Some(located) && {
            let b = v.begun();
            let new = laws::clusters_taken(b, data);
            let (first, written) = b.chain_written(data);
            let changed = pointed(
                image,
                located.slot,
                first->Ok_0,
                data.len() as u32,
                v.stamp,
            );
            let x = written.dir_stored(changed, located.slot, located.slot + 1);
            &&& first is Ok
            &&& located.entry.kind == entries::EntryKind::File
            &&& 0 <= located.slot
            &&& through(v.layout, v.disk, p0, p1, v.layout.sectors_of(new), new)
            &&& p2 == p1 + storing_moments(written, changed, located.slot, located.slot + 1)
            &&& laws::sound(v.layout, x.disk) ==> through(
                v.layout,
                x.disk,
                p2,
                p3,
                Seq::empty(),
                chain_at(v.layout, x.disk, located.entry.first_cluster.0),
            )
            &&& image.bytes.len() == 512 * image.places.len()
            &&& 32 * located.slot + 32 <= image.bytes.len()
            &&& laws::past_fats(v.layout, image.places)
        },
    ensures
        put_through(v, dir, image, name, data, p0, p3),
{
    let layout = v.layout;
    let b = v.begun();
    let new = laws::clusters_taken(b, data);
    let (first, written) = b.chain_written(data);
    let located = entries::entry_for(image.bytes, layout.fat_type, name)->0;
    let slot = located.slot;
    let changed = pointed(image, slot, first->Ok_0, data.len() as u32, v.stamp);
    let x = written.dir_stored(changed, slot, slot + 1);
    let steps = storing_moments(written, changed, slot, slot + 1);
    laws::lemma_chain_written(b, data);
    // The entry is in one sector.
    assert((slot + 1 + 15) / 16 - slot / 16 == 1);
    let sector = slot / 16;
    assert(steps =~= seq![x.disk]);
    let part = image.places.subrange(sector, sector + 1);
    assert forall|i: int| 0 <= i < part.len() implies laws::fat_end(layout) <= #[trigger] part[i]
        <= 0xFFFF_FFFF by {
        assert(part[i] == image.places[sector + i]);
    }
    lemma_data_only(
        layout,
        written.disk,
        part,
        changed.bytes.subrange(512 * sector, 512 * (sector + 1)),
    );
    assert(p2.subrange(0, p1.len() as int) =~= p1);
    lemma_extends(p0, p1, p2);
    lemma_extends(p0, p2, p3);
    assert forall|i: int| p0.len() <= i < p3.len() implies putting(
        v,
        dir,
        image,
        name,
        data,
        #[trigger] p3[i],
    ) by {
        if i < p1.len() {
            assert(p3[i] == p2[i]);
            assert(p2[i] == p1[i]);
        } else if i < p2.len() {
            assert(p3[i] == p2[i]);
            assert(p2[i] == steps[i - p1.len()]);
        }
    }
}

pub proof fn lemma_new_through(
    v: Volume,
    dir: Dir,
    image: ImageModel,
    name: Seq<char>,
    data: Seq<u8>,
    added: bool,
    p0: Seq<Disk>,
    p1: Seq<Disk>,
    p2: Seq<Disk>,
)
    requires
        laws::sound(v.layout, v.disk),
        entries::entry_for(image.bytes, v.layout.fat_type, name) is None,
        ({
            let b = v.begun();
            let new = laws::clusters_taken(b, data);
            let (first, written) = b.chain_written(data);
            &&& first is Ok
            &&& through(v.layout, v.disk, p0, p1, v.layout.sectors_of(new), new)
            &&& laws::sound(v.layout, written.disk) ==> if added {
                added_through(
                    written,
                    dir,
                    image,
                    name,
                    entries::ATTR_ARCHIVE,
                    first->Ok_0,
                    data.len() as u32,
                    p1,
                    p2,
                )
            } else {
                through(
                    v.layout,
                    written.disk,
                    p1,
                    p2,
                    Seq::empty(),
                    chain_at(v.layout, written.disk, first->Ok_0),
                )
            }
        }),
    ensures
        put_through(v, dir, image, name, data, p0, p2),
{
    laws::lemma_chain_written(v.begun(), data);
    lemma_extends(p0, p1, p2);
    assert forall|i: int| p0.len() <= i < p2.len() implies putting(
        v,
        dir,
        image,
        name,
        data,
        #[trigger] p2[i],
    ) by {
        if i < p1.len() {
            assert(p2[i] == p1[i]);
        }
    }
}

/// Whether a disk is one on which `data` is being put in the file at a path, or has been; FSInfo
/// not yet up to date.
pub open spec fn changing(v: Volume, path: Seq<char>, data: Seq<u8>, m: Disk) -> bool {
    let (parent, name) = volume::split_path(path);
    &&& data.len() <= u32::MAX
    &&& names::storable(name)
    &&& v.layout.dir_of(v.disk, parent) matches Ok(dir)
    &&& v.image_of(dir) matches Ok(image)
    &&& putting(v, dir, image, name, data, m)
}

/// Whether the moments since `before` are those in which `data` was put in the file at a path.
pub open spec fn changed_through(
    v: Volume,
    path: Seq<char>,
    data: Seq<u8>,
    before: Seq<Disk>,
    after: Seq<Disk>,
) -> bool {
    &&& extends(before, after)
    &&& forall|i: int|
        before.len() <= i < after.len() ==> changing(v, path, data, #[trigger] after[i])
}

/// Whether a disk is one on which `data` is being written to the file at a path, or has been.
pub open spec fn writing(v: Volume, path: Seq<char>, data: Seq<u8>, m: Disk) -> bool {
    changing(v, path, data, m) || m == v.file_written(path, data).1.disk
}

/// Whether the moments since `before` are those in which `data` was written to the file at a
/// path.
pub open spec fn written_through(
    v: Volume,
    path: Seq<char>,
    data: Seq<u8>,
    before: Seq<Disk>,
    after: Seq<Disk>,
) -> bool {
    &&& extends(before, after)
    &&& forall|i: int|
        before.len() <= i < after.len() ==> writing(v, path, data, #[trigger] after[i])
}

pub proof fn lemma_written_through(
    v: Volume,
    path: Seq<char>,
    data: Seq<u8>,
    p0: Seq<Disk>,
    p1: Seq<Disk>,
    p2: Seq<Disk>,
)
    requires
        changed_through(v, path, data, p0, p1),
        p2 == p1 || p2 == p1.push(v.file_written(path, data).1.disk),
    ensures
        written_through(v, path, data, p0, p2),
{
    assert(p2.subrange(0, p1.len() as int) =~= p1);
    lemma_extends(p0, p1, p2);
    assert forall|i: int| p0.len() <= i < p2.len() implies writing(
        v,
        path,
        data,
        #[trigger] p2[i],
    ) by {
        if i < p1.len() {
            assert(p2[i] == p1[i]);
        }
    }
}

/// Whether a disk is one on which an empty directory is being made at a path, or has been; FSInfo
/// not yet up to date.
pub open spec fn beginning(v: Volume, path: Seq<char>, m: Disk) -> bool {
    let (parent, name) = volume::split_path(path);
    &&& names::storable(name)
    &&& v.layout.dir_of(v.disk, parent) matches Ok(dir)
    &&& v.image_of(dir) matches Ok(image)
    &&& entries::entry_for(image.bytes, v.layout.fat_type, name) is None
    &&& v.begun().allocated(1) matches Some(clusters)
    &&& {
        let written = v.begun().with_chain(clusters, v.dots(clusters[0], dir));
        // What it holds is put in a free cluster.
        ||| laws::only(v.layout, v.disk, m, v.layout.sectors_of(clusters), clusters)
        // An entry points at it.
        ||| adding(
            written,
            dir,
            image,
            name,
            entries::ATTR_DIRECTORY,
            clusters[0],
            0,
            m,
        )
        // Without room for an entry, it is given back.
        ||| laws::only(
            v.layout,
            written.disk,
            m,
            Seq::empty(),
            chain_at(v.layout, written.disk, clusters[0]),
        )
    }
}

/// Whether the moments since `before` are those in which an empty directory was made at a path,
/// but for FSInfo.
pub open spec fn made_so_far(
    v: Volume,
    path: Seq<char>,
    before: Seq<Disk>,
    after: Seq<Disk>,
) -> bool {
    &&& extends(before, after)
    &&& forall|i: int|
        before.len() <= i < after.len() ==> beginning(v, path, #[trigger] after[i])
}

/// Whether a disk is one on which an empty directory is being made at a path, or has been.
pub open spec fn making(v: Volume, path: Seq<char>, m: Disk) -> bool {
    beginning(v, path, m) || m == v.dir_created(path).1.disk
}

/// Whether the moments since `before` are those in which an empty directory was made at a path.
pub open spec fn made_through(
    v: Volume,
    path: Seq<char>,
    before: Seq<Disk>,
    after: Seq<Disk>,
) -> bool {
    &&& extends(before, after)
    &&& forall|i: int| before.len() <= i < after.len() ==> making(v, path, #[trigger] after[i])
}

pub proof fn lemma_making(
    v: Volume,
    path: Seq<char>,
    dir: Dir,
    image: ImageModel,
    clusters: Seq<u32>,
    added: bool,
    p0: Seq<Disk>,
    p1: Seq<Disk>,
    p2: Seq<Disk>,
)
    requires
        laws::sound(v.layout, v.disk),
        v.layout.dir_of(v.disk, volume::split_path(path).0) == Ok::<Dir, Fault>(dir),
        v.image_of(dir) == Ok::<ImageModel, Fault>(image),
        names::storable(volume::split_path(path).1),
        entries::entry_for(
            image.bytes,
            v.layout.fat_type,
            volume::split_path(path).1,
        ) is None,
        v.begun().allocated(1) == Some(clusters),
        through(v.layout, v.disk, p0, p1, v.layout.sectors_of(clusters), clusters),
        ({
            let written = v.begun().with_chain(clusters, v.dots(clusters[0], dir));
            laws::sound(v.layout, written.disk) ==> if added {
                added_through(
                    written,
                    dir,
                    image,
                    volume::split_path(path).1,
                    entries::ATTR_DIRECTORY,
                    clusters[0],
                    0,
                    p1,
                    p2,
                )
            } else {
                through(
                    v.layout,
                    written.disk,
                    p1,
                    p2,
                    Seq::empty(),
                    chain_at(v.layout, written.disk, clusters[0]),
                )
            }
        }),
    ensures
        made_so_far(v, path, p0, p2),
{
    let b = v.begun();
    let dots = v.dots(clusters[0], dir);
    let size = v.layout.cluster_bytes();
    assert(dots.len() == 64);
    laws::lemma_allocated(b, 1);
    assert(1 * size == size) by (nonlinear_arith);
    assert(size >= 512);
    laws::lemma_with_chain(b, clusters, dots);
    lemma_extends(p0, p1, p2);
    assert forall|i: int| p0.len() <= i < p2.len() implies beginning(v, path, #[trigger] p2[i]) by {
        if i < p1.len() {
            assert(p2[i] == p1[i]);
        }
    }
}

pub proof fn lemma_made_through(
    v: Volume,
    path: Seq<char>,
    p0: Seq<Disk>,
    p1: Seq<Disk>,
    p2: Seq<Disk>,
)
    requires
        made_so_far(v, path, p0, p1),
        p2 == p1 || p2 == p1.push(v.dir_created(path).1.disk),
    ensures
        made_through(v, path, p0, p2),
{
    assert(p2.subrange(0, p1.len() as int) =~= p1);
    lemma_extends(p0, p1, p2);
    assert forall|i: int| p0.len() <= i < p2.len() implies making(v, path, #[trigger] p2[i]) by {
        if i < p1.len() {
            assert(p2[i] == p1[i]);
        }
    }
}

/// A directory with the entries of a name marked deleted.
pub open spec fn without(image: ImageModel, first_slot: int, slot: int) -> ImageModel {
    ImageModel { bytes: change::with_deleted(image.bytes, first_slot, slot + 1), ..image }
}

/// Whether a disk is one on which what is at a path is being removed, or has been; FSInfo not
/// yet up to date.
pub open spec fn ending(v: Volume, path: Seq<char>, m: Disk) -> bool {
    let (parent, name) = volume::split_path(path);
    &&& v.layout.dir_of(v.disk, parent) matches Ok(dir)
    &&& v.image_of(dir) matches Ok(image)
    &&& entries::entry_for(image.bytes, v.layout.fat_type, name) matches Some(located)
    &&& {
        let b = v.begun();
        let changed = without(image, located.first_slot, located.slot);
        let x = b.dir_stored(changed, located.first_slot, located.slot + 1);
        // The entry is marked deleted, and then what it pointed at is freed.
        ||| storing_moments(b, changed, located.first_slot, located.slot + 1).contains(m)
        ||| laws::only(
            v.layout,
            x.disk,
            m,
            Seq::empty(),
            chain_at(v.layout, x.disk, located.entry.first_cluster.0),
        )
    }
}

/// Whether the moments since `before` are those in which what is at a path was removed, but for
/// FSInfo.
pub open spec fn removed_so_far(
    v: Volume,
    path: Seq<char>,
    before: Seq<Disk>,
    after: Seq<Disk>,
) -> bool {
    &&& extends(before, after)
    &&& forall|i: int| before.len() <= i < after.len() ==> ending(v, path, #[trigger] after[i])
}

/// Whether a disk is one on which what is at a path is being removed, or has been.
pub open spec fn removing(v: Volume, path: Seq<char>, m: Disk) -> bool {
    ending(v, path, m) || m == v.removed(path).1.disk
}

/// Whether the moments since `before` are those in which what is at a path was removed.
pub open spec fn removed_through(
    v: Volume,
    path: Seq<char>,
    before: Seq<Disk>,
    after: Seq<Disk>,
) -> bool {
    &&& extends(before, after)
    &&& forall|i: int| before.len() <= i < after.len() ==> removing(v, path, #[trigger] after[i])
}

pub proof fn lemma_removing(
    v: Volume,
    path: Seq<char>,
    dir: Dir,
    image: ImageModel,
    p0: Seq<Disk>,
    p1: Seq<Disk>,
    p2: Seq<Disk>,
)
    requires
        laws::sound(v.layout, v.disk),
        v.layout.dir_of(v.disk, volume::split_path(path).0) == Ok::<Dir, Fault>(dir),
        v.image_of(dir) == Ok::<ImageModel, Fault>(image),
        ({
            let name = volume::split_path(path).1;
            let found = entries::entry_for(image.bytes, v.layout.fat_type, name);
            let located = found->0;
            let b = v.begun();
            let changed = without(image, located.first_slot, located.slot);
            let x = b.dir_stored(changed, located.first_slot, located.slot + 1);
            &&& found is Some
            &&& p1 == p0 + storing_moments(b, changed, located.first_slot, located.slot + 1)
            &&& laws::sound(v.layout, x.disk) ==> through(
                v.layout,
                x.disk,
                p1,
                p2,
                Seq::empty(),
                chain_at(v.layout, x.disk, located.entry.first_cluster.0),
            )
        }),
    ensures
        removed_so_far(v, path, p0, p2),
{
    let layout = v.layout;
    let name = volume::split_path(path).1;
    let located = entries::entry_for(image.bytes, layout.fat_type, name)->0;
    let b = v.begun();
    let changed = without(image, located.first_slot, located.slot);
    let steps = storing_moments(b, changed, located.first_slot, located.slot + 1);
    others::lemma_deleted_part(image.bytes, layout.fat_type, name);
    laws::lemma_dir_sectors(layout, v.disk, dir);
    laws::lemma_held_length(layout, v.disk, image.places);
    laws::lemma_dir_stored(
        layout,
        b.disk,
        dir,
        image.places,
        changed.bytes,
        located.first_slot,
        located.slot + 1,
    );
    assert(p1.subrange(0, p0.len() as int) =~= p0);
    lemma_extends(p0, p1, p2);
    assert forall|i: int| p0.len() <= i < p2.len() implies ending(v, path, #[trigger] p2[i]) by {
        if i < p1.len() {
            assert(p2[i] == p1[i]);
            assert(p1[i] == steps[i - p0.len()]);
            assert(steps.contains(p2[i]));
        }
    }
}

pub proof fn lemma_removed_through(
    v: Volume,
    path: Seq<char>,
    p0: Seq<Disk>,
    p1: Seq<Disk>,
    p2: Seq<Disk>,
)
    requires
        removed_so_far(v, path, p0, p1),
        p2 == p1 || p2 == p1.push(v.removed(path).1.disk),
    ensures
        removed_through(v, path, p0, p2),
{
    assert(p2.subrange(0, p1.len() as int) =~= p1);
    lemma_extends(p0, p1, p2);
    assert forall|i: int| p0.len() <= i < p2.len() implies removing(v, path, #[trigger] p2[i]) by {
        if i < p1.len() {
            assert(p2[i] == p1[i]);
        }
    }
}

// What a cut leaves.
/// Whether between two disks what is at a path stayed as it was, be it there or not.
pub open spec fn as_before(layout: Layout, a: Disk, b: Disk, path: Seq<char>) -> bool {
    &&& layout.entry_of(b, path) == layout.entry_of(a, path)
    &&& layout.file_of(a, path) is Ok ==> layout.file_of(b, path) == layout.file_of(a, path)
}

/// Nothing is in the way of a change that touches no sector.
pub proof fn lemma_way_free(layout: Layout, disk: Disk, dir: Dir, parts: Seq<Seq<char>>)
    ensures
        laws::way_clear(layout, disk, dir, parts, Seq::empty()),
    decreases parts.len(),
{
    if parts.len() > 0 {
        let rest = parts.subrange(1, parts.len() as int);
        if parts[0].len() == 0 {
            lemma_way_free(layout, disk, dir, rest);
        } else if let Ok(located) = layout.lookup(disk, dir, parts[0]) {
            lemma_way_free(layout, disk, volume::dir_at(located.entry.first_cluster), rest);
        }
    }
}

/// What is at a path stays while only free clusters change, if its chain is whole.
pub proof fn lemma_untouched(layout: Layout, a: Disk, b: Disk, path: Seq<char>)
    requires
        laws::sound(layout, a),
        laws::spared(layout, a, b, Seq::empty()),
        layout.dir_of(a, volume::split_path(path).0) is Ok,
        layout.dir_bytes(a, layout.dir_of(a, volume::split_path(path).0)->Ok_0) is Ok,
        layout.entry_of(a, path) matches Ok(entry) ==> (entry.kind == entries::EntryKind::File
            && entry.size > 0 && entry.first_cluster.0 != 0 ==> layout.chain(
            a,
            entry.first_cluster.0,
        ) is Ok),
    ensures
        as_before(layout, a, b, path),
{
    let none = Seq::<int>::empty();
    let (parent, name) = volume::split_path(path);
    let dir = layout.dir_of(a, parent)->Ok_0;
    let parts = text::pieces_from(parent, 0, '/');
    lemma_way_free(layout, a, Dir::Root, parts);
    laws::lemma_way_spared(layout, a, b, Dir::Root, parts, none);
    laws::lemma_dir_spared(layout, a, b, dir, none);
    if let Ok(entry) = layout.entry_of(a, path) {
        if entry.kind == entries::EntryKind::File && entry.size > 0 && entry.first_cluster.0 != 0 {
            others::lemma_chain_spared(
                layout,
                a,
                b,
                entry.first_cluster.0,
                Some(entry.size as int),
                none,
            );
        }
    }
}

/// A change of free clusters only spares everything.
pub proof fn lemma_free_spared(layout: Layout, a: Disk, b: Disk, clusters: Seq<u32>)
    requires
        laws::sound(layout, a),
        super::write::all_there(layout, clusters),
        forall|k: int|
            0 <= k < clusters.len() ==> layout.fat_entry(a, #[trigger] clusters[k]) == 0,
        laws::only(layout, a, b, layout.sectors_of(clusters), clusters),
    ensures
        laws::spared(layout, a, b, Seq::empty()),
{
    let sectors = layout.sectors_of(clusters);
    assert forall|k: int| 0 <= k < sectors.len() implies laws::in_free(
        layout,
        a,
        #[trigger] sectors[k],
    ) by {
        assert(sectors.contains(sectors[k]));
        laws::lemma_free_sectors(layout, a, clusters, sectors[k]);
    }
    laws::lemma_spared(layout, a, b, sectors, clusters, Seq::empty());
}

/// What a cut leaves: the file at `path` is as it was or holds `data`, and what is elsewhere is
/// as it was.
pub open spec fn safe(
    v: Volume,
    path: Seq<char>,
    data: Seq<u8>,
    other: Seq<char>,
    m: Disk,
) -> bool {
    &&& as_before(v.layout, v.disk, m, path) || v.layout.file_of(m, path) == Ok::<Seq<u8>, Fault>(
        data,
    )
    &&& others::stays(v.layout, v.disk, m, other)
}

/// A cut while only free clusters have changed.
proof fn lemma_cut_early(v: Volume, path: Seq<char>, other: Seq<char>, m: Disk)
    requires
        laws::ready(v, path),
        v.layout.dir_of(v.disk, volume::split_path(path).0) matches Ok(dir) && v.image_of(
            dir,
        ) is Ok,
        others::elsewhere(v, path, other),
        laws::spared(v.layout, v.disk, m, Seq::empty()),
    ensures
        as_before(v.layout, v.disk, m, path),
        others::stays(v.layout, v.disk, m, other),
{
    lemma_untouched(v.layout, v.disk, m, path);
    let (way, _) = volume::split_path(other);
    if v.layout.entry_of(v.disk, other) is Ok {
        lemma_untouched(v.layout, v.disk, m, other);
    }
}

/// A cut once an entry points at the new data, whatever has been freed of the old.
#[verifier::spinoff_prover]
proof fn lemma_cut_replaced(v: Volume, path: Seq<char>, data: Seq<u8>, other: Seq<char>, m: Disk)
    requires
        laws::in_order(v, path),
        others::elsewhere(v, path, other),
        data.len() <= u32::MAX,
        v.begun().chain_written(data).0 is Ok,
        ({
            let (parent, name) = volume::split_path(path);
            &&& v.layout.dir_of(v.disk, parent) matches Ok(dir)
            &&& v.image_of(dir) matches Ok(image)
            &&& entries::entry_for(image.bytes, v.layout.fat_type, name) matches Some(located)
            &&& located.entry.kind == entries::EntryKind::File
            &&& {
                let (first, written) = v.begun().chain_written(data);
                let x = written.dir_stored(
                    pointed(image, located.slot, first->Ok_0, data.len() as u32, v.stamp),
                    located.slot,
                    located.slot + 1,
                );
                m == x.disk || laws::only(
                    v.layout,
                    x.disk,
                    m,
                    Seq::empty(),
                    chain_at(v.layout, x.disk, located.entry.first_cluster.0),
                )
            }
        }),
    ensures
        safe(v, path, data, other, m),
{
    let layout = v.layout;
    let d = v.disk;
    let (parent, name) = volume::split_path(path);
    let dir = layout.dir_of(d, parent)->Ok_0;
    let image = v.image_of(dir)->Ok_0;
    let places = image.places;
    let held = image.bytes;
    let located = entries::entry_for(held, layout.fat_type, name)->0;
    let old = located.entry.first_cluster.0;
    let b = v.begun();
    let (chained, w) = b.chain_written(data);
    let first = chained->Ok_0;
    let new = laws::clusters_taken(b, data);
    let size = data.len() as u32;
    let changed = pointed(image, located.slot, first, size, v.stamp);
    let x = w.dir_stored(changed, located.slot, located.slot + 1);
    laws::lemma_chain_written(b, data);
    laws::lemma_repointed_disk(b, w, new, dir, places, name, data, first);
    if m == x.disk {
        lemma_only_same(layout, x.disk, chain_at(layout, x.disk, old));
    }
    laws::lemma_freed_partly(b, x, new, dir, places, changed.bytes, data, old, m);
    let touched = places + laws::sectors_from(layout, d, old);
    laws::lemma_way_spared(
        layout,
        d,
        m,
        Dir::Root,
        text::pieces_from(parent, 0, '/'),
        touched,
    );
    others::lemma_repointed_others(
        held,
        layout.fat_type,
        name,
        stored::pointer(first, size, v.stamp),
    );
    others::lemma_path_beside(layout, d, m, other, dir, name, touched);
}

pub proof fn lemma_only_same(layout: Layout, a: Disk, clusters: Seq<u32>)
    requires
        laws::sound(layout, a),
    ensures
        laws::only(layout, a, a, Seq::empty(), clusters),
{
}

// Entries that are being added.
/// Whether a slot was never used.
pub open spec fn unused(dir: Seq<u8>, i: int) -> bool {
    dir[32 * i] == entries::ENTRY_END
}

/// Whether a directory has no slot in use after its end marker.
pub open spec fn tidy(dir: Seq<u8>) -> bool {
    forall|i: int|
        entries::end_slot(dir, 0) <= i < entries::slot_count(dir) ==> #[trigger] unused(dir, i)
}

/// A directory of which the first `n` bytes are those of `after`, and the rest as it was.
pub open spec fn partly(dir: Seq<u8>, after: Seq<u8>, n: int) -> Seq<u8> {
    Seq::new(
        dir.len(),
        |i: int|
            if i < n {
                after[i]
            } else {
                dir[i]
            },
    )
}

/// While the pieces of a long name are stored, but not yet the entry they belong to, a directory
/// says what it said.
#[verifier::spinoff_prover]
proof fn lemma_pieces_say_nothing(
    dir: Seq<u8>,
    after: Seq<u8>,
    fat_type: entries::FatType,
    name: Seq<char>,
    at: int,
    pieces: int,
    units: Seq<u16>,
    checksum: u8,
    own: Seq<u8>,
    stop: int,
)
    requires
        0 <= pieces <= 20,
        units.len() >= 13 * pieces,
        0 <= at <= entries::end_slot(dir, 0),
        at + pieces < entries::slot_count(dir),
        after.len() == dir.len(),
        forall|i: int|
            0 <= i < dir.len() && !(32 * at <= i < 32 * (at + pieces + 1)) ==> #[trigger] after[i]
                == dir[i],
        stored::fits_at(dir, at, pieces + 1),
        laws::placed(after, at, pieces, units, checksum, own),
        at < stop <= at + pieces,
        tidy(dir),
    ensures
        others::still_says(dir, partly(dir, after, 32 * stop), fat_type, name),
        entries::entry_for(dir, fat_type, name) is None ==> entries::entry_for(
            partly(dir, after, 32 * stop),
            fat_type,
            name,
        ) is None,
{
    let now = partly(dir, after, 32 * stop);
    let to = at + pieces + 1;
    let count = entries::slot_count(dir);
    let end = entries::end_slot(dir, 0);
    entries::lemma_end_slot(dir, 0);
    assert forall|j: int| 0 <= j < count && !(at <= j < to) implies #[trigger] entries::slot_at(
        dir,
        j,
    ) == entries::slot_at(now, j) by {
        assert(entries::slot_at(dir, j) =~= entries::slot_at(now, j));
    }
    assert forall|j: int| at <= j < to implies !entries::is_own(#[trigger] entries::slot_at(now, j))
        && (j < end ==> now[32 * j] != entries::ENTRY_END && !entries::is_own(
        entries::slot_at(dir, j),
    )) by {
        lemma_slot_says_nothing(dir, after, at, pieces, units, checksum, own, stop, j);
    }
    if to < end {
        assert(stored::is_free(dir, to - 1));
        assert(entries::slot_at(dir, to - 1) =~= entries::slot_at(now, to - 1));
        assert(entries::slot_at(dir, to - 1)[0] == dir[32 * (to - 1)]);
    }
    assert forall|j: int| at <= j < to && j < end implies !#[trigger] laws::lists(dir, name, j)
        && !laws::lists(now, name, j) && now[32 * j] != entries::ENTRY_END by {
        assert(!entries::is_own(entries::slot_at(now, j)));
    }
    others::lemma_other_found(dir, now, fat_type, name, at, to);
    if entries::entry_for(dir, fat_type, name) is None {
        laws::lemma_slot_first(dir, name, 0, end);
        let last = entries::end_slot(now, 0);
        entries::lemma_end_slot(now, 0);
        laws::lemma_slot_first(now, name, 0, last);
        if let Some(i) = entries::slot_of(now, name, 0, last) {
            if at <= i < to {
                assert(!entries::is_own(entries::slot_at(now, i)));
            } else if i >= end {
                assert(unused(dir, i));
                assert(entries::slot_at(dir, i) == entries::slot_at(now, i));
                assert(entries::slot_at(dir, i)[0] == dir[32 * i]);
            } else {
                others::lemma_name_kept(dir, now, at, to, i);
                assert(!(entries::is_listed(dir, i) && names_alike(dir, i, name)));
            }
            assert(false);
        }
    }
}

/// Whether the name in a slot is `name`, but for case.
spec fn names_alike(dir: Seq<u8>, i: int, name: Seq<char>) -> bool {
    names::same_name(entries::name_at(dir, i), name)
}

proof fn lemma_slot_says_nothing(
    dir: Seq<u8>,
    after: Seq<u8>,
    at: int,
    pieces: int,
    units: Seq<u16>,
    checksum: u8,
    own: Seq<u8>,
    stop: int,
    j: int,
)
    requires
        0 <= pieces <= 20,
        units.len() >= 13 * pieces,
        0 <= at,
        at + pieces < entries::slot_count(dir),
        after.len() == dir.len(),
        stored::fits_at(dir, at, pieces + 1),
        laws::placed(after, at, pieces, units, checksum, own),
        at < stop <= at + pieces,
        tidy(dir),
        at <= j < at + pieces + 1,
    ensures
        !entries::is_own(entries::slot_at(partly(dir, after, 32 * stop), j)),
        j < entries::end_slot(dir, 0) ==> partly(dir, after, 32 * stop)[32 * j]
            != entries::ENTRY_END && !entries::is_own(entries::slot_at(dir, j)),
{
    let now = partly(dir, after, 32 * stop);
    let slot = entries::slot_at(now, j);
    assert(slot[0] == now[32 * j]);
    assert(stored::is_free(dir, j));
    assert(entries::slot_at(dir, j)[0] == dir[32 * j]);
    entries::lemma_end_slot(dir, 0);
    if j < stop {
        let k = j - at;
        assert(slot =~= entries::slot_at(after, at + k));
        assert(entries::slot_at(after, at + k) == stored::long_entry(
            units,
            pieces - k,
            pieces - k == pieces,
            checksum,
        ));
        laws::lemma_long_entry(units, pieces - k, pieces - k == pieces, checksum);
    } else {
        assert(slot =~= entries::slot_at(dir, j));
        if j >= entries::end_slot(dir, 0) {
            assert(unused(dir, j));
        }
    }
}

/// Data in sectors is what is written to them, whatever comes after it.
proof fn lemma_data_start(layout: Layout, disk: Disk, sectors: Seq<int>, a: Seq<u8>, b: Seq<u8>)
    requires
        a.len() >= 512 * sectors.len(),
        b.len() >= 512 * sectors.len(),
        forall|i: int| 0 <= i < 512 * sectors.len() ==> a[i] == b[i],
    ensures
        layout.with_data(disk, sectors, a) == layout.with_data(disk, sectors, b),
    decreases sectors.len(),
{
    if sectors.len() > 0 {
        let n = sectors.len() as int;
        lemma_data_start(layout, disk, sectors.drop_last(), a, b);
        assert(a.subrange(512 * (n - 1), 512 * n) =~= b.subrange(512 * (n - 1), 512 * n));
    }
}

/// What a directory holds while slots of it are written back.
#[verifier::spinoff_prover]
proof fn lemma_partly_stored(
    u: Volume,
    dir: Dir,
    places: Seq<int>,
    after: Seq<u8>,
    from: int,
    to: int,
    n: int,
)
    requires
        laws::sound(u.layout, u.disk),
        u.layout.dir_sectors(u.disk, dir) == Ok::<Seq<int>, Fault>(places),
        after.len() == 512 * places.len(),
        0 <= from < to,
        32 * to <= after.len(),
        forall|i: int|
            0 <= i < after.len() && !(32 * from <= i < 32 * to) ==> after[i] == u.layout.bytes_at(
                u.disk,
                places,
            )[i],
        0 < n < (to + 15) / 16 - from / 16,
    ensures
        ({
            let m = partly_stored(
                u,
                (ImageModel { places, bytes: after }),
                from,
                to,
                n,
            );
            let held = u.layout.bytes_at(u.disk, places);
            let stop = 16 * (from / 16 + n);
            &&& from < stop < to
            &&& laws::only(u.layout, u.disk, m, places, Seq::empty())
            &&& u.layout.dir_bytes(m, dir) == Ok::<Seq<u8>, Fault>(partly(held, after, 32 * stop))
        }),
{
    let layout = u.layout;
    let held = layout.bytes_at(u.disk, places);
    let first = from / 16;
    let end = (to + 15) / 16;
    let stop = 16 * (first + n);
    let now = partly(held, after, 32 * stop);
    laws::lemma_dir_sectors(layout, u.disk, dir);
    laws::lemma_held_length(layout, u.disk, places);
    laws::lemma_dir_stored(layout, u.disk, dir, places, now, from, stop);
    assert((stop + 15) / 16 == first + n);
    let part = places.subrange(first, first + n);
    let x = after.subrange(512 * first, 512 * end);
    let y = now.subrange(512 * first, 512 * (first + n));
    assert forall|i: int| 0 <= i < 512 * part.len() implies x[i] == y[i] by {
        assert(x[i] == after[512 * first + i]);
        assert(y[i] == now[512 * first + i]);
    }
    lemma_data_start(layout, u.disk, part, x, y);
}

/// Whether a directory still says what it said of every name but `name`, of which it says
/// nothing.
pub open spec fn not_yet(
    layout: Layout,
    m: Disk,
    dir: Dir,
    held: Seq<u8>,
    name: Seq<char>,
) -> bool {
    &&& laws::says_the_rest(layout, m, dir, held, name)
    &&& entries::entry_for(layout.dir_bytes(m, dir)->Ok_0, layout.fat_type, name) is None
}

/// A cut while the entries for a new name are stored.
#[verifier::spinoff_prover]
proof fn lemma_cut_entries(
    u: Volume,
    dir: Dir,
    places: Seq<int>,
    name: Seq<char>,
    taken: Seq<Seq<u8>>,
    attr: u8,
    first: u32,
    size: u32,
    at: int,
    m: Disk,
)
    requires
        laws::sound(u.layout, u.disk),
        laws::plain_name(name),
        attr == entries::ATTR_ARCHIVE || attr == entries::ATTR_DIRECTORY,
        u.layout.dir_sectors(u.disk, dir) == Ok::<Seq<int>, Fault>(places),
        tidy(u.layout.bytes_at(u.disk, places)),
        entries::entry_for(
            u.layout.bytes_at(u.disk, places),
            u.layout.fat_type,
            name,
        ) is None,
        stored::new_entries(name, taken, attr, first, size, u.stamp) is Some,
        0 <= at <= entries::end_slot(u.layout.bytes_at(u.disk, places), 0),
        ({
            let held = u.layout.bytes_at(u.disk, places);
            let image = ImageModel { places, bytes: held };
            let new = stored::new_entries(name, taken, attr, first, size, u.stamp)->0;
            let count = new.len() as int / 32;
            &&& stored::fits_at(held, at, count)
            &&& storing_moments(u, with_entries(image, at, new), at, at + count).contains(m)
        }),
    ensures
        ({
            let held = u.layout.bytes_at(u.disk, places);
            let image = ImageModel { places, bytes: held };
            let new = stored::new_entries(name, taken, attr, first, size, u.stamp)->0;
            ||| m == u.entries_put(image, at, new).disk
            ||| laws::only(u.layout, u.disk, m, places, Seq::empty()) && not_yet(
                u.layout,
                m,
                dir,
                held,
                name,
            )
        }),
{
    let layout = u.layout;
    let held = layout.bytes_at(u.disk, places);
    let image = ImageModel { places, bytes: held };
    let new = stored::new_entries(name, taken, attr, first, size, u.stamp)->0;
    let count = new.len() as int / 32;
    let put = with_entries(image, at, new);
    let after = put.bytes;
    let total = (at + count + 15) / 16 - at / 16;
    let steps = storing_moments(u, put, at, at + count);
    let i = choose|i: int| 0 <= i < steps.len() && steps[i] == m;
    let n = i + 1;
    if n < total {
        let made = laws::made(name, taken);
        let pieces = made.pieces;
        let own = stored::own_entry(made.short, made.case, attr, first, size, u.stamp);
        let units = stored::stored_units(name);
        let checksum = names::short_checksum(made.short);
        laws::lemma_made(name, taken, attr, first, size, u.stamp);
        assert(new.len() == 32 * (pieces + 1));
        laws::lemma_placed(held, at, pieces, units, checksum, own);
        laws::lemma_dir_sectors(layout, u.disk, dir);
        laws::lemma_held_length(layout, u.disk, places);
        lemma_partly_stored(u, dir, places, after, at, at + count, n);
        let stop = 16 * (at / 16 + n);
        let now = partly(held, after, 32 * stop);
        assert forall|other: Seq<char>|
            !names::same_name(other, name) implies #[trigger] others::still_says(
            held,
            now,
            layout.fat_type,
            other,
        ) by {
            lemma_pieces_say_nothing(
                held,
                after,
                layout.fat_type,
                other,
                at,
                pieces,
                units,
                checksum,
                own,
                stop,
            );
        }
        lemma_pieces_say_nothing(
            held,
            after,
            layout.fat_type,
            name,
            at,
            pieces,
            units,
            checksum,
            own,
            stop,
        );
    }
}

/// A directory that grew has no slot in use after its end marker if it had none.
pub proof fn lemma_grown_tidy(dir: Seq<u8>, zeros: nat)
    requires
        dir.len() % 512 == 0,
        zeros % 32 == 0,
        32 * entries::end_slot(dir, 0) < dir.len() + zeros,
        tidy(dir),
    ensures
        tidy(dir + bytes::zeros(zeros)),
{
    let more = dir + bytes::zeros(zeros);
    let end = entries::end_slot(dir, 0);
    laws::lemma_grown_end(dir, zeros);
    assert(0 <= end) by {
        entries::lemma_end_slot(dir, 0);
    }
    assert forall|i: int| end <= i < entries::slot_count(more) implies #[trigger] unused(more, i) by {
        lemma_grown_unused(dir, zeros, i);
    }
}

proof fn lemma_grown_unused(dir: Seq<u8>, zeros: nat, i: int)
    requires
        dir.len() % 512 == 0,
        zeros % 32 == 0,
        0 <= i < entries::slot_count(dir + bytes::zeros(zeros)),
        i < entries::slot_count(dir) ==> unused(dir, i),
    ensures
        unused(dir + bytes::zeros(zeros), i),
{
    let more = dir + bytes::zeros(zeros);
    if i < entries::slot_count(dir) {
        assert(more[32 * i] == dir[32 * i]);
    } else {
        assert(more[32 * i] == bytes::zeros(zeros)[32 * i - dir.len()]);
    }
}

/// A cut after a directory grew for a new name spares all but the directory.
#[verifier::spinoff_prover]
proof fn lemma_cut_grown_spared(
    v: Volume,
    w: Volume,
    new: Seq<u32>,
    data: Seq<u8>,
    dir: Dir,
    places: Seq<int>,
    needed: int,
    m: Disk,
)
    requires
        laws::sound(v.layout, v.disk),
        laws::put_in(v, w, new, data),
        v.layout.dir_sectors(v.disk, dir) == Ok::<Seq<int>, Fault>(places),
        0 < needed,
        ({
            let held = v.layout.bytes_at(v.disk, places);
            let (result, g) = w.dir_grown(dir, (ImageModel { places, bytes: held }), needed);
            let (at, more) = result->Ok_0;
            &&& entries::end_slot(held, 0) + needed > entries::slot_count(held)
            &&& result is Ok
            &&& laws::only(v.layout, g.disk, m, more.places, Seq::empty())
        }),
    ensures
        laws::spared(v.layout, v.disk, m, places),
{
    let layout = v.layout;
    let d = v.disk;
    let held = layout.bytes_at(d, places);
    let image = ImageModel { places, bytes: held };
    laws::lemma_dir_unchanged(v, w, new, data, dir);
    laws::lemma_dir_grown(w, dir, places, needed);
    let (result, g) = w.dir_grown(dir, image, needed);
    let (at, more) = result->Ok_0;
    let chain = layout.chain(w.disk, (layout.dir_start(dir)->0).0)->Ok_0;
    let extra = growth(w, image, needed);
    let extra_sectors = layout.sectors_of(extra);
    let changed = extra.push(chain.last());
    let none = Seq::<u32>::empty();
    laws::lemma_only_both(layout, w.disk, g.disk, m, extra_sectors, changed, more.places, none);
    assert(changed + none =~= changed);
    let later = extra_sectors + more.places;
    laws::lemma_grown_apart(v, w, new, data, dir, places, chain, extra);
    assert forall|i: int| 0 <= i < later.len() implies laws::in_free(
        layout,
        d,
        #[trigger] later[i],
    ) || places.contains(later[i]) by {
        laws::lemma_later_place(layout, d, new, extra, changed, places, more.places, later, i);
    }
    laws::lemma_added_spared(layout, d, w.disk, m, new, places, later, changed);
}

/// A cut while a directory takes clusters to grow spares everything.
#[verifier::spinoff_prover]
proof fn lemma_cut_growth(
    v: Volume,
    w: Volume,
    new: Seq<u32>,
    data: Seq<u8>,
    dir: Dir,
    places: Seq<int>,
    needed: int,
    m: Disk,
)
    requires
        laws::sound(v.layout, v.disk),
        laws::put_in(v, w, new, data),
        v.layout.dir_sectors(v.disk, dir) == Ok::<Seq<int>, Fault>(places),
        0 < needed,
        ({
            let held = v.layout.bytes_at(v.disk, places);
            let image = ImageModel { places, bytes: held };
            let extra = growth(w, image, needed);
            &&& entries::end_slot(held, 0) + needed > entries::slot_count(held)
            &&& w.dir_grown(dir, image, needed).0 is Ok
            &&& laws::only(v.layout, w.disk, m, v.layout.sectors_of(extra), extra)
        }),
    ensures
        laws::spared(v.layout, v.disk, m, Seq::empty()),
{
    let layout = v.layout;
    let d = v.disk;
    let held = layout.bytes_at(d, places);
    let image = ImageModel { places, bytes: held };
    laws::lemma_dir_unchanged(v, w, new, data, dir);
    laws::lemma_dir_grown(w, dir, places, needed);
    let extra = growth(w, image, needed);
    let all = new + extra;
    laws::lemma_only_both(
        layout,
        d,
        w.disk,
        m,
        layout.sectors_of(new),
        new,
        layout.sectors_of(extra),
        extra,
    );
    layout.lemma_sectors_concat(new, extra);
    assert forall|k: int| 0 <= k < all.len() implies layout.has_cluster(all[k])
        && layout.fat_entry(d, #[trigger] all[k]) == 0 by {
        if k < new.len() {
            assert(all[k] == new[k]);
        } else {
            let c = extra[k - new.len()];
            assert(all[k] == c);
            assert(layout.fat_entry(w.disk, c) == 0);
            laws::lemma_linked_used(layout, w.disk, new, c, data);
        }
    }
    lemma_free_spared(layout, d, m, all);
}

/// What a cut leaves while entries for a new name are added to a directory.
pub open spec fn half_added(
    layout: Layout,
    a: Disk,
    m: Disk,
    dir: Dir,
    places: Seq<int>,
    name: Seq<char>,
) -> bool {
    ||| laws::spared(layout, a, m, Seq::empty())
    ||| laws::spared(layout, a, m, places) && not_yet(
        layout,
        m,
        dir,
        layout.bytes_at(a, places),
        name,
    )
}

#[verifier::spinoff_prover]
proof fn lemma_cut_here(
    v: Volume,
    w: Volume,
    new: Seq<u32>,
    dir: Dir,
    places: Seq<int>,
    name: Seq<char>,
    data: Seq<u8>,
    first: u32,
    attr: u8,
    size: u32,
    at: int,
    m: Disk,
)
    requires
        laws::sound(v.layout, v.disk),
        laws::put_in(v, w, new, data),
        laws::plain_name(name),
        attr == entries::ATTR_ARCHIVE || attr == entries::ATTR_DIRECTORY,
        v.layout.dir_sectors(v.disk, dir) == Ok::<Seq<int>, Fault>(places),
        ({
            let held = v.layout.bytes_at(v.disk, places);
            let image = ImageModel { places, bytes: held };
            let taken = stored::taken_names(held);
            let made = stored::new_entries(name, taken, attr, first, size, w.stamp);
            let count = (made->0).len() as int / 32;
            &&& tidy(held)
            &&& entries::entry_for(held, v.layout.fat_type, name) is None
            &&& made is Some
            &&& stored::run_from(held, 0, count) == Some(at)
            &&& storing_moments(w, with_entries(image, at, made->0), at, at + count).contains(m)
        }),
    ensures
        ({
            let held = v.layout.bytes_at(v.disk, places);
            let image = ImageModel { places, bytes: held };
            ||| m == w.entry_added(dir, image, name, attr, first, size).1.disk
            ||| half_added(v.layout, v.disk, m, dir, places, name)
        }),
{
    let layout = v.layout;
    let d = v.disk;
    let held = layout.bytes_at(d, places);
    let image = ImageModel { places, bytes: held };
    let taken = stored::taken_names(held);
    let made = stored::new_entries(name, taken, attr, first, size, w.stamp)->0;
    let count = made.len() as int / 32;
    let none = Seq::<u32>::empty();
    laws::lemma_made(name, taken, attr, first, size, w.stamp);
    assert(made.len() == 32 * (laws::made(name, taken).pieces + 1));
    laws::lemma_dir_unchanged(v, w, new, data, dir);
    stored::lemma_run_fits(held, 0, count);
    laws::lemma_run_place(held, count);
    lemma_cut_entries(w, dir, places, name, taken, attr, first, size, at, m);
    if m != w.entries_put(image, at, made).disk {
        laws::lemma_added_spared(layout, d, w.disk, m, new, places, places, none);
    }
}

#[verifier::spinoff_prover]
proof fn lemma_cut_grown(
    v: Volume,
    w: Volume,
    new: Seq<u32>,
    dir: Dir,
    places: Seq<int>,
    name: Seq<char>,
    data: Seq<u8>,
    first: u32,
    attr: u8,
    size: u32,
    m: Disk,
)
    requires
        laws::sound(v.layout, v.disk),
        laws::put_in(v, w, new, data),
        laws::plain_name(name),
        attr == entries::ATTR_ARCHIVE || attr == entries::ATTR_DIRECTORY,
        v.layout.dir_sectors(v.disk, dir) == Ok::<Seq<int>, Fault>(places),
        laws::no_stray_pieces(v.layout.bytes_at(v.disk, places)),
        ({
            let held = v.layout.bytes_at(v.disk, places);
            let image = ImageModel { places, bytes: held };
            let taken = stored::taken_names(held);
            let made = stored::new_entries(name, taken, attr, first, size, w.stamp);
            let count = (made->0).len() as int / 32;
            let (result, g) = w.dir_grown(dir, image, count);
            let (at, more) = result->Ok_0;
            &&& tidy(held)
            &&& entries::entry_for(held, v.layout.fat_type, name) is None
            &&& made is Some
            &&& stored::run_from(held, 0, count) is None
            &&& result is Ok
            &&& growing(w, image, count, g.disk, m) || storing_moments(
                g,
                with_entries(more, at, made->0),
                at,
                at + count,
            ).contains(m)
        }),
    ensures
        ({
            let held = v.layout.bytes_at(v.disk, places);
            let image = ImageModel { places, bytes: held };
            ||| m == w.entry_added(dir, image, name, attr, first, size).1.disk
            ||| half_added(v.layout, v.disk, m, dir, places, name)
        }),
{
    let layout = v.layout;
    let d = v.disk;
    let held = layout.bytes_at(d, places);
    let image = ImageModel { places, bytes: held };
    let taken = stored::taken_names(held);
    let made = stored::new_entries(name, taken, attr, first, size, w.stamp)->0;
    let count = made.len() as int / 32;
    laws::lemma_made(name, taken, attr, first, size, w.stamp);
    assert(made.len() == 32 * (laws::made(name, taken).pieces + 1));
    laws::lemma_dir_sectors(layout, d, dir);
    laws::lemma_dir_unchanged(v, w, new, data, dir);
    laws::lemma_held_length(layout, d, places);
    entries::lemma_end_slot(held, 0);
    stored::lemma_no_room(held, 0, count);
    let extra = growth(w, image, count);
    if laws::only(layout, w.disk, m, layout.sectors_of(extra), extra) {
        lemma_cut_growth(v, w, new, data, dir, places, count, m);
    } else {
        laws::lemma_dir_grown(w, dir, places, count);
        let (result, g) = w.dir_grown(dir, image, count);
        let (at, more) = result->Ok_0;
        let by = w.clusters_for(32 * (count - (entries::slot_count(held) - at)));
        let zeros = (by * layout.cluster_bytes()) as nat;
        let none = Seq::<u32>::empty();
        laws::lemma_multiple(by, layout.sectors_per_cluster as int);
        laws::lemma_grown_dir(held, layout.fat_type, name, zeros, count);
        others::lemma_grown_others(held, layout.fat_type, name, zeros);
        if laws::only(layout, g.disk, m, Seq::empty(), none) {
            laws::lemma_bytes_kept(layout, g.disk, m, dir);
            lemma_only_more(layout, g.disk, m, Seq::empty(), none, more.places, none);
            lemma_cut_grown_spared(v, w, new, data, dir, places, count, m);
        } else {
            lemma_grown_tidy(held, zeros);
            lemma_cut_entries(g, dir, more.places, name, taken, attr, first, size, at, m);
            if m != g.entries_put(more, at, made).disk {
                lemma_cut_grown_spared(v, w, new, data, dir, places, count, m);
                let now = layout.dir_bytes(m, dir)->Ok_0;
                others::lemma_others_twice(held, more.bytes, now, layout.fat_type, name);
            }
        }
    }
}

/// A cut while nothing but free clusters has changed, or a directory in which `path` isn't there
/// yet.
proof fn lemma_cut_half(
    v: Volume,
    path: Seq<char>,
    other: Seq<char>,
    dir: Dir,
    places: Seq<int>,
    m: Disk,
)
    requires
        laws::in_order(v, path),
        others::elsewhere(v, path, other),
        v.layout.dir_of(v.disk, volume::split_path(path).0) == Ok::<Dir, Fault>(dir),
        v.layout.dir_sectors(v.disk, dir) == Ok::<Seq<int>, Fault>(places),
        entries::entry_for(
            v.layout.bytes_at(v.disk, places),
            v.layout.fat_type,
            volume::split_path(path).1,
        ) is None,
        half_added(v.layout, v.disk, m, dir, places, volume::split_path(path).1),
    ensures
        as_before(v.layout, v.disk, m, path),
        others::stays(v.layout, v.disk, m, other),
{
    let layout = v.layout;
    let (parent, name) = volume::split_path(path);
    if laws::spared(layout, v.disk, m, Seq::empty()) {
        lemma_cut_early(v, path, other, m);
    } else {
        let touched = places + laws::sectors_from(layout, v.disk, 0);
        assert(touched =~= places);
        laws::lemma_way_spared(
            layout,
            v.disk,
            m,
            Dir::Root,
            text::pieces_from(parent, 0, '/'),
            touched,
        );
        others::lemma_path_beside(layout, v.disk, m, other, dir, name, touched);
    }
}

/// Whether the directory that `path` is in is there, and its chain is whole.
pub open spec fn place_there(v: Volume, path: Seq<char>) -> bool {
    v.layout.dir_of(v.disk, volume::split_path(path).0) matches Ok(dir) && v.image_of(dir) is Ok
}

/// Whether the directory that `path` is in has no slot in use after its end marker.
pub open spec fn tidy_place(v: Volume, path: Seq<char>) -> bool {
    v.layout.dir_of(v.disk, volume::split_path(path).0) matches Ok(dir) ==> (v.layout.dir_bytes(
        v.disk,
        dir,
    ) matches Ok(held) ==> tidy(held))
}

/// A cut while a new file's entry is added.
#[verifier::spinoff_prover]
proof fn lemma_cut_new(
    v: Volume,
    path: Seq<char>,
    data: Seq<u8>,
    other: Seq<char>,
    dir: Dir,
    places: Seq<int>,
    m: Disk,
)
    requires
        laws::in_order(v, path),
        others::elsewhere(v, path, other),
        tidy_place(v, path),
        v.file_changed(path, data).0 is Ok,
        v.layout.dir_of(v.disk, volume::split_path(path).0) == Ok::<Dir, Fault>(dir),
        v.layout.dir_sectors(v.disk, dir) == Ok::<Seq<int>, Fault>(places),
        ({
            let name = volume::split_path(path).1;
            let held = v.layout.bytes_at(v.disk, places);
            let (first, written) = v.begun().chain_written(data);
            &&& entries::entry_for(held, v.layout.fat_type, name) is None
            &&& adding(
                written,
                dir,
                (ImageModel { places, bytes: held }),
                name,
                entries::ATTR_ARCHIVE,
                first->Ok_0,
                data.len() as u32,
                m,
            )
        }),
    ensures
        safe(v, path, data, other, m),
{
    let layout = v.layout;
    let (parent, name) = volume::split_path(path);
    let held = layout.bytes_at(v.disk, places);
    let image = ImageModel { places, bytes: held };
    let b = v.begun();
    let new = laws::clusters_taken(b, data);
    let (chained, w) = b.chain_written(data);
    let first = chained->Ok_0;
    let attr = entries::ATTR_ARCHIVE;
    let size = data.len() as u32;
    laws::lemma_chain_written(b, data);
    let made = stored::new_entries(name, stored::taken_names(held), attr, first, size, w.stamp)->0;
    match stored::run_from(held, 0, made.len() as int / 32) {
        Some(at) => {
            lemma_cut_here(b, w, new, dir, places, name, data, first, attr, size, at, m);
        },
        None => {
            lemma_cut_grown(b, w, new, dir, places, name, data, first, attr, size, m);
        },
    }
    if half_added(layout, v.disk, m, dir, places, name) {
        lemma_cut_half(v, path, other, dir, places, m);
    } else {
        lemma_cut_done(v, path, data, other, dir, places);
    }
}

/// A cut once the file is changed, FSInfo not yet up to date.
proof fn lemma_cut_done(
    v: Volume,
    path: Seq<char>,
    data: Seq<u8>,
    other: Seq<char>,
    dir: Dir,
    places: Seq<int>,
)
    requires
        laws::in_order(v, path),
        others::elsewhere(v, path, other),
        v.file_changed(path, data).0 is Ok,
        v.layout.dir_of(v.disk, volume::split_path(path).0) == Ok::<Dir, Fault>(dir),
        v.layout.dir_sectors(v.disk, dir) == Ok::<Seq<int>, Fault>(places),
    ensures
        safe(v, path, data, other, v.file_changed(path, data).1.disk),
{
    let layout = v.layout;
    let (parent, name) = volume::split_path(path);
    let held = layout.bytes_at(v.disk, places);
    let touched = places + laws::sectors_from(layout, v.disk, laws::old_start(v, held, name));
    let z = v.file_changed(path, data).1;
    laws::lemma_file_put(v, dir, places, name, data);
    laws::lemma_way_spared(
        layout,
        v.disk,
        z.disk,
        Dir::Root,
        text::pieces_from(parent, 0, '/'),
        touched,
    );
    others::lemma_path_beside(layout, v.disk, z.disk, other, dir, name, touched);
}

/// A power cut at any moment of a write leaves the file as it was, be it there or not, or as it
/// is written, and leaves what is elsewhere as it was.
#[verifier::spinoff_prover]
pub proof fn cut_writes_are_safe(
    v: Volume,
    path: Seq<char>,
    data: Seq<u8>,
    other: Seq<char>,
    m: Disk,
)
    requires
        laws::in_order(v, path),
        tidy_place(v, path),
        others::elsewhere(v, path, other),
        place_there(v, path),
        writing(v, path, data, m),
    ensures
        safe(v, path, data, other, m),
{
    let layout = v.layout;
    let dir = layout.dir_of(v.disk, volume::split_path(path).0)->Ok_0;
    let places = layout.dir_sectors(v.disk, dir)->Ok_0;
    if m == v.file_written(path, data).1.disk {
        if v.file_written(path, data).0 is Ok {
            laws::written_files_read_back(v, path, data);
            others::writing_leaves_the_rest(v, path, data, other);
        } else {
            failures::failed_writes_lose_nothing(v, path, data, other);
            lemma_cut_early(v, path, other, m);
        }
    } else {
        lemma_cut_changing(v, path, data, other, dir, places, m);
    }
}

/// A cut while data is put in a file.
#[verifier::spinoff_prover]
proof fn lemma_cut_changing(
    v: Volume,
    path: Seq<char>,
    data: Seq<u8>,
    other: Seq<char>,
    dir: Dir,
    places: Seq<int>,
    m: Disk,
)
    requires
        laws::in_order(v, path),
        tidy_place(v, path),
        others::elsewhere(v, path, other),
        v.layout.dir_of(v.disk, volume::split_path(path).0) == Ok::<Dir, Fault>(dir),
        v.layout.dir_sectors(v.disk, dir) == Ok::<Seq<int>, Fault>(places),
        changing(v, path, data, m),
    ensures
        safe(v, path, data, other, m),
{
    let layout = v.layout;
    let (parent, name) = volume::split_path(path);
    let image = v.image_of(dir)->Ok_0;
    let b = v.begun();
    let new = laws::clusters_taken(b, data);
    let (chained, w) = b.chain_written(data);
    let first = chained->Ok_0;
    laws::lemma_chain_written(b, data);
    if laws::only(layout, v.disk, m, layout.sectors_of(new), new) {
        lemma_free_spared(layout, v.disk, m, new);
        lemma_cut_early(v, path, other, m);
    } else if entries::entry_for(image.bytes, layout.fat_type, name) is Some {
        lemma_cut_replaced(v, path, data, other, m);
    } else if laws::only(
        layout,
        w.disk,
        m,
        Seq::empty(),
        chain_at(layout, w.disk, first),
    ) {
        lemma_given_back(b, w, new, data, first, m);
        lemma_free_spared(layout, v.disk, m, new);
        lemma_cut_early(v, path, other, m);
    } else {
        lemma_cut_new(v, path, data, other, dir, places, m);
    }
}

/// New clusters that are given back.
proof fn lemma_given_back(
    b: Volume,
    w: Volume,
    new: Seq<u32>,
    data: Seq<u8>,
    first: u32,
    m: Disk,
)
    requires
        laws::sound(b.layout, b.disk),
        laws::put_in(b, w, new, data),
        first == (if data.len() == 0 {
            0
        } else {
            new[0]
        }),
        laws::only(b.layout, w.disk, m, Seq::empty(), chain_at(b.layout, w.disk, first)),
    ensures
        laws::only(b.layout, b.disk, m, b.layout.sectors_of(new), new),
{
    let layout = b.layout;
    if data.len() > 0 {
        laws::lemma_chain_made(layout, w.disk, new, 0, layout.cluster_count as nat, None);
        assert(new.subrange(0, new.len() as int) =~= new);
    }
    lemma_only_then(
        layout,
        b.disk,
        w.disk,
        m,
        layout.sectors_of(new),
        new,
        Seq::empty(),
        chain_at(layout, w.disk, first),
    );
}

/// Whether there is an empty directory at a path.
pub open spec fn empty_dir(layout: Layout, disk: Disk, path: Seq<char>) -> bool {
    &&& layout.entry_of(disk, path) matches Ok(entry)
    &&& entry.kind == entries::EntryKind::Directory
    &&& layout.dir_bytes(disk, volume::dir_at(entry.first_cluster)) matches Ok(held)
    &&& entries::listing(held, layout.fat_type).len() == 0
}

/// A cut once the directory is made, FSInfo not yet up to date.
#[verifier::rlimit(40)]
#[verifier::spinoff_prover]
proof fn lemma_cut_made(v: Volume, path: Seq<char>, other: Seq<char>, dir: Dir, places: Seq<int>)
    requires
        laws::in_order(v, path),
        others::elsewhere(v, path, other),
        v.dir_changed(path).0 is Ok,
        v.layout.dir_of(v.disk, volume::split_path(path).0) == Ok::<Dir, Fault>(dir),
        v.layout.dir_sectors(v.disk, dir) == Ok::<Seq<int>, Fault>(places),
    ensures
        empty_dir(v.layout, v.dir_changed(path).1.disk, path),
        others::stays(v.layout, v.disk, v.dir_changed(path).1.disk, other),
{
    let layout = v.layout;
    let (parent, name) = volume::split_path(path);
    let touched = places + laws::sectors_from(layout, v.disk, 0);
    let clusters = v.begun().allocated(1)->0;
    let z = v.dir_changed(path).1;
    assert(touched =~= places);
    assert(v.dots(clusters[0], dir).len() == 64);
    laws::lemma_dir_made(v, path, dir, places);
    laws::lemma_dots_empty(v, clusters[0], dir, layout.cluster_bytes());
    laws::lemma_way_spared(
        layout,
        v.disk,
        z.disk,
        Dir::Root,
        text::pieces_from(parent, 0, '/'),
        touched,
    );
    others::lemma_path_beside(layout, v.disk, z.disk, other, dir, name, touched);
}

/// A power cut at any moment in which a directory is made leaves nothing at its path, or the
/// directory, empty, and leaves what is elsewhere as it was.
#[verifier::spinoff_prover]
pub proof fn cut_directories_are_safe(v: Volume, path: Seq<char>, other: Seq<char>, m: Disk)
    requires
        laws::in_order(v, path),
        tidy_place(v, path),
        others::elsewhere(v, path, other),
        place_there(v, path),
        making(v, path, m),
    ensures
        as_before(v.layout, v.disk, m, path) || empty_dir(v.layout, m, path),
        others::stays(v.layout, v.disk, m, other),
{
    let layout = v.layout;
    let dir = layout.dir_of(v.disk, volume::split_path(path).0)->Ok_0;
    let places = layout.dir_sectors(v.disk, dir)->Ok_0;
    if m == v.dir_created(path).1.disk {
        if v.dir_created(path).0 is Ok {
            laws::made_directories_are_empty(v, path);
            others::making_directories_leaves_the_rest(v, path, other);
        } else {
            failures::directories_not_made_lose_nothing(v, path, other);
            lemma_cut_early(v, path, other, m);
        }
    } else {
        lemma_cut_making(v, path, other, dir, places, m);
    }
}

/// A cut while a directory is made.
#[verifier::spinoff_prover]
proof fn lemma_cut_making(
    v: Volume,
    path: Seq<char>,
    other: Seq<char>,
    dir: Dir,
    places: Seq<int>,
    m: Disk,
)
    requires
        laws::in_order(v, path),
        tidy_place(v, path),
        others::elsewhere(v, path, other),
        v.layout.dir_of(v.disk, volume::split_path(path).0) == Ok::<Dir, Fault>(dir),
        v.layout.dir_sectors(v.disk, dir) == Ok::<Seq<int>, Fault>(places),
        beginning(v, path, m),
    ensures
        as_before(v.layout, v.disk, m, path) || empty_dir(v.layout, m, path),
        others::stays(v.layout, v.disk, m, other),
{
    let layout = v.layout;
    let (parent, name) = volume::split_path(path);
    let held = layout.bytes_at(v.disk, places);
    let b = v.begun();
    let clusters = b.allocated(1)->0;
    let dots = v.dots(clusters[0], dir);
    let w = b.with_chain(clusters, dots);
    let size = layout.cluster_bytes();
    assert(dots.len() == 64);
    assert((64 + size - 1) / size == 1) by (nonlinear_arith)
        requires
            size >= 512,
    ;
    assert(b.chain_written(dots) == (Ok::<u32, Fault>(clusters[0]), w));
    assert(laws::clusters_taken(b, dots) == clusters);
    laws::lemma_chain_written(b, dots);
    if laws::only(layout, v.disk, m, layout.sectors_of(clusters), clusters) {
        lemma_free_spared(layout, v.disk, m, clusters);
        lemma_cut_early(v, path, other, m);
    } else if laws::only(
        layout,
        w.disk,
        m,
        Seq::empty(),
        chain_at(layout, w.disk, clusters[0]),
    ) {
        lemma_given_back(b, w, clusters, dots, clusters[0], m);
        lemma_free_spared(layout, v.disk, m, clusters);
        lemma_cut_early(v, path, other, m);
    } else {
        let attr = entries::ATTR_DIRECTORY;
        let first = clusters[0];
        let taken = stored::taken_names(held);
        let made = stored::new_entries(name, taken, attr, first, 0, w.stamp)->0;
        match stored::run_from(held, 0, made.len() as int / 32) {
            Some(at) => {
                lemma_cut_here(b, w, clusters, dir, places, name, dots, first, attr, 0, at, m);
            },
            None => {
                lemma_cut_grown(b, w, clusters, dir, places, name, dots, first, attr, 0, m);
            },
        }
        if half_added(layout, v.disk, m, dir, places, name) {
            lemma_cut_half(v, path, other, dir, places, m);
        } else {
            lemma_cut_made(v, path, other, dir, places);
        }
    }
}

// Entries that are being removed.
/// Whether no entry of a directory but that of `name` itself goes by its 8.3 name.
pub open spec fn alias_unused(dir: Seq<u8>, fat_type: entries::FatType, name: Seq<char>) -> bool {
    entries::entry_for(dir, fat_type, name) matches Some(located) ==> {
        let alias = names::short_name_in(entries::slot_at(dir, located.slot));
        names::same_name(alias, name) || entries::entry_for(dir, fat_type, alias) is None
    }
}

/// A long name of which pieces are marked deleted isn't complete.
proof fn lemma_pieces_lost(dir: Seq<u8>, now: Seq<u8>, slot: int, stop: int, k: int)
    requires
        0 < stop <= slot < entries::slot_count(dir),
        now.len() == dir.len(),
        1 <= k <= slot - stop + 1,
        entries::pieces_from(dir, slot, k) > slot - stop,
        entries::slot_at(now, stop - 1)[0] == entries::ENTRY_DELETED,
        forall|j: int|
            stop <= j <= slot ==> #[trigger] entries::slot_at(now, j) == entries::slot_at(dir, j),
    ensures
        entries::pieces_from(now, slot, k) == 0,
    decreases slot - stop + 1 - k,
{
    if k <= slot - stop {
        let x = entries::slot_at(dir, slot - k);
        assert(entries::slot_at(now, slot - k) == x);
        assert(dir[32 * (slot - k)] == x[0]);
        assert(now[32 * (slot - k)] == entries::slot_at(now, slot - k)[0]);
        assert(entries::slot_at(now, slot) == entries::slot_at(dir, slot));
        lemma_pieces_lost(dir, now, slot, stop, k + 1);
    } else {
        assert(slot - k == stop - 1);
    }
}

/// What a directory says while some of the entries of a name are marked deleted, but not yet the
/// last.
#[verifier::spinoff_prover]
proof fn lemma_partly_deleted(
    dir: Seq<u8>,
    fat_type: entries::FatType,
    name: Seq<char>,
    stop: int,
)
    requires
        entries::entry_for(dir, fat_type, name) is Some,
        laws::listed_once(dir, name),
        alias_unused(dir, fat_type, name),
        ({
            let located = entries::entry_for(dir, fat_type, name)->0;
            located.first_slot < stop <= located.slot
        }),
    ensures
        ({
            let located = entries::entry_for(dir, fat_type, name)->0;
            let after = change::with_deleted(dir, located.first_slot, located.slot + 1);
            let now = partly(dir, after, 32 * stop);
            &&& others::others_listed(dir, now, fat_type, name)
            &&& entries::entry_for(now, fat_type, name) matches Some(found) ==> found.entry == (
            entries::EntryModel { name: found.entry.name, ..located.entry })
        }),
{
    let end = entries::end_slot(dir, 0);
    let count = entries::slot_count(dir);
    entries::lemma_end_slot(dir, 0);
    laws::lemma_slot_first(dir, name, 0, end);
    let located = entries::entry_for(dir, fat_type, name)->0;
    let slot = located.slot;
    let from = located.first_slot;
    entries::lemma_pieces(dir, slot, 1);
    let after = change::with_deleted(dir, from, slot + 1);
    laws::lemma_deleted(dir, from, slot + 1);
    let now = partly(dir, after, 32 * stop);
    let alias = names::short_name_in(entries::slot_at(dir, slot));
    assert forall|j: int| 0 <= j < count && !(from <= j < stop) implies #[trigger] entries::slot_at(
        dir,
        j,
    ) == entries::slot_at(now, j) by {
        assert(entries::slot_at(dir, j) =~= entries::slot_at(now, j));
    }
    assert forall|j: int| from <= j < stop implies #[trigger] entries::slot_at(now, j)[0]
        == entries::ENTRY_DELETED by {
        assert(entries::slot_at(now, j)[0] == now[32 * j]);
    }
    lemma_pieces_lost(dir, now, slot, stop, 1);
    assert(entries::name_at(now, slot) == alias);
    assert forall|j: int| from <= j < slot implies !entries::is_own(
        #[trigger] entries::slot_at(dir, j),
    ) && !entries::is_own(entries::slot_at(now, j)) by {
        laws::lemma_pieces_there(dir, slot, 1, slot - j);
        assert(entries::is_piece(dir, slot, slot - j));
        if j < stop {
            assert(entries::slot_at(now, j)[0] == entries::ENTRY_DELETED);
        }
    }
    assert forall|j: int| 0 <= j < end implies now[#[trigger] (32 * j)] != entries::ENTRY_END by {
        assert(dir[32 * j] != entries::ENTRY_END);
    }
    assert(entries::is_own(entries::slot_at(dir, slot)));
    assert(entries::slot_at(dir, slot) == entries::slot_at(now, slot));
    assert forall|other: Seq<char>|
        !names::same_name(other, name) implies #[trigger] others::still_says(
        dir,
        now,
        fat_type,
        other,
    ) by {
        lemma_partly_other(dir, now, fat_type, name, other, from, slot, alias);
    }
    laws::lemma_end_after(now, 0, end);
    if end < count {
        assert(now[32 * end] == dir[32 * end]);
    }
    assert(entries::end_slot(now, end) == end);
    laws::lemma_slot_first(now, name, 0, end);
    if let Some(i) = entries::slot_of(now, name, 0, end) {
        assert(laws::lists(dir, name, slot));
        if i < from || i > slot {
            others::lemma_name_kept(dir, now, from, slot + 1, i);
            assert(laws::lists(dir, name, i));
            assert(i > slot);
        } else if i < slot {
            assert(!entries::is_own(entries::slot_at(dir, i)));
        }
    }
}

#[verifier::spinoff_prover]
proof fn lemma_partly_other(
    dir: Seq<u8>,
    now: Seq<u8>,
    fat_type: entries::FatType,
    name: Seq<char>,
    other: Seq<char>,
    from: int,
    slot: int,
    alias: Seq<char>,
)
    requires
        0 <= from <= slot < entries::end_slot(dir, 0) <= entries::slot_count(dir),
        now.len() == dir.len(),
        !names::same_name(other, name),
        laws::lists(dir, name, slot),
        entries::name_at(now, slot) == alias,
        names::same_name(alias, name) || entries::entry_for(dir, fat_type, alias) is None,
        forall|j: int|
            0 <= j < entries::slot_count(dir) && !(from <= j < slot + 1)
                ==> #[trigger] entries::slot_at(dir, j) == entries::slot_at(now, j),
        entries::slot_at(dir, slot) == entries::slot_at(now, slot),
        forall|j: int|
            from <= j < slot ==> !entries::is_own(#[trigger] entries::slot_at(dir, j))
                && !entries::is_own(entries::slot_at(now, j)),
        forall|j: int|
            0 <= j < entries::end_slot(dir, 0) ==> now[#[trigger] (32 * j)] != entries::ENTRY_END,
    ensures
        others::still_says(dir, now, fat_type, other),
{
    let end = entries::end_slot(dir, 0);
    if names::same_name(alias, other) {
        // Nothing goes by that name.
        laws::lemma_slot_first(dir, other, 0, end);
        laws::lemma_slot_first(dir, alias, 0, end);
        if let Some(i) = entries::slot_of(dir, other, 0, end) {
            assert(!(entries::is_listed(dir, i) && names::same_name(
                entries::name_at(dir, i),
                alias,
            )));
        }
    } else {
        let to = slot + 1;
        assert forall|j: int|
            from <= j < to && j < entries::end_slot(dir, 0) implies !#[trigger] laws::lists(
            dir,
            other,
            j,
        ) && !laws::lists(now, other, j) && now[32 * j] != entries::ENTRY_END by {
            assert(now[32 * j] != entries::ENTRY_END);
            if j < slot {
                assert(!entries::is_own(entries::slot_at(dir, j)));
            }
        }
        others::lemma_other_found(dir, now, fat_type, other, from, to);
    }
}

/// What a cut leaves of what is removed: nothing, or all of it, if only by its 8.3 name.
pub open spec fn gone_or_whole(layout: Layout, a: Disk, b: Disk, path: Seq<char>) -> bool {
    match layout.entry_of(b, path) {
        Err(fault) => fault == Fault::NotFound,
        Ok(entry) => {
            &&& layout.entry_of(a, path) matches Ok(before)
            &&& entry == (entries::EntryModel { name: entry.name, ..before })
            &&& layout.file_of(a, path) is Ok ==> layout.file_of(b, path) == layout.file_of(a, path)
        },
    }
}

/// A cut while the entries of a name are marked deleted.
#[verifier::spinoff_prover]
proof fn lemma_cut_deleting(
    v: Volume,
    path: Seq<char>,
    other: Seq<char>,
    dir: Dir,
    places: Seq<int>,
    n: int,
)
    requires
        laws::ready(v, path),
        others::elsewhere(v, path, other),
        v.layout.dir_of(v.disk, volume::split_path(path).0) == Ok::<Dir, Fault>(dir),
        v.layout.dir_sectors(v.disk, dir) == Ok::<Seq<int>, Fault>(places),
        ({
            let name = volume::split_path(path).1;
            let held = v.layout.bytes_at(v.disk, places);
            let found = entries::entry_for(held, v.layout.fat_type, name);
            let located = found->0;
            &&& found is Some
            &&& laws::listed_once(held, name)
            &&& alias_unused(held, v.layout.fat_type, name)
            &&& 0 < n < (located.slot + 16) / 16 - located.first_slot / 16
        }),
    ensures
        ({
            let name = volume::split_path(path).1;
            let held = v.layout.bytes_at(v.disk, places);
            let located = entries::entry_for(held, v.layout.fat_type, name)->0;
            let image = ImageModel { places, bytes: held };
            let m = partly_stored(
                v.begun(),
                without(image, located.first_slot, located.slot),
                located.first_slot,
                located.slot + 1,
                n,
            );
            &&& gone_or_whole(v.layout, v.disk, m, path)
            &&& others::stays(v.layout, v.disk, m, other)
        }),
{
    let layout = v.layout;
    let d = v.disk;
    let b = v.begun();
    let (parent, name) = volume::split_path(path);
    let held = layout.bytes_at(d, places);
    let located = entries::entry_for(held, layout.fat_type, name)->0;
    let old = located.entry.first_cluster.0;
    let from = located.first_slot;
    let slot = located.slot;
    let changed = without((ImageModel { places, bytes: held }), from, slot);
    let m = partly_stored(b, changed, from, slot + 1, n);
    let stop = 16 * (from / 16 + n);
    let old_sectors = laws::sectors_from(layout, d, old);
    let touched = places + old_sectors;
    others::lemma_deleted_part(held, layout.fat_type, name);
    laws::lemma_dir_sectors(layout, d, dir);
    laws::lemma_held_length(layout, d, places);
    lemma_partly_stored(b, dir, places, changed.bytes, from, slot + 1, n);
    lemma_partly_deleted(held, layout.fat_type, name, stop);
    laws::lemma_spared(layout, d, m, places, Seq::empty(), places);
    assert forall|k: int| 0 <= k < places.len() implies touched.contains(#[trigger] places[k]) by {
        assert(touched[k] == places[k]);
    }
    laws::lemma_spared(layout, d, m, places, Seq::empty(), touched);
    laws::lemma_way_spared(layout, d, m, Dir::Root, text::pieces_from(parent, 0, '/'), touched);
    others::lemma_path_beside(layout, d, m, other, dir, name, touched);
    if old != 0 {
        assert forall|k: int| 0 <= k < old_sectors.len() implies !places.contains(
            #[trigger] old_sectors[k],
        ) by {
            if places.contains(old_sectors[k]) {
                let i = choose|i: int| 0 <= i < places.len() && places[i] == old_sectors[k];
                assert(!old_sectors.contains(places[i]));
            }
        }
        others::lemma_chain_spared(
            layout,
            d,
            m,
            old,
            Some(located.entry.size as int),
            places,
        );
    }
}

/// A cut once the entries of a name are marked deleted, whatever has been freed of what they
/// pointed at.
#[verifier::spinoff_prover]
proof fn lemma_cut_deleted(
    v: Volume,
    path: Seq<char>,
    other: Seq<char>,
    dir: Dir,
    places: Seq<int>,
    m: Disk,
)
    requires
        laws::ready(v, path),
        others::elsewhere(v, path, other),
        v.layout.dir_of(v.disk, volume::split_path(path).0) == Ok::<Dir, Fault>(dir),
        v.layout.dir_sectors(v.disk, dir) == Ok::<Seq<int>, Fault>(places),
        ({
            let name = volume::split_path(path).1;
            let held = v.layout.bytes_at(v.disk, places);
            let found = entries::entry_for(held, v.layout.fat_type, name);
            let located = found->0;
            let image = ImageModel { places, bytes: held };
            let x = v.begun().dir_stored(
                without(image, located.first_slot, located.slot),
                located.first_slot,
                located.slot + 1,
            );
            &&& found is Some
            &&& laws::listed_once(held, name)
            &&& m == x.disk || laws::only(
                v.layout,
                x.disk,
                m,
                Seq::empty(),
                chain_at(v.layout, x.disk, located.entry.first_cluster.0),
            )
        }),
    ensures
        gone_or_whole(v.layout, v.disk, m, path),
        others::stays(v.layout, v.disk, m, other),
{
    let layout = v.layout;
    let d = v.disk;
    let b = v.begun();
    let (parent, name) = volume::split_path(path);
    let held = layout.bytes_at(d, places);
    let located = entries::entry_for(held, layout.fat_type, name)->0;
    let old = located.entry.first_cluster.0;
    let from = located.first_slot;
    let slot = located.slot;
    let changed = without((ImageModel { places, bytes: held }), from, slot);
    let x = b.dir_stored(changed, from, slot + 1);
    let touched = places + laws::sectors_from(layout, d, old);
    let none = Seq::<u32>::empty();
    laws::lemma_gone(held, layout.fat_type, name);
    others::lemma_deleted_others(held, layout.fat_type, name);
    laws::lemma_dir_sectors(layout, d, dir);
    laws::lemma_held_length(layout, d, places);
    laws::lemma_dir_stored(layout, b.disk, dir, places, changed.bytes, from, slot + 1);
    assert(layout.sectors_of(none) + places =~= places);
    laws::lemma_dir_kept(layout, b.disk, x.disk, dir);
    if m == x.disk {
        lemma_only_same(layout, x.disk, chain_at(layout, x.disk, old));
    }
    laws::lemma_freed_partly(b, x, none, dir, places, changed.bytes, Seq::empty(), old, m);
    laws::lemma_way_spared(layout, d, m, Dir::Root, text::pieces_from(parent, 0, '/'), touched);
    others::lemma_path_beside(layout, d, m, other, dir, name, touched);
}

/// Whether the directory that `path` is in lists its name once, and nothing else by its 8.3 name.
pub open spec fn listed_plainly(v: Volume, path: Seq<char>) -> bool {
    let (parent, name) = volume::split_path(path);
    v.layout.dir_of(v.disk, parent) matches Ok(dir) ==> (v.layout.dir_bytes(
        v.disk,
        dir,
    ) matches Ok(held) ==> laws::listed_once(held, name) && alias_unused(
        held,
        v.layout.fat_type,
        name,
    ))
}

/// A cut while an entry is marked deleted, or what it pointed at is freed.
#[verifier::spinoff_prover]
proof fn lemma_cut_ending(
    v: Volume,
    path: Seq<char>,
    other: Seq<char>,
    dir: Dir,
    places: Seq<int>,
    m: Disk,
)
    requires
        laws::ready(v, path),
        listed_plainly(v, path),
        others::elsewhere(v, path, other),
        v.layout.dir_of(v.disk, volume::split_path(path).0) == Ok::<Dir, Fault>(dir),
        v.layout.dir_sectors(v.disk, dir) == Ok::<Seq<int>, Fault>(places),
        ending(v, path, m),
    ensures
        gone_or_whole(v.layout, v.disk, m, path),
        others::stays(v.layout, v.disk, m, other),
{
    let layout = v.layout;
    let (parent, name) = volume::split_path(path);
    let image = v.image_of(dir)->Ok_0;
    let located = entries::entry_for(image.bytes, layout.fat_type, name)->0;
    let from = located.first_slot;
    let to = located.slot + 1;
    let b = v.begun();
    let changed = without(image, from, located.slot);
    let steps = storing_moments(b, changed, from, to);
    others::lemma_deleted_part(image.bytes, layout.fat_type, name);
    assert(steps.len() == (to + 15) / 16 - from / 16);
    if steps.contains(m) {
        let i = choose|i: int| 0 <= i < steps.len() && steps[i] == m;
        if i + 1 < steps.len() {
            lemma_cut_deleting(v, path, other, dir, places, i + 1);
        } else {
            assert(m == partly_stored(b, changed, from, to, i + 1));
            lemma_cut_deleted(v, path, other, dir, places, m);
        }
    } else {
        lemma_cut_deleted(v, path, other, dir, places, m);
    }
}

/// A power cut at any moment in which a file or directory is removed leaves all of it, if only
/// by its 8.3 name, or nothing, and leaves what is elsewhere as it was.
#[verifier::spinoff_prover]
pub proof fn cut_removals_are_safe(v: Volume, path: Seq<char>, other: Seq<char>, m: Disk)
    requires
        laws::ready(v, path),
        listed_plainly(v, path),
        others::elsewhere(v, path, other),
        place_there(v, path),
        removing(v, path, m),
    ensures
        gone_or_whole(v.layout, v.disk, m, path),
        others::stays(v.layout, v.disk, m, other),
{
    if m == v.removed(path).1.disk {
        if v.removed(path).0 is Ok {
            laws::removed_paths_are_not_found(v, path);
            others::removing_leaves_the_rest(v, path, other);
        } else {
            failures::failed_removals_lose_nothing(v, path, other);
            lemma_cut_early(v, path, other, m);
        }
    } else {
        let dir = v.layout.dir_of(v.disk, volume::split_path(path).0)->Ok_0;
        let places = v.layout.dir_sectors(v.disk, dir)->Ok_0;
        lemma_cut_ending(v, path, other, dir, places, m);
    }
}

} // verus!
