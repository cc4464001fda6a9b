//! The tables of a channel: writing their pages out for a tag file, and
//! putting them back.

use std::collections::HashMap;
use vstd::prelude::*;

use crate::copier;
use crate::entry::Entry;
use crate::layout;
use crate::pages;
use crate::pages::{Page, PageView, BLOCK_SIZE};
use crate::restorer;
use crate::tag;
use crate::tag::{DbOffsets, Merkle, OpenTagFile, TagError};
use crate::zstd;

verus! {

broadcast use vstd::std_specs::hash::group_hash_axioms;

/// The roots of the tables that a tag file holds.
pub struct Tables {
    /// The identifiers of changes by their hashes.
    pub internal: u64,
    /// The hashes of changes by their identifiers.
    pub external: u64,
    pub graph: u64,
    pub changes: u64,
    pub revchanges: u64,
    pub states: u64,
    pub tags: u64,
}

/// One of the tables.
#[derive(Clone, Copy, Debug, PartialEq, Eq, Structural)]
pub enum Table {
    Internal,
    External,
    Graph,
    Changes,
    RevChanges,
    States,
    Tags,
}

/// The tables with their roots, in the order in which they are written out.
pub open spec fn writing_order(t: Tables) -> Seq<(Table, u64)> {
    seq![
        (Table::Internal, t.internal),
        (Table::External, t.external),
        (Table::Graph, t.graph),
        (Table::Changes, t.changes),
        (Table::RevChanges, t.revchanges),
        (Table::States, t.states),
        (Table::Tags, t.tags),
    ]
}

/// The tables of a tag file with their roots, in the order in which they are
/// put back.
pub open spec fn restoring_order(o: DbOffsets) -> Seq<(Table, u64)> {
    seq![
        (Table::Graph, o.graph),
        (Table::Changes, o.changes),
        (Table::RevChanges, o.revchanges),
        (Table::States, o.states),
        (Table::Tags, o.tags),
    ]
}

impl Tables {
    /// The tables with their roots, in the order in which they are written out.
    pub fn in_writing_order(&self) -> (r: [(Table, u64); 7])
        ensures
            r@ == writing_order(*self),
    {
        let r: [(Table, u64); 7] = [
            (Table::Internal, self.internal),
            (Table::External, self.external),
            (Table::Graph, self.graph),
            (Table::Changes, self.changes),
            (Table::RevChanges, self.revchanges),
            (Table::States, self.states),
            (Table::Tags, self.tags),
        ];
        assert(r@ =~= writing_order(*self));
        r
    }
}

/// Where the tables are once they are written out, from their roots in the
/// order in which that was done.
pub fn written_offsets(roots: &[u64; 7], apply_counter: u64, size: u64) -> (r: DbOffsets)
    ensures
        r == (DbOffsets {
            internal: roots@[0],
            external: roots@[1],
            graph: roots@[2],
            changes: roots@[3],
            revchanges: roots@[4],
            states: roots@[5],
            tags: roots@[6],
            apply_counter,
            size,
        }),
{
    DbOffsets {
        internal: roots[0],
        external: roots[1],
        graph: roots[2],
        changes: roots[3],
        revchanges: roots[4],
        states: roots[5],
        tags: roots[6],
        apply_counter,
        size,
    }
}

/// The tables of a tag file with their roots, in the order in which they are
/// put back.
pub fn in_restoring_order(o: &DbOffsets) -> (r: [(Table, u64); 5])
    ensures
        r@ == restoring_order(*o),
{
    let r: [(Table, u64); 5] = [
        (Table::Graph, o.graph),
        (Table::Changes, o.changes),
        (Table::RevChanges, o.revchanges),
        (Table::States, o.states),
        (Table::Tags, o.tags),
    ];
    assert(r@ =~= restoring_order(*o));
    r
}

/// Whether the tree at `root` can be copied out.
pub open spec fn copyable<E>(s: Map<u64, PageView<E>>, root: u64) -> bool {
    &&& pages::is_tree(s, root)
    &&& pages::unshared(s, root, false)
}

/// Whether the tree at `root` can be put back.
pub open spec fn restorable<E>(s: Map<u64, PageView<E>>, root: u64) -> bool {
    &&& pages::is_tree(s, root)
    &&& pages::unshared(s, root, true)
}

/// Whether `out` holds a copy of the tree at `root`, at `new_root`, in pages
/// that a search in breadth meets one after the other, and that can be put
/// back.
pub open spec fn copied_out<E>(
    s: Map<u64, PageView<E>>,
    root: u64,
    out: Seq<PageView<E>>,
    new_root: u64,
) -> bool {
    let n = pages::page_count(s, root);
    &&& pages::mirrors(s, root, copier::image(0, out), new_root)
    &&& restorable(copier::image(0, out), new_root)
    &&& new_root % 4096 == 0
    &&& new_root / 4096 + n <= out.len()
    &&& copier::breadth_first(
        new_root,
        out.subrange((new_root / 4096) as int, new_root / 4096 + n),
    )
}

/// The same, as a fact that is carried along.
#[verifier::opaque]
spec fn holds_copy<E>(
    s: Map<u64, PageView<E>>,
    root: u64,
    out: Seq<PageView<E>>,
    new_root: u64,
) -> bool {
    copied_out(s, root, out, new_root)
}

/// The number of pages of all the tables.
pub open spec fn total_pages<E>(s: Map<u64, PageView<E>>, t: Tables) -> nat {
    pages::page_count(s, t.internal) + pages::page_count(s, t.external) + pages::page_count(
        s,
        t.graph,
    ) + pages::page_count(s, t.changes) + pages::page_count(s, t.revchanges) + pages::page_count(
        s,
        t.states,
    ) + pages::page_count(s, t.tags)
}

/// Copies a tree to the pages after those in `all`.
fn append_copy<E: Copy>(
    store: &HashMap<u64, Page<E>>,
    root: u64,
    new_page: &mut u64,
    all: &mut Vec<Page<E>>,
) -> (r: u64)
    requires
        copyable(pages::page_views(store@), root),
        *old(new_page) == BLOCK_SIZE * old(all)@.len(),
        *old(new_page) + BLOCK_SIZE * pages::page_count(pages::page_views(store@), root)
            <= u64::MAX,
    ensures
        r == *old(new_page),
        final(all)@.len() == old(all)@.len() + pages::page_count(
            pages::page_views(store@),
            root,
        ),
        *final(new_page) == BLOCK_SIZE * final(all)@.len(),
        holds_copy(pages::page_views(store@), root, copier::views(final(all)@), r),
        copier::views(old(all)@).is_prefix_of(copier::views(final(all)@)),
{
    let (r, part) = copier::copy(store, root, new_page);
    let mut part = part;
    let ghost before = all@;
    let ghost added = part@;
    all.append(&mut part);
    proof {
        let s = pages::page_views(store@);
        let own = copier::image(r, copier::views(added));
        let whole = copier::image(0, copier::views(all@));
        let v = copier::views(all@);
        assert(v =~= copier::views(before) + copier::views(added));
        lemma_part_of_row(copier::views(before), copier::views(added));
        pages::lemma_mirrors(s, root, own, r);
        layout::law_copies_are_unshared(r, copier::views(added));
        pages::lemma_mirrors_within(s, root, own, r, whole);
        pages::lemma_unshared_within(own, r, whole, true);
        assert(v.subrange((r / 4096) as int, r / 4096 + added.len()) =~= copier::views(added));
        reveal(holds_copy);
    }
    r
}

/// Pages in a row are among those of a longer row.
proof fn lemma_part_of_row<E>(before: Seq<PageView<E>>, added: Seq<PageView<E>>)
    requires
        BLOCK_SIZE * before.len() <= u64::MAX,
    ensures
        pages::within(
            copier::image((BLOCK_SIZE * before.len()) as u64, added),
            copier::image(0, before + added),
        ),
{
    let base = (BLOCK_SIZE * before.len()) as u64;
    let all = before + added;
    let b = copier::image(base, added);
    let c = copier::image(0, all);
    assert forall|n: u64| #[trigger] b.contains_key(n) implies c.contains_key(n) && c[n]
        == b[n] by {
        let i = (n - base) / 4096;
        assert((n - 0) / 4096 == before.len() + i);
        assert((n - 0) % 4096 == 0);
        assert(all[before.len() + i] == added[i]);
    }
}

/// A copy stays one when more pages follow.
proof fn lemma_still_copied_out<E>(
    s: Map<u64, PageView<E>>,
    root: u64,
    out: Seq<PageView<E>>,
    new_root: u64,
    longer: Seq<PageView<E>>,
)
    requires
        holds_copy(s, root, out, new_root),
        out.is_prefix_of(longer),
    ensures
        holds_copy(s, root, longer, new_root),
{
    reveal(holds_copy);
    let n = pages::page_count(s, root);
    let a = copier::image(0, out);
    let c = copier::image(0, longer);
    assert forall|m: u64| #[trigger] a.contains_key(m) implies c.contains_key(m) && c[m]
        == a[m] by {
        assert(out[(m - 0) / 4096] == longer[(m - 0) / 4096]);
    }
    pages::lemma_mirrors_within(s, root, a, new_root, c);
    pages::lemma_unshared_within(a, new_root, c, true);
    assert(longer.subrange((new_root / 4096) as int, new_root / 4096 + n) =~= out.subrange(
        (new_root / 4096) as int,
        new_root / 4096 + n,
    ));
}

proof fn lemma_prefixes<A>(a: Seq<A>, b: Seq<A>, c: Seq<A>)
    requires
        a.is_prefix_of(b),
        b.is_prefix_of(c),
    ensures
        a.is_prefix_of(c),
{
    assert(c.subrange(0, a.len() as int) =~= b.subrange(0, a.len() as int));
}

/// Whether the tables were copied to pages in a row, one after the other, with
/// their roots at the offsets `o`.
pub open spec fn tables_written(
    s: Map<u64, PageView<Entry>>,
    t: Tables,
    apply_counter: u64,
    o: DbOffsets,
    out: Seq<PageView<Entry>>,
) -> bool {
    &&& out.len() == total_pages(s, t)
    &&& o.size == BLOCK_SIZE * out.len()
    &&& o.apply_counter == apply_counter
    &&& copied_out(s, t.internal, out, o.internal)
    &&& copied_out(s, t.external, out, o.external)
    &&& copied_out(s, t.graph, out, o.graph)
    &&& copied_out(s, t.changes, out, o.changes)
    &&& copied_out(s, t.revchanges, out, o.revchanges)
    &&& copied_out(s, t.states, out, o.states)
    &&& copied_out(s, t.tags, out, o.tags)
    &&& o.internal == 0
    &&& o.external == o.internal + BLOCK_SIZE * pages::page_count(s, t.internal)
    &&& o.graph == o.external + BLOCK_SIZE * pages::page_count(s, t.external)
    &&& o.changes == o.graph + BLOCK_SIZE * pages::page_count(s, t.graph)
    &&& o.revchanges == o.changes + BLOCK_SIZE * pages::page_count(s, t.changes)
    &&& o.states == o.revchanges + BLOCK_SIZE * pages::page_count(s, t.revchanges)
    &&& o.tags == o.states + BLOCK_SIZE * pages::page_count(s, t.states)
}

proof fn lemma_written(
    s: Map<u64, PageView<Entry>>,
    t: Tables,
    o: DbOffsets,
    out: Seq<PageView<Entry>>,
)
    requires
        holds_copy(s, t.internal, out, o.internal),
        holds_copy(s, t.external, out, o.external),
        holds_copy(s, t.graph, out, o.graph),
        holds_copy(s, t.changes, out, o.changes),
        holds_copy(s, t.revchanges, out, o.revchanges),
        holds_copy(s, t.states, out, o.states),
        holds_copy(s, t.tags, out, o.tags),
        o.size == BLOCK_SIZE * out.len(),
        out.len() == total_pages(s, t),
        o.internal == 0,
        o.external == o.internal + BLOCK_SIZE * pages::page_count(s, t.internal),
        o.graph == o.external + BLOCK_SIZE * pages::page_count(s, t.external),
        o.changes == o.graph + BLOCK_SIZE * pages::page_count(s, t.graph),
        o.revchanges == o.changes + BLOCK_SIZE * pages::page_count(s, t.changes),
        o.states == o.revchanges + BLOCK_SIZE * pages::page_count(s, t.revchanges),
        o.tags == o.states + BLOCK_SIZE * pages::page_count(s, t.states),
    ensures
        tables_written(s, t, o.apply_counter, o, out),
{
    reveal(holds_copy);
}

/// Copies the tables to pages in a row. Gives where their roots are among
/// these, and the pages.
pub fn compress_channel(
    store: &HashMap<u64, Page<Entry>>,
    tables: &Tables,
    apply_counter: u64,
) -> (r: (DbOffsets, Vec<Page<Entry>>))
    requires
        copyable(pages::page_views(store@), tables.internal),
        copyable(pages::page_views(store@), tables.external),
        copyable(pages::page_views(store@), tables.graph),
        copyable(pages::page_views(store@), tables.changes),
        copyable(pages::page_views(store@), tables.revchanges),
        copyable(pages::page_views(store@), tables.states),
        copyable(pages::page_views(store@), tables.tags),
        BLOCK_SIZE * total_pages(pages::page_views(store@), *tables) <= u64::MAX,
    ensures
        tables_written(
            pages::page_views(store@),
            *tables,
            apply_counter,
            r.0,
            copier::views(r.1@),
        ),
{
    let ghost s = pages::page_views(store@);
    let order = tables.in_writing_order();
    let mut all: Vec<Page<Entry>> = Vec::new();
    let mut new: u64 = 0;
    let internal: u64 = append_copy(store, order[0].1, &mut new, &mut all);
    let ghost m1 = copier::views(all@);
    let external: u64 = append_copy(store, order[1].1, &mut new, &mut all);
    let ghost m2 = copier::views(all@);
    let graph: u64 = append_copy(store, order[2].1, &mut new, &mut all);
    let ghost m3 = copier::views(all@);
    let changes: u64 = append_copy(store, order[3].1, &mut new, &mut all);
    let ghost m4 = copier::views(all@);
    let revchanges: u64 = append_copy(store, order[4].1, &mut new, &mut all);
    let ghost m5 = copier::views(all@);
    let states: u64 = append_copy(store, order[5].1, &mut new, &mut all);
    let ghost m6 = copier::views(all@);
    let tags: u64 = append_copy(store, order[6].1, &mut new, &mut all);
    let ghost m7 = copier::views(all@);
    proof {
        lemma_prefixes(m5, m6, m7);
        lemma_prefixes(m4, m5, m7);
        lemma_prefixes(m3, m4, m7);
        lemma_prefixes(m2, m3, m7);
        lemma_prefixes(m1, m2, m7);
        lemma_still_copied_out(s, tables.internal, m1, internal, m7);
        lemma_still_copied_out(s, tables.external, m2, external, m7);
        lemma_still_copied_out(s, tables.graph, m3, graph, m7);
        lemma_still_copied_out(s, tables.changes, m4, changes, m7);
        lemma_still_copied_out(s, tables.revchanges, m5, revchanges, m7);
        lemma_still_copied_out(s, tables.states, m6, states, m7);
    }
    let roots: [u64; 7] = [internal, external, graph, changes, revchanges, states, tags];
    let offsets = written_offsets(&roots, apply_counter, new);
    proof {
        lemma_written(s, *tables, offsets, m7);
    }
    (offsets, all)
}

/// The identifier of a channel towards other repositories.
#[derive(Clone, Copy)]
pub struct RemoteId(pub [u8; 16]);

/// A channel of a repository: the roots of its tables, and what goes with
/// them.
pub struct Channel {
    pub graph: u64,
    pub changes: u64,
    pub revchanges: u64,
    pub states: u64,
    pub tags: u64,
    pub apply_counter: u64,
    pub name: String,
    pub last_modified: u64,
    pub id: RemoteId,
}

/// The roots of the tables of a channel.
#[derive(Clone, Copy)]
pub struct ChannelRoots {
    pub graph: u64,
    pub changes: u64,
    pub revchanges: u64,
    pub states: u64,
    pub tags: u64,
}

impl ChannelRoots {
    /// The roots, in the order in which the tables were put back.
    pub fn restored(roots: &[u64; 5]) -> (r: ChannelRoots)
        ensures
            r == (ChannelRoots {
                graph: roots@[0],
                changes: roots@[1],
                revchanges: roots@[2],
                states: roots@[3],
                tags: roots@[4],
            }),
    {
        ChannelRoots {
            graph: roots[0],
            changes: roots[1],
            revchanges: roots[2],
            states: roots[3],
            tags: roots[4],
        }
    }
}

/// What a channel says.
pub struct ChannelView {
    pub roots: ChannelRoots,
    pub apply_counter: u64,
    pub name: Seq<char>,
    pub last_modified: u64,
    pub id: RemoteId,
}

impl View for Channel {
    type V = ChannelView;

    open spec fn view(&self) -> ChannelView {
        ChannelView {
            roots: self.roots(),
            apply_counter: self.apply_counter,
            name: self.name@,
            last_modified: self.last_modified,
            id: self.id,
        }
    }
}

impl Channel {
    /// The same channel.
    pub fn copied(&self) -> (r: Channel)
        ensures
            r@ == self@,
    {
        Channel {
            graph: self.graph,
            changes: self.changes,
            revchanges: self.revchanges,
            states: self.states,
            tags: self.tags,
            apply_counter: self.apply_counter,
            name: self.name.clone(),
            last_modified: self.last_modified,
            id: self.id,
        }
    }

    /// The roots of the tables.
    pub open spec fn roots(&self) -> ChannelRoots {
        ChannelRoots {
            graph: self.graph,
            changes: self.changes,
            revchanges: self.revchanges,
            states: self.states,
            tags: self.tags,
        }
    }

    /// Whether this is a channel with the given tables and name, not modified
    /// so far.
    pub open spec fn has(&self, roots: ChannelRoots, apply_counter: u64, name: Seq<char>) -> bool {
        &&& self.roots() == roots
        &&& self.apply_counter == apply_counter
        &&& self.name@ == name
        &&& self.last_modified == 0
    }

    /// The channel with the given tables, name and identifier.
    pub fn with_id(roots: ChannelRoots, apply_counter: u64, name: &str, id: RemoteId) -> (r: Channel)
        ensures
            r.has(roots, apply_counter, name@),
            r.id == id,
    {
        Channel {
            graph: roots.graph,
            changes: roots.changes,
            revchanges: roots.revchanges,
            states: roots.states,
            tags: roots.tags,
            apply_counter,
            name: name.to_owned(),
            last_modified: 0,
            id,
        }
    }

    /// A channel with the given tables and name, and an identifier made at
    /// random.
    pub fn with_random_id(roots: ChannelRoots, apply_counter: u64, name: &str) -> (r: Channel)
        ensures
            r.has(roots, apply_counter, name@),
    {
        Channel::with_id(roots, apply_counter, name, random_id())
    }
}

/// The number of pages of the tables that are put back.
pub open spec fn restored_pages(s: Map<u64, PageView<Entry>>, o: DbOffsets) -> nat {
    pages::page_count(s, o.graph) + pages::page_count(s, o.changes) + pages::page_count(
        s,
        o.revchanges,
    ) + pages::page_count(s, o.states) + pages::page_count(s, o.tags)
}

/// Whether the tree at `root` can be put back in a repository that reads
/// change identifiers by `local`.
pub open spec fn restorable_in(
    s: Map<u64, PageView<Entry>>,
    root: u64,
    local: Map<u64, u64>,
) -> bool {
    &&& restorable(s, root)
    &&& restorer::all_fixed_by(pages::contents(s, root), local)
}

/// Whether `all` holds a copy of the tree at `root`, at `new_root`, whose
/// pages are those that come after `from` others, depth first and the last
/// child first, and which took the pages of `fresh` in order.
pub open spec fn put_back(
    s: Map<u64, PageView<Entry>>,
    root: u64,
    all: Seq<(u64, Page<Entry>)>,
    from: nat,
    fresh: Seq<u64>,
    new_root: u64,
) -> bool {
    let n = pages::page_count(s, root);
    &&& pages::mirrors(s, root, restorer::placed(all), new_root)
    &&& from + n <= all.len() <= fresh.len()
    &&& new_root == fresh[from as int]
    &&& pages::all_kids(
        restorer::placed_views(all.subrange(from as int, (from + n) as int)),
    ) == fresh.subrange((from + 1) as int, (from + n) as int)
    &&& restorer::offsets_of(all.subrange(from as int, (from + n) as int)) == pages::walk(
        restorer::placed(all),
        new_root,
    )
}

/// Whether the pages stand at the first offsets of `fresh`, each at another
/// one.
pub open spec fn fills(all: Seq<(u64, Page<Entry>)>, fresh: Seq<u64>) -> bool {
    &&& all.len() <= fresh.len()
    &&& restorer::offsets_of(all).no_duplicates()
    &&& restorer::offsets_of(all).to_set() == fresh.take(all.len() as int).to_set()
}

/// Puts a tree back after the pages in `all`.
fn append_restore(
    store: &HashMap<u64, Page<Entry>>,
    root: u64,
    fresh: &Vec<u64>,
    local: &HashMap<u64, u64>,
    all: &mut Vec<(u64, Page<Entry>)>,
) -> (r: u64)
    requires
        restorable_in(pages::page_views(store@), root, local@),
        fresh@.no_duplicates(),
        !fresh@.contains(0),
        fills(old(all)@, fresh@),
        old(all)@.len() + pages::page_count(pages::page_views(store@), root) <= fresh@.len(),
    ensures
        final(all)@.len() == old(all)@.len() + pages::page_count(
            pages::page_views(store@),
            root,
        ),
        fills(final(all)@, fresh@),
        put_back(
            pages::page_views(store@),
            root,
            final(all)@,
            old(all)@.len(),
            fresh@,
            r,
        ),
        old(all)@.is_prefix_of(final(all)@),
{
    let ghost before = all@;
    assert(all.len() <= fresh.len());
    let rest = restorer::sublist(fresh, all.len(), fresh.len() - all.len());
    proof {
        assert forall|i: int, j: int| 0 <= i < j < rest@.len() implies rest@[i] != rest@[j] by {
            assert(rest@[i] == fresh@[before.len() + i]);
            assert(rest@[j] == fresh@[before.len() + j]);
        }
        if rest@.contains(0) {
            let i = choose|i: int| 0 <= i < rest@.len() && rest@[i] == 0;
            assert(fresh@[before.len() + i] == 0);
        }
    }
    let (r, part) = restorer::restore(store, root, &rest, local);
    let mut part = part;
    let ghost added = part@;
    all.append(&mut part);
    proof {
        assert(pages::is_tree(pages::page_views(store@), root));
        assert(pages::spans(
            pages::page_views(store@),
            root,
            pages::height(pages::page_views(store@), root),
        ));
        lemma_fills(before, added, fresh@, rest@);
        lemma_placed_parts(before, added);
        pages::lemma_mirrors_within(
            pages::page_views(store@),
            root,
            restorer::placed(added),
            r,
            restorer::placed(before + added),
        );
        pages::lemma_mirrors(pages::page_views(store@), root, restorer::placed(added), r);
        pages::lemma_walk_within(restorer::placed(added), r, restorer::placed(before + added));
        assert(all@ =~= before + added);
        assert(all@.subrange(before.len() as int, all@.len() as int) =~= added);
        assert(rest@.subrange(1, added.len() as int) =~= fresh@.subrange(
            (before.len() + 1) as int,
            (before.len() + added.len()) as int,
        ));
    }
    r
}

/// Pages that fill the next offsets.
proof fn lemma_fills(
    before: Seq<(u64, Page<Entry>)>,
    added: Seq<(u64, Page<Entry>)>,
    fresh: Seq<u64>,
    rest: Seq<u64>,
)
    requires
        fresh.no_duplicates(),
        fills(before, fresh),
        fills(added, rest),
        rest == fresh.subrange(before.len() as int, fresh.len() as int),
    ensures
        fills(before + added, fresh),
{
    let all = before + added;
    let a = restorer::offsets_of(before);
    let b = restorer::offsets_of(added);
    let c = restorer::offsets_of(all);
    let m = before.len() as int;
    assert(c =~= a + b);
    assert forall|x: u64| a.contains(x) implies !(#[trigger] b.contains(x)) by {
        assert(a.to_set().contains(x));
        let i = choose|i: int| 0 <= i < m && fresh.take(m)[i] == x;
        if b.contains(x) {
            assert(b.to_set().contains(x));
            let t = rest.take(added.len() as int);
            assert(t.contains(x));
            let j = choose|j: int| 0 <= j < t.len() && t[j] == x;
            assert(fresh[m + j] == fresh[i]);
        }
    }
    assert forall|i: int, j: int| 0 <= i < j < c.len() implies c[i] != c[j] by {
        if i < m && j >= m {
            assert(a[i] == c[i]);
            assert(b[j - m] == c[j]);
            assert(a.contains(c[i]));
            assert(b.contains(c[j]));
        } else if j < m {
            assert(a[i] == c[i] && a[j] == c[j]);
        } else {
            assert(b[i - m] == c[i] && b[j - m] == c[j]);
        }
    }
    let t = fresh.take(all.len() as int);
    assert forall|x: u64| c.to_set().contains(x) == t.to_set().contains(x) by {
        let t1 = fresh.take(m);
        let t2 = rest.take(added.len() as int);
        assert(a.to_set().contains(x) == t1.to_set().contains(x));
        assert(b.to_set().contains(x) == t2.to_set().contains(x));
        if c.contains(x) {
            let i = choose|i: int| 0 <= i < c.len() && c[i] == x;
            if i < m {
                assert(a[i] == x);
                let j = choose|j: int| 0 <= j < t1.len() && t1[j] == x;
                assert(t[j] == x);
            } else {
                assert(b[i - m] == x);
                let j = choose|j: int| 0 <= j < t2.len() && t2[j] == x;
                assert(t[m + j] == x);
            }
        }
        if t.contains(x) {
            let i = choose|i: int| 0 <= i < t.len() && t[i] == x;
            if i < m {
                assert(t1[i] == x);
                let j = choose|j: int| 0 <= j < a.len() && a[j] == x;
                assert(c[j] == x);
            } else {
                assert(t2[i - m] == x);
                let j = choose|j: int| 0 <= j < b.len() && b[j] == x;
                assert(c[m + j] == x);
            }
        }
    }
    assert(c.to_set() =~= t.to_set());
}

/// Where pages at different offsets are.
proof fn lemma_placed(pages: Seq<(u64, Page<Entry>)>)
    requires
        restorer::offsets_of(pages).no_duplicates(),
    ensures
        forall|i: int|
            0 <= i < pages.len() ==> restorer::placed(pages).contains_key(
                (#[trigger] pages[i]).0,
            ) && restorer::placed(pages)[pages[i].0] == pages[i].1@,
        forall|n: u64| #[trigger]
            restorer::placed(pages).contains_key(n) ==> exists|i: int|
                0 <= i < pages.len() && #[trigger] pages[i].0 == n,
    decreases pages.len(),
{
    if pages.len() > 0 {
        let rest = pages.drop_last();
        let offs = restorer::offsets_of(pages);
        assert(restorer::offsets_of(rest) =~= offs.drop_last());
        lemma_placed(rest);
        assert forall|i: int| 0 <= i < pages.len() implies restorer::placed(pages).contains_key(
            (#[trigger] pages[i]).0,
        ) && restorer::placed(pages)[pages[i].0] == pages[i].1@ by {
            if i < pages.len() - 1 {
                assert(rest[i] == pages[i]);
                assert(offs[i] == pages[i].0);
                assert(offs[pages.len() - 1] == pages.last().0);
            }
        }
        assert forall|n: u64| #[trigger] restorer::placed(pages).contains_key(n) implies exists|
            i: int,
        |
            0 <= i < pages.len() && #[trigger] pages[i].0 == n by {
            if n == pages.last().0 {
                assert(pages[pages.len() - 1].0 == n);
            } else {
                assert(restorer::placed(rest).contains_key(n));
                let i = choose|i: int| 0 <= i < rest.len() && #[trigger] rest[i].0 == n;
                assert(pages[i].0 == n);
            }
        }
    }
}

/// Pages are among more pages.
proof fn lemma_placed_parts(before: Seq<(u64, Page<Entry>)>, added: Seq<(u64, Page<Entry>)>)
    requires
        restorer::offsets_of(before + added).no_duplicates(),
    ensures
        pages::within(restorer::placed(before), restorer::placed(before + added)),
        pages::within(restorer::placed(added), restorer::placed(before + added)),
{
    let all = before + added;
    let offs = restorer::offsets_of(all);
    let m = before.len() as int;
    assert(restorer::offsets_of(before) =~= offs.take(m));
    assert(restorer::offsets_of(added) =~= offs.skip(m));
    assert forall|i: int, j: int| 0 <= i < j < added.len() implies offs.skip(m)[i]
        != offs.skip(m)[j] by {
        assert(offs[m + i] != offs[m + j]);
    }
    lemma_placed(all);
    lemma_placed(before);
    lemma_placed(added);
    assert forall|n: u64| #[trigger] restorer::placed(before).contains_key(
        n,
    ) implies restorer::placed(all).contains_key(n) && restorer::placed(all)[n]
        == restorer::placed(before)[n] by {
        let i = choose|i: int| 0 <= i < before.len() && #[trigger] before[i].0 == n;
        assert(all[i] == before[i]);
    }
    assert forall|n: u64| #[trigger] restorer::placed(added).contains_key(
        n,
    ) implies restorer::placed(all).contains_key(n) && restorer::placed(all)[n]
        == restorer::placed(added)[n] by {
        let i = choose|i: int| 0 <= i < added.len() && #[trigger] added[i].0 == n;
        assert(all[m + i] == added[i]);
    }
}

/// A tree that was put back stays so when more pages follow.
proof fn lemma_still_put_back(
    s: Map<u64, PageView<Entry>>,
    root: u64,
    all: Seq<(u64, Page<Entry>)>,
    from: nat,
    fresh: Seq<u64>,
    new_root: u64,
    longer: Seq<(u64, Page<Entry>)>,
)
    requires
        pages::is_tree(s, root),
        put_back(s, root, all, from, fresh, new_root),
        all.is_prefix_of(longer),
        fills(longer, fresh),
    ensures
        put_back(s, root, longer, from, fresh, new_root),
{
    let n = pages::page_count(s, root);
    let added = longer.skip(all.len() as int);
    assert(longer =~= all + added);
    lemma_placed_parts(all, added);
    pages::lemma_mirrors_within(
        s,
        root,
        restorer::placed(all),
        new_root,
        restorer::placed(longer),
    );
    pages::lemma_mirrors(s, root, restorer::placed(all), new_root);
    pages::lemma_walk_within(restorer::placed(all), new_root, restorer::placed(longer));
    assert(longer.subrange(from as int, (from + n) as int) =~= all.subrange(
        from as int,
        (from + n) as int,
    ));
}

/// Whether the tables at the offsets `o` were put back, with the given roots,
/// in the pages in `all`.
pub open spec fn tables_put_back(
    s: Map<u64, PageView<Entry>>,
    o: DbOffsets,
    all: Seq<(u64, Page<Entry>)>,
    fresh: Seq<u64>,
    c: ChannelRoots,
) -> bool {
    let n1 = pages::page_count(s, o.graph);
    let n2 = n1 + pages::page_count(s, o.changes);
    let n3 = n2 + pages::page_count(s, o.revchanges);
    let n4 = n3 + pages::page_count(s, o.states);
    &&& put_back(s, o.graph, all, 0, fresh, c.graph)
    &&& put_back(s, o.changes, all, n1, fresh, c.changes)
    &&& put_back(s, o.revchanges, all, n2, fresh, c.revchanges)
    &&& put_back(s, o.states, all, n3, fresh, c.states)
    &&& put_back(s, o.tags, all, n4, fresh, c.tags)
    &&& all.len() == restored_pages(s, o)
    &&& fills(all, fresh)
}

/// Puts the tables of a channel back in the pages in `fresh`, which are taken
/// in order. Gives the roots of the tables, and the pages with their offsets.
pub fn restore_tables(
    offsets: &DbOffsets,
    store: &HashMap<u64, Page<Entry>>,
    local: &HashMap<u64, u64>,
    fresh: &Vec<u64>,
) -> (r: (ChannelRoots, Vec<(u64, Page<Entry>)>))
    requires
        tables_restorable(pages::page_views(store@), *offsets, local@, fresh@),
    ensures
        tables_put_back(pages::page_views(store@), *offsets, r.1@, fresh@, r.0),
{
    let ghost s = pages::page_views(store@);
    let order = in_restoring_order(offsets);
    let mut all: Vec<(u64, Page<Entry>)> = Vec::new();
    proof {
        assert(restorer::offsets_of(all@).to_set() =~= fresh@.take(0).to_set());
    }
    let graph: u64 = append_restore(store, order[0].1, fresh, local, &mut all);
    let ghost m1 = all@;
    let changes: u64 = append_restore(store, order[1].1, fresh, local, &mut all);
    let ghost m2 = all@;
    let revchanges: u64 = append_restore(store, order[2].1, fresh, local, &mut all);
    let ghost m3 = all@;
    let states: u64 = append_restore(store, order[3].1, fresh, local, &mut all);
    let ghost m4 = all@;
    let tags: u64 = append_restore(store, order[4].1, fresh, local, &mut all);
    proof {
        let m5 = all@;
        lemma_prefixes(m3, m4, m5);
        lemma_prefixes(m2, m3, m5);
        lemma_prefixes(m1, m2, m5);
        lemma_still_put_back(s, offsets.graph, m1, 0, fresh@, graph, m5);
        lemma_still_put_back(s, offsets.changes, m2, m1.len(), fresh@, changes, m5);
        lemma_still_put_back(s, offsets.revchanges, m3, m2.len(), fresh@, revchanges, m5);
        lemma_still_put_back(s, offsets.states, m4, m3.len(), fresh@, states, m5);
    }
    let roots: [u64; 5] = [graph, changes, revchanges, states, tags];
    (ChannelRoots::restored(&roots), all)
}

/// `rand::Rng::gen`, for a byte, on the generator of the current thread. Any
/// byte can come.
#[verifier::external_body]
fn random_byte() -> u8 {
    rand::Rng::gen(&mut rand::thread_rng())
}

/// An identifier made at random, byte by byte. Any identifier can come.
fn random_id() -> RemoteId {
    let mut id: [u8; 16] = [0u8; 16];
    let mut i: usize = 0;
    while i < 16
        invariant
            i <= 16,
        decreases 16 - i,
    {
        id[i] = random_byte();
        i = i + 1;
    }
    RemoteId(id)
}

/// The open channels by their names. Of two with one name the first counts.
pub open spec fn open_by_name(open: Seq<Channel>) -> Map<Seq<char>, ChannelView>
    decreases open.len(),
{
    if open.len() == 0 {
        Map::empty()
    } else {
        open_by_name(open.skip(1)).insert(open[0].name@, open[0]@)
    }
}

/// Opens a channel under its name, in place of one that is open under it.
pub fn open_channel(open: &mut Vec<Channel>, channel: &Channel)
    ensures
        open_by_name(final(open)@) == open_by_name(old(open)@).insert(channel.name@, channel@),
{
    let ghost before = open@;
    let mut i: usize = 0;
    while i < open.len()
        invariant
            i <= open@.len(),
            open@ == before,
            before == old(open)@,
            forall|j: int| 0 <= j < i ==> (#[trigger] open@[j]).name@ != channel.name@,
        decreases open.len() - i,
    {
        if open[i].name == channel.name {
            let c = channel.copied();
            proof {
                lemma_replaced(before, i as int, c);
            }
            open.set(i, c);
            return;
        }
        i = i + 1;
    }
    let c = channel.copied();
    proof {
        lemma_opened(before, c);
    }
    open.push(c);
}

proof fn lemma_replaced(open: Seq<Channel>, i: int, c: Channel)
    requires
        0 <= i < open.len(),
        open[i].name@ == c.name@,
        forall|j: int| 0 <= j < i ==> (#[trigger] open[j]).name@ != c.name@,
    ensures
        open_by_name(open.update(i, c)) == open_by_name(open).insert(c.name@, c@),
    decreases i,
{
    let rest = open.skip(1);
    if i == 0 {
        assert(open.update(i, c).skip(1) =~= rest);
    } else {
        assert(open[0].name@ != c.name@);
        assert forall|j: int| 0 <= j < i - 1 implies (#[trigger] rest[j]).name@ != c.name@ by {
            assert(rest[j] == open[j + 1]);
        }
        lemma_replaced(rest, i - 1, c);
        assert(open.update(i, c).skip(1) =~= rest.update(i - 1, c));
    }
    assert(open_by_name(open.update(i, c)) =~= open_by_name(open).insert(c.name@, c@));
}

proof fn lemma_opened(open: Seq<Channel>, c: Channel)
    requires
        forall|j: int| 0 <= j < open.len() ==> (#[trigger] open[j]).name@ != c.name@,
    ensures
        open_by_name(open.push(c)) == open_by_name(open).insert(c.name@, c@),
    decreases open.len(),
{
    reveal_with_fuel(open_by_name, 2);
    let rest = open.skip(1);
    if open.len() == 0 {
        assert(open.push(c).skip(1) =~= Seq::empty());
    } else {
        assert(open[0].name@ != c.name@);
        assert forall|j: int| 0 <= j < rest.len() implies (#[trigger] rest[j]).name@ != c.name@ by {
            assert(rest[j] == open[j + 1]);
        }
        lemma_opened(rest, c);
        assert(open.push(c).skip(1) =~= rest.push(c));
    }
    assert(open_by_name(open.push(c)) =~= open_by_name(open).insert(c.name@, c@));
}

/// Whether the tables of a tag file with these offsets can be put back, from
/// the pages in `s`, in a repository that reads change identifiers by `local`,
/// in the pages in `fresh`.
pub open spec fn tables_restorable(
    s: Map<u64, PageView<Entry>>,
    o: DbOffsets,
    local: Map<u64, u64>,
    fresh: Seq<u64>,
) -> bool {
    &&& restorable_in(s, o.graph, local)
    &&& restorable_in(s, o.changes, local)
    &&& restorable_in(s, o.revchanges, local)
    &&& restorable_in(s, o.states, local)
    &&& restorable_in(s, o.tags, local)
    &&& restored_pages(s, o) <= fresh.len()
    &&& fresh.no_duplicates()
    &&& !fresh.contains(0)
}

/// Whether the pages of a tag file are all there, and have a table of frames.
pub open spec fn pages_readable(tag: OpenTagFile) -> bool {
    tag::packed_pages(tag.file@, tag.header) matches Some(packed) && zstd::seekable_ok(packed)
}

/// Whether the pages of a tag file do not decompress, though they have a table
/// of frames.
pub open spec fn pages_damaged(tag: OpenTagFile) -> bool {
    &&& tag::packed_pages(tag.file@, tag.header) matches Some(packed)
    &&& zstd::seekable_ok(packed)
    &&& tag::unpacked_pages(packed, tag.header).0 is None
}

/// What putting the channel of a tag file back gives, and how it changes the
/// open channels.
pub open spec fn channel_restored(
    tag: OpenTagFile,
    s: Map<u64, PageView<Entry>>,
    fresh: Seq<u64>,
    name: Seq<char>,
    before: Seq<Channel>,
    after: Seq<Channel>,
    r: Result<(Channel, Vec<(u64, Page<Entry>)>), TagError>,
) -> bool {
    match tag::packed_pages(tag.file@, tag.header) {
        None => r matches Err(e) && e == TagError::Io && after == before,
        Some(packed) => if !zstd::seekable_ok(packed) {
            r matches Err(e) && e is Zstd && after == before
        } else {
            &&& r matches Ok((c, all))
            &&& c.has(c.roots(), tag.header.offsets.apply_counter, name)
            &&& tables_put_back(s, tag.header.offsets, all@, fresh, c.roots())
            &&& open_by_name(after) == open_by_name(before).insert(name, c@)
        },
    }
}

/// Puts the channel of a tag file back under the given name, with the pages of
/// the file in `store`, in the pages in `fresh`, which are taken in order, and
/// opens it. Gives the channel, whose identifier is made at random, and its
/// pages with their offsets. Nothing changes if the pages cannot be read from
/// the file.
pub fn restore_channel(
    tag: &OpenTagFile,
    store: &HashMap<u64, Page<Entry>>,
    local: &HashMap<u64, u64>,
    fresh: &Vec<u64>,
    name: &str,
    open: &mut Vec<Channel>,
) -> (r: Result<(Channel, Vec<(u64, Page<Entry>)>), TagError>)
    requires
        tag.header.channel <= tag.header.unhashed,
        tag.header.offsets.size <= usize::MAX,
        !pages_damaged(*tag),
        pages_readable(*tag) ==> tables_restorable(
            pages::page_views(store@),
            tag.header.offsets,
            local@,
            fresh@,
        ),
    ensures
        channel_restored(
            *tag,
            pages::page_views(store@),
            fresh@,
            name@,
            old(open)@,
            final(open)@,
            r,
        ),
{
    match tag.unpack() {
        Ok(_) => {
            let (roots, all) = restore_tables(&tag.header.offsets, store, local, fresh);
            let channel = Channel::with_random_id(roots, tag.header.offsets.apply_counter, name);
            open_channel(open, &channel);
            Ok((channel, all))
        },
        Err(e) => Err(e),
    }
}

/// The same, unless the pages of the file do not decompress though they have a
/// table of frames: nothing is then given, and nothing changes.
pub fn restore_intact_channel(
    tag: &OpenTagFile,
    store: &HashMap<u64, Page<Entry>>,
    local: &HashMap<u64, u64>,
    fresh: &Vec<u64>,
    name: &str,
    open: &mut Vec<Channel>,
) -> (r: Result<Option<(Channel, Vec<(u64, Page<Entry>)>)>, TagError>)
    requires
        tag.header.channel <= tag.header.unhashed,
        tag.header.offsets.size <= usize::MAX,
        tag::packed_pages(tag.file@, tag.header) is Some ==> tables_restorable(
            pages::page_views(store@),
            tag.header.offsets,
            local@,
            fresh@,
        ),
    ensures
        match r {
            Ok(None) => pages_damaged(*tag) && final(open)@ == old(open)@,
            Ok(Some(done)) => {
                &&& !pages_damaged(*tag)
                &&& channel_restored(
                    *tag,
                    pages::page_views(store@),
                    fresh@,
                    name@,
                    old(open)@,
                    final(open)@,
                    Ok(done),
                )
            },
            Err(e) => channel_restored(
                *tag,
                pages::page_views(store@),
                fresh@,
                name@,
                old(open)@,
                final(open)@,
                Err(e),
            ),
        },
{
    match tag.unpack() {
        Ok(unpacked) => {
            if unpacked.read.is_err() {
                return Ok(None);
            }
        },
        Err(e) => {
            return Err(e);
        },
    }
    match restore_channel(tag, store, local, fresh, name, open) {
        Ok(done) => Ok(Some(done)),
        Err(e) => Err(e),
    }
}

/// A table that was written out and then put back, in a repository that reads
/// every change identifier in it as itself, has the same entries as before, in
/// as many pages, and it can always be put back.
pub proof fn law_tables_come_back(
    s: Map<u64, PageView<Entry>>,
    root: u64,
    out: Seq<PageView<Entry>>,
    new_root: u64,
    local: Map<u64, u64>,
    all: Seq<(u64, Page<Entry>)>,
    from: nat,
    fresh: Seq<u64>,
    last_root: u64,
)
    requires
        pages::is_tree(s, root),
        copied_out(s, root, out, new_root),
        restorer::all_fixed_by(pages::contents(s, root), local),
    ensures
        restorable_in(copier::image(0, out), new_root, local),
        put_back(copier::image(0, out), new_root, all, from, fresh, last_root) ==> {
            &&& pages::is_tree(restorer::placed(all), last_root)
            &&& pages::contents(restorer::placed(all), last_root) == pages::contents(s, root)
            &&& pages::page_count(restorer::placed(all), last_root) == pages::page_count(s, root)
        },
{
    let im = copier::image(0, out);
    pages::lemma_mirrors(s, root, im, new_root);
    if put_back(im, new_root, all, from, fresh, last_root) {
        pages::law_copies_of_copies(s, root, im, new_root, restorer::placed(all), last_root);
    }
}

/// The pages among these bytes, at the offsets of their numbers, where
/// `decode` says what a page with given bytes holds.
pub open spec fn decoded_pages(
    bytes: Seq<u8>,
    decode: spec_fn(Seq<u8>) -> PageView<Entry>,
) -> Map<u64, PageView<Entry>> {
    Map::new(
        |off: u64| off % 4096 == 0 && off + BLOCK_SIZE <= bytes.len(),
        |off: u64| decode(bytes.subrange(off as int, off + BLOCK_SIZE)),
    )
}

/// Pages that were written as bytes, and are read as what was written, are
/// those at the offsets of their numbers.
proof fn lemma_decoded(
    out: Seq<PageView<Entry>>,
    bytes: Seq<Vec<u8>>,
    decode: spec_fn(Seq<u8>) -> PageView<Entry>,
)
    requires
        bytes.len() == out.len(),
        out.len() > 0,
        forall|i: int| 0 <= i < bytes.len() ==> (#[trigger] bytes[i])@.len() == BLOCK_SIZE,
        forall|i: int| 0 <= i < bytes.len() ==> decode((#[trigger] bytes[i])@) == out[i],
    ensures
        decoded_pages(zstd::joined(bytes), decode) == copier::image(0, out),
{
    let joined = zstd::joined(bytes);
    let a = decoded_pages(joined, decode);
    let b = copier::image(0, out);
    zstd::law_pages_in_a_row(bytes, 0);
    assert forall|off: u64| a.contains_key(off) == b.contains_key(off) by {
        assert((off - 0) % 4096 == off % 4096);
    }
    assert forall|off: u64| a.contains_key(off) implies #[trigger] a[off] == b[off] by {
        let i = (off - 0) / 4096;
        zstd::law_pages_in_a_row(bytes, i);
        assert(off == BLOCK_SIZE * i);
        assert(decode(bytes[i]@) == out[i]);
    }
    assert(a =~= b);
}

/// The entries of the tables of a channel, each table in order.
pub struct TableEntries {
    pub graph: Seq<Entry>,
    pub changes: Seq<Entry>,
    pub revchanges: Seq<Entry>,
    pub states: Seq<Entry>,
    pub tags: Seq<Entry>,
}

/// The entries of the tables with these roots.
pub open spec fn entries_in(s: Map<u64, PageView<Entry>>, roots: ChannelRoots) -> TableEntries {
    TableEntries {
        graph: pages::contents(s, roots.graph),
        changes: pages::contents(s, roots.changes),
        revchanges: pages::contents(s, roots.revchanges),
        states: pages::contents(s, roots.states),
        tags: pages::contents(s, roots.tags),
    }
}

impl Tables {
    /// The roots of the tables of the channel itself.
    pub open spec fn roots(&self) -> ChannelRoots {
        ChannelRoots {
            graph: self.graph,
            changes: self.changes,
            revchanges: self.revchanges,
            states: self.states,
            tags: self.tags,
        }
    }
}

/// Whether the tables of a channel, put back with these roots in the pages in
/// `all`, hold what those of `t` hold, in as many pages.
pub open spec fn same_tables(
    s: Map<u64, PageView<Entry>>,
    t: Tables,
    all: Seq<(u64, Page<Entry>)>,
    roots: ChannelRoots,
) -> bool {
    let new = restorer::placed(all);
    &&& same_table(s, t.graph, new, roots.graph)
    &&& same_table(s, t.changes, new, roots.changes)
    &&& same_table(s, t.revchanges, new, roots.revchanges)
    &&& same_table(s, t.states, new, roots.states)
    &&& same_table(s, t.tags, new, roots.tags)
}

/// Whether two trees have the same entries in the same order, in as many
/// pages.
pub open spec fn same_table(
    s: Map<u64, PageView<Entry>>,
    root: u64,
    new: Map<u64, PageView<Entry>>,
    new_root: u64,
) -> bool {
    &&& pages::is_tree(new, new_root)
    &&& pages::contents(new, new_root) == pages::contents(s, root)
    &&& pages::page_count(new, new_root) == pages::page_count(s, root)
}

/// A channel comes back from its tag file. Its tables are written out (`o`,
/// `out`), the pages are turned into bytes that are read as what was written,
/// and compressed; the tag file made of them opens for the state that it was
/// made for, and its pages decompress. In a repository that reads every change
/// identifier in the tables as itself, the tables can be put back from the
/// pages of the file, and then hold the same entries in the same order. The
/// channel has the counter of the first one, and the name that was given. Its
/// state is that of the tag file, where `state_of` is how the state of a channel
/// follows from the entries of its tables, and the file was made for the state
/// of the first one.
#[verifier::rlimit(20)]
pub proof fn law_channels_come_back(
    s: Map<u64, PageView<Entry>>,
    t: Tables,
    apply_counter: u64,
    o: DbOffsets,
    out: Seq<PageView<Entry>>,
    bytes: Seq<Vec<u8>>,
    decode: spec_fn(Seq<u8>) -> PageView<Entry>,
    packed: Seq<u8>,
    state_of: spec_fn(TableEntries) -> Merkle,
    state: Merkle,
    description: Seq<u8>,
    local: Map<u64, u64>,
    tag: OpenTagFile,
    fresh: Seq<u64>,
    name: Seq<char>,
    before: Seq<Channel>,
    after: Seq<Channel>,
    r: Result<(Channel, Vec<(u64, Page<Entry>)>), TagError>,
)
    requires
        copyable(s, t.graph),
        copyable(s, t.changes),
        copyable(s, t.revchanges),
        copyable(s, t.states),
        copyable(s, t.tags),
        tables_written(s, t, apply_counter, o, out),
        bytes.len() == out.len(),
        forall|i: int| 0 <= i < bytes.len() ==> (#[trigger] bytes[i])@.len() == BLOCK_SIZE,
        forall|i: int| 0 <= i < bytes.len() ==> decode((#[trigger] bytes[i])@) == out[i],
        zstd::reads_back(packed, zstd::joined(bytes)),
        tag::READ_SIZE <= tag::HEADER_SIZE + description.len() + packed.len() <= u64::MAX,
        tag.file@ == tag::tag_file(o, state, description, packed),
        tag::opens(tag.file@, state, tag.header),
        state == state_of(entries_in(s, t.roots())),
        restorer::all_fixed_by(pages::contents(s, t.graph), local),
        restorer::all_fixed_by(pages::contents(s, t.changes), local),
        restorer::all_fixed_by(pages::contents(s, t.revchanges), local),
        restorer::all_fixed_by(pages::contents(s, t.states), local),
        restorer::all_fixed_by(pages::contents(s, t.tags), local),
        restored_pages(s, DbOffsets {
            graph: t.graph,
            changes: t.changes,
            revchanges: t.revchanges,
            states: t.states,
            tags: t.tags,
            ..o
        }) <= fresh.len(),
        fresh.no_duplicates(),
        !fresh.contains(0),
    ensures
        ({
            let unpacked = tag::unpacked_pages(packed, tag.header);
            let file_pages = decoded_pages(unpacked.1, decode);
            &&& tag::packed_pages(tag.file@, tag.header) == Some(packed)
            &&& zstd::seekable_ok(packed)
            &&& unpacked.0 is Some
            &&& tag.header.channel <= tag.header.unhashed
            &&& tables_restorable(file_pages, tag.header.offsets, local, fresh)
            &&& channel_restored(tag, file_pages, fresh, name, before, after, r) ==> {
                &&& r matches Ok((c, all))
                &&& same_tables(s, t, all@, c.roots())
                &&& c.apply_counter == apply_counter
                &&& c.name@ == name
                &&& tag.header.state == state
                &&& state_of(entries_in(restorer::placed(all@), c.roots())) == tag.header.state
            }
        }),
{
    let h = tag.header;
    tag::law_tag_files_open(o, state, description, packed, state, h);
    assert(pages::spans(s, t.graph, pages::height(s, t.graph)));
    assert(out.len() > 0) by {
        assert(pages::pages_to(s, t.graph, pages::height(s, t.graph)) >= 1);
    }
    zstd::law_pages_in_a_row(bytes, 0);
    tag::law_pages_come_back(o, state, description, packed, zstd::joined(bytes));
    lemma_decoded(out, bytes, decode);
    let im = copier::image(0, out);
    pages::lemma_mirrors(s, t.graph, im, o.graph);
    pages::lemma_mirrors(s, t.changes, im, o.changes);
    pages::lemma_mirrors(s, t.revchanges, im, o.revchanges);
    pages::lemma_mirrors(s, t.states, im, o.states);
    pages::lemma_mirrors(s, t.tags, im, o.tags);
    if channel_restored(tag, im, fresh, name, before, after, r) {
        let c = r->Ok_0.0;
        let new = restorer::placed(r->Ok_0.1@);
        pages::lemma_mirrors(im, o.graph, new, c.graph);
        pages::lemma_mirrors(im, o.changes, new, c.changes);
        pages::lemma_mirrors(im, o.revchanges, new, c.revchanges);
        pages::lemma_mirrors(im, o.states, new, c.states);
        pages::lemma_mirrors(im, o.tags, new, c.tags);
    }
}

/// A tag of a channel gives the state of the channel, whatever its description
/// and however its pages were compressed, so that another tag of the same tables
/// gives the same state. `state_of` is how the state of a channel follows from
/// the entries of its tables.
pub proof fn law_tags_give_the_state(
    s: Map<u64, PageView<Entry>>,
    roots: ChannelRoots,
    state_of: spec_fn(TableEntries) -> Merkle,
    state: Merkle,
    first: (DbOffsets, Seq<u8>, Seq<u8>, Result<(Vec<u8>, Merkle), TagError>),
    second: (DbOffsets, Seq<u8>, Seq<u8>, Result<(Vec<u8>, Merkle), TagError>),
)
    requires
        state == state_of(entries_in(s, roots)),
        tag::tagged(first.0, state, first.1, first.2, first.3),
        tag::tagged(second.0, state, second.1, second.2, second.3),
    ensures
        first.3 matches Ok((_, m)) && m == state_of(entries_in(s, roots)),
        second.3 matches Ok((_, m)) && first.3->Ok_0.1 == m,
{
}

/// The tables are written out in this order, and those of the channel itself
/// are put back in this order, each from its own root.
pub proof fn law_order_of_tables(t: Tables, o: DbOffsets)
    ensures
        writing_order(t).len() == 7,
        writing_order(t)[0] == (Table::Internal, t.internal),
        writing_order(t)[1] == (Table::External, t.external),
        writing_order(t)[2] == (Table::Graph, t.graph),
        writing_order(t)[3] == (Table::Changes, t.changes),
        writing_order(t)[4] == (Table::RevChanges, t.revchanges),
        writing_order(t)[5] == (Table::States, t.states),
        writing_order(t)[6] == (Table::Tags, t.tags),
        restoring_order(o).len() == 5,
        restoring_order(o)[0] == (Table::Graph, o.graph),
        restoring_order(o)[1] == (Table::Changes, o.changes),
        restoring_order(o)[2] == (Table::RevChanges, o.revchanges),
        restoring_order(o)[3] == (Table::States, o.states),
        restoring_order(o)[4] == (Table::Tags, o.tags),
{
}

/// The pages of the tables that were written out hold what the tables hold. The
/// tables follow each other, from the first page on, with no page in between and
/// none behind the last one.
pub proof fn law_tables_are_written(
    s: Map<u64, PageView<Entry>>,
    t: Tables,
    apply_counter: u64,
    o: DbOffsets,
    out: Seq<PageView<Entry>>,
)
    requires
        pages::is_tree(s, t.internal),
        pages::is_tree(s, t.external),
        pages::is_tree(s, t.graph),
        pages::is_tree(s, t.changes),
        pages::is_tree(s, t.revchanges),
        pages::is_tree(s, t.states),
        pages::is_tree(s, t.tags),
        tables_written(s, t, apply_counter, o, out),
    ensures
        ({
            let new = copier::image(0, out);
            let n1 = pages::page_count(s, t.internal);
            let n2 = n1 + pages::page_count(s, t.external);
            let n3 = n2 + pages::page_count(s, t.graph);
            let n4 = n3 + pages::page_count(s, t.changes);
            let n5 = n4 + pages::page_count(s, t.revchanges);
            let n6 = n5 + pages::page_count(s, t.states);
            &&& out.len() == n6 + pages::page_count(s, t.tags)
            &&& o.size == 4096 * out.len()
            &&& o.apply_counter == apply_counter
            &&& o.internal == 0
            &&& o.external == 4096 * n1
            &&& o.graph == 4096 * n2
            &&& o.changes == 4096 * n3
            &&& o.revchanges == 4096 * n4
            &&& o.states == 4096 * n5
            &&& o.tags == 4096 * n6
            &&& same_table(s, t.internal, new, o.internal)
            &&& same_table(s, t.external, new, o.external)
            &&& same_table(s, t.graph, new, o.graph)
            &&& same_table(s, t.changes, new, o.changes)
            &&& same_table(s, t.revchanges, new, o.revchanges)
            &&& same_table(s, t.states, new, o.states)
            &&& same_table(s, t.tags, new, o.tags)
        }),
{
    let new = copier::image(0, out);
    pages::lemma_mirrors(s, t.internal, new, o.internal);
    pages::lemma_mirrors(s, t.external, new, o.external);
    pages::lemma_mirrors(s, t.graph, new, o.graph);
    pages::lemma_mirrors(s, t.changes, new, o.changes);
    pages::lemma_mirrors(s, t.revchanges, new, o.revchanges);
    pages::lemma_mirrors(s, t.states, new, o.states);
    pages::lemma_mirrors(s, t.tags, new, o.tags);
}

/// A table that was written out stands in pages that follow each other, its root
/// first, and the children of its pages follow in the order of a search in
/// breadth. No page is a child twice.
pub proof fn law_written_tables(
    s: Map<u64, PageView<Entry>>,
    root: u64,
    out: Seq<PageView<Entry>>,
    new_root: u64,
)
    requires
        pages::is_tree(s, root),
        copied_out(s, root, out, new_root),
    ensures
        ({
            let new = copier::image(0, out);
            let from = (new_root / 4096) as int;
            let n = pages::page_count(s, root) as int;
            &&& new_root == 4096 * from
            &&& from + n <= out.len()
            &&& same_table(s, root, new, new_root)
            &&& pages::walk(new, new_root).skip(1).no_duplicates()
            &&& copier::breadth_first(new_root, out.subrange(from, from + n))
        }),
{
    pages::lemma_mirrors(s, root, copier::image(0, out), new_root);
    pages::law_unshared_trees(copier::image(0, out), new_root);
}

/// The children of some pages, page after page.
pub open spec fn children_in(pages: Seq<(u64, Page<Entry>)>) -> Seq<u64> {
    pages.map_values(|p: (u64, Page<Entry>)| p.1@.links.filter(|l: u64| l != 0)).flatten()
}

proof fn lemma_children_in(pages: Seq<(u64, Page<Entry>)>)
    ensures
        children_in(pages) == pages::all_kids(restorer::placed_views(pages)),
{
    let views = restorer::placed_views(pages);
    pages::law_children_of_pages(views);
    assert(views.map_values(|p: PageView<Entry>| p.links.filter(|l: u64| l != 0))
        =~= pages.map_values(|p: (u64, Page<Entry>)| p.1@.links.filter(|l: u64| l != 0)));
}

/// The pages of the tables that were put back hold what the tables hold. They
/// are at the first offsets that were given, each at another one, and the root
/// of each table is at the first one that the tables before it have left. The
/// pages of a table are made root first, and the last child first, and the
/// children of each page get the next offsets, in order.
pub proof fn law_tables_are_put_back(
    s: Map<u64, PageView<Entry>>,
    o: DbOffsets,
    all: Seq<(u64, Page<Entry>)>,
    fresh: Seq<u64>,
    c: ChannelRoots,
)
    requires
        pages::is_tree(s, o.graph),
        pages::is_tree(s, o.changes),
        pages::is_tree(s, o.revchanges),
        pages::is_tree(s, o.states),
        pages::is_tree(s, o.tags),
        tables_put_back(s, o, all, fresh, c),
    ensures
        ({
            let new = restorer::placed(all);
            let offs = restorer::offsets_of(all);
            let n1 = pages::page_count(s, o.graph) as int;
            let n2 = n1 + pages::page_count(s, o.changes);
            let n3 = n2 + pages::page_count(s, o.revchanges);
            let n4 = n3 + pages::page_count(s, o.states);
            let n5 = n4 + pages::page_count(s, o.tags);
            &&& same_table(s, o.graph, new, c.graph)
            &&& same_table(s, o.changes, new, c.changes)
            &&& same_table(s, o.revchanges, new, c.revchanges)
            &&& same_table(s, o.states, new, c.states)
            &&& same_table(s, o.tags, new, c.tags)
            &&& all.len() == n5 <= fresh.len()
            &&& offs.no_duplicates()
            &&& forall|x: u64| offs.contains(x) <==> fresh.take(n5).contains(x)
            &&& c.graph == fresh[0]
            &&& c.changes == fresh[n1]
            &&& c.revchanges == fresh[n2]
            &&& c.states == fresh[n3]
            &&& c.tags == fresh[n4]
            &&& offs.subrange(0, n1) == pages::walk(new, c.graph)
            &&& offs.subrange(n1, n2) == pages::walk(new, c.changes)
            &&& offs.subrange(n2, n3) == pages::walk(new, c.revchanges)
            &&& offs.subrange(n3, n4) == pages::walk(new, c.states)
            &&& offs.subrange(n4, n5) == pages::walk(new, c.tags)
            &&& children_in(all.subrange(0, n1)) == fresh.subrange(1, n1)
            &&& children_in(all.subrange(n1, n2)) == fresh.subrange(n1 + 1, n2)
            &&& children_in(all.subrange(n2, n3)) == fresh.subrange(n2 + 1, n3)
            &&& children_in(all.subrange(n3, n4)) == fresh.subrange(n3 + 1, n4)
            &&& children_in(all.subrange(n4, n5)) == fresh.subrange(n4 + 1, n5)
        }),
{
    let new = restorer::placed(all);
    let offs = restorer::offsets_of(all);
    let n1 = pages::page_count(s, o.graph) as int;
    let n2 = n1 + pages::page_count(s, o.changes);
    let n3 = n2 + pages::page_count(s, o.revchanges);
    let n4 = n3 + pages::page_count(s, o.states);
    let n5 = n4 + pages::page_count(s, o.tags);
    pages::lemma_mirrors(s, o.graph, new, c.graph);
    pages::lemma_mirrors(s, o.changes, new, c.changes);
    pages::lemma_mirrors(s, o.revchanges, new, c.revchanges);
    pages::lemma_mirrors(s, o.states, new, c.states);
    pages::lemma_mirrors(s, o.tags, new, c.tags);
    lemma_children_in(all.subrange(0, n1));
    lemma_children_in(all.subrange(n1, n2));
    lemma_children_in(all.subrange(n2, n3));
    lemma_children_in(all.subrange(n3, n4));
    lemma_children_in(all.subrange(n4, n5));
    assert(offs.subrange(0, n1) =~= restorer::offsets_of(all.subrange(0, n1)));
    assert(offs.subrange(n1, n2) =~= restorer::offsets_of(all.subrange(n1, n2)));
    assert(offs.subrange(n2, n3) =~= restorer::offsets_of(all.subrange(n2, n3)));
    assert(offs.subrange(n3, n4) =~= restorer::offsets_of(all.subrange(n3, n4)));
    assert(offs.subrange(n4, n5) =~= restorer::offsets_of(all.subrange(n4, n5)));
    assert forall|x: u64| offs.contains(x) <==> fresh.take(n5).contains(x) by {
        assert(offs.to_set().contains(x) == fresh.take(n5).to_set().contains(x));
    }
}

/// A table can be put back exactly if it is a tree whose pages are all
/// different, and each of its entries names changes that are known under the
/// same identifiers.
pub proof fn law_tables_that_can_be_put_back(
    s: Map<u64, PageView<Entry>>,
    root: u64,
    local: Map<u64, u64>,
)
    ensures
        restorable_in(s, root, local) <==> {
            &&& pages::is_tree(s, root)
            &&& pages::walk(s, root).skip(1).no_duplicates()
            &&& forall|i: int|
                0 <= i < pages::contents(s, root).len() ==> (#[trigger] pages::contents(
                    s,
                    root,
                )[i]).fixed_by(local)
        },
        restorable(s, root) ==> copyable(s, root),
        copyable(s, root) <==> pages::is_tree(s, root) && pages::unshared(s, root, false),
{
    restorer::law_all_fixed(pages::contents(s, root), local);
    if pages::is_tree(s, root) {
        pages::law_unshared_trees(s, root);
    }
}

/// What a channel says is what its fields say.
pub proof fn law_views_of_channels(c: Channel)
    ensures
        c@.roots.graph == c.graph,
        c@.roots.changes == c.changes,
        c@.roots.revchanges == c.revchanges,
        c@.roots.states == c.states,
        c@.roots.tags == c.tags,
        c@.apply_counter == c.apply_counter,
        c@.name == c.name@,
        c@.last_modified == c.last_modified,
        c@.id == c.id,
        c.roots() == c@.roots,
{
}

/// A new channel has the roots, the counter and the name that it was made with,
/// and was not modified.
pub proof fn law_new_channels(
    c: Channel,
    roots: ChannelRoots,
    apply_counter: u64,
    name: Seq<char>,
)
    ensures
        c.has(roots, apply_counter, name) <==> {
            &&& c.graph == roots.graph
            &&& c.changes == roots.changes
            &&& c.revchanges == roots.revchanges
            &&& c.states == roots.states
            &&& c.tags == roots.tags
            &&& c.apply_counter == apply_counter
            &&& c.name@ == name
            &&& c.last_modified == 0
        },
{
}

/// A channel is open under its own name, if no channel before it has that name,
/// and under no other one. A name that no channel has is not open.
pub proof fn law_open_channels(open: Seq<Channel>, i: int, name: Seq<char>)
    ensures
        0 <= i < open.len() && (forall|j: int|
            0 <= j < i ==> (#[trigger] open[j]).name@ != open[i].name@) ==> {
            &&& open_by_name(open).contains_key(open[i].name@)
            &&& open_by_name(open)[open[i].name@] == open[i]@
        },
        open_by_name(open).contains_key(name) <==> exists|j: int|
            0 <= j < open.len() && (#[trigger] open[j]).name@ == name,
    decreases open.len(),
{
    if open.len() > 0 {
        let rest = open.skip(1);
        law_open_channels(rest, i - 1, name);
        if 0 < i < open.len() && (forall|j: int|
            0 <= j < i ==> (#[trigger] open[j]).name@ != open[i].name@) {
            assert(rest[i - 1] == open[i]);
            assert(open[0].name@ != open[i].name@);
            assert forall|j: int| 0 <= j < i - 1 implies (#[trigger] rest[j]).name@
                != rest[i - 1].name@ by {
                assert(rest[j] == open[j + 1]);
            }
        }
        if open_by_name(rest).contains_key(name) {
            let j = choose|j: int| 0 <= j < rest.len() && (#[trigger] rest[j]).name@ == name;
            assert(open[j + 1].name@ == name);
        }
        if exists|j: int| 0 <= j < open.len() && (#[trigger] open[j]).name@ == name {
            let j = choose|j: int| 0 <= j < open.len() && (#[trigger] open[j]).name@ == name;
            if j > 0 {
                assert(rest[j - 1].name@ == name);
            }
        }
    }
}

/// Putting a channel back fails exactly if its pages cannot be read from the
/// tag file, and then changes nothing. Otherwise the channel has the counter of
/// the file and the given name, it is open under that name, and no other open
/// channel changes.
pub proof fn law_restored_channels(
    tag: OpenTagFile,
    s: Map<u64, PageView<Entry>>,
    fresh: Seq<u64>,
    name: Seq<char>,
    other: Seq<char>,
    before: Seq<Channel>,
    after: Seq<Channel>,
    r: Result<(Channel, Vec<(u64, Page<Entry>)>), TagError>,
)
    requires
        tag.header.channel <= tag.header.unhashed,
        channel_restored(tag, s, fresh, name, before, after, r),
    ensures
        ({
            let from = tag.header.channel;
            let to = tag.header.unhashed;
            &&& from < to && tag.file@.len() < to <==> (r matches Err(e) && e == TagError::Io)
            &&& from < to <= tag.file@.len() ==> (r is Err <==> !zstd::seekable_ok(
                tag.file@.subrange(from as int, to as int),
            ))
            &&& from < to <= tag.file@.len() && r is Err ==> (r matches Err(e) && e is Zstd)
        }),
        r is Err ==> after == before,
        r matches Ok((c, all)) ==> {
            &&& c.name@ == name
            &&& c.apply_counter == tag.header.offsets.apply_counter
            &&& c.last_modified == 0
            &&& tables_put_back(s, tag.header.offsets, all@, fresh, c@.roots)
            &&& open_by_name(after).contains_key(name)
            &&& open_by_name(after)[name] == c@
            &&& other != name ==> {
                &&& open_by_name(after).contains_key(other) == open_by_name(before).contains_key(
                    other,
                )
                &&& open_by_name(after)[other] == open_by_name(before)[other]
            }
        },
{
}

/// The pages of a tag file are readable, or damaged, as the bytes between their
/// start and their end say.
pub proof fn law_damaged_pages(tag: OpenTagFile)
    requires
        tag.header.channel < tag.header.unhashed <= tag.file@.len(),
    ensures
        ({
            let packed = tag.file@.subrange(
                tag.header.channel as int,
                tag.header.unhashed as int,
            );
            &&& pages_readable(tag) <==> zstd::seekable_ok(packed)
            &&& pages_damaged(tag) ==> pages_readable(tag)
            &&& forall|data: Seq<u8>| #[trigger]
                zstd::reads_back(packed, data) && tag.header.offsets.size <= data.len()
                    && tag.header.offsets.size <= usize::MAX ==> !pages_damaged(tag)
        }),
{
    let packed = tag.file@.subrange(tag.header.channel as int, tag.header.unhashed as int);
    assert(tag::packed_pages(tag.file@, tag.header) == Some(packed));
    assert forall|data: Seq<u8>| #[trigger]
        zstd::reads_back(packed, data) && tag.header.offsets.size <= data.len()
            && tag.header.offsets.size <= usize::MAX implies !pages_damaged(tag) by {
        let zeros = Seq::new(tag.header.offsets.size as nat, |i: int| 0u8);
        assert(zstd::decompressed(packed, 0, zeros) == (
            Some(zeros.len() as usize),
            data.subrange(0, zeros.len() as int),
        ));
    }
}

/// The tables of a channel can be put back exactly if each of them can, and
/// there is an offset for each of their pages, all different and none of them 0.
pub proof fn law_channels_that_can_be_put_back(
    s: Map<u64, PageView<Entry>>,
    o: DbOffsets,
    local: Map<u64, u64>,
    fresh: Seq<u64>,
)
    ensures
        tables_restorable(s, o, local, fresh) <==> {
            &&& restorable_in(s, o.graph, local)
            &&& restorable_in(s, o.changes, local)
            &&& restorable_in(s, o.revchanges, local)
            &&& restorable_in(s, o.states, local)
            &&& restorable_in(s, o.tags, local)
            &&& pages::walk(s, o.graph).len() + pages::walk(s, o.changes).len() + pages::walk(
                s,
                o.revchanges,
            ).len() + pages::walk(s, o.states).len() + pages::walk(s, o.tags).len() <= fresh.len()
            &&& fresh.no_duplicates()
            &&& forall|i: int| 0 <= i < fresh.len() ==> #[trigger] fresh[i] != 0
        },
{
    if pages::is_tree(s, o.graph) && pages::is_tree(s, o.changes) && pages::is_tree(
        s,
        o.revchanges,
    ) && pages::is_tree(s, o.states) && pages::is_tree(s, o.tags) {
        pages::law_pages_of_a_tree(s, o.graph);
        pages::law_pages_of_a_tree(s, o.changes);
        pages::law_pages_of_a_tree(s, o.revchanges);
        pages::law_pages_of_a_tree(s, o.states);
        pages::law_pages_of_a_tree(s, o.tags);
    }
    if !fresh.contains(0) {
        assert forall|i: int| 0 <= i < fresh.len() implies #[trigger] fresh[i] != 0 by {
            assert(fresh.contains(fresh[i]));
        }
    }
}

/// The order in which tables are worked on gives each of them back: the offsets
/// that are made of the roots of the tables in the order of writing are those of
/// the tables, and so are the roots that are made in the order of restoring.
pub proof fn law_orders_agree(
    t: Tables,
    written: [(Table, u64); 7],
    roots: [u64; 7],
    apply_counter: u64,
    size: u64,
    o: DbOffsets,
    restored: [(Table, u64); 5],
    new_roots: [u64; 5],
    c: ChannelRoots,
)
    requires
        call_ensures(Tables::in_writing_order, (&t,), written),
        forall|i: int| 0 <= i < 7 ==> #[trigger] roots@[i] == written@[i].1,
        call_ensures(written_offsets, (&roots, apply_counter, size), o),
        call_ensures(in_restoring_order, (&o,), restored),
        forall|i: int| 0 <= i < 5 ==> #[trigger] new_roots@[i] == restored@[i].1,
        call_ensures(ChannelRoots::restored, (&new_roots,), c),
    ensures
        written@ == seq![
            (Table::Internal, t.internal),
            (Table::External, t.external),
            (Table::Graph, t.graph),
            (Table::Changes, t.changes),
            (Table::RevChanges, t.revchanges),
            (Table::States, t.states),
            (Table::Tags, t.tags),
        ],
        restored@ == seq![
            (Table::Graph, o.graph),
            (Table::Changes, o.changes),
            (Table::RevChanges, o.revchanges),
            (Table::States, o.states),
            (Table::Tags, o.tags),
        ],
        o.internal == t.internal,
        o.external == t.external,
        o.graph == t.graph,
        o.changes == t.changes,
        o.revchanges == t.revchanges,
        o.states == t.states,
        o.tags == t.tags,
        o.apply_counter == apply_counter,
        o.size == size,
        c.graph == t.graph,
        c.changes == t.changes,
        c.revchanges == t.revchanges,
        c.states == t.states,
        c.tags == t.tags,
{
    law_order_of_tables(t, o);
    assert(written@ =~= seq![
        (Table::Internal, t.internal),
        (Table::External, t.external),
        (Table::Graph, t.graph),
        (Table::Changes, t.changes),
        (Table::RevChanges, t.revchanges),
        (Table::States, t.states),
        (Table::Tags, t.tags),
    ]);
    assert(restored@ =~= seq![
        (Table::Graph, o.graph),
        (Table::Changes, o.changes),
        (Table::RevChanges, o.revchanges),
        (Table::States, o.states),
        (Table::Tags, o.tags),
    ]);
}

/// Writing the tables of a channel out gives pages that hold what they hold, and
/// the roots of each of them among these.
pub proof fn law_writing_a_channel(
    store: HashMap<u64, Page<Entry>>,
    t: Tables,
    apply_counter: u64,
    r: (DbOffsets, Vec<Page<Entry>>),
)
    requires
        call_ensures(compress_channel, (&store, &t, apply_counter), r),
        pages::is_tree(pages::page_views(store@), t.internal),
        pages::is_tree(pages::page_views(store@), t.external),
        pages::is_tree(pages::page_views(store@), t.graph),
        pages::is_tree(pages::page_views(store@), t.changes),
        pages::is_tree(pages::page_views(store@), t.revchanges),
        pages::is_tree(pages::page_views(store@), t.states),
        pages::is_tree(pages::page_views(store@), t.tags),
    ensures
        ({
            let s = pages::page_views(store@);
            let new = copier::image(0, copier::views(r.1@));
            &&& tables_written(s, t, apply_counter, r.0, copier::views(r.1@))
            &&& r.0.apply_counter == apply_counter
            &&& r.0.size == 4096 * r.1@.len()
            &&& pages::contents(new, r.0.internal) == pages::contents(s, t.internal)
            &&& pages::contents(new, r.0.external) == pages::contents(s, t.external)
            &&& pages::contents(new, r.0.graph) == pages::contents(s, t.graph)
            &&& pages::contents(new, r.0.changes) == pages::contents(s, t.changes)
            &&& pages::contents(new, r.0.revchanges) == pages::contents(s, t.revchanges)
            &&& pages::contents(new, r.0.states) == pages::contents(s, t.states)
            &&& pages::contents(new, r.0.tags) == pages::contents(s, t.tags)
        }),
{
    law_tables_are_written(
        pages::page_views(store@),
        t,
        apply_counter,
        r.0,
        copier::views(r.1@),
    );
}

/// Putting the tables of a channel back gives pages that hold what they hold,
/// and the root of each of them among these.
pub proof fn law_restoring_tables(
    o: DbOffsets,
    store: HashMap<u64, Page<Entry>>,
    local: HashMap<u64, u64>,
    fresh: Vec<u64>,
    r: (ChannelRoots, Vec<(u64, Page<Entry>)>),
)
    requires
        call_ensures(restore_tables, (&o, &store, &local, &fresh), r),
        pages::is_tree(pages::page_views(store@), o.graph),
        pages::is_tree(pages::page_views(store@), o.changes),
        pages::is_tree(pages::page_views(store@), o.revchanges),
        pages::is_tree(pages::page_views(store@), o.states),
        pages::is_tree(pages::page_views(store@), o.tags),
    ensures
        ({
            let s = pages::page_views(store@);
            let new = restorer::placed(r.1@);
            &&& tables_put_back(s, o, r.1@, fresh@, r.0)
            &&& pages::contents(new, r.0.graph) == pages::contents(s, o.graph)
            &&& pages::contents(new, r.0.changes) == pages::contents(s, o.changes)
            &&& pages::contents(new, r.0.revchanges) == pages::contents(s, o.revchanges)
            &&& pages::contents(new, r.0.states) == pages::contents(s, o.states)
            &&& pages::contents(new, r.0.tags) == pages::contents(s, o.tags)
        }),
{
    law_tables_are_put_back(pages::page_views(store@), o, r.1@, fresh@, r.0);
}

/// A channel is made with the roots, the counter and the name that are given,
/// and a copy of it says the same.
pub proof fn law_making_a_channel(
    roots: ChannelRoots,
    apply_counter: u64,
    name: &str,
    id: RemoteId,
    a: Channel,
    b: Channel,
    copy: Channel,
)
    requires
        call_ensures(Channel::with_id, (roots, apply_counter, name, id), a),
        call_ensures(Channel::with_random_id, (roots, apply_counter, name), b),
        call_ensures(Channel::copied, (&a,), copy),
    ensures
        a.graph == roots.graph,
        a.changes == roots.changes,
        a.revchanges == roots.revchanges,
        a.states == roots.states,
        a.tags == roots.tags,
        a.apply_counter == apply_counter,
        a.name@ == name@,
        a.last_modified == 0,
        a.id == id,
        b@ == (ChannelView { id: b.id, ..a@ }),
        copy@ == a@,
{
}

/// Opening a channel opens it under its name, and changes nothing under any
/// other name.
pub proof fn law_opening_a_channel(open: &mut Vec<Channel>, c: Channel, other: Seq<char>)
    requires
        call_ensures(open_channel, (open, &c), ()),
    ensures
        open_by_name(final(open)@).contains_key(c.name@),
        open_by_name(final(open)@)[c.name@] == c@,
        other != c.name@ ==> {
            &&& open_by_name(final(open)@).contains_key(other) == open_by_name(
                old(open)@,
            ).contains_key(other)
            &&& open_by_name(final(open)@)[other] == open_by_name(old(open)@)[other]
        },
{
}

/// Restoring a channel does what putting it back says, and so does restoring it
/// only if its pages are intact, which gives nothing exactly if they are not.
pub proof fn law_restoring_a_channel(
    tag: OpenTagFile,
    store: HashMap<u64, Page<Entry>>,
    local: HashMap<u64, u64>,
    fresh: Vec<u64>,
    name: &str,
    open: &mut Vec<Channel>,
    r: Result<(Channel, Vec<(u64, Page<Entry>)>), TagError>,
    more: &mut Vec<Channel>,
    intact: Result<Option<(Channel, Vec<(u64, Page<Entry>)>)>, TagError>,
)
    requires
        call_ensures(restore_channel, (&tag, &store, &local, &fresh, name, open), r),
        call_ensures(
            restore_intact_channel,
            (&tag, &store, &local, &fresh, name, more),
            intact,
        ),
    ensures
        ({
            let s = pages::page_views(store@);
            &&& channel_restored(tag, s, fresh@, name@, old(open)@, final(open)@, r)
            &&& match intact {
                Ok(Some(done)) => channel_restored(
                    tag,
                    s,
                    fresh@,
                    name@,
                    old(more)@,
                    final(more)@,
                    Ok(done),
                ),
                Err(e) => channel_restored(
                    tag,
                    s,
                    fresh@,
                    name@,
                    old(more)@,
                    final(more)@,
                    Err(e),
                ),
                Ok(None) => pages_damaged(tag) && final(more)@ == old(more)@,
            }
            &&& intact is Ok && pages_damaged(tag) ==> intact->Ok_0 is None
        }),
{
}

} // verus!
