//! B-tree pages, and what it means for two trees of pages to be the same.
//!
//! A page holds entries in order. Next to them stand the offsets of its child
//! pages: one to the left of the first entry, and one to the right of each
//! entry. The offset 0 says that there is no child.

use vstd::prelude::*;

verus! {

/// The size of a page, in bytes.
pub const BLOCK_SIZE: usize = 4096;

/// An entry, and the page with the entries between it and the next one.
pub struct Item<E> {
    pub entry: E,
    pub right: u64,
}

/// A page of a B-tree with entries of type `E`.
pub struct Page<E> {
    /// The page with the entries before the first one here.
    pub left: u64,
    pub items: Vec<Item<E>>,
}

/// What a page holds: its entries, and the offsets of its children, of which
/// there is one more than there are entries.
#[verifier::ext_equal]
pub struct PageView<E> {
    pub entries: Seq<E>,
    pub links: Seq<u64>,
}

impl<E> View for Page<E> {
    type V = PageView<E>;

    open spec fn view(&self) -> PageView<E> {
        PageView {
            entries: self.items@.map_values(|i: Item<E>| i.entry),
            links: seq![self.left] + self.items@.map_values(|i: Item<E>| i.right),
        }
    }
}

/// The pages of a collection, by their offsets.
pub open spec fn page_views<E>(pages: Map<u64, Page<E>>) -> Map<u64, PageView<E>> {
    pages.map_values(|p: Page<E>| p@)
}

/// The children among the given links, in order.
pub open spec fn kids(links: Seq<u64>) -> Seq<u64>
    decreases links.len(),
{
    if links.len() == 0 {
        Seq::empty()
    } else if links.last() == 0 {
        kids(links.drop_last())
    } else {
        kids(links.drop_last()).push(links.last())
    }
}

/// Whether all the paths down from the page at `off` end after fewer than
/// `depth` steps, and every page on them is there.
pub open spec fn spans<E>(store: Map<u64, PageView<E>>, off: u64, depth: nat) -> bool
    decreases depth,
{
    &&& depth > 0
    &&& store.contains_key(off)
    &&& store[off].links.len() == store[off].entries.len() + 1
    &&& forall|i: int|
        #![trigger store[off].links[i]]
        0 <= i < store[off].links.len() && store[off].links[i] != 0 ==> spans(
            store,
            store[off].links[i],
            (depth - 1) as nat,
        )
}

/// Whether the page at `off` is the root of a finite tree.
pub open spec fn is_tree<E>(store: Map<u64, PageView<E>>, off: u64) -> bool {
    exists|depth: nat| spans(store, off, depth)
}

/// A depth that bounds the tree at `off`.
pub open spec fn height<E>(store: Map<u64, PageView<E>>, off: u64) -> nat {
    choose|depth: nat| spans(store, off, depth)
}

/// The entries under `link` in order, down to the given depth.
pub open spec fn entries_to<E>(store: Map<u64, PageView<E>>, link: u64, depth: nat) -> Seq<E>
    decreases depth, 0nat,
{
    if depth == 0 || !store.contains_key(link) {
        Seq::empty()
    } else {
        entries_of_page(store, store[link], store[link].entries.len(), (depth - 1) as nat)
    }
}

/// The entries of `page` before its entry number `n`, with those of the
/// children between them, down to the given depth.
pub open spec fn entries_of_page<E>(
    store: Map<u64, PageView<E>>,
    page: PageView<E>,
    n: nat,
    depth: nat,
) -> Seq<E>
    decreases depth, n + 1,
{
    let after = if page.links[n as int] == 0 {
        Seq::empty()
    } else {
        entries_to(store, page.links[n as int], depth)
    };
    if n == 0 {
        after
    } else {
        entries_of_page(store, page, (n - 1) as nat, depth).push(page.entries[n - 1]) + after
    }
}

/// The entries of the tree at `off`, in order.
pub open spec fn contents<E>(store: Map<u64, PageView<E>>, off: u64) -> Seq<E> {
    entries_to(store, off, height(store, off))
}

/// The number of pages in the tree at `off`, down to the given depth.
pub open spec fn pages_to<E>(store: Map<u64, PageView<E>>, off: u64, depth: nat) -> nat
    decreases depth, 0nat,
{
    if depth == 0 {
        0
    } else {
        1 + pages_under(store, kids(store[off].links), (depth - 1) as nat)
    }
}

/// The number of pages in the trees at `offs`, down to the given depth.
pub open spec fn pages_under<E>(store: Map<u64, PageView<E>>, offs: Seq<u64>, depth: nat) -> nat
    decreases depth, offs.len() + 1,
{
    if offs.len() == 0 {
        0
    } else {
        pages_under(store, offs.drop_last(), depth) + pages_to(store, offs.last(), depth)
    }
}

/// The number of pages in the tree at `off`.
pub open spec fn page_count<E>(store: Map<u64, PageView<E>>, off: u64) -> nat {
    pages_to(store, off, height(store, off))
}

/// The pages of the tree at `off`, down to the given depth: each one before
/// those under it, and those under its last child before those under the
/// others.
pub open spec fn walk_to<E>(store: Map<u64, PageView<E>>, off: u64, depth: nat) -> Seq<u64>
    decreases depth, 0nat,
{
    if depth == 0 {
        Seq::empty()
    } else {
        seq![off] + walk_under(store, kids(store[off].links), (depth - 1) as nat)
    }
}

/// The pages of the trees at `offs`, the last tree first, down to the given
/// depth.
pub open spec fn walk_under<E>(
    store: Map<u64, PageView<E>>,
    offs: Seq<u64>,
    depth: nat,
) -> Seq<u64>
    decreases depth, offs.len() + 1,
{
    if offs.len() == 0 {
        Seq::empty()
    } else {
        walk_to(store, offs.last(), depth) + walk_under(store, offs.drop_last(), depth)
    }
}

/// The pages of the tree at `off`, depth first and from the last child to the
/// first.
pub open spec fn walk<E>(store: Map<u64, PageView<E>>, off: u64) -> Seq<u64> {
    walk_to(store, off, height(store, off))
}

/// How often `x` stands in `s`.
pub open spec fn occurrences(s: Seq<u64>, x: u64) -> nat
    decreases s.len(),
{
    if s.len() == 0 {
        0
    } else {
        occurrences(s.drop_last(), x) + if s.last() == x {
            1nat
        } else {
            0nat
        }
    }
}

/// The children of a page that must not be met twice: those to the right of
/// an entry, and the one at the far left as well if `with_left` holds.
pub open spec fn guarded(links: Seq<u64>, with_left: bool) -> Seq<u64> {
    if with_left {
        kids(links)
    } else {
        kids(links.skip(1))
    }
}

/// How often the page `x` is a guarded child in the tree at `off`.
pub open spec fn uses<E>(
    store: Map<u64, PageView<E>>,
    off: u64,
    depth: nat,
    x: u64,
    with_left: bool,
) -> nat
    decreases depth, 0nat,
{
    if depth == 0 {
        0
    } else {
        occurrences(guarded(store[off].links, with_left), x) + uses_under(
            store,
            kids(store[off].links),
            (depth - 1) as nat,
            x,
            with_left,
        )
    }
}

/// How often the page `x` is a guarded child in the trees at `offs`.
pub open spec fn uses_under<E>(
    store: Map<u64, PageView<E>>,
    offs: Seq<u64>,
    depth: nat,
    x: u64,
    with_left: bool,
) -> nat
    decreases depth, offs.len() + 1,
{
    if offs.len() == 0 {
        0
    } else {
        uses_under(store, offs.drop_last(), depth, x, with_left) + uses(
            store,
            offs.last(),
            depth,
            x,
            with_left,
        )
    }
}

/// Whether no page is a guarded child twice in the tree at `off`.
pub open spec fn unshared<E>(
    store: Map<u64, PageView<E>>,
    off: u64,
    with_left: bool,
) -> bool {
    forall|x: u64| #[trigger] uses(store, off, height(store, off), x, with_left) <= 1
}

/// Whether the trees at `x` in `a` and at `y` in `b` agree page by page down
/// to the given depth: they have the same entries and children in the same
/// places.
pub open spec fn mirrors_to<E>(
    a: Map<u64, PageView<E>>,
    x: u64,
    b: Map<u64, PageView<E>>,
    y: u64,
    depth: nat,
) -> bool
    decreases depth,
{
    depth > 0 ==> {
        &&& a.contains_key(x)
        &&& b.contains_key(y)
        &&& a[x].entries == b[y].entries
        &&& a[x].links.len() == b[y].links.len()
        &&& forall|i: int|
            #![trigger a[x].links[i]]
            #![trigger b[y].links[i]]
            0 <= i < a[x].links.len() ==> {
                &&& a[x].links[i] == 0 <==> b[y].links[i] == 0
                &&& a[x].links[i] != 0 ==> mirrors_to(
                    a,
                    a[x].links[i],
                    b,
                    b[y].links[i],
                    (depth - 1) as nat,
                )
            }
    }
}

/// Whether the trees at `x` in `a` and at `y` in `b` are the same but for the
/// offsets of their pages.
pub open spec fn mirrors<E>(
    a: Map<u64, PageView<E>>,
    x: u64,
    b: Map<u64, PageView<E>>,
    y: u64,
) -> bool {
    forall|depth: nat| mirrors_to(a, x, b, y, depth)
}

/// The page with its children replaced, in order, by those in `fresh`.
pub open spec fn relinked<E>(page: PageView<E>, fresh: Seq<u64>) -> PageView<E> {
    PageView { entries: page.entries, links: relinked_links(page.links, fresh) }
}

/// The links with those that are not 0 replaced, in order, by those in `fresh`.
pub open spec fn relinked_links(links: Seq<u64>, fresh: Seq<u64>) -> Seq<u64> {
    Seq::new(
        links.len(),
        |i: int|
            if links[i] == 0 {
                0
            } else {
                fresh[kids(links.take(i)).len() as int]
            },
    )
}

/// The children of all the pages, in order.
pub open spec fn all_kids<E>(pages: Seq<PageView<E>>) -> Seq<u64>
    decreases pages.len(),
{
    if pages.len() == 0 {
        Seq::empty()
    } else {
        all_kids(pages.drop_last()) + kids(pages.last().links)
    }
}

// Children.

pub proof fn lemma_kids_concat(a: Seq<u64>, b: Seq<u64>)
    ensures
        kids(a + b) == kids(a) + kids(b),
    decreases b.len(),
{
    if b.len() == 0 {
        assert(a + b =~= a);
        assert(kids(a) + kids(b) =~= kids(a));
    } else {
        lemma_kids_concat(a, b.drop_last());
        assert((a + b).drop_last() =~= a + b.drop_last());
        assert((a + b).last() == b.last());
        assert(kids(a + b) =~= kids(a) + kids(b));
    }
}

/// The children of a beginning of the links, with one link more.
pub proof fn lemma_kids_take(links: Seq<u64>, i: int)
    requires
        0 <= i < links.len(),
    ensures
        kids(links.take(i + 1)) == (if links[i] == 0 {
            kids(links.take(i))
        } else {
            kids(links.take(i)).push(links[i])
        }),
{
    assert(links.take(i + 1).drop_last() =~= links.take(i));
}

/// The child at link `i` is the one with that many children before it.
pub proof fn lemma_kids_at(links: Seq<u64>, i: int)
    requires
        0 <= i < links.len(),
        links[i] != 0,
    ensures
        kids(links.take(i)).len() < kids(links).len(),
        kids(links)[kids(links.take(i)).len() as int] == links[i],
{
    lemma_kids_take(links, i);
    lemma_kids_concat(links.take(i + 1), links.skip(i + 1));
    assert(links.take(i + 1) + links.skip(i + 1) =~= links);
}

/// Every child is one of the links, and not 0.
pub proof fn lemma_kids_are_links(links: Seq<u64>, j: int) -> (i: int)
    requires
        0 <= j < kids(links).len(),
    ensures
        0 <= i < links.len(),
        links[i] == kids(links)[j],
        links[i] != 0,
    decreases links.len(),
{
    let n = links.len() - 1;
    if links.last() != 0 && j == kids(links).len() - 1 {
        n
    } else {
        lemma_kids_are_links(links.drop_last(), j)
    }
}

/// Relinking gives a page the children that it was handed.
pub proof fn lemma_kids_relinked(links: Seq<u64>, fresh: Seq<u64>, n: int)
    requires
        0 <= n <= links.len(),
        kids(links).len() == fresh.len(),
        forall|j: int| 0 <= j < fresh.len() ==> fresh[j] != 0,
    ensures
        kids(relinked_links(links, fresh).take(n)) == fresh.take(
            kids(links.take(n)).len() as int,
        ),
        kids(links.take(n)).len() <= fresh.len(),
    decreases n,
{
    let new = relinked_links(links, fresh);
    if n == 0 {
        assert(new.take(0) =~= Seq::empty());
        assert(links.take(0) =~= Seq::empty());
        assert(fresh.take(0) =~= Seq::empty());
    } else {
        lemma_kids_relinked(links, fresh, n - 1);
        lemma_kids_take(links, n - 1);
        lemma_kids_take(new, n - 1);
        if links[n - 1] != 0 {
            lemma_kids_at(links, n - 1);
            let k = kids(links.take(n - 1)).len() as int;
            assert(fresh.take(k).push(fresh[k]) =~= fresh.take(k + 1));
        }
    }
}

// Depths.

pub proof fn lemma_spans_deeper<E>(store: Map<u64, PageView<E>>, off: u64, d1: nat, d2: nat)
    requires
        spans(store, off, d1),
        d1 <= d2,
    ensures
        spans(store, off, d2),
    decreases d1,
{
    assert forall|i: int|
        #![trigger store[off].links[i]]
        0 <= i < store[off].links.len() && store[off].links[i] != 0 implies spans(
        store,
        store[off].links[i],
        (d2 - 1) as nat,
    ) by {
        lemma_spans_deeper(store, store[off].links[i], (d1 - 1) as nat, (d2 - 1) as nat);
    }
}

/// The entries of a tree do not depend on a depth that spans it.
pub proof fn lemma_entries_deeper<E>(store: Map<u64, PageView<E>>, off: u64, d1: nat, d2: nat)
    requires
        spans(store, off, d1),
        d1 <= d2,
    ensures
        entries_to(store, off, d1) == entries_to(store, off, d2),
    decreases d1, 0nat,
{
    lemma_entries_of_page_deeper(
        store,
        off,
        store[off].entries.len(),
        (d1 - 1) as nat,
        (d2 - 1) as nat,
    );
}

proof fn lemma_entries_of_page_deeper<E>(
    store: Map<u64, PageView<E>>,
    off: u64,
    n: nat,
    d1: nat,
    d2: nat,
)
    requires
        spans(store, off, d1 + 1),
        d1 <= d2,
        n < store[off].links.len(),
    ensures
        entries_of_page(store, store[off], n, d1) == entries_of_page(store, store[off], n, d2),
    decreases d1, n + 1,
{
    let link = store[off].links[n as int];
    if link != 0 {
        assert(spans(store, link, d1));
        lemma_entries_deeper(store, link, d1, d2);
    }
    if n > 0 {
        lemma_entries_of_page_deeper(store, off, (n - 1) as nat, d1, d2);
    }
}

/// The entries of a tree at any depth that spans it are its contents.
pub proof fn lemma_contents_at<E>(store: Map<u64, PageView<E>>, off: u64, depth: nat)
    requires
        spans(store, off, depth),
    ensures
        contents(store, off) == entries_to(store, off, depth),
{
    let h = height(store, off);
    assert(spans(store, off, h));
    if h <= depth {
        lemma_entries_deeper(store, off, h, depth);
    } else {
        lemma_entries_deeper(store, off, depth, h);
    }
}

/// The number of pages of a tree does not depend on a depth that spans it.
pub proof fn lemma_pages_deeper<E>(store: Map<u64, PageView<E>>, off: u64, d1: nat, d2: nat)
    requires
        spans(store, off, d1),
        d1 <= d2,
    ensures
        pages_to(store, off, d1) == pages_to(store, off, d2),
    decreases d1, 0nat,
{
    let ks = kids(store[off].links);
    assert forall|j: int| 0 <= j < ks.len() implies spans(
        store,
        #[trigger] ks[j],
        (d1 - 1) as nat,
    ) by {
        let i = lemma_kids_are_links(store[off].links, j);
        assert(store[off].links[i] == ks[j]);
    }
    lemma_pages_under_deeper(store, ks, (d1 - 1) as nat, (d2 - 1) as nat);
}

pub proof fn lemma_pages_under_deeper<E>(
    store: Map<u64, PageView<E>>,
    offs: Seq<u64>,
    d1: nat,
    d2: nat,
)
    requires
        forall|j: int| 0 <= j < offs.len() ==> spans(store, #[trigger] offs[j], d1),
        d1 <= d2,
    ensures
        pages_under(store, offs, d1) == pages_under(store, offs, d2),
    decreases d1, offs.len() + 1,
{
    if offs.len() > 0 {
        assert(spans(store, offs[offs.len() - 1], d1));
        lemma_pages_deeper(store, offs.last(), d1, d2);
        assert forall|j: int| 0 <= j < offs.drop_last().len() implies spans(
            store,
            #[trigger] offs.drop_last()[j],
            d1,
        ) by {
            assert(offs.drop_last()[j] == offs[j]);
        }
        lemma_pages_under_deeper(store, offs.drop_last(), d1, d2);
    }
}

/// The number of pages of a tree at any depth that spans it is its page count.
pub proof fn lemma_page_count_at<E>(store: Map<u64, PageView<E>>, off: u64, depth: nat)
    requires
        spans(store, off, depth),
    ensures
        page_count(store, off) == pages_to(store, off, depth),
{
    let h = height(store, off);
    assert(spans(store, off, h));
    if h <= depth {
        lemma_pages_deeper(store, off, h, depth);
    } else {
        lemma_pages_deeper(store, off, depth, h);
    }
}

pub proof fn lemma_pages_under_concat<E>(
    store: Map<u64, PageView<E>>,
    a: Seq<u64>,
    b: Seq<u64>,
    depth: nat,
)
    ensures
        pages_under(store, a + b, depth) == pages_under(store, a, depth) + pages_under(
            store,
            b,
            depth,
        ),
    decreases b.len(),
{
    if b.len() == 0 {
        assert(a + b =~= a);
    } else {
        assert((a + b).drop_last() =~= a + b.drop_last());
        lemma_pages_under_concat(store, a, b.drop_last(), depth);
    }
}

/// The children of a page in a tree are roots of smaller trees.
pub proof fn lemma_kids_span<E>(store: Map<u64, PageView<E>>, off: u64, depth: nat)
    requires
        spans(store, off, depth),
    ensures
        forall|j: int|
            0 <= j < kids(store[off].links).len() ==> spans(
                store,
                #[trigger] kids(store[off].links)[j],
                (depth - 1) as nat,
            ),
{
    let ks = kids(store[off].links);
    assert forall|j: int| 0 <= j < ks.len() implies spans(
        store,
        #[trigger] ks[j],
        (depth - 1) as nat,
    ) by {
        let i = lemma_kids_are_links(store[off].links, j);
        assert(store[off].links[i] == ks[j]);
    }
}

/// The order of the pages of a tree does not depend on a depth that spans it.
pub proof fn lemma_walk_deeper<E>(store: Map<u64, PageView<E>>, off: u64, d1: nat, d2: nat)
    requires
        spans(store, off, d1),
        d1 <= d2,
    ensures
        walk_to(store, off, d1) == walk_to(store, off, d2),
    decreases d1, 0nat,
{
    lemma_kids_span(store, off, d1);
    lemma_walk_under_deeper(
        store,
        kids(store[off].links),
        (d1 - 1) as nat,
        (d2 - 1) as nat,
    );
}

pub proof fn lemma_walk_under_deeper<E>(
    store: Map<u64, PageView<E>>,
    offs: Seq<u64>,
    d1: nat,
    d2: nat,
)
    requires
        forall|j: int| 0 <= j < offs.len() ==> spans(store, #[trigger] offs[j], d1),
        d1 <= d2,
    ensures
        walk_under(store, offs, d1) == walk_under(store, offs, d2),
    decreases d1, offs.len() + 1,
{
    if offs.len() > 0 {
        assert(spans(store, offs[offs.len() - 1], d1));
        lemma_walk_deeper(store, offs.last(), d1, d2);
        assert forall|j: int| 0 <= j < offs.drop_last().len() implies spans(
            store,
            #[trigger] offs.drop_last()[j],
            d1,
        ) by {
            assert(offs.drop_last()[j] == offs[j]);
        }
        lemma_walk_under_deeper(store, offs.drop_last(), d1, d2);
    }
}

/// The order of the pages of a tree, at any depth that spans it.
pub proof fn lemma_walk_at<E>(store: Map<u64, PageView<E>>, off: u64, depth: nat)
    requires
        spans(store, off, depth),
    ensures
        walk(store, off) == walk_to(store, off, depth),
{
    let h = height(store, off);
    assert(spans(store, off, h));
    if h <= depth {
        lemma_walk_deeper(store, off, h, depth);
    } else {
        lemma_walk_deeper(store, off, depth, h);
    }
}

pub proof fn lemma_walk_concat<E>(
    store: Map<u64, PageView<E>>,
    a: Seq<u64>,
    b: Seq<u64>,
    depth: nat,
)
    ensures
        walk_under(store, a + b, depth) == walk_under(store, b, depth) + walk_under(
            store,
            a,
            depth,
        ),
    decreases b.len(),
{
    if b.len() == 0 {
        assert(a + b =~= a);
        assert(walk_under(store, a + b, depth) =~= walk_under(store, b, depth) + walk_under(
            store,
            a,
            depth,
        ));
    } else {
        assert((a + b).drop_last() =~= a + b.drop_last());
        lemma_walk_concat(store, a, b.drop_last(), depth);
        assert(walk_under(store, a + b, depth) =~= walk_under(store, b, depth) + walk_under(
            store,
            a,
            depth,
        ));
    }
}

/// The pages of a tree are in the same order in a larger collection of pages.
pub proof fn lemma_walk_within<E>(
    a: Map<u64, PageView<E>>,
    off: u64,
    b: Map<u64, PageView<E>>,
)
    requires
        is_tree(a, off),
        within(a, b),
    ensures
        is_tree(b, off),
        walk(b, off) == walk(a, off),
{
    let d = height(a, off);
    assert(spans(a, off, d));
    lemma_walk_to_within(a, off, b, d);
    lemma_walk_at(b, off, d);
}

proof fn lemma_walk_to_within<E>(
    a: Map<u64, PageView<E>>,
    off: u64,
    b: Map<u64, PageView<E>>,
    depth: nat,
)
    requires
        spans(a, off, depth),
        within(a, b),
    ensures
        spans(b, off, depth),
        walk_to(b, off, depth) == walk_to(a, off, depth),
    decreases depth, 0nat,
{
    assert(b[off] == a[off]);
    lemma_kids_span(a, off, depth);
    lemma_walk_under_within(a, kids(a[off].links), b, (depth - 1) as nat);
    assert forall|i: int|
        #![trigger b[off].links[i]]
        0 <= i < b[off].links.len() && b[off].links[i] != 0 implies spans(
        b,
        b[off].links[i],
        (depth - 1) as nat,
    ) by {
        assert(a[off].links[i] == b[off].links[i]);
        lemma_walk_to_within(a, b[off].links[i], b, (depth - 1) as nat);
    }
}

proof fn lemma_walk_under_within<E>(
    a: Map<u64, PageView<E>>,
    offs: Seq<u64>,
    b: Map<u64, PageView<E>>,
    depth: nat,
)
    requires
        forall|j: int| 0 <= j < offs.len() ==> spans(a, #[trigger] offs[j], depth),
        within(a, b),
    ensures
        walk_under(b, offs, depth) == walk_under(a, offs, depth),
    decreases depth, offs.len() + 1,
{
    if offs.len() > 0 {
        assert(spans(a, offs[offs.len() - 1], depth));
        lemma_walk_to_within(a, offs.last(), b, depth);
        assert forall|j: int| 0 <= j < offs.drop_last().len() implies spans(
            a,
            #[trigger] offs.drop_last()[j],
            depth,
        ) by {
            assert(offs.drop_last()[j] == offs[j]);
        }
        lemma_walk_under_within(a, offs.drop_last(), b, depth);
    }
}

pub proof fn lemma_uses_deeper<E>(
    store: Map<u64, PageView<E>>,
    off: u64,
    d1: nat,
    d2: nat,
    x: u64,
    with_left: bool,
)
    requires
        spans(store, off, d1),
        d1 <= d2,
    ensures
        uses(store, off, d1, x, with_left) == uses(store, off, d2, x, with_left),
    decreases d1, 0nat,
{
    let ks = kids(store[off].links);
    assert forall|j: int| 0 <= j < ks.len() implies spans(
        store,
        #[trigger] ks[j],
        (d1 - 1) as nat,
    ) by {
        let i = lemma_kids_are_links(store[off].links, j);
        assert(store[off].links[i] == ks[j]);
    }
    lemma_uses_under_deeper(store, ks, (d1 - 1) as nat, (d2 - 1) as nat, x, with_left);
}

pub proof fn lemma_uses_under_deeper<E>(
    store: Map<u64, PageView<E>>,
    offs: Seq<u64>,
    d1: nat,
    d2: nat,
    x: u64,
    with_left: bool,
)
    requires
        forall|j: int| 0 <= j < offs.len() ==> spans(store, #[trigger] offs[j], d1),
        d1 <= d2,
    ensures
        uses_under(store, offs, d1, x, with_left) == uses_under(store, offs, d2, x, with_left),
    decreases d1, offs.len() + 1,
{
    if offs.len() > 0 {
        assert(spans(store, offs[offs.len() - 1], d1));
        lemma_uses_deeper(store, offs.last(), d1, d2, x, with_left);
        assert forall|j: int| 0 <= j < offs.drop_last().len() implies spans(
            store,
            #[trigger] offs.drop_last()[j],
            d1,
        ) by {
            assert(offs.drop_last()[j] == offs[j]);
        }
        lemma_uses_under_deeper(store, offs.drop_last(), d1, d2, x, with_left);
    }
}

pub proof fn lemma_uses_under_concat<E>(
    store: Map<u64, PageView<E>>,
    a: Seq<u64>,
    b: Seq<u64>,
    depth: nat,
    x: u64,
    with_left: bool,
)
    ensures
        uses_under(store, a + b, depth, x, with_left) == uses_under(store, a, depth, x, with_left)
            + uses_under(store, b, depth, x, with_left),
    decreases b.len(),
{
    if b.len() == 0 {
        assert(a + b =~= a);
    } else {
        assert((a + b).drop_last() =~= a + b.drop_last());
        lemma_uses_under_concat(store, a, b.drop_last(), depth, x, with_left);
    }
}

/// What stands in a sequence occurs in it.
pub proof fn lemma_occurs(s: Seq<u64>, i: int)
    requires
        0 <= i < s.len(),
    ensures
        occurrences(s, s[i]) >= 1,
    decreases s.len(),
{
    if i < s.len() - 1 {
        lemma_occurs(s.drop_last(), i);
        assert(s.drop_last()[i] == s[i]);
    }
}

/// What stands in a sequence at two places occurs in it twice.
pub proof fn lemma_occurs_twice(s: Seq<u64>, i: int, j: int)
    requires
        0 <= i < j < s.len(),
        s[i] == s[j],
    ensures
        occurrences(s, s[i]) >= 2,
    decreases s.len(),
{
    if j < s.len() - 1 {
        lemma_occurs_twice(s.drop_last(), i, j);
        assert(s.drop_last()[i] == s[i]);
    } else {
        lemma_occurs(s.drop_last(), i);
        assert(s.drop_last()[i] == s[i]);
    }
}

/// The entries of a page are among those of its tree.
pub proof fn lemma_entries_within<E>(
    store: Map<u64, PageView<E>>,
    page: PageView<E>,
    n: nat,
    depth: nat,
    k: int,
)
    requires
        0 <= k < n,
    ensures
        entries_of_page(store, page, n, depth).contains(page.entries[k]),
    decreases n,
{
    let before = entries_of_page(store, page, (n - 1) as nat, depth);
    let after = if page.links[n as int] == 0 {
        Seq::empty()
    } else {
        entries_to(store, page.links[n as int], depth)
    };
    let whole = before.push(page.entries[n - 1]) + after;
    if k == n - 1 {
        assert(whole[before.len() as int] == page.entries[k]);
    } else {
        lemma_entries_within(store, page, (n - 1) as nat, depth, k);
        let j = choose|j: int| 0 <= j < before.len() && before[j] == page.entries[k];
        assert(whole[j] == page.entries[k]);
    }
}

/// The entries under a link of a page are among those of its tree.
pub proof fn lemma_child_entries_within<E>(
    store: Map<u64, PageView<E>>,
    page: PageView<E>,
    n: nat,
    depth: nat,
    i: int,
    e: E,
)
    requires
        0 <= i <= n,
        page.links[i] != 0,
        entries_to(store, page.links[i], depth).contains(e),
    ensures
        entries_of_page(store, page, n, depth).contains(e),
    decreases n,
{
    let after = if page.links[n as int] == 0 {
        Seq::empty()
    } else {
        entries_to(store, page.links[n as int], depth)
    };
    if n > 0 {
        let before = entries_of_page(store, page, (n - 1) as nat, depth);
        let whole = before.push(page.entries[n - 1]) + after;
        if i == n {
            let j = choose|j: int| 0 <= j < after.len() && after[j] == e;
            assert(whole[before.len() + 1 + j] == e);
        } else {
            lemma_child_entries_within(store, page, (n - 1) as nat, depth, i, e);
            let j = choose|j: int| 0 <= j < before.len() && before[j] == e;
            assert(whole[j] == e);
        }
    }
}

// Copies.

/// Trees that mirror each other have the same shape and the same contents.
pub proof fn lemma_mirrors<E>(
    a: Map<u64, PageView<E>>,
    x: u64,
    b: Map<u64, PageView<E>>,
    y: u64,
)
    requires
        mirrors(a, x, b, y),
        is_tree(a, x),
    ensures
        is_tree(b, y),
        contents(b, y) == contents(a, x),
        page_count(b, y) == page_count(a, x),
{
    let d = height(a, x);
    assert(spans(a, x, d));
    assert(mirrors_to(a, x, b, y, d));
    lemma_mirrors_to(a, x, b, y, d);
    lemma_contents_at(b, y, d);
    lemma_page_count_at(b, y, d);
}

/// Trees that mirror each other down to a depth that spans one of them.
pub proof fn lemma_mirrors_to<E>(
    a: Map<u64, PageView<E>>,
    x: u64,
    b: Map<u64, PageView<E>>,
    y: u64,
    d: nat,
)
    requires
        mirrors_to(a, x, b, y, d),
        spans(a, x, d),
    ensures
        spans(b, y, d),
        entries_to(b, y, d) == entries_to(a, x, d),
        pages_to(b, y, d) == pages_to(a, x, d),
    decreases d, 0nat,
{
    let e = (d - 1) as nat;
    assert forall|i: int|
        #![trigger b[y].links[i]]
        0 <= i < b[y].links.len() && b[y].links[i] != 0 implies spans(b, b[y].links[i], e) by {
        assert(a[x].links[i] != 0);
        lemma_mirrors_to(a, a[x].links[i], b, b[y].links[i], e);
    }
    lemma_mirrored_page(a, x, b, y, a[x].entries.len(), e);
    lemma_mirrored_kids(a, x, b, y, a[x].links.len(), e);
    assert(a[x].links.take(a[x].links.len() as int) =~= a[x].links);
    assert(b[y].links.take(b[y].links.len() as int) =~= b[y].links);
}

proof fn lemma_mirrored_page<E>(
    a: Map<u64, PageView<E>>,
    x: u64,
    b: Map<u64, PageView<E>>,
    y: u64,
    n: nat,
    e: nat,
)
    requires
        mirrors_to(a, x, b, y, e + 1),
        spans(a, x, e + 1),
        n < a[x].links.len(),
    ensures
        entries_of_page(b, b[y], n, e) == entries_of_page(a, a[x], n, e),
    decreases e, n + 1,
{
    let link = a[x].links[n as int];
    if link != 0 {
        lemma_mirrors_to(a, link, b, b[y].links[n as int], e);
    }
    if n > 0 {
        lemma_mirrored_page(a, x, b, y, (n - 1) as nat, e);
    }
}

proof fn lemma_mirrored_kids<E>(
    a: Map<u64, PageView<E>>,
    x: u64,
    b: Map<u64, PageView<E>>,
    y: u64,
    n: nat,
    e: nat,
)
    requires
        mirrors_to(a, x, b, y, e + 1),
        spans(a, x, e + 1),
        n <= a[x].links.len(),
    ensures
        pages_under(b, kids(b[y].links.take(n as int)), e) == pages_under(
            a,
            kids(a[x].links.take(n as int)),
            e,
        ),
    decreases e, n + 1,
{
    if n == 0 {
        assert(a[x].links.take(0) =~= Seq::empty());
        assert(b[y].links.take(0) =~= Seq::empty());
    } else {
        let i = n - 1;
        lemma_mirrored_kids(a, x, b, y, i as nat, e);
        lemma_kids_take(a[x].links, i);
        lemma_kids_take(b[y].links, i);
        if a[x].links[i] != 0 {
            lemma_mirrors_to(a, a[x].links[i], b, b[y].links[i], e);
            let ka = kids(a[x].links.take(i));
            let kb = kids(b[y].links.take(i));
            assert(ka.push(a[x].links[i]).drop_last() =~= ka);
            assert(kb.push(b[y].links[i]).drop_last() =~= kb);
        }
    }
}

/// Whether each page of `new` is the page of `old` that `origin` gives for it,
/// with links to the pages that come from its children.
pub open spec fn is_copy<E>(
    old: Map<u64, PageView<E>>,
    new: Map<u64, PageView<E>>,
    origin: Map<u64, u64>,
) -> bool {
    forall|n: u64| #[trigger]
        new.contains_key(n) ==> {
            &&& origin.contains_key(n)
            &&& old.contains_key(origin[n])
            &&& copies_page(old[origin[n]], new[n], new, origin)
        }
}

/// Whether the page `q` of `new` is the page `p`, with links to the pages that
/// come from the children of `p`.
pub open spec fn copies_page<E>(
    p: PageView<E>,
    q: PageView<E>,
    new: Map<u64, PageView<E>>,
    origin: Map<u64, u64>,
) -> bool {
    &&& p.entries == q.entries
    &&& p.links.len() == q.links.len()
    &&& forall|i: int|
        #![trigger p.links[i]]
        #![trigger q.links[i]]
        0 <= i < p.links.len() ==> {
            &&& p.links[i] == 0 <==> q.links[i] == 0
            &&& p.links[i] != 0 ==> new.contains_key(q.links[i]) && origin.contains_key(q.links[i])
                && origin[q.links[i]] == p.links[i]
        }
}

/// A copy mirrors its original.
pub proof fn lemma_copy_mirrors<E>(
    old: Map<u64, PageView<E>>,
    new: Map<u64, PageView<E>>,
    origin: Map<u64, u64>,
    n: u64,
)
    requires
        is_copy(old, new, origin),
        new.contains_key(n),
    ensures
        mirrors(old, origin[n], new, n),
{
    assert forall|depth: nat| mirrors_to(old, origin[n], new, n, depth) by {
        lemma_copy_mirrors_to(old, new, origin, n, depth);
    }
}

proof fn lemma_copy_mirrors_to<E>(
    old: Map<u64, PageView<E>>,
    new: Map<u64, PageView<E>>,
    origin: Map<u64, u64>,
    n: u64,
    depth: nat,
)
    requires
        is_copy(old, new, origin),
        new.contains_key(n),
    ensures
        mirrors_to(old, origin[n], new, n, depth),
    decreases depth,
{
    if depth > 0 {
        let p = old[origin[n]];
        let q = new[n];
        assert(copies_page(p, q, new, origin));
        assert forall|i: int|
            #![trigger p.links[i]]
            #![trigger q.links[i]]
            0 <= i < p.links.len() implies {
            &&& p.links[i] == 0 <==> q.links[i] == 0
            &&& p.links[i] != 0 ==> mirrors_to(
                old,
                p.links[i],
                new,
                q.links[i],
                (depth - 1) as nat,
            )
        } by {
            if p.links[i] != 0 {
                lemma_copy_mirrors_to(old, new, origin, q.links[i], (depth - 1) as nat);
            }
        }
    }
}

/// Whether every page of `a` is in `b`.
pub open spec fn within<E>(a: Map<u64, PageView<E>>, b: Map<u64, PageView<E>>) -> bool {
    forall|n: u64| #[trigger] a.contains_key(n) ==> b.contains_key(n) && b[n] == a[n]
}

/// A mirror is one in a larger collection of pages too.
pub proof fn lemma_mirrors_within<E>(
    a: Map<u64, PageView<E>>,
    x: u64,
    b: Map<u64, PageView<E>>,
    y: u64,
    c: Map<u64, PageView<E>>,
)
    requires
        mirrors(a, x, b, y),
        within(b, c),
    ensures
        mirrors(a, x, c, y),
{
    assert forall|depth: nat| mirrors_to(a, x, c, y, depth) by {
        assert(mirrors_to(a, x, b, y, depth));
        lemma_mirrors_to_within(a, x, b, y, c, depth);
    }
}

proof fn lemma_mirrors_to_within<E>(
    a: Map<u64, PageView<E>>,
    x: u64,
    b: Map<u64, PageView<E>>,
    y: u64,
    c: Map<u64, PageView<E>>,
    depth: nat,
)
    requires
        mirrors_to(a, x, b, y, depth),
        within(b, c),
    ensures
        mirrors_to(a, x, c, y, depth),
    decreases depth,
{
    if depth > 0 {
        assert forall|i: int|
            #![trigger a[x].links[i]]
            #![trigger c[y].links[i]]
            0 <= i < a[x].links.len() implies {
            &&& a[x].links[i] == 0 <==> c[y].links[i] == 0
            &&& a[x].links[i] != 0 ==> mirrors_to(
                a,
                a[x].links[i],
                c,
                c[y].links[i],
                (depth - 1) as nat,
            )
        } by {
            assert(b[y].links[i] == c[y].links[i]);
            if a[x].links[i] != 0 {
                lemma_mirrors_to_within(
                    a,
                    a[x].links[i],
                    b,
                    b[y].links[i],
                    c,
                    (depth - 1) as nat,
                );
            }
        }
    }
}

/// A tree in which no guarded child is met twice stays one in a larger
/// collection of pages.
pub proof fn lemma_unshared_within<E>(
    b: Map<u64, PageView<E>>,
    y: u64,
    c: Map<u64, PageView<E>>,
    with_left: bool,
)
    requires
        within(b, c),
        is_tree(b, y),
        unshared(b, y, with_left),
    ensures
        is_tree(c, y),
        unshared(c, y, with_left),
{
    let d = height(b, y);
    assert(spans(b, y, d));
    lemma_spans_within(b, y, c, d);
    let e = height(c, y);
    assert(spans(c, y, e));
    assert forall|x: u64| #[trigger] uses(c, y, e, x, with_left) <= 1 by {
        lemma_uses_within(b, y, c, d, x, with_left);
        assert(uses(b, y, d, x, with_left) <= 1);
        if d <= e {
            lemma_uses_deeper(c, y, d, e, x, with_left);
        } else {
            lemma_uses_deeper(c, y, e, d, x, with_left);
        }
    }
}

proof fn lemma_spans_within<E>(
    b: Map<u64, PageView<E>>,
    y: u64,
    c: Map<u64, PageView<E>>,
    d: nat,
)
    requires
        within(b, c),
        spans(b, y, d),
    ensures
        spans(c, y, d),
    decreases d,
{
    assert forall|i: int|
        #![trigger c[y].links[i]]
        0 <= i < c[y].links.len() && c[y].links[i] != 0 implies spans(
        c,
        c[y].links[i],
        (d - 1) as nat,
    ) by {
        assert(b[y].links[i] == c[y].links[i]);
        lemma_spans_within(b, b[y].links[i], c, (d - 1) as nat);
    }
}

proof fn lemma_uses_within<E>(
    b: Map<u64, PageView<E>>,
    y: u64,
    c: Map<u64, PageView<E>>,
    d: nat,
    x: u64,
    with_left: bool,
)
    requires
        within(b, c),
        spans(b, y, d),
    ensures
        uses(c, y, d, x, with_left) == uses(b, y, d, x, with_left),
    decreases d, 0nat,
{
    let ks = kids(b[y].links);
    assert forall|j: int| 0 <= j < ks.len() implies spans(b, #[trigger] ks[j], (d - 1) as nat) by {
        let i = lemma_kids_are_links(b[y].links, j);
        assert(b[y].links[i] == ks[j]);
    }
    lemma_uses_under_within(b, ks, c, (d - 1) as nat, x, with_left);
}

proof fn lemma_uses_under_within<E>(
    b: Map<u64, PageView<E>>,
    offs: Seq<u64>,
    c: Map<u64, PageView<E>>,
    d: nat,
    x: u64,
    with_left: bool,
)
    requires
        within(b, c),
        forall|j: int| 0 <= j < offs.len() ==> spans(b, #[trigger] offs[j], d),
    ensures
        uses_under(c, offs, d, x, with_left) == uses_under(b, offs, d, x, with_left),
    decreases d, offs.len() + 1,
{
    if offs.len() > 0 {
        assert(spans(b, offs[offs.len() - 1], d));
        lemma_uses_within(b, offs.last(), c, d, x, with_left);
        assert forall|j: int| 0 <= j < offs.drop_last().len() implies spans(
            b,
            #[trigger] offs.drop_last()[j],
            d,
        ) by {
            assert(offs.drop_last()[j] == offs[j]);
        }
        lemma_uses_under_within(b, offs.drop_last(), c, d, x, with_left);
    }
}

/// A copy of a copy holds what the first tree held, in as many pages.
pub proof fn law_copies_of_copies<E>(
    a: Map<u64, PageView<E>>,
    x: u64,
    b: Map<u64, PageView<E>>,
    y: u64,
    c: Map<u64, PageView<E>>,
    z: u64,
)
    requires
        is_tree(a, x),
        mirrors(a, x, b, y),
        mirrors(b, y, c, z),
    ensures
        is_tree(c, z),
        contents(c, z) == contents(a, x),
        page_count(c, z) == page_count(a, x),
{
    lemma_mirrors(a, x, b, y);
    lemma_mirrors(b, y, c, z);
}

// What trees are.

/// What a page holds: the entry of each item, the child on the left, and then
/// the child to the right of each entry.
pub proof fn law_views_of_pages<E>(p: Page<E>, i: int)
    ensures
        p@.entries.len() == p.items@.len(),
        p@.links.len() == p.items@.len() + 1,
        p@.links[0] == p.left,
        0 <= i < p.items@.len() ==> p@.entries[i] == p.items@[i].entry && p@.links[i + 1]
            == p.items@[i].right,
{
}

/// The children are the links that are not 0.
pub proof fn law_children(links: Seq<u64>)
    ensures
        kids(links) == links.filter(|l: u64| l != 0),
    decreases links.len(),
{
    reveal(Seq::filter);
    if links.len() > 0 {
        law_children(links.drop_last());
    }
}

/// A page is the root of a tree exactly if it is there, has one link more than
/// entries, and each of its children is the root of a tree.
pub proof fn law_trees<E>(s: Map<u64, PageView<E>>, off: u64)
    ensures
        is_tree(s, off) <==> {
            &&& s.contains_key(off)
            &&& s[off].links.len() == s[off].entries.len() + 1
            &&& forall|i: int|
                #![trigger s[off].links[i]]
                0 <= i < s[off].links.len() && s[off].links[i] != 0 ==> is_tree(
                    s,
                    s[off].links[i],
                )
        },
{
    let links = s[off].links;
    if is_tree(s, off) {
        let d = height(s, off);
        assert(spans(s, off, d));
        assert forall|i: int| #![trigger s[off].links[i]] 0 <= i < links.len() && links[i] != 0 implies is_tree(
            s,
            links[i],
        ) by {
            assert(spans(s, s[off].links[i], (d - 1) as nat));
        }
    }
    if s.contains_key(off) && links.len() == s[off].entries.len() + 1 && forall|i: int|
        #![trigger s[off].links[i]]
        0 <= i < links.len() && links[i] != 0 ==> is_tree(s, links[i]) {
        assert forall|i: int| 0 <= i < links.len() && #[trigger] links[i] != 0 implies is_tree(
            s,
            links[i],
        ) by {
            assert(s[off].links[i] == links[i]);
        }
        let d = lemma_common_depth(s, links);
        assert(spans(s, off, d + 1));
    }
}

/// A depth that spans several trees.
proof fn lemma_common_depth<E>(s: Map<u64, PageView<E>>, links: Seq<u64>) -> (d: nat)
    requires
        forall|i: int| 0 <= i < links.len() && #[trigger] links[i] != 0 ==> is_tree(s, links[i]),
    ensures
        forall|i: int| 0 <= i < links.len() && #[trigger] links[i] != 0 ==> spans(s, links[i], d),
    decreases links.len(),
{
    if links.len() == 0 {
        0
    } else {
        let rest = links.drop_last();
        assert forall|i: int| 0 <= i < rest.len() && #[trigger] rest[i] != 0 implies is_tree(
            s,
            rest[i],
        ) by {
            assert(links[i] == rest[i]);
        }
        let e = lemma_common_depth(s, rest);
        let last = links[links.len() - 1];
        let h = height(s, last);
        let d = if e < h {
            h
        } else {
            e
        };
        assert forall|i: int| 0 <= i < links.len() && #[trigger] links[i] != 0 implies spans(
            s,
            links[i],
            d,
        ) by {
            if i < rest.len() {
                assert(rest[i] == links[i]);
                lemma_spans_deeper(s, links[i], e, d);
            } else {
                assert(is_tree(s, last));
                assert(spans(s, last, h));
                lemma_spans_deeper(s, last, h, d);
            }
        }
        d
    }
}

/// The entries of a tree are those of its root, each one between the entries of
/// the child before it and those of the child behind it.
pub proof fn law_entries_of_a_tree<E>(s: Map<u64, PageView<E>>, off: u64)
    requires
        is_tree(s, off),
    ensures
        contents(s, off) == Seq::new(
            s[off].links.len(),
            |i: int|
                (if i == 0 {
                    Seq::empty()
                } else {
                    seq![s[off].entries[i - 1]]
                }) + (if s[off].links[i] == 0 {
                    Seq::empty()
                } else {
                    contents(s, s[off].links[i])
                }),
        ).flatten(),
{
    let d = height(s, off);
    assert(spans(s, off, d));
    let page = s[off];
    let n = page.entries.len();
    lemma_pieces(s, page, n, (d - 1) as nat);
    let a = Seq::new(
        n + 1,
        |i: int|
            (if i == 0 {
                Seq::empty()
            } else {
                seq![page.entries[i - 1]]
            }) + (if page.links[i] == 0 {
                Seq::empty()
            } else {
                entries_to(s, page.links[i], (d - 1) as nat)
            }),
    );
    let b = Seq::new(
        page.links.len(),
        |i: int|
            (if i == 0 {
                Seq::empty()
            } else {
                seq![s[off].entries[i - 1]]
            }) + (if s[off].links[i] == 0 {
                Seq::empty()
            } else {
                contents(s, s[off].links[i])
            }),
    );
    assert forall|i: int| 0 <= i < a.len() implies a[i] == b[i] by {
        if page.links[i] != 0 {
            assert(spans(s, s[off].links[i], (d - 1) as nat));
            lemma_contents_at(s, page.links[i], (d - 1) as nat);
        }
    }
    assert(a =~= b);
}

proof fn lemma_pieces<E>(s: Map<u64, PageView<E>>, page: PageView<E>, n: nat, depth: nat)
    ensures
        entries_of_page(s, page, n, depth) == Seq::new(
            n + 1,
            |i: int|
                (if i == 0 {
                    Seq::empty()
                } else {
                    seq![page.entries[i - 1]]
                }) + (if page.links[i] == 0 {
                    Seq::empty()
                } else {
                    entries_to(s, page.links[i], depth)
                }),
        ).flatten(),
    decreases n,
{
    let f = |i: int|
        (if i == 0 {
            Seq::empty()
        } else {
            seq![page.entries[i - 1]]
        }) + (if page.links[i] == 0 {
            Seq::empty()
        } else {
            entries_to(s, page.links[i], depth)
        });
    let all = Seq::new(n + 1, f);
    all.lemma_flatten_and_flatten_alt_are_equivalent();
    if n == 0 {
        reveal_with_fuel(Seq::flatten_alt, 2);
        assert(all.drop_last() =~= Seq::empty());
        assert(entries_of_page(s, page, n, depth) =~= all.flatten());
    } else {
        let m = (n - 1) as nat;
        lemma_pieces(s, page, m, depth);
        let rest = Seq::new(m + 1, f);
        assert(all.drop_last() =~= rest);
        rest.lemma_flatten_and_flatten_alt_are_equivalent();
        assert(all.last() == f(n as int));
        assert(entries_of_page(s, page, n, depth) =~= all.flatten());
    }
}

/// The pages of a tree are its root, and then those of its children, from the
/// last child to the first. The number of pages is how many these are.
pub proof fn law_pages_of_a_tree<E>(s: Map<u64, PageView<E>>, off: u64)
    requires
        is_tree(s, off),
    ensures
        ({
            let children = s[off].links.filter(|l: u64| l != 0);
            walk(s, off) == seq![off] + Seq::new(
                children.len(),
                |i: int| walk(s, children[children.len() - 1 - i]),
            ).flatten()
        }),
        page_count(s, off) == walk(s, off).len(),
{
    let d = height(s, off);
    assert(spans(s, off, d));
    let e = (d - 1) as nat;
    let ks = kids(s[off].links);
    law_children(s[off].links);
    lemma_kids_span(s, off, d);
    lemma_walks(s, ks, e);
    let a = Seq::new(ks.len(), |i: int| walk_to(s, ks[ks.len() - 1 - i], e));
    let b = Seq::new(ks.len(), |i: int| walk(s, ks[ks.len() - 1 - i]));
    assert forall|i: int| 0 <= i < a.len() implies a[i] == b[i] by {
        lemma_walk_at(s, ks[ks.len() - 1 - i], e);
    }
    assert(a =~= b);
    lemma_walk_len(s, off, d);
}

proof fn lemma_walks<E>(s: Map<u64, PageView<E>>, offs: Seq<u64>, depth: nat)
    ensures
        walk_under(s, offs, depth) == Seq::new(
            offs.len(),
            |i: int| walk_to(s, offs[offs.len() - 1 - i], depth),
        ).flatten(),
    decreases offs.len(),
{
    let all = Seq::new(offs.len(), |i: int| walk_to(s, offs[offs.len() - 1 - i], depth));
    if offs.len() == 0 {
        assert(walk_under(s, offs, depth) =~= all.flatten());
    } else {
        let less = offs.drop_last();
        lemma_walks(s, less, depth);
        assert(all.drop_first() =~= Seq::new(
            less.len(),
            |i: int| walk_to(s, less[less.len() - 1 - i], depth),
        ));
        assert(all.first() == walk_to(s, offs.last(), depth));
    }
}

proof fn lemma_walk_len<E>(s: Map<u64, PageView<E>>, off: u64, depth: nat)
    ensures
        walk_to(s, off, depth).len() == pages_to(s, off, depth),
    decreases depth, 0nat,
{
    if depth > 0 {
        lemma_walk_under_len(s, kids(s[off].links), (depth - 1) as nat);
    }
}

proof fn lemma_walk_under_len<E>(s: Map<u64, PageView<E>>, offs: Seq<u64>, depth: nat)
    ensures
        walk_under(s, offs, depth).len() == pages_under(s, offs, depth),
    decreases depth, offs.len() + 1,
{
    if offs.len() > 0 {
        lemma_walk_len(s, offs.last(), depth);
        lemma_walk_under_len(s, offs.drop_last(), depth);
    }
}

/// The children to the right of the entries of some pages, page after page.
pub open spec fn right_children<E>(s: Map<u64, PageView<E>>, offs: Seq<u64>) -> Seq<u64> {
    offs.map_values(|off: u64| s[off].links.skip(1).filter(|l: u64| l != 0)).flatten()
}

/// No page of a tree is a child twice exactly if the pages below its root are
/// all different. If only the children to the right of entries count, it is
/// these that must be different, over all the pages of the tree.
pub proof fn law_unshared_trees<E>(s: Map<u64, PageView<E>>, off: u64)
    requires
        is_tree(s, off),
    ensures
        unshared(s, off, true) <==> walk(s, off).skip(1).no_duplicates(),
        unshared(s, off, true) ==> unshared(s, off, false),
        unshared(s, off, false) <==> right_children(s, walk(s, off)).no_duplicates(),
{
    let d = height(s, off);
    assert(spans(s, off, d));
    let e = (d - 1) as nat;
    let ks = kids(s[off].links);
    let below = walk(s, off).skip(1);
    lemma_kids_span(s, off, d);
    assert(below =~= walk_under(s, ks, e));
    assert forall|x: u64| #[trigger] uses(s, off, d, x, true) == occurrences(below, x) by {
        lemma_uses_are_walked(s, ks, e, x);
    }
    if unshared(s, off, true) {
        assert forall|i: int, j: int| 0 <= i < j < below.len() implies below[i] != below[j] by {
            if below[i] == below[j] {
                lemma_occurs_twice(below, i, j);
                assert(uses(s, off, d, below[i], true) <= 1);
            }
        }
        assert forall|x: u64| #[trigger] uses(s, off, height(s, off), x, false) <= 1 by {
            lemma_fewer_uses(s, off, d, x);
            assert(uses(s, off, d, x, true) <= 1);
        }
    }
    if below.no_duplicates() {
        assert forall|x: u64| #[trigger] uses(s, off, height(s, off), x, true) <= 1 by {
            lemma_once(below, x);
        }
    }
    let right = right_children(s, walk(s, off));
    assert forall|x: u64| #[trigger] uses(s, off, d, x, false) == occurrences(right, x) by {
        lemma_right_uses(s, off, d, x);
    }
    if unshared(s, off, false) {
        assert forall|i: int, j: int| 0 <= i < j < right.len() implies right[i] != right[j] by {
            if right[i] == right[j] {
                lemma_occurs_twice(right, i, j);
                assert(uses(s, off, d, right[i], false) <= 1);
            }
        }
    }
    if right.no_duplicates() {
        assert forall|x: u64| #[trigger] uses(s, off, height(s, off), x, false) <= 1 by {
            lemma_once(right, x);
        }
    }
}

proof fn lemma_right_concat<E>(s: Map<u64, PageView<E>>, a: Seq<u64>, b: Seq<u64>)
    ensures
        right_children(s, a + b) == right_children(s, a) + right_children(s, b),
    decreases a.len(),
{
    let f = |off: u64| s[off].links.skip(1).filter(|l: u64| l != 0);
    if a.len() == 0 {
        assert(a + b =~= b);
        assert(a.map_values(f) =~= Seq::empty());
        assert(right_children(s, a + b) =~= right_children(s, a) + right_children(s, b));
    } else {
        let rest = a.drop_first();
        lemma_right_concat(s, rest, b);
        assert((a + b).map_values(f).drop_first() =~= (rest + b).map_values(f));
        assert(a.map_values(f).drop_first() =~= rest.map_values(f));
        assert((a + b).map_values(f).first() == f(a[0]));
        assert(a.map_values(f).first() == f(a[0]));
        assert(right_children(s, a + b) =~= right_children(s, a) + right_children(s, b));
    }
}

proof fn lemma_right_uses<E>(s: Map<u64, PageView<E>>, off: u64, depth: nat, x: u64)
    ensures
        uses(s, off, depth, x, false) == occurrences(
            right_children(s, walk_to(s, off, depth)),
            x,
        ),
    decreases depth, 0nat,
{
    if depth > 0 {
        let ks = kids(s[off].links);
        let e = (depth - 1) as nat;
        lemma_right_uses_under(s, ks, e, x);
        lemma_right_concat(s, seq![off], walk_under(s, ks, e));
        lemma_right_of_one(s, off);
        law_children(s[off].links.skip(1));
        lemma_occurrences_concat(
            right_children(s, seq![off]),
            right_children(s, walk_under(s, ks, e)),
            x,
        );
    } else {
        lemma_right_of_none(s);
        assert(walk_to(s, off, depth) =~= Seq::empty());
    }
}

proof fn lemma_right_of_none<E>(s: Map<u64, PageView<E>>)
    ensures
        right_children(s, Seq::empty()) == Seq::<u64>::empty(),
{
    let f = |off: u64| s[off].links.skip(1).filter(|l: u64| l != 0);
    assert(Seq::<u64>::empty().map_values(f) =~= Seq::empty());
    assert(right_children(s, Seq::empty()) =~= Seq::<u64>::empty());
}

proof fn lemma_right_of_one<E>(s: Map<u64, PageView<E>>, off: u64)
    ensures
        right_children(s, seq![off]) == s[off].links.skip(1).filter(|l: u64| l != 0),
{
    let f = |off: u64| s[off].links.skip(1).filter(|l: u64| l != 0);
    let one = seq![off].map_values(f);
    assert(one.drop_first() =~= Seq::empty());
    assert(one.first() == f(off));
    assert(one.drop_first().flatten() =~= Seq::empty());
    assert(right_children(s, seq![off]) =~= f(off));
}

proof fn lemma_right_uses_under<E>(s: Map<u64, PageView<E>>, offs: Seq<u64>, depth: nat, x: u64)
    ensures
        uses_under(s, offs, depth, x, false) == occurrences(
            right_children(s, walk_under(s, offs, depth)),
            x,
        ),
    decreases depth, offs.len() + 1,
{
    if offs.len() > 0 {
        let a = walk_to(s, offs.last(), depth);
        let b = walk_under(s, offs.drop_last(), depth);
        lemma_right_uses(s, offs.last(), depth, x);
        lemma_right_uses_under(s, offs.drop_last(), depth, x);
        lemma_right_concat(s, a, b);
        lemma_occurrences_concat(right_children(s, a), right_children(s, b), x);
    } else {
        lemma_right_of_none(s);
        assert(walk_under(s, offs, depth) =~= Seq::empty());
    }
}

/// What the pages of a collection hold, by their offsets.
pub proof fn law_views_of_collections<E>(pages: Map<u64, Page<E>>, off: u64)
    ensures
        page_views(pages).contains_key(off) == pages.contains_key(off),
        pages.contains_key(off) ==> page_views(pages)[off] == pages[off]@,
{
}

proof fn lemma_once(s: Seq<u64>, x: u64)
    requires
        s.no_duplicates(),
    ensures
        occurrences(s, x) <= 1,
        occurrences(s, x) > 0 ==> s.contains(x),
    decreases s.len(),
{
    if s.len() > 0 {
        let t = s.drop_last();
        lemma_once(t, x);
        if occurrences(t, x) > 0 {
            let i = choose|i: int| 0 <= i < t.len() && t[i] == x;
            assert(s[i] == x);
            assert(s[s.len() - 1] != x);
        } else if s.last() == x {
            assert(s[s.len() - 1] == x);
        }
    }
}

proof fn lemma_occurrences_concat(a: Seq<u64>, b: Seq<u64>, x: u64)
    ensures
        occurrences(a + b, x) == occurrences(a, x) + occurrences(b, x),
    decreases b.len(),
{
    if b.len() == 0 {
        assert(a + b =~= a);
    } else {
        assert((a + b).drop_last() =~= a + b.drop_last());
        lemma_occurrences_concat(a, b.drop_last(), x);
    }
}

/// A page occurs among those below some trees, and their roots, as often as it
/// is one of the roots or a child.
proof fn lemma_uses_are_walked<E>(
    s: Map<u64, PageView<E>>,
    offs: Seq<u64>,
    depth: nat,
    x: u64,
)
    requires
        forall|j: int| 0 <= j < offs.len() ==> spans(s, #[trigger] offs[j], depth),
    ensures
        occurrences(walk_under(s, offs, depth), x) == occurrences(offs, x) + uses_under(
            s,
            offs,
            depth,
            x,
            true,
        ),
    decreases depth, offs.len(),
{
    if offs.len() > 0 {
        let last = offs.last();
        let less = offs.drop_last();
        assert(spans(s, offs[offs.len() - 1], depth));
        assert forall|j: int| 0 <= j < less.len() implies spans(s, #[trigger] less[j], depth) by {
            assert(less[j] == offs[j]);
        }
        lemma_uses_are_walked(s, less, depth, x);
        let ks = kids(s[last].links);
        let e = (depth - 1) as nat;
        lemma_kids_span(s, last, depth);
        lemma_uses_are_walked(s, ks, e, x);
        lemma_occurrences_concat(walk_to(s, last, depth), walk_under(s, less, depth), x);
        lemma_occurrences_concat(seq![last], walk_under(s, ks, e), x);
        assert(seq![last].drop_last() =~= Seq::empty());
        assert(occurrences(Seq::empty(), x) == 0);
        let one: nat = if last == x {
            1
        } else {
            0
        };
        assert(occurrences(seq![last], x) == one);
        assert(occurrences(offs, x) == occurrences(less, x) + one);
        assert(walk_to(s, last, depth) == seq![last] + walk_under(s, ks, e));
        assert(uses(s, last, depth, x, true) == occurrences(ks, x) + uses_under(s, ks, e, x, true));
        assert(uses_under(s, offs, depth, x, true) == uses_under(s, less, depth, x, true) + uses(
            s,
            last,
            depth,
            x,
            true,
        ));
    } else {
        assert(walk_under(s, offs, depth) =~= Seq::empty());
    }
}

/// Leaving the left children out counts no more.
proof fn lemma_fewer_uses<E>(s: Map<u64, PageView<E>>, off: u64, depth: nat, x: u64)
    requires
        spans(s, off, depth),
    ensures
        uses(s, off, depth, x, false) <= uses(s, off, depth, x, true),
    decreases depth, 0nat,
{
    let links = s[off].links;
    assert(links =~= seq![links[0]] + links.skip(1));
    lemma_kids_concat(seq![links[0]], links.skip(1));
    lemma_occurrences_concat(kids(seq![links[0]]), kids(links.skip(1)), x);
    lemma_kids_span(s, off, depth);
    lemma_fewer_uses_under(s, kids(links), (depth - 1) as nat, x);
}

proof fn lemma_fewer_uses_under<E>(s: Map<u64, PageView<E>>, offs: Seq<u64>, depth: nat, x: u64)
    requires
        forall|j: int| 0 <= j < offs.len() ==> spans(s, #[trigger] offs[j], depth),
    ensures
        uses_under(s, offs, depth, x, false) <= uses_under(s, offs, depth, x, true),
    decreases depth, offs.len() + 1,
{
    if offs.len() > 0 {
        let less = offs.drop_last();
        assert(spans(s, offs[offs.len() - 1], depth));
        assert forall|j: int| 0 <= j < less.len() implies spans(s, #[trigger] less[j], depth) by {
            assert(less[j] == offs[j]);
        }
        lemma_fewer_uses(s, offs.last(), depth, x);
        lemma_fewer_uses_under(s, less, depth, x);
    }
}

/// Two trees are the same but for the offsets of their pages exactly if their
/// roots have the same entries, and children in the same places, and these
/// are the same again.
pub proof fn law_mirrored_trees<E>(
    a: Map<u64, PageView<E>>,
    x: u64,
    b: Map<u64, PageView<E>>,
    y: u64,
)
    ensures
        mirrors(a, x, b, y) <==> {
            &&& a.contains_key(x)
            &&& b.contains_key(y)
            &&& a[x].entries == b[y].entries
            &&& a[x].links.len() == b[y].links.len()
            &&& forall|i: int|
                #![trigger a[x].links[i]]
                0 <= i < a[x].links.len() ==> (a[x].links[i] == 0 <==> b[y].links[i] == 0)
            &&& forall|i: int|
                #![trigger a[x].links[i]]
                0 <= i < a[x].links.len() && a[x].links[i] != 0 ==> mirrors(
                    a,
                    a[x].links[i],
                    b,
                    b[y].links[i],
                )
        },
{
    if mirrors(a, x, b, y) {
        assert(mirrors_to(a, x, b, y, 1));
        assert forall|i: int|
            #![trigger a[x].links[i]]
            0 <= i < a[x].links.len() && a[x].links[i] != 0 implies mirrors(
            a,
            a[x].links[i],
            b,
            b[y].links[i],
        ) by {
            assert forall|depth: nat| mirrors_to(
                a,
                a[x].links[i],
                b,
                b[y].links[i],
                depth,
            ) by {
                assert(mirrors_to(a, x, b, y, depth + 1));
            }
        }
    }
    if a.contains_key(x) && b.contains_key(y) && a[x].entries == b[y].entries && a[x].links.len()
        == b[y].links.len() && (forall|i: int|
        #![trigger a[x].links[i]]
        0 <= i < a[x].links.len() ==> (a[x].links[i] == 0 <==> b[y].links[i] == 0)) && (forall|
        i: int,
    |
        #![trigger a[x].links[i]]
        0 <= i < a[x].links.len() && a[x].links[i] != 0 ==> mirrors(
            a,
            a[x].links[i],
            b,
            b[y].links[i],
        )) {
        assert forall|depth: nat| mirrors_to(a, x, b, y, depth) by {
            if depth > 0 {
                let e = (depth - 1) as nat;
                assert forall|i: int|
                    #![trigger a[x].links[i]]
                    #![trigger b[y].links[i]]
                    0 <= i < a[x].links.len() && a[x].links[i] != 0 implies mirrors_to(
                    a,
                    a[x].links[i],
                    b,
                    b[y].links[i],
                    e,
                ) by {
                    assert(mirrors(a, a[x].links[i], b, b[y].links[i]));
                }
            }
        }
    }
}

/// A page whose children were replaced keeps its entries, has children in the
/// same places, and these are the new ones, in order.
pub proof fn law_relinked_pages<E>(p: PageView<E>, fresh: Seq<u64>)
    requires
        fresh.len() == kids(p.links).len(),
        forall|i: int| 0 <= i < fresh.len() ==> #[trigger] fresh[i] != 0,
    ensures
        relinked(p, fresh).entries == p.entries,
        relinked(p, fresh).links.len() == p.links.len(),
        forall|i: int|
            0 <= i < p.links.len() ==> (#[trigger] relinked(p, fresh).links[i] == 0 <==> p.links[i]
                == 0),
        relinked(p, fresh).links.filter(|l: u64| l != 0) == fresh,
{
    let q = relinked(p, fresh);
    let n = p.links.len() as int;
    law_children(q.links);
    lemma_kids_relinked(p.links, fresh, n);
    assert(q.links.take(n) =~= q.links);
    assert(p.links.take(n) =~= p.links);
    assert(fresh.take(fresh.len() as int) =~= fresh);
    assert forall|i: int| 0 <= i < p.links.len() implies (#[trigger] q.links[i] == 0
        <==> p.links[i] == 0) by {
        if p.links[i] != 0 {
            lemma_kids_at(p.links, i);
        }
    }
}

/// The children of some pages are those of each page, one page after the other.
pub proof fn law_children_of_pages<E>(pages: Seq<PageView<E>>)
    ensures
        all_kids(pages) == pages.map_values(
            |p: PageView<E>| p.links.filter(|l: u64| l != 0),
        ).flatten(),
    decreases pages.len(),
{
    let f = |p: PageView<E>| p.links.filter(|l: u64| l != 0);
    let all = pages.map_values(f);
    all.lemma_flatten_and_flatten_alt_are_equivalent();
    if pages.len() > 0 {
        let rest = pages.drop_last();
        law_children_of_pages(rest);
        law_children(pages.last().links);
        assert(all.drop_last() =~= rest.map_values(f));
        rest.map_values(f).lemma_flatten_and_flatten_alt_are_equivalent();
        assert(all.last() == f(pages.last()));
    } else {
        assert(all =~= Seq::empty());
        assert(all_kids(pages) =~= all.flatten());
    }
}

} // verus!
