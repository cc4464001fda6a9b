//! Copying a tree of pages back to pages that an allocator hands out.

use std::collections::HashMap;
use std::collections::HashSet;
use vstd::prelude::*;

use crate::copier;
use crate::entry;
use crate::entry::Entry;
use crate::pages;
use crate::pages::{Item, Page, PageView};

verus! {

broadcast use vstd::std_specs::hash::group_hash_axioms;

/// The page with the identifiers of its entries read by `local`.
pub open spec fn relabelled_page(page: PageView<Entry>, local: Map<u64, u64>) -> PageView<Entry> {
    PageView {
        entries: page.entries.map_values(|e: Entry| e.relabelled(local)),
        links: page.links,
    }
}

/// Whether `local` reads every identifier in the page as itself.
pub open spec fn page_fixed_by(page: PageView<Entry>, local: Map<u64, u64>) -> bool {
    forall|i: int| 0 <= i < page.entries.len() ==> (#[trigger] page.entries[i]).fixed_by(local)
}

/// The state of a restoration: which pages wait to be copied, and where to.
pub struct Restorer {
    /// The pages still to be copied, each with the offset of its copy. The
    /// last one is next.
    pub pending: Vec<(u64, u64)>,
    /// The pages that were met as children.
    pub seen: HashSet<u64>,
}

impl Restorer {
    /// Starts a copy of the tree at `root`, whose root goes to `page`.
    pub fn new(root: u64, page: u64) -> (r: Restorer)
        ensures
            r.pending@ == seq![(root, page)],
            r.seen@ == Set::<u64>::empty(),
    {
        let mut pending: Vec<(u64, u64)> = Vec::new();
        pending.push((root, page));
        proof {
            assert(pending@ =~= seq![(root, page)]);
        }
        Restorer { pending, seen: HashSet::new() }
    }

    /// The next page to copy, and the offset of its copy, if any is left.
    pub fn pop(&mut self) -> (r: Option<(u64, u64)>)
        ensures
            final(self).seen@ == old(self).seen@,
            match r {
                Some(p) => old(self).pending@.len() > 0 && p == old(self).pending@.last()
                    && final(self).pending@ == old(self).pending@.drop_last(),
                None => old(self).pending@.len() == 0 && final(self).pending@
                    == old(self).pending@,
            },
    {
        self.pending.pop()
    }

    /// Whether a page can be visited: none of its children was met before, and
    /// `local` reads every identifier in it as itself.
    pub open spec fn admissible(&self, page: PageView<Entry>, local: Map<u64, u64>) -> bool {
        &&& pages::kids(page.links).no_duplicates()
        &&& forall|x: u64| #[trigger]
            pages::kids(page.links).contains(x) ==> !self.seen@.contains(x)
        &&& page_fixed_by(page, local)
    }

    /// Whether the page is admissible.
    pub fn admits(&self, page: &Page<Entry>, local: &HashMap<u64, u64>) -> (r: bool)
        ensures
            r == self.admissible(page@, local@),
    {
        let children = children_of(page);
        let mut met: HashSet<u64> = HashSet::new();
        let mut i: usize = 0;
        while i < children.len()
            invariant
                i <= children.len(),
                children@ == pages::kids(page@.links),
                met@ == children@.take(i as int).to_set(),
                forall|j: int, k: int| 0 <= j < k < i ==> children@[j] != children@[k],
                forall|j: int| 0 <= j < i ==> !self.seen@.contains(#[trigger] children@[j]),
            decreases children.len() - i,
        {
            let child: u64 = children[i];
            let ghost before = children@.take(i as int);
            proof {
                if self.seen@.contains(child) {
                    assert(pages::kids(page@.links).contains(child));
                }
                if met@.contains(child) {
                    let j = choose|j: int| 0 <= j < before.len() && before[j] == child;
                    assert(children@[j] == child);
                }
            }
            if self.seen.contains(&child) || !met.insert(child) {
                return false;
            }
            proof {
                let after = children@.take(i + 1);
                assert forall|x: u64| after.to_set().contains(x) == before.to_set().insert(
                    child,
                ).contains(x) by {
                    if before.contains(x) {
                        let j = choose|j: int| 0 <= j < before.len() && before[j] == x;
                        assert(after[j] == x);
                    }
                    if after.contains(x) {
                        let j = choose|j: int| 0 <= j < after.len() && after[j] == x;
                        if j < i {
                            assert(before[j] == x);
                        }
                    }
                    assert(after[i as int] == child);
                }
                assert(after.to_set() =~= before.to_set().insert(child));
                assert forall|j: int, k: int| 0 <= j < k < i + 1 implies children@[j]
                    != children@[k] by {
                    if k == i {
                        assert(before[j] == children@[j]);
                        assert(before.to_set().contains(children@[j]));
                    }
                }
            }
            i = i + 1;
        }
        let mut n: usize = 0;
        while n < page.items.len()
            invariant
                n <= page.items.len(),
                forall|j: int|
                    0 <= j < n ==> (#[trigger] page@.entries[j]).fixed_by(local@),
            decreases page.items.len() - n,
        {
            assert(page@.entries[n as int] == page.items[n as int].entry);
            if !page.items[n].entry.agrees(local) {
                return false;
            }
            n = n + 1;
        }
        true
    }

    /// Makes the copy of a page, whose children go to the pages in `fresh`,
    /// and lets them wait before the others.
    pub fn visit(&mut self, page: &Page<Entry>, fresh: &Vec<u64>, local: &HashMap<u64, u64>) -> (r:
        Page<Entry>)
        requires
            old(self).admissible(page@, local@),
            fresh@.len() == pages::kids(page@.links).len(),
        ensures
            r@ == pages::relinked(relabelled_page(page@, local@), fresh@),
            final(self).pending@ == old(self).pending@ + copier::zipped(
                pages::kids(page@.links),
                fresh@,
            ),
            final(self).seen@ == old(self).seen@.union(pages::kids(page@.links).to_set()),
    {
        let ghost links = page@.links;
        let ghost children = pages::kids(links);
        let mut used: usize = 0;
        let mut left: u64 = 0;
        proof {
            assert(links.take(0) =~= Seq::empty());
            pages::lemma_kids_take(links, 0);
            assert(self.seen@ =~= self.seen@.union(Seq::<u64>::empty().to_set()));
            if links[0] != 0 {
                pages::lemma_kids_at(links, 0);
            }
        }
        if page.left != 0 {
            left = fresh[0];
            used = 1;
            self.seen.insert(page.left);
            self.pending.push((page.left, left));
            proof {
                assert(pages::kids(links.take(1)) =~= seq![page.left]);
                assert(seq![page.left][0] == page.left);
                assert(self.seen@ =~= old(self).seen@.union(seq![page.left].to_set()));
            }
        }
        proof {
            assert(self.pending@ =~= old(self).pending@ + copier::zipped(
                pages::kids(links.take(1)),
                fresh@,
            ));
        }
        let mut items: Vec<Item<Entry>> = Vec::new();
        let mut i: usize = 0;
        while i < page.items.len()
            invariant
                i <= page.items.len(),
                links == page@.links,
                children == pages::kids(links),
                links.len() == page.items.len() + 1,
                fresh@.len() == children.len(),
                page_fixed_by(page@, local@),
                used == pages::kids(links.take(i + 1)).len(),
                self.seen@ == old(self).seen@.union(pages::kids(links.take(i + 1)).to_set()),
                self.pending@ == old(self).pending@ + copier::zipped(
                    pages::kids(links.take(i + 1)),
                    fresh@,
                ),
                items.len() == i,
                left == pages::relinked_links(links, fresh@)[0],
                forall|j: int|
                    0 <= j < i ==> (#[trigger] items@[j]).entry == page@.entries[j].relabelled(
                        local@,
                    ) && items@[j].right == pages::relinked_links(links, fresh@)[j + 1],
            decreases page.items.len() - i,
        {
            let item = &page.items[i];
            let mut right: u64 = 0;
            let ghost before = pages::kids(links.take(i + 1));
            proof {
                assert(links[i + 1] == item.right);
                assert(page@.entries[i as int] == item.entry);
                pages::lemma_kids_take(links, i + 1);
                if item.right != 0 {
                    pages::lemma_kids_at(links, i + 1);
                }
            }
            let new_entry = item.entry.relabel(local);
            if item.right != 0 {
                assert(used < fresh.len());
                right = fresh[used];
                used = used + 1;
                self.seen.insert(item.right);
                self.pending.push((item.right, right));
                proof {
                    let after = pages::kids(links.take(i + 2));
                    assert(after == before.push(item.right));
                    assert(after[before.len() as int] == item.right);
                    assert forall|x: u64| after.to_set().contains(x) == (before.to_set().contains(x)
                        || x == item.right) by {
                        if before.contains(x) {
                            let j = choose|j: int| 0 <= j < before.len() && before[j] == x;
                            assert(after[j] == x);
                        }
                    }
                    assert(self.seen@ =~= old(self).seen@.union(after.to_set()));
                    assert(self.pending@ =~= old(self).pending@ + copier::zipped(after, fresh@));
                }
            }
            assert(right == pages::relinked_links(links, fresh@)[i + 1]);
            items.push(Item { entry: new_entry, right });
            i = i + 1;
        }
        let r = Page { left, items };
        proof {
            assert(links.take(i + 1) =~= links);
            assert forall|k: int| 0 <= k < links.len() implies r@.links[k]
                == pages::relinked_links(links, fresh@)[k] by {
                if k > 0 {
                    assert(r@.links[k] == r.items@[k - 1].right);
                }
            }
            assert(r@.links =~= pages::relinked_links(links, fresh@));
            assert(r@.entries =~= relabelled_page(page@, local@).entries);
        }
        r
    }
}

/// The children of a page, in order.
pub fn children_of<E>(page: &Page<E>) -> (r: Vec<u64>)
    ensures
        r@ == pages::kids(page@.links),
{
    let ghost links = page@.links;
    let mut children: Vec<u64> = Vec::new();
    proof {
        assert(links.take(0) =~= Seq::empty());
        pages::lemma_kids_take(links, 0);
    }
    if page.left != 0 {
        children.push(page.left);
    }
    let mut i: usize = 0;
    while i < page.items.len()
        invariant
            i <= page.items.len(),
            links == page@.links,
            links.len() == page.items.len() + 1,
            children@ == pages::kids(links.take(i + 1)),
        decreases page.items.len() - i,
    {
        proof {
            assert(links[i + 1] == page.items[i as int].right);
            pages::lemma_kids_take(links, i + 1);
        }
        if page.items[i].right != 0 {
            children.push(page.items[i].right);
        }
        i = i + 1;
    }
    proof {
        assert(links.take(i + 1) =~= links);
    }
    children
}

/// The pages by their offsets.
pub open spec fn placed(pages: Seq<(u64, Page<Entry>)>) -> Map<u64, PageView<Entry>>
    decreases pages.len(),
{
    if pages.len() == 0 {
        Map::empty()
    } else {
        placed(pages.drop_last()).insert(pages.last().0, pages.last().1@)
    }
}

/// The views of the pages, in order.
pub open spec fn placed_views(pages: Seq<(u64, Page<Entry>)>) -> Seq<PageView<Entry>> {
    pages.map_values(|p: (u64, Page<Entry>)| p.1@)
}

/// The offsets of the pages, in order.
pub open spec fn offsets_of(pages: Seq<(u64, Page<Entry>)>) -> Seq<u64> {
    pages.map_values(|p: (u64, Page<Entry>)| p.0)
}

/// Whether `local` reads every identifier in the entries as itself.
pub open spec fn all_fixed_by(entries: Seq<Entry>, local: Map<u64, u64>) -> bool {
    forall|e: Entry| #[trigger] entries.contains(e) ==> e.fixed_by(local)
}

/// The offsets of the pages that wait.
spec fn waiting(pending: Seq<(u64, u64)>) -> Seq<u64> {
    pending.map_values(|p: (u64, u64)| p.0)
}

/// The offsets that the copies of the pages that wait will have.
spec fn places(pending: Seq<(u64, u64)>) -> Seq<u64> {
    pending.map_values(|p: (u64, u64)| p.1)
}

/// Whether the pages in `new` were made in the order in which a tree at `root`
/// is walked, if those at the offsets in `waiting` follow, the last one first.
spec fn in_order(
    made: Seq<u64>,
    new: Map<u64, PageView<Entry>>,
    waiting: Seq<u64>,
    root: u64,
    d: nat,
) -> bool {
    forall|all: Map<u64, PageView<Entry>>| #[trigger]
        pages::within(new, all) && pages::spans(all, root, d) ==> {
            &&& forall|j: int|
                0 <= j < waiting.len() ==> pages::spans(all, #[trigger] waiting[j], d)
            &&& made + pages::walk_under(all, waiting, d) == pages::walk_to(all, root, d)
        }
}

/// Whether the page `q` is a copy of `p`, with links to pages that `origin`
/// gives the children of `p` for.
spec fn copied(p: PageView<Entry>, q: PageView<Entry>, origin: Map<u64, u64>) -> bool {
    &&& p.entries == q.entries
    &&& p.links.len() == q.links.len()
    &&& forall|i: int|
        #![trigger p.links[i]]
        #![trigger q.links[i]]
        0 <= i < p.links.len() ==> {
            &&& p.links[i] == 0 <==> q.links[i] == 0
            &&& p.links[i] != 0 ==> origin.contains_key(q.links[i]) && origin[q.links[i]]
                == p.links[i]
        }
}

/// What holds of the pages that were placed.
spec fn placed_ok(
    s: Map<u64, PageView<Entry>>,
    new: Map<u64, PageView<Entry>>,
    origin: Map<u64, u64>,
) -> bool {
    forall|n: u64| #[trigger]
        new.contains_key(n) ==> {
            &&& origin.contains_key(n)
            &&& s.contains_key(origin[n])
            &&& copied(s[origin[n]], new[n], origin)
        }
}

/// What holds of the pages that wait.
spec fn pending_ok(
    s: Map<u64, PageView<Entry>>,
    pending: Seq<(u64, u64)>,
    new: Map<u64, PageView<Entry>>,
    origin: Map<u64, u64>,
    local: Map<u64, u64>,
    d: nat,
) -> bool {
    &&& forall|j: int|
        #![trigger pending[j]]
        0 <= j < pending.len() ==> {
            &&& origin.contains_key(pending[j].1)
            &&& origin[pending[j].1] == pending[j].0
            &&& pages::spans(s, pending[j].0, d)
            &&& all_fixed_by(pages::entries_to(s, pending[j].0, d), local)
            &&& !new.contains_key(pending[j].1)
        }
    &&& forall|j: int, k: int|
        #![trigger pending[j], pending[k]]
        0 <= j < k < pending.len() ==> pending[j].1 != pending[k].1
    &&& forall|n: u64| #[trigger]
        origin.contains_key(n) ==> new.contains_key(n) || exists|j: int|
            0 <= j < pending.len() && #[trigger] pending[j].1 == n
}

/// Copies the tree at `pending`, whose pages stand in `store`, to pages in
/// `fresh`, which are taken in order as children are met. Gives the offset of
/// the new root, and the new pages with their offsets, in the order in which
/// they were made: depth first, the last child first.
pub fn restore(
    store: &HashMap<u64, Page<Entry>>,
    pending: u64,
    fresh: &Vec<u64>,
    local: &HashMap<u64, u64>,
) -> (r: (u64, Vec<(u64, Page<Entry>)>))
    requires
        pages::is_tree(pages::page_views(store@), pending),
        pages::unshared(pages::page_views(store@), pending, true),
        pages::page_count(pages::page_views(store@), pending) <= fresh@.len(),
        fresh@.no_duplicates(),
        !fresh@.contains(0),
        all_fixed_by(pages::contents(pages::page_views(store@), pending), local@),
    ensures
        r.0 == fresh@[0],
        r.1@.len() == pages::page_count(pages::page_views(store@), pending),
        pages::mirrors(pages::page_views(store@), pending, placed(r.1@), fresh@[0]),
        pages::all_kids(placed_views(r.1@)) == fresh@.subrange(1, r.1@.len() as int),
        offsets_of(r.1@).no_duplicates(),
        offsets_of(r.1@).to_set() == fresh@.take(r.1@.len() as int).to_set(),
        offsets_of(r.1@) == pages::walk(placed(r.1@), r.0),
{
    let ghost s = pages::page_views(store@);
    let ghost d = pages::height(s, pending);
    let ghost total = pages::page_count(s, pending);
    proof {
        assert(pages::spans(s, pending, d));
        assert(pages::pages_to(s, pending, d) >= 1);
        copier::lemma_one(s, pending, d);
    }
    assert(fresh.len() >= 1);
    let root: u64 = fresh[0];
    let mut restorer = Restorer::new(pending, root);
    let mut used: usize = 1;
    let mut out: Vec<(u64, Page<Entry>)> = Vec::new();
    let ghost mut origin = Map::<u64, u64>::empty().insert(root, pending);
    proof {
        assert(waiting(restorer.pending@) =~= seq![pending]);
        assert(placed(out@) =~= Map::empty());
        assert(placed_views(out@) =~= Seq::empty());
        assert(fresh@.subrange(1, 1) =~= Seq::empty());
        assert(places(restorer.pending@) =~= seq![root]);
        assert(offsets_of(out@) =~= Seq::empty());
        lemma_order_starts(offsets_of(out@), placed(out@), root, d);
        assert(fresh@.take(1)[0] == root);
        assert forall|n: u64| #[trigger] origin.contains_key(n) == fresh@.take(1).contains(n) by {}
        assert forall|n: u64| #[trigger] origin.contains_key(n) implies placed(out@).contains_key(n)
            || exists|j: int|
            0 <= j < restorer.pending@.len() && #[trigger] restorer.pending@[j].1 == n by {
            assert(restorer.pending@[0].1 == n);
        }
        assert forall|x: u64| #[trigger]
            pages::uses_under(s, waiting(restorer.pending@), d, x, true) <= 1 by {
            assert(pages::uses(s, pending, d, x, true) <= 1);
        }
    }
    while restorer.pending.len() > 0
        invariant
            s == pages::page_views(store@),
            d > 0,
            pages::spans(s, pending, d),
            total <= fresh@.len(),
            fresh@.no_duplicates(),
            !fresh@.contains(0),
            1 <= used <= fresh@.len(),
            root == fresh@[0],
            origin.contains_key(root),
            origin[root] == pending,
            used == out@.len() + restorer.pending@.len(),
            total == out@.len() + pages::pages_under(s, waiting(restorer.pending@), d),
            forall|n: u64| #[trigger]
                origin.contains_key(n) == fresh@.take(used as int).contains(n),
            placed_ok(s, placed(out@), origin),
            pending_ok(s, restorer.pending@, placed(out@), origin, local@, d),
            pages::all_kids(placed_views(out@)) == fresh@.subrange(1, used as int),
            in_order(offsets_of(out@), placed(out@), places(restorer.pending@), root, d),
            offsets_of(out@).no_duplicates(),
            forall|n: u64| #[trigger] placed(out@).contains_key(n) == offsets_of(out@).contains(n),
            forall|x: u64|
                (if restorer.seen@.contains(x) {
                    1nat
                } else {
                    0nat
                }) + #[trigger] pages::uses_under(s, waiting(restorer.pending@), d, x, true) <= 1,
        decreases pages::pages_under(s, waiting(restorer.pending@), d),
    {
        let ghost before = restorer.pending@;
        let ghost seen = restorer.seen@;
        let (off, new_off) = restorer.pop().unwrap();
        proof {
            assert(before[before.len() - 1] == (off, new_off));
            assert(pages::spans(s, off, d));
        }
        let page = store.get(&off).unwrap();
        let ghost rest = before.drop_last();
        let ghost children = pages::kids(page@.links);
        proof {
            assert(page@ == s[off]);
            assert(waiting(before) =~= waiting(rest) + seq![off]);
            lemma_step_back(s, off, waiting(rest), d);
            copier::lemma_step(s, off, waiting(rest), d);
            assert forall|x: u64|
                pages::occurrences(children, x) + (if seen.contains(x) {
                    1nat
                } else {
                    0nat
                }) + #[trigger] pages::uses_under(s, waiting(rest) + children, d, x, true)
                    <= 1 by {
                copier::lemma_step_uses(s, off, waiting(rest), d, x, true);
                assert(pages::uses_under(s, waiting(before), d, x, true) + (if seen.contains(x) {
                    1nat
                } else {
                    0nat
                }) <= 1);
            }
            assert forall|i: int, j: int|
                0 <= i < j < children.len() implies children[i] != children[j] by {
                if children[i] == children[j] {
                    pages::lemma_occurs_twice(children, i, j);
                    assert(pages::uses_under(s, waiting(rest) + children, d, children[i], true)
                        >= 0);
                }
            }
            assert forall|x: u64| #[trigger] children.contains(x) implies !seen.contains(x) by {
                let i = choose|i: int| 0 <= i < children.len() && children[i] == x;
                pages::lemma_occurs(children, i);
                assert(pages::uses_under(s, waiting(rest) + children, d, x, true) >= 0);
            }
            copier::lemma_at_least(s, children, d);
            copier::lemma_at_least(s, waiting(rest), d);
            lemma_page_fixed(s, off, local@, d);
        }
        let count = children_of(page).len();
        let next = sublist(fresh, used, count);
        let new = restorer.visit(page, &next, local);
        let ghost old_out = out@;
        let ghost old_origin = origin;
        let ghost old_used = used;
        proof {
            origin = Map::new(
                |n: u64| old_origin.contains_key(n) || next@.contains(n),
                |n: u64|
                    if next@.contains(n) {
                        children[next@.index_of(n)]
                    } else {
                        old_origin[n]
                    },
            );
            lemma_origin_grows(fresh@, used as int, next@, children, old_origin, origin);
            assert forall|n: u64| old_origin.contains_key(n) implies !(#[trigger] next@.contains(
                n,
            )) by {
                assert(fresh@.take(used as int).contains(n));
                let i = choose|i: int| 0 <= i < used && fresh@.take(used as int)[i] == n;
                if next@.contains(n) {
                    let j = choose|j: int| 0 <= j < next@.len() && next@[j] == n;
                    assert(fresh@[used + j] == fresh@[i]);
                }
            }
            assert forall|x: u64|
                (if restorer.seen@.contains(x) {
                    1nat
                } else {
                    0nat
                }) + #[trigger] pages::uses_under(s, waiting(rest) + children, d, x, true)
                    <= 1 by {
                if children.to_set().contains(x) {
                    let i = choose|i: int| 0 <= i < children.len() && children[i] == x;
                    pages::lemma_occurs(children, i);
                }
            }
            assert(waiting(restorer.pending@) =~= waiting(rest) + children);
            lemma_relabelled_page(page@, local@);
            assert(new@ == pages::relinked(page@, next@));
            lemma_copied(page@, next@, origin);
            pages::lemma_kids_relinked(page@.links, next@, page@.links.len() as int);
            assert(new@.links.take(page@.links.len() as int) =~= new@.links);
            assert(page@.links.take(page@.links.len() as int) =~= page@.links);
            assert(next@.take(next@.len() as int) =~= next@);
        }
        out.push((new_off, new));
        assert(used + count <= fresh.len());
        used = used + count;
        proof {
            assert(out@.drop_last() =~= old_out);
            assert(placed(out@) == placed(old_out).insert(new_off, new@));
            assert(placed_views(out@).drop_last() =~= placed_views(old_out));
            assert(placed_views(out@).last() == new@);
            assert(fresh@.subrange(1, used as int) =~= fresh@.subrange(1, old_used as int)
                + next@);
            assert(offsets_of(out@) =~= offsets_of(old_out).push(new_off));
            assert forall|n: u64| #[trigger] placed(out@).contains_key(n) == offsets_of(
                out@,
            ).contains(n) by {
                if offsets_of(old_out).contains(n) {
                    let i = choose|i: int|
                        0 <= i < offsets_of(old_out).len() && offsets_of(old_out)[i] == n;
                    assert(offsets_of(out@)[i] == n);
                }
                assert(offsets_of(out@)[old_out.len() as int] == new_off);
                assert(placed(old_out).contains_key(n) == offsets_of(old_out).contains(n));
            }
            assert(!offsets_of(old_out).contains(new_off)) by {
                assert(!placed(old_out).contains_key(new_off));
            }
            lemma_placed_ok(s, placed(old_out), new_off, new@, old_origin, origin);
            assert(before =~= rest.push((off, new_off)));
            lemma_pending_ok(
                s,
                rest,
                off,
                new_off,
                new@,
                placed(old_out),
                old_origin,
                origin,
                next@,
                local@,
                d,
            );
            assert(restorer.pending@ == rest + copier::zipped(children, next@));
            assert(places(before) =~= places(rest).push(new_off));
            assert(places(restorer.pending@) =~= places(rest) + next@);
            assert(pages::kids(new@.links) == next@);
            lemma_order_goes_on(
                offsets_of(old_out),
                placed(old_out),
                places(rest),
                new_off,
                new@,
                root,
                d,
            );
        }
    }
    proof {
        assert(waiting(restorer.pending@).len() == 0);
        let new = placed(out@);
        assert forall|n: u64| #[trigger] new.contains_key(n) implies origin.contains_key(n)
            && s.contains_key(origin[n]) && pages::copies_page(s[origin[n]], new[n], new, origin) by {
            assert(copied(s[origin[n]], new[n], origin));
        }
        pages::lemma_copy_mirrors(s, new, origin, root);
        assert(pages::mirrors_to(s, pending, new, root, d));
        pages::lemma_mirrors_to(s, pending, new, root, d);
        pages::lemma_walk_at(new, root, d);
        assert(pages::within(new, new));
        assert(offsets_of(out@) + Seq::<u64>::empty() =~= offsets_of(out@));
        assert forall|n: u64| offsets_of(out@).to_set().contains(n) == fresh@.take(
            out@.len() as int,
        ).to_set().contains(n) by {
            assert(new.contains_key(n) == offsets_of(out@).contains(n));
            assert(origin.contains_key(n) == fresh@.take(used as int).contains(n));
        }
        assert(offsets_of(out@).to_set() =~= fresh@.take(out@.len() as int).to_set());
    }
    (root, out)
}

/// The `n` offsets from place `from` on.
pub(crate) fn sublist(all: &Vec<u64>, from: usize, n: usize) -> (r: Vec<u64>)
    requires
        from + n <= all@.len(),
    ensures
        r@ == all@.subrange(from as int, from + n),
{
    let mut part: Vec<u64> = Vec::new();
    let mut i: usize = 0;
    assert(from + n <= all.len());
    while i < n
        invariant
            i <= n,
            from + n <= all.len(),
            part@ == all@.subrange(from as int, from + i),
        decreases n - i,
    {
        part.push(all[from + i]);
        i = i + 1;
        assert(part@ =~= all@.subrange(from as int, from + i));
    }
    part
}

proof fn lemma_order_starts(
    made: Seq<u64>,
    new: Map<u64, PageView<Entry>>,
    root: u64,
    d: nat,
)
    requires
        made == Seq::<u64>::empty(),
    ensures
        in_order(made, new, seq![root], root, d),
{
    assert forall|all: Map<u64, PageView<Entry>>| #[trigger]
        pages::within(new, all) && pages::spans(all, root, d) implies made + pages::walk_under(
        all,
        seq![root],
        d,
    ) == pages::walk_to(all, root, d) by {
        reveal_with_fuel(pages::walk_under, 2);
        assert(seq![root].drop_last() =~= Seq::empty());
        assert(made + pages::walk_under(all, seq![root], d) =~= pages::walk_to(all, root, d));
    }
}

/// The order goes on when the last of the pages that wait is made, and its
/// children wait behind the others.
proof fn lemma_order_goes_on(
    made: Seq<u64>,
    new: Map<u64, PageView<Entry>>,
    rest: Seq<u64>,
    n: u64,
    page: PageView<Entry>,
    root: u64,
    d: nat,
)
    requires
        in_order(made, new, rest.push(n), root, d),
        !new.contains_key(n),
    ensures
        in_order(made.push(n), new.insert(n, page), rest + pages::kids(page.links), root, d),
{
    let next = pages::kids(page.links);
    let before = rest.push(n);
    let after = rest + next;
    let more = new.insert(n, page);
    assert forall|all: Map<u64, PageView<Entry>>| #[trigger]
        pages::within(more, all) && pages::spans(all, root, d) implies {
        &&& forall|j: int| 0 <= j < after.len() ==> pages::spans(all, #[trigger] after[j], d)
        &&& made.push(n) + pages::walk_under(all, after, d) == pages::walk_to(all, root, d)
    } by {
        assert(pages::within(new, all)) by {
            assert forall|m: u64| #[trigger] new.contains_key(m) implies all.contains_key(m)
                && all[m] == new[m] by {
                assert(more.contains_key(m));
            }
        }
        assert(more.contains_key(n));
        assert(all[n] == page);
        assert(before[rest.len() as int] == n);
        assert(pages::spans(all, n, d));
        pages::lemma_kids_span(all, n, d);
        let e = (d - 1) as nat;
        assert forall|j: int| 0 <= j < after.len() implies pages::spans(
            all,
            #[trigger] after[j],
            d,
        ) by {
            if j < rest.len() {
                assert(before[j] == after[j]);
            } else {
                assert(next[j - rest.len()] == after[j]);
                pages::lemma_spans_deeper(all, after[j], e, d);
            }
        }
        pages::lemma_walk_under_deeper(all, next, e, d);
        pages::lemma_walk_concat(all, rest, next, d);
        assert(before.drop_last() =~= rest);
        assert(pages::walk_under(all, before, d) == pages::walk_to(all, n, d)
            + pages::walk_under(all, rest, d));
        assert(pages::walk_to(all, n, d) == seq![n] + pages::walk_under(all, next, e));
        assert(made.push(n) + pages::walk_under(all, after, d) =~= made + pages::walk_under(
            all,
            before,
            d,
        ));
    }
}

proof fn lemma_step_back(s: Map<u64, PageView<Entry>>, off: u64, rest: Seq<u64>, d: nat)
    ensures
        pages::pages_under(s, rest + seq![off], d) == pages::pages_under(s, seq![off] + rest, d),
{
    pages::lemma_pages_under_concat(s, rest, seq![off], d);
    pages::lemma_pages_under_concat(s, seq![off], rest, d);
}

/// A page of a tree whose identifiers are all read as themselves.
proof fn lemma_page_fixed(
    s: Map<u64, PageView<Entry>>,
    off: u64,
    local: Map<u64, u64>,
    d: nat,
)
    requires
        pages::spans(s, off, d),
        all_fixed_by(pages::entries_to(s, off, d), local),
    ensures
        page_fixed_by(s[off], local),
        forall|j: int|
            0 <= j < pages::kids(s[off].links).len() ==> all_fixed_by(
                pages::entries_to(s, #[trigger] pages::kids(s[off].links)[j], d),
                local,
            ),
{
    let page = s[off];
    let all = page.entries.len();
    let e = (d - 1) as nat;
    assert forall|i: int| 0 <= i < page.entries.len() implies (
    #[trigger] page.entries[i]).fixed_by(local) by {
        pages::lemma_entries_within(s, page, all, e, i);
    }
    let children = pages::kids(page.links);
    assert forall|j: int| 0 <= j < children.len() implies all_fixed_by(
        pages::entries_to(s, #[trigger] children[j], d),
        local,
    ) by {
        let i = pages::lemma_kids_are_links(page.links, j);
        assert(page.links[i] == children[j]);
        pages::lemma_entries_deeper(s, children[j], e, d);
        assert forall|x: Entry| #[trigger]
            pages::entries_to(s, children[j], d).contains(x) implies x.fixed_by(local) by {
            pages::lemma_child_entries_within(s, page, all, e, i, x);
        }
    }
}

/// A page whose identifiers are all read as themselves does not change.
proof fn lemma_relabelled_page(page: PageView<Entry>, local: Map<u64, u64>)
    requires
        page_fixed_by(page, local),
    ensures
        relabelled_page(page, local) == page,
{
    assert forall|i: int| 0 <= i < page.entries.len() implies page.entries[i].relabelled(local)
        == page.entries[i] by {
        entry::law_unchanged_entries(page.entries[i], local);
    }
    assert(relabelled_page(page, local).entries =~= page.entries);
}

proof fn lemma_origin_grows(
    fresh: Seq<u64>,
    used: int,
    next: Seq<u64>,
    children: Seq<u64>,
    old_origin: Map<u64, u64>,
    origin: Map<u64, u64>,
)
    requires
        0 <= used,
        used + children.len() <= fresh.len(),
        fresh.no_duplicates(),
        !fresh.contains(0),
        next == fresh.subrange(used, used + children.len()),
        forall|n: u64| #[trigger] old_origin.contains_key(n) == fresh.take(used).contains(n),
        origin == Map::new(
            |n: u64| old_origin.contains_key(n) || next.contains(n),
            |n: u64|
                if next.contains(n) {
                    children[next.index_of(n)]
                } else {
                    old_origin[n]
                },
        ),
    ensures
        forall|n: u64| #[trigger]
            origin.contains_key(n) == fresh.take(used + children.len()).contains(n),
        forall|j: int|
            0 <= j < next.len() ==> next[j] != 0 && origin.contains_key(#[trigger] next[j])
                && origin[next[j]] == children[j],
        next.no_duplicates(),
{
    let more = fresh.take(used + children.len());
    assert forall|n: u64| #[trigger] origin.contains_key(n) == more.contains(n) by {
        if fresh.take(used).contains(n) {
            let i = choose|i: int| 0 <= i < used && fresh.take(used)[i] == n;
            assert(more[i] == n);
        }
        if next.contains(n) {
            let i = choose|i: int| 0 <= i < next.len() && next[i] == n;
            assert(more[used + i] == n);
        }
        if more.contains(n) {
            let i = choose|i: int| 0 <= i < more.len() && more[i] == n;
            if i < used {
                assert(fresh.take(used)[i] == n);
            } else {
                assert(next[i - used] == n);
            }
        }
        assert(old_origin.contains_key(n) == fresh.take(used).contains(n));
    }
    assert forall|j: int| 0 <= j < next.len() implies next[j] != 0 && origin.contains_key(
        #[trigger] next[j],
    ) && origin[next[j]] == children[j] by {
        assert(next[j] == fresh[used + j]);
        assert(next.contains(next[j]));
        let k = next.index_of(next[j]);
        assert(fresh[used + k] == fresh[used + j]);
    }
}

/// A relinked page is a copy of the page.
proof fn lemma_copied(p: PageView<Entry>, next: Seq<u64>, origin: Map<u64, u64>)
    requires
        next.len() == pages::kids(p.links).len(),
        forall|j: int|
            0 <= j < next.len() ==> next[j] != 0 && origin.contains_key(#[trigger] next[j])
                && origin[next[j]] == pages::kids(p.links)[j],
    ensures
        copied(p, pages::relinked(p, next), origin),
{
    let q = pages::relinked(p, next);
    assert forall|i: int|
        #![trigger p.links[i]]
        #![trigger q.links[i]]
        0 <= i < p.links.len() implies {
        &&& p.links[i] == 0 <==> q.links[i] == 0
        &&& p.links[i] != 0 ==> origin.contains_key(q.links[i]) && origin[q.links[i]] == p.links[i]
    } by {
        if p.links[i] != 0 {
            pages::lemma_kids_at(p.links, i);
            assert(q.links[i] == next[pages::kids(p.links.take(i)).len() as int]);
        }
    }
}

proof fn lemma_placed_ok(
    s: Map<u64, PageView<Entry>>,
    new: Map<u64, PageView<Entry>>,
    n: u64,
    page: PageView<Entry>,
    old_origin: Map<u64, u64>,
    origin: Map<u64, u64>,
)
    requires
        placed_ok(s, new, old_origin),
        old_origin.contains_key(n),
        s.contains_key(old_origin[n]),
        copied(s[old_origin[n]], page, origin),
        forall|m: u64| #[trigger]
            old_origin.contains_key(m) ==> origin.contains_key(m) && origin[m] == old_origin[m],
    ensures
        placed_ok(s, new.insert(n, page), origin),
{
    let more = new.insert(n, page);
    assert forall|m: u64| #[trigger] more.contains_key(m) implies {
        &&& origin.contains_key(m)
        &&& s.contains_key(origin[m])
        &&& copied(s[origin[m]], more[m], origin)
    } by {
        if m != n {
            assert(new.contains_key(m));
            assert(old_origin.contains_key(m));
            let p = s[old_origin[m]];
            let q = new[m];
            assert(copied(p, q, old_origin));
            assert(copied(p, q, origin));
        }
    }
}

proof fn lemma_pending_ok(
    s: Map<u64, PageView<Entry>>,
    rest: Seq<(u64, u64)>,
    off: u64,
    new_off: u64,
    page: PageView<Entry>,
    new: Map<u64, PageView<Entry>>,
    old_origin: Map<u64, u64>,
    origin: Map<u64, u64>,
    next: Seq<u64>,
    local: Map<u64, u64>,
    d: nat,
)
    requires
        pending_ok(s, rest.push((off, new_off)), new, old_origin, local, d),
        placed_ok(s, new, old_origin),
        next.no_duplicates(),
        next.len() == pages::kids(s[off].links).len(),
        forall|m: u64| #[trigger]
            old_origin.contains_key(m) ==> origin.contains_key(m) && origin[m] == old_origin[m]
                && !next.contains(m),
        forall|m: u64| #[trigger]
            origin.contains_key(m) ==> old_origin.contains_key(m) || next.contains(m),
        forall|j: int|
            0 <= j < next.len() ==> origin.contains_key(#[trigger] next[j]) && origin[next[j]]
                == pages::kids(s[off].links)[j],
    ensures
        pending_ok(
            s,
            rest + copier::zipped(pages::kids(s[off].links), next),
            new.insert(new_off, page),
            origin,
            local,
            d,
        ),
{
    let before = rest.push((off, new_off));
    let children = pages::kids(s[off].links);
    let after = rest + copier::zipped(children, next);
    let more = new.insert(new_off, page);
    assert(before[rest.len() as int] == (off, new_off));
    copier::lemma_step(s, off, Seq::empty(), d);
    lemma_page_fixed(s, off, local, d);
    assert forall|j: int|
        #![trigger after[j]]
        0 <= j < after.len() implies {
        &&& origin.contains_key(after[j].1)
        &&& origin[after[j].1] == after[j].0
        &&& pages::spans(s, after[j].0, d)
        &&& all_fixed_by(pages::entries_to(s, after[j].0, d), local)
        &&& !more.contains_key(after[j].1)
    } by {
        if j < rest.len() {
            assert(after[j] == before[j]);
            assert(old_origin.contains_key(before[j].1));
        } else {
            let k = j - rest.len();
            assert(after[j] == (children[k], next[k]));
            assert(next.contains(next[k]));
            assert(!old_origin.contains_key(next[k]));
        }
    }
    assert forall|j: int, k: int|
        #![trigger after[j], after[k]]
        0 <= j < k < after.len() implies after[j].1 != after[k].1 by {
        if k < rest.len() {
            assert(after[j] == before[j]);
            assert(after[k] == before[k]);
        } else if j < rest.len() {
            assert(after[j] == before[j]);
            assert(next.contains(next[k - rest.len()]));
            assert(old_origin.contains_key(before[j].1));
        }
    }
    assert forall|n: u64| #[trigger] origin.contains_key(n) implies more.contains_key(n)
        || exists|j: int| 0 <= j < after.len() && #[trigger] after[j].1 == n by {
        if next.contains(n) {
            let k = choose|k: int| 0 <= k < next.len() && next[k] == n;
            assert(after[rest.len() + k].1 == n);
        } else {
            assert(old_origin.contains_key(n));
            if !new.contains_key(n) {
                let j = choose|j: int| 0 <= j < before.len() && #[trigger] before[j].1 == n;
                if j < rest.len() {
                    assert(after[j].1 == n);
                }
            }
        }
    }
}

/// A page is read entry by entry, and its links stay.
pub proof fn law_read_pages(page: PageView<Entry>, local: Map<u64, u64>, i: int)
    ensures
        relabelled_page(page, local).links == page.links,
        relabelled_page(page, local).entries.len() == page.entries.len(),
        0 <= i < page.entries.len() ==> relabelled_page(page, local).entries[i]
            == page.entries[i].relabelled(local),
{
}

/// A page can be put back exactly if its children are all different, none of
/// them was met before, and each of its entries is fixed.
pub proof fn law_pages_that_can_be_put_back(
    r: Restorer,
    page: PageView<Entry>,
    local: Map<u64, u64>,
)
    ensures
        r.admissible(page, local) <==> {
            let children = page.links.filter(|l: u64| l != 0);
            &&& children.no_duplicates()
            &&& forall|i: int|
                0 <= i < children.len() ==> !r.seen@.contains(#[trigger] children[i])
            &&& forall|i: int|
                0 <= i < page.entries.len() ==> (#[trigger] page.entries[i]).fixed_by(local)
        },
{
    pages::law_children(page.links);
    let children = pages::kids(page.links);
    if r.admissible(page, local) {
        assert forall|i: int| 0 <= i < children.len() implies !r.seen@.contains(
            #[trigger] children[i],
        ) by {
            assert(children.contains(children[i]));
        }
    }
}

/// Pages at different offsets are found there, each at its own, and nothing else
/// is found. Their offsets and what they hold are in the order of the pages.
pub proof fn law_placed_pages(pages: Seq<(u64, Page<Entry>)>, i: int, n: u64)
    requires
        forall|j: int, k: int|
            0 <= j < k < pages.len() ==> (#[trigger] pages[j]).0 != (#[trigger] pages[k]).0,
    ensures
        offsets_of(pages).len() == pages.len(),
        placed_views(pages).len() == pages.len(),
        0 <= i < pages.len() ==> {
            &&& offsets_of(pages)[i] == pages[i].0
            &&& placed_views(pages)[i] == pages[i].1@
            &&& placed(pages).contains_key(pages[i].0)
            &&& placed(pages)[pages[i].0] == pages[i].1@
        },
        placed(pages).contains_key(n) <==> exists|j: int|
            0 <= j < pages.len() && (#[trigger] pages[j]).0 == n,
    decreases pages.len(),
{
    if pages.len() > 0 {
        let rest = pages.drop_last();
        let last = pages.len() - 1;
        assert forall|j: int, k: int| 0 <= j < k < rest.len() implies (#[trigger] rest[j]).0 != (
        #[trigger] rest[k]).0 by {
            assert(pages[j].0 != pages[k].0);
        }
        law_placed_pages(rest, i, n);
        if 0 <= i < last {
            assert(rest[i] == pages[i]);
            assert(pages[i].0 != pages[last].0);
        }
        if placed(rest).contains_key(n) {
            let j = choose|j: int| 0 <= j < rest.len() && (#[trigger] rest[j]).0 == n;
            assert(pages[j].0 == n);
        }
        if exists|j: int| 0 <= j < pages.len() && (#[trigger] pages[j]).0 == n {
            let j = choose|j: int| 0 <= j < pages.len() && (#[trigger] pages[j]).0 == n;
            if j < last {
                assert(rest[j].0 == n);
            }
        }
    }
}

/// Entries are all fixed exactly if each of them is.
pub proof fn law_all_fixed(entries: Seq<Entry>, local: Map<u64, u64>)
    ensures
        all_fixed_by(entries, local) <==> forall|i: int|
            0 <= i < entries.len() ==> (#[trigger] entries[i]).fixed_by(local),
{
    if all_fixed_by(entries, local) {
        assert forall|i: int| 0 <= i < entries.len() implies (#[trigger] entries[i]).fixed_by(
            local,
        ) by {
            assert(entries.contains(entries[i]));
        }
    }
}

/// A tree that was put back holds the same entries in the same order, in as many
/// pages. They are at the first offsets that were given, the root at the first of
/// these. They are made depth first, the last child first, and the children of
/// each page get the next offsets, in order.
pub proof fn law_restored_trees(
    store: HashMap<u64, Page<Entry>>,
    pending: u64,
    fresh: Vec<u64>,
    local: HashMap<u64, u64>,
    r: (u64, Vec<(u64, Page<Entry>)>),
)
    requires
        pages::is_tree(pages::page_views(store@), pending),
        call_ensures(restore, (&store, pending, &fresh, &local), r),
    ensures
        ({
            let s = pages::page_views(store@);
            let new = placed(r.1@);
            let n = r.1@.len() as int;
            &&& r.0 == fresh@[0]
            &&& n == pages::walk(s, pending).len()
            &&& pages::is_tree(new, r.0)
            &&& pages::contents(new, r.0) == pages::contents(s, pending)
            &&& pages::mirrors(s, pending, new, r.0)
            &&& offsets_of(r.1@) == pages::walk(new, r.0)
            &&& offsets_of(r.1@).no_duplicates()
            &&& offsets_of(r.1@).to_set() == fresh@.take(n).to_set()
            &&& placed_views(r.1@).map_values(
                |p: PageView<Entry>| p.links.filter(|l: u64| l != 0),
            ).flatten() == fresh@.subrange(1, n)
        }),
{
    let s = pages::page_views(store@);
    pages::lemma_mirrors(s, pending, placed(r.1@), r.0);
    pages::law_pages_of_a_tree(s, pending);
    pages::law_children_of_pages(placed_views(r.1@));
}

/// One step of putting a tree back: the last page that waits is taken, its copy
/// has its entries as they are read, and its children get the given offsets, in
/// order, and wait behind the others.
pub proof fn law_steps_of_a_restoration(
    c: &mut Restorer,
    d: &mut Restorer,
    page: Page<Entry>,
    fresh: Vec<u64>,
    local: HashMap<u64, u64>,
    next: Option<(u64, u64)>,
    copy: Page<Entry>,
)
    requires
        call_ensures(Restorer::pop, (c,), next),
        call_ensures(Restorer::visit, (d, &page, &fresh, &local), copy),
        fresh@.len() == pages::kids(page@.links).len(),
        forall|i: int| 0 <= i < fresh@.len() ==> #[trigger] fresh@[i] != 0,
    ensures
        next is Some <==> old(c).pending@.len() > 0,
        next matches Some(p) ==> {
            &&& p == old(c).pending@.last()
            &&& final(c).pending@ == old(c).pending@.drop_last()
        },
        final(c).seen@ == old(c).seen@,
        ({
            let children = page@.links.filter(|l: u64| l != 0);
            let n = old(d).pending@.len();
            &&& copy@.entries.len() == page@.entries.len()
            &&& forall|i: int|
                0 <= i < page@.entries.len() ==> #[trigger] copy@.entries[i]
                    == page@.entries[i].relabelled(local@)
            &&& copy@.links.filter(|l: u64| l != 0) == fresh@
            &&& forall|i: int|
                0 <= i < page@.links.len() ==> (#[trigger] copy@.links[i] == 0 <==> page@.links[i]
                    == 0)
            &&& final(d).pending@.len() == n + children.len()
            &&& final(d).pending@.take(n as int) == old(d).pending@
            &&& forall|i: int|
                0 <= i < children.len() ==> {
                    let p = #[trigger] final(d).pending@[n + i];
                    p.0 == children[i] && p.1 == fresh@[i]
                }
        }),
{
    pages::law_children(page@.links);
    pages::law_relinked_pages(relabelled_page(page@, local@), fresh@);
    assert(final(d).pending@.take(old(d).pending@.len() as int) =~= old(d).pending@);
}

/// Putting a tree back starts with its root. Whether a page can be visited is
/// answered as it is, and its children are those that it links to.
pub proof fn law_starts_of_a_restoration(
    root: u64,
    to: u64,
    c: Restorer,
    page: Page<Entry>,
    local: HashMap<u64, u64>,
    r: bool,
    children: Vec<u64>,
)
    requires
        call_ensures(Restorer::new, (root, to), c),
        call_ensures(Restorer::admits, (&c, &page, &local), r),
        call_ensures(children_of::<Entry>, (&page,), children),
    ensures
        c.pending@ == seq![(root, to)],
        c.seen@ == Set::<u64>::empty(),
        r <==> c.admissible(page@, local@),
        children@ == page@.links.filter(|l: u64| l != 0),
{
    pages::law_children(page@.links);
}

} // verus!
