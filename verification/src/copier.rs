//! Copying a tree of pages to consecutive offsets, breadth first.

use std::collections::HashMap;
use std::collections::HashSet;
use std::collections::VecDeque;
use vstd::prelude::*;

use crate::pages;
use crate::pages::{Item, Page, PageView, BLOCK_SIZE};

verus! {

broadcast use vstd::std_specs::hash::group_hash_axioms;

/// The offsets of `n` pages in a row, the first of which is at `first`.
pub open spec fn consecutive(first: u64, n: nat) -> Seq<u64> {
    Seq::new(n, |i: int| (first + BLOCK_SIZE * i) as u64)
}

/// Each offset with the one at the same place in the other sequence.
pub open spec fn zipped(a: Seq<u64>, b: Seq<u64>) -> Seq<(u64, u64)> {
    Seq::new(a.len(), |i: int| (a[i], b[i]))
}

/// The pages in a row, the first of which is at `base`.
pub open spec fn image<E>(base: u64, pages: Seq<PageView<E>>) -> Map<u64, PageView<E>> {
    Map::new(
        |off: u64|
            base <= off && (off - base) % 4096 == 0 && (off - base) / 4096 < pages.len(),
        |off: u64| pages[(off - base) / 4096],
    )
}

/// Whether the pages in a row from `base` on stand in the order in which a
/// search in breadth from the first one meets them.
pub open spec fn breadth_first<E>(base: u64, pages: Seq<PageView<E>>) -> bool {
    &&& pages::all_kids(pages) == consecutive(
        (base + BLOCK_SIZE) as u64,
        (pages.len() - 1) as nat,
    )
    &&& children_follow(base, pages)
}

/// Whether the children of each page come after it.
pub open spec fn children_follow<E>(base: u64, pages: Seq<PageView<E>>) -> bool {
    forall|i: int, j: int|
        0 <= i < pages.len() && 0 <= j < pages::kids(pages[i].links).len() ==> base + BLOCK_SIZE * i
            < #[trigger] pages::kids(pages[i].links)[j]
}

/// The views of the pages, in order.
pub open spec fn views<E>(pages: Seq<Page<E>>) -> Seq<PageView<E>> {
    pages.map_values(|p: Page<E>| p@)
}

/// The state of a copy: which pages wait to be copied, and where to.
pub struct Copier {
    /// The pages still to be copied, each with the offset of its copy.
    pub pending: VecDeque<(u64, u64)>,
    /// The pages that were met to the right of an entry.
    pub seen: HashSet<u64>,
    /// The offset of the next new page.
    pub next_page: u64,
}

impl Copier {
    /// Starts a copy of the tree at `root`, whose root goes to `new_page`.
    pub fn new(root: u64, new_page: u64) -> (c: Copier)
        requires
            new_page + BLOCK_SIZE <= u64::MAX,
        ensures
            c.pending@ == seq![(root, new_page)],
            c.seen@ == Set::<u64>::empty(),
            c.next_page == new_page + BLOCK_SIZE,
    {
        let mut pending: VecDeque<(u64, u64)> = VecDeque::new();
        pending.push_back((root, new_page));
        Copier { pending, seen: HashSet::new(), next_page: new_page + BLOCK_SIZE as u64 }
    }

    /// The next page to copy, and the offset of its copy, if any is left.
    pub fn pop(&mut self) -> (r: Option<(u64, u64)>)
        ensures
            final(self).seen@ == old(self).seen@,
            final(self).next_page == old(self).next_page,
            match r {
                Some(p) => old(self).pending@.len() > 0 && p == old(self).pending@[0]
                    && final(self).pending@ == old(self).pending@.skip(1),
                None => old(self).pending@.len() == 0 && final(self).pending@
                    == old(self).pending@,
            },
    {
        let r = self.pending.pop_front();
        proof {
            if r is Some {
                assert(self.pending@ =~= old(self).pending@.skip(1));
            }
        }
        r
    }

    /// Whether a page can be visited: none of the children to the right of its
    /// entries was met before, and there are offsets left for its children.
    pub open spec fn admissible<E>(&self, page: PageView<E>) -> bool {
        &&& pages::kids(page.links.skip(1)).no_duplicates()
        &&& forall|x: u64| #[trigger] pages::kids(page.links.skip(1)).contains(x) ==> !self.seen@.contains(x)
        &&& self.next_page + BLOCK_SIZE * pages::kids(page.links).len() <= u64::MAX
    }

    /// Whether the page is admissible.
    pub fn admits<E>(&self, page: &Page<E>) -> (r: bool)
        ensures
            r == self.admissible(page@),
    {
        let mut met: HashSet<u64> = HashSet::new();
        let mut next: u64 = self.next_page;
        let ghost links = page@.links;
        proof {
            assert(links.take(0) =~= Seq::empty());
            pages::lemma_kids_take(links, 0);
            lemma_kids_skip(links, 1);
            assert(links.skip(1).take(0) =~= Seq::empty());
            assert(links.take(links.len() as int) =~= links);
            lemma_kids_prefix(links, 1);
        }
        if page.left != 0 {
            if next > u64::MAX - BLOCK_SIZE as u64 {
                return false;
            }
            next = next + BLOCK_SIZE as u64;
        }
        let mut i: usize = 0;
        while i < page.items.len()
            invariant
                i <= page.items.len(),
                links == page@.links,
                links.len() == page.items.len() + 1,
                next == self.next_page + BLOCK_SIZE * pages::kids(links.take(i + 1)).len(),
                met@ == pages::kids(links.skip(1).take(i as int)).to_set(),
                pages::kids(links.skip(1).take(i as int)).no_duplicates(),
                forall|x: u64| #[trigger]
                    pages::kids(links.skip(1).take(i as int)).contains(x) ==> !self.seen@.contains(x),
            decreases page.items.len() - i,
        {
            let r: u64 = page.items[i].right;
            let ghost before = pages::kids(links.skip(1).take(i as int));
            proof {
                assert(links[i + 1] == r);
                assert(links.skip(1)[i as int] == r);
                pages::lemma_kids_take(links, i + 1);
                pages::lemma_kids_take(links.skip(1), i as int);
                lemma_kids_prefix(links, i + 2);
                lemma_kids_prefix(links.skip(1), i + 1);
            }
            if r != 0 {
                proof {
                    let after = pages::kids(links.skip(1).take(i + 1));
                    assert(after == before.push(r));
                    assert(after[before.len() as int] == r);
                    assert(pages::kids(links.skip(1)).take(after.len() as int) == after);
                    assert(pages::kids(links.skip(1))[before.len() as int] == r);
                    if self.seen@.contains(r) {
                        assert(pages::kids(links.skip(1)).contains(r));
                    }
                    if met@.contains(r) {
                        let j = choose|j: int| 0 <= j < before.len() && before[j] == r;
                        assert(after[j] == r);
                        assert(pages::kids(links.skip(1))[j] == r);
                    }
                    assert(after.to_set() =~= before.to_set().insert(r)) by {
                        assert forall|x: u64| after.to_set().contains(x) == before.to_set().insert(
                            r,
                        ).contains(x) by {
                            if before.contains(x) {
                                let j = choose|j: int| 0 <= j < before.len() && before[j] == x;
                                assert(after[j] == x);
                            }
                        }
                    }
                }
                if self.seen.contains(&r) || !met.insert(r) || next > u64::MAX
                    - BLOCK_SIZE as u64 {
                    return false;
                }
                next = next + BLOCK_SIZE as u64;
                proof {
                    let after = pages::kids(links.skip(1).take(i + 1));
                    assert forall|x: u64| #[trigger] after.contains(x) implies !self.seen@.contains(
                        x,
                    ) by {
                        let j = choose|j: int| 0 <= j < after.len() && after[j] == x;
                        if j < before.len() {
                            assert(before[j] == x);
                            assert(before.contains(x));
                        }
                    }
                }
            }
            i = i + 1;
        }
        proof {
            assert(links.take(i + 1) =~= links);
            assert(links.skip(1).take(i as int) =~= links.skip(1));
        }
        true
    }

    /// Makes the copy of a page, and lets its children wait behind the others.
    pub fn visit<E: Copy>(&mut self, page: &Page<E>) -> (r: Page<E>)
        requires
            old(self).admissible(page@),
        ensures
            ({
                let children = pages::kids(page@.links);
                let fresh = consecutive(old(self).next_page, children.len());
                &&& r@ == pages::relinked(page@, fresh)
                &&& final(self).pending@ == old(self).pending@ + zipped(children, fresh)
                &&& final(self).seen@ == old(self).seen@.union(
                    pages::kids(page@.links.skip(1)).to_set(),
                )
                &&& final(self).next_page == old(self).next_page + BLOCK_SIZE * children.len()
            }),
    {
        let ghost links = page@.links;
        let ghost first = self.next_page;
        let ghost fresh = consecutive(first, pages::kids(links).len());
        let mut left: u64 = 0;
        proof {
            assert(links.take(0) =~= Seq::empty());
            pages::lemma_kids_take(links, 0);
            lemma_kids_prefix(links, 1);
            lemma_kids_prefix(links, 0);
            lemma_kids_skip(links, 1);
            assert(links.skip(1).take(0) =~= Seq::empty());
            assert(self.seen@ =~= self.seen@.union(Set::empty()));
        }
        if page.left != 0 {
            left = self.next_page;
            self.next_page = self.next_page + BLOCK_SIZE as u64;
            self.pending.push_back((page.left, left));
        }
        proof {
            assert(self.pending@ =~= old(self).pending@ + zipped(
                pages::kids(links.take(1)),
                consecutive(first, pages::kids(links.take(1)).len()),
            ));
        }
        let mut items: Vec<Item<E>> = Vec::new();
        let mut i: usize = 0;
        while i < page.items.len()
            invariant
                i <= page.items.len(),
                links == page@.links,
                links.len() == page.items.len() + 1,
                first + BLOCK_SIZE * pages::kids(links).len() <= u64::MAX,
                fresh == consecutive(first, pages::kids(links).len()),
                self.next_page == first + BLOCK_SIZE * pages::kids(links.take(i + 1)).len(),
                self.seen@ == old(self).seen@.union(
                    pages::kids(links.skip(1).take(i as int)).to_set(),
                ),
                self.pending@ == old(self).pending@ + zipped(
                    pages::kids(links.take(i + 1)),
                    consecutive(first, pages::kids(links.take(i + 1)).len()),
                ),
                items.len() == i,
                left == pages::relinked_links(links, fresh)[0],
                forall|j: int|
                    0 <= j < i ==> (#[trigger] items@[j]).entry == page.items@[j].entry
                        && items@[j].right == pages::relinked_links(links, fresh)[j + 1],
            decreases page.items.len() - i,
        {
            let item = &page.items[i];
            let mut right: u64 = 0;
            proof {
                assert(links[i + 1] == item.right);
                assert(links.skip(1)[i as int] == item.right);
                pages::lemma_kids_take(links, i + 1);
                pages::lemma_kids_take(links.skip(1), i as int);
                lemma_kids_prefix(links, i + 1);
                lemma_kids_prefix(links, i + 2);
            }
            let ghost before = pages::kids(links.skip(1).take(i as int));
            if item.right != 0 {
                right = self.next_page;
                self.next_page = self.next_page + BLOCK_SIZE as u64;
                self.pending.push_back((item.right, right));
                self.seen.insert(item.right);
                proof {
                    let after = pages::kids(links.skip(1).take(i + 1));
                    assert(after == before.push(item.right));
                    assert(after[before.len() as int] == item.right);
                    assert forall|x: u64| after.to_set().contains(x) == (before.to_set().contains(x)
                        || x == item.right) by {
                        if before.contains(x) {
                            let j = choose|j: int| 0 <= j < before.len() && before[j] == x;
                            assert(after[j] == x);
                        }
                    }
                    assert(self.seen@ =~= old(self).seen@.union(after.to_set()));
                    assert(self.pending@ =~= old(self).pending@ + zipped(
                        pages::kids(links.take(i + 2)),
                        consecutive(first, pages::kids(links.take(i + 2)).len()),
                    ));
                }
            }
            assert(right == pages::relinked_links(links, fresh)[i + 1]);
            items.push(Item { entry: item.entry, right });
            i = i + 1;
        }
        let r = Page { left, items };
        proof {
            assert(links.take(i + 1) =~= links);
            assert(links.skip(1).take(i as int) =~= links.skip(1));
            assert forall|k: int| 0 <= k < links.len() implies r@.links[k]
                == pages::relinked_links(links, fresh)[k] by {
                if k > 0 {
                    assert(r@.links[k] == r.items@[k - 1].right);
                }
            }
            assert(r@.links =~= pages::relinked_links(links, fresh));
            assert(r@.entries =~= page@.entries);
        }
        r
    }
}

/// The children of the links from the second on.
proof fn lemma_kids_skip(links: Seq<u64>, n: int)
    requires
        0 <= n <= links.len(),
    ensures
        pages::kids(links) == pages::kids(links.take(n)) + pages::kids(links.skip(n)),
{
    pages::lemma_kids_concat(links.take(n), links.skip(n));
    assert(links.take(n) + links.skip(n) =~= links);
}

/// The children of a beginning of the links come first.
proof fn lemma_kids_prefix(links: Seq<u64>, n: int)
    requires
        0 <= n <= links.len(),
    ensures
        pages::kids(links.take(n)).len() <= pages::kids(links).len(),
        pages::kids(links.take(n)) == pages::kids(links).take(pages::kids(links.take(n)).len() as int),
{
    lemma_kids_skip(links, n);
    assert(pages::kids(links.take(n)) =~= pages::kids(links).take(pages::kids(links.take(n)).len() as int));
}

/// Whether the new link leads to the copy of the page that the old one leads
/// to, where the copies of the pages in `origins` stand in a row from `base`.
spec fn follows(old_link: u64, new_link: u64, base: u64, origins: Seq<u64>) -> bool {
    &&& old_link == 0 <==> new_link == 0
    &&& old_link != 0 ==> {
        &&& base <= new_link
        &&& (new_link - base) % 4096 == 0
        &&& (new_link - base) / 4096 < origins.len()
        &&& origins[(new_link - base) / 4096] == old_link
    }
}

/// Whether a page is the copy of another one, with its links.
spec fn copied<E>(p: PageView<E>, q: PageView<E>, base: u64, origins: Seq<u64>) -> bool {
    &&& p.entries == q.entries
    &&& p.links.len() == q.links.len()
    &&& forall|i: int|
        0 <= i < p.links.len() ==> follows(#[trigger] p.links[i], q.links[i], base, origins)
}

/// Whether the pages are the copies of the first pages in `origins`.
spec fn copied_so_far<E>(
    s: Map<u64, PageView<E>>,
    done: Seq<PageView<E>>,
    base: u64,
    origins: Seq<u64>,
) -> bool {
    forall|j: int|
        #![trigger done[j]]
        #![trigger origins[j]]
        0 <= j < done.len() ==> s.contains_key(origins[j]) && copied(
            s[origins[j]],
            done[j],
            base,
            origins,
        )
}

/// Copies the tree at `pending`, whose pages stand in `store`, to the offsets
/// from `*new_page` on. Gives the offset of the new root, and the new pages in
/// the order of their offsets.
pub fn copy<E: Copy>(store: &HashMap<u64, Page<E>>, pending: u64, new_page: &mut u64) -> (r: (
    u64,
    Vec<Page<E>>,
))
    requires
        pages::is_tree(pages::page_views(store@), pending),
        pages::unshared(pages::page_views(store@), pending, false),
        *old(new_page) + BLOCK_SIZE * pages::page_count(pages::page_views(store@), pending)
            <= u64::MAX,
    ensures
        r.0 == *old(new_page),
        r.1@.len() == pages::page_count(pages::page_views(store@), pending),
        *final(new_page) == *old(new_page) + BLOCK_SIZE * r.1@.len(),
        pages::mirrors(
            pages::page_views(store@),
            pending,
            image(*old(new_page), views(r.1@)),
            *old(new_page),
        ),
        breadth_first(*old(new_page), views(r.1@)),
{
    let base: u64 = *new_page;
    let ghost s = pages::page_views(store@);
    let ghost d = pages::height(s, pending);
    let ghost total = pages::page_count(s, pending);
    let ghost mut origins = seq![pending];
    proof {
        assert(pages::spans(s, pending, d));
        assert(pages::pages_to(s, pending, d) >= 1);
        lemma_one(s, pending, d);
        assert(origins.skip(0) =~= origins);
        assert(origins.drop_last() =~= Seq::empty());
    }
    let mut copier = Copier::new(pending, base);
    let mut out: Vec<Page<E>> = Vec::new();
    proof {
        assert(views(out@) =~= Seq::empty());
        assert(consecutive((base + BLOCK_SIZE) as u64, 0) =~= Seq::empty());
        assert forall|x: u64| #[trigger] pages::uses_under(s, origins.skip(0), d, x, false) <= 1 by {
            assert(pages::uses(s, pending, d, x, false) <= 1);
        }
    }
    while copier.pending.len() > 0
        invariant
            s == pages::page_views(store@),
            d > 0,
            base + BLOCK_SIZE * total <= u64::MAX,
            out@.len() <= origins.len(),
            origins.len() >= 1,
            origins[0] == pending,
            copier.next_page == base + BLOCK_SIZE * origins.len(),
            copier.pending@ == zipped(
                origins.skip(out@.len() as int),
                consecutive(
                    (base + BLOCK_SIZE * out@.len()) as u64,
                    (origins.len() - out@.len()) as nat,
                ),
            ),
            pages::all_kids(views(out@)) == consecutive(
                (base + BLOCK_SIZE) as u64,
                (origins.len() - 1) as nat,
            ),
            copied_so_far(s, views(out@), base, origins),
            children_follow(base, views(out@)),
            forall|j: int|
                out@.len() <= j < origins.len() ==> pages::spans(s, #[trigger] origins[j], d),
            total == out@.len() + pages::pages_under(s, origins.skip(out@.len() as int), d),
            forall|x: u64|
                (if copier.seen@.contains(x) {
                    1nat
                } else {
                    0nat
                }) + #[trigger] pages::uses_under(
                    s,
                    origins.skip(out@.len() as int),
                    d,
                    x,
                    false,
                ) <= 1,
        decreases pages::pages_under(s, origins.skip(out@.len() as int), d),
    {
        let (off, _) = copier.pop().unwrap();
        let ghost done = out@.len() as int;
        let ghost seen = copier.seen@;
        assert(off == origins[done]);
        assert(pages::spans(s, origins[done], d));
        assert(s.contains_key(off));
        let page = store.get(&off).unwrap();
        let ghost children = pages::kids(page@.links);
        let ghost right = pages::kids(page@.links.skip(1));
        let ghost rest = origins.skip(done + 1);
        proof {
            assert(origins.skip(done) =~= seq![off] + rest);
            lemma_step(s, off, rest, d);
            assert forall|x: u64| pages::occurrences(right, x) + (if seen.contains(x) {
                1nat
            } else {
                0nat
            }) + pages::uses_under(s, #[trigger] (rest + children), d, x, false) <= 1 by {
                lemma_step_uses(s, off, rest, d, x, false);
                assert(pages::uses_under(s, origins.skip(done), d, x, false) + (
                if seen.contains(x) {
                    1nat
                } else {
                    0nat
                }) <= 1);
            }
            assert forall|i: int, j: int|
                0 <= i < j < right.len() implies right[i] != right[j] by {
                if right[i] == right[j] {
                    pages::lemma_occurs_twice(right, i, j);
                    assert(pages::uses_under(s, rest + children, d, right[i], false) >= 0);
                }
            }
            assert forall|x: u64| #[trigger] right.contains(x) implies !seen.contains(
                x,
            ) by {
                let i = choose|i: int| 0 <= i < right.len() && right[i] == x;
                pages::lemma_occurs(right, i);
                assert(pages::uses_under(s, rest + children, d, x, false) >= 0);
            }
            lemma_at_least(s, children, d);
            lemma_at_least(s, rest, d);
        }
        let ghost first = copier.next_page;
        let new = copier.visit(page);
        let ghost old_origins = origins;
        let ghost fresh = consecutive(first, children.len());
        let ghost old_out = out@;
        proof {
            origins = origins + children;
            assert forall|x: u64|
                (if copier.seen@.contains(x) {
                    1nat
                } else {
                    0nat
                }) + #[trigger] pages::uses_under(s, rest + children, d, x, false)
                    <= 1 by {
                if right.to_set().contains(x) {
                    let i = choose|i: int| 0 <= i < right.len() && right[i] == x;
                    pages::lemma_occurs(right, i);
                }
            }
            assert(origins.skip(done + 1) =~= rest + children);
            assert(new@ == pages::relinked(page@, fresh));
            lemma_copied(page@, base, old_origins, fresh);
            assert(copied(page@, new@, base, origins));
            pages::lemma_kids_relinked(
                page@.links,
                fresh,
                page@.links.len() as int,
            );
            assert(new@.links.take(page@.links.len() as int) =~= new@.links);
            assert(page@.links.take(page@.links.len() as int) =~= page@.links);
            assert(fresh.take(fresh.len() as int) =~= fresh);
            assert(pages::kids(new@.links) == fresh);
        }
        out.push(new);
        proof {
            assert(views(out@).drop_last() =~= views(old_out));
            assert(views(out@).last() == new@);
            assert(pages::all_kids(views(out@)) =~= consecutive(
                (base + BLOCK_SIZE) as u64,
                (origins.len() - 1) as nat,
            ));
            assert(copier.pending@ =~= zipped(
                origins.skip(done + 1),
                consecutive(
                    (base + BLOCK_SIZE * (done + 1)) as u64,
                    (origins.len() - (done + 1)) as nat,
                ),
            ));
            lemma_copied_so_far(s, views(old_out), new@, base, old_origins, children);
            assert(views(out@) =~= views(old_out).push(new@));
            assert forall|i: int, j: int|
                0 <= i < views(out@).len() && 0 <= j < pages::kids(
                    views(out@)[i].links,
                ).len() implies base + BLOCK_SIZE * i < #[trigger] pages::kids(
                views(out@)[i].links,
            )[j] by {
                if i < done {
                    assert(views(out@)[i] == views(old_out)[i]);
                } else {
                    assert(pages::kids(views(out@)[i].links)[j] == fresh[j]);
                }
            }
            assert forall|j: int| out@.len() <= j < origins.len() implies pages::spans(
                s,
                #[trigger] origins[j],
                d,
            ) by {
                if j < old_origins.len() {
                    assert(origins[j] == old_origins[j]);
                } else {
                    assert(origins[j] == children[j - old_origins.len()]);
                }
            }
        }
    }
    proof {
        assert(origins.skip(out@.len() as int).len() == 0);
        assert(out@.len() == origins.len());
        assert(views(out@).len() == out@.len());
        let im = image(base, views(out@));
        let origin = Map::new(
            |o: u64| im.contains_key(o),
            |o: u64| origins[(o - base) / 4096],
        );
        assert forall|n: u64| #[trigger] im.contains_key(n) implies origin.contains_key(n)
            && s.contains_key(origin[n]) && pages::copies_page(s[origin[n]], im[n], im, origin) by {
            let j = (n - base) / 4096;
            assert(copied(s[origins[j]], views(out@)[j], base, origins));
            let p = s[origins[j]];
            let q = im[n];
            assert forall|i: int|
                #![trigger p.links[i]]
                #![trigger q.links[i]]
                0 <= i < p.links.len() implies {
                &&& p.links[i] == 0 <==> q.links[i] == 0
                &&& p.links[i] != 0 ==> im.contains_key(q.links[i]) && origin.contains_key(
                    q.links[i],
                ) && origin[q.links[i]] == p.links[i]
            } by {
                assert(follows(p.links[i], q.links[i], base, origins));
            }
        }
        assert(im.contains_key(base));
        pages::lemma_copy_mirrors(s, im, origin, base);
        assert(origin[base] == pending);
    }
    *new_page = copier.next_page;
    (base, out)
}

/// One tree by itself.
pub proof fn lemma_one<E>(s: Map<u64, PageView<E>>, off: u64, d: nat)
    ensures
        pages::pages_under(s, seq![off], d) == pages::pages_to(s, off, d),
        forall|x: u64, w: bool| #[trigger]
            pages::uses_under(s, seq![off], d, x, w) == pages::uses(s, off, d, x, w),
{
    reveal_with_fuel(pages::pages_under, 2);
    reveal_with_fuel(pages::uses_under, 2);
    assert(seq![off].drop_last() =~= Seq::empty());
}

/// Replacing a page by its children takes one page away.
pub proof fn lemma_step<E>(s: Map<u64, PageView<E>>, off: u64, rest: Seq<u64>, d: nat)
    requires
        pages::spans(s, off, d),
    ensures
        pages::pages_under(s, seq![off] + rest, d) == 1 + pages::pages_under(
            s,
            pages::kids(s[off].links),
            d,
        ) + pages::pages_under(s, rest, d),
        pages::pages_under(s, seq![off] + rest, d) == 1 + pages::pages_under(
            s,
            rest + pages::kids(s[off].links),
            d,
        ),
        forall|j: int|
            0 <= j < pages::kids(s[off].links).len() ==> pages::spans(
                s,
                #[trigger] pages::kids(s[off].links)[j],
                d,
            ),
{
    let children = pages::kids(s[off].links);
    lemma_children_span(s, off, d);
    lemma_one(s, off, d);
    pages::lemma_pages_under_concat(s, seq![off], rest, d);
    pages::lemma_pages_under_concat(s, rest, children, d);
    pages::lemma_pages_under_deeper(s, children, (d - 1) as nat, d);
}

proof fn lemma_children_span<E>(s: Map<u64, PageView<E>>, off: u64, d: nat)
    requires
        pages::spans(s, off, d),
    ensures
        forall|j: int|
            0 <= j < pages::kids(s[off].links).len() ==> pages::spans(
                s,
                #[trigger] pages::kids(s[off].links)[j],
                (d - 1) as nat,
            ),
        forall|j: int|
            0 <= j < pages::kids(s[off].links).len() ==> pages::spans(
                s,
                #[trigger] pages::kids(s[off].links)[j],
                d,
            ),
{
    let children = pages::kids(s[off].links);
    assert forall|j: int| 0 <= j < children.len() implies pages::spans(
        s,
        #[trigger] children[j],
        (d - 1) as nat,
    ) && pages::spans(s, children[j], d) by {
        let i = pages::lemma_kids_are_links(s[off].links, j);
        assert(s[off].links[i] == children[j]);
        pages::lemma_spans_deeper(s, children[j], (d - 1) as nat, d);
    }
}

/// Replacing a page by its children takes its guarded children away.
pub proof fn lemma_step_uses<E>(
    s: Map<u64, PageView<E>>,
    off: u64,
    rest: Seq<u64>,
    d: nat,
    x: u64,
    with_left: bool,
)
    requires
        pages::spans(s, off, d),
    ensures
        pages::uses_under(s, seq![off] + rest, d, x, with_left) == pages::occurrences(
            pages::guarded(s[off].links, with_left),
            x,
        ) + pages::uses_under(s, rest + pages::kids(s[off].links), d, x, with_left),
        pages::uses_under(s, rest + seq![off], d, x, with_left) == pages::uses_under(
            s,
            seq![off] + rest,
            d,
            x,
            with_left,
        ),
{
    let children = pages::kids(s[off].links);
    lemma_children_span(s, off, d);
    lemma_one(s, off, d);
    pages::lemma_uses_under_concat(s, seq![off], rest, d, x, with_left);
    pages::lemma_uses_under_concat(s, rest, seq![off], d, x, with_left);
    pages::lemma_uses_under_concat(s, rest, children, d, x, with_left);
    pages::lemma_uses_under_deeper(s, children, (d - 1) as nat, d, x, with_left);
}

/// Each tree has at least one page.
pub proof fn lemma_at_least<E>(s: Map<u64, PageView<E>>, offs: Seq<u64>, d: nat)
    requires
        d > 0,
    ensures
        pages::pages_under(s, offs, d) >= offs.len(),
    decreases offs.len(),
{
    if offs.len() > 0 {
        lemma_at_least(s, offs.drop_last(), d);
        assert(pages::pages_to(s, offs.last(), d) >= 1);
    }
}

/// A relinked page is the copy of the page.
proof fn lemma_copied<E>(p: PageView<E>, base: u64, origins: Seq<u64>, fresh: Seq<u64>)
    requires
        origins.len() >= 1,
        base + BLOCK_SIZE * (origins.len() + pages::kids(p.links).len()) <= u64::MAX,
        fresh == consecutive(
            (base + BLOCK_SIZE * origins.len()) as u64,
            pages::kids(p.links).len(),
        ),
    ensures
        copied(p, pages::relinked(p, fresh), base, origins + pages::kids(p.links)),
        forall|j: int| 0 <= j < fresh.len() ==> fresh[j] != 0,
{
    let q = pages::relinked(p, fresh);
    let children = pages::kids(p.links);
    assert forall|i: int| 0 <= i < p.links.len() implies follows(
        #[trigger] p.links[i],
        q.links[i],
        base,
        origins + children,
    ) by {
        if p.links[i] != 0 {
            pages::lemma_kids_at(p.links, i);
            let k = pages::kids(p.links.take(i)).len();
            assert(q.links[i] == fresh[k as int]);
            assert(q.links[i] == base + 4096 * (origins.len() + k));
            assert((q.links[i] - base) / 4096 == origins.len() + k);
            assert((origins + children)[(origins.len() + k) as int] == children[k as int]);
        }
    }
}

/// The copies stay copies when one more page is copied.
proof fn lemma_copied_so_far<E>(
    s: Map<u64, PageView<E>>,
    done: Seq<PageView<E>>,
    new: PageView<E>,
    base: u64,
    origins: Seq<u64>,
    more: Seq<u64>,
)
    requires
        copied_so_far(s, done, base, origins),
        done.len() < origins.len(),
        s.contains_key(origins[done.len() as int]),
        copied(s[origins[done.len() as int]], new, base, origins + more),
    ensures
        copied_so_far(s, done.push(new), base, origins + more),
{
    let all = origins + more;
    assert forall|j: int|
        #![trigger done.push(new)[j]]
        #![trigger all[j]]
        0 <= j < done.push(new).len() implies s.contains_key(all[j]) && copied(
        s[all[j]],
        done.push(new)[j],
        base,
        all,
    ) by {
        assert(all[j] == origins[j]);
        if j < done.len() {
            let p = s[origins[j]];
            let q = done[j];
            assert(copied(p, q, base, origins));
            assert forall|i: int| 0 <= i < p.links.len() implies follows(
                #[trigger] p.links[i],
                q.links[i],
                base,
                all,
            ) by {
                assert(follows(p.links[i], q.links[i], base, origins));
            }
        }
    }
}

/// The offsets of pages in a row are the size of a page apart.
pub proof fn law_offsets_in_a_row(first: u64, n: nat, i: int)
    requires
        first + 4096 * n <= u64::MAX,
        0 <= i < n,
    ensures
        consecutive(first, n).len() == n,
        consecutive(first, n)[i] == first + 4096 * i,
{
}

/// Offsets are paired with those at the same place.
pub proof fn law_pairs(a: Seq<u64>, b: Seq<u64>, i: int)
    ensures
        zipped(a, b).len() == a.len(),
        0 <= i < a.len() ==> zipped(a, b)[i].0 == a[i] && zipped(a, b)[i].1 == b[i],
{
}

/// Each of some pages in a row is at the offset of its number, and nothing is at
/// any other offset.
pub proof fn law_pages_by_offset<E>(base: u64, pages: Seq<PageView<E>>, i: int, off: u64)
    requires
        base + 4096 * pages.len() <= u64::MAX,
    ensures
        0 <= i < pages.len() ==> {
            &&& image(base, pages).contains_key((base + 4096 * i) as u64)
            &&& image(base, pages)[(base + 4096 * i) as u64] == pages[i]
        },
        image(base, pages).contains_key(off) ==> base <= off < base + 4096 * pages.len() && (off
            - base) % 4096 == 0,
{
}

/// In the order of a search in breadth, the children of all the pages follow the
/// first page one after the other, and each one comes after its parent.
pub proof fn law_search_in_breadth<E>(
    base: u64,
    pages: Seq<PageView<E>>,
    k: int,
    i: int,
    link: int,
)
    requires
        breadth_first(base, pages),
        pages.len() > 0,
        base + 4096 * pages.len() <= u64::MAX,
    ensures
        ({
            let children = pages.map_values(
                |p: PageView<E>| p.links.filter(|l: u64| l != 0),
            ).flatten();
            &&& children.len() == pages.len() - 1
            &&& 0 <= k < children.len() ==> children[k] == base + 4096 * (k + 1)
        }),
        0 <= i < pages.len() && 0 <= link < pages[i].links.len() && pages[i].links[link] != 0
            ==> base + 4096 * i < pages[i].links[link],
{
    pages::law_children_of_pages(pages);
    if 0 <= i < pages.len() && 0 <= link < pages[i].links.len() && pages[i].links[link] != 0 {
        pages::lemma_kids_at(pages[i].links, link);
        let j = pages::kids(pages[i].links.take(link)).len() as int;
        assert(pages::kids(pages[i].links)[j] == pages[i].links[link]);
    }
}

/// A page can be copied exactly if the children to the right of its entries are
/// all different, none of them was met before, and there is room for the copies
/// of all its children.
pub proof fn law_pages_that_can_be_copied<E>(c: Copier, page: PageView<E>)
    ensures
        c.admissible(page) <==> {
            let right = page.links.skip(1).filter(|l: u64| l != 0);
            &&& right.no_duplicates()
            &&& forall|i: int| 0 <= i < right.len() ==> !c.seen@.contains(#[trigger] right[i])
            &&& c.next_page + 4096 * page.links.filter(|l: u64| l != 0).len() <= u64::MAX
        },
{
    pages::law_children(page.links.skip(1));
    pages::law_children(page.links);
    let right = pages::kids(page.links.skip(1));
    if c.admissible(page) {
        assert forall|i: int| 0 <= i < right.len() implies !c.seen@.contains(
            #[trigger] right[i],
        ) by {
            assert(right.contains(right[i]));
        }
    }
}

/// What some pages hold, in their order.
pub proof fn law_views_of_rows<E>(pages: Seq<Page<E>>, i: int)
    ensures
        views(pages).len() == pages.len(),
        0 <= i < pages.len() ==> views(pages)[i] == pages[i]@,
{
}

/// A copy of a tree holds the same entries in the same order, in as many pages,
/// which follow each other from the first free offset on. The next free offset
/// is behind them.
pub proof fn law_copies<E: Copy>(
    store: HashMap<u64, Page<E>>,
    pending: u64,
    new_page: &mut u64,
    r: (u64, Vec<Page<E>>),
)
    requires
        pages::is_tree(pages::page_views(store@), pending),
        call_ensures(copy::<E>, (&store, pending, new_page), r),
    ensures
        ({
            let s = pages::page_views(store@);
            let new = image(*old(new_page), views(r.1@));
            &&& r.0 == *old(new_page)
            &&& *final(new_page) == *old(new_page) + 4096 * r.1@.len()
            &&& r.1@.len() == pages::walk(s, pending).len()
            &&& pages::is_tree(new, r.0)
            &&& pages::contents(new, r.0) == pages::contents(s, pending)
            &&& pages::mirrors(s, pending, new, r.0)
            &&& breadth_first(r.0, views(r.1@))
        }),
{
    let s = pages::page_views(store@);
    pages::lemma_mirrors(s, pending, image(*old(new_page), views(r.1@)), r.0);
    pages::law_pages_of_a_tree(s, pending);
}

/// One step of a copy: the first page that waits is taken, its copy has the same
/// entries, and its children get the next free offsets, in order, and wait behind
/// the others.
pub proof fn law_steps_of_a_copy<E: Copy>(
    c: &mut Copier,
    d: &mut Copier,
    page: Page<E>,
    next: Option<(u64, u64)>,
    copy: Page<E>,
)
    requires
        call_ensures(Copier::pop, (c,), next),
        call_ensures(Copier::visit::<E>, (d, &page), copy),
        old(d).next_page + 4096 * pages::kids(page@.links).len() <= u64::MAX,
        old(d).next_page > 0,
    ensures
        next is Some <==> old(c).pending@.len() > 0,
        next matches Some(p) ==> {
            &&& p == old(c).pending@[0]
            &&& final(c).pending@ == old(c).pending@.skip(1)
        },
        final(c).seen@ == old(c).seen@,
        final(c).next_page == old(c).next_page,
        ({
            let children = page@.links.filter(|l: u64| l != 0);
            let n = old(d).pending@.len();
            &&& copy@.entries == page@.entries
            &&& copy@.links.len() == page@.links.len()
            &&& copy@.links.filter(|l: u64| l != 0).len() == children.len()
            &&& forall|i: int|
                0 <= i < page@.links.len() ==> (#[trigger] copy@.links[i] == 0 <==> page@.links[i]
                    == 0)
            &&& final(d).pending@.len() == n + children.len()
            &&& final(d).pending@.take(n as int) == old(d).pending@
            &&& forall|i: int|
                0 <= i < children.len() ==> {
                    let p = #[trigger] final(d).pending@[n + i];
                    p.0 == children[i] && p.1 == old(d).next_page + 4096 * i
                }
            &&& final(d).next_page == old(d).next_page + 4096 * children.len()
        }),
{
    let ks = pages::kids(page@.links);
    let fresh = consecutive(old(d).next_page, ks.len());
    pages::law_children(page@.links);
    assert forall|i: int| 0 <= i < fresh.len() implies #[trigger] fresh[i] != 0 by {
        law_offsets_in_a_row(old(d).next_page, ks.len(), i);
    }
    pages::law_relinked_pages(page@, fresh);
    assert(final(d).pending@.take(old(d).pending@.len() as int) =~= old(d).pending@);
}

/// A copy starts with its root, which goes to the first free offset. Whether a
/// page can be visited is answered as it is.
pub proof fn law_starts_of_a_copy<E>(root: u64, new_page: u64, c: Copier, page: Page<E>, r: bool)
    requires
        call_ensures(Copier::new, (root, new_page), c),
        call_ensures(Copier::admits::<E>, (&c, &page), r),
    ensures
        c.pending@ == seq![(root, new_page)],
        c.seen@ == Set::<u64>::empty(),
        c.next_page == new_page + 4096,
        r <==> c.admissible(page@),
{
}

} // verus!
