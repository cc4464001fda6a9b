//! Pages in a row, in the order in which a search in breadth meets them, form
//! a tree in which no page is met twice.

use vstd::prelude::*;

use crate::copier;
use crate::pages;
use crate::pages::{PageView, BLOCK_SIZE};

verus! {

/// What holds of the pages that a copy made.
spec fn laid_out<E>(base: u64, pages: Seq<PageView<E>>) -> bool {
    &&& pages.len() > 0
    &&& base + BLOCK_SIZE * pages.len() <= u64::MAX
    &&& copier::breadth_first(base, pages)
}

/// Whether `x` is a child of the page number `i`.
spec fn parent<E>(pages: Seq<PageView<E>>, i: int, x: u64) -> bool {
    0 <= i < pages.len() && pages::kids(pages[i].links).contains(x)
}

/// The offset of the page number `i`.
spec fn offset(base: u64, i: int) -> u64 {
    (base + 4096 * i) as u64
}

/// Whether the page number `i` is above the page at `x`, at any distance.
spec fn above<E>(base: u64, pages: Seq<PageView<E>>, i: int, x: u64, fuel: nat) -> bool
    decreases fuel,
{
    fuel > 0 && exists|p: int| #[trigger]
        parent(pages, p, x) && (p == i || above(base, pages, i, offset(base, p), (fuel - 1) as nat))
}

/// No page has two parents, nor is it twice a child of one.
proof fn lemma_one_parent<E>(base: u64, pages: Seq<PageView<E>>, x: u64)
    requires
        laid_out(base, pages),
    ensures
        forall|i: int, j: int| #[trigger]
            parent(pages, i, x) && #[trigger] parent(pages, j, x) ==> i == j,
        forall|i: int|
            0 <= i < pages.len() ==> pages::occurrences(
                #[trigger] pages::kids(pages[i].links),
                x,
            ) <= 1,
{
    let all = pages::all_kids(pages);
    assert(pages::occurrences(all, x) <= 1) by {
        lemma_distinct_occurrences(all, x);
    }
    assert forall|i: int| 0 <= i < pages.len() implies pages::occurrences(
        #[trigger] pages::kids(pages[i].links),
        x,
    ) <= 1 by {
        lemma_part_occurrences(pages, i, i, x);
    }
    assert forall|i: int, j: int| #[trigger] parent(pages, i, x) && #[trigger] parent(
        pages,
        j,
        x,
    ) implies i == j by {
        let a = pages::kids(pages[i].links);
        let b = pages::kids(pages[j].links);
        let m = choose|m: int| 0 <= m < a.len() && a[m] == x;
        let n = choose|n: int| 0 <= n < b.len() && b[n] == x;
        pages::lemma_occurs(a, m);
        pages::lemma_occurs(b, n);
        if i < j {
            lemma_part_occurrences(pages, i, j, x);
        } else if j < i {
            lemma_part_occurrences(pages, j, i, x);
        }
    }
}

/// What occurs in a sequence without repetition occurs once.
proof fn lemma_distinct_occurrences(s: Seq<u64>, x: u64)
    requires
        s.no_duplicates(),
    ensures
        pages::occurrences(s, x) <= 1,
        pages::occurrences(s, x) > 0 ==> s.contains(x),
    decreases s.len(),
{
    if s.len() > 0 {
        let t = s.drop_last();
        lemma_distinct_occurrences(t, x);
        if pages::occurrences(t, x) > 0 {
            let i = choose|i: int| 0 <= i < t.len() && t[i] == x;
            assert(s[i] == x);
        }
        if s.last() == x {
            assert(s[s.len() - 1] == x);
            if t.contains(x) {
                let i = choose|i: int| 0 <= i < t.len() && t[i] == x;
                assert(s[i] == s[s.len() - 1]);
            }
        }
    }
}

/// What occurs among the children of two pages occurs among all of them.
proof fn lemma_part_occurrences<E>(pages: Seq<PageView<E>>, i: int, j: int, x: u64)
    requires
        0 <= i <= j < pages.len(),
    ensures
        i == j ==> pages::occurrences(pages::kids(pages[i].links), x) <= pages::occurrences(
            pages::all_kids(pages),
            x,
        ),
        i < j ==> pages::occurrences(pages::kids(pages[i].links), x) + pages::occurrences(
            pages::kids(pages[j].links),
            x,
        ) <= pages::occurrences(pages::all_kids(pages), x),
    decreases pages.len(),
{
    let rest = pages.drop_last();
    lemma_occurrences_concat(pages::all_kids(rest), pages::kids(pages.last().links), x);
    if j < pages.len() - 1 {
        lemma_part_occurrences(rest, i, j, x);
        assert(rest[i] == pages[i]);
        assert(rest[j] == pages[j]);
    } else if i < j {
        lemma_part_occurrences(rest, i, i, x);
        assert(rest[i] == pages[i]);
    }
}

proof fn lemma_occurrences_concat(a: Seq<u64>, b: Seq<u64>, x: u64)
    ensures
        pages::occurrences(a + b, x) == pages::occurrences(a, x) + pages::occurrences(b, x),
    decreases b.len(),
{
    if b.len() == 0 {
        assert(a + b =~= a);
    } else {
        assert((a + b).drop_last() =~= a + b.drop_last());
        lemma_occurrences_concat(a, b.drop_last(), x);
    }
}

/// A page is not above one that comes before it.
proof fn lemma_above_comes_before<E>(
    base: u64,
    pages: Seq<PageView<E>>,
    i: int,
    x: u64,
    fuel: nat,
)
    requires
        laid_out(base, pages),
        above(base, pages, i, x, fuel),
    ensures
        0 <= i < pages.len(),
        base + 4096 * i < x,
    decreases fuel,
{
    let p = choose|p: int| #[trigger]
        parent(pages, p, x) && (p == i || above(base, pages, i, offset(base, p), (fuel - 1) as nat));
    let ks = pages::kids(pages[p].links);
    let m = choose|m: int| 0 <= m < ks.len() && ks[m] == x;
    assert(base + BLOCK_SIZE * p < ks[m]);
    if p != i {
        lemma_above_comes_before(base, pages, i, offset(base, p), (fuel - 1) as nat);
    }
}

/// What is above a page is above its children.
proof fn lemma_above_children<E>(
    base: u64,
    pages: Seq<PageView<E>>,
    i: int,
    k: int,
    x: u64,
    fuel: nat,
)
    requires
        laid_out(base, pages),
        above(base, pages, k, x, fuel),
        parent(pages, i, offset(base, k)),
    ensures
        above(base, pages, i, x, fuel + 1),
    decreases fuel,
{
    let p = choose|p: int| #[trigger]
        parent(pages, p, x) && (p == k || above(base, pages, k, offset(base, p), (fuel - 1) as nat));
    if p == k {
        assert(above(base, pages, i, offset(base, p), fuel)) by {
            assert(parent(pages, i, offset(base, k)));
        }
    } else {
        lemma_above_children(base, pages, i, k, offset(base, p), (fuel - 1) as nat);
    }
}

/// Whether the page number `k` is above the page at `x`, or is that page.
spec fn above_or_at<E>(base: u64, pages: Seq<PageView<E>>, k: int, x: u64, fuel: nat) -> bool {
    x == offset(base, k) || above(base, pages, k, x, fuel)
}

/// Two children of a page have no page in common under them.
proof fn lemma_apart<E>(
    base: u64,
    pages: Seq<PageView<E>>,
    i: int,
    k1: int,
    k2: int,
    x: u64,
    f1: nat,
    f2: nat,
)
    requires
        laid_out(base, pages),
        0 <= k1 < pages.len(),
        0 <= k2 < pages.len(),
        k1 != k2,
        parent(pages, i, offset(base, k1)),
        parent(pages, i, offset(base, k2)),
    ensures
        !(above_or_at(base, pages, k1, x, f1) && above_or_at(base, pages, k2, x, f2)),
    decreases f1 + f2,
{
    if !(above_or_at(base, pages, k1, x, f1) && above_or_at(base, pages, k2, x, f2)) {
    } else if x == offset(base, k1) {
        lemma_not_beside(base, pages, i, k1, k2, f2);
    } else if x == offset(base, k2) {
        lemma_not_beside(base, pages, i, k2, k1, f1);
    } else {
        let p = choose|p: int| #[trigger]
            parent(pages, p, x) && (p == k1 || above(
                base,
                pages,
                k1,
                offset(base, p),
                (f1 - 1) as nat,
            ));
        let q = choose|q: int| #[trigger]
            parent(pages, q, x) && (q == k2 || above(
                base,
                pages,
                k2,
                offset(base, q),
                (f2 - 1) as nat,
            ));
        lemma_one_parent(base, pages, x);
        assert(p == q);
        lemma_apart(
            base,
            pages,
            i,
            k1,
            k2,
            offset(base, p),
            (f1 - 1) as nat,
            (f2 - 1) as nat,
        );
    }
}

/// A page is not under another child of its parent.
proof fn lemma_not_beside<E>(
    base: u64,
    pages: Seq<PageView<E>>,
    i: int,
    k: int,
    other: int,
    fuel: nat,
)
    requires
        laid_out(base, pages),
        0 <= k < pages.len(),
        0 <= other < pages.len(),
        k != other,
        parent(pages, i, offset(base, k)),
        parent(pages, i, offset(base, other)),
    ensures
        !above_or_at(base, pages, other, offset(base, k), fuel),
{
    assert(offset(base, k) != offset(base, other));
    let x = offset(base, k);
    if above(base, pages, other, x, fuel) {
        lemma_not_under_sibling(base, pages, i, k, other, fuel);
    }
}

proof fn lemma_not_under_sibling<E>(
    base: u64,
    pages: Seq<PageView<E>>,
    i: int,
    k: int,
    other: int,
    fuel: nat,
)
    requires
        laid_out(base, pages),
        0 <= k < pages.len(),
        0 <= other < pages.len(),
        parent(pages, i, offset(base, k)),
        parent(pages, i, offset(base, other)),
    ensures
        !above(base, pages, other, offset(base, k), fuel),
{
    let x = offset(base, k);
    if above(base, pages, other, x, fuel) {
        let p = choose|p: int| #[trigger]
            parent(pages, p, x) && (p == other || above(
                base,
                pages,
                other,
                offset(base, p),
                (fuel - 1) as nat,
            ));
        lemma_one_parent(base, pages, x);
        assert(p == i);
        let ks = pages::kids(pages[i].links);
        let m = choose|m: int| 0 <= m < ks.len() && ks[m] == offset(base, other);
        assert(base + BLOCK_SIZE * i < ks[m]);
        if p != other {
            lemma_above_comes_before(base, pages, other, offset(base, p), (fuel - 1) as nat);
        }
    }
}

/// A page used in a tree is under its root.
proof fn lemma_used_is_under<E>(base: u64, pages: Seq<PageView<E>>, k: int, d: nat, x: u64)
    requires
        laid_out(base, pages),
        0 <= k < pages.len(),
        pages::spans(copier::image(base, pages), offset(base, k), d),
        pages::uses(copier::image(base, pages), offset(base, k), d, x, true) > 0,
    ensures
        above(base, pages, k, x, d),
    decreases d, 0nat,
{
    let s = copier::image(base, pages);
    let off = offset(base, k);
    assert(s[off] == pages[k]);
    let ks = pages::kids(pages[k].links);
    if pages::occurrences(ks, x) > 0 {
        lemma_occurs_in(ks, x);
        assert(parent(pages, k, x));
    } else {
        assert(ks.take(ks.len() as int) =~= ks);
        lemma_child_used(base, pages, k, ks.len(), d, x);
    }
}

proof fn lemma_occurs_in(s: Seq<u64>, x: u64)
    requires
        pages::occurrences(s, x) > 0,
    ensures
        s.contains(x),
    decreases s.len(),
{
    if s.last() == x {
        assert(s[s.len() - 1] == x);
    } else {
        lemma_occurs_in(s.drop_last(), x);
        let i = choose|i: int| 0 <= i < s.drop_last().len() && s.drop_last()[i] == x;
        assert(s[i] == x);
    }
}

/// The number of the page at a child of the page number `k`.
proof fn lemma_child<E>(base: u64, pages: Seq<PageView<E>>, k: int, d: nat, j: int) -> (c: int)
    requires
        laid_out(base, pages),
        0 <= k < pages.len(),
        pages::spans(copier::image(base, pages), offset(base, k), d),
        0 <= j < pages::kids(pages[k].links).len(),
    ensures
        k < c < pages.len(),
        offset(base, c) == pages::kids(pages[k].links)[j],
        parent(pages, k, offset(base, c)),
        d > 0,
        pages::spans(copier::image(base, pages), offset(base, c), (d - 1) as nat),
{
    let s = copier::image(base, pages);
    let off = offset(base, k);
    assert(s[off] == pages[k]);
    let ks = pages::kids(pages[k].links);
    let i = pages::lemma_kids_are_links(pages[k].links, j);
    assert(s[off].links[i] == ks[j]);
    assert(pages::spans(s, ks[j], (d - 1) as nat));
    assert(base + BLOCK_SIZE * k < ks[j]);
    (ks[j] - base) / 4096
}

proof fn lemma_child_used<E>(
    base: u64,
    pages: Seq<PageView<E>>,
    k: int,
    n: nat,
    d: nat,
    x: u64,
)
    requires
        laid_out(base, pages),
        0 <= k < pages.len(),
        d > 0,
        pages::spans(copier::image(base, pages), offset(base, k), d),
        n <= pages::kids(pages[k].links).len(),
        pages::uses_under(
            copier::image(base, pages),
            pages::kids(pages[k].links).take(n as int),
            (d - 1) as nat,
            x,
            true,
        ) > 0,
    ensures
        above(base, pages, k, x, d),
        exists|j: int|
            0 <= j < n && pages::uses(
                copier::image(base, pages),
                #[trigger] pages::kids(pages[k].links)[j],
                (d - 1) as nat,
                x,
                true,
            ) > 0,
    decreases (d - 1) as nat, n + 1,
{
    let s = copier::image(base, pages);
    let ks = pages::kids(pages[k].links);
    if n > 0 {
        assert(ks.take(n as int).drop_last() =~= ks.take(n - 1));
        if pages::uses(s, ks[n - 1], (d - 1) as nat, x, true) > 0 {
            let c = lemma_child(base, pages, k, d, n - 1);
            lemma_used_is_under(base, pages, c, (d - 1) as nat, x);
            lemma_above_children(base, pages, k, c, x, (d - 1) as nat);
        } else {
            lemma_child_used(base, pages, k, (n - 1) as nat, d, x);
            let j = choose|j: int|
                0 <= j < n - 1 && pages::uses(s, #[trigger] ks[j], (d - 1) as nat, x, true) > 0;
            assert(pages::uses(s, ks[j], (d - 1) as nat, x, true) > 0);
        }
    }
}

/// No page is used twice under a page.
proof fn lemma_used_once<E>(base: u64, pages: Seq<PageView<E>>, k: int, d: nat, x: u64)
    requires
        laid_out(base, pages),
        0 <= k < pages.len(),
        pages::spans(copier::image(base, pages), offset(base, k), d),
    ensures
        pages::uses(copier::image(base, pages), offset(base, k), d, x, true) <= 1,
    decreases d, 0nat,
{
    let s = copier::image(base, pages);
    assert(s[offset(base, k)] == pages[k]);
    let ks = pages::kids(pages[k].links);
    lemma_one_parent(base, pages, x);
    lemma_used_once_under(base, pages, k, ks.len(), d, x);
    assert(ks.take(ks.len() as int) =~= ks);
    if pages::occurrences(ks, x) > 0 && pages::uses_under(s, ks, (d - 1) as nat, x, true) > 0 {
        lemma_occurs_in(ks, x);
        assert(parent(pages, k, x));
        lemma_child_used(base, pages, k, ks.len(), d, x);
        let j = choose|j: int|
            0 <= j < ks.len() && pages::uses(s, #[trigger] ks[j], (d - 1) as nat, x, true) > 0;
        let c = lemma_child(base, pages, k, d, j);
        lemma_used_is_under(base, pages, c, (d - 1) as nat, x);
        let fuel = (d - 1) as nat;
        let p = choose|p: int| #[trigger]
            parent(pages, p, x) && (p == c || above(
                base,
                pages,
                c,
                offset(base, p),
                (fuel - 1) as nat,
            ));
        assert(p == k);
        lemma_above_comes_before(base, pages, c, offset(base, k), (fuel - 1) as nat);
    }
}

proof fn lemma_used_once_under<E>(
    base: u64,
    pages: Seq<PageView<E>>,
    k: int,
    n: nat,
    d: nat,
    x: u64,
)
    requires
        laid_out(base, pages),
        0 <= k < pages.len(),
        d > 0,
        pages::spans(copier::image(base, pages), offset(base, k), d),
        n <= pages::kids(pages[k].links).len(),
    ensures
        pages::uses_under(
            copier::image(base, pages),
            pages::kids(pages[k].links).take(n as int),
            (d - 1) as nat,
            x,
            true,
        ) <= 1,
    decreases (d - 1) as nat, n + 1,
{
    let s = copier::image(base, pages);
    let ks = pages::kids(pages[k].links);
    let e = (d - 1) as nat;
    if n > 0 {
        lemma_used_once_under(base, pages, k, (n - 1) as nat, d, x);
        assert(ks.take(n as int).drop_last() =~= ks.take(n - 1));
        let c = lemma_child(base, pages, k, d, n - 1);
        lemma_used_once(base, pages, c, e, x);
        if pages::uses_under(s, ks.take(n - 1), e, x, true) > 0 && pages::uses(
            s,
            ks[n - 1],
            e,
            x,
            true,
        ) > 0 {
            lemma_child_used(base, pages, k, (n - 1) as nat, d, x);
            let j = choose|j: int|
                0 <= j < n - 1 && pages::uses(s, #[trigger] ks[j], e, x, true) > 0;
            let b = lemma_child(base, pages, k, d, j);
            lemma_used_is_under(base, pages, b, e, x);
            lemma_used_is_under(base, pages, c, e, x);
            if b == c {
                pages::lemma_occurs_twice(ks, j, n - 1);
                lemma_one_parent(base, pages, ks[j]);
            } else {
                lemma_apart(base, pages, k, b, c, x, e, e);
            }
        }
    }
}

/// A tree that was copied breadth first meets no page twice, so that it can be
/// copied back.
pub proof fn law_copies_are_unshared<E>(base: u64, pages: Seq<PageView<E>>)
    requires
        pages.len() > 0,
        base + BLOCK_SIZE * pages.len() <= u64::MAX,
        copier::breadth_first(base, pages),
        pages::is_tree(copier::image(base, pages), base),
    ensures
        pages::unshared(copier::image(base, pages), base, true),
{
    let s = copier::image(base, pages);
    let d = pages::height(s, base);
    assert(pages::spans(s, base, d));
    assert(offset(base, 0) == base);
    assert forall|x: u64| #[trigger] pages::uses(s, base, d, x, true) <= 1 by {
        lemma_used_once(base, pages, 0, d, x);
    }
}

} // verus!
