use pijul::channel::{
    compress_channel, in_restoring_order, open_channel, restore_channel, restore_intact_channel,
    restore_tables, written_offsets, Channel, ChannelRoots, RemoteId, Table, Tables,
};
use pijul::copier::{copy, Copier};
use pijul::entry::{hash_for, Edge, Entry, Position, SerializedHash, SerializedMerkle, Vertex};
use pijul::pages::{Item, Page, BLOCK_SIZE};
use pijul::restorer::{children_of, restore, Restorer};
use pijul::tag::{from_channel, DbOffsets, Merkle, OpenTagFile, TagError};
use pijul::zstd::compress_pages;
use std::collections::HashMap;

fn page<E: Copy>(left: u64, items: &[(E, u64)]) -> Page<E> {
    Page {
        left,
        items: items.iter().map(|(entry, right)| Item { entry: *entry, right: *right }).collect(),
    }
}

fn shape<E: Copy>(p: &Page<E>) -> (u64, Vec<(E, u64)>) {
    (p.left, p.items.iter().map(|i| (i.entry, i.right)).collect())
}

/// A tree with a root at 100, two children, and a grandchild.
fn small_store() -> HashMap<u64, Page<u64>> {
    let mut store = HashMap::new();
    store.insert(100, page(700, &[(5, 0), (8, 900)]));
    store.insert(700, page(0, &[(1, 300), (2, 0)]));
    store.insert(900, page(0, &[(9, 0)]));
    store.insert(300, page(0, &[]));
    store
}

fn contents<E: Copy>(store: &HashMap<u64, Page<E>>, off: u64, out: &mut Vec<E>) {
    let p = &store[&off];
    if p.left != 0 {
        contents(store, p.left, out);
    }
    for i in &p.items {
        out.push(i.entry);
        if i.right != 0 {
            contents(store, i.right, out);
        }
    }
}

#[test]
fn copy_is_breadth_first() {
    let mut next = 8192;
    let (root, pages) = copy(&small_store(), 100, &mut next);
    assert_eq!(root, 8192);
    assert_eq!(next, 8192 + 4 * BLOCK_SIZE as u64);
    assert_eq!(pages.len(), 4);
    assert_eq!(shape(&pages[0]), (12288, vec![(5, 0), (8, 16384)]));
    assert_eq!(shape(&pages[1]), (0, vec![(1, 20480), (2, 0)]));
    assert_eq!(shape(&pages[2]), (0, vec![(9, 0)]));
    assert_eq!(shape(&pages[3]), (0, vec![]));
}

#[test]
fn copies_hold_the_same_entries() {
    let store = small_store();
    let mut next = 0;
    let (root, pages) = copy(&store, 100, &mut next);
    let mut copied = HashMap::new();
    for (i, p) in pages.into_iter().enumerate() {
        copied.insert(4096 * i as u64, p);
    }
    let (mut a, mut b) = (Vec::new(), Vec::new());
    contents(&store, 100, &mut a);
    contents(&copied, root, &mut b);
    assert_eq!(a, vec![1, 2, 5, 8, 9]);
    assert_eq!(a, b);
}

#[test]
fn copier_steps() {
    let mut c = Copier::new(7, 0);
    assert_eq!(c.pop(), Some((7, 0)));
    let p = page(30, &[(1u64, 40), (2, 0), (3, 50)]);
    assert!(c.admits(&p));
    let q = c.visit(&p);
    assert_eq!(shape(&q), (4096, vec![(1, 8192), (2, 0), (3, 12288)]));
    assert_eq!(c.next_page, 16384);
    assert_eq!(c.pop(), Some((30, 4096)));
    assert_eq!(c.pop(), Some((40, 8192)));
    // A page that was met on the right is not admitted there again.
    assert!(!c.admits(&page(0, &[(4u64, 50)])));
    // On the left it is.
    assert!(c.admits(&page(50, &[(4u64, 0)])));
    assert!(!c.admits(&page(0, &[(4u64, 60), (5, 60)])));
    assert_eq!(c.pop(), Some((50, 12288)));
    assert_eq!(c.pop(), None);
}

#[test]
fn copier_runs_out_of_offsets() {
    let c = Copier::new(7, u64::MAX - 5000);
    assert!(c.admits(&page::<u64>(0, &[(1, 0)])));
    assert!(!c.admits(&page::<u64>(0, &[(1, 2)])));
    assert!(!c.admits(&page::<u64>(1, &[])));
}

fn graph_entry(change: u64, dest: u64, by: u64) -> Entry {
    Entry::Graph(
        Vertex { change, start: 3, end: 4 },
        Edge { flag: 9, dest: Position { change: dest, pos: 6 }, introduced_by: by },
    )
}

fn ids(e: &Entry) -> Vec<u64> {
    match e {
        Entry::Internal(_, id) => vec![*id],
        Entry::External(id, _) => vec![*id],
        Entry::Graph(v, e) => vec![v.change, e.dest.change, e.introduced_by],
        Entry::Change(id, t) => vec![*id, *t],
        Entry::RevChange(t, id, _) => vec![*t, *id],
        Entry::State(_, t) => vec![*t],
        Entry::Tag(t, _, _) => vec![*t],
    }
}

#[test]
fn entries_are_relabelled() {
    let mut local = HashMap::new();
    local.insert(1, 11);
    local.insert(2, 12);
    assert_eq!(graph_entry(1, 0, 2).lookups(), vec![1, 2]);
    assert_eq!(ids(&graph_entry(1, 0, 2).relabel(&local)), vec![11, 0, 12]);
    assert_eq!(Entry::Change(1, 7).lookups(), vec![1]);
    assert_eq!(ids(&Entry::Change(1, 7).relabel(&local)), vec![11, 7]);
    let m = SerializedMerkle([5; 33]);
    assert_eq!(ids(&Entry::RevChange(7, 2, m).relabel(&local)), vec![7, 12]);
    assert!(Entry::State(m, 1).lookups().is_empty());
    assert!(Entry::Tag(1, m, m).lookups().is_empty());
    assert!(Entry::State(m, 1).agrees(&local));
    assert!(!graph_entry(1, 0, 2).agrees(&local));
    // The root change is looked up outside the graph.
    assert_eq!(Entry::Change(0, 7).lookups(), vec![0]);
    assert!(!Entry::Change(0, 7).agrees(&local));
    assert!(graph_entry(0, 0, 0).agrees(&local));
}

#[test]
fn unchanged_entries_have_fixed_identifiers() {
    let mut local = HashMap::new();
    local.insert(1, 1);
    local.insert(2, 3);
    assert!(graph_entry(1, 1, 1).agrees(&local));
    assert_eq!(ids(&graph_entry(1, 1, 1).relabel(&local)), vec![1, 1, 1]);
    assert!(!graph_entry(1, 2, 1).agrees(&local));
    assert_eq!(ids(&graph_entry(1, 2, 1).relabel(&local)), vec![1, 3, 1]);
}

#[test]
fn restorer_is_depth_first() {
    let mut local = HashMap::new();
    for i in 0..10 {
        local.insert(i, i);
    }
    let mut store = HashMap::new();
    store.insert(10, page(20, &[(Entry::Change(1, 1), 30)]));
    store.insert(20, page(0, &[(Entry::Change(2, 2), 0)]));
    store.insert(30, page(0, &[(Entry::Change(3, 3), 40)]));
    store.insert(40, page(0, &[]));
    let fresh = vec![1000, 2000, 3000, 4000, 5000];
    let (root, pages) = restore(&store, 10, &fresh, &local);
    assert_eq!(root, 1000);
    let offs: Vec<u64> = pages.iter().map(|p| p.0).collect();
    assert_eq!(offs, vec![1000, 3000, 4000, 2000]);
    assert_eq!(pages[0].1.left, 2000);
    assert_eq!(pages[0].1.items[0].right, 3000);
    assert_eq!(pages[1].1.items[0].right, 4000);
    assert_eq!(ids(&pages[3].1.items[0].entry), vec![2, 2]);
}

#[test]
fn restorer_steps() {
    let mut local = HashMap::new();
    local.insert(1, 1);
    local.insert(2, 5);
    let mut r = Restorer::new(10, 1000);
    assert_eq!(r.pop(), Some((10, 1000)));
    let p = page(20, &[(Entry::Change(1, 1), 30)]);
    assert!(r.admits(&p, &local));
    assert_eq!(children_of(&p), vec![20, 30]);
    let q = r.visit(&p, &vec![2000, 3000], &local);
    assert_eq!((q.left, q.items[0].right), (2000, 3000));
    // Neither child may come again, not even on the left.
    assert!(!r.admits(&page(20, &[]), &local));
    assert!(!r.admits(&page(0, &[(Entry::Change(1, 1), 30)]), &local));
    // An entry that would change is not admitted.
    assert!(!r.admits(&page(0, &[(Entry::Change(2, 1), 0)]), &local));
    assert_eq!(r.pop(), Some((30, 3000)));
    assert_eq!(r.pop(), Some((20, 2000)));
    assert_eq!(r.pop(), None);
}

fn channel_store() -> (HashMap<u64, Page<Entry>>, Tables) {
    let h = SerializedHash([7; 33]);
    let m = SerializedMerkle([8; 33]);
    let mut s = HashMap::new();
    s.insert(1, page(0, &[(Entry::Internal(h, 1), 0)]));
    s.insert(2, page(0, &[(Entry::External(1, h), 0)]));
    s.insert(3, page(31, &[(graph_entry(1, 0, 1), 32)]));
    s.insert(31, page(0, &[(graph_entry(0, 0, 0), 0)]));
    s.insert(32, page(0, &[(graph_entry(1, 1, 1), 0)]));
    s.insert(4, page(0, &[(Entry::Change(1, 0), 0)]));
    s.insert(5, page(0, &[(Entry::RevChange(0, 1, m), 0)]));
    s.insert(6, page(0, &[(Entry::State(m, 0), 0)]));
    s.insert(7, page(0, &[(Entry::Tag(0, m, m), 0)]));
    let t = Tables {
        internal: 1,
        external: 2,
        graph: 3,
        changes: 4,
        revchanges: 5,
        states: 6,
        tags: 7,
    };
    (s, t)
}

#[test]
fn channels_are_written_out_table_by_table() {
    let (store, tables) = channel_store();
    let (o, pages) = compress_channel(&store, &tables, 17);
    assert_eq!(pages.len(), 9);
    assert_eq!(o.size, 9 * 4096);
    assert_eq!(o.apply_counter, 17);
    assert_eq!(
        (o.internal, o.external, o.graph, o.changes, o.revchanges, o.states, o.tags),
        (0, 4096, 8192, 20480, 24576, 28672, 32768)
    );
    assert_eq!((pages[2].left, pages[2].items[0].right), (12288, 16384));
}

#[test]
fn channels_come_back() {
    let (store, tables) = channel_store();
    let (o, pages) = compress_channel(&store, &tables, 17);
    let mut file = HashMap::new();
    for (i, p) in pages.into_iter().enumerate() {
        file.insert(4096 * i as u64, p);
    }
    let mut local = HashMap::new();
    local.insert(1, 1);
    let fresh = vec![90, 80, 70, 60, 50, 40, 30, 20];
    let (roots, placed) = restore_tables(&o, &file, &local, &fresh);
    let c = Channel::with_id(roots, o.apply_counter, "main", RemoteId([3; 16]));
    assert_eq!((c.graph, c.changes, c.revchanges, c.states, c.tags), (90, 60, 50, 40, 30));
    assert_eq!(c.apply_counter, 17);
    assert_eq!(c.last_modified, 0);
    assert_eq!(c.name, "main");
    assert_eq!(c.id.0, [3; 16]);
    assert_eq!(placed.len(), 7);
    let new: HashMap<u64, Page<Entry>> = placed.into_iter().collect();
    let (mut a, mut b) = (Vec::new(), Vec::new());
    contents(&store, tables.graph, &mut a);
    contents(&new, c.graph, &mut b);
    assert_eq!(a.len(), 3);
    for (x, y) in a.iter().zip(b.iter()) {
        assert_eq!(ids(x), ids(y));
    }
}

/// A tag file for the small channel, whose pages stand for themselves, and the
/// pages.
fn small_tag() -> (OpenTagFile, HashMap<u64, Page<Entry>>) {
    let (store, tables) = channel_store();
    let (o, pages) = compress_channel(&store, &tables, 17);
    let bytes: Vec<Vec<u8>> = (0..pages.len()).map(|i| vec![i as u8; BLOCK_SIZE]).collect();
    let (out, size, _) = compress_pages(&bytes).ok().unwrap();
    assert_eq!(size, o.size);
    let state = Merkle::Ed25519([1; 32]);
    let (file, _) = from_channel(o, state, &vec![0; 300], &out).ok().unwrap();
    let tag = OpenTagFile::open(file, &state).ok().unwrap();
    let unpacked = tag.unpack().ok().unwrap().pages;
    // Each page is found again by what stands at its offset.
    let mut pages: Vec<Option<Page<Entry>>> = pages.into_iter().map(Some).collect();
    let mut found = HashMap::new();
    for i in 0..pages.len() {
        let off = i * BLOCK_SIZE;
        found.insert(off as u64, pages[unpacked[off] as usize].take().unwrap());
    }
    (tag, found)
}

fn named(name: &str, n: u64) -> Channel {
    let roots = ChannelRoots::restored(&[n; 5]);
    Channel::with_id(roots, n, name, RemoteId([n as u8; 16]))
}

fn names(open: &[Channel]) -> Vec<(String, u64)> {
    open.iter().map(|c| (c.name.clone(), c.graph)).collect()
}

#[test]
fn channels_are_opened_by_name() {
    let mut open = vec![];
    open_channel(&mut open, &named("a", 1));
    open_channel(&mut open, &named("b", 2));
    open_channel(&mut open, &named("c", 3));
    open_channel(&mut open, &named("b", 4));
    let expected = vec![("a".to_string(), 1), ("b".to_string(), 4), ("c".to_string(), 3)];
    assert_eq!(names(&open), expected);
    assert_eq!(open[1].id.0, [4; 16]);
}

#[test]
fn restored_channels_are_open() {
    let (tag, file) = small_tag();
    let mut local = HashMap::new();
    local.insert(1, 1);
    let fresh = vec![90, 80, 70, 60, 50, 40, 30];
    let mut open = vec![named("main", 5)];
    let (a, placed) = restore_channel(&tag, &file, &local, &fresh, "copy", &mut open).ok().unwrap();
    assert_eq!(placed.len(), 7);
    assert_eq!((a.graph, a.changes, a.revchanges, a.states, a.tags), (90, 60, 50, 40, 30));
    assert_eq!((a.name.as_str(), a.apply_counter, a.last_modified), ("copy", 17, 0));
    assert_eq!(names(&open), vec![("main".to_string(), 5), ("copy".to_string(), 90)]);
    assert_eq!(open[1].id.0, a.id.0);
    // Under the same name it takes the place of the first one, with another
    // identifier.
    let (b, _) = restore_channel(&tag, &file, &local, &fresh, "copy", &mut open).ok().unwrap();
    assert_ne!(a.id.0, b.id.0);
    assert_eq!(open.len(), 2);
    assert_eq!(open[1].id.0, b.id.0);
    assert_eq!(open[0].id.0, [5; 16]);
}

#[test]
fn channels_of_cut_or_damaged_files_are_not_restored() {
    let (tag, file) = small_tag();
    let mut local = HashMap::new();
    local.insert(1, 1);
    let fresh = vec![90, 80, 70, 60, 50, 40, 30];
    let mut open = vec![named("main", 5)];
    let with = |file: Vec<u8>| OpenTagFile { header: tag.header, file };
    let cut = with(tag.file[..tag.file.len() - 1].to_vec());
    let r = restore_channel(&cut, &file, &local, &fresh, "copy", &mut open);
    assert!(matches!(r, Err(TagError::Io)));
    let mut bytes = tag.file.clone();
    let n = bytes.len();
    bytes[n - 1] ^= 1;
    let r = restore_channel(&with(bytes), &file, &local, &fresh, "copy", &mut open);
    assert!(matches!(r, Err(TagError::Zstd(_))));
    let mut bytes = tag.file.clone();
    bytes[tag.header.channel as usize] ^= 1;
    let r = restore_intact_channel(&with(bytes), &file, &local, &fresh, "copy", &mut open);
    assert!(matches!(r, Ok(None)));
    let r = restore_intact_channel(&cut, &file, &local, &fresh, "copy", &mut open);
    assert!(matches!(r, Err(TagError::Io)));
    // The tables are not looked at, nor the pages that they would take.
    let none = HashMap::new();
    let r = restore_channel(&cut, &none, &local, &vec![], "copy", &mut open);
    assert!(matches!(r, Err(TagError::Io)));
    let mut bytes = tag.file.clone();
    bytes[n - 1] ^= 1;
    let r = restore_channel(&with(bytes), &none, &local, &vec![], "copy", &mut open);
    assert!(matches!(r, Err(TagError::Zstd(_))));
    assert_eq!(names(&open), vec![("main".to_string(), 5)]);
    let r = restore_intact_channel(&tag, &file, &local, &fresh, "copy", &mut open);
    assert!(matches!(r, Ok(Some((c, _))) if c.graph == 90));
    assert_eq!(open.len(), 2);
}

#[test]
fn tables_have_an_order() {
    let (_, tables) = channel_store();
    let order = tables.in_writing_order();
    assert_eq!(order.map(|t| t.1), [1, 2, 3, 4, 5, 6, 7]);
    assert_eq!((order[0].0, order[4].0), (Table::Internal, Table::RevChanges));
    let o = written_offsets(&[10, 20, 30, 40, 50, 60, 70], 8, 9);
    assert_eq!((o.internal, o.external, o.apply_counter, o.size), (10, 20, 8, 9));
    let order = in_restoring_order(&o);
    assert_eq!(order.map(|t| t.1), [30, 40, 50, 60, 70]);
    assert_eq!((order[0].0, order[4].0), (Table::Graph, Table::Tags));
    let roots = ChannelRoots::restored(&[1, 2, 3, 4, 5]);
    assert_eq!((roots.graph, roots.revchanges, roots.tags), (1, 3, 5));
}

#[test]
fn default_offsets_are_zero() {
    let o = DbOffsets::default();
    assert_eq!(
        [o.internal, o.external, o.graph, o.changes, o.revchanges, o.states, o.tags],
        [0; 7]
    );
    assert_eq!((o.apply_counter, o.size), (0, 0));
}

#[test]
fn hashes_are_looked_up_exactly() {
    let h = SerializedHash([4; 33]);
    assert_eq!(hash_for(Some((3, h)), 3).unwrap().0, [4; 33]);
    assert!(hash_for(Some((4, h)), 3).is_none());
    assert!(hash_for(None, 3).is_none());
}
