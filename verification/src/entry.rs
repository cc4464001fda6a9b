//! The entries of the tables that make up a channel, and how the change
//! identifiers in them are read in another repository.

use std::collections::HashMap;
use vstd::prelude::*;

verus! {

broadcast use vstd::std_specs::hash::group_hash_axioms;

/// The identifier of the change that every repository starts from.
pub const ROOT_CHANGE: u64 = 0;

/// The hash of a change, as it stands in a table.
#[derive(Clone, Copy)]
pub struct SerializedHash(pub [u8; 33]);

/// The state of a channel, as it stands in a table.
#[derive(Clone, Copy)]
pub struct SerializedMerkle(pub [u8; 33]);

/// A block of text of a change.
#[derive(Clone, Copy, PartialEq, Eq, Structural)]
pub struct Vertex {
    pub change: u64,
    pub start: u64,
    pub end: u64,
}

/// A byte of a change.
#[derive(Clone, Copy, PartialEq, Eq, Structural)]
pub struct Position {
    pub change: u64,
    pub pos: u64,
}

/// An edge of the graph, and the change that put it there.
#[derive(Clone, Copy, PartialEq, Eq, Structural)]
pub struct Edge {
    pub flag: u8,
    pub dest: Position,
    pub introduced_by: u64,
}

/// An entry of one of the tables. Change identifiers are those of the
/// repository that the table belongs to.
#[derive(Clone, Copy)]
pub enum Entry {
    /// The identifier of a change, by its hash.
    Internal(SerializedHash, u64),
    /// The hash of a change, by its identifier.
    External(u64, SerializedHash),
    /// An edge, by the vertex that it leaves from.
    Graph(Vertex, Edge),
    /// When a change was applied, by its identifier.
    Change(u64, u64),
    /// The change applied at a given time, and the state after it.
    RevChange(u64, u64, SerializedMerkle),
    /// When a state was reached.
    State(SerializedMerkle, u64),
    /// The tag made at a given time: the state, and the tag's own.
    Tag(u64, SerializedMerkle, SerializedMerkle),
}

/// The identifier of a change in another repository, where those of
/// the first one are read by `local`.
pub open spec fn localised(id: u64, local: Map<u64, u64>) -> u64 {
    local[id]
}

/// The same, where the root change stands for itself.
pub open spec fn localised_unless_root(id: u64, local: Map<u64, u64>) -> u64 {
    if id == ROOT_CHANGE {
        id
    } else {
        local[id]
    }
}

/// The identifiers in `ids` that are not the root's.
pub open spec fn without_root(ids: Seq<u64>) -> Seq<u64> {
    ids.filter(|id: u64| id != ROOT_CHANGE)
}

impl Entry {
    /// The identifiers that must be read in the other repository, in the
    /// order in which the entry holds them.
    pub open spec fn changes(self) -> Seq<u64> {
        match self {
            Entry::Graph(vertex, edge) => without_root(
                seq![vertex.change, edge.dest.change, edge.introduced_by],
            ),
            Entry::Change(id, _) => seq![id],
            Entry::RevChange(_, id, _) => seq![id],
            _ => Seq::empty(),
        }
    }

    /// The entry with its identifiers read by `local`.
    pub open spec fn relabelled(self, local: Map<u64, u64>) -> Entry {
        match self {
            Entry::Graph(vertex, edge) => Entry::Graph(
                Vertex { change: localised_unless_root(vertex.change, local), ..vertex },
                Edge {
                    dest: Position {
                        change: localised_unless_root(edge.dest.change, local),
                        ..edge.dest
                    },
                    introduced_by: localised_unless_root(edge.introduced_by, local),
                    ..edge
                },
            ),
            Entry::Change(id, time) => Entry::Change(localised(id, local), time),
            Entry::RevChange(time, id, state) => Entry::RevChange(
                time,
                localised(id, local),
                state,
            ),
            _ => self,
        }
    }

    /// Whether `local` reads every identifier of the entry as itself.
    pub open spec fn fixed_by(self, local: Map<u64, u64>) -> bool {
        forall|i: int|
            0 <= i < self.changes().len() ==> local.contains_key(#[trigger] self.changes()[i])
                && local[self.changes()[i]] == self.changes()[i]
    }

    /// The identifiers that must be read in the other repository.
    pub fn lookups(&self) -> (r: Vec<u64>)
        ensures
            r@ == self.changes(),
    {
        let mut ids: Vec<u64> = Vec::new();
        match self {
            Entry::Graph(vertex, edge) => {
                let ghost all = seq![vertex.change, edge.dest.change, edge.introduced_by];
                let ghost keep = |id: u64| id != ROOT_CHANGE;
                proof {
                    reveal_with_fuel(Seq::filter, 4);
                    assert(all.drop_last() =~= seq![vertex.change, edge.dest.change]);
                    assert(all.drop_last().drop_last() =~= seq![vertex.change]);
                    assert(all.drop_last().drop_last().drop_last() =~= Seq::empty());
                }
                if vertex.change != ROOT_CHANGE {
                    ids.push(vertex.change);
                }
                if edge.dest.change != ROOT_CHANGE {
                    ids.push(edge.dest.change);
                }
                if edge.introduced_by != ROOT_CHANGE {
                    ids.push(edge.introduced_by);
                }
            },
            Entry::Change(id, _) => {
                ids.push(*id);
            },
            Entry::RevChange(_, id, _) => {
                ids.push(*id);
            },
            _ => {},
        }
        ids
    }

    /// Whether `local` reads every identifier of the entry as itself.
    pub fn agrees(&self, local: &HashMap<u64, u64>) -> (r: bool)
        ensures
            r == self.fixed_by(local@),
    {
        let ids = self.lookups();
        let mut i: usize = 0;
        while i < ids.len()
            invariant
                i <= ids.len(),
                ids@ == self.changes(),
                forall|j: int|
                    0 <= j < i ==> local@.contains_key(#[trigger] self.changes()[j])
                        && local@[self.changes()[j]] == self.changes()[j],
            decreases ids.len() - i,
        {
            assert(ids@[i as int] == self.changes()[i as int]);
            match local.get(&ids[i]) {
                Some(id) => {
                    if *id != ids[i] {
                        return false;
                    }
                },
                None => {
                    return false;
                },
            }
            i = i + 1;
        }
        true
    }

    /// The entry with its identifiers read by `local`.
    pub fn relabel(&self, local: &HashMap<u64, u64>) -> (r: Entry)
        requires
            forall|i: int|
                0 <= i < self.changes().len() ==> local@.contains_key(
                    #[trigger] self.changes()[i],
                ),
        ensures
            r == self.relabelled(local@),
    {
        proof {
            lemma_changes(*self);
        }
        match self {
            Entry::Graph(vertex, edge) => {
                let change: u64 = relabel_unless_root(vertex.change, local);
                let dest: u64 = relabel_unless_root(edge.dest.change, local);
                let introduced_by: u64 = relabel_unless_root(edge.introduced_by, local);
                Entry::Graph(
                    Vertex { change, start: vertex.start, end: vertex.end },
                    Edge {
                        flag: edge.flag,
                        dest: Position { change: dest, pos: edge.dest.pos },
                        introduced_by,
                    },
                )
            },
            Entry::Change(id, time) => Entry::Change(*local.get(id).unwrap(), *time),
            Entry::RevChange(time, id, state) => Entry::RevChange(
                *time,
                *local.get(id).unwrap(),
                *state,
            ),
            _ => *self,
        }
    }
}

/// The hash of a change, from the first entry of the table of hashes that is
/// not before its identifier, if that entry is its own.
pub fn hash_for(found: Option<(u64, SerializedHash)>, id: u64) -> (r: Option<SerializedHash>)
    ensures
        r == match found {
            Some((other, hash)) => if other == id {
                Some(hash)
            } else {
                None
            },
            None => None,
        },
{
    match found {
        Some((other, hash)) => if other == id {
            Some(hash)
        } else {
            None
        },
        None => None,
    }
}

fn relabel_unless_root(id: u64, local: &HashMap<u64, u64>) -> (r: u64)
    requires
        id != ROOT_CHANGE ==> local@.contains_key(id),
    ensures
        r == localised_unless_root(id, local@),
{
    if id == ROOT_CHANGE {
        id
    } else {
        *local.get(&id).unwrap()
    }
}

/// Every identifier of an entry, but the root's in a graph, must be read.
pub proof fn lemma_changes(e: Entry)
    ensures
        match e {
            Entry::Graph(vertex, edge) => {
                &&& vertex.change != ROOT_CHANGE ==> exists|i: int|
                    0 <= i < e.changes().len() && #[trigger] e.changes()[i] == vertex.change
                &&& edge.dest.change != ROOT_CHANGE ==> exists|i: int|
                    0 <= i < e.changes().len() && #[trigger] e.changes()[i] == edge.dest.change
                &&& edge.introduced_by != ROOT_CHANGE ==> exists|i: int|
                    0 <= i < e.changes().len() && #[trigger] e.changes()[i] == edge.introduced_by
            },
            Entry::Change(id, _) => e.changes().len() == 1 && e.changes()[0] == id,
            Entry::RevChange(_, id, _) => e.changes().len() == 1 && e.changes()[0] == id,
            _ => e.changes().len() == 0,
        },
{
    match e {
        Entry::Graph(vertex, edge) => {
            let all = seq![vertex.change, edge.dest.change, edge.introduced_by];
            let kept = all.filter(|id: u64| id != ROOT_CHANGE);
            assert(kept == e.changes());
            broadcast use vstd::seq_lib::group_filter_ensures;

            assert(all[0] == vertex.change);
            assert(all[1] == edge.dest.change);
            assert(all[2] == edge.introduced_by);
            if vertex.change != ROOT_CHANGE {
                assert(kept.contains(all[0]));
            }
            if edge.dest.change != ROOT_CHANGE {
                assert(kept.contains(all[1]));
            }
            if edge.introduced_by != ROOT_CHANGE {
                assert(kept.contains(all[2]));
            }
        },
        _ => {},
    }
}

/// Reading the identifiers of an entry leaves it as it is exactly if each of
/// them is read as itself.
pub proof fn law_unchanged_entries(e: Entry, local: Map<u64, u64>)
    requires
        forall|i: int|
            0 <= i < e.changes().len() ==> local.contains_key(#[trigger] e.changes()[i]),
    ensures
        e.relabelled(local) == e <==> e.fixed_by(local),
{
    lemma_changes(e);
    match e {
        Entry::Graph(vertex, edge) => {
            let all = seq![vertex.change, edge.dest.change, edge.introduced_by];
            reveal_with_fuel(Seq::filter, 4);
            assert(all.drop_last() =~= seq![vertex.change, edge.dest.change]);
            assert(all.drop_last().drop_last() =~= seq![vertex.change]);
            assert(all.drop_last().drop_last().drop_last() =~= Seq::empty());
        },
        _ => {},
    }
}

/// The identifiers that must be read are those of the changes that an entry of
/// the graph, of the changes or of the times names, in the order in which it
/// does. In the graph, that of the root change is left out.
pub proof fn law_identifiers(e: Entry)
    ensures
        match e {
            Entry::Graph(v, g) => e.changes() == (if v.change == 0 {
                Seq::empty()
            } else {
                seq![v.change]
            }) + (if g.dest.change == 0 {
                Seq::empty()
            } else {
                seq![g.dest.change]
            }) + (if g.introduced_by == 0 {
                Seq::empty()
            } else {
                seq![g.introduced_by]
            }),
            Entry::Change(id, _) => e.changes() == seq![id],
            Entry::RevChange(_, id, _) => e.changes() == seq![id],
            Entry::Internal(..) => e.changes().len() == 0,
            Entry::External(..) => e.changes().len() == 0,
            Entry::State(..) => e.changes().len() == 0,
            Entry::Tag(..) => e.changes().len() == 0,
        },
{
    if let Entry::Graph(v, g) = e {
        let all = seq![v.change, g.dest.change, g.introduced_by];
        reveal_with_fuel(Seq::filter, 4);
        assert(all.drop_last() =~= seq![v.change, g.dest.change]);
        assert(all.drop_last().drop_last() =~= seq![v.change]);
        assert(all.drop_last().drop_last().drop_last() =~= Seq::empty());
        assert(e.changes() =~= (if v.change == 0 {
            Seq::empty()
        } else {
            seq![v.change]
        }) + (if g.dest.change == 0 {
            Seq::empty()
        } else {
            seq![g.dest.change]
        }) + (if g.introduced_by == 0 {
            Seq::empty()
        } else {
            seq![g.introduced_by]
        }));
    }
}

/// Reading the identifiers of an entry replaces each of them, but the root's in
/// the graph, and leaves everything else in the entry as it was.
pub proof fn law_read_entries(e: Entry, local: Map<u64, u64>)
    ensures
        match e {
            Entry::Graph(v, g) => e.relabelled(local) matches Entry::Graph(w, h) && {
                &&& w.start == v.start
                &&& w.end == v.end
                &&& h.flag == g.flag
                &&& h.dest.pos == g.dest.pos
                &&& v.change == 0 ==> w.change == 0
                &&& v.change != 0 ==> w.change == local[v.change]
                &&& g.dest.change == 0 ==> h.dest.change == 0
                &&& g.dest.change != 0 ==> h.dest.change == local[g.dest.change]
                &&& g.introduced_by == 0 ==> h.introduced_by == 0
                &&& g.introduced_by != 0 ==> h.introduced_by == local[g.introduced_by]
            },
            Entry::Change(id, time) => e.relabelled(local) == Entry::Change(local[id], time),
            Entry::RevChange(time, id, state) => e.relabelled(local) == Entry::RevChange(
                time,
                local[id],
                state,
            ),
            Entry::Internal(..) => e.relabelled(local) == e,
            Entry::External(..) => e.relabelled(local) == e,
            Entry::State(..) => e.relabelled(local) == e,
            Entry::Tag(..) => e.relabelled(local) == e,
        },
{
}

/// An entry is fixed exactly if every change that it names is known, and has the
/// same identifier. The root change of the graph need not be known.
pub proof fn law_fixed_entries(e: Entry, local: Map<u64, u64>)
    ensures
        match e {
            Entry::Graph(v, g) => e.fixed_by(local) <==> {
                &&& v.change == 0 || local.contains_pair(v.change, v.change)
                &&& g.dest.change == 0 || local.contains_pair(g.dest.change, g.dest.change)
                &&& g.introduced_by == 0 || local.contains_pair(g.introduced_by, g.introduced_by)
            },
            Entry::Change(id, _) => e.fixed_by(local) <==> local.contains_pair(id, id),
            Entry::RevChange(_, id, _) => e.fixed_by(local) <==> local.contains_pair(id, id),
            Entry::Internal(..) => e.fixed_by(local),
            Entry::External(..) => e.fixed_by(local),
            Entry::State(..) => e.fixed_by(local),
            Entry::Tag(..) => e.fixed_by(local),
        },
{
    law_identifiers(e);
    let ids = e.changes();
    if e.fixed_by(local) {
        lemma_changes(e);
    }
    assert forall|i: int| 0 <= i < ids.len() implies match e {
        Entry::Graph(v, g) => #[trigger] ids[i] != 0 && (ids[i] == v.change || ids[i]
            == g.dest.change || ids[i] == g.introduced_by),
        Entry::Change(id, _) => ids[i] == id,
        Entry::RevChange(_, id, _) => ids[i] == id,
        _ => false,
    } by {
    }
}

/// The hash of a change is found exactly if the entry is that of the change.
pub proof fn law_hashes(found: Option<(u64, SerializedHash)>, id: u64, r: Option<SerializedHash>)
    requires
        call_ensures(hash_for, (found, id), r),
    ensures
        r matches Some(hash) ==> found == Some((id, hash)),
        r is None ==> !(found matches Some((other, _)) && other == id),
{
}

/// What is done with the identifiers of an entry: they are listed, it is asked
/// whether they are all the same in the other repository, and they are read
/// there. If they are all the same, the entry stays as it is.
pub proof fn law_working_on_entries(
    e: Entry,
    local: std::collections::HashMap<u64, u64>,
    ids: Vec<u64>,
    agrees: bool,
    read: Entry,
)
    requires
        call_ensures(Entry::lookups, (&e,), ids),
        call_ensures(Entry::agrees, (&e, &local), agrees),
        call_ensures(Entry::relabel, (&e, &local), read),
    ensures
        ids@ == e.changes(),
        read == e.relabelled(local@),
        agrees <==> forall|i: int|
            0 <= i < ids@.len() ==> local@.contains_pair(#[trigger] ids@[i], ids@[i]),
        agrees ==> read == e,
{
    if agrees {
        law_unchanged_entries(e, local@);
    }
    assert(agrees == e.fixed_by(local@));
    if forall|i: int| 0 <= i < ids@.len() ==> local@.contains_pair(#[trigger] ids@[i], ids@[i]) {
        assert forall|i: int| 0 <= i < e.changes().len() implies local@.contains_key(
            #[trigger] e.changes()[i],
        ) && local@[e.changes()[i]] == e.changes()[i] by {
            assert(ids@[i] == e.changes()[i]);
        }
    }
}

} // verus!
