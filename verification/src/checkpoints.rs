//! Checkpointed editing of a graph: every change happens inside an
//! operation that is either committed, which records a new checkpoint of
//! the graph, or rolled back, which puts back the graph as it was when the
//! operation began. Any committed checkpoint can be restored later.
//!
//! The graph type is a parameter; a snapshot of it is a clone.

use vstd::prelude::*;

use crate::text::{decimal, push_decimal};

verus! {

/// Id of a checkpoint; the root checkpoint is 0 and each commit takes the
/// next one.
#[derive(Clone, Copy, Debug, PartialEq, Eq, Hash, PartialOrd, Ord, Structural)]
pub struct CheckpointId(pub u64);

impl CheckpointId {
    /// The display form `ckpt:<id>`.
    pub fn text(&self) -> (s: String)
        ensures
            s@ == "ckpt:"@ + decimal(self.0 as nat),
    {
        let mut s = String::from_str("ckpt:");
        push_decimal(&mut s, self.0);
        s
    }
}

/// A recorded state of the graph.
#[derive(Debug)]
pub struct Checkpoint<S> {
    pub id: CheckpointId,
    /// The graph as it was committed.
    pub snapshot: S,
    /// The checkpoint the operation started from; `None` for the root.
    pub parent: Option<CheckpointId>,
    pub label: String,
}

/// An operation under way: where it started.
#[derive(Debug)]
pub struct InProgress<S> {
    pub parent: CheckpointId,
    pub snapshot_at_begin: S,
}

/// Why a checkpoint request is refused.
#[derive(Debug, PartialEq, Eq, Structural)]
pub enum CheckpointError {
    /// `begin_operation` while an operation is under way.
    AlreadyInProgress,
    /// `commit` or `rollback` with no operation under way.
    NotInProgress,
    /// No checkpoint has this id.
    CheckpointNotFound(CheckpointId),
    /// The graph may only be changed inside an operation.
    MutationOutsideOperation,
    /// `restore_to` while an operation is under way.
    InProgressMustBeResolved,
}

/// The checkpoints as a map from id.
pub open spec fn checkpoint_map<S>(s: Seq<Checkpoint<S>>) -> Map<u64, Checkpoint<S>> {
    Map::new(
        |k: u64| exists|i: int| 0 <= i < s.len() && (#[trigger] s[i]).id.0 == k,
        |k: u64| s[choose|i: int| 0 <= i < s.len() && (#[trigger] s[i]).id.0 == k],
    )
}

pub open spec fn ids_increasing<S>(s: Seq<Checkpoint<S>>) -> bool {
    forall|i: int, j: int| 0 <= i < j < s.len() ==> (#[trigger] s[i]).id.0 < (#[trigger] s[j]).id.0
}

/// The next id after `n`, stopping at the largest.
pub open spec fn next_id_after(n: u64) -> u64 {
    if n == u64::MAX { u64::MAX } else { (n + 1) as u64 }
}

/// The history of checkpoints, the current head, and the operation under
/// way, if any.
#[derive(Debug)]
pub struct CheckpointHistory<S> {
    root: Checkpoint<S>,
    later: Vec<Checkpoint<S>>,
    head: CheckpointId,
    next_id: u64,
    in_progress: Option<InProgress<S>>,
}

impl<S> CheckpointHistory<S> {
    /// All checkpoints, the root first, in id order.
    closed spec fn all_seq(&self) -> Seq<Checkpoint<S>> {
        seq![self.root].add(self.later@)
    }

    /// The checkpoints by id.
    pub closed spec fn map_view(&self) -> Map<u64, Checkpoint<S>> {
        checkpoint_map(self.all_seq())
    }

    pub closed spec fn head_view(&self) -> CheckpointId {
        self.head
    }

    /// The id the next commit takes.
    pub closed spec fn next_id_view(&self) -> u64 {
        self.next_id
    }

    /// The operation under way: where it started and the graph then.
    pub closed spec fn pending_view(&self) -> Option<(CheckpointId, S)> {
        match self.in_progress {
            Some(p) => Some((p.parent, p.snapshot_at_begin)),
            None => None,
        }
    }

    #[verifier::type_invariant]
    closed spec fn inv(&self) -> bool {
        &&& self.root.id.0 == 0
        &&& self.next_id >= 1
        &&& ids_increasing(self.all_seq())
        &&& self.all_seq().last().id.0 <= self.next_id
        &&& (self.all_seq().last().id.0 == self.next_id ==> self.next_id == u64::MAX)
        &&& exists|i: int| 0 <= i < self.all_seq().len() && (#[trigger] self.all_seq()[i]).id == self.head
    }

    /// A history holding only the root checkpoint (id 0, labelled
    /// `<root>`, no parent) of the given graph; the head is the root.
    pub fn new(empty_snapshot: S) -> (h: Self)
        ensures
            h.map_view().dom() == set![0u64],
            h.map_view()[0].id == CheckpointId(0),
            h.map_view()[0].snapshot == empty_snapshot,
            h.map_view()[0].parent is None,
            h.map_view()[0].label@ == "<root>"@,
            h.head_view() == CheckpointId(0),
            h.next_id_view() == 1,
            h.pending_view() is None,
    {
        let root = Checkpoint {
            id: CheckpointId(0),
            snapshot: empty_snapshot,
            parent: None,
            label: String::from_str("<root>"),
        };
        let h = CheckpointHistory { root, later: Vec::new(), head: CheckpointId(0), next_id: 1, in_progress: None };
        proof {
            let s = h.all_seq();
            assert(s =~= seq![h.root]);
            assert(s[0].id.0 == 0);
            assert(checkpoint_map(s).dom() =~= set![0u64]);
        }
        h
    }

    pub fn head(&self) -> (id: CheckpointId)
        ensures
            id == self.head_view(),
            self.map_view().contains_key(id.0),
    {
        proof {
            use_type_invariant(self);
            let i = choose|i: int| 0 <= i < self.all_seq().len() && (#[trigger] self.all_seq()[i]).id == self.head;
            assert(self.all_seq()[i].id.0 == self.head.0);
        }
        self.head
    }

    /// The checkpoint with this id, if there is one.
    pub fn checkpoint(&self, id: CheckpointId) -> (r: Option<&Checkpoint<S>>)
        ensures
            match r {
                Some(c) => self.map_view().contains_key(id.0) && *c == self.map_view()[id.0],
                None => !self.map_view().contains_key(id.0),
            },
    {
        proof { use_type_invariant(self); }
        let ghost s = self.all_seq();
        if self.root.id.0 == id.0 {
            proof {
                let c = choose|j: int| 0 <= j < s.len() && (#[trigger] s[j]).id.0 == id.0;
                assert(s[0] == self.root);
                if c > 0 {
                    assert(s[0].id.0 < s[c].id.0);
                }
            }
            return Some(&self.root);
        }
        match find_checkpoint(&self.later, id) {
            Some(i) => {
                proof {
                    assert(s[i + 1] == self.later@[i as int]);
                    let c = choose|j: int| 0 <= j < s.len() && (#[trigger] s[j]).id.0 == id.0;
                    if c < i + 1 {
                        assert(s[c].id.0 < s[i + 1].id.0);
                    }
                    if c > i + 1 {
                        assert(s[i + 1].id.0 < s[c].id.0);
                    }
                }
                Some(&self.later[i])
            },
            None => {
                proof {
                    assert forall|j: int| 0 <= j < s.len() implies (#[trigger] s[j]).id.0 != id.0 by {
                        if j > 0 {
                            assert(s[j] == self.later@[j - 1]);
                        }
                    }
                }
                None
            },
        }
    }

    /// Number of checkpoints, the root included (at most `usize::MAX`).
    pub fn len(&self) -> (n: usize)
        ensures
            n == (if self.map_view().len() <= usize::MAX { self.map_view().len() } else { usize::MAX as nat }),
            n >= 1,
    {
        proof {
            use_type_invariant(self);
            lemma_checkpoint_map_len(self.all_seq());
        }
        self.later.len().saturating_add(1)
    }

    /// Whether nothing was committed yet: only the root is there.
    pub fn is_empty(&self) -> (b: bool)
        ensures
            b == (self.map_view().len() <= 1),
    {
        proof {
            use_type_invariant(self);
            lemma_checkpoint_map_len(self.all_seq());
        }
        self.later.len() == 0
    }

    /// The ids of all checkpoints, in increasing order.
    pub fn ids(&self) -> (v: Vec<CheckpointId>)
        ensures
            forall|i: int| 0 <= i < v@.len() ==> self.map_view().contains_key((#[trigger] v@[i]).0),
            forall|k: u64| self.map_view().contains_key(k) ==> exists|i: int| 0 <= i < v@.len() && (#[trigger] v@[i]).0 == k,
            forall|i: int, j: int| 0 <= i < j < v@.len() ==> (#[trigger] v@[i]).0 < (#[trigger] v@[j]).0,
    {
        proof { use_type_invariant(self); }
        let ghost s = self.all_seq();
        let mut v: Vec<CheckpointId> = Vec::new();
        v.push(self.root.id);
        let mut i: usize = 0;
        while i < self.later.len()
            invariant
                0 <= i <= self.later@.len(),
                s == self.all_seq(),
                ids_increasing(s),
                v@.len() == i + 1,
                forall|k: int| 0 <= k < v@.len() ==> (#[trigger] v@[k]) == s[k].id,
            decreases self.later@.len() - i,
        {
            assert(s[i + 1] == self.later@[i as int]);
            v.push(self.later[i].id);
            i = i + 1;
        }
        proof {
            assert forall|k: int| 0 <= k < v@.len() implies self.map_view().contains_key((#[trigger] v@[k]).0) by {
                assert(s[k].id.0 == v@[k].0);
            }
            assert forall|k: u64| self.map_view().contains_key(k) implies exists|i: int| 0 <= i < v@.len() && (#[trigger] v@[i]).0 == k by {
                let j = choose|j: int| 0 <= j < s.len() && (#[trigger] s[j]).id.0 == k;
                assert(v@[j].0 == k);
            }
            assert forall|a: int, b: int| 0 <= a < b < v@.len() implies (#[trigger] v@[a]).0 < (#[trigger] v@[b]).0 by {
                assert(s[a].id.0 < s[b].id.0);
            }
        }
        v
    }

    /// Every checkpoint with its id, in increasing id order.
    pub fn iter(&self) -> (v: Vec<(CheckpointId, &Checkpoint<S>)>)
        ensures
            forall|i: int| 0 <= i < v@.len() ==> self.map_view().contains_key((#[trigger] v@[i]).0.0)
                && *v@[i].1 == self.map_view()[v@[i].0.0] && v@[i].1.id == v@[i].0,
            forall|k: u64| self.map_view().contains_key(k) ==> exists|i: int| 0 <= i < v@.len() && (#[trigger] v@[i]).0.0 == k,
            forall|i: int, j: int| 0 <= i < j < v@.len() ==> (#[trigger] v@[i]).0.0 < (#[trigger] v@[j]).0.0,
    {
        proof { use_type_invariant(self); }
        let ghost s = self.all_seq();
        let mut v: Vec<(CheckpointId, &Checkpoint<S>)> = Vec::new();
        v.push((self.root.id, &self.root));
        let mut i: usize = 0;
        while i < self.later.len()
            invariant
                0 <= i <= self.later@.len(),
                s == self.all_seq(),
                ids_increasing(s),
                v@.len() == i + 1,
                forall|k: int| 0 <= k < v@.len() ==> (#[trigger] v@[k]).0 == s[k].id && *v@[k].1 == s[k],
            decreases self.later@.len() - i,
        {
            assert(s[i + 1] == self.later@[i as int]);
            v.push((self.later[i].id, &self.later[i]));
            i = i + 1;
        }
        proof {
            assert forall|k: int| 0 <= k < v@.len() implies self.map_view().contains_key((#[trigger] v@[k]).0.0)
                && *v@[k].1 == self.map_view()[v@[k].0.0] && v@[k].1.id == v@[k].0 by {
                assert(s[k].id.0 == v@[k].0.0);
                let c = choose|j: int| 0 <= j < s.len() && (#[trigger] s[j]).id.0 == s[k].id.0;
                if c < k {
                    assert(s[c].id.0 < s[k].id.0);
                }
                if c > k {
                    assert(s[k].id.0 < s[c].id.0);
                }
            }
            assert forall|k: u64| self.map_view().contains_key(k) implies exists|i: int| 0 <= i < v@.len() && (#[trigger] v@[i]).0.0 == k by {
                let j = choose|j: int| 0 <= j < s.len() && (#[trigger] s[j]).id.0 == k;
                assert(v@[j].0.0 == k);
            }
            assert forall|a: int, b: int| 0 <= a < b < v@.len() implies (#[trigger] v@[a]).0.0 < (#[trigger] v@[b]).0.0 by {
                assert(s[a].id.0 < s[b].id.0);
            }
        }
        v
    }

    pub fn is_in_progress(&self) -> (b: bool)
        ensures
            b == self.pending_view() is Some,
    {
        self.in_progress.is_some()
    }
}

impl<S> CheckpointHistory<S> {
    /// Record a new checkpoint with the next id and make it the head; the
    /// operation under way, if any, is over.
    fn record(&mut self, snapshot: S, parent: CheckpointId, label: String) -> (id: CheckpointId)
        ensures
            id.0 == old(self).next_id_view(),
            final(self).next_id_view() == next_id_after(old(self).next_id_view()),
            final(self).head_view() == id,
            final(self).pending_view() is None,
            final(self).map_view() == old(self).map_view().insert(
                id.0,
                Checkpoint { id, snapshot, parent: Some(parent), label },
            ),
            old(self).next_id_view() < u64::MAX ==> !old(self).map_view().contains_key(id.0),
    {
        proof {
            use_type_invariant(&*self);
            let s = self.all_seq();
            if self.next_id < u64::MAX && checkpoint_map(s).contains_key(self.next_id) {
                let j = choose|j: int| 0 <= j < s.len() && (#[trigger] s[j]).id.0 == self.next_id;
                if j < s.len() - 1 {
                    assert(s[j].id.0 < s[s.len() - 1].id.0);
                }
            }
        }
        let new_id = CheckpointId(self.next_id);
        let ghost before = self.all_seq();
        let ghost root = self.root;
        self.head = CheckpointId(0);
        proof {
            assert(self.all_seq()[0].id == self.head);
        }
        self.next_id = self.next_id.saturating_add(1);
        let mut later: Vec<Checkpoint<S>> = Vec::new();
        proof {
            assert(seq![root].add(later@) =~= seq![root]);
        }
        std::mem::swap(&mut later, &mut self.later);
        assert(before =~= seq![root].add(later@));
        let ck = Checkpoint { id: new_id, snapshot, parent: Some(parent), label };
        let ghost ckv = ck;
        let n = later.len();
        let ghost last = n as int;
        if n > 0 && later[n - 1].id.0 == new_id.0 {
            later.set(n - 1, ck);
            proof {
                let after = seq![root].add(later@);
                assert(after =~= before.update(last, ckv));
                assert(ids_increasing(after)) by {
                    assert forall|i: int, j: int| 0 <= i < j < after.len() implies (#[trigger] after[i]).id.0 < (#[trigger] after[j]).id.0 by {
                        assert(before[i].id.0 < before[j].id.0);
                    }
                }
                assert forall|k: u64| #[trigger] checkpoint_map(after).contains_key(k) == checkpoint_map(before).insert(new_id.0, ckv).contains_key(k) by {
                    if k != new_id.0 && checkpoint_map(before).contains_key(k) {
                        let j = choose|j: int| 0 <= j < before.len() && (#[trigger] before[j]).id.0 == k;
                        assert(after[j].id.0 == k);
                    }
                    if k == new_id.0 {
                        assert(after[last].id.0 == k);
                    }
                    if checkpoint_map(after).contains_key(k) && k != new_id.0 {
                        let j = choose|j: int| 0 <= j < after.len() && (#[trigger] after[j]).id.0 == k;
                        assert(before[j].id.0 == k);
                    }
                }
                assert forall|k: u64| #[trigger] checkpoint_map(after).contains_key(k) implies checkpoint_map(after)[k] == checkpoint_map(before).insert(new_id.0, ckv)[k] by {
                    let j = choose|j: int| 0 <= j < after.len() && (#[trigger] after[j]).id.0 == k;
                    if k == new_id.0 {
                        if j < last {
                            assert(after[j].id.0 < after[last].id.0);
                        }
                        assert(j == last);
                    } else {
                        let jb = choose|jb: int| 0 <= jb < before.len() && (#[trigger] before[jb]).id.0 == k;
                        assert(after[jb].id.0 == k);
                        if jb < j {
                            assert(after[jb].id.0 < after[j].id.0);
                        }
                        if jb > j {
                            assert(after[j].id.0 < after[jb].id.0);
                        }
                    }
                }
                assert(checkpoint_map(after) =~= checkpoint_map(before).insert(new_id.0, ckv));
                assert(after.last().id == new_id);
                assert(after[0].id == CheckpointId(0));
            }
        } else {
            later.push(ck);
            proof {
                let after = seq![root].add(later@);
                assert(after =~= before.push(ckv));
                assert(ids_increasing(after)) by {
                    assert forall|i: int, j: int| 0 <= i < j < after.len() implies (#[trigger] after[i]).id.0 < (#[trigger] after[j]).id.0 by {
                        if j == after.len() - 1 {
                            if i < last {
                                assert(before[i].id.0 < before[last].id.0);
                            }
                        } else {
                            assert(before[i].id.0 < before[j].id.0);
                        }
                    }
                }
                assert forall|k: u64| #[trigger] checkpoint_map(after).contains_key(k) == checkpoint_map(before).insert(new_id.0, ckv).contains_key(k) by {
                    if k != new_id.0 && checkpoint_map(before).contains_key(k) {
                        let j = choose|j: int| 0 <= j < before.len() && (#[trigger] before[j]).id.0 == k;
                        assert(after[j].id.0 == k);
                    }
                    if k == new_id.0 {
                        assert(after[after.len() - 1].id.0 == k);
                    }
                    if checkpoint_map(after).contains_key(k) && k != new_id.0 {
                        let j = choose|j: int| 0 <= j < after.len() && (#[trigger] after[j]).id.0 == k;
                        assert(before[j].id.0 == k);
                    }
                }
                assert forall|k: u64| #[trigger] checkpoint_map(after).contains_key(k) implies checkpoint_map(after)[k] == checkpoint_map(before).insert(new_id.0, ckv)[k] by {
                    let j = choose|j: int| 0 <= j < after.len() && (#[trigger] after[j]).id.0 == k;
                    if k == new_id.0 {
                        if j < after.len() - 1 {
                            if j < last {
                                assert(before[j].id.0 < before[last].id.0);
                            }
                            assert(before[j].id.0 <= before[last].id.0);
                        }
                        assert(j == after.len() - 1);
                    } else {
                        let jb = choose|jb: int| 0 <= jb < before.len() && (#[trigger] before[jb]).id.0 == k;
                        assert(after[jb].id.0 == k);
                        if jb < j {
                            assert(after[jb].id.0 < after[j].id.0);
                        }
                        if jb > j {
                            assert(after[j].id.0 < after[jb].id.0);
                        }
                    }
                }
                assert(checkpoint_map(after) =~= checkpoint_map(before).insert(new_id.0, ckv));
                assert(after.last().id == new_id);
                assert(after[0].id == CheckpointId(0));
            }
        }
        self.later = later;
        proof {
            let s = self.all_seq();
            assert(s.last().id == new_id);
            assert(exists|i: int| 0 <= i < s.len() && (#[trigger] s[i]).id == new_id);
        }
        self.head = new_id;
        self.in_progress = None;
        new_id
    }
}

/// `c1` is `c0` after an operation began: the head and a copy of the
/// graph are remembered, nothing else changes.
pub open spec fn began<G: Clone>(c0: CadGraph<G>, c1: CadGraph<G>) -> bool {
    &&& c0.history_view().pending_view() is None
    &&& c1.history_view().pending_view() matches Some((parent, snap)) && parent
        == c0.history_view().head_view() && cloned(c0.graph_view(), snap)
    &&& c1.graph_view() == c0.graph_view()
    &&& c1.history_view().map_view() == c0.history_view().map_view()
    &&& c1.history_view().head_view() == c0.history_view().head_view()
    &&& c1.history_view().next_id_view() == c0.history_view().next_id_view()
}

/// `c2` is `c1` with at most its graph edited (through `graph_mut`).
pub open spec fn edited<G: Clone>(c1: CadGraph<G>, c2: CadGraph<G>) -> bool {
    c2.history_view() == c1.history_view()
}

/// `c3` is `c2` after its operation was rolled back: the graph is the
/// copy taken when the operation began, and no operation is under way.
pub open spec fn rolled_back<G: Clone>(c2: CadGraph<G>, c3: CadGraph<G>) -> bool {
    &&& c2.history_view().pending_view() matches Some((_, snap)) && c3.graph_view() == snap
    &&& c3.history_view().pending_view() is None
    &&& c3.history_view().map_view() == c2.history_view().map_view()
    &&& c3.history_view().head_view() == c2.history_view().head_view()
    &&& c3.history_view().next_id_view() == c2.history_view().next_id_view()
}

/// Beginning an operation, editing the graph, then rolling back gives the
/// graph back (as a copy made by `clone`) with the head and the checkpoints
/// as they were, and no operation under way.
pub proof fn law_begin_edit_rollback<G: Clone>(c0: CadGraph<G>, c1: CadGraph<G>, c2: CadGraph<G>, c3: CadGraph<G>)
    requires
        began(c0, c1),
        edited(c1, c2),
        rolled_back(c2, c3),
    ensures
        cloned(c0.graph_view(), c3.graph_view()),
        c3.history_view().head_view() == c0.history_view().head_view(),
        c3.history_view().map_view() == c0.history_view().map_view(),
        c3.history_view().next_id_view() == c0.history_view().next_id_view(),
        c3.history_view().pending_view() is None,
{
}

/// A graph edited through checkpointed operations.
#[derive(Debug)]
pub struct CadGraph<G> {
    graph: G,
    history: CheckpointHistory<G>,
}

impl<G: Clone> CadGraph<G> {
    pub closed spec fn graph_view(&self) -> G {
        self.graph
    }

    pub closed spec fn history_view(&self) -> CheckpointHistory<G> {
        self.history
    }

    /// Start editing `graph`: the history holds only the root checkpoint, a
    /// snapshot of the graph.
    pub fn new(graph: G) -> (c: Self)
        ensures
            c.graph_view() == graph,
            c.history_view().map_view().dom() == set![0u64],
            cloned(graph, c.history_view().map_view()[0].snapshot),
            c.history_view().map_view()[0].parent is None,
            c.history_view().head_view() == CheckpointId(0),
            c.history_view().next_id_view() == 1,
            c.history_view().pending_view() is None,
    {
        let snapshot = graph.clone();
        let history = CheckpointHistory::new(snapshot);
        CadGraph { graph, history }
    }

    pub fn graph(&self) -> (g: &G)
        ensures
            *g == self.graph_view(),
    {
        &self.graph
    }

    pub fn history(&self) -> (h: &CheckpointHistory<G>)
        ensures
            *h == self.history_view(),
    {
        &self.history
    }

    pub fn head(&self) -> (id: CheckpointId)
        ensures
            id == self.history_view().head_view(),
    {
        self.history.head()
    }

    /// The graph, for changing; only inside an operation.
    pub fn graph_mut(&mut self) -> (r: Result<&mut G, CheckpointError>)
        ensures
            old(self).history_view().pending_view() is None ==> (r matches Err(e) && e
                == CheckpointError::MutationOutsideOperation && *final(self) == *old(self)),
            old(self).history_view().pending_view() is Some ==> (r matches Ok(g) && *g
                == old(self).graph_view()),
            final(self).history_view() == old(self).history_view(),
            edited(*old(self), *final(self)),
    {
        if self.history.in_progress.is_none() {
            return Err(CheckpointError::MutationOutsideOperation);
        }
        Ok(&mut self.graph)
    }

    /// Begin an operation: remember the head and a snapshot of the graph.
    pub fn begin_operation(&mut self) -> (r: Result<(), CheckpointError>)
        ensures
            old(self).history_view().pending_view() is Some ==> r == Err::<(), CheckpointError>(
                CheckpointError::AlreadyInProgress,
            ) && *final(self) == *old(self),
            old(self).history_view().pending_view() is None ==> {
                &&& r is Ok
                &&& final(self).history_view().pending_view() matches Some((parent, snap)) && parent
                    == old(self).history_view().head_view() && cloned(old(self).graph_view(), snap)
                &&& final(self).graph_view() == old(self).graph_view()
                &&& final(self).history_view().map_view() == old(self).history_view().map_view()
                &&& final(self).history_view().head_view() == old(self).history_view().head_view()
                &&& final(self).history_view().next_id_view() == old(self).history_view().next_id_view()
            },
            r is Ok ==> began(*old(self), *final(self)),
    {
        if self.history.in_progress.is_some() {
            return Err(CheckpointError::AlreadyInProgress);
        }
        proof { use_type_invariant(&self.history); }
        let snapshot = self.graph.clone();
        self.history.in_progress = Some(InProgress { parent: self.history.head, snapshot_at_begin: snapshot });
        Ok(())
    }

    /// Commit the operation: record a checkpoint of the graph with the next
    /// id, its parent being the head the operation began from, and make it
    /// the head.
    pub fn commit(&mut self, label: String) -> (r: Result<CheckpointId, CheckpointError>)
        ensures
            old(self).history_view().pending_view() is None ==> r == Err::<CheckpointId, CheckpointError>(
                CheckpointError::NotInProgress,
            ) && *final(self) == *old(self),
            old(self).history_view().pending_view() matches Some((parent, _)) ==> {
                &&& r matches Ok(id) && id.0 == old(self).history_view().next_id_view()
                    && final(self).history_view().head_view() == id
                    && cloned(old(self).graph_view(), final(self).history_view().map_view()[id.0].snapshot)
                    && final(self).history_view().map_view() == old(self).history_view().map_view().insert(
                        id.0,
                        Checkpoint {
                            id,
                            snapshot: final(self).history_view().map_view()[id.0].snapshot,
                            parent: Some(parent),
                            label,
                        },
                    )
                &&& final(self).history_view().next_id_view() == next_id_after(
                    old(self).history_view().next_id_view(),
                )
                &&& old(self).history_view().next_id_view() < u64::MAX
                    ==> !old(self).history_view().map_view().contains_key(old(self).history_view().next_id_view())
                &&& final(self).history_view().pending_view() is None
                &&& final(self).graph_view() == old(self).graph_view()
            },
    {
        let parent = match &self.history.in_progress {
            None => {
                return Err(CheckpointError::NotInProgress);
            },
            Some(p) => p.parent,
        };
        let snapshot = self.graph.clone();
        let id = self.history.record(snapshot, parent, label);
        Ok(id)
    }

    /// Roll the operation back: the graph is again the snapshot taken when
    /// it began.
    pub fn rollback(&mut self) -> (r: Result<(), CheckpointError>)
        ensures
            old(self).history_view().pending_view() is None ==> r == Err::<(), CheckpointError>(
                CheckpointError::NotInProgress,
            ) && *final(self) == *old(self),
            old(self).history_view().pending_view() matches Some((_, snap)) ==> {
                &&& r is Ok
                &&& final(self).graph_view() == snap
                &&& final(self).history_view().pending_view() is None
                &&& final(self).history_view().map_view() == old(self).history_view().map_view()
                &&& final(self).history_view().head_view() == old(self).history_view().head_view()
                &&& final(self).history_view().next_id_view() == old(self).history_view().next_id_view()
            },
            r is Ok ==> rolled_back(*old(self), *final(self)),
    {
        if self.history.in_progress.is_none() {
            return Err(CheckpointError::NotInProgress);
        }
        proof { use_type_invariant(&self.history); }
        let mut pending: Option<InProgress<G>> = None;
        std::mem::swap(&mut pending, &mut self.history.in_progress);
        match pending {
            Some(p) => {
                self.graph = p.snapshot_at_begin;
            },
            None => {},
        }
        Ok(())
    }

    /// Make the graph a copy of a committed checkpoint and make that
    /// checkpoint the head; refused while an operation is under way.
    pub fn restore_to(&mut self, id: CheckpointId) -> (r: Result<(), CheckpointError>)
        ensures
            old(self).history_view().pending_view() is Some ==> r == Err::<(), CheckpointError>(
                CheckpointError::InProgressMustBeResolved,
            ) && *final(self) == *old(self),
            old(self).history_view().pending_view() is None && !old(self).history_view().map_view().contains_key(id.0)
                ==> r == Err::<(), CheckpointError>(CheckpointError::CheckpointNotFound(id)) && *final(self)
                == *old(self),
            old(self).history_view().pending_view() is None && old(self).history_view().map_view().contains_key(id.0)
                ==> {
                &&& r is Ok
                &&& cloned(old(self).history_view().map_view()[id.0].snapshot, final(self).graph_view())
                &&& final(self).history_view().head_view() == id
                &&& final(self).history_view().map_view() == old(self).history_view().map_view()
                &&& final(self).history_view().next_id_view() == old(self).history_view().next_id_view()
                &&& final(self).history_view().pending_view() is None
            },
    {
        if self.history.in_progress.is_some() {
            return Err(CheckpointError::InProgressMustBeResolved);
        }
        let graph = match self.history.checkpoint(id) {
            None => {
                return Err(CheckpointError::CheckpointNotFound(id));
            },
            Some(c) => c.snapshot.clone(),
        };
        proof {
            use_type_invariant(&self.history);
            let s = self.history.all_seq();
            let i = choose|i: int| 0 <= i < s.len() && (#[trigger] s[i]).id.0 == id.0;
            assert(s[i].id == id);
        }
        self.graph = graph;
        self.history.head = id;
        Ok(())
    }
}

fn find_checkpoint<S>(s: &Vec<Checkpoint<S>>, id: CheckpointId) -> (r: Option<usize>)
    ensures
        match r {
            Some(i) => i < s@.len() && s@[i as int].id.0 == id.0,
            None => forall|i: int| 0 <= i < s@.len() ==> (#[trigger] s@[i]).id.0 != id.0,
        },
{
    let mut i: usize = 0;
    while i < s.len()
        invariant
            0 <= i <= s@.len(),
            forall|j: int| 0 <= j < i ==> (#[trigger] s@[j]).id.0 != id.0,
        decreases s@.len() - i,
    {
        if s[i].id.0 == id.0 {
            return Some(i);
        }
        i = i + 1;
    }
    None
}

proof fn lemma_checkpoint_map_len<S>(s: Seq<Checkpoint<S>>)
    requires
        ids_increasing(s),
    ensures
        checkpoint_map(s).len() == s.len(),
        checkpoint_map(s).dom().finite(),
    decreases s.len(),
{
    if s.len() == 0 {
        assert(checkpoint_map(s).dom() =~= Set::<u64>::empty());
    } else {
        let t = s.drop_last();
        assert(ids_increasing(t));
        lemma_checkpoint_map_len(t);
        let k = s.last().id.0;
        assert(checkpoint_map(s).dom() =~= checkpoint_map(t).dom().insert(k)) by {
            assert forall|x: u64| #[trigger] checkpoint_map(s).dom().contains(x) == checkpoint_map(t).dom().insert(k).contains(x) by {
                if checkpoint_map(s).dom().contains(x) && x != k {
                    let j = choose|j: int| 0 <= j < s.len() && (#[trigger] s[j]).id.0 == x;
                    assert(t[j].id.0 == x);
                }
                if checkpoint_map(t).dom().contains(x) {
                    let j = choose|j: int| 0 <= j < t.len() && (#[trigger] t[j]).id.0 == x;
                    assert(s[j].id.0 == x);
                }
                if x == k {
                    assert(s[s.len() - 1].id.0 == x);
                }
            }
        }
        assert(!checkpoint_map(t).dom().contains(k)) by {
            if checkpoint_map(t).dom().contains(k) {
                let j = choose|j: int| 0 <= j < t.len() && (#[trigger] t[j]).id.0 == k;
                assert(s[j].id.0 < s[s.len() - 1].id.0);
            }
        }
    }
}

} // verus!
