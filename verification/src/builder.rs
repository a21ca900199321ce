//! The chain builder: creates a multi-segment note chain, or a new version
//! chain for an existing note, as one atomic step — on any failure the
//! store is left exactly as it was, no notes or edges behind.

use vstd::prelude::*;
use vstd::slice::slice_to_vec;
use crate::domain::{AssociationKind, AssociationV, EngineError, Note, NoteV};
use crate::ids::{generate_note_id, NoteId};
use crate::store::{has_note, has_version_from, wf_store, GraphStore, StoreV};
use crate::walker::{walk, walk_from};
use crate::Direction;

verus! {

/// The note rows a chain build appends: one per segment, stamped from
/// `base` on.
pub open spec fn chain_notes(
    ids: Seq<Seq<u8>>,
    segments: Seq<Seq<u8>>,
    author: u128,
    base: nat,
) -> Seq<NoteV> {
    Seq::new(
        ids.len() as nat,
        |i: int|
            NoteV { id: ids[i], value: segments[i], created_at: (base + i) as nat, author },
    )
}

/// The edge rows a chain build appends: an `author` edge anchoring the
/// first segment to the account note, then one `next` edge per further
/// segment, stamped from `base` on.
pub open spec fn chain_edges(ids: Seq<Seq<u8>>, acct: Seq<u8>, base: nat) -> Seq<AssociationV> {
    Seq::new(
        ids.len() as nat,
        |i: int|
            if i == 0 {
                AssociationV {
                    kind: AssociationKind::Author,
                    from_id: acct,
                    to_id: ids[0],
                    created_at: base,
                }
            } else {
                AssociationV {
                    kind: AssociationKind::Next,
                    from_id: ids[i - 1],
                    to_id: ids[i],
                    created_at: (base + i) as nat,
                }
            },
    )
}

/// When a chain build succeeds: at least one segment, one fresh identifier
/// per segment, no identifier colliding with an existing note or another
/// generated identifier, and an existing account note to anchor to.
pub open spec fn chain_inputs_ok(
    s: StoreV,
    ids: Seq<Seq<u8>>,
    segments: Seq<Seq<u8>>,
    acct: Seq<u8>,
) -> bool {
    &&& segments.len() >= 1
    &&& ids.len() == segments.len()
    &&& ids.no_duplicates()
    &&& forall|i: int| 0 <= i < ids.len() ==> !has_note(s.notes, #[trigger] ids[i])
    &&& has_note(s.notes, acct)
}

/// The head a version build resolves: the last note the backward walk
/// reaches, or the target itself if the walk is empty.
pub open spec fn version_head(s: StoreV, target: Seq<u8>) -> Seq<u8> {
    let w = walk_from(s.assocs, Set::empty().insert(target), target, Direction::Prev);
    if w.len() == 0 {
        target
    } else {
        w.last()
    }
}

/// A note present in a sequence is present after rows are appended.
proof fn lemma_has_note_extend(notes: Seq<NoteV>, ext: Seq<NoteV>, x: Seq<u8>)
    requires
        has_note(notes, x),
    ensures
        has_note(notes + ext, x),
{
    let i = choose|i: int| 0 <= i < notes.len() && (#[trigger] notes[i]).id == x;
    assert((notes + ext)[i].id == x);
}

/// Appending edges of kinds other than `version` does not create a version
/// edge.
proof fn lemma_version_from_extend(assocs: Seq<AssociationV>, ext: Seq<AssociationV>, x: Seq<u8>)
    requires
        forall|i: int| 0 <= i < ext.len() ==> (#[trigger] ext[i]).kind != AssociationKind::Version,
    ensures
        has_version_from(assocs + ext, x) == has_version_from(assocs, x),
{
    if has_version_from(assocs, x) {
        let i = choose|i: int|
            0 <= i < assocs.len() && (#[trigger] assocs[i]).kind == AssociationKind::Version
                && assocs[i].from_id == x;
        assert((assocs + ext)[i].kind == AssociationKind::Version && (assocs + ext)[i].from_id
            == x);
    }
    if has_version_from(assocs + ext, x) {
        let i = choose|i: int|
            0 <= i < (assocs + ext).len() && (#[trigger] (assocs + ext)[i]).kind
                == AssociationKind::Version && (assocs + ext)[i].from_id == x;
        if i >= assocs.len() {
            assert(ext[i - assocs.len()].kind == AssociationKind::Version);
        } else {
            assert(assocs[i].kind == AssociationKind::Version && assocs[i].from_id == x);
        }
    }
}

/// An edge resolves a step only for a note it touches.
proof fn lemma_resolve_touches(a: AssociationV, cur: Seq<u8>, dir: Direction)
    ensures
        crate::walker::spec_resolve(a, cur, dir) is Some ==> crate::store::touches(a, cur),
{
}

/// What the walker's step finds on a freshly built chain: from the first
/// segment nothing, from any later segment its predecessor.  No edge of the
/// old store touches a fresh identifier, and among the new edges only one
/// `next` edge leads into each segment.
proof fn lemma_step_on_built_chain(s0: StoreV, ids: Seq<Seq<u8>>, acct: Seq<u8>, j: int)
    requires
        wf_store(s0),
        ids.no_duplicates(),
        forall|i: int| 0 <= i < ids.len() ==> !has_note(s0.notes, #[trigger] ids[i]),
        0 <= j < ids.len(),
    ensures
        crate::walker::step_spec(
            s0.assocs + chain_edges(ids, acct, s0.assocs.len() as nat),
            ids[j],
            Direction::Prev,
        ) == (if j == 0 {
            None
        } else {
            Some(ids[j - 1])
        }),
{
    let ext = chain_edges(ids, acct, s0.assocs.len() as nat);
    let all = s0.assocs + ext;
    let base = s0.assocs.len();
    assert forall|i: int|
        0 <= i < base implies crate::walker::spec_resolve(
        #[trigger] all[i],
        ids[j],
        Direction::Prev,
    ) is None by {
        assert(all[i] == s0.assocs[i]);
        lemma_resolve_touches(s0.assocs[i], ids[j], Direction::Prev);
        if crate::store::touches(s0.assocs[i], ids[j]) {
            assert(has_note(s0.notes, ids[j]));
        }
    }
    assert forall|m: int|
        0 <= m < ids.len() && m != j implies crate::walker::spec_resolve(
        #[trigger] all[base + m],
        ids[j],
        Direction::Prev,
    ) is None by {
        assert(all[base + m] == ext[m]);
        if m > 0 {
            assert(ids[m] != ids[j]);
        }
    }
    if j == 0 {
        assert forall|i: int|
            0 <= i < all.len() implies crate::walker::spec_resolve(
            #[trigger] all[i],
            ids[j],
            Direction::Prev,
        ) is None by {
            if i >= base {
                assert(all[i] == ext[i - base]);
                if i - base > 0 {
                    assert(ids[i - base] != ids[0]);
                }
            }
        }
        crate::walker::lemma_step_none_iff(all, ids[j], Direction::Prev);
    } else {
        assert(all[base + j] == ext[j]);
        assert(crate::walker::spec_resolve(all[base + j], ids[j], Direction::Prev) == Some(
            ids[j - 1],
        ));
        assert forall|i: int|
            0 <= i < base + j implies crate::walker::spec_resolve(
            #[trigger] all[i],
            ids[j],
            Direction::Prev,
        ) is None by {
            if i >= base {
                assert(all[i] == ext[i - base]);
            }
        }
        crate::walker::lemma_step_first(all, ids[j], Direction::Prev, base + j);
    }
}

/// Walking backwards from a freshly built chain's `j`-th segment reaches
/// exactly the earlier segments, nearest first, for any seen-set that holds
/// none of them.
proof fn lemma_built_chain_walk(s0: StoreV, ids: Seq<Seq<u8>>, acct: Seq<u8>, j: int, seen: Set<Seq<u8>>)
    requires
        wf_store(s0),
        ids.no_duplicates(),
        forall|i: int| 0 <= i < ids.len() ==> !has_note(s0.notes, #[trigger] ids[i]),
        0 <= j < ids.len(),
        forall|i: int| 0 <= i < j ==> !seen.contains(#[trigger] ids[i]),
    ensures
        walk_from(
            s0.assocs + chain_edges(ids, acct, s0.assocs.len() as nat),
            seen,
            ids[j],
            Direction::Prev,
        ) =~= ids.take(j).reverse(),
    decreases j,
{
    let all = s0.assocs + chain_edges(ids, acct, s0.assocs.len() as nat);
    lemma_step_on_built_chain(s0, ids, acct, j);
    if j == 0 {
        assert(ids.take(0).reverse() =~= Seq::<Seq<u8>>::empty());
    } else {
        assert(!seen.contains(ids[j - 1]));
        assert forall|i: int| 0 <= i < j - 1 implies !seen.insert(ids[j - 1]).contains(
            #[trigger] ids[i],
        ) by {
            assert(ids[i] != ids[j - 1]);
        }
        lemma_built_chain_walk(s0, ids, acct, j - 1, seen.insert(ids[j - 1]));
        assert(walk_from(all, seen, ids[j], Direction::Prev) == seq![ids[j - 1]] + walk_from(
            all,
            seen.insert(ids[j - 1]),
            ids[j - 1],
            Direction::Prev,
        ));
        assert(seq![ids[j - 1]] + ids.take(j - 1).reverse() =~= ids.take(j).reverse());
    }
}

/// What the walker's forward step finds on a freshly built chain: from the
/// last segment nothing, from any earlier segment its successor.
proof fn lemma_forward_step_on_built_chain(s0: StoreV, ids: Seq<Seq<u8>>, acct: Seq<u8>, j: int)
    requires
        wf_store(s0),
        ids.no_duplicates(),
        forall|i: int| 0 <= i < ids.len() ==> !has_note(s0.notes, #[trigger] ids[i]),
        0 <= j < ids.len(),
    ensures
        crate::walker::step_spec(
            s0.assocs + chain_edges(ids, acct, s0.assocs.len() as nat),
            ids[j],
            Direction::Next,
        ) == (if j == ids.len() - 1 {
            None
        } else {
            Some(ids[j + 1])
        }),
{
    let ext = chain_edges(ids, acct, s0.assocs.len() as nat);
    let all = s0.assocs + ext;
    let base = s0.assocs.len();
    assert forall|i: int|
        0 <= i < base implies crate::walker::spec_resolve(
        #[trigger] all[i],
        ids[j],
        Direction::Next,
    ) is None by {
        assert(all[i] == s0.assocs[i]);
        lemma_resolve_touches(s0.assocs[i], ids[j], Direction::Next);
        if crate::store::touches(s0.assocs[i], ids[j]) {
            assert(has_note(s0.notes, ids[j]));
        }
    }
    assert forall|m: int|
        0 <= m < ids.len() && m != j + 1 implies crate::walker::spec_resolve(
        #[trigger] all[base + m],
        ids[j],
        Direction::Next,
    ) is None by {
        assert(all[base + m] == ext[m]);
        if m > 0 {
            assert(ids[m - 1] != ids[j]);
        }
    }
    if j == ids.len() - 1 {
        assert forall|i: int|
            0 <= i < all.len() implies crate::walker::spec_resolve(
            #[trigger] all[i],
            ids[j],
            Direction::Next,
        ) is None by {
            if i >= base {
                assert(all[i] == ext[i - base]);
                if i - base > 0 {
                    assert(ids[i - base - 1] != ids[j]);
                }
            }
        }
        crate::walker::lemma_step_none_iff(all, ids[j], Direction::Next);
    } else {
        assert(all[base + j + 1] == ext[j + 1]);
        assert(crate::walker::spec_resolve(all[base + j + 1], ids[j], Direction::Next) == Some(
            ids[j + 1],
        ));
        assert forall|i: int|
            0 <= i < base + j + 1 implies crate::walker::spec_resolve(
            #[trigger] all[i],
            ids[j],
            Direction::Next,
        ) is None by {
            if i >= base {
                assert(all[i] == ext[i - base]);
            }
        }
        crate::walker::lemma_step_first(all, ids[j], Direction::Next, base + j + 1);
    }
}

/// Walking forwards from a freshly built chain's `j`-th segment reaches
/// exactly the later segments, in order, for any seen-set that holds none
/// of them.
proof fn lemma_built_chain_walk_forward(
    s0: StoreV,
    ids: Seq<Seq<u8>>,
    acct: Seq<u8>,
    j: int,
    seen: Set<Seq<u8>>,
)
    requires
        wf_store(s0),
        ids.no_duplicates(),
        forall|i: int| 0 <= i < ids.len() ==> !has_note(s0.notes, #[trigger] ids[i]),
        0 <= j < ids.len(),
        forall|i: int| j < i < ids.len() ==> !seen.contains(#[trigger] ids[i]),
    ensures
        walk_from(
            s0.assocs + chain_edges(ids, acct, s0.assocs.len() as nat),
            seen,
            ids[j],
            Direction::Next,
        ) =~= ids.skip(j + 1),
    decreases ids.len() - j,
{
    let all = s0.assocs + chain_edges(ids, acct, s0.assocs.len() as nat);
    lemma_forward_step_on_built_chain(s0, ids, acct, j);
    if j == ids.len() - 1 {
        assert(ids.skip(j + 1) =~= Seq::<Seq<u8>>::empty());
    } else {
        assert(!seen.contains(ids[j + 1]));
        assert forall|i: int| j + 1 < i < ids.len() implies !seen.insert(ids[j + 1]).contains(
            #[trigger] ids[i],
        ) by {
            assert(ids[i] != ids[j + 1]);
        }
        lemma_built_chain_walk_forward(s0, ids, acct, j + 1, seen.insert(ids[j + 1]));
        assert(walk_from(all, seen, ids[j], Direction::Next) == seq![ids[j + 1]] + walk_from(
            all,
            seen.insert(ids[j + 1]),
            ids[j + 1],
            Direction::Next,
        ));
        assert(seq![ids[j + 1]] + ids.skip(j + 2) =~= ids.skip(j + 1));
    }
}

/// The chain a build writes is walkable: from its `j`-th segment, the
/// backward walk returns exactly the earlier segments, nearest first, and
/// the forward walk exactly the later segments in order — so the chain view
/// of any segment reaches back to the chain's head and on to its tail.
pub proof fn lemma_built_chain_walks(
    s0: StoreV,
    ids: Seq<Seq<u8>>,
    segments: Seq<Seq<u8>>,
    acct: Seq<u8>,
    j: int,
)
    requires
        wf_store(s0),
        chain_inputs_ok(s0, ids, segments, acct),
        0 <= j < ids.len(),
    ensures
        walk_from(
            s0.assocs + chain_edges(ids, acct, s0.assocs.len() as nat),
            Set::empty().insert(ids[j]),
            ids[j],
            Direction::Prev,
        ) =~= ids.take(j).reverse(),
        walk_from(
            s0.assocs + chain_edges(ids, acct, s0.assocs.len() as nat),
            Set::empty().insert(ids[j]),
            ids[j],
            Direction::Next,
        ) =~= ids.skip(j + 1),
{
    let seen = Set::<Seq<u8>>::empty().insert(ids[j]);
    assert forall|i: int| 0 <= i < j implies !seen.contains(#[trigger] ids[i]) by {
        assert(ids[i] != ids[j]);
    }
    lemma_built_chain_walk(s0, ids, acct, j, seen);
    assert forall|i: int| j < i < ids.len() implies !seen.contains(#[trigger] ids[i]) by {
        assert(ids[i] != ids[j]);
    }
    lemma_built_chain_walk_forward(s0, ids, acct, j, seen);
}

/// Whether all identifiers are pairwise distinct.
fn ids_distinct(ids: &Vec<NoteId>) -> (r: bool)
    ensures
        r == ids@.map_values(|id: NoteId| id@).no_duplicates(),
{
    let ghost m = ids@.map_values(|id: NoteId| id@);
    let n = ids.len();
    let mut i: usize = 0;
    while i < n
        invariant
            0 <= i <= n,
            n == ids@.len(),
            m == ids@.map_values(|id: NoteId| id@),
            forall|p: int, q: int| 0 <= p < i && p < q < n ==> m[p] != m[q],
        decreases n - i,
    {
        let mut j: usize = i + 1;
        while j < n
            invariant
                0 <= i < j <= n,
                n == ids@.len(),
                m == ids@.map_values(|id: NoteId| id@),
                forall|q: int| i < q < j ==> m[i as int] != m[q],
            decreases n - j,
        {
            if ids[i].eq_id(&ids[j]) {
                proof {
                    assert(m[i as int] == m[j as int]);
                }
                return false;
            }
            j += 1;
        }
        i += 1;
    }
    proof {
        assert forall|p: int, q: int|
            0 <= p < m.len() && 0 <= q < m.len() && p != q implies m[p] != m[q] by {
            if p < q {
                assert(m[p] != m[q]);
            } else {
                assert(m[q] != m[p]);
            }
        }
    }
    true
}

impl GraphStore {
    /// Whether every identifier is absent from the note table.
    fn ids_fresh(&self, ids: &Vec<NoteId>) -> (r: bool)
        ensures
            r == forall|i: int|
                0 <= i < ids@.len() ==> !has_note(self@.notes, (#[trigger] ids@[i])@),
    {
        let n = ids.len();
        let mut i: usize = 0;
        while i < n
            invariant
                0 <= i <= n,
                n == ids@.len(),
                forall|j: int| 0 <= j < i ==> !has_note(self@.notes, (#[trigger] ids@[j])@),
            decreases n - i,
        {
            if self.contains_note(&ids[i]) {
                return false;
            }
            i += 1;
        }
        true
    }

    /// Creates a note chain from the given fresh identifiers, one per
    /// segment, inside one atomic step.
    ///
    /// For each segment in order a note row is written; the first segment
    /// is anchored to the account note by an `author` edge and every later
    /// segment is linked to its predecessor by a `next` edge.  The call
    /// succeeds exactly when there is at least one segment, every
    /// identifier is fresh and unrepeated, and the account note exists; on
    /// any failure nothing is written.  Returns the first segment's note
    /// and the ordered segment identifiers.
    pub fn create_note_chain_with_ids(
        &mut self,
        ids: &Vec<NoteId>,
        segments: &Vec<Vec<u8>>,
        author: u128,
        account_note_id: NoteId,
    ) -> (r: Result<(Note, Vec<NoteId>), EngineError>)
        requires
            old(self).wf(),
            ids@.len() == segments@.len(),
            forall|i: int| 0 <= i < segments@.len() ==> (#[trigger] segments@[i])@.len() <= 1024,
        ensures
            final(self).wf(),
            r is Ok <==> chain_inputs_ok(
                old(self)@,
                ids@.map_values(|id: NoteId| id@),
                segments@.map_values(|v: Vec<u8>| v@),
                account_note_id@,
            ),
            r is Ok ==> ({
                let idv = ids@.map_values(|id: NoteId| id@);
                let segv = segments@.map_values(|v: Vec<u8>| v@);
                &&& final(self)@.notes =~= old(self)@.notes + chain_notes(
                    idv,
                    segv,
                    author,
                    old(self)@.notes.len() as nat,
                )
                &&& final(self)@.assocs =~= old(self)@.assocs + chain_edges(
                    idv,
                    account_note_id@,
                    old(self)@.assocs.len() as nat,
                )
                &&& r->Ok_0.0@ == chain_notes(idv, segv, author, old(self)@.notes.len() as nat)[0]
                &&& r->Ok_0.1@ == ids@
            }),
            r is Err ==> final(self)@ == old(self)@,
            r is Err ==> (r->Err_0 == EngineError::InvalidInput <==> segments@.len() == 0),
            r is Err && segments@.len() > 0 ==> r->Err_0 == EngineError::StorageError,
    {
        let ghost idv = ids@.map_values(|id: NoteId| id@);
        let ghost segv = segments@.map_values(|v: Vec<u8>| v@);
        let ghost base_n = old(self)@.notes.len() as nat;
        let ghost base_a = old(self)@.assocs.len() as nat;
        if segments.len() == 0 {
            return Err(EngineError::InvalidInput);
        }
        proof {
            assert forall|i: int| 0 <= i < idv.len() implies #[trigger] idv[i] == ids@[i]@ by {}
        }
        if !ids_distinct(ids) {
            return Err(EngineError::StorageError);
        }
        if !self.ids_fresh(ids) {
            proof {
                assert(exists|j: int| 0 <= j < ids@.len() && has_note(self@.notes, (ids@[j])@));
                let j = choose|j: int|
                    0 <= j < ids@.len() && has_note(self@.notes, (ids@[j])@);
                assert(idv[j] == ids@[j]@);
                assert(has_note(old(self)@.notes, idv[j]));
            }
            return Err(EngineError::StorageError);
        }
        if !self.contains_note(&account_note_id) {
            return Err(EngineError::StorageError);
        }
        proof {
            assert forall|i: int|
                0 <= i < idv.len() implies !has_note(old(self)@.notes, #[trigger] idv[i]) by {
                assert(!has_note(old(self)@.notes, ids@[i]@));
            }
            assert(chain_inputs_ok(old(self)@, idv, segv, account_note_id@));
        }
        let n = segments.len();
        let mut out_ids: Vec<NoteId> = Vec::new();
        let mut root: Option<Note> = None;
        let mut i: usize = 0;
        while i < n
            invariant
                0 < n == ids@.len() == segments@.len(),
                0 <= i <= n,
                idv == ids@.map_values(|id: NoteId| id@),
                segv == segments@.map_values(|v: Vec<u8>| v@),
                forall|k: int| 0 <= k < segments@.len() ==> (#[trigger] segments@[k])@.len() <= 1024,
                chain_inputs_ok(old(self)@, idv, segv, account_note_id@),
                self.wf(),
                base_n == old(self)@.notes.len(),
                base_a == old(self)@.assocs.len(),
                self@.notes =~= old(self)@.notes + chain_notes(
                    idv.take(i as int),
                    segv.take(i as int),
                    author,
                    base_n,
                ),
                self@.assocs =~= old(self)@.assocs + chain_edges(
                    idv.take(i as int),
                    account_note_id@,
                    base_a,
                ),
                out_ids@ == ids@.take(i as int),
                i > 0 ==> root is Some && root->0@ == chain_notes(idv, segv, author, base_n)[0],
            decreases n - i,
        {
            let ghost pre = self@;
            let value = slice_to_vec(segments[i].as_slice());
            proof {
                assert(!has_note(old(self)@.notes, idv[i as int]));
                assert forall|k: int|
                    0 <= k < pre.notes.len() implies (#[trigger] pre.notes[k]).id
                    != idv[i as int] by {
                    if k < old(self)@.notes.len() {
                        assert(pre.notes[k] == old(self)@.notes[k]);
                        if pre.notes[k].id == idv[i as int] {
                            assert(has_note(old(self)@.notes, idv[i as int]));
                        }
                    } else {
                        assert(pre.notes[k] == chain_notes(
                            idv.take(i as int),
                            segv.take(i as int),
                            author,
                            base_n,
                        )[k - old(self)@.notes.len()]);
                        assert(pre.notes[k].id == idv[k - old(self)@.notes.len()]);
                    }
                }
                if has_note(pre.notes, idv[i as int]) {
                    let k = choose|k: int|
                        0 <= k < pre.notes.len() && (#[trigger] pre.notes[k]).id == idv[i as int];
                    assert(false);
                }
            }
            let note = match self.create_note(ids[i], value, author) {
                Ok(note) => note,
                Err(_) => {
                    proof {
                        assert(false);
                    }
                    return Err(EngineError::StorageError);
                },
            };
            proof {
                assert(self@.notes =~= old(self)@.notes + chain_notes(
                    idv.take(i + 1),
                    segv.take(i + 1),
                    author,
                    base_n,
                )) by {
                    assert(pre.notes.push(note@) =~= old(self)@.notes + chain_notes(
                        idv.take(i + 1),
                        segv.take(i + 1),
                        author,
                        base_n,
                    ));
                }
            }
            let edge_res = if i == 0 {
                proof {
                    if account_note_id@ == idv[0] {
                        assert(has_note(old(self)@.notes, idv[0]));
                    }
                    lemma_has_note_extend(
                        old(self)@.notes,
                        chain_notes(idv.take(1), segv.take(1), author, base_n),
                        account_note_id@,
                    );
                    assert(has_note(self@.notes, idv[0])) by {
                        assert(self@.notes[old(self)@.notes.len() as int].id == idv[0]);
                    }
                }
                self.create_association(AssociationKind::Author, account_note_id, ids[i])
            } else {
                proof {
                    assert(idv[i - 1] != idv[i as int]);
                    assert(has_note(self@.notes, idv[i - 1])) by {
                        assert(self@.notes[old(self)@.notes.len() + i - 1].id == idv[i - 1]);
                    }
                    assert(has_note(self@.notes, idv[i as int])) by {
                        assert(self@.notes[old(self)@.notes.len() + i].id == idv[i as int]);
                    }
                }
                self.create_association(AssociationKind::Next, ids[i - 1], ids[i])
            };
            match edge_res {
                Ok(_) => {},
                Err(_) => {
                    proof {
                        assert(false);
                    }
                    return Err(EngineError::StorageError);
                },
            }
            proof {
                assert(self@.assocs =~= old(self)@.assocs + chain_edges(
                    idv.take(i + 1),
                    account_note_id@,
                    base_a,
                ));
                assert(out_ids@.push(ids@[i as int]) =~= ids@.take(i + 1));
            }
            out_ids.push(ids[i]);
            if i == 0 {
                proof {
                    assert(note@ == chain_notes(idv, segv, author, base_n)[0]);
                }
                root = Some(note);
            }
            i += 1;
        }
        let root_note = match root {
            Some(note) => note,
            None => {
                proof {
                    assert(false);
                }
                return Err(EngineError::StorageError);
            },
        };
        proof {
            assert(idv.take(n as int) =~= idv);
            assert(segv.take(n as int) =~= segv);
            assert(ids@.take(n as int) =~= ids@);
        }
        Ok((root_note, out_ids))
    }

    /// Creates a new version chain for the target note from the given fresh
    /// identifiers, inside one atomic step.
    ///
    /// The steps: resolve the head of the target's chain by walking its
    /// prev side to the end; refuse with `InvalidInput` if the head is the
    /// account-bootstrap note, which can never be versioned; create the
    /// segments as a chain; and link the head to the new chain's root with
    /// a conditional `version` edge, refusing with `VersionConflict` if a
    /// version edge already leaves the head — the condition is judged, as
    /// the conditional insert does, before the head's own existence.  Any
    /// failing step aborts the whole operation: the store is left exactly
    /// as it was, and none of the segments become visible.
    pub fn create_note_version_chain_with_ids(
        &mut self,
        target: NoteId,
        ids: &Vec<NoteId>,
        segments: &Vec<Vec<u8>>,
        author: u128,
        account_note_id: NoteId,
    ) -> (r: Result<(Note, Vec<NoteId>), EngineError>)
        requires
            old(self).wf(),
            ids@.len() == segments@.len(),
            forall|i: int| 0 <= i < segments@.len() ==> (#[trigger] segments@[i])@.len() <= 1024,
        ensures
            final(self).wf(),
            r is Err ==> final(self)@ == old(self)@,
            ({
                let idv = ids@.map_values(|id: NoteId| id@);
                let segv = segments@.map_values(|v: Vec<u8>| v@);
                let head = version_head(old(self)@, target@);
                let lock_bad = head == account_note_id@;
                let empty = segv.len() == 0;
                let chain_bad = !chain_inputs_ok(old(self)@, idv, segv, account_note_id@);
                let conflict = has_version_from(old(self)@.assocs, head);
                let head_missing = !has_note(old(self)@.notes, head);
                &&& (r is Ok <==> !lock_bad && !empty && !chain_bad && !conflict && !head_missing)
                &&& (r is Err ==> r->Err_0 == (if lock_bad || empty {
                    EngineError::InvalidInput
                } else if chain_bad {
                    EngineError::StorageError
                } else if conflict {
                    EngineError::VersionConflict
                } else {
                    EngineError::StorageError
                }))
                &&& (r is Ok ==> {
                    &&& final(self)@.notes =~= old(self)@.notes + chain_notes(
                        idv,
                        segv,
                        author,
                        old(self)@.notes.len() as nat,
                    )
                    &&& final(self)@.assocs =~= old(self)@.assocs + chain_edges(
                        idv,
                        account_note_id@,
                        old(self)@.assocs.len() as nat,
                    ).push(
                        AssociationV {
                            kind: AssociationKind::Version,
                            from_id: head,
                            to_id: idv[0],
                            created_at: (old(self)@.assocs.len() + idv.len()) as nat,
                        },
                    )
                    &&& r->Ok_0.0@ == chain_notes(
                        idv,
                        segv,
                        author,
                        old(self)@.notes.len() as nat,
                    )[0]
                    &&& r->Ok_0.1@ == ids@
                })
            }),
    {
        let ghost idv = ids@.map_values(|id: NoteId| id@);
        let ghost segv = segments@.map_values(|v: Vec<u8>| v@);
        let ghost base_n = old(self)@.notes.len() as nat;
        let ghost base_a = old(self)@.assocs.len() as nat;
        let prev = walk(self, &target, Direction::Prev);
        let head_id: NoteId = if prev.len() == 0 {
            target
        } else {
            prev[prev.len() - 1]
        };
        proof {
            let w = walk_from(
                self@.assocs,
                Set::empty().insert(target@),
                target@,
                Direction::Prev,
            );
            if prev@.len() > 0 {
                assert(prev@.map_values(|x: NoteId| x@).last() == w.last());
                assert(prev@.map_values(|x: NoteId| x@)[prev@.len() - 1] == prev@[prev@.len()
                    - 1]@);
            }
            assert(head_id@ == version_head(old(self)@, target@));
        }
        if head_id.eq_id(&account_note_id) {
            return Err(EngineError::InvalidInput);
        }
        if segments.len() == 0 {
            return Err(EngineError::InvalidInput);
        }
        proof {
            assert forall|i: int| 0 <= i < idv.len() implies #[trigger] idv[i] == ids@[i]@ by {}
        }
        if !ids_distinct(ids) {
            return Err(EngineError::StorageError);
        }
        if !self.ids_fresh(ids) {
            proof {
                assert(exists|j: int| 0 <= j < ids@.len() && has_note(self@.notes, (ids@[j])@));
                let j = choose|j: int|
                    0 <= j < ids@.len() && has_note(self@.notes, (ids@[j])@);
                assert(idv[j] == ids@[j]@);
                assert(has_note(old(self)@.notes, idv[j]));
            }
            return Err(EngineError::StorageError);
        }
        if !self.contains_note(&account_note_id) {
            return Err(EngineError::StorageError);
        }
        if self.has_version_edge_from(&head_id) {
            return Err(EngineError::VersionConflict);
        }
        if !self.contains_note(&head_id) {
            return Err(EngineError::StorageError);
        }
        let ghost mid = self@;
        let (root, out_ids) = match self.create_note_chain_with_ids(
            ids,
            segments,
            author,
            account_note_id,
        ) {
            Ok(pair) => pair,
            Err(_) => {
                proof {
                    assert(false);
                }
                return Err(EngineError::StorageError);
            },
        };
        proof {
            let ext = chain_notes(idv, segv, author, base_n);
            lemma_has_note_extend(old(self)@.notes, ext, head_id@);
            assert(has_note(self@.notes, idv[0])) by {
                assert(self@.notes[base_n as int].id == idv[0]);
            }
            if head_id@ == idv[0] {
                assert(has_note(old(self)@.notes, idv[0]));
            }
            lemma_version_from_extend(
                old(self)@.assocs,
                chain_edges(idv, account_note_id@, base_a),
                head_id@,
            );
        }
        let ghost pre_link = self@;
        match self.create_association(AssociationKind::Version, head_id, ids[0]) {
            Ok(_) => {},
            Err(_) => {
                proof {
                    assert(false);
                }
                return Err(EngineError::StorageError);
            },
        }
        proof {
            assert(self@.assocs =~= old(self)@.assocs + chain_edges(
                idv,
                account_note_id@,
                base_a,
            ).push(
                AssociationV {
                    kind: AssociationKind::Version,
                    from_id: head_id@,
                    to_id: idv[0],
                    created_at: (base_a + idv.len()) as nat,
                },
            ));
        }
        Ok((root, out_ids))
    }

    /// Creates a new version chain for the target note from freshly
    /// generated random identifiers.
    ///
    /// The identifiers come from the process's random source, so success
    /// cannot be promised; whatever came back, either the version chain was
    /// built from the returned identifiers exactly as
    /// [`Self::create_note_version_chain_with_ids`] builds it, or nothing
    /// was written at all.  A head locked as an account-bootstrap note or
    /// an empty segment list is refused before any write, and a version
    /// conflict on the resolved head leaves no orphaned segments behind.
    pub fn create_note_version_chain(
        &mut self,
        target: NoteId,
        segments: &Vec<Vec<u8>>,
        author: u128,
        account_note_id: NoteId,
    ) -> (r: Result<(Note, Vec<NoteId>), EngineError>)
        requires
            old(self).wf(),
            forall|i: int| 0 <= i < segments@.len() ==> (#[trigger] segments@[i])@.len() <= 1024,
        ensures
            final(self).wf(),
            r is Err ==> final(self)@ == old(self)@,
            ({
                let segv = segments@.map_values(|v: Vec<u8>| v@);
                let head = version_head(old(self)@, target@);
                let lock_bad = head == account_note_id@;
                let empty = segv.len() == 0;
                &&& (r is Err ==> (r->Err_0 == EngineError::InvalidInput <==> lock_bad || empty))
                &&& (r is Err && r->Err_0 == EngineError::VersionConflict ==> has_version_from(
                    old(self)@.assocs,
                    head,
                ))
                &&& (r is Ok ==> {
                    let idv = r->Ok_0.1@.map_values(|id: NoteId| id@);
                    &&& !lock_bad
                    &&& chain_inputs_ok(old(self)@, idv, segv, account_note_id@)
                    &&& has_note(old(self)@.notes, head)
                    &&& !has_version_from(old(self)@.assocs, head)
                    &&& final(self)@.notes =~= old(self)@.notes + chain_notes(
                        idv,
                        segv,
                        author,
                        old(self)@.notes.len() as nat,
                    )
                    &&& final(self)@.assocs =~= old(self)@.assocs + chain_edges(
                        idv,
                        account_note_id@,
                        old(self)@.assocs.len() as nat,
                    ).push(
                        AssociationV {
                            kind: AssociationKind::Version,
                            from_id: head,
                            to_id: idv[0],
                            created_at: (old(self)@.assocs.len() + idv.len()) as nat,
                        },
                    )
                    &&& r->Ok_0.0@ == chain_notes(
                        idv,
                        segv,
                        author,
                        old(self)@.notes.len() as nat,
                    )[0]
                })
            }),
    {
        let mut ids: Vec<NoteId> = Vec::new();
        let n = segments.len();
        let mut i: usize = 0;
        while i < n
            invariant
                0 <= i <= n,
                ids@.len() == i,
            decreases n - i,
        {
            ids.push(generate_note_id());
            i += 1;
        }
        self.create_note_version_chain_with_ids(target, &ids, segments, author, account_note_id)
    }

    /// Creates a note chain from freshly generated random identifiers.
    ///
    /// The identifiers come from the process's random source, so success
    /// cannot be promised: whatever came back, either the chain was built
    /// from the returned identifiers exactly as
    /// [`Self::create_note_chain_with_ids`] builds it and nothing else
    /// changed, or nothing was written at all.
    pub fn create_note_chain(
        &mut self,
        segments: &Vec<Vec<u8>>,
        author: u128,
        account_note_id: NoteId,
    ) -> (r: Result<(Note, Vec<NoteId>), EngineError>)
        requires
            old(self).wf(),
            forall|i: int| 0 <= i < segments@.len() ==> (#[trigger] segments@[i])@.len() <= 1024,
        ensures
            final(self).wf(),
            r is Ok ==> ({
                let idv = r->Ok_0.1@.map_values(|id: NoteId| id@);
                let segv = segments@.map_values(|v: Vec<u8>| v@);
                &&& chain_inputs_ok(old(self)@, idv, segv, account_note_id@)
                &&& final(self)@.notes =~= old(self)@.notes + chain_notes(
                    idv,
                    segv,
                    author,
                    old(self)@.notes.len() as nat,
                )
                &&& final(self)@.assocs =~= old(self)@.assocs + chain_edges(
                    idv,
                    account_note_id@,
                    old(self)@.assocs.len() as nat,
                )
                &&& r->Ok_0.0@ == chain_notes(idv, segv, author, old(self)@.notes.len() as nat)[0]
            }),
            r is Err ==> final(self)@ == old(self)@,
            r is Err ==> (r->Err_0 == EngineError::InvalidInput <==> segments@.len() == 0),
            r is Err && segments@.len() > 0 ==> r->Err_0 == EngineError::StorageError,
    {
        let mut ids: Vec<NoteId> = Vec::new();
        let n = segments.len();
        let mut i: usize = 0;
        while i < n
            invariant
                0 <= i <= n,
                ids@.len() == i,
            decreases n - i,
        {
            ids.push(generate_note_id());
            i += 1;
        }
        self.create_note_chain_with_ids(&ids, segments, author, account_note_id)
    }
}

} // verus!
