//! The note and association store: immutable note rows, typed directed
//! edges, and the conditional insert that keeps at most one version edge
//! per note.
//!
//! The store's logical time is its row count: every inserted row is stamped
//! with the number of rows of its table at insertion, so creation order and
//! creation time coincide and `listTouching`'s newest-first order is the
//! reverse of insertion order.

use vstd::prelude::*;
use crate::domain::{Association, AssociationInsertError, AssociationKind, AssociationV, EngineError, Note, NoteV};
use crate::ids::NoteId;

verus! {

/// The mathematical state of the store: its note rows and its edge rows,
/// in insertion order.
#[verifier::ext_equal]
pub ghost struct StoreV {
    pub notes: Seq<NoteV>,
    pub assocs: Seq<AssociationV>,
}

/// Whether a note with the given identifier exists.
pub open spec fn has_note(notes: Seq<NoteV>, id: Seq<u8>) -> bool {
    exists|i: int| 0 <= i < notes.len() && (#[trigger] notes[i]).id == id
}

/// The note with the given identifier; meaningful when one exists and note
/// identifiers are unique.
pub open spec fn note_at(notes: Seq<NoteV>, id: Seq<u8>) -> NoteV
    recommends
        has_note(notes, id),
{
    notes[choose|i: int| 0 <= i < notes.len() && (#[trigger] notes[i]).id == id]
}

/// Whether the note is an endpoint of the association.
pub open spec fn touches(a: AssociationV, id: Seq<u8>) -> bool {
    a.from_id == id || a.to_id == id
}

/// The associations touching a note, oldest first.
pub open spec fn touching(assocs: Seq<AssociationV>, id: Seq<u8>) -> Seq<AssociationV> {
    assocs.filter(|a: AssociationV| touches(a, id))
}

/// Whether some version edge leaves the given note.
pub open spec fn has_version_from(assocs: Seq<AssociationV>, from: Seq<u8>) -> bool {
    exists|i: int|
        0 <= i < assocs.len() && (#[trigger] assocs[i]).kind == AssociationKind::Version
            && assocs[i].from_id == from
}

/// Whether a version edge connects the given pair.
pub open spec fn contains_version_edge(
    assocs: Seq<AssociationV>,
    from: Seq<u8>,
    to: Seq<u8>,
) -> bool {
    exists|i: int|
        0 <= i < assocs.len() && (#[trigger] assocs[i]).kind == AssociationKind::Version
            && assocs[i].from_id == from && assocs[i].to_id == to
}

/// Well-formedness of the note table: rows stamped with their position,
/// identifiers 32 bytes long and unique, contents within the size bound.
pub open spec fn wf_notes(notes: Seq<NoteV>) -> bool {
    &&& forall|i: int| 0 <= i < notes.len() ==> (#[trigger] notes[i]).created_at == i
    &&& forall|i: int| 0 <= i < notes.len() ==> (#[trigger] notes[i]).id.len() == 32
    &&& forall|i: int| 0 <= i < notes.len() ==> (#[trigger] notes[i]).value.len() <= 1024
    &&& forall|i: int, j: int|
        0 <= i < j < notes.len() ==> (#[trigger] notes[i]).id != (#[trigger] notes[j]).id
}

/// Well-formedness of the whole store: a well-formed note table, edge rows
/// stamped with their position, no self-loops, both endpoints of every edge
/// existing notes, and at most one version edge per `from` note.
pub open spec fn wf_store(s: StoreV) -> bool {
    &&& wf_notes(s.notes)
    &&& forall|i: int| 0 <= i < s.assocs.len() ==> (#[trigger] s.assocs[i]).created_at == i
    &&& forall|i: int|
        0 <= i < s.assocs.len() ==> (#[trigger] s.assocs[i]).from_id != s.assocs[i].to_id
    &&& forall|i: int|
        0 <= i < s.assocs.len() ==> has_note(s.notes, (#[trigger] s.assocs[i]).from_id) && has_note(
            s.notes,
            s.assocs[i].to_id,
        )
    &&& forall|i: int, j: int|
        0 <= i < j < s.assocs.len() && (#[trigger] s.assocs[i]).kind == AssociationKind::Version
            && (#[trigger] s.assocs[j]).kind == AssociationKind::Version ==> s.assocs[i].from_id
            != s.assocs[j].from_id
}

/// The engine's store: note rows and edge rows, each immutable once written.
pub struct GraphStore {
    notes: Vec<Note>,
    assocs: Vec<Association>,
}

impl View for GraphStore {
    type V = StoreV;

    closed spec fn view(&self) -> StoreV {
        StoreV {
            notes: self.notes@.map_values(|n: Note| n@),
            assocs: self.assocs@.map_values(|a: Association| a@),
        }
    }
}

impl GraphStore {
    pub open spec fn wf(&self) -> bool {
        wf_store(self@)
    }

    /// An empty store.
    pub fn new() -> (r: GraphStore)
        ensures
            r.wf(),
            r@.notes =~= Seq::<NoteV>::empty(),
            r@.assocs =~= Seq::<AssociationV>::empty(),
    {
        GraphStore { notes: Vec::new(), assocs: Vec::new() }
    }

    /// How many notes the store holds.
    pub fn note_count(&self) -> (r: usize)
        ensures
            r == self@.notes.len(),
    {
        self.notes.len()
    }

    /// How many associations the store holds.
    pub fn association_count(&self) -> (r: usize)
        ensures
            r == self@.assocs.len(),
    {
        self.assocs.len()
    }

    /// Whether a note with this identifier exists.
    pub fn contains_note(&self, id: &NoteId) -> (r: bool)
        ensures
            r == has_note(self@.notes, id@),
    {
        let n = self.notes.len();
        let mut i: usize = 0;
        while i < n
            invariant
                0 <= i <= n,
                n == self.notes@.len(),
                forall|j: int| 0 <= j < i ==> (#[trigger] self@.notes[j]).id != id@,
            decreases n - i,
        {
            if self.notes[i].id.eq_id(id) {
                proof {
                    assert(self@.notes[i as int].id == id@);
                }
                return true;
            }
            i += 1;
        }
        false
    }

    /// Loads a note by identifier; `None` when no such note exists.
    pub fn find_note(&self, id: &NoteId) -> (r: Option<Note>)
        requires
            self.wf(),
        ensures
            r is Some <==> has_note(self@.notes, id@),
            r is Some ==> r->Some_0@ == note_at(self@.notes, id@),
    {
        let n = self.notes.len();
        let mut i: usize = 0;
        while i < n
            invariant
                0 <= i <= n,
                n == self.notes@.len(),
                self.wf(),
                forall|j: int| 0 <= j < i ==> (#[trigger] self@.notes[j]).id != id@,
            decreases n - i,
        {
            if self.notes[i].id.eq_id(id) {
                proof {
                    assert(self@.notes[i as int].id == id@);
                    let k = choose|k: int|
                        0 <= k < self@.notes.len() && (#[trigger] self@.notes[k]).id == id@;
                    if k != i {
                        assert(self@.notes[k].id != self@.notes[i as int].id);
                    }
                }
                return Some(self.notes[i].duplicate());
            }
            i += 1;
        }
        None
    }

    /// The stored notes whose identifier occurs in the given list, each
    /// such note exactly once, in first-occurrence order; identifiers
    /// without a note, and repeated identifiers, add nothing.
    pub fn find_notes_by_ids(&self, ids: &Vec<NoteId>) -> (r: Vec<Note>)
        requires
            self.wf(),
        ensures
            r@.map_values(|n: Note| n@) =~= found_notes(
                self@.notes,
                first_occurrences(ids@.map_values(|id: NoteId| id@)),
            ),
    {
        let ghost id_views = ids@.map_values(|id: NoteId| id@);
        let mut out: Vec<Note> = Vec::new();
        let mut i: usize = 0;
        while i < ids.len()
            invariant
                0 <= i <= ids@.len(),
                self.wf(),
                id_views == ids@.map_values(|id: NoteId| id@),
                out@.map_values(|n: Note| n@) =~= found_notes(
                    self@.notes,
                    first_occurrences(id_views.take(i as int)),
                ),
            decreases ids@.len() - i,
        {
            proof {
                assert(id_views.take(i + 1).drop_last() =~= id_views.take(i as int));
                assert(id_views.take(i + 1).last() == ids@[i as int]@);
            }
            let mut given_before = false;
            let mut j: usize = 0;
            while j < i
                invariant
                    0 <= j <= i < ids@.len(),
                    id_views == ids@.map_values(|id: NoteId| id@),
                    given_before <==> exists|k: int| 0 <= k < j && #[trigger] id_views[k]
                        == id_views[i as int],
                decreases i - j,
            {
                if ids[j].eq_id(&ids[i]) {
                    proof {
                        assert(id_views[j as int] == id_views[i as int]);
                    }
                    given_before = true;
                }
                j += 1;
            }
            proof {
                assert(given_before == id_views.take(i as int).contains(id_views[i as int])) by {
                    if id_views.take(i as int).contains(id_views[i as int]) {
                        let k = choose|k: int|
                            0 <= k < i && #[trigger] id_views.take(i as int)[k] == id_views[i as int];
                        assert(id_views[k] == id_views[i as int]);
                    }
                    if given_before {
                        let k = choose|k: int|
                            0 <= k < i && #[trigger] id_views[k] == id_views[i as int];
                        assert(id_views.take(i as int)[k] == id_views[i as int]);
                    }
                }
            }
            if !given_before {
                proof {
                    assert(first_occurrences(id_views.take(i + 1)) == first_occurrences(
                        id_views.take(i as int),
                    ).push(id_views[i as int]));
                    assert(first_occurrences(id_views.take(i as int)).push(
                        id_views[i as int],
                    ).drop_last() =~= first_occurrences(id_views.take(i as int)));
                }
                match self.find_note(&ids[i]) {
                    Some(note) => {
                        out.push(note);
                    },
                    None => {},
                }
                proof {
                    assert(out@.map_values(|n: Note| n@) =~= found_notes(
                        self@.notes,
                        first_occurrences(id_views.take(i + 1)),
                    ));
                }
            } else {
                proof {
                    assert(first_occurrences(id_views.take(i + 1)) == first_occurrences(
                        id_views.take(i as int),
                    ));
                }
            }
            i += 1;
        }
        proof {
            assert(id_views.take(ids@.len() as int) =~= id_views);
        }
        out
    }

    /// Whether some version edge already leaves this note.
    pub fn has_version_edge_from(&self, from: &NoteId) -> (r: bool)
        ensures
            r == has_version_from(self@.assocs, from@),
    {
        let n = self.assocs.len();
        let mut i: usize = 0;
        while i < n
            invariant
                0 <= i <= n,
                n == self.assocs@.len(),
                forall|j: int|
                    0 <= j < i ==> !((#[trigger] self@.assocs[j]).kind == AssociationKind::Version
                        && self@.assocs[j].from_id == from@),
            decreases n - i,
        {
            let a = &self.assocs[i];
            if matches!(a.kind, AssociationKind::Version) && a.from_id.eq_id(from) {
                proof {
                    assert(self@.assocs[i as int].kind == AssociationKind::Version
                        && self@.assocs[i as int].from_id == from@);
                }
                return true;
            }
            i += 1;
        }
        false
    }

    /// Appends an edge row; the caller has already established every
    /// store invariant the new row must satisfy.
    fn push_assoc(&mut self, kind: AssociationKind, from_id: NoteId, to_id: NoteId) -> (r:
        Association)
        requires
            old(self).wf(),
            from_id@ != to_id@,
            has_note(old(self)@.notes, from_id@),
            has_note(old(self)@.notes, to_id@),
            kind == AssociationKind::Version ==> !has_version_from(old(self)@.assocs, from_id@),
        ensures
            final(self).wf(),
            r@ == (AssociationV {
                kind,
                from_id: from_id@,
                to_id: to_id@,
                created_at: old(self)@.assocs.len() as nat,
            }),
            final(self)@.assocs =~= old(self)@.assocs.push(r@),
            final(self)@.notes =~= old(self)@.notes,
    {
        let created_at = self.assocs.len() as u64;
        let assoc = Association { kind, from_id, to_id, created_at };
        self.assocs.push(assoc);
        proof {
            let sv = self@;
            let ov = old(self)@;
            assert(sv.notes =~= ov.notes);
            assert(sv.assocs =~= ov.assocs.push(assoc@));
            assert forall|i: int, j: int|
                0 <= i < j < sv.assocs.len() && (#[trigger] sv.assocs[i]).kind
                    == AssociationKind::Version && (#[trigger] sv.assocs[j]).kind
                    == AssociationKind::Version implies sv.assocs[i].from_id
                != sv.assocs[j].from_id by {
                if j == sv.assocs.len() - 1 {
                    if sv.assocs[i].from_id == from_id@ && sv.assocs[i].kind
                        == AssociationKind::Version {
                        assert(has_version_from(ov.assocs, from_id@));
                    }
                }
            }
        }
        assoc
    }

    /// The conditional insert behind version edges: writes the edge only if
    /// no version edge leaves `from_id` yet, else refuses and writes nothing.
    fn try_insert_version(&mut self, from_id: NoteId, to_id: NoteId) -> (r: Result<
        Association,
        AssociationInsertError,
    >)
        requires
            old(self).wf(),
            from_id@ != to_id@,
            has_note(old(self)@.notes, from_id@),
            has_note(old(self)@.notes, to_id@),
        ensures
            final(self).wf(),
            r is Ok <==> !has_version_from(old(self)@.assocs, from_id@),
            r is Ok ==> {
                &&& r->Ok_0@ == (AssociationV {
                    kind: AssociationKind::Version,
                    from_id: from_id@,
                    to_id: to_id@,
                    created_at: old(self)@.assocs.len() as nat,
                })
                &&& final(self)@.assocs =~= old(self)@.assocs.push(r->Ok_0@)
                &&& final(self)@.notes =~= old(self)@.notes
            },
            r is Err ==> final(self)@ == old(self)@ && r->Err_0
                == AssociationInsertError::VersionExists,
    {
        if self.has_version_edge_from(&from_id) {
            return Err(AssociationInsertError::VersionExists);
        }
        Ok(self.push_assoc(AssociationKind::Version, from_id, to_id))
    }

    /// Creates a typed edge between two existing notes.
    ///
    /// A `version` edge is written through a conditional insert, and the
    /// condition is judged before the row is attempted: if some version
    /// edge already leaves `from_id`, the call returns `VersionConflict`
    /// and writes nothing, even when an endpoint is missing.  Any other
    /// kind is written unconditionally.  A missing endpoint otherwise
    /// refuses the write with `StorageError`, as the store's referential
    /// integrity does.
    pub fn create_association(
        &mut self,
        kind: AssociationKind,
        from_id: NoteId,
        to_id: NoteId,
    ) -> (r: Result<Association, EngineError>)
        requires
            old(self).wf(),
            from_id@ != to_id@,
        ensures
            final(self).wf(),
            r is Ok <==> has_note(old(self)@.notes, from_id@) && has_note(
                old(self)@.notes,
                to_id@,
            ) && !(kind == AssociationKind::Version && has_version_from(
                old(self)@.assocs,
                from_id@,
            )),
            r is Ok ==> {
                &&& r->Ok_0@ == (AssociationV {
                    kind,
                    from_id: from_id@,
                    to_id: to_id@,
                    created_at: old(self)@.assocs.len() as nat,
                })
                &&& final(self)@.assocs =~= old(self)@.assocs.push(r->Ok_0@)
                &&& final(self)@.notes =~= old(self)@.notes
            },
            r is Err ==> final(self)@ == old(self)@,
            r is Err ==> (r->Err_0 == EngineError::VersionConflict <==> kind
                == AssociationKind::Version && has_version_from(old(self)@.assocs, from_id@)),
            r is Err && r->Err_0 != EngineError::VersionConflict ==> r->Err_0
                == EngineError::StorageError && !(has_note(old(self)@.notes, from_id@) && has_note(
                old(self)@.notes,
                to_id@,
            )),
    {
        if matches!(kind, AssociationKind::Version) && self.has_version_edge_from(&from_id) {
            return Err(EngineError::VersionConflict);
        }
        if !self.contains_note(&from_id) || !self.contains_note(&to_id) {
            return Err(EngineError::StorageError);
        }
        if matches!(kind, AssociationKind::Version) {
            match self.try_insert_version(from_id, to_id) {
                Ok(a) => Ok(a),
                Err(AssociationInsertError::VersionExists) => Err(EngineError::VersionConflict),
            }
        } else {
            Ok(self.push_assoc(kind, from_id, to_id))
        }
    }

    /// Creates a note row with the given identifier.  An identifier already
    /// in use refuses the write, as the store's key constraint does.
    pub fn create_note(&mut self, id: NoteId, value: Vec<u8>, author: u128) -> (r: Result<
        Note,
        EngineError,
    >)
        requires
            old(self).wf(),
            value@.len() <= 1024,
        ensures
            final(self).wf(),
            r is Ok <==> !has_note(old(self)@.notes, id@),
            r is Ok ==> {
                &&& r->Ok_0@ == (NoteV {
                    id: id@,
                    value: value@,
                    created_at: old(self)@.notes.len() as nat,
                    author,
                })
                &&& final(self)@.notes =~= old(self)@.notes.push(r->Ok_0@)
                &&& final(self)@.assocs =~= old(self)@.assocs
            },
            r is Err ==> final(self)@ == old(self)@ && r->Err_0 == EngineError::StorageError,
    {
        if self.contains_note(&id) {
            return Err(EngineError::StorageError);
        }
        let created_at = self.notes.len() as u64;
        let note = Note { id, value, created_at, author };
        let out = note.duplicate();
        self.notes.push(note);
        proof {
            let sv = self@;
            let ov = old(self)@;
            assert(sv.assocs =~= ov.assocs);
            assert(sv.notes =~= ov.notes.push(out@));
            assert forall|i: int|
                0 <= i < sv.assocs.len() implies has_note(
                sv.notes,
                (#[trigger] sv.assocs[i]).from_id,
            ) && has_note(sv.notes, sv.assocs[i].to_id) by {
                assert(has_note(ov.notes, sv.assocs[i].from_id));
                assert(has_note(ov.notes, sv.assocs[i].to_id));
                let kf = choose|k: int|
                    0 <= k < ov.notes.len() && (#[trigger] ov.notes[k]).id == sv.assocs[i].from_id;
                assert(sv.notes[kf].id == sv.assocs[i].from_id);
                let kt = choose|k: int|
                    0 <= k < ov.notes.len() && (#[trigger] ov.notes[k]).id == sv.assocs[i].to_id;
                assert(sv.notes[kt].id == sv.assocs[i].to_id);
            }
        }
        Ok(out)
    }

    /// Every association touching the note, newest first: the reverse of
    /// the touching rows in creation order, no more and no fewer.
    pub fn list_associations(&self, note_id: &NoteId) -> (r: Vec<Association>)
        requires
            self.wf(),
        ensures
            r@.map_values(|a: Association| a@) =~= touching(self@.assocs, note_id@).reverse(),
    {
        let n = self.assocs.len();
        let mut fwd: Vec<Association> = Vec::new();
        let mut i: usize = 0;
        while i < n
            invariant
                0 <= i <= n,
                n == self.assocs@.len(),
                fwd@.map_values(|a: Association| a@) =~= self@.assocs.take(i as int).filter(
                    |a: AssociationV| touches(a, note_id@),
                ),
            decreases n - i,
        {
            let a = self.assocs[i];
            proof {
                assert(self@.assocs.take(i + 1).drop_last() =~= self@.assocs.take(i as int));
                assert(self@.assocs.take(i + 1).last() == a@);
            }
            let ghost fwd_before = fwd@.map_values(|a: Association| a@);
            if a.from_id.eq_id(note_id) || a.to_id.eq_id(note_id) {
                fwd.push(a);
                proof {
                    reveal(Seq::filter);
                    assert(touches(a@, note_id@));
                    assert(fwd@.map_values(|a: Association| a@) =~= fwd_before.push(a@));
                    assert(self@.assocs.take(i + 1).filter(|a: AssociationV| touches(a, note_id@))
                        == self@.assocs.take(i as int).filter(
                        |a: AssociationV| touches(a, note_id@),
                    ).push(a@));
                }
            } else {
                proof {
                    reveal(Seq::filter);
                    assert(!touches(a@, note_id@));
                    assert(self@.assocs.take(i + 1).filter(|a: AssociationV| touches(a, note_id@))
                        == self@.assocs.take(i as int).filter(
                        |a: AssociationV| touches(a, note_id@),
                    ));
                }
            }
            i += 1;
        }
        proof {
            assert(self@.assocs.take(n as int) =~= self@.assocs);
        }
        let m = fwd.len();
        let mut out: Vec<Association> = Vec::new();
        let mut j: usize = m;
        while j > 0
            invariant
                0 <= j <= m,
                m == fwd@.len(),
                out@.len() == m - j,
                forall|k: int| 0 <= k < out@.len() ==> out@[k] == fwd@[m - 1 - k],
            decreases j,
        {
            j -= 1;
            out.push(fwd[j]);
        }
        proof {
            assert(out@.map_values(|a: Association| a@) =~= fwd@.map_values(
                |a: Association| a@,
            ).reverse());
        }
        out
    }
}

/// The identifiers with repetitions dropped: each identifier once, at its
/// first occurrence, in order.
pub open spec fn first_occurrences(ids: Seq<Seq<u8>>) -> Seq<Seq<u8>>
    decreases ids.len(),
{
    if ids.len() == 0 {
        Seq::empty()
    } else if ids.drop_last().contains(ids.last()) {
        first_occurrences(ids.drop_last())
    } else {
        first_occurrences(ids.drop_last()).push(ids.last())
    }
}

/// The notes found for a sequence of identifiers, in identifier order,
/// skipping identifiers without a note.
pub open spec fn found_notes(notes: Seq<NoteV>, ids: Seq<Seq<u8>>) -> Seq<NoteV> {
    ids.filter_map(
        |id: Seq<u8>|
            if has_note(notes, id) {
                Some(note_at(notes, id))
            } else {
                None
            },
    )
}

/// `listTouching` is exact: an association appears in its result if and
/// only if the store holds it and the note is one of its endpoints.
pub proof fn lemma_touching_exact(assocs: Seq<AssociationV>, id: Seq<u8>, a: AssociationV)
    ensures
        touching(assocs, id).reverse().contains(a) <==> assocs.contains(a) && touches(a, id),
{
    broadcast use vstd::seq_lib::group_filter_ensures;

    let pred = |x: AssociationV| touches(x, id);
    let f = touching(assocs, id);
    assert(forall|k: int| 0 <= k < f.len() ==> f.reverse()[k] == f[f.len() - 1 - k]);
    assert(f.reverse().contains(a) <==> f.contains(a)) by {
        if f.contains(a) {
            let k = choose|k: int| 0 <= k < f.len() && f[k] == a;
            assert(f.reverse()[f.len() - 1 - k] == a);
        }
        if f.reverse().contains(a) {
            let k = choose|k: int| 0 <= k < f.reverse().len() && f.reverse()[k] == a;
            assert(f[f.len() - 1 - k] == a);
        }
    }
    if f.contains(a) {
        let k = choose|k: int| 0 <= k < f.len() && f[k] == a;
        assert(pred(f[k]));
        assert(f.contains(f[k]));
        seq_filter_contains_implies_seq_contains(assocs, pred, a);
    }
    if assocs.contains(a) && touches(a, id) {
        let i = choose|i: int| 0 <= i < assocs.len() && assocs[i] == a;
        assert(pred(assocs[i]));
        assert(assocs.filter(pred).contains(assocs[i]));
    }
}

/// An element of a filtered sequence comes from the sequence itself.
proof fn seq_filter_contains_implies_seq_contains(
    s: Seq<AssociationV>,
    pred: spec_fn(AssociationV) -> bool,
    a: AssociationV,
)
    requires
        s.filter(pred).contains(a),
    ensures
        s.contains(a),
    decreases s.len(),
{
    broadcast use vstd::seq_lib::group_filter_ensures;

    reveal(Seq::filter);
    if s.len() > 0 {
        if s.drop_last().filter(pred).contains(a) {
            seq_filter_contains_implies_seq_contains(s.drop_last(), pred, a);
            let i = choose|i: int| 0 <= i < s.drop_last().len() && s.drop_last()[i] == a;
            assert(s[i] == a);
        } else {
            assert(s[s.len() - 1] == a);
        }
    }
}

/// One version edge per note: once a version edge from `e.from_id` is in
/// the store, a later conditional version insert from the same note finds
/// it, and if the store held no version edge from that note before, the
/// only version edge it now holds from that note is `e` itself.
pub proof fn lemma_second_version_insert_conflicts(
    s0: Seq<AssociationV>,
    e: AssociationV,
    c: Seq<u8>,
)
    requires
        !has_version_from(s0, e.from_id),
        e.kind == AssociationKind::Version,
    ensures
        has_version_from(s0.push(e), e.from_id),
        c != e.to_id ==> !contains_version_edge(s0.push(e), e.from_id, c),
{
    let s1 = s0.push(e);
    assert(s1[s0.len() as int] == e);
    if c != e.to_id && contains_version_edge(s1, e.from_id, c) {
        let i = choose|i: int|
            0 <= i < s1.len() && (#[trigger] s1[i]).kind == AssociationKind::Version
                && s1[i].from_id == e.from_id && s1[i].to_id == c;
        assert(i < s0.len());
        assert(s0[i] == s1[i]);
        assert(has_version_from(s0, e.from_id));
    }
}

} // verus!
