//! The related-notes aggregator: loads a note together with every note
//! connected to it by any edge, and the chain view of a note, applying the
//! cross-author visibility rules.

use vstd::prelude::*;
use crate::domain::{Association, AssociationV, EngineError, Note, NoteV};
use crate::ids::NoteId;
use crate::store::{has_note, note_at, touching, GraphStore};
use crate::walker::{walk, walk_from};
use crate::Direction;

verus! {

/// The endpoint of an association that is not the center note.
pub open spec fn other_id(a: AssociationV, center: Seq<u8>) -> Seq<u8> {
    if a.from_id == center {
        a.to_id
    } else {
        a.from_id
    }
}

/// Whether an association to a note by the given author may be shown next
/// to the center note: unconditionally between notes of one author, and
/// only for the cross-author-allowed kinds otherwise.
pub open spec fn entry_visible(a: AssociationV, center_author: u128, other_author: u128) -> bool {
    center_author == other_author || a.kind.spec_allows_cross_author()
}

/// What one association contributes to the related list: its other note,
/// when that note exists and the pair is visible.
pub open spec fn entry_of(assocs_entry: AssociationV, notes: Seq<NoteV>, center: NoteV) -> Option<
    (AssociationV, NoteV),
> {
    let oid = other_id(assocs_entry, center.id);
    if has_note(notes, oid) && entry_visible(
        assocs_entry,
        center.author,
        note_at(notes, oid).author,
    ) {
        Some((assocs_entry, note_at(notes, oid)))
    } else {
        None
    }
}

/// The related list for a center note: each association in the given order,
/// paired with its resolved other note, dropping associations whose other
/// note is missing or not visible.  Entries are keyed by association: two
/// associations between the same pair of notes give two entries.
pub open spec fn related_of(
    assocs: Seq<AssociationV>,
    notes: Seq<NoteV>,
    center: NoteV,
) -> Seq<(AssociationV, NoteV)> {
    assocs.filter_map(|a: AssociationV| entry_of(a, notes, center))
}

/// One row of the related list: an association touching the center, and
/// the note at its other end.
pub struct RelatedEntry {
    pub association: Association,
    pub note: Note,
}

impl View for RelatedEntry {
    type V = (AssociationV, NoteV);

    open spec fn view(&self) -> (AssociationV, NoteV) {
        (self.association@, self.note@)
    }
}

/// A note and everything connected to it that the caller may see.
pub struct RelatedResponse {
    pub center: Note,
    pub related: Vec<RelatedEntry>,
}

/// A note in its chain: the notes before it, oldest first, and the notes
/// after it, nearest first, both cut at the first break or author change.
pub struct NoteChain {
    pub center: Note,
    pub prev: Vec<Note>,
    pub next: Vec<Note>,
}

/// Loads the center note and every note connected to it by any edge,
/// newest edge first, applying the cross-author visibility rules.
pub fn fetch_related(store: &GraphStore, note_id: &NoteId) -> (r: Result<
    RelatedResponse,
    EngineError,
>)
    requires
        store.wf(),
    ensures
        r is Ok <==> has_note(store@.notes, note_id@),
        r is Err ==> r->Err_0 == EngineError::NotFound,
        r is Ok ==> r->Ok_0.center@ == note_at(store@.notes, note_id@),
        r is Ok ==> r->Ok_0.related@.map_values(|e: RelatedEntry| e@) =~= related_of(
            touching(store@.assocs, note_id@).reverse(),
            store@.notes,
            note_at(store@.notes, note_id@),
        ),
{
    let center = match store.find_note(note_id) {
        Some(center) => center,
        None => {
            return Err(EngineError::NotFound);
        },
    };
    let assocs = store.list_associations(note_id);
    let ghost avs = assocs@.map_values(|a: Association| a@);
    let ghost f = |a: AssociationV| entry_of(a, store@.notes, center@);
    let mut related: Vec<RelatedEntry> = Vec::new();
    let n = assocs.len();
    let mut i: usize = 0;
    while i < n
        invariant
            0 <= i <= n,
            n == assocs@.len(),
            store.wf(),
            avs == assocs@.map_values(|a: Association| a@),
            f == (|a: AssociationV| entry_of(a, store@.notes, center@)),
            center@ == note_at(store@.notes, note_id@),
            related@.map_values(|e: RelatedEntry| e@) =~= avs.take(i as int).filter_map(f),
        decreases n - i,
    {
        let a = assocs[i];
        proof {
            avs.lemma_filter_map_take_succ(f, i as int);
            assert(avs[i as int] == a@);
        }
        let other = if a.from_id.eq_id(&center.id) {
            a.to_id
        } else {
            a.from_id
        };
        proof {
            assert(other@ == other_id(a@, center@.id));
        }
        let ghost before = related@.map_values(|e: RelatedEntry| e@);
        match store.find_note(&other) {
            Some(note) => {
                let visible = note.author == center.author || crate::domain::allows_cross_author(
                    a.kind,
                );
                if visible {
                    related.push(RelatedEntry { association: a, note });
                    proof {
                        assert(f(a@) == Some((a@, note_at(store@.notes, other@))));
                        assert(related@.map_values(|e: RelatedEntry| e@) =~= before.push(
                            (a@, note_at(store@.notes, other@)),
                        ));
                        assert(before.push((a@, note_at(store@.notes, other@))) =~= before + seq![
                            (a@, note_at(store@.notes, other@)),
                        ]);
                    }
                } else {
                    proof {
                        assert(f(a@) is None);
                    }
                }
            },
            None => {
                proof {
                    assert(f(a@) is None);
                }
            },
        }
        proof {
            assert(related@.map_values(|e: RelatedEntry| e@) =~= avs.take(i + 1).filter_map(f));
        }
        i += 1;
    }
    proof {
        assert(avs.take(n as int) =~= avs);
    }
    Ok(RelatedResponse { center, related })
}

/// The prefix of a walked id list that resolves to notes of the given
/// author: the chain is cut at the first missing note or author change —
/// a chain boundary is also an ownership boundary.
pub open spec fn collect_chain(ids: Seq<Seq<u8>>, notes: Seq<NoteV>, author: u128) -> Seq<NoteV>
    decreases ids.len(),
{
    if ids.len() == 0 {
        Seq::empty()
    } else if has_note(notes, ids[0]) && note_at(notes, ids[0]).author == author {
        seq![note_at(notes, ids[0])] + collect_chain(ids.drop_first(), notes, author)
    } else {
        Seq::empty()
    }
}

/// Resolves walked identifiers to notes, stopping at the first identifier
/// without a note or whose note has another author.
fn collect_chain_notes(store: &GraphStore, ids: &Vec<NoteId>, author: u128) -> (r: Vec<Note>)
    requires
        store.wf(),
    ensures
        r@.map_values(|n: Note| n@) =~= collect_chain(
            ids@.map_values(|id: NoteId| id@),
            store@.notes,
            author,
        ),
{
    let ghost idv = ids@.map_values(|id: NoteId| id@);
    let mut out: Vec<Note> = Vec::new();
    let n = ids.len();
    let mut i: usize = 0;
    proof {
        assert(idv.skip(0) =~= idv);
        assert(out@.map_values(|x: Note| x@) =~= Seq::<NoteV>::empty());
        assert(Seq::<NoteV>::empty() + collect_chain(idv, store@.notes, author) =~= collect_chain(
            idv,
            store@.notes,
            author,
        ));
    }
    while i < n
        invariant
            0 <= i <= n,
            n == ids@.len(),
            store.wf(),
            idv == ids@.map_values(|id: NoteId| id@),
            collect_chain(idv, store@.notes, author) =~= out@.map_values(|x: Note| x@)
                + collect_chain(idv.skip(i as int), store@.notes, author),
            out@.len() == i,
        decreases n - i,
    {
        proof {
            assert(idv.skip(i as int)[0] == idv[i as int]);
            assert(idv.skip(i as int).drop_first() =~= idv.skip(i + 1));
        }
        let note = match store.find_note(&ids[i]) {
            Some(note) => note,
            None => {
                proof {
                    assert(collect_chain(idv.skip(i as int), store@.notes, author)
                        =~= Seq::<NoteV>::empty());
                    assert(out@.map_values(|x: Note| x@) + Seq::<NoteV>::empty()
                        =~= out@.map_values(|x: Note| x@));
                }
                return out;
            },
        };
        if note.author != author {
            proof {
                assert(collect_chain(idv.skip(i as int), store@.notes, author) =~= Seq::<
                    NoteV,
                >::empty());
                assert(out@.map_values(|x: Note| x@) + Seq::<NoteV>::empty() =~= out@.map_values(
                    |x: Note| x@,
                ));
            }
            return out;
        }
        let ghost before = out@.map_values(|x: Note| x@);
        proof {
            assert(collect_chain(idv.skip(i as int), store@.notes, author) == seq![
                note_at(store@.notes, idv[i as int]),
            ] + collect_chain(idv.skip(i + 1), store@.notes, author));
        }
        out.push(note);
        proof {
            assert(out@.map_values(|x: Note| x@) =~= before.push(note_at(store@.notes, idv[i as int])));
            assert(before + (seq![note_at(store@.notes, idv[i as int])] + collect_chain(
                idv.skip(i + 1),
                store@.notes,
                author,
            )) =~= before.push(note_at(store@.notes, idv[i as int])) + collect_chain(
                idv.skip(i + 1),
                store@.notes,
                author,
            ));
        }
        i += 1;
    }
    proof {
        assert(idv.skip(n as int) =~= Seq::<Seq<u8>>::empty());
        assert(collect_chain(Seq::<Seq<u8>>::empty(), store@.notes, author) =~= Seq::<NoteV>::empty());
        assert(out@.map_values(|x: Note| x@) + Seq::<NoteV>::empty() =~= out@.map_values(
            |x: Note| x@,
        ));
    }
    out
}

/// Loads the center note and reconstructs its chain: `prev` holds the notes
/// before it, oldest first, `next` the notes after it, nearest first; each
/// side is truncated at the first note that is missing or whose author
/// differs from the center's.
pub fn fetch_chain(store: &GraphStore, note_id: &NoteId) -> (r: Result<NoteChain, EngineError>)
    requires
        store.wf(),
    ensures
        r is Ok <==> has_note(store@.notes, note_id@),
        r is Err ==> r->Err_0 == EngineError::NotFound,
        r is Ok ==> ({
            let center = note_at(store@.notes, note_id@);
            let prev_ids = walk_from(
                store@.assocs,
                Set::empty().insert(note_id@),
                note_id@,
                Direction::Prev,
            );
            let next_ids = walk_from(
                store@.assocs,
                Set::empty().insert(note_id@),
                note_id@,
                Direction::Next,
            );
            &&& r->Ok_0.center@ == center
            &&& r->Ok_0.prev@.map_values(|x: Note| x@) =~= collect_chain(
                prev_ids,
                store@.notes,
                center.author,
            ).reverse()
            &&& r->Ok_0.next@.map_values(|x: Note| x@) =~= collect_chain(
                next_ids,
                store@.notes,
                center.author,
            )
        }),
{
    let center = match store.find_note(note_id) {
        Some(center) => center,
        None => {
            return Err(EngineError::NotFound);
        },
    };
    let prev_ids = walk(store, note_id, Direction::Prev);
    let next_ids = walk(store, note_id, Direction::Next);
    let prev_fwd = collect_chain_notes(store, &prev_ids, center.author);
    let next = collect_chain_notes(store, &next_ids, center.author);
    let m = prev_fwd.len();
    let mut prev: Vec<Note> = Vec::new();
    let mut j: usize = m;
    while j > 0
        invariant
            0 <= j <= m,
            m == prev_fwd@.len(),
            prev@.len() == m - j,
            forall|k: int| 0 <= k < prev@.len() ==> (#[trigger] prev@[k])@ == prev_fwd@[m - 1 - k]@,
        decreases j,
    {
        j -= 1;
        let note = prev_fwd[j].duplicate();
        prev.push(note);
    }
    proof {
        assert(prev@.map_values(|x: Note| x@) =~= prev_fwd@.map_values(|x: Note| x@).reverse());
    }
    Ok(NoteChain { center, prev, next })
}

/// A note that no next or prev edge touches has an empty chain on both
/// sides: its chain view is just the note itself.
pub proof fn lemma_chain_of_unlinked_note(s: crate::store::StoreV, n: Seq<u8>, author: u128)
    requires
        forall|i: int|
            0 <= i < s.assocs.len() ==> !(((#[trigger] s.assocs[i]).kind
                == crate::domain::AssociationKind::Next || s.assocs[i].kind
                == crate::domain::AssociationKind::Prev) && crate::store::touches(s.assocs[i], n)),
    ensures
        collect_chain(
            walk_from(s.assocs, Set::empty().insert(n), n, Direction::Prev),
            s.notes,
            author,
        ).reverse() =~= Seq::<NoteV>::empty(),
        collect_chain(
            walk_from(s.assocs, Set::empty().insert(n), n, Direction::Next),
            s.notes,
            author,
        ) =~= Seq::<NoteV>::empty(),
{
    crate::walker::lemma_walk_unlinked(s.assocs, Set::empty().insert(n), n, Direction::Prev);
    crate::walker::lemma_walk_unlinked(s.assocs, Set::empty().insert(n), n, Direction::Next);
}

/// Entries are keyed by association identity: two distinct associations
/// connecting the same pair of notes both appear, each as its own entry.
pub proof fn lemma_parallel_edges_both_entries(
    assocs: Seq<AssociationV>,
    notes: Seq<NoteV>,
    center: NoteV,
    i: int,
    j: int,
)
    requires
        0 <= i < j < assocs.len(),
        entry_of(assocs[i], notes, center) is Some,
        entry_of(assocs[j], notes, center) is Some,
    ensures
        related_of(assocs, notes, center).contains(entry_of(assocs[i], notes, center)->Some_0),
        related_of(assocs, notes, center).contains(entry_of(assocs[j], notes, center)->Some_0),
        assocs[i] != assocs[j] ==> related_of(assocs, notes, center).len() >= 2,
{
    let f = |a: AssociationV| entry_of(a, notes, center);
    lemma_filter_map_keeps(assocs, f, i);
    lemma_filter_map_keeps(assocs, f, j);
    if assocs[i] != assocs[j] {
        let r = related_of(assocs, notes, center);
        let ei = f(assocs[i])->Some_0;
        let ej = f(assocs[j])->Some_0;
        assert(ei.0 == assocs[i] && ej.0 == assocs[j]);
        let ki = choose|k: int| 0 <= k < r.len() && r[k] == ei;
        let kj = choose|k: int| 0 <= k < r.len() && r[k] == ej;
        assert(ki != kj);
    }
}

/// An element that maps to `Some` appears in the mapped sequence.
proof fn lemma_filter_map_keeps(
    s: Seq<AssociationV>,
    f: spec_fn(AssociationV) -> Option<(AssociationV, NoteV)>,
    i: int,
)
    requires
        0 <= i < s.len(),
        f(s[i]) is Some,
    ensures
        s.filter_map(f).contains(f(s[i])->Some_0),
    decreases s.len(),
{
    if i == s.len() - 1 {
        assert(s.drop_last().filter_map(f) + seq![f(s[i])->Some_0] == s.filter_map(f));
        assert(s.filter_map(f)[s.filter_map(f).len() - 1] == f(s[i])->Some_0);
    } else {
        lemma_filter_map_keeps(s.drop_last(), f, i);
        assert(s.drop_last()[i] == s[i]);
        let r0 = s.drop_last().filter_map(f);
        let k = choose|k: int| 0 <= k < r0.len() && r0[k] == f(s[i])->Some_0;
        match f(s.last()) {
            Some(_) => {
                assert(s.filter_map(f)[k] == r0[k]);
            },
            None => {
                assert(s.filter_map(f) == r0);
            },
        }
    }
}

/// The cross-author rule, on the related list itself: a `parent` edge to a
/// note of another author contributes no entry, while a `reply` edge to a
/// note of another author keeps its entry.
pub proof fn lemma_cross_author_visibility(
    assocs: Seq<AssociationV>,
    notes: Seq<NoteV>,
    center: NoteV,
    i: int,
)
    requires
        0 <= i < assocs.len(),
        has_note(notes, other_id(assocs[i], center.id)),
        note_at(notes, other_id(assocs[i], center.id)).author != center.author,
    ensures
        assocs[i].kind == crate::domain::AssociationKind::Parent ==> forall|k: int|
            0 <= k < related_of(assocs, notes, center).len() ==> (#[trigger] related_of(
                assocs,
                notes,
                center,
            )[k]).0 != assocs[i],
        assocs[i].kind == crate::domain::AssociationKind::Reply ==> related_of(
            assocs,
            notes,
            center,
        ).contains((assocs[i], note_at(notes, other_id(assocs[i], center.id)))),
{
    let f = |a: AssociationV| entry_of(a, notes, center);
    let r = related_of(assocs, notes, center);
    if assocs[i].kind == crate::domain::AssociationKind::Parent {
        assert(!entry_visible(assocs[i], center.author, note_at(
            notes,
            other_id(assocs[i], center.id),
        ).author));
        assert(f(assocs[i]) is None);
        assert forall|k: int| 0 <= k < r.len() implies (#[trigger] r[k]).0 != assocs[i] by {
            assert(r.contains(r[k]));
            assocs.lemma_filter_map_contains(f, r[k]);
            let t = choose|t: AssociationV| #[trigger] assocs.contains(t) && f(t) == Some(r[k]);
            assert(r[k].0 == t);
            if r[k].0 == assocs[i] {
                assert(f(assocs[i]) == Some(r[k]));
            }
        }
    }
    if assocs[i].kind == crate::domain::AssociationKind::Reply {
        assert(entry_visible(assocs[i], center.author, note_at(
            notes,
            other_id(assocs[i], center.id),
        ).author));
        lemma_filter_map_keeps(assocs, f, i);
    }
}

} // verus!
