//! The chain walker: follows next/prev edges from a note, one edge per hop,
//! guarded by a seen-set so that even a malformed, cyclic edge set is walked
//! in finitely many steps.
//!
//! At each hop the walker asks the store for every edge touching the current
//! note and takes the oldest edge that resolves in the walk's direction:
//! a deterministic tie-break, independent of unrelated edges.

use vstd::prelude::*;
use vstd::set_lib::lemma_len_subset;
use crate::domain::{Association, AssociationKind, AssociationV};
use crate::ids::NoteId;
use crate::store::{touches, touching, GraphStore};
use crate::Direction;

verus! {

/// What a single edge says about the predecessor of `current`: a `prev`
/// edge out of it points back, a `next` edge into it comes from the
/// predecessor.
pub open spec fn spec_resolve_prev(a: AssociationV, current: Seq<u8>) -> Option<Seq<u8>> {
    if a.kind == AssociationKind::Prev && a.from_id == current {
        Some(a.to_id)
    } else if a.kind == AssociationKind::Next && a.to_id == current {
        Some(a.from_id)
    } else {
        None
    }
}

/// What a single edge says about the successor of `current`; the mirror of
/// [`spec_resolve_prev`].
pub open spec fn spec_resolve_next(a: AssociationV, current: Seq<u8>) -> Option<Seq<u8>> {
    if a.kind == AssociationKind::Next && a.from_id == current {
        Some(a.to_id)
    } else if a.kind == AssociationKind::Prev && a.to_id == current {
        Some(a.from_id)
    } else {
        None
    }
}

/// What a single edge says about the neighbour of `current` on the given
/// side.
pub open spec fn spec_resolve(a: AssociationV, current: Seq<u8>, dir: Direction) -> Option<
    Seq<u8>,
> {
    match dir {
        Direction::Prev => spec_resolve_prev(a, current),
        Direction::Next => spec_resolve_next(a, current),
    }
}

/// The predecessor of `current` according to one edge, if this edge names
/// one.
pub fn resolve_prev_id(assoc: &Association, current: &NoteId) -> (r: Option<NoteId>)
    ensures
        r is Some <==> spec_resolve_prev(assoc@, current@) is Some,
        r is Some ==> r->Some_0@ == spec_resolve_prev(assoc@, current@)->Some_0,
{
    match assoc.kind {
        AssociationKind::Prev => {
            if assoc.from_id.eq_id(current) {
                Some(assoc.to_id)
            } else {
                None
            }
        },
        AssociationKind::Next => {
            if assoc.to_id.eq_id(current) {
                Some(assoc.from_id)
            } else {
                None
            }
        },
        _ => None,
    }
}

/// The successor of `current` according to one edge, if this edge names
/// one.
pub fn resolve_next_id(assoc: &Association, current: &NoteId) -> (r: Option<NoteId>)
    ensures
        r is Some <==> spec_resolve_next(assoc@, current@) is Some,
        r is Some ==> r->Some_0@ == spec_resolve_next(assoc@, current@)->Some_0,
{
    match assoc.kind {
        AssociationKind::Next => {
            if assoc.from_id.eq_id(current) {
                Some(assoc.to_id)
            } else {
                None
            }
        },
        AssociationKind::Prev => {
            if assoc.to_id.eq_id(current) {
                Some(assoc.from_id)
            } else {
                None
            }
        },
        _ => None,
    }
}

/// The walker's step over an edge list in creation order: what the oldest
/// resolving edge names, or nothing.
pub open spec fn step_spec(assocs: Seq<AssociationV>, current: Seq<u8>, dir: Direction) -> Option<
    Seq<u8>,
>
    decreases assocs.len(),
{
    if assocs.len() == 0 {
        None
    } else {
        match spec_resolve(assocs[0], current, dir) {
            Some(next) => Some(next),
            None => step_spec(assocs.drop_first(), current, dir),
        }
    }
}

/// The step finds nothing exactly when no edge resolves.
pub proof fn lemma_step_none_iff(assocs: Seq<AssociationV>, current: Seq<u8>, dir: Direction)
    ensures
        step_spec(assocs, current, dir) is None <==> forall|i: int|
            0 <= i < assocs.len() ==> spec_resolve(#[trigger] assocs[i], current, dir) is None,
    decreases assocs.len(),
{
    if assocs.len() > 0 {
        let rest = assocs.drop_first();
        lemma_step_none_iff(rest, current, dir);
        assert(forall|j: int| 0 <= j < rest.len() ==> #[trigger] rest[j] == assocs[j + 1]);
        if step_spec(assocs, current, dir) is None {
            assert forall|i: int|
                0 <= i < assocs.len() implies spec_resolve(
                #[trigger] assocs[i],
                current,
                dir,
            ) is None by {
                if i > 0 {
                    assert(rest[i - 1] == assocs[i]);
                    assert(spec_resolve(rest[i - 1], current, dir) is None);
                }
            }
        }
        if forall|i: int|
            0 <= i < assocs.len() ==> spec_resolve(#[trigger] assocs[i], current, dir) is None {
            assert(spec_resolve(assocs[0], current, dir) is None);
            assert forall|j: int|
                0 <= j < rest.len() implies spec_resolve(#[trigger] rest[j], current, dir) is None by {
                assert(rest[j] == assocs[j + 1]);
                assert(spec_resolve(assocs[j + 1], current, dir) is None);
            }
            assert(step_spec(rest, current, dir) is None);
        }
    }
}

/// The step takes the first edge that resolves.
pub proof fn lemma_step_first(assocs: Seq<AssociationV>, current: Seq<u8>, dir: Direction, i: int)
    requires
        0 <= i < assocs.len(),
        spec_resolve(assocs[i], current, dir) is Some,
        forall|j: int| 0 <= j < i ==> spec_resolve(#[trigger] assocs[j], current, dir) is None,
    ensures
        step_spec(assocs, current, dir) == spec_resolve(assocs[i], current, dir),
    decreases i,
{
    if i > 0 {
        assert(forall|j: int|
            0 < j < assocs.len() ==> #[trigger] assocs.drop_first()[j - 1] == assocs[j]);
        lemma_step_first(assocs.drop_first(), current, dir, i - 1);
    }
}

/// Appending an edge matters only when no earlier edge resolves.
proof fn lemma_step_snoc(assocs: Seq<AssociationV>, a: AssociationV, current: Seq<u8>, dir: Direction)
    ensures
        step_spec(assocs.push(a), current, dir) == (if step_spec(assocs, current, dir) is Some {
            step_spec(assocs, current, dir)
        } else {
            spec_resolve(a, current, dir)
        }),
    decreases assocs.len(),
{
    if assocs.len() == 0 {
        assert(assocs.push(a)[0] == a);
        assert(assocs.push(a).drop_first() =~= Seq::<AssociationV>::empty());
        assert(step_spec(assocs, current, dir) is None);
        assert(step_spec(Seq::<AssociationV>::empty(), current, dir) is None);
        assert(step_spec(assocs.push(a), current, dir) == spec_resolve(a, current, dir));
    } else {
        assert(assocs.push(a)[0] == assocs[0]);
        assert(assocs.push(a).drop_first() =~= assocs.drop_first().push(a));
        lemma_step_snoc(assocs.drop_first(), a, current, dir);
        assert(step_spec(assocs.push(a).drop_first(), current, dir) == step_spec(
            assocs.drop_first().push(a),
            current,
            dir,
        ));
    }
}

/// An edge that resolves for `current` touches `current`, so stepping over
/// only the touching edges is stepping over them all.
pub proof fn lemma_step_filter(assocs: Seq<AssociationV>, current: Seq<u8>, dir: Direction)
    ensures
        step_spec(touching(assocs, current), current, dir) == step_spec(assocs, current, dir),
    decreases assocs.len(),
{
    reveal(Seq::filter);
    if assocs.len() > 0 {
        let t = assocs.drop_last();
        let a = assocs.last();
        lemma_step_filter(t, current, dir);
        assert(assocs =~= t.push(a));
        lemma_step_snoc(t, a, current, dir);
        if touches(a, current) {
            assert(touching(assocs, current) == touching(t, current).push(a));
            lemma_step_snoc(touching(t, current), a, current, dir);
        } else {
            assert(touching(assocs, current) == touching(t, current));
            assert(spec_resolve(a, current, dir) is None);
        }
    }
}

/// Every note named as an endpoint by some edge.
pub open spec fn endpoints(assocs: Seq<AssociationV>) -> Set<Seq<u8>>
    decreases assocs.len(),
{
    if assocs.len() == 0 {
        Set::empty()
    } else {
        endpoints(assocs.drop_last()).insert(assocs.last().from_id).insert(assocs.last().to_id)
    }
}

/// The endpoint set is finite.
pub proof fn lemma_endpoints_finite(assocs: Seq<AssociationV>)
    ensures
        endpoints(assocs).finite(),
    decreases assocs.len(),
{
    if assocs.len() > 0 {
        lemma_endpoints_finite(assocs.drop_last());
    }
}

/// Membership in the endpoint set, spelled out.
pub proof fn lemma_endpoints_iff(assocs: Seq<AssociationV>, x: Seq<u8>)
    ensures
        endpoints(assocs).contains(x) <==> exists|i: int|
            0 <= i < assocs.len() && ((#[trigger] assocs[i]).from_id == x || assocs[i].to_id == x),
    decreases assocs.len(),
{
    if assocs.len() > 0 {
        lemma_endpoints_iff(assocs.drop_last(), x);
        if endpoints(assocs).contains(x) {
            if x == assocs.last().from_id || x == assocs.last().to_id {
                assert(assocs[assocs.len() - 1].from_id == x || assocs[assocs.len() - 1].to_id
                    == x);
            } else {
                let i = choose|i: int|
                    0 <= i < assocs.drop_last().len() && ((#[trigger] assocs.drop_last()[i]).from_id
                        == x || assocs.drop_last()[i].to_id == x);
                assert(assocs[i].from_id == x || assocs[i].to_id == x);
            }
        }
        if exists|i: int|
            0 <= i < assocs.len() && ((#[trigger] assocs[i]).from_id == x || assocs[i].to_id
                == x) {
            let i = choose|i: int|
                0 <= i < assocs.len() && ((#[trigger] assocs[i]).from_id == x || assocs[i].to_id
                    == x);
            if i < assocs.len() - 1 {
                assert(assocs.drop_last()[i].from_id == x || assocs.drop_last()[i].to_id == x);
            }
        }
    }
}

/// What a step names is an endpoint of some edge.
pub proof fn lemma_step_in_endpoints(assocs: Seq<AssociationV>, current: Seq<u8>, dir: Direction)
    ensures
        step_spec(assocs, current, dir) is Some ==> endpoints(assocs).contains(
            step_spec(assocs, current, dir)->Some_0,
        ),
    decreases assocs.len(),
{
    if assocs.len() > 0 && step_spec(assocs, current, dir) is Some {
        let x = step_spec(assocs, current, dir)->Some_0;
        lemma_endpoints_iff(assocs, x);
        if spec_resolve(assocs[0], current, dir) is Some {
            assert(assocs[0].from_id == x || assocs[0].to_id == x);
        } else {
            lemma_step_in_endpoints(assocs.drop_first(), current, dir);
            lemma_endpoints_iff(assocs.drop_first(), x);
            let i = choose|i: int|
                0 <= i < assocs.drop_first().len() && ((#[trigger] assocs.drop_first()[i]).from_id
                    == x || assocs.drop_first()[i].to_id == x);
            assert(assocs[i + 1].from_id == x || assocs[i + 1].to_id == x);
        }
    }
}

/// The chain reached from `current`, stepping along `dir`, stopping at the
/// first missing step or already-seen note.  This is the walker's meaning.
pub open spec fn walk_from(
    assocs: Seq<AssociationV>,
    seen: Set<Seq<u8>>,
    current: Seq<u8>,
    dir: Direction,
) -> Seq<Seq<u8>>
    decreases endpoints(assocs).difference(seen).len(),
    via walk_from_decreases
{
    match step_spec(assocs, current, dir) {
        None => Seq::empty(),
        Some(next) => if seen.contains(next) {
            Seq::empty()
        } else {
            seq![next] + walk_from(assocs, seen.insert(next), next, dir)
        },
    }
}

#[via_fn]
proof fn walk_from_decreases(
    assocs: Seq<AssociationV>,
    seen: Set<Seq<u8>>,
    current: Seq<u8>,
    dir: Direction,
) {
    lemma_endpoints_finite(assocs);
    match step_spec(assocs, current, dir) {
        None => {},
        Some(next) => {
            if !seen.contains(next) {
                lemma_step_in_endpoints(assocs, current, dir);
                endpoints(assocs).lemma_set_insert_diff_decreases(seen, next);
            }
        },
    }
}

/// A note that no next or prev edge touches walks nowhere: its chain is
/// empty on both sides.
pub proof fn lemma_walk_unlinked(
    assocs: Seq<AssociationV>,
    seen: Set<Seq<u8>>,
    id: Seq<u8>,
    dir: Direction,
)
    requires
        forall|i: int|
            0 <= i < assocs.len() ==> !(((#[trigger] assocs[i]).kind == AssociationKind::Next
                || assocs[i].kind == AssociationKind::Prev) && touches(assocs[i], id)),
    ensures
        walk_from(assocs, seen, id, dir) =~= Seq::empty(),
{
    lemma_step_none_iff(assocs, id, dir);
    assert forall|i: int|
        0 <= i < assocs.len() implies spec_resolve(#[trigger] assocs[i], id, dir) is None by {
        assert(!((assocs[i].kind == AssociationKind::Next || assocs[i].kind
            == AssociationKind::Prev) && touches(assocs[i], id)));
    }
}

/// A walk visits no note twice and only notes that some edge names, so its
/// length never exceeds the number of distinct endpoints: this is what
/// bounds the walker on cyclic data.
pub proof fn lemma_walk_bounded(ids: Seq<Seq<u8>>, assocs: Seq<AssociationV>)
    requires
        ids.no_duplicates(),
        forall|i: int| 0 <= i < ids.len() ==> endpoints(assocs).contains(#[trigger] ids[i]),
    ensures
        ids.len() <= endpoints(assocs).len(),
{
    lemma_endpoints_finite(assocs);
    ids.unique_seq_to_set();
    assert(ids.to_set().subset_of(endpoints(assocs)));
    lemma_len_subset(ids.to_set(), endpoints(assocs));
}

/// The oldest edge of a newest-first edge list that resolves in the walk's
/// direction — the walker's deterministic tie-break.
pub fn select_step(edges: &Vec<Association>, current: &NoteId, direction: Direction) -> (r: Option<
    NoteId,
>)
    ensures
        ({
            let rev = edges@.map_values(|a: Association| a@).reverse();
            &&& r is Some <==> step_spec(rev, current@, direction) is Some
            &&& r is Some ==> r->Some_0@ == step_spec(rev, current@, direction)->Some_0
        }),
{
    let ghost rev = edges@.map_values(|a: Association| a@).reverse();
    let m = edges.len();
    let mut k: usize = 0;
    while k < m
        invariant
            0 <= k <= m,
            m == edges@.len(),
            rev == edges@.map_values(|a: Association| a@).reverse(),
            rev.len() == m,
            forall|j: int| 0 <= j < k ==> spec_resolve(#[trigger] rev[j], current@, direction) is None,
        decreases m - k,
    {
        let e = &edges[m - 1 - k];
        proof {
            assert(rev[k as int] == e@);
        }
        let found = match direction {
            Direction::Prev => resolve_prev_id(e, current),
            Direction::Next => resolve_next_id(e, current),
        };
        match found {
            Some(next) => {
                proof {
                    lemma_step_first(rev, current@, direction, k as int);
                }
                return Some(next);
            },
            None => {},
        }
        k += 1;
    }
    proof {
        lemma_step_none_iff(rev, current@, direction);
    }
    None
}

/// Whether the identifier occurs in the vector.
fn id_in(chain: &Vec<NoteId>, id: &NoteId) -> (r: bool)
    ensures
        r == chain@.map_values(|x: NoteId| x@).contains(id@),
{
    let n = chain.len();
    let mut i: usize = 0;
    while i < n
        invariant
            0 <= i <= n,
            n == chain@.len(),
            forall|j: int| 0 <= j < i ==> (#[trigger] chain@[j])@ != id@,
        decreases n - i,
    {
        if chain[i].eq_id(id) {
            proof {
                assert(chain@.map_values(|x: NoteId| x@)[i as int] == id@);
            }
            return true;
        }
        i += 1;
    }
    proof {
        let m = chain@.map_values(|x: NoteId| x@);
        if m.contains(id@) {
            let j = choose|j: int| 0 <= j < m.len() && m[j] == id@;
            assert(chain@[j]@ != id@);
        }
    }
    false
}

/// Reconstructs the chain of notes on one side of `start`: nearest
/// neighbour first, one store lookup per hop, each hop taking the oldest
/// resolving edge, stopping at a missing step or at a note already seen.
/// The result never repeats a note, never includes `start`, and is bounded
/// by the number of distinct endpoints in the store — a cycle cannot make
/// it loop.
pub fn walk(store: &GraphStore, start: &NoteId, direction: Direction) -> (r: Vec<NoteId>)
    requires
        store.wf(),
    ensures
        r@.map_values(|x: NoteId| x@) == walk_from(
            store@.assocs,
            Set::empty().insert(start@),
            start@,
            direction,
        ),
        r@.map_values(|x: NoteId| x@).no_duplicates(),
        !r@.map_values(|x: NoteId| x@).contains(start@),
        r@.len() <= endpoints(store@.assocs).len(),
{
    let ghost assocs = store@.assocs;
    let ghost seen0 = Set::<Seq<u8>>::empty().insert(start@);
    let mut chain: Vec<NoteId> = Vec::new();
    let mut current: NoteId = *start;
    let ghost mut seen = seen0;
    proof {
        assert(chain@.map_values(|x: NoteId| x@) =~= Seq::<Seq<u8>>::empty());
        lemma_endpoints_finite(assocs);
    }
    loop
        invariant
            store.wf(),
            assocs == store@.assocs,
            seen0 == Set::<Seq<u8>>::empty().insert(start@),
            seen.finite(),
            seen.contains(start@),
            forall|x: Seq<u8>|
                seen.contains(x) <==> (x == start@ || chain@.map_values(
                    |y: NoteId| y@,
                ).contains(x)),
            walk_from(assocs, seen0, start@, direction) == chain@.map_values(|x: NoteId| x@)
                + walk_from(assocs, seen, current@, direction),
            chain@.map_values(|x: NoteId| x@).no_duplicates(),
            !chain@.map_values(|x: NoteId| x@).contains(start@),
            forall|i: int|
                0 <= i < chain@.len() ==> endpoints(assocs).contains((#[trigger] chain@[i])@),
        decreases endpoints(assocs).difference(seen).len(),
    {
        let edges = store.list_associations(&current);
        let next_opt = select_step(&edges, &current, direction);
        proof {
            let tv = touching(assocs, current@);
            assert(edges@.map_values(|a: Association| a@).reverse() =~= tv) by {
                assert(edges@.map_values(|a: Association| a@) =~= tv.reverse());
                assert(forall|i: int| 0 <= i < tv.len() ==> tv.reverse().reverse()[i] == tv[i]);
                assert(tv.reverse().reverse() =~= tv);
            }
            lemma_step_filter(assocs, current@, direction);
        }
        match next_opt {
            None => {
                proof {
                    assert(walk_from(assocs, seen, current@, direction) =~= Seq::<Seq<u8>>::empty());
                    assert(chain@.map_values(|x: NoteId| x@) + Seq::<Seq<u8>>::empty() =~= chain@.map_values(
                        |x: NoteId| x@,
                    ));
                    let m = chain@.map_values(|x: NoteId| x@);
                    assert forall|i: int| 0 <= i < m.len() implies endpoints(assocs).contains(
                        #[trigger] m[i],
                    ) by {
                        assert(endpoints(assocs).contains(chain@[i]@));
                    }
                    lemma_walk_bounded(m, assocs);
                }
                return chain;
            },
            Some(next) => {
                let cycle = next.eq_id(start) || id_in(&chain, &next);
                if cycle {
                    proof {
                        assert(seen.contains(next@));
                        assert(walk_from(assocs, seen, current@, direction) =~= Seq::<
                            Seq<u8>,
                        >::empty());
                        assert(chain@.map_values(|x: NoteId| x@) + Seq::<Seq<u8>>::empty()
                            =~= chain@.map_values(|x: NoteId| x@));
                        let m = chain@.map_values(|x: NoteId| x@);
                        assert forall|i: int| 0 <= i < m.len() implies endpoints(assocs).contains(
                            #[trigger] m[i],
                        ) by {
                            assert(endpoints(assocs).contains(chain@[i]@));
                        }
                        lemma_walk_bounded(m, assocs);
                    }
                    return chain;
                }
                proof {
                    lemma_endpoints_finite(assocs);
                    assert(!seen.contains(next@));
                    assert(step_spec(assocs, current@, direction) == Some(next@));
                    lemma_step_in_endpoints(assocs, current@, direction);
                    assert(endpoints(assocs).contains(next@));
                    endpoints(assocs).lemma_set_insert_diff_decreases(seen, next@);
                }
                let ghost chain_before = chain@.map_values(|x: NoteId| x@);
                chain.push(next);
                proof {
                    assert(chain@.map_values(|x: NoteId| x@) =~= chain_before.push(next@));
                    let m2 = chain_before.push(next@);
                    let seen2 = seen.insert(next@);
                    assert(!chain_before.contains(next@));
                    assert(m2[chain_before.len() as int] == next@);
                    assert forall|x: Seq<u8>|
                        seen2.contains(x) <==> (x == start@ || m2.contains(x)) by {
                        if seen2.contains(x) && x != next@ {
                            assert(seen.contains(x));
                            if !(x == start@) {
                                assert(chain_before.contains(x));
                                let k = choose|k: int|
                                    0 <= k < chain_before.len() && chain_before[k] == x;
                                assert(m2[k] == x);
                            }
                        }
                        if m2.contains(x) && x != next@ {
                            let k = choose|k: int| 0 <= k < m2.len() && m2[k] == x;
                            if k < chain_before.len() {
                                assert(chain_before[k] == x);
                            }
                        }
                    }
                    assert(m2.no_duplicates()) by {
                        assert forall|i: int, j: int|
                            0 <= i < m2.len() && 0 <= j < m2.len() && i != j implies m2[i]
                            != m2[j] by {
                            if i < chain_before.len() && j < chain_before.len() {
                                assert(chain_before[i] == m2[i] && chain_before[j] == m2[j]);
                            } else if j == chain_before.len() && i < j {
                                assert(m2[i] == chain_before[i]);
                                if chain_before[i] == next@ {
                                    assert(chain_before.contains(next@));
                                }
                            } else if i == chain_before.len() && j < i {
                                assert(m2[j] == chain_before[j]);
                                if chain_before[j] == next@ {
                                    assert(chain_before.contains(next@));
                                }
                            }
                        }
                    }
                    assert(walk_from(assocs, seen, current@, direction) == seq![next@] + walk_from(
                        assocs,
                        seen.insert(next@),
                        next@,
                        direction,
                    ));
                    assert(chain_before + (seq![next@] + walk_from(
                        assocs,
                        seen.insert(next@),
                        next@,
                        direction,
                    )) =~= chain_before.push(next@) + walk_from(
                        assocs,
                        seen.insert(next@),
                        next@,
                        direction,
                    ));
                    seen = seen.insert(next@);
                }
                current = next;
            },
        }
    }
}

} // verus!
