//! Applying the deltas of a pack, whatever their order.

use crate::delta::{apply_delta, delta_result};
use crate::error::Error;
use crate::object::{Object, ObjectView};
use crate::pack::{DeltaView, Deltas};
use crate::store::{lookup, ObjectSet};
use vstd::prelude::*;

verus! {

/// The deltas that a list of deltas stands for.
pub open spec fn deltas_of(list: Seq<Deltas>) -> Seq<DeltaView> {
    list.map_values(|d: Deltas| d@)
}

/// The object that the delta `program` makes of `base`: the program's
/// result, with the kind of the base.
pub open spec fn rebuilt(base: ObjectView, program: Seq<u8>) -> Result<ObjectView, Error> {
    match delta_result(base.payload, program) {
        Ok(payload) => Ok(ObjectView { kind: base.kind, expected_size: payload.len(), payload }),
        Err(e) => Err(e),
    }
}

/// One pass over the deltas `pending`, in their order, with the objects
/// `known` at hand. A delta whose base is among the objects at hand is
/// applied, and its result is at hand from then on; a delta whose base is
/// not is left for a later pass. The pass gives the objects at hand after it
/// and the deltas that are left, or the error of the first delta that does
/// not apply to its base.
pub open spec fn pass(known: Seq<ObjectView>, pending: Seq<DeltaView>) -> Result<
    (Seq<ObjectView>, Seq<DeltaView>),
    Error,
>
    decreases pending.len(),
{
    if pending.len() == 0 {
        Ok((known, Seq::empty()))
    } else {
        match pass(known, pending.drop_last()) {
            Err(e) => Err(e),
            Ok((at_hand, left)) => match lookup(at_hand, pending.last().base) {
                None => Ok((at_hand, left.push(pending.last()))),
                Some(base) => match rebuilt(base, pending.last().program) {
                    Err(e) => Err(e),
                    Ok(object) => Ok((at_hand.push(object), left)),
                },
            },
        }
    }
}

/// The objects at hand once every delta of `pending` has been applied:
/// passes are made until none is left. A pass that applies no delta while
/// some are left ends with `NotFound`: their bases are missing.
pub open spec fn resolved(known: Seq<ObjectView>, pending: Seq<DeltaView>) -> Result<
    Seq<ObjectView>,
    Error,
>
    decreases pending.len(),
{
    if pending.len() == 0 {
        Ok(known)
    } else {
        match pass(known, pending) {
            Err(e) => Err(e),
            Ok((at_hand, left)) => if left.len() >= pending.len() {
                Err(Error::NotFound)
            } else {
                resolved(at_hand, left)
            },
        }
    }
}

/// The objects at hand where a pass over `pending` ends: after its last
/// delta, or before the first delta that does not apply to its base.
pub open spec fn pass_objects(known: Seq<ObjectView>, pending: Seq<DeltaView>) -> Seq<ObjectView>
    decreases pending.len(),
{
    if pending.len() == 0 {
        known
    } else {
        match pass(known, pending.drop_last()) {
            Err(_) => pass_objects(known, pending.drop_last()),
            Ok((at_hand, _)) => match lookup(at_hand, pending.last().base) {
                None => at_hand,
                Some(base) => match rebuilt(base, pending.last().program) {
                    Err(_) => at_hand,
                    Ok(object) => at_hand.push(object),
                },
            },
        }
    }
}

/// The objects at hand where resolution ends, be it with all deltas
/// applied, at a delta that does not apply to its base, or after a pass that
/// applied none.
pub open spec fn resolved_objects(known: Seq<ObjectView>, pending: Seq<DeltaView>) -> Seq<
    ObjectView,
>
    decreases pending.len(),
{
    if pending.len() == 0 {
        known
    } else {
        match pass(known, pending) {
            Err(_) => pass_objects(known, pending),
            Ok((at_hand, left)) => if left.len() >= pending.len() {
                at_hand
            } else {
                resolved_objects(at_hand, left)
            },
        }
    }
}

/// A pass that fails on its first deltas fails on all of them.
proof fn lemma_pass_fails(known: Seq<ObjectView>, pending: Seq<DeltaView>, n: int)
    requires
        0 <= n <= pending.len(),
        pass(known, pending.take(n)) is Err,
    ensures
        pass(known, pending) == pass(known, pending.take(n)),
        pass_objects(known, pending) == pass_objects(known, pending.take(n)),
    decreases pending.len() - n,
{
    if n == pending.len() {
        assert(pending.take(n) =~= pending);
    } else {
        assert(pending.take(n + 1).drop_last() =~= pending.take(n));
        lemma_pass_fails(known, pending, n + 1);
    }
}

/// Whether `object` is what the delta `delta` makes of its base, found
/// among the objects `at_hand`.
pub open spec fn made_by(at_hand: Seq<ObjectView>, delta: DeltaView, object: ObjectView) -> bool {
    match lookup(at_hand, delta.base) {
        Some(base) => rebuilt(base, delta.program) == Ok::<ObjectView, Error>(object),
        None => false,
    }
}

/// Whether `delta` is one of `deltas`.
pub open spec fn among(delta: DeltaView, deltas: Seq<DeltaView>) -> bool {
    exists|j: int| 0 <= j < deltas.len() && #[trigger] deltas[j] == delta
}

/// Whether one of `deltas` makes `object` of its base, found among the
/// objects `at_hand`.
pub open spec fn made_by_one(
    at_hand: Seq<ObjectView>,
    deltas: Seq<DeltaView>,
    object: ObjectView,
) -> bool {
    exists|delta: DeltaView| among(delta, deltas) && #[trigger] made_by(at_hand, delta, object)
}

/// Whether the objects `after` are the objects `before` and, behind them,
/// objects that deltas of `deltas` make of objects that stand before them.
pub open spec fn grown_by(
    before: Seq<ObjectView>,
    after: Seq<ObjectView>,
    deltas: Seq<DeltaView>,
) -> bool {
    &&& before.len() <= after.len()
    &&& after.take(before.len() as int) == before
    &&& forall|i: int|
        before.len() <= i < after.len() ==> made_by_one(after.take(i), deltas, #[trigger] after[i])
}

/// Whether each of `some` is one of `deltas`.
pub open spec fn all_among(some: Seq<DeltaView>, deltas: Seq<DeltaView>) -> bool {
    forall|m: int| 0 <= m < some.len() ==> among(#[trigger] some[m], deltas)
}

/// Whether the base of none of the deltas `left` is among the objects
/// `at_hand`.
pub open spec fn missing_bases(at_hand: Seq<ObjectView>, left: Seq<DeltaView>) -> bool {
    forall|j: int| 0 <= j < left.len() ==> lookup(at_hand, (#[trigger] left[j]).base) is None
}

/// Objects that have grown from objects that have grown have grown, by the
/// deltas of both growths.
proof fn lemma_grown_twice(
    first: Seq<ObjectView>,
    second: Seq<ObjectView>,
    third: Seq<ObjectView>,
    deltas: Seq<DeltaView>,
    later: Seq<DeltaView>,
)
    requires
        grown_by(first, second, deltas),
        grown_by(second, third, later),
        all_among(later, deltas),
    ensures
        grown_by(first, third, deltas),
{
    assert(third.take(first.len() as int) =~= first) by {
        assert(third.take(second.len() as int) == second);
        assert(second.take(first.len() as int) == first);
        assert(third.take(first.len() as int) =~= second.take(first.len() as int));
    }
    assert forall|i: int| first.len() <= i < third.len() implies made_by_one(
        third.take(i),
        deltas,
        #[trigger] third[i],
    ) by {
        if i < second.len() {
            assert(third.take(i) =~= second.take(i)) by {
                assert(third.take(second.len() as int) == second);
            }
            assert(third[i] == third.take(second.len() as int)[i]);
            assert(made_by_one(second.take(i), deltas, second[i]));
        } else {
            assert(made_by_one(third.take(i), later, third[i]));
            let delta = choose|delta: DeltaView|
                among(delta, later) && #[trigger] made_by(third.take(i), delta, third[i]);
            let m = choose|m: int| 0 <= m < later.len() && #[trigger] later[m] == delta;
            assert(among(later[m], deltas));
        }
    }
}

/// What a pass gives: the objects at hand have grown by deltas of the pass,
/// each delta was applied or is left, and the deltas left are deltas of the
/// pass.
pub proof fn lemma_pass(known: Seq<ObjectView>, pending: Seq<DeltaView>)
    ensures
        pass(known, pending) matches Ok((at_hand, left)) ==> {
            &&& grown_by(known, at_hand, pending)
            &&& at_hand.len() - known.len() + left.len() == pending.len()
            &&& all_among(left, pending)
        },
    decreases pending.len(),
{
    if pending.len() == 0 {
        assert(known.take(known.len() as int) =~= known);
    } else {
        let shorter = pending.drop_last();
        let last = pending.last();
        lemma_pass(known, shorter);
        assert(pending[pending.len() - 1] == last);
        assert(among(last, pending));
        assert forall|d: DeltaView| among(d, shorter) implies among(d, pending) by {
            let j = choose|j: int| 0 <= j < shorter.len() && #[trigger] shorter[j] == d;
            assert(pending[j] == d);
        }
        if let Ok((at_hand, left)) = pass(known, shorter) {
            if let Ok((after, left_after)) = pass(known, pending) {
                assert(after.take(known.len() as int) =~= known) by {
                    assert(at_hand.take(known.len() as int) == known);
                }
                assert forall|i: int| known.len() <= i < after.len() implies made_by_one(
                    after.take(i),
                    pending,
                    #[trigger] after[i],
                ) by {
                    if i < at_hand.len() {
                        assert(after.take(i) =~= at_hand.take(i));
                        assert(made_by_one(at_hand.take(i), shorter, at_hand[i]));
                        let d = choose|d: DeltaView|
                            among(d, shorter) && #[trigger] made_by(at_hand.take(i), d, at_hand[i]);
                        assert(made_by(after.take(i), d, after[i]));
                    } else {
                        assert(after.take(i) =~= at_hand);
                        assert(made_by(after.take(i), last, after[i]));
                    }
                }
                assert forall|m: int| 0 <= m < left_after.len() implies among(
                    #[trigger] left_after[m],
                    pending,
                ) by {
                    if m < left.len() {
                        assert(left_after[m] == left[m]);
                        assert(among(left[m], shorter));
                    }
                }
            }
        }
    }
}

/// A pass that applies no delta leaves everything as it was: the base of
/// none of its deltas is at hand.
pub proof fn lemma_stalled_pass(known: Seq<ObjectView>, pending: Seq<DeltaView>)
    ensures
        pass(known, pending) matches Ok((at_hand, left)) ==> (left.len() >= pending.len() ==> {
            &&& at_hand == known
            &&& left == pending
            &&& missing_bases(known, pending)
        }),
    decreases pending.len(),
{
    if pending.len() > 0 {
        let shorter = pending.drop_last();
        lemma_pass(known, shorter);
        lemma_pass(known, pending);
        lemma_stalled_pass(known, shorter);
        if let Ok((at_hand, left)) = pass(known, shorter) {
            if let Ok((after, left_after)) = pass(known, pending) {
                if left_after.len() >= pending.len() {
                    assert(left_after == left.push(pending.last()));
                    assert(left_after =~= pending);
                    assert forall|j: int| 0 <= j < pending.len() implies lookup(
                        known,
                        (#[trigger] pending[j]).base,
                    ) is None by {
                        if j < shorter.len() {
                            assert(pending[j] == shorter[j]);
                        }
                    }
                }
            }
        }
    }
}

/// A pass fails only with the error of a delta that does not apply.
proof fn lemma_pass_error(known: Seq<ObjectView>, pending: Seq<DeltaView>)
    ensures
        pass(known, pending) matches Err(e) ==> e == Error::Malformed || e
            == Error::SizeMismatch,
    decreases pending.len(),
{
    if pending.len() > 0 {
        lemma_pass_error(known, pending.drop_last());
    }
}

/// What resolution gives: behind the objects that were at hand stand as
/// many objects as there are deltas, and each of them is what one of the
/// deltas makes of an object that stands before it.
pub proof fn lemma_resolved(known: Seq<ObjectView>, pending: Seq<DeltaView>)
    ensures
        resolved(known, pending) matches Ok(out) ==> {
            &&& grown_by(known, out, pending)
            &&& out.len() == known.len() + pending.len()
        },
    decreases pending.len(),
{
    if pending.len() == 0 {
        assert(known.take(known.len() as int) =~= known);
    } else {
        lemma_pass(known, pending);
        if let Ok((at_hand, left)) = pass(known, pending) {
            if left.len() < pending.len() {
                lemma_resolved(at_hand, left);
                if let Ok(out) = resolved(at_hand, left) {
                    lemma_grown_twice(known, at_hand, out, pending, left);
                }
            }
        }
    }
}

/// Resolution ends with `NotFound` only where, after the passes that
/// applied deltas, deltas are left and the base of none of them is at hand.
pub proof fn lemma_not_found(known: Seq<ObjectView>, pending: Seq<DeltaView>)
    ensures
        resolved(known, pending) == Err::<Seq<ObjectView>, Error>(Error::NotFound) ==> exists|
            at_hand: Seq<ObjectView>,
            left: Seq<DeltaView>,
        |
            {
                &&& grown_by(known, at_hand, pending)
                &&& left.len() > 0
                &&& #[trigger] missing_bases(at_hand, left)
                &&& all_among(left, pending)
            },
    decreases pending.len(),
{
    if pending.len() > 0 && resolved(known, pending) == Err::<Seq<ObjectView>, Error>(
        Error::NotFound,
    ) {
        lemma_pass(known, pending);
        lemma_pass_error(known, pending);
        if let Ok((at_hand, left)) = pass(known, pending) {
            if left.len() >= pending.len() {
                lemma_stalled_pass(known, pending);
                assert(known.take(known.len() as int) =~= known);
                assert(missing_bases(known, pending));
                assert forall|m: int| 0 <= m < pending.len() implies among(
                    #[trigger] pending[m],
                    pending,
                ) by {}
                assert(grown_by(known, known, pending));
            } else {
                lemma_not_found(at_hand, left);
                let (later, rest) = choose|later: Seq<ObjectView>, rest: Seq<DeltaView>|
                    {
                        &&& grown_by(at_hand, later, left)
                        &&& rest.len() > 0
                        &&& #[trigger] missing_bases(later, rest)
                        &&& all_among(rest, left)
                    };
                lemma_grown_twice(known, at_hand, later, pending, left);
                assert forall|m: int| 0 <= m < rest.len() implies among(
                    #[trigger] rest[m],
                    pending,
                ) by {
                    assert(among(rest[m], left));
                    let k = choose|k: int| 0 <= k < left.len() && #[trigger] left[k] == rest[m];
                    assert(among(left[k], pending));
                }
                assert(missing_bases(later, rest) && grown_by(known, later, pending));
            }
        }
    }
}

/// Where a pass succeeds, the objects at hand where it ends are those that
/// it gives.
pub proof fn lemma_pass_objects_of_pass(known: Seq<ObjectView>, pending: Seq<DeltaView>)
    ensures
        pass(known, pending) matches Ok((at_hand, _)) ==> pass_objects(known, pending) == at_hand,
{
}

/// Where resolution succeeds, the objects at hand where it ends are those
/// that it gives.
pub proof fn lemma_resolved_objects_of_resolved(known: Seq<ObjectView>, pending: Seq<DeltaView>)
    ensures
        resolved(known, pending) matches Ok(out) ==> resolved_objects(known, pending) == out,
    decreases pending.len(),
{
    if pending.len() > 0 {
        if let Ok((at_hand, left)) = pass(known, pending) {
            if left.len() < pending.len() {
                lemma_resolved_objects_of_resolved(at_hand, left);
            }
        }
    }
}

/// Wherever a pass ends, the objects at hand have grown by deltas of the
/// pass: nothing is added but what a delta makes of a base that is at hand.
pub proof fn lemma_pass_objects(known: Seq<ObjectView>, pending: Seq<DeltaView>)
    ensures
        grown_by(known, pass_objects(known, pending), pending),
    decreases pending.len(),
{
    if pending.len() == 0 {
        assert(known.take(known.len() as int) =~= known);
    } else {
        let shorter = pending.drop_last();
        let last = pending.last();
        assert(pending[pending.len() - 1] == last);
        assert(among(last, pending));
        assert forall|m: int| 0 <= m < shorter.len() implies among(
            #[trigger] shorter[m],
            pending,
        ) by {
            assert(pending[m] == shorter[m]);
        }
        let before = match pass(known, shorter) {
            Err(_) => pass_objects(known, shorter),
            Ok((at_hand, _)) => at_hand,
        };
        lemma_pass_objects(known, shorter);
        lemma_pass_objects_of_pass(known, shorter);
        assert(grown_by(known, before, shorter));
        let after = pass_objects(known, pending);
        assert(grown_by(before, after, seq![last])) by {
            if after == before {
                assert(before.take(before.len() as int) =~= before);
            } else {
                assert(after.take(before.len() as int) =~= before);
                assert(after.take(before.len() as int) == before);
                assert(seq![last][0] == last);
                assert(among(last, seq![last]));
                assert forall|i: int| before.len() <= i < after.len() implies made_by_one(
                    after.take(i),
                    seq![last],
                    #[trigger] after[i],
                ) by {
                    assert(after.take(i) =~= before);
                    assert(made_by(after.take(i), last, after[i]));
                }
            }
        }
        assert(all_among(seq![last], pending)) by {
            assert forall|m: int| 0 <= m < seq![last].len() implies among(
                #[trigger] seq![last][m],
                pending,
            ) by {}
        }
        lemma_grown_more(known, before, shorter, pending);
        lemma_grown_twice(known, before, after, pending, seq![last]);
    }
}

/// Objects that have grown by some deltas have grown by any deltas that
/// those are among.
proof fn lemma_grown_more(
    before: Seq<ObjectView>,
    after: Seq<ObjectView>,
    deltas: Seq<DeltaView>,
    more: Seq<DeltaView>,
)
    requires
        grown_by(before, after, deltas),
        all_among(deltas, more),
    ensures
        grown_by(before, after, more),
{
    assert forall|i: int| before.len() <= i < after.len() implies made_by_one(
        after.take(i),
        more,
        #[trigger] after[i],
    ) by {
        assert(made_by_one(after.take(i), deltas, after[i]));
        let delta = choose|delta: DeltaView|
            among(delta, deltas) && #[trigger] made_by(after.take(i), delta, after[i]);
        let m = choose|m: int| 0 <= m < deltas.len() && #[trigger] deltas[m] == delta;
        assert(among(deltas[m], more));
    }
}

/// Wherever resolution ends, the objects at hand have grown by the deltas:
/// behind the objects that were at hand stands nothing but what one of the
/// deltas makes of an object that stands before it. What was at hand stays.
pub proof fn lemma_resolved_objects(known: Seq<ObjectView>, pending: Seq<DeltaView>)
    ensures
        grown_by(known, resolved_objects(known, pending), pending),
    decreases pending.len(),
{
    if pending.len() == 0 {
        assert(known.take(known.len() as int) =~= known);
    } else {
        lemma_pass_objects(known, pending);
        lemma_pass_objects_of_pass(known, pending);
        lemma_pass(known, pending);
        if let Ok((at_hand, left)) = pass(known, pending) {
            if left.len() < pending.len() {
                lemma_resolved_objects(at_hand, left);
                lemma_grown_twice(
                    known,
                    at_hand,
                    resolved_objects(at_hand, left),
                    pending,
                    left,
                );
            }
        }
    }
}

/// A single delta that does not apply to its base, or whose base is
/// missing, leaves the objects at hand as they were.
pub proof fn lemma_failed_delta_adds_nothing(known: Seq<ObjectView>, delta: DeltaView)
    ensures
        resolved(known, seq![delta]) is Err ==> resolved_objects(known, seq![delta]) == known,
{
    let pending = seq![delta];
    assert(pending.drop_last() =~= Seq::<DeltaView>::empty());
    assert(pending.last() == delta);
    assert(pass(known, pending.drop_last()) == Ok::<(Seq<ObjectView>, Seq<DeltaView>), Error>(
        (known, Seq::empty()),
    ));
    match lookup(known, delta.base) {
        None => {
            assert(Seq::<DeltaView>::empty().push(delta).len() == 1);
        },
        Some(base) => {
            if let Ok(object) = rebuilt(base, delta.program) {
                let none = Seq::<DeltaView>::empty();
                assert(pass(known, pending) == Ok::<(Seq<ObjectView>, Seq<DeltaView>), Error>(
                    (known.push(object), none),
                ));
                assert(resolved(known.push(object), none) is Ok);
            }
        },
    }
}

/// The deltas picked from `all` by the indices `picks`.
pub open spec fn picked(all: Seq<DeltaView>, picks: Seq<usize>) -> Seq<DeltaView> {
    picks.map_values(|i: usize| all[i as int])
}

/// Rebuilds the object that `delta` describes from the object `base`.
pub fn rebuild(base: &Object, delta: &Deltas) -> (r: Result<Object, Error>)
    ensures
        match r {
            Ok(object) => rebuilt(base@, delta@.program) == Ok::<ObjectView, Error>(object@)
                && object.kind == base.kind && object.payload@.len() == object.expected_size,
            Err(e) => rebuilt(base@, delta@.program) == Err::<ObjectView, Error>(e),
        },
{
    let payload = apply_delta(base.payload.as_slice(), delta.data.as_slice())?;
    Ok(Object::new(base.kind, payload))
}

/// Applies the deltas of a pack. `store` holds the objects that can serve as
/// bases; each rebuilt object is put into it and can serve as a base from
/// then on, so that the deltas may come in any order. On success `store`
/// holds, behind what it held, the rebuilt objects in the order in which
/// they were rebuilt.
///
/// Fails with `NotFound` where the base of a delta is neither in `store` nor
/// rebuilt from another delta, and with the error of `apply_delta` where a
/// delta does not apply to its base. After a failure `store` holds, behind
/// what it held, the objects that were rebuilt before the failure, and
/// nothing else.
pub fn process_delta(store: &mut ObjectSet, deltas: &Vec<Deltas>) -> (r: Result<(), Error>)
    requires
        old(store).wf(),
    ensures
        final(store).wf(),
        final(store)@ == resolved_objects(old(store)@, deltas_of(deltas@)),
        match r {
            Ok(()) => resolved(old(store)@, deltas_of(deltas@)) == Ok::<Seq<ObjectView>, Error>(
                final(store)@,
            ),
            Err(e) => resolved(old(store)@, deltas_of(deltas@)) == Err::<Seq<ObjectView>, Error>(
                e,
            ),
        },
{
    let ghost all = deltas_of(deltas@);
    let mut pending: Vec<usize> = Vec::new();
    let mut n: usize = 0;
    while n < deltas.len()
        invariant
            n <= deltas.len(),
            pending@.len() == n,
            forall|k: int| 0 <= k < n ==> pending@[k] == k,
        decreases deltas.len() - n,
    {
        pending.push(n);
        n = n + 1;
    }
    assert(picked(all, pending@) =~= all);
    while pending.len() > 0
        invariant
            store.wf(),
            all == deltas_of(deltas@),
            forall|k: int| 0 <= k < pending@.len() ==> pending@[k] < deltas@.len(),
            resolved(old(store)@, all) == resolved(store@, picked(all, pending@)),
            resolved_objects(old(store)@, all) == resolved_objects(
                store@,
                picked(all, pending@),
            ),
        decreases pending@.len(),
    {
        let ghost start = store@;
        let ghost queue = picked(all, pending@);
        let mut left: Vec<usize> = Vec::new();
        let mut j: usize = 0;
        assert(queue.take(0) =~= Seq::<DeltaView>::empty());
        assert(picked(all, left@) =~= Seq::<DeltaView>::empty());
        while j < pending.len()
            invariant
                j <= pending@.len(),
                store.wf(),
                all == deltas_of(deltas@),
                queue == picked(all, pending@),
                forall|k: int| 0 <= k < pending@.len() ==> pending@[k] < deltas@.len(),
                forall|k: int| 0 <= k < left@.len() ==> left@[k] < deltas@.len(),
                left@.len() <= j,
                resolved(old(store)@, all) == resolved(start, queue),
                resolved_objects(old(store)@, all) == resolved_objects(start, queue),
                queue.len() > 0,
                pass(start, queue.take(j as int)) == Ok::<
                    (Seq<ObjectView>, Seq<DeltaView>),
                    Error,
                >((store@, picked(all, left@))),
            decreases pending@.len() - j,
        {
            let index = pending[j];
            let delta = &deltas[index];
            proof {
                let ghost next = queue.take(j + 1);
                assert(next.drop_last() =~= queue.take(j as int));
                assert(next.last() == delta@);
            }
            let found = match store.find(delta.delta_hash.as_slice()) {
                Some(base) => Some(rebuild(base, delta)),
                None => None,
            };
            match found {
                None => {
                    assert(picked(all, left@.push(index)) =~= picked(all, left@).push(delta@));
                    left.push(index);
                },
                Some(Err(e)) => {
                    proof {
                        lemma_pass_fails(start, queue, j + 1);
                    }
                    return Err(e);
                },
                Some(Ok(object)) => {
                    let added = store.insert(object);
                    assert(added is Ok);
                },
            }
            j = j + 1;
        }
        assert(queue.take(j as int) =~= queue);
        if left.len() == pending.len() {
            return Err(Error::NotFound);
        }
        pending = left;
    }
    Ok(())
}

} // verus!
