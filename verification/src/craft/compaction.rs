//! Removing a batch of slots from a dense array by swap-and-pop.
//!
//! To remove slot `i` from an array without shifting what follows, the last
//! element is moved into slot `i` and the array is shortened by one. When a
//! whole batch of slots is removed this way, the element that is moved may
//! itself be one that is still to be removed: the batch then has to look for
//! it at its new slot. This module states where everything ends up.
//!
//! A layout is a sequence `origin` that gives, for each slot of the array as
//! it is now, the slot its element had in the beginning.

use vstd::prelude::*;

verus! {

/// The members of `ids` that are below `bound`, each once, in ascending order.
pub open spec fn batch(ids: Seq<usize>, bound: nat) -> Seq<int>
    decreases bound,
{
    if bound == 0 {
        Seq::empty()
    } else {
        let rest = batch(ids, (bound - 1) as nat);
        if ids.contains((bound - 1) as usize) {
            rest.push(bound - 1)
        } else {
            rest
        }
    }
}

/// The layout of an array of `n` elements that nothing has moved yet.
pub open spec fn identity(n: nat) -> Seq<int> {
    Seq::new(n, |i: int| i)
}

/// The pending slots after the element at slot `from` has moved to slot `to`.
pub open spec fn redirect(pending: Seq<int>, from: int, to: int) -> Seq<int> {
    pending.map_values(
        |slot: int|
            if slot == from {
                to
            } else {
                slot
            },
    )
}

/// The layout after one swap-and-pop of slot `id`.
pub open spec fn swap_pop(origin: Seq<int>, id: int) -> Seq<int> {
    origin.update(id, origin.last()).drop_last()
}

/// The layout after the slots in `pending` have been removed from `origin`
/// by swap-and-pop, first to last, each later slot being redirected when
/// its element is moved.
pub open spec fn compact(origin: Seq<int>, pending: Seq<int>) -> Seq<int>
    decreases pending.len(),
{
    if pending.len() == 0 || origin.len() == 0 {
        origin
    } else {
        compact(
            swap_pop(origin, pending[0]),
            redirect(pending.drop_first(), origin.len() - 1, pending[0]),
        )
    }
}

/// The layout after the members of `ids` have been removed from an array of
/// `n` elements: for each slot that is left, the slot its element came from.
pub open spec fn survivors(n: nat, ids: Seq<usize>) -> Seq<int> {
    compact(identity(n), batch(ids, n))
}

/// The elements that `pending` is about to remove, named by where they were
/// in the beginning.
pub open spec fn targets(origin: Seq<int>, pending: Seq<int>) -> Seq<int> {
    pending.map_values(|slot: int| origin[slot])
}

/// What `pending` must satisfy to name elements of `origin`: every slot
/// exists, and no slot is named twice.
pub open spec fn names_slots(origin: Seq<int>, pending: Seq<int>) -> bool {
    &&& pending.no_duplicates()
    &&& forall|p: int| 0 <= p < pending.len() ==> 0 <= #[trigger] pending[p] < origin.len()
}

/// `batch` lists exactly the members of `ids` below `bound`, in strictly
/// ascending order.
pub proof fn lemma_batch(ids: Seq<usize>, bound: nat)
    requires
        bound <= usize::MAX,
    ensures
        batch(ids, bound).len() <= bound,
        forall|p: int|
            0 <= p < batch(ids, bound).len() ==> {
                &&& 0 <= #[trigger] batch(ids, bound)[p] < bound
                &&& ids.contains(batch(ids, bound)[p] as usize)
            },
        forall|p: int, q: int|
            0 <= p < q < batch(ids, bound).len() ==> batch(ids, bound)[p] < batch(ids, bound)[q],
        forall|x: int|
            0 <= x < bound && ids.contains(x as usize) ==> batch(ids, bound).contains(x),
        batch(ids, bound).no_duplicates(),
    decreases bound,
{
    if bound > 0 {
        let rest = batch(ids, (bound - 1) as nat);
        lemma_batch(ids, (bound - 1) as nat);
        let full = batch(ids, bound);
        assert forall|x: int| 0 <= x < bound && ids.contains(x as usize) implies full.contains(
            x,
        ) by {
            if x == bound - 1 {
                assert(full[full.len() - 1] == x);
            } else {
                assert(rest.contains(x));
                let p = choose|p: int| 0 <= p < rest.len() && rest[p] == x;
                assert(full[p] == x);
            }
        }
    }
}

/// Two lists with the same members make the same batch.
pub proof fn lemma_batch_depends_on_members(a: Seq<usize>, b: Seq<usize>, bound: nat)
    requires
        forall|x: usize| a.contains(x) <==> b.contains(x),
    ensures
        batch(a, bound) == batch(b, bound),
    decreases bound,
{
    if bound > 0 {
        lemma_batch_depends_on_members(a, b, (bound - 1) as nat);
    }
}

/// One swap-and-pop keeps the layout free of duplicates, drops exactly the
/// element of the removed slot, and leaves the redirected rest of the batch
/// naming the same elements as before.
pub proof fn lemma_swap_pop_step(origin: Seq<int>, pending: Seq<int>)
    requires
        origin.no_duplicates(),
        names_slots(origin, pending),
        pending.len() > 0,
    ensures
        origin.len() > 0,
        swap_pop(origin, pending[0]).len() == origin.len() - 1,
        swap_pop(origin, pending[0]).no_duplicates(),
        names_slots(
            swap_pop(origin, pending[0]),
            redirect(pending.drop_first(), origin.len() - 1, pending[0]),
        ),
        targets(
            swap_pop(origin, pending[0]),
            redirect(pending.drop_first(), origin.len() - 1, pending[0]),
        ) == targets(origin, pending).drop_first(),
        forall|x: int|
            swap_pop(origin, pending[0]).contains(x) <==> (origin.contains(x) && x
                != origin[pending[0]]),
{
    let id = pending[0];
    let last = origin.len() - 1;
    let next = swap_pop(origin, id);
    let rest = redirect(pending.drop_first(), last, id);
    assert(0 <= pending[0] < origin.len());
    assert forall|q: int| 0 <= q < rest.len() implies 0 <= #[trigger] rest[q] < next.len()
        && next[rest[q]] == origin[pending[q + 1]] by {
        let slot = pending.drop_first()[q];
        assert(slot == pending[q + 1]);
        assert(slot != id);
    }
    assert forall|p: int, q: int| 0 <= p < rest.len() && 0 <= q < rest.len() && p != q implies rest[p]
        != rest[q] by {
        assert(pending.drop_first()[p] == pending[p + 1]);
        assert(pending.drop_first()[q] == pending[q + 1]);
    }
    assert(targets(next, rest) =~= targets(origin, pending).drop_first());
    assert forall|x: int| next.contains(x) <==> (origin.contains(x) && x != origin[id]) by {
        if next.contains(x) {
            let j = choose|j: int| 0 <= j < next.len() && next[j] == x;
            if j == id {
                assert(origin[last] == x);
            } else {
                assert(origin[j] == x);
            }
        }
        if origin.contains(x) && x != origin[id] {
            let j = choose|j: int| 0 <= j < origin.len() && origin[j] == x;
            if j == last {
                assert(next[id] == x);
            } else {
                assert(next[j] == x);
            }
        }
    }
}

/// What a batch removal leaves: as many elements fewer as the batch names,
/// no element twice, and exactly the elements that the batch does not name.
pub proof fn lemma_compact(origin: Seq<int>, pending: Seq<int>)
    requires
        origin.no_duplicates(),
        names_slots(origin, pending),
    ensures
        compact(origin, pending).len() == origin.len() - pending.len(),
        compact(origin, pending).no_duplicates(),
        forall|x: int|
            compact(origin, pending).contains(x) <==> (origin.contains(x) && !targets(
                origin,
                pending,
            ).contains(x)),
    decreases pending.len(),
{
    if pending.len() == 0 {
        assert(targets(origin, pending).len() == 0);
    } else {
        let id = pending[0];
        let next = swap_pop(origin, id);
        let rest = redirect(pending.drop_first(), origin.len() - 1, id);
        lemma_swap_pop_step(origin, pending);
        lemma_compact(next, rest);
        let named = targets(origin, pending);
        let result = compact(origin, pending);
        assert(result == compact(next, rest));
        assert(named[0] == origin[id]);
        assert forall|x: int|
            result.contains(x) <==> (origin.contains(x) && !named.contains(x)) by {
            lemma_contains_first_or_rest(named, x);
        }
    }
}

/// A member of a sequence is its first element or a member of the rest.
proof fn lemma_contains_first_or_rest(s: Seq<int>, x: int)
    requires
        s.len() > 0,
    ensures
        s.contains(x) <==> (x == s[0] || s.drop_first().contains(x)),
{
    if s.contains(x) {
        let p = choose|p: int| 0 <= p < s.len() && s[p] == x;
        if p > 0 {
            assert(s.drop_first()[p - 1] == x);
        }
    }
    if s.drop_first().contains(x) {
        let p = choose|p: int| 0 <= p < s.drop_first().len() && s.drop_first()[p] == x;
        assert(s[p + 1] == x);
    }
}

/// A batch removal moves elements into the slots that it empties and
/// nowhere else: a slot that the batch does not name, and that is still
/// there when the batch is done, holds what it held.
pub proof fn lemma_compact_keeps_low_slots(origin: Seq<int>, pending: Seq<int>, slot: int)
    requires
        origin.no_duplicates(),
        names_slots(origin, pending),
        0 <= slot < origin.len() - pending.len(),
        !pending.contains(slot),
    ensures
        compact(origin, pending)[slot] == origin[slot],
    decreases pending.len(),
{
    if pending.len() > 0 {
        let id = pending[0];
        let next = swap_pop(origin, id);
        let rest = redirect(pending.drop_first(), origin.len() - 1, id);
        lemma_swap_pop_step(origin, pending);
        assert(pending.contains(id));
        if rest.contains(slot) {
            let q = choose|q: int| 0 <= q < rest.len() && rest[q] == slot;
            assert(pending.drop_first()[q] == pending[q + 1]);
            assert(pending.contains(pending[q + 1]));
        }
        lemma_compact_keeps_low_slots(next, rest, slot);
    }
}

/// What is left of an array of `n` elements after the members of `ids` are
/// removed: every slot below `n` that `ids` does not name, each at exactly
/// one place.
pub proof fn lemma_survivors(n: nat, ids: Seq<usize>)
    requires
        n <= usize::MAX,
    ensures
        survivors(n, ids).len() == n - batch(ids, n).len(),
        survivors(n, ids).no_duplicates(),
        forall|x: int|
            survivors(n, ids).contains(x) <==> (0 <= x < n && !ids.contains(x as usize)),
{
    let origin = identity(n);
    let pending = batch(ids, n);
    lemma_batch(ids, n);
    assert(targets(origin, pending) =~= pending);
    lemma_compact(origin, pending);
    assert forall|x: int|
        survivors(n, ids).contains(x) <==> (0 <= x < n && !ids.contains(x as usize)) by {
        if origin.contains(x) {
            let j = choose|j: int| 0 <= j < origin.len() && origin[j] == x;
            assert(j == x);
        }
        if 0 <= x < n {
            assert(origin[x] == x);
            assert(origin.contains(x));
        }
        if pending.contains(x) {
            let p = choose|p: int| 0 <= p < pending.len() && pending[p] == x;
            assert(ids.contains(pending[p] as usize));
        }
        assert(survivors(n, ids).contains(x) <==> (origin.contains(x) && !targets(
            origin,
            pending,
        ).contains(x)));
    }
}

/// An element that is not removed, and whose slot is still there when the
/// batch is done, stays in its slot.
pub proof fn lemma_survivors_stay(n: nat, ids: Seq<usize>, slot: int)
    requires
        n <= usize::MAX,
        0 <= slot < survivors(n, ids).len(),
        !ids.contains(slot as usize),
    ensures
        survivors(n, ids)[slot] == slot,
{
    let origin = identity(n);
    let pending = batch(ids, n);
    lemma_batch(ids, n);
    lemma_survivors(n, ids);
    if pending.contains(slot) {
        let p = choose|p: int| 0 <= p < pending.len() && pending[p] == slot;
        assert(ids.contains(pending[p] as usize));
    }
    lemma_compact_keeps_low_slots(origin, pending, slot);
}

/// The slots of an executable list, as integers.
pub open spec fn ints(slots: Seq<usize>) -> Seq<int> {
    slots.map_values(|slot: usize| slot as int)
}

/// After one swap-and-pop of slot `id`, an element that was not removed is
/// where it was, unless it was the last: then it is at `id`.
pub proof fn lemma_place_after_swap_pop(origin: Seq<int>, id: int, x: int)
    requires
        origin.no_duplicates(),
        0 <= id < origin.len(),
        origin.contains(x),
        x != origin[id],
    ensures
        swap_pop(origin, id).contains(x),
        place(swap_pop(origin, id), x) == if place(origin, x) == origin.len() - 1 {
            id
        } else {
            place(origin, x)
        },
{
    let next = swap_pop(origin, id);
    let was = place(origin, x);
    let now = if was == origin.len() - 1 {
        id
    } else {
        was
    };
    assert(next[now] == x);
    assert forall|i: int, j: int| 0 <= i < next.len() && 0 <= j < next.len() && i != j implies next[i]
        != next[j] by {
        let from_i = if i == id {
            origin.len() - 1
        } else {
            i
        };
        let from_j = if j == id {
            origin.len() - 1
        } else {
            j
        };
        assert(next[i] == origin[from_i]);
        assert(next[j] == origin[from_j]);
    }
    lemma_place(next, now);
}

/// Where the element that began at slot `x` is now.
pub open spec fn place(origin: Seq<int>, x: int) -> int {
    origin.index_of(x)
}

/// In a layout without duplicates an element is at one place only.
pub proof fn lemma_place(origin: Seq<int>, slot: int)
    requires
        origin.no_duplicates(),
        0 <= slot < origin.len(),
    ensures
        place(origin, origin[slot]) == slot,
{
    let found = origin.index_of(origin[slot]);
    assert(0 <= found < origin.len() && origin[found] == origin[slot]);
}

/// An element that the layout holds has a place in it.
pub proof fn lemma_place_in_range(origin: Seq<int>, x: int)
    requires
        origin.contains(x),
    ensures
        0 <= place(origin, x) < origin.len(),
        origin[place(origin, x)] == x,
{
}

} // verus!
