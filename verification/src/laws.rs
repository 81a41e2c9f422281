//! The laws of the registry, stated over its mathematical model and proved.
//!
//! `register`'s contract describes one step through the relation
//! [`registered`]. This module gives the step a functional form —
//! [`next_state`] and [`handle_of`] — extends it to whole traces of calls
//! ([`run_state`], [`run_handles`]), and proves the registry's laws:
//! determinism, idempotence, structural discrimination, density and
//! uniqueness of handles, first-seen assignment order, and the behaviour at
//! the capacity boundary.

use vstd::prelude::*;

use crate::registry::distinct;
use crate::registry::registered;
use crate::signature::SigView;

verus! {

/// The state after presenting `d` to the state `s`: unchanged when `d` is
/// already stored, extended by `d` otherwise.
pub open spec fn next_state(s: Seq<SigView>, d: SigView) -> Seq<SigView> {
    if s.contains(d) {
        s
    } else {
        s.push(d)
    }
}

/// The handle that presenting `d` to the state `s` yields: the position of
/// `d` in the state after the step. For a distinct state that position is
/// unique.
pub open spec fn handle_of(s: Seq<SigView>, d: SigView) -> int {
    choose|i: int| 0 <= i < next_state(s, d).len() && next_state(s, d)[i] == d
}

/// `handle_of` indeed points at `d`; a new descriptor is numbered with the
/// previous count, a known one keeps its position.
proof fn lemma_handle_of(s: Seq<SigView>, d: SigView)
    requires
        distinct(s),
    ensures
        0 <= handle_of(s, d) < next_state(s, d).len(),
        next_state(s, d)[handle_of(s, d)] == d,
        !s.contains(d) ==> handle_of(s, d) == s.len(),
        s.contains(d) ==> handle_of(s, d) < s.len() && s[handle_of(s, d)] == d,
{
    let n = next_state(s, d);
    if s.contains(d) {
        let w = choose|i: int| 0 <= i < s.len() && s[i] == d;
        assert(0 <= w < n.len() && n[w] == d);
    } else {
        assert(n[s.len() as int] == d);
        assert(0 <= s.len() < n.len() && n[s.len() as int] == d);
        if handle_of(s, d) < s.len() {
            assert(s[handle_of(s, d)] == d);
            assert(s.contains(d));
        }
    }
}

/// A step preserves distinctness, keeps the old state as a prefix, and
/// stores exactly the old descriptors plus the new one.
proof fn lemma_next_state(s: Seq<SigView>, d: SigView)
    requires
        distinct(s),
    ensures
        distinct(next_state(s, d)),
        next_state(s, d).contains(d),
        s.len() <= next_state(s, d).len() <= s.len() + 1,
        next_state(s, d).take(s.len() as int) == s,
        forall|x: SigView| next_state(s, d).contains(x) <==> (s.contains(x) || x == d),
{
    let n = next_state(s, d);
    if s.contains(d) {
        assert(n.take(s.len() as int) =~= s);
    } else {
        assert(forall|i: int| 0 <= i < s.len() ==> s[i] != d) by {
            if exists|i: int| 0 <= i < s.len() && s[i] == d {
                assert(s.contains(d));
            }
        }
        assert(n[s.len() as int] == d);
        assert(n.contains(d));
        assert(n.take(s.len() as int) =~= s);
        assert forall|x: SigView| n.contains(x) implies (s.contains(x) || x == d) by {
            let w = choose|i: int| 0 <= i < n.len() && n[i] == x;
            if w < s.len() {
                assert(s[w] == x);
                assert(s.contains(x));
            }
        }
        assert forall|x: SigView| (s.contains(x) || x == d) implies n.contains(x) by {
            if s.contains(x) {
                let w = choose|i: int| 0 <= i < s.len() && s[i] == x;
                assert(n[w] == x);
            }
        }
    }
}

/// Law (determinism, one step): from a distinct state, a `register` outcome
/// is the functional step — the next state and the handle are functions of
/// the state and the descriptor alone. In particular a handle never depends
/// on any other registry instance's history.
pub proof fn lemma_register_matches_model(pre: Seq<SigView>, d: SigView, h: int, post: Seq<
    SigView,
>)
    requires
        distinct(pre),
        registered(pre, d, h, post),
    ensures
        post == next_state(pre, d),
        h == handle_of(pre, d),
        distinct(post),
{
    lemma_handle_of(pre, d);
    lemma_next_state(pre, d);
    assert(post[h] == d && post[handle_of(pre, d)] == d);
}

/// Law (determinism): two `register` outcomes from the same distinct state
/// on the same descriptor agree on the handle and on the resulting state.
pub proof fn lemma_register_deterministic(
    pre: Seq<SigView>,
    d: SigView,
    h1: int,
    post1: Seq<SigView>,
    h2: int,
    post2: Seq<SigView>,
)
    requires
        distinct(pre),
        registered(pre, d, h1, post1),
        registered(pre, d, h2, post2),
    ensures
        post1 == post2,
        h1 == h2,
{
    lemma_register_matches_model(pre, d, h1, post1);
    lemma_register_matches_model(pre, d, h2, post2);
}

/// Law (idempotence): registering the same descriptor twice in a row returns
/// the identical handle both times, and the second call changes nothing.
pub proof fn lemma_register_idempotent(
    pre: Seq<SigView>,
    d: SigView,
    h1: int,
    mid: Seq<SigView>,
    h2: int,
    post: Seq<SigView>,
)
    requires
        distinct(pre),
        registered(pre, d, h1, mid),
        registered(mid, d, h2, post),
    ensures
        h2 == h1,
        post == mid,
{
    lemma_register_matches_model(pre, d, h1, mid);
    assert(mid.contains(d)) by {
        assert(mid[h1] == d);
    }
    assert(post == mid);
    assert(mid[h1] == d && mid[h2] == d);
}

/// Law (structural discrimination): two consecutive registrations receive
/// the same handle exactly when the two descriptors are structurally equal —
/// equal fields always collide onto one handle, and a difference in any
/// field always yields a different handle.
pub proof fn lemma_structural_discrimination(
    pre: Seq<SigView>,
    d1: SigView,
    h1: int,
    mid: Seq<SigView>,
    d2: SigView,
    h2: int,
    post: Seq<SigView>,
)
    requires
        distinct(pre),
        registered(pre, d1, h1, mid),
        registered(mid, d2, h2, post),
    ensures
        (h1 == h2) <==> (d1 == d2),
{
    lemma_register_matches_model(pre, d1, h1, mid);
    lemma_register_matches_model(mid, d2, h2, post);
    assert(post[h1] == d1) by {
        if !mid.contains(d2) {
            assert(post == mid.push(d2));
        }
        assert(mid[h1] == d1);
    }
    assert(post[h2] == d2);
}

/// Law (capacity boundary): a registry filled to the handle width's maximum
/// count cannot take a genuinely new descriptor — one more entry would
/// outnumber what the width can count — while a previously known descriptor
/// still receives its old handle and changes nothing.
pub proof fn lemma_capacity_boundary(
    s: Seq<SigView>,
    d_new: SigView,
    d_old: SigView,
    h: int,
    post: Seq<SigView>,
)
    requires
        distinct(s),
        s.len() == u32::MAX as int,
        !s.contains(d_new),
        s.contains(d_old),
        registered(s, d_old, h, post),
    ensures
        post == s,
        0 <= h < s.len(),
        s[h] == d_old,
        forall|h2: int, p2: Seq<SigView>|
            registered(s, d_new, h2, p2) ==> p2.len() == u32::MAX as int + 1,
{
}

/// The state after presenting every descriptor of `inputs`, in order, to the
/// state `pre`.
pub open spec fn run_state(pre: Seq<SigView>, inputs: Seq<SigView>) -> Seq<SigView>
    decreases inputs.len(),
{
    if inputs.len() == 0 {
        pre
    } else {
        run_state(next_state(pre, inputs[0]), inputs.skip(1))
    }
}

/// The handles that presenting every descriptor of `inputs`, in order, to
/// the state `pre` yields, one per input.
pub open spec fn run_handles(pre: Seq<SigView>, inputs: Seq<SigView>) -> Seq<int>
    decreases inputs.len(),
{
    if inputs.len() == 0 {
        Seq::empty()
    } else {
        seq![handle_of(pre, inputs[0])] + run_handles(next_state(pre, inputs[0]), inputs.skip(1))
    }
}

/// A trace yields one handle per input.
proof fn lemma_run_handles_len(pre: Seq<SigView>, inputs: Seq<SigView>)
    ensures
        run_handles(pre, inputs).len() == inputs.len(),
    decreases inputs.len(),
{
    if inputs.len() > 0 {
        lemma_run_handles_len(next_state(pre, inputs[0]), inputs.skip(1));
    }
}

/// A trace preserves distinctness, keeps the starting state as a prefix,
/// grows by at most one entry per input, and ends holding exactly the
/// descriptors it started with plus those presented.
proof fn lemma_run_state_basic(pre: Seq<SigView>, inputs: Seq<SigView>)
    requires
        distinct(pre),
    ensures
        distinct(run_state(pre, inputs)),
        pre.len() <= run_state(pre, inputs).len() <= pre.len() + inputs.len(),
        run_state(pre, inputs).take(pre.len() as int) == pre,
        forall|x: SigView|
            run_state(pre, inputs).contains(x) <==> (pre.contains(x) || inputs.contains(x)),
    decreases inputs.len(),
{
    let post = run_state(pre, inputs);
    if inputs.len() == 0 {
        assert(post.take(pre.len() as int) =~= pre);
        assert(forall|x: SigView| !inputs.contains(x));
    } else {
        let d = inputs[0];
        let rest = inputs.skip(1);
        let mid = next_state(pre, d);
        lemma_next_state(pre, d);
        lemma_run_state_basic(mid, rest);
        assert(post.take(pre.len() as int) =~= pre) by {
            assert(post.take(mid.len() as int) == mid);
            assert(forall|j: int|
                0 <= j < pre.len() ==> post[j] == post.take(mid.len() as int)[j] && mid[j]
                    == mid.take(pre.len() as int)[j]);
        }
        assert forall|x: SigView| inputs.contains(x) implies (x == d || rest.contains(x)) by {
            let w = choose|i: int| 0 <= i < inputs.len() && inputs[i] == x;
            if w > 0 {
                assert(rest[w - 1] == x);
            }
        }
        assert forall|x: SigView| rest.contains(x) implies inputs.contains(x) by {
            let w = choose|i: int| 0 <= i < rest.len() && rest[i] == x;
            assert(inputs[w + 1] == x);
        }
        assert(inputs.contains(d)) by {
            assert(inputs[0] == d);
        }
    }
}

/// A trace splits at any point `k`: running all of `inputs` is running the
/// first `k` of them and then the rest from the state so reached.
proof fn lemma_run_decompose(pre: Seq<SigView>, inputs: Seq<SigView>, k: int)
    requires
        0 <= k <= inputs.len(),
    ensures
        run_state(pre, inputs) == run_state(run_state(pre, inputs.take(k)), inputs.skip(k)),
        run_handles(pre, inputs) == run_handles(pre, inputs.take(k)) + run_handles(
            run_state(pre, inputs.take(k)),
            inputs.skip(k),
        ),
    decreases k,
{
    if k == 0 {
        assert(inputs.take(0) =~= Seq::<SigView>::empty());
        assert(inputs.skip(0) =~= inputs);
        assert(run_handles(pre, inputs.take(0)) + run_handles(pre, inputs) =~= run_handles(
            pre,
            inputs,
        ));
    } else {
        let d = inputs[0];
        let mid = next_state(pre, d);
        let rest = inputs.skip(1);
        assert(inputs.take(k).skip(1) =~= rest.take(k - 1));
        assert(inputs.skip(k) =~= rest.skip(k - 1));
        lemma_run_decompose(mid, rest, k - 1);
        assert(run_state(pre, inputs.take(k)) == run_state(mid, rest.take(k - 1)));
        assert(run_handles(pre, inputs) =~= run_handles(pre, inputs.take(k)) + run_handles(
            run_state(pre, inputs.take(k)),
            inputs.skip(k),
        )) by {
            assert(run_handles(pre, inputs) == seq![handle_of(pre, d)] + run_handles(mid, rest));
            assert(run_handles(mid, rest) == run_handles(mid, rest.take(k - 1)) + run_handles(
                run_state(mid, rest.take(k - 1)),
                rest.skip(k - 1),
            ));
            assert(run_handles(pre, inputs.take(k)) == seq![handle_of(pre, d)] + run_handles(
                mid,
                rest.take(k - 1),
            ));
            lemma_run_handles_len(mid, rest.take(k - 1));
        }
    }
}

/// One step inside a trace: the state after the first `k + 1` inputs is one
/// functional step from the state after the first `k`, and the `k`-th handle
/// of the trace is the handle that step yields.
proof fn lemma_run_prefix_step(pre: Seq<SigView>, inputs: Seq<SigView>, k: int)
    requires
        0 <= k < inputs.len(),
    ensures
        run_state(pre, inputs.take(k + 1)) == next_state(
            run_state(pre, inputs.take(k)),
            inputs[k],
        ),
        run_handles(pre, inputs)[k] == handle_of(run_state(pre, inputs.take(k)), inputs[k]),
{
    let s_k = run_state(pre, inputs.take(k));
    assert(inputs.take(k + 1).take(k) =~= inputs.take(k));
    assert(inputs.take(k + 1).skip(k) =~= seq![inputs[k]]);
    lemma_run_decompose(pre, inputs.take(k + 1), k);
    assert(run_state(pre, inputs.take(k + 1)) == run_state(s_k, seq![inputs[k]]));
    assert(seq![inputs[k]].skip(1) =~= Seq::<SigView>::empty());
    assert(run_state(s_k, seq![inputs[k]]) == run_state(
        next_state(s_k, inputs[k]),
        seq![inputs[k]].skip(1),
    ));
    assert(run_state(next_state(s_k, inputs[k]), seq![inputs[k]].skip(1)) == next_state(
        s_k,
        inputs[k],
    ));

    lemma_run_decompose(pre, inputs, k);
    lemma_run_handles_len(pre, inputs.take(k));
    let tail = run_handles(s_k, inputs.skip(k));
    assert(inputs.skip(k)[0] == inputs[k]);
    assert(tail == seq![handle_of(s_k, inputs[k])] + run_handles(
        next_state(s_k, inputs[k]),
        inputs.skip(k).skip(1),
    ));
    assert(run_handles(pre, inputs)[k] == tail[0]);
}

/// Each handle of a trace points, in the final state, at the descriptor it
/// was issued for.
proof fn lemma_run_handle_points(pre: Seq<SigView>, inputs: Seq<SigView>, k: int)
    requires
        distinct(pre),
        0 <= k < inputs.len(),
    ensures
        0 <= run_handles(pre, inputs)[k] < run_state(pre, inputs).len(),
        run_state(pre, inputs)[run_handles(pre, inputs)[k]] == inputs[k],
{
    let s_k = run_state(pre, inputs.take(k));
    let s_k1 = run_state(pre, inputs.take(k + 1));
    let h = run_handles(pre, inputs)[k];
    let post = run_state(pre, inputs);
    lemma_run_state_basic(pre, inputs.take(k));
    lemma_run_prefix_step(pre, inputs, k);
    lemma_handle_of(s_k, inputs[k]);
    lemma_next_state(s_k, inputs[k]);
    assert(0 <= h < s_k1.len() && s_k1[h] == inputs[k]);
    lemma_run_decompose(pre, inputs, k + 1);
    lemma_run_state_basic(s_k1, inputs.skip(k + 1));
    assert(post.take(s_k1.len() as int) == s_k1);
    assert(post[h] == post.take(s_k1.len() as int)[h]);
}

/// The value `j` occurs among the issued handles.
pub open spec fn issued(handles: Seq<int>, j: int) -> bool {
    exists|k: int| 0 <= k < handles.len() && #[trigger] handles[k] == j
}

/// Every position of the final state beyond the starting state was issued as
/// a handle to some input of the trace.
proof fn lemma_run_surjective(pre: Seq<SigView>, inputs: Seq<SigView>, j: int)
    requires
        distinct(pre),
        pre.len() <= j < run_state(pre, inputs).len(),
    ensures
        issued(run_handles(pre, inputs), j),
    decreases inputs.len(),
{
    let post = run_state(pre, inputs);
    let handles = run_handles(pre, inputs);
    lemma_run_handles_len(pre, inputs);
    let d = inputs[0];
    let mid = next_state(pre, d);
    let rest = inputs.skip(1);
    lemma_next_state(pre, d);
    lemma_run_handles_len(mid, rest);
    lemma_handle_of(pre, d);
    if j >= mid.len() {
        lemma_run_surjective(mid, rest, j);
        let k0 = choose|k: int| 0 <= k < rest.len() && #[trigger] run_handles(mid, rest)[k] == j;
        assert(handles[k0 + 1] == j);
    } else {
        assert(mid.len() == pre.len() + 1 && j == pre.len());
        assert(!pre.contains(d)) by {
            if pre.contains(d) {
                assert(mid == pre);
            }
        }
        assert(handles[0] == j);
    }
}

/// Law (density and uniqueness): starting from an empty registry, however
/// the inputs repeat or interleave, every issued handle points at its
/// descriptor in the final state; two inputs receive the same handle exactly
/// when they are structurally equal; and the handles cover the contiguous
/// range from zero up to the number of distinct descriptors presented — so
/// the `n` distinct inputs hold exactly `n` distinct handles, each in
/// `[0, n)`, with no gap and no reuse.
pub proof fn lemma_density_and_uniqueness(inputs: Seq<SigView>)
    ensures
        ({
            let post = run_state(Seq::<SigView>::empty(), inputs);
            let handles = run_handles(Seq::<SigView>::empty(), inputs);
            &&& handles.len() == inputs.len()
            &&& distinct(post)
            &&& post.len() <= inputs.len()
            &&& forall|k: int|
                0 <= k < inputs.len() ==> 0 <= #[trigger] handles[k] < post.len()
                    && post[handles[k]] == inputs[k]
            &&& forall|k: int, l: int|
                0 <= k < inputs.len() && 0 <= l < inputs.len() ==> ((#[trigger] handles[k]
                    == #[trigger] handles[l]) <==> inputs[k] == inputs[l])
            &&& forall|j: int| 0 <= j < post.len() ==> #[trigger] issued(handles, j)
        }),
{
    let pre = Seq::<SigView>::empty();
    let post = run_state(pre, inputs);
    let handles = run_handles(pre, inputs);
    lemma_run_handles_len(pre, inputs);
    lemma_run_state_basic(pre, inputs);
    assert forall|j: int| 0 <= j < post.len() implies #[trigger] issued(handles, j) by {
        lemma_run_surjective(pre, inputs, j);
    }
    assert forall|k: int| 0 <= k < inputs.len() implies 0 <= #[trigger] handles[k] < post.len()
        && post[handles[k]] == inputs[k] by {
        lemma_run_handle_points(pre, inputs, k);
    }
    assert forall|k: int, l: int|
        0 <= k < inputs.len() && 0 <= l < inputs.len() implies ((#[trigger] handles[k]
        == #[trigger] handles[l]) <==> inputs[k] == inputs[l]) by {
        lemma_run_handle_points(pre, inputs, k);
        lemma_run_handle_points(pre, inputs, l);
    }
}

/// Law (insertion-order determinism): handles are assigned in first-seen
/// order. A descriptor's handle, issued at its first occurrence, equals the
/// number of distinct descriptors seen strictly before it; so of two
/// descriptors first seen at positions `k` and then `l`, the earlier one
/// holds the smaller handle.
pub proof fn lemma_first_seen_order(inputs: Seq<SigView>, k: int, l: int)
    requires
        0 <= k < l < inputs.len(),
        !inputs.take(k).contains(inputs[k]),
        !inputs.take(l).contains(inputs[l]),
    ensures
        ({
            let handles = run_handles(Seq::<SigView>::empty(), inputs);
            &&& handles[k] == run_state(Seq::<SigView>::empty(), inputs.take(k)).len()
            &&& handles[l] == run_state(Seq::<SigView>::empty(), inputs.take(l)).len()
            &&& handles[k] < handles[l]
        }),
{
    let pre = Seq::<SigView>::empty();
    let s_k = run_state(pre, inputs.take(k));
    let s_k1 = run_state(pre, inputs.take(k + 1));
    let s_l = run_state(pre, inputs.take(l));
    lemma_run_state_basic(pre, inputs.take(k));
    lemma_run_state_basic(pre, inputs.take(l));
    lemma_run_prefix_step(pre, inputs, k);
    lemma_run_prefix_step(pre, inputs, l);
    assert(!s_k.contains(inputs[k]));
    assert(!s_l.contains(inputs[l]));
    lemma_handle_of(s_k, inputs[k]);
    lemma_handle_of(s_l, inputs[l]);
    assert(s_k1.len() == s_k.len() + 1);
    lemma_run_decompose(pre, inputs.take(l), k + 1);
    assert(inputs.take(l).take(k + 1) =~= inputs.take(k + 1));
    lemma_run_state_basic(s_k1, inputs.take(l).skip(k + 1));
    assert(s_l == run_state(s_k1, inputs.take(l).skip(k + 1)));
    assert(s_l.len() >= s_k1.len());
}

} // verus!
