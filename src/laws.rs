//! Properties of routing that hold across operations.

use vstd::prelude::*;
use crate::broker::{
    close_all, close_named, deliver, distinct, lemma_route_shape, open_id, recipients, route_all,
    serves, ChannelView,
};

verus! {

/// Routing only appends: every queue keeps what it held, in the same order, in
/// front of what routing adds, and what it adds is the routed body. With
/// `next_message` handing out the front of a queue, each writer sees its
/// messages in the order the broker accepted them.
pub proof fn lemma_route_keeps_order(
    cs: Seq<ChannelView>,
    dests: Seq<Seq<char>>,
    body: Seq<char>,
    i: int,
)
    requires
        0 <= i < cs.len(),
    ensures
        route_all(cs, dests, body)[i].pending.len() >= cs[i].pending.len(),
        route_all(cs, dests, body)[i].pending.take(cs[i].pending.len() as int) == cs[i].pending,
        forall|k: int|
            cs[i].pending.len() <= k < route_all(cs, dests, body)[i].pending.len()
                ==> #[trigger] route_all(cs, dests, body)[i].pending[k] == body,
    decreases dests.len(),
{
    if dests.len() > 0 {
        lemma_route_keeps_order(cs, dests.drop_last(), body, i);
        lemma_route_shape(cs, dests.drop_last(), body);
        let prev = route_all(cs, dests.drop_last(), body)[i].pending;
        assert(route_all(cs, dests, body)[i].pending.take(cs[i].pending.len() as int)
            =~= prev.take(cs[i].pending.len() as int));
    } else {
        assert(cs[i].pending.take(cs[i].pending.len() as int) =~= cs[i].pending);
    }
}

/// Once `n` is deregistered, routing delivers nothing to a queue registered
/// under `n`, and none of them is among the recipients.
pub proof fn lemma_no_delivery_after_deregister(
    cs: Seq<ChannelView>,
    n: Seq<char>,
    dests: Seq<Seq<char>>,
    body: Seq<char>,
)
    requires
        distinct(cs),
    ensures
        forall|i: int|
            0 <= i < cs.len() && cs[i].name == n ==> #[trigger] route_all(
                close_named(cs, n),
                dests,
                body,
            )[i] == close_named(cs, n)[i],
        forall|i: int|
            0 <= i < cs.len() && cs[i].name == n ==> !recipients(close_named(cs, n), dests).contains(
                #[trigger] cs[i].id,
            ),
    decreases dests.len(),
{
    let c2 = close_named(cs, n);
    if dests.len() > 0 {
        lemma_no_delivery_after_deregister(cs, n, dests.drop_last(), body);
        lemma_route_shape(c2, dests.drop_last(), body);
        let last = dests.last();
        assert forall|i: int| 0 <= i < cs.len() && cs[i].name == n implies !recipients(
            c2,
            dests,
        ).contains(#[trigger] cs[i].id) by {
            let prev = recipients(c2, dests.drop_last());
            assert(!prev.contains(cs[i].id));
            if open_id(c2, last) is Some {
                let k = choose|k: int| 0 <= k < c2.len() && serves(c2[k], last);
                assert(c2[k].id != cs[i].id) by {
                    if k != i {
                        assert(cs[k].id != cs[i].id);
                    }
                }
                let tail = seq![c2[k].id];
                assert(recipients(c2, dests) == prev + tail);
                assert(!tail.contains(cs[i].id)) by {
                    assert(tail[0] != cs[i].id);
                }
            } else {
                assert(recipients(c2, dests) =~= prev);
            }
        }
    }
}

/// A queue's removal, when its writer fails, changes no delivery to any other
/// queue.
pub proof fn lemma_removal_isolated(
    cs: Seq<ChannelView>,
    dests: Seq<Seq<char>>,
    body: Seq<char>,
    a: int,
)
    requires
        0 <= a < cs.len(),
    ensures
        route_all(cs.remove(a), dests, body) == route_all(cs, dests, body).remove(a),
    decreases dests.len(),
{
    if dests.len() > 0 {
        lemma_removal_isolated(cs, dests.drop_last(), body, a);
        lemma_route_shape(cs, dests.drop_last(), body);
        let prev = route_all(cs, dests.drop_last(), body);
        assert(deliver(prev.remove(a), dests.last(), body) =~= deliver(
            prev,
            dests.last(),
            body,
        ).remove(a));
    }
}

/// Deregistering `n`, when a reader ends, changes no delivery to a queue
/// registered under another name.
pub proof fn lemma_deregistration_isolated(
    cs: Seq<ChannelView>,
    n: Seq<char>,
    dests: Seq<Seq<char>>,
    body: Seq<char>,
    i: int,
)
    requires
        0 <= i < cs.len(),
        cs[i].name != n,
    ensures
        route_all(close_named(cs, n), dests, body)[i] == route_all(cs, dests, body)[i],
    decreases dests.len(),
{
    if dests.len() > 0 {
        lemma_deregistration_isolated(cs, n, dests.drop_last(), body, i);
        lemma_route_shape(cs, dests.drop_last(), body);
        lemma_route_shape(close_named(cs, n), dests.drop_last(), body);
    }
}

/// Shutdown keeps every queued message for its writer and no routing after it
/// adds any.
pub proof fn lemma_shutdown_drains(cs: Seq<ChannelView>, dests: Seq<Seq<char>>, body: Seq<char>)
    ensures
        close_all(cs).len() == cs.len(),
        forall|i: int| 0 <= i < cs.len() ==> #[trigger] close_all(cs)[i].pending == cs[i].pending,
        route_all(close_all(cs), dests, body) == close_all(cs),
    decreases dests.len(),
{
    if dests.len() > 0 {
        lemma_shutdown_drains(cs, dests.drop_last(), body);
        assert(deliver(close_all(cs), dests.last(), body) =~= close_all(cs));
    }
}

} // verus!
