use vstd::prelude::*;

use crate::message::EventModel;

verus! {

/// The events of `t` that belong to client `id`, in emission order.
pub open spec fn client_events(t: Seq<EventModel>, id: u32) -> Seq<EventModel>
    decreases t.len(),
{
    if t.len() == 0 {
        Seq::<EventModel>::empty()
    } else {
        let rest = client_events(t.drop_last(), id);
        if t.last().client_id == id {
            rest.push(t.last())
        } else {
            rest
        }
    }
}

/// The ids carried by the `Connected` events of `t`, in emission order:
/// the ids in the order they were assigned.
pub open spec fn connected_ids(t: Seq<EventModel>) -> Seq<u32>
    decreases t.len(),
{
    if t.len() == 0 {
        Seq::<u32>::empty()
    } else {
        let rest = connected_ids(t.drop_last());
        if t.last().kind is Connected {
            rest.push(t.last().client_id)
        } else {
            rest
        }
    }
}

/// A client's stream that has begun and not ended: one `Connected` first,
/// followed only by `Message` events.
pub open spec fn open_client_trace(s: Seq<EventModel>) -> bool {
    &&& s.len() >= 1
    &&& s[0].kind is Connected
    &&& forall|i: int| 1 <= i < s.len() ==> (#[trigger] s[i].kind) is Message
}

/// A client's completed stream: one `Connected`, then only `Message`
/// events, closed by exactly one `Disconnected`.
pub open spec fn closed_client_trace(s: Seq<EventModel>) -> bool {
    &&& s.len() >= 2
    &&& s[0].kind is Connected
    &&& s.last().kind is Disconnected
    &&& forall|i: int| 1 <= i < s.len() - 1 ==> (#[trigger] s[i].kind) is Message
}

/// Every per-client stream is in one of three shapes: not yet connected,
/// connected and possibly talking, or disconnected for good. In particular
/// it is never reordered: no `Message` before `Connected` or after
/// `Disconnected`, and never more than one `Connected` or `Disconnected`.
pub open spec fn client_trace_shape(s: Seq<EventModel>) -> bool {
    s.len() == 0 || open_client_trace(s) || closed_client_trace(s)
}

/// Lifecycle events carry no payload: in a well-formed history, text
/// rides only on `Message` events.
pub open spec fn lifecycle_payloads_empty(t: Seq<EventModel>) -> bool {
    forall|k: int|
        0 <= k < t.len() ==> ((#[trigger] t[k]).kind is Message || t[k].message.len() == 0)
}

/// Appending one event extends exactly that event's per-client stream and
/// leaves every other client's stream untouched.
pub proof fn lemma_client_events_push(t: Seq<EventModel>, e: EventModel, id: u32)
    ensures
        e.client_id == id ==> client_events(t.push(e), id) == client_events(t, id).push(e),
        e.client_id != id ==> client_events(t.push(e), id) == client_events(t, id),
{
    assert(t.push(e).drop_last() =~= t);
    assert(t.push(e).last() == e);
}

/// Appending one event extends the assigned-id sequence exactly when the
/// event is a `Connected`, and with exactly that event's id.
pub proof fn lemma_connected_ids_push(t: Seq<EventModel>, e: EventModel)
    ensures
        e.kind is Connected ==> connected_ids(t.push(e)) == connected_ids(t).push(e.client_id),
        !(e.kind is Connected) ==> connected_ids(t.push(e)) == connected_ids(t),
{
    assert(t.push(e).drop_last() =~= t);
    assert(t.push(e).last() == e);
}

/// A client's stream of a concatenation is the concatenation of its
/// streams: what a client contributed to the delivered prefix comes before
/// what it still has sitting in the queue.
pub proof fn lemma_client_events_concat(a: Seq<EventModel>, b: Seq<EventModel>, id: u32)
    ensures
        client_events(a + b, id) == client_events(a, id) + client_events(b, id),
    decreases b.len(),
{
    if b.len() == 0 {
        assert(a + b =~= a);
        assert(client_events(a, id) + client_events(b, id) =~= client_events(a, id));
    } else {
        lemma_client_events_concat(a, b.drop_last(), id);
        assert((a + b).drop_last() =~= a + b.drop_last());
        assert((a + b).last() == b.last());
        if b.last().client_id == id {
            assert(client_events(a, id) + client_events(b, id)
                =~= (client_events(a, id) + client_events(b.drop_last(), id)).push(b.last()));
        } else {
            assert(client_events(b, id) == client_events(b.drop_last(), id));
        }
    }
}

/// A prefix of a well-shaped client stream is itself well-shaped: the
/// consumer never observes an ill-formed per-client subsequence, however
/// little of the stream it has drained so far.
pub proof fn lemma_client_trace_shape_prefix(s: Seq<EventModel>, n: int)
    requires
        0 <= n <= s.len(),
        client_trace_shape(s),
    ensures
        client_trace_shape(s.take(n)),
{
    let p = s.take(n);
    if n == 0 {
        assert(p.len() == 0);
    } else {
        assert(p[0] == s[0]);
        if n == s.len() {
            assert(p =~= s);
        } else {
            assert forall|i: int| 1 <= i < p.len() implies (#[trigger] p[i].kind) is Message by {
                assert(p[i] == s[i]);
            }
            assert(open_client_trace(p));
        }
    }
}

} // verus!
