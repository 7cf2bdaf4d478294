//! What holds of requests served one after the other.

use crate::command::{
    get_word, theorem_request_parses_back, parse_command, set_word, spells, text_at, CommandView,
    ParseErrorView,
};
use crate::frame::FrameView;
use crate::handler::{error_reply, executed, ok_text, Ending, EventView, StateView};
use vstd::prelude::*;
use vstd::utf8::encode_utf8;

verus! {

/// The store and the replies after a run of requests, served in order.
pub open spec fn served(store: Map<Seq<char>, Seq<u8>>, requests: Seq<FrameView>) -> (
    Map<Seq<char>, Seq<u8>>,
    Seq<FrameView>,
)
    decreases requests.len(),
{
    if requests.len() == 0 {
        (store, Seq::empty())
    } else {
        let before = served(store, requests.drop_last());
        let step = executed(before.0, requests.last());
        (step.0, before.1.push(step.1))
    }
}

/// The request that reads `key`.
pub open spec fn get_request(key: Seq<char>) -> FrameView {
    CommandView::Get { key }.request()
}

/// The request that stores `value` under `key`.
pub open spec fn set_request(key: Seq<char>, value: Seq<u8>) -> FrameView {
    CommandView::SetValue { key, value }.request()
}

/// The requests that make the writes, in their order.
pub open spec fn set_requests(writes: Seq<(Seq<char>, Seq<u8>)>) -> Seq<FrameView> {
    Seq::new(writes.len(), |i: int| set_request(writes[i].0, writes[i].1))
}

/// The store after the writes, made in their order.
pub open spec fn written(store: Map<Seq<char>, Seq<u8>>, writes: Seq<(Seq<char>, Seq<u8>)>) -> Map<
    Seq<char>,
    Seq<u8>,
>
    decreases writes.len(),
{
    if writes.len() == 0 {
        store
    } else {
        written(store, writes.drop_last()).insert(writes.last().0, writes.last().1)
    }
}

/// No two of the writes go to the same key.
pub open spec fn distinct_keys(writes: Seq<(Seq<char>, Seq<u8>)>) -> bool {
    forall|i: int, j: int|
        0 <= i < j < writes.len() ==> (#[trigger] writes[i]).0 != (#[trigger] writes[j]).0
}

/// A read does not change the store: `GET` of a key that holds no value is
/// answered with `Null` and leaves the store as it is, so it is answered
/// with `Null` however often it is repeated.
pub proof fn theorem_missing_key_reads_null(
    store: Map<Seq<char>, Seq<u8>>,
    key: Seq<char>,
    times: nat,
)
    requires
        !store.contains_key(key),
    ensures
        executed(store, get_request(key)) == (store, FrameView::Null),
        served(store, Seq::new(times, |i: int| get_request(key))) == (
            store,
            Seq::new(times, |i: int| FrameView::Null),
        ),
    decreases times,
{
    theorem_request_parses_back(CommandView::Get { key });
    let requests = Seq::new(times, |i: int| get_request(key));
    if times > 0 {
        let fewer = (times - 1) as nat;
        theorem_missing_key_reads_null(store, key, fewer);
        assert(requests.drop_last() == Seq::new(fewer, |i: int| get_request(key)));
        assert(Seq::new(fewer, |i: int| FrameView::Null).push(FrameView::Null) == Seq::new(
            times,
            |i: int| FrameView::Null,
        ));
    } else {
        assert(Seq::new(times, |i: int| FrameView::Null) == Seq::<FrameView>::empty());
    }
}

/// A `SET` is acknowledged with `OK`, and a `GET` of the same key after it
/// is answered with the value written, whatever the key held before.
pub proof fn theorem_get_after_set(
    store: Map<Seq<char>, Seq<u8>>,
    key: Seq<char>,
    value: Seq<u8>,
)
    ensures
        executed(store, set_request(key, value)) == (
            store.insert(key, value),
            FrameView::Simple(ok_text()),
        ),
        executed(store.insert(key, value), get_request(key)) == (
            store.insert(key, value),
            FrameView::Bulk(value),
        ),
{
    theorem_request_parses_back(CommandView::Get { key });
    theorem_request_parses_back(CommandView::SetValue { key, value });
}

/// The same `SET` repeated, then a `GET`: every `SET` is acknowledged, and
/// the `GET` is answered with the value written.
pub proof fn theorem_repeated_set_then_get(
    store: Map<Seq<char>, Seq<u8>>,
    key: Seq<char>,
    value: Seq<u8>,
    times: nat,
)
    requires
        times > 0,
    ensures
        served(store, Seq::new(times, |i: int| set_request(key, value))) == (
            store.insert(key, value),
            Seq::new(times, |i: int| FrameView::Simple(ok_text())),
        ),
        served(
            store,
            Seq::new(times, |i: int| set_request(key, value)).push(get_request(key)),
        ) == (
            store.insert(key, value),
            Seq::new(times, |i: int| FrameView::Simple(ok_text())).push(FrameView::Bulk(value)),
        ),
    decreases times,
{
    let sets = Seq::new(times, |i: int| set_request(key, value));
    let oks = Seq::new(times, |i: int| FrameView::Simple(ok_text()));
    let fewer = (times - 1) as nat;
    let fewer_sets = Seq::new(fewer, |i: int| set_request(key, value));
    let fewer_oks = Seq::new(fewer, |i: int| FrameView::Simple(ok_text()));
    assert(sets.drop_last() == fewer_sets);
    assert(fewer_oks.push(FrameView::Simple(ok_text())) == oks);
    if times > 1 {
        theorem_repeated_set_then_get(store, key, value, fewer);
        theorem_get_after_set(store.insert(key, value), key, value);
        assert(store.insert(key, value).insert(key, value) == store.insert(key, value));
    } else {
        assert(served(store, fewer_sets) == (store, Seq::<FrameView>::empty()));
        assert(fewer_oks == Seq::<FrameView>::empty());
        theorem_get_after_set(store, key, value);
    }
    assert(served(store, sets) == (store.insert(key, value), oks));
    assert(sets.push(get_request(key)).drop_last() == sets);
    theorem_get_after_set(store, key, value);
}

/// Serving the requests for a run of writes makes exactly those writes.
pub proof fn lemma_served_writes(
    store: Map<Seq<char>, Seq<u8>>,
    writes: Seq<(Seq<char>, Seq<u8>)>,
)
    ensures
        served(store, set_requests(writes)).0 == written(store, writes),
        served(store, set_requests(writes)).1 == Seq::new(
            writes.len(),
            |i: int| FrameView::Simple(ok_text()),
        ),
    decreases writes.len(),
{
    let requests = set_requests(writes);
    if writes.len() > 0 {
        let fewer = writes.drop_last();
        lemma_served_writes(store, fewer);
        assert(requests.drop_last() == set_requests(fewer));
        theorem_get_after_set(written(store, fewer), writes.last().0, writes.last().1);
        assert(Seq::new(fewer.len(), |i: int| FrameView::Simple(ok_text())).push(
            FrameView::Simple(ok_text()),
        ) == Seq::new(writes.len(), |i: int| FrameView::Simple(ok_text())));
    } else {
        assert(Seq::new(writes.len(), |i: int| FrameView::Simple(ok_text())) == Seq::<
            FrameView,
        >::empty());
    }
}

/// After a run of writes a key holds what the last write to it stored, and a
/// key that none of them wrote holds what it held before.
pub proof fn lemma_written_key(
    store: Map<Seq<char>, Seq<u8>>,
    writes: Seq<(Seq<char>, Seq<u8>)>,
    key: Seq<char>,
)
    ensures
        (forall|i: int| 0 <= i < writes.len() ==> (#[trigger] writes[i]).0 != key) ==> (written(
            store,
            writes,
        ).contains_key(key) == store.contains_key(key) && written(store, writes)[key]
            == store[key]),
        forall|i: int|
            0 <= i < writes.len() && (#[trigger] writes[i]).0 == key && (forall|j: int|
                i < j < writes.len() ==> (#[trigger] writes[j]).0 != key) ==> written(
                store,
                writes,
            ).contains_key(key) && written(store, writes)[key] == writes[i].1,
    decreases writes.len(),
{
    if writes.len() > 0 {
        let fewer = writes.drop_last();
        lemma_written_key(store, fewer, key);
        assert forall|i: int|
            0 <= i < writes.len() && (#[trigger] writes[i]).0 == key && (forall|j: int|
                i < j < writes.len() ==> (#[trigger] writes[j]).0
                    != key) implies written(store, writes).contains_key(key) && written(
            store,
            writes,
        )[key] == writes[i].1 by {
            if i < writes.len() - 1 {
                assert(writes[writes.len() - 1].0 != key);
                assert(fewer[i] == writes[i]);
                assert forall|j: int| i < j < fewer.len() implies (#[trigger] fewer[j]).0
                    != key by {
                    assert(fewer[j] == writes[j]);
                }
            }
        }
        if forall|i: int| 0 <= i < writes.len() ==> (#[trigger] writes[i]).0 != key {
            assert forall|i: int| 0 <= i < fewer.len() implies (#[trigger] fewer[i]).0 != key by {
                assert(fewer[i] == writes[i]);
            }
            assert(writes[writes.len() - 1].0 != key);
        }
    }
}

/// Two orders of the same writes to distinct keys leave the same under
/// every key.
proof fn lemma_same_writes_same_key(
    store: Map<Seq<char>, Seq<u8>>,
    writes: Seq<(Seq<char>, Seq<u8>)>,
    other_order: Seq<(Seq<char>, Seq<u8>)>,
    key: Seq<char>,
)
    requires
        distinct_keys(writes),
        distinct_keys(other_order),
        forall|w: (Seq<char>, Seq<u8>)| writes.contains(w) <==> other_order.contains(w),
    ensures
        written(store, writes).contains_key(key) == written(store, other_order).contains_key(key),
        written(store, writes).contains_key(key) ==> written(store, writes)[key] == written(
            store,
            other_order,
        )[key],
{
    lemma_written_key(store, writes, key);
    lemma_written_key(store, other_order, key);
    if exists|i: int| 0 <= i < writes.len() && (#[trigger] writes[i]).0 == key {
        let i = choose|i: int| 0 <= i < writes.len() && (#[trigger] writes[i]).0 == key;
        assert(writes.contains(writes[i]));
        assert(other_order.contains(writes[i]));
        let j = choose|j: int| 0 <= j < other_order.len() && other_order[j] == writes[i];
        assert(other_order[j].0 == key);
    } else {
        if exists|j: int| 0 <= j < other_order.len() && (#[trigger] other_order[j]).0 == key {
            let j = choose|j: int|
                0 <= j < other_order.len() && (#[trigger] other_order[j]).0 == key;
            assert(other_order.contains(other_order[j]));
            assert(writes.contains(other_order[j]));
            let i = choose|i: int| 0 <= i < writes.len() && writes[i] == other_order[j];
            assert(writes[i].0 == key);
        }
    }
}

/// Writes to keys that are all different do not get in each other's way:
/// whatever the order in which they are served, every one of them is
/// acknowledged, every key written then holds its own value, and every other
/// key holds what it held before. So two orders of the same writes leave the
/// same store.
pub proof fn theorem_writes_to_distinct_keys(
    store: Map<Seq<char>, Seq<u8>>,
    writes: Seq<(Seq<char>, Seq<u8>)>,
    other_order: Seq<(Seq<char>, Seq<u8>)>,
)
    requires
        distinct_keys(writes),
        distinct_keys(other_order),
        forall|w: (Seq<char>, Seq<u8>)| writes.contains(w) <==> other_order.contains(w),
    ensures
        served(store, set_requests(writes)).1 == Seq::new(
            writes.len(),
            |i: int| FrameView::Simple(ok_text()),
        ),
        forall|i: int|
            0 <= i < writes.len() ==> executed(
                served(store, set_requests(writes)).0,
                get_request((#[trigger] writes[i]).0),
            ).1 == FrameView::Bulk(writes[i].1),
        forall|key: Seq<char>|
            (forall|i: int| 0 <= i < writes.len() ==> (#[trigger] writes[i]).0 != key) ==> (
            #[trigger] served(store, set_requests(writes)).0.contains_key(key))
                == store.contains_key(key) && served(store, set_requests(writes)).0[key]
                == store[key],
        served(store, set_requests(writes)).0 == served(store, set_requests(other_order)).0,
{
    let a = written(store, writes);
    let b = written(store, other_order);
    lemma_served_writes(store, writes);
    lemma_served_writes(store, other_order);
    assert forall|key: Seq<char>|
        (forall|i: int| 0 <= i < writes.len() ==> (#[trigger] writes[i]).0 != key) implies (
        #[trigger] a.contains_key(key)) == store.contains_key(key) && a[key] == store[key] by {
        lemma_written_key(store, writes, key);
    }
    assert forall|i: int| 0 <= i < writes.len() implies executed(
        a,
        get_request((#[trigger] writes[i]).0),
    ).1 == FrameView::Bulk(writes[i].1) by {
        lemma_written_key(store, writes, writes[i].0);
        theorem_request_parses_back(CommandView::Get { key: writes[i].0 });
    }
    assert forall|key: Seq<char>| #[trigger]
        a.dom().contains(key) == b.dom().contains(key) && (a.dom().contains(key) ==> a[key]
            == b[key]) by {
        lemma_same_writes_same_key(store, writes, other_order, key);
    }
    assert(a =~= b);
}

/// A request whose first item names no known command is refused with the
/// error that carries the name.
pub proof fn theorem_unknown_name_is_refused(items: Seq<FrameView>, name: Seq<char>)
    requires
        text_at(items, 0) == Ok::<Seq<char>, ParseErrorView>(name),
        !spells(encode_utf8(name), get_word()),
        !spells(encode_utf8(name), set_word()),
    ensures
        parse_command(FrameView::Array(items)) == Err::<CommandView, ParseErrorView>(
            ParseErrorView::Unknown(name),
        ),
{
}

/// A request that is no command does not end the connection: it is answered
/// with an error frame, the store stays as it was, and once the answer is
/// written the connection waits for the next request.
pub proof fn theorem_refused_request_keeps_connection(
    store: Map<Seq<char>, Seq<u8>>,
    request: FrameView,
)
    requires
        parse_command(request) is Err,
    ensures
        StateView::AwaitingFrame.after(EventView::FrameRead(request)) == StateView::Dispatching(
            request,
        ),
        StateView::Dispatching(request).dispatched(store) == (
            StateView::Responding(error_reply(parse_command(request)->Err_0)),
            store,
        ),
        error_reply(parse_command(request)->Err_0) is Error,
        StateView::Responding(error_reply(parse_command(request)->Err_0)).after(
            EventView::Written,
        ) == StateView::AwaitingFrame,
{
}

/// The store and the state after a run of events, each followed by a
/// dispatch where one is due.
pub open spec fn driven(
    state: StateView,
    store: Map<Seq<char>, Seq<u8>>,
    events: Seq<EventView>,
) -> (StateView, Map<Seq<char>, Seq<u8>>)
    decreases events.len(),
{
    if events.len() == 0 {
        (state, store)
    } else {
        let before = driven(state, store, events.drop_last());
        before.0.after(events.last()).dispatched(before.1)
    }
}

/// A closed connection is served no more: whatever is reported afterwards,
/// it stays closed with the ending that it had, and the store is not touched
/// on its behalf.
pub proof fn theorem_closed_is_final(
    ending: Ending,
    store: Map<Seq<char>, Seq<u8>>,
    events: Seq<EventView>,
)
    ensures
        driven(StateView::Closed(ending), store, events) == (StateView::Closed(ending), store),
    decreases events.len(),
{
    if events.len() > 0 {
        theorem_closed_is_final(ending, store, events.drop_last());
    }
}

} // verus!
