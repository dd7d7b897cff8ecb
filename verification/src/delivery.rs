//! Messages that were cut into fragments come out whole at servers and clients.
use crate::client2::{resized, slot_used, slot_written_to, zeros, Client2View};
use crate::fragment::{arrived, chunk_count, chunk_len, is_chunk};
use crate::packet::Fragment;
use crate::server::{all_filled, empty_slots, slot_bytes, ServerView};
use vstd::prelude::*;

verus! {

/// The server after some fragments.
pub open spec fn fed(v: ServerView, key: (u64, u8), frags: Seq<Fragment>) -> ServerView
    decreases frags.len(),
{
    if frags.len() == 0 {
        v
    } else {
        fed(v, key, frags.drop_last()).after_fragment(key, frags.last())
    }
}

/// Every fragment is one of the message.
pub open spec fn chunks_of(frags: Seq<Fragment>, bytes: Seq<u8>) -> bool {
    forall|k: int|
        0 <= k < frags.len() ==> is_chunk(
            #[trigger] frags[k],
            bytes,
            frags[k].fragment_index as int,
        )
}

/// Every fragment of the message has arrived.
pub open spec fn all_arrived(frags: Seq<Fragment>, bytes: Seq<u8>) -> bool {
    forall|i: int| 0 <= i < chunk_count(bytes.len() as int) ==> #[trigger] arrived(frags, i)
}

/// A slot holds nothing, or its piece of the message.
pub open spec fn slot_ok(slot: Option<[u8; 128]>, bytes: Seq<u8>, i: int) -> bool {
    match slot {
        Some(data) => forall|j: int|
            0 <= j < 128 ==> #[trigger] data@[j] == (if 128 * i + j < bytes.len() {
                bytes[128 * i + j]
            } else {
                0
            }),
        None => true,
    }
}

/// The slots hold the pieces that have arrived.
pub open spec fn slots_ok(
    slots: Seq<Option<[u8; 128]>>,
    frags: Seq<Fragment>,
    bytes: Seq<u8>,
) -> bool {
    &&& slots.len() == chunk_count(bytes.len() as int)
    &&& forall|i: int|
        0 <= i < slots.len() ==> slot_ok(#[trigger] slots[i], bytes, i) && (slots[i] is Some
            <==> arrived(frags, i))
}

proof fn lemma_arrived(frags: Seq<Fragment>, i: int)
    requires
        frags.len() > 0,
    ensures
        arrived(frags, i) <==> arrived(frags.drop_last(), i) || frags.last().fragment_index == i,
{
    let init = frags.drop_last();
    if arrived(init, i) {
        let k = choose|k: int| 0 <= k < init.len() && (#[trigger] init[k]).fragment_index == i;
        assert(frags[k].fragment_index == i);
    }
    if frags.last().fragment_index == i {
        assert(frags[frags.len() - 1].fragment_index == i);
    }
    if arrived(frags, i) {
        let k = choose|k: int| 0 <= k < frags.len() && (#[trigger] frags[k]).fragment_index == i;
        if k < init.len() {
            assert(init[k].fragment_index == i);
        }
    }
}

proof fn lemma_filled(
    slots: Seq<Option<[u8; 128]>>,
    frags: Seq<Fragment>,
    bytes: Seq<u8>,
)
    requires
        frags.len() > 0,
        chunks_of(frags, bytes),
        slots_ok(slots, frags.drop_last(), bytes),
    ensures
        slots_ok(
            slots.update(frags.last().fragment_index as int, Some(frags.last().data)),
            frags,
            bytes,
        ),
{
    let f = frags.last();
    let at = f.fragment_index as int;
    let after = slots.update(at, Some(f.data));
    assert(frags[frags.len() - 1] == f);
    assert(is_chunk(f, bytes, at));
    assert forall|i: int| 0 <= i < after.len() implies slot_ok(#[trigger] after[i], bytes, i) && (
    after[i] is Some <==> arrived(frags, i)) by {
        lemma_arrived(frags, i);
        if i != at {
            assert(after[i] == slots[i]);
        }
    }
}

/// The server while a message is under way.
proof fn lemma_fed(v: ServerView, key: (u64, u8), bytes: Seq<u8>, frags: Seq<Fragment>)
    requires
        !v.partial.contains_key(key),
        !v.lengths.contains_key(key),
        chunks_of(frags, bytes),
        chunk_count(bytes.len() as int) <= u64::MAX,
        frags.len() > 0,
        !all_arrived(frags, bytes),
    ensures
        ({
            let w = fed(v, key, frags);
            let n = chunk_count(bytes.len() as int);
            &&& w.partial.contains_key(key)
            &&& slots_ok(w.partial[key], frags, bytes)
            &&& w.lengths.contains_key(key) <==> arrived(frags, n - 1)
            &&& w.lengths.contains_key(key) ==> w.lengths[key] == chunk_len(
                bytes.len() as int,
                n - 1,
            )
        }),
    decreases frags.len(),
{
    let init = frags.drop_last();
    let f = frags.last();
    let n = chunk_count(bytes.len() as int);
    assert(frags[frags.len() - 1] == f);
    assert(is_chunk(f, bytes, f.fragment_index as int));
    assert(chunks_of(init, bytes)) by {
        assert forall|k: int| 0 <= k < init.len() implies is_chunk(
            #[trigger] init[k],
            bytes,
            init[k].fragment_index as int,
        ) by {
            assert(init[k] == frags[k]);
        }
    }
    let u = fed(v, key, init);
    lemma_arrived(frags, n - 1);
    if init.len() == 0 {
        assert(u == v);
        let slots = empty_slots(f.total_n_fragments);
        assert(slots_ok(slots, init, bytes));
    } else {
        let i = choose|i: int| 0 <= i < n && !(#[trigger] arrived(frags, i));
        lemma_arrived(frags, i);
        assert(!arrived(init, i));
        lemma_fed(v, key, bytes, init);
    }
    let slots = u.slots(key, f);
    assert(slots_ok(slots, init, bytes));
    lemma_filled(slots, frags, bytes);
    let i = choose|i: int| 0 <= i < n && !(#[trigger] arrived(frags, i));
    let filled = u.filled(key, f);
    assert(filled[i] is None);
    assert(!all_filled(filled));
    if u.duplicate(key, f) {
        assert(filled.len() == slots.len());
        assert forall|k: int| 0 <= k < slots.len() implies slot_ok(#[trigger] slots[k], bytes, k)
            && (slots[k] is Some <==> arrived(frags, k)) by {
            lemma_arrived(frags, k);
        }
        assert(slots_ok(slots, frags, bytes));
    }
}

/// A message that reaches a server in fragments, in whatever order and however often
/// they arrive, is whole exactly when the last missing fragment arrives, and then it is
/// the message that was sent.
pub proof fn law_servers_put_messages_together(
    v: ServerView,
    key: (u64, u8),
    bytes: Seq<u8>,
    frags: Seq<Fragment>,
)
    requires
        !v.partial.contains_key(key),
        !v.lengths.contains_key(key),
        chunks_of(frags, bytes),
        chunk_count(bytes.len() as int) <= u64::MAX,
        frags.len() > 0,
        !all_arrived(frags.drop_last(), bytes),
    ensures
        ({
            let u = fed(v, key, frags.drop_last());
            let f = frags.last();
            &&& u.completes(key, f) <==> all_arrived(frags, bytes)
            &&& u.completes(key, f) ==> u.completed(key, f) == bytes
        }),
{
    let init = frags.drop_last();
    let f = frags.last();
    let n = chunk_count(bytes.len() as int);
    assert(frags[frags.len() - 1] == f);
    assert(is_chunk(f, bytes, f.fragment_index as int));
    assert(chunks_of(init, bytes)) by {
        assert forall|k: int| 0 <= k < init.len() implies is_chunk(
            #[trigger] init[k],
            bytes,
            init[k].fragment_index as int,
        ) by {
            assert(init[k] == frags[k]);
        }
    }
    let u = fed(v, key, init);
    if init.len() > 0 {
        lemma_fed(v, key, bytes, init);
    } else {
        assert(u == v);
        assert(slots_ok(empty_slots(f.total_n_fragments), init, bytes));
    }
    let slots = u.slots(key, f);
    assert(slots_ok(slots, init, bytes));
    lemma_filled(slots, frags, bytes);
    let filled = u.filled(key, f);
    let missing = choose|i: int| 0 <= i < n && !(#[trigger] arrived(init, i));
    assert(slots[missing] is None);
    if u.completes(key, f) {
        assert forall|i: int| 0 <= i < n implies #[trigger] arrived(frags, i) by {
            assert(filled[i] is Some);
        }
    }
    if all_arrived(frags, bytes) {
        lemma_arrived(frags, missing);
        assert(arrived(frags, missing));
        assert(f.fragment_index == missing);
        assert(!u.duplicate(key, f));
        assert forall|i: int| 0 <= i < filled.len() implies (#[trigger] filled[i]) is Some by {
            assert(arrived(frags, i));
        }
        lemma_arrived(frags, n - 1);
        assert(arrived(frags, n - 1));
        let last = u.last_length(key, f);
        let tail = chunk_len(bytes.len() as int, n - 1);
        assert(last == Some(tail as u8));
        let size = n * 128 - 128 + tail;
        assert(size == bytes.len());
        let whole = slot_bytes(filled);
        assert forall|k: int| 0 <= k < bytes.len() implies #[trigger] whole[k] == bytes[k] by {
            let i = k / 128;
            let j = k % 128;
            assert(0 <= i < n && 0 <= j < 128 && 128 * i + j == k);
            assert(slot_ok(filled[i], bytes, i));
            assert((filled[i]->0)@[j] == bytes[128 * i + j]);
        }
        assert(u.completed(key, f) =~= bytes);
    }
}

/// The client after the first `k` fragments of a message.
pub open spec fn received_after(v: Client2View, session: u64, frags: Seq<Fragment>, k: int) -> Client2View
    decreases k,
{
    if k <= 0 {
        v
    } else {
        received_after(v, session, frags, k - 1).after_fragment(session, frags[k - 1])
    }
}

/// The first `k` fragments of a message in place, and zeros behind them.
pub open spec fn front(bytes: Seq<u8>, size: int, k: int) -> Seq<u8> {
    Seq::new(
        size as nat,
        |i: int|
            if i < 128 * k && i < bytes.len() {
                bytes[i]
            } else {
                0u8
            },
    )
}

proof fn lemma_buffer(
    v: Client2View,
    session: u64,
    bytes: Seq<u8>,
    frags: Seq<Fragment>,
    k: int,
)
    requires
        !v.received.contains_key(session),
        frags.len() == chunk_count(bytes.len() as int),
        forall|i: int| 0 <= i < frags.len() ==> is_chunk(#[trigger] frags[i], bytes, i),
        forall|i: int| 0 <= i < bytes.len() ==> #[trigger] bytes[i] != 0,
        0 <= k < frags.len(),
    ensures
        ({
            let w = received_after(v, session, frags, k);
            let n = frags.len() as int;
            &&& w.buffer(session, frags[k]) == front(bytes, n * 128, k + 1)
            &&& w.completes(session, frags[k]) <==> k == n - 1
        }),
    decreases k,
{
    let n = frags.len() as int;
    let size = n * 128;
    let w = received_after(v, session, frags, k);
    let f = frags[k];
    assert(is_chunk(f, bytes, k));
    let before = if w.received.contains_key(session) {
        resized(w.received[session], size)
    } else {
        zeros(size)
    };
    if k > 0 {
        lemma_buffer(v, session, bytes, frags, k - 1);
        assert(is_chunk(frags[k - 1], bytes, k - 1));
        let u = received_after(v, session, frags, k - 1);
        assert(!u.completes(session, frags[k - 1]));
        assert(w.received[session] == front(bytes, size, k));
        assert(before =~= front(bytes, size, k));
    } else {
        assert(before =~= front(bytes, size, 0));
    }
    let buffer = w.buffer(session, f);
    assert(buffer =~= front(bytes, size, k + 1));
    if k < n - 1 {
        assert(!slot_used(buffer, n - 1, f.length as int)) by {
            assert forall|j: int| 0 <= j < f.length as int implies #[trigger] buffer[(n - 1) * 128
                + j] == 0 by {
                assert((n - 1) * 128 + j >= 128 * (k + 1));
            }
        }
        assert(!slot_written_to(buffer, n - 1, n, f.length as int));
    } else {
        assert forall|i: int| 0 <= i < n implies #[trigger] slot_written_to(
            buffer,
            i,
            n,
            f.length as int,
        ) by {
            assert(buffer[i * 128 + 0] == bytes[i * 128]);
            assert(f.length > 0);
        }
    }
}

/// A text that reaches a client in fragments, one after the other, is whole when the
/// last one arrives and not before, and then it is the text that was sent. A text holds
/// no zero bytes.
pub proof fn law_clients_put_messages_together(
    v: Client2View,
    session: u64,
    bytes: Seq<u8>,
    frags: Seq<Fragment>,
    k: int,
)
    requires
        !v.received.contains_key(session),
        frags.len() == chunk_count(bytes.len() as int),
        forall|i: int| 0 <= i < frags.len() ==> is_chunk(#[trigger] frags[i], bytes, i),
        forall|i: int| 0 <= i < bytes.len() ==> #[trigger] bytes[i] != 0,
        0 <= k < frags.len(),
    ensures
        ({
            let w = received_after(v, session, frags, k);
            &&& w.completes(session, frags[k]) <==> k == frags.len() - 1
            &&& w.completes(session, frags[k]) ==> w.completed(session, frags[k]) == bytes
        }),
{
    lemma_buffer(v, session, bytes, frags, k);
    let n = frags.len() as int;
    let w = received_after(v, session, frags, k);
    assert(is_chunk(frags[k], bytes, k));
    if k == n - 1 {
        assert((n - 1) * 128 + frags[k].length == bytes.len());
        assert(w.completed(session, frags[k]) =~= bytes);
    }
}

}
