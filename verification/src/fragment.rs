//! Cutting messages into fragments and putting them together again.
use crate::packet::Fragment;
use std::collections::HashSet;
use vstd::prelude::*;
use vstd::utf8::*;

verus! {

broadcast use vstd::std_specs::hash::group_hash_axioms;

/// Number of fragments that `len` bytes take.
pub open spec fn chunk_count(len: int) -> int {
    len / 128 + (if len % 128 == 0 {
        0int
    } else {
        1int
    })
}

/// Number of bytes of the message that fragment `i` carries.
pub open spec fn chunk_len(len: int, i: int) -> int {
    if len - 128 * i < 128 {
        len - 128 * i
    } else {
        128
    }
}

/// `f` is fragment `i` of the message `bytes`: it carries bytes `128 * i` on,
/// filled up with zeros.
pub open spec fn is_chunk(f: Fragment, bytes: Seq<u8>, i: int) -> bool {
    &&& 0 <= i < chunk_count(bytes.len() as int)
    &&& f.fragment_index == i
    &&& f.total_n_fragments == chunk_count(bytes.len() as int)
    &&& f.length == chunk_len(bytes.len() as int, i)
    &&& forall|j: int|
        0 <= j < 128 ==> #[trigger] f.data@[j] == (if 128 * i + j < bytes.len() {
            bytes[128 * i + j]
        } else {
            0
        })
}

/// `frags` are the fragments of the message `bytes`, in order.
pub open spec fn are_chunks(frags: Seq<Fragment>, bytes: Seq<u8>) -> bool {
    &&& frags.len() == chunk_count(bytes.len() as int)
    &&& forall|i: int| 0 <= i < frags.len() ==> is_chunk(#[trigger] frags[i], bytes, i)
}

/// The fragments of a message are determined by it.
pub proof fn law_fragments_unique(a: Seq<Fragment>, b: Seq<Fragment>, bytes: Seq<u8>)
    requires
        are_chunks(a, bytes),
        are_chunks(b, bytes),
    ensures
        a == b,
{
    assert forall|i: int| 0 <= i < a.len() implies a[i] == b[i] by {
        assert(is_chunk(a[i], bytes, i));
        assert(is_chunk(b[i], bytes, i));
        assert(a[i].data@ =~= b[i].data@);
        assert(a[i].data =~= b[i].data);
    }
    assert(a =~= b);
}

/// Cuts a message into fragments.
pub fn fragment_bytes(bytes: &[u8]) -> (r: Vec<Fragment>)
    ensures
        are_chunks(r@, bytes@),
{
    let len: usize = bytes.len();
    let total: usize = len / 128 + (if len % 128 == 0 {
        0usize
    } else {
        1usize
    });
    let mut r: Vec<Fragment> = Vec::new();
    let mut i: usize = 0;
    while i < total
        invariant
            len == bytes@.len(),
            total == chunk_count(len as int),
            i <= total,
            r@.len() == i,
            forall|k: int| 0 <= k < i ==> is_chunk(#[trigger] r@[k], bytes@, k),
        decreases total - i,
    {
        let start: usize = i * 128;
        let size: usize = if len - start < 128 {
            len - start
        } else {
            128
        };
        let mut data: [u8; 128] = [0u8; 128];
        let mut j: usize = 0;
        while j < size
            invariant
                len == bytes@.len(),
                start == 128 * i,
                start + size <= len,
                size == chunk_len(len as int, i as int),
                size <= 128,
                j <= size,
                forall|k: int|
                    0 <= k < 128 ==> #[trigger] data@[k] == (if k < j {
                        bytes@[start + k]
                    } else {
                        0
                    }),
            decreases size - j,
        {
            data[j] = bytes[start + j];
            j = j + 1;
        }
        r.push(
            Fragment {
                fragment_index: i as u64,
                total_n_fragments: total as u64,
                length: size as u8,
                data,
            },
        );
        i = i + 1;
    }
    r
}

/// Progress of a message that arrives in fragments.
#[derive(Debug)]
pub struct ReceivedMessageState {
    pub data: Vec<u8>,
    pub total_fragments: u64,
    pub received_indices: HashSet<u64>,
    pub last_fragment_len: Option<u8>,
}

#[verifier::ext_equal]
pub struct ReceivedView {
    pub data: Seq<u8>,
    pub total: u64,
    pub indices: Set<u64>,
    pub last_len: Option<u8>,
}

impl View for ReceivedMessageState {
    type V = ReceivedView;

    open spec fn view(&self) -> ReceivedView {
        ReceivedView {
            data: self.data@,
            total: self.total_fragments,
            indices: self.received_indices@,
            last_len: self.last_fragment_len,
        }
    }
}

/// The fragment counts itself among at least one, carries no more than it has
/// room for, and its place in the message can be addressed.
pub open spec fn well_sized(f: Fragment) -> bool {
    &&& f.total_n_fragments >= 1
    &&& f.length <= 128
    &&& f.total_n_fragments * 128 <= isize::MAX
    &&& f.fragment_index * 128 + 128 <= usize::MAX
    &&& f.fragment_index * 128 <= u64::MAX
}

/// Whether a fragment is well sized.
pub fn fragment_well_sized(f: &Fragment) -> (r: bool)
    ensures
        r == well_sized(*f),
{
    f.total_n_fragments >= 1 && f.length <= 128 && f.total_n_fragments as u128 * 128
        <= isize::MAX as u128 && f.fragment_index as u128 * 128 + 128 <= usize::MAX as u128
        && f.fragment_index as u128 * 128 <= u64::MAX as u128
}

/// `data` with the first `n` bytes of `piece` written from position `at` on.
pub open spec fn overwritten(data: Seq<u8>, at: int, piece: Seq<u8>, n: int) -> Seq<u8> {
    Seq::new(
        data.len(),
        |k: int|
            if at <= k < at + n {
                piece[k - at]
            } else {
                data[k]
            },
    )
}

/// Progress before the first fragment of a message of `total` fragments.
pub open spec fn fresh(total: u64) -> ReceivedView {
    ReceivedView {
        data: Seq::new((total * 128) as nat, |k: int| 0u8),
        total,
        indices: Set::empty(),
        last_len: None,
    }
}

/// Progress after fragment `f`. A fragment that arrived before changes nothing;
/// one that does not fit leaves at most its length behind.
pub open spec fn accepted(st: ReceivedView, f: Fragment) -> ReceivedView {
    if st.indices.contains(f.fragment_index) {
        st
    } else {
        let last_len = if f.fragment_index == f.total_n_fragments - 1 {
            Some(f.length)
        } else {
            st.last_len
        };
        let at = f.fragment_index * 128;
        if at + f.length <= st.data.len() {
            ReceivedView {
                data: overwritten(st.data, at, f.data@, f.length as int),
                total: st.total,
                indices: st.indices.insert(f.fragment_index),
                last_len,
            }
        } else {
            ReceivedView { last_len, ..st }
        }
    }
}

/// Fragment `f` is the one that completes the message.
pub open spec fn completes(st: ReceivedView, f: Fragment) -> bool {
    &&& !st.indices.contains(f.fragment_index)
    &&& f.fragment_index * 128 + f.length <= st.data.len()
    &&& accepted(st, f).indices.len() == st.total
}

/// The first `n` bytes, or all of them where there are fewer.
pub open spec fn at_most(data: Seq<u8>, n: int) -> Seq<u8> {
    if n < data.len() {
        data.subrange(0, n)
    } else {
        data
    }
}

/// The message, once `f` has completed it.
pub open spec fn assembled(st: ReceivedView, f: Fragment) -> Seq<u8> {
    match st.last_len {
        Some(last) => at_most(st.data, (st.total - 1) * 128 + last),
        None => if st.total == 1 {
            at_most(st.data, f.length as int)
        } else {
            st.data
        },
    }
}

impl ReceivedMessageState {
    /// Progress before the first fragment.
    pub fn fresh(total: u64) -> (r: Self)
        requires
            total * 128 <= isize::MAX,
        ensures
            r@ == fresh(total),
    {
        let r = ReceivedMessageState {
            data: vec![0u8; (total * 128) as usize],
            total_fragments: total,
            received_indices: HashSet::new(),
            last_fragment_len: None,
        };
        assert(r@ =~= fresh(total));
        r
    }

    /// Takes a fragment in; returns the message where the fragment completes it.
    pub fn accept(&mut self, f: &Fragment) -> (r: Option<Vec<u8>>)
        requires
            well_sized(*f),
            old(self).total_fragments >= 1,
            old(self).total_fragments * 128 <= isize::MAX,
        ensures
            final(self)@ == accepted(old(self)@, *f),
            match r {
                Some(message) => completes(old(self)@, *f) && message@ == assembled(final(self)@, *f),
                None => !completes(old(self)@, *f),
            },
    {
        if self.received_indices.contains(&f.fragment_index) {
            return None;
        }
        if f.fragment_index == f.total_n_fragments - 1 {
            self.last_fragment_len = Some(f.length);
        }
        let at: usize = (f.fragment_index * 128) as usize;
        let n: usize = f.length as usize;
        if at + n > self.data.len() {
            return None;
        }
        let ghost whole = self.data@;
        assert(self.data.len() == whole.len());
        let mut j: usize = 0;
        while j < n
            invariant
                n == f.length,
                n <= 128,
                j <= n,
                at + n <= whole.len(),
                whole.len() <= usize::MAX,
                self.data@ == overwritten(whole, at as int, f.data@, j as int),
                self.total_fragments == old(self).total_fragments,
                self.received_indices == old(self).received_indices,
                self.last_fragment_len == (if f.fragment_index == f.total_n_fragments - 1 {
                    Some(f.length)
                } else {
                    old(self).last_fragment_len
                }),
            decreases n - j,
        {
            let b: u8 = f.data[j];
            self.data.set(at + j, b);
            j = j + 1;
            assert(self.data@ =~= overwritten(whole, at as int, f.data@, j as int));
        }
        self.received_indices.insert(f.fragment_index);
        assert(self@ =~= accepted(old(self)@, *f));
        if self.received_indices.len() as u64 != self.total_fragments {
            return None;
        }
        let keep: usize = match self.last_fragment_len {
            Some(last) => (self.total_fragments as usize - 1) * 128 + last as usize,
            None => if self.total_fragments == 1 {
                n
            } else {
                self.data.len()
            },
        };
        let mut message: Vec<u8> = Vec::new();
        let mut k: usize = 0;
        while k < self.data.len() && k < keep
            invariant
                k <= self.data@.len(),
                k <= keep,
                message@ == self.data@.subrange(0, k as int),
            decreases self.data@.len() - k,
        {
            message.push(self.data[k]);
            k = k + 1;
        }
        assert(message@ =~= assembled(self@, *f));
        Some(message)
    }
}

/// Progress after a series of fragments.
pub open spec fn accepted_all(st: ReceivedView, arrivals: Seq<Fragment>) -> ReceivedView
    decreases arrivals.len(),
{
    if arrivals.len() == 0 {
        st
    } else {
        accepted(accepted_all(st, arrivals.drop_last()), arrivals.last())
    }
}

/// `st` holds what arrived so far of the message `bytes`.
spec fn holds_part(st: ReceivedView, bytes: Seq<u8>) -> bool {
    let n = chunk_count(bytes.len() as int);
    &&& st.total == n
    &&& st.data.len() == n * 128
    &&& st.indices.finite()
    &&& forall|i: u64| #[trigger] st.indices.contains(i) ==> i < n
    &&& forall|i: u64, j: int|
        0 <= j < chunk_len(bytes.len() as int, i as int) && #[trigger] st.indices.contains(i)
            ==> #[trigger] st.data[128 * i + j] == bytes[128 * i + j]
    &&& st.last_len == (if st.indices.contains((n - 1) as u64) {
        Some(chunk_len(bytes.len() as int, n - 1) as u8)
    } else {
        None
    })
}

proof fn lemma_accept_chunk(st: ReceivedView, bytes: Seq<u8>, f: Fragment, i: int)
    requires
        holds_part(st, bytes),
        is_chunk(f, bytes, i),
        chunk_count(bytes.len() as int) <= u64::MAX,
    ensures
        holds_part(accepted(st, f), bytes),
        accepted(st, f).indices == st.indices.insert(i as u64),
        f.fragment_index * 128 + f.length <= st.data.len(),
{
    let n = chunk_count(bytes.len() as int);
    let st2 = accepted(st, f);
    if st.indices.contains(f.fragment_index) {
        assert(st.indices.insert(i as u64) =~= st.indices);
    } else {
        assert forall|k: u64, j: int|
            0 <= j < chunk_len(bytes.len() as int, k as int) && #[trigger] st2.indices.contains(
                k,
            ) implies #[trigger] st2.data[128 * k + j] == bytes[128 * k + j] by {
            if k == i {
                assert(f.data@[j] == bytes[128 * i + j]);
            } else {
                assert(st.indices.contains(k));
                assert(st.data[128 * k + j] == bytes[128 * k + j]);
            }
        }
    }
}

proof fn lemma_arrivals(bytes: Seq<u8>, arrivals: Seq<Fragment>)
    requires
        bytes.len() > 0,
        chunk_count(bytes.len() as int) <= u64::MAX,
        forall|k: int|
            0 <= k < arrivals.len() ==> is_chunk(
                #[trigger] arrivals[k],
                bytes,
                arrivals[k].fragment_index as int,
            ),
    ensures
        ({
            let st = accepted_all(fresh(chunk_count(bytes.len() as int) as u64), arrivals);
            &&& holds_part(st, bytes)
            &&& forall|i: u64| #[trigger]
                st.indices.contains(i) <==> exists|k: int|
                    0 <= k < arrivals.len() && #[trigger] arrivals[k].fragment_index == i
        }),
    decreases arrivals.len(),
{
    let n = chunk_count(bytes.len() as int);
    if arrivals.len() > 0 {
        let init = arrivals.drop_last();
        assert forall|k: int| 0 <= k < init.len() implies is_chunk(
            #[trigger] init[k],
            bytes,
            init[k].fragment_index as int,
        ) by {
            assert(init[k] == arrivals[k]);
        }
        lemma_arrivals(bytes, init);
        let before = accepted_all(fresh(n as u64), init);
        let f = arrivals.last();
        assert(is_chunk(f, bytes, f.fragment_index as int));
        lemma_accept_chunk(before, bytes, f, f.fragment_index as int);
        let st = accepted_all(fresh(n as u64), arrivals);
        assert forall|i: u64| #[trigger] st.indices.contains(i) <==> exists|k: int|
            0 <= k < arrivals.len() && #[trigger] arrivals[k].fragment_index == i by {
            if st.indices.contains(i) {
                if i == f.fragment_index {
                    assert(arrivals[arrivals.len() - 1].fragment_index == i);
                } else {
                    assert(before.indices.contains(i));
                    let k = choose|k: int| 0 <= k < init.len() && #[trigger] init[k].fragment_index == i;
                    assert(arrivals[k].fragment_index == i);
                }
            }
            if exists|k: int| 0 <= k < arrivals.len() && #[trigger] arrivals[k].fragment_index == i {
                let k = choose|k: int|
                    0 <= k < arrivals.len() && #[trigger] arrivals[k].fragment_index == i;
                if k < init.len() {
                    assert(init[k].fragment_index == i);
                    assert(before.indices.contains(i));
                }
            }
        }
    }
}

proof fn lemma_all_indices(s: Set<u64>, n: u64)
    requires
        s.finite(),
        forall|i: u64| #[trigger] s.contains(i) ==> i < n,
    ensures
        s.len() <= n,
        s.len() == n <==> forall|i: u64| i < n ==> #[trigger] s.contains(i),
    decreases n,
{
    if n == 0 {
        assert(s =~= Set::empty());
    } else {
        let m = (n - 1) as u64;
        let r = s.remove(m);
        lemma_all_indices(r, m);
        if s.contains(m) {
            assert(s.len() == r.len() + 1);
            assert forall|i: u64| i < m && r.len() == m implies #[trigger] s.contains(i) by {
                assert(r.contains(i));
            }
            if forall|i: u64| i < n ==> #[trigger] s.contains(i) {
                assert forall|i: u64| i < m implies #[trigger] r.contains(i) by {
                    assert(s.contains(i));
                }
            }
        } else {
            assert(s =~= r);
        }
    }
}

/// A fragment with index `i` is among `arrivals`.
pub open spec fn arrived(arrivals: Seq<Fragment>, i: int) -> bool {
    exists|k: int| 0 <= k < arrivals.len() && #[trigger] arrivals[k].fragment_index == i
}

/// However the fragments of a message arrive, in any order and some of them more
/// than once: the message is complete with the first arrival after which every
/// fragment has come in, and not before, and what is assembled then is the
/// message.
pub proof fn law_reassembly_gives_message_back(bytes: Seq<u8>, arrivals: Seq<Fragment>)
    requires
        bytes.len() > 0,
        chunk_count(bytes.len() as int) <= u64::MAX,
        arrivals.len() > 0,
        forall|k: int|
            0 <= k < arrivals.len() ==> is_chunk(
                #[trigger] arrivals[k],
                bytes,
                arrivals[k].fragment_index as int,
            ),
    ensures
        ({
            let n = chunk_count(bytes.len() as int);
            let before = accepted_all(fresh(n as u64), arrivals.drop_last());
            let last = arrivals.last();
            let every = forall|i: int| 0 <= i < n ==> #[trigger] arrived(arrivals, i);
            let earlier = arrived(arrivals.drop_last(), last.fragment_index as int);
            &&& completes(before, last) <==> every && !earlier
            &&& completes(before, last) ==> assembled(accepted(before, last), last) == bytes
        }),
{
    let n = chunk_count(bytes.len() as int);
    let init = arrivals.drop_last();
    assert forall|k: int| 0 <= k < init.len() implies is_chunk(
        #[trigger] init[k],
        bytes,
        init[k].fragment_index as int,
    ) by {
        assert(init[k] == arrivals[k]);
    }
    lemma_arrivals(bytes, init);
    lemma_arrivals(bytes, arrivals);
    let before = accepted_all(fresh(n as u64), init);
    let last = arrivals.last();
    let st = accepted_all(fresh(n as u64), arrivals);
    assert(is_chunk(arrivals[arrivals.len() - 1], bytes, last.fragment_index as int));
    lemma_accept_chunk(before, bytes, last, last.fragment_index as int);
    lemma_all_indices(st.indices, n as u64);
    let every = forall|i: int| 0 <= i < n ==> #[trigger] arrived(arrivals, i);
    if every {
        assert forall|i: u64| i < n implies #[trigger] st.indices.contains(i) by {
            assert(arrived(arrivals, i as int));
            let k = choose|k: int|
                0 <= k < arrivals.len() && #[trigger] arrivals[k].fragment_index == i as int;
            assert(arrivals[k].fragment_index == i);
        }
    }
    if st.indices.len() == n {
        assert forall|i: int| 0 <= i < n implies #[trigger] arrived(arrivals, i) by {
            assert(st.indices.contains(i as u64));
            let k = choose|k: int|
                0 <= k < arrivals.len() && #[trigger] arrivals[k].fragment_index == i as u64;
            assert(arrivals[k].fragment_index == i);
        }
    }
    if arrived(init, last.fragment_index as int) {
        let k = choose|k: int|
            0 <= k < init.len() && #[trigger] init[k].fragment_index == last.fragment_index as int;
        assert(init[k].fragment_index == last.fragment_index);
        assert(before.indices.contains(last.fragment_index));
    }
    if before.indices.contains(last.fragment_index) {
        let k = choose|k: int|
            0 <= k < init.len() && #[trigger] init[k].fragment_index == last.fragment_index;
        assert(init[k].fragment_index == last.fragment_index as int);
        assert(arrived(init, last.fragment_index as int));
    }
    if completes(before, last) {
        assert(st.indices.contains((n - 1) as u64));
        let out = assembled(st, last);
        assert(out.len() == bytes.len());
        assert forall|p: int| 0 <= p < bytes.len() implies out[p] == bytes[p] by {
            let i = (p / 128) as u64;
            let j = p % 128;
            assert(p == 128 * (p / 128) + p % 128);
            assert(st.indices.contains(i));
            assert(st.data[128 * i + j] == bytes[128 * i + j]);
        }
        assert(out =~= bytes);
    }
}

/// The text that `bytes` hold, with a replacement character for what is not valid
/// UTF-8.
pub uninterp spec fn lossy_text(bytes: Seq<u8>) -> Seq<char>;

/// `String::from_utf8_lossy`. Bytes that are valid UTF-8 give the text that they
/// encode; how invalid ones are replaced is left unsaid.
#[verifier::external_body]
pub(crate) fn text_of_bytes(bytes: &Vec<u8>) -> (r: String)
    ensures
        r@ == lossy_text(bytes@),
        valid_utf8(bytes@) ==> r@ == decode_utf8(bytes@),
{
    String::from_utf8_lossy(bytes).to_string()
}

/// The text of a message that arrived: what its bytes encode, or what a lossy
/// reading makes of them where they are not valid UTF-8.
pub open spec fn received_text(bytes: Seq<u8>) -> Seq<char> {
    if valid_utf8(bytes) {
        decode_utf8(bytes)
    } else {
        lossy_text(bytes)
    }
}

/// The text of a message that arrived.
pub fn message_text(bytes: &Vec<u8>) -> (r: String)
    ensures
        r@ == received_text(bytes@),
{
    text_of_bytes(bytes)
}

/// A text that is cut into fragments is the text that is read once they have all
/// arrived, in whatever order and however often each of them.
pub proof fn law_text_survives_the_way(text: Seq<char>, arrivals: Seq<Fragment>)
    requires
        text.len() > 0,
        chunk_count(encode_utf8(text).len() as int) <= u64::MAX,
        arrivals.len() > 0,
        forall|k: int|
            0 <= k < arrivals.len() ==> is_chunk(
                #[trigger] arrivals[k],
                encode_utf8(text),
                arrivals[k].fragment_index as int,
            ),
    ensures
        ({
            let n = chunk_count(encode_utf8(text).len() as int);
            let before = accepted_all(fresh(n as u64), arrivals.drop_last());
            let last = arrivals.last();
            completes(before, last) ==> received_text(assembled(accepted(before, last), last))
                == text
        }),
{
    let bytes = encode_utf8(text);
    encode_utf8_valid_utf8(text);
    encode_utf8_decode_utf8(text);
    if bytes.len() > 0 {
        law_reassembly_gives_message_back(bytes, arrivals);
    } else {
        assert(is_chunk(arrivals[0], bytes, arrivals[0].fragment_index as int));
    }
}

}
