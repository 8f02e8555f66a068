//! Reassembly of logical payloads from fragmented datagrams.
//!
//! A fragmented datagram starts with a 16-byte header: a 4-byte magic
//! marker, a 32-bit message identifier, a 16-bit fragment index, a 16-bit
//! total fragment count and a 32-bit total size, all little-endian.
//! Anything without the marker is treated as an already complete payload.

use vstd::prelude::*;
use vstd::slice::*;
use crate::bytes::{clone_bytes, le16, le16_of, le32, le32_of};

verus! {

/// Size in bytes of the fragment header.
pub const HEADER_SIZE: usize = 16;

/// Age in milliseconds after which an incomplete buffer is evicted.
pub const FRAGMENT_TTL_MS: u64 = 10000;

/// The four magic bytes, `b"SHRD"`, that mark a fragmented datagram.
pub open spec fn magic_seq() -> Seq<u8> {
    seq![83u8, 72u8, 82u8, 68u8]
}

/// The fields of a fragment header.
pub ghost struct HeaderV {
    pub message_id: u32,
    pub fragment_index: u16,
    pub total_fragments: u16,
    pub total_size: u32,
}

/// Whether a datagram carries the fragment marker and a full header.
pub open spec fn is_fragment(d: Seq<u8>) -> bool {
    d.len() >= HEADER_SIZE && d.subrange(0, 4) == magic_seq()
}

/// The header fields of a fragmented datagram.
pub open spec fn header_of(d: Seq<u8>) -> HeaderV
    recommends
        is_fragment(d),
{
    HeaderV {
        message_id: le32_of(d[4], d[5], d[6], d[7]),
        fragment_index: le16_of(d[8], d[9]),
        total_fragments: le16_of(d[10], d[11]),
        total_size: le32_of(d[12], d[13], d[14], d[15]),
    }
}

/// Mathematical state of one reassembly buffer.
#[verifier::ext_equal]
pub ghost struct BufferV {
    pub total_fragments: u16,
    pub total_size: u32,
    pub received: Map<u16, Seq<u8>>,
    pub created_at: u64,
}

/// Per-message reassembly state: the fragments received so far, keyed by
/// fragment index, together with the header fields seen on the first
/// fragment and the arrival time of that first fragment.
pub struct FragmentBuffer {
    pub total_fragments: u16,
    pub total_size: u32,
    pub received: Vec<(u16, Vec<u8>)>,
    pub created_at: u64,
}

/// The map described by an association list of fragments.
pub open spec fn frag_map(s: Seq<(u16, Vec<u8>)>) -> Map<u16, Seq<u8>>
    decreases s.len(),
{
    if s.len() == 0 {
        Map::empty()
    } else {
        frag_map(s.drop_last()).insert(s.last().0, s.last().1@)
    }
}

impl View for FragmentBuffer {
    type V = BufferV;

    open spec fn view(&self) -> BufferV {
        BufferV {
            total_fragments: self.total_fragments,
            total_size: self.total_size,
            received: frag_map(self.received@),
            created_at: self.created_at,
        }
    }
}

/// The keys of an association list of fragments are pairwise distinct.
pub open spec fn unique_frag_keys(s: Seq<(u16, Vec<u8>)>) -> bool {
    forall|i: int, j: int| 0 <= i < j < s.len() ==> s[i].0 != s[j].0
}

/// The keys of an association list of buffers are pairwise distinct.
pub open spec fn unique_buf_keys(s: Seq<(u32, FragmentBuffer)>) -> bool {
    forall|i: int, j: int| 0 <= i < j < s.len() ==> s[i].0 != s[j].0
}

/// The map described by an association list of buffers.
pub open spec fn buf_map(s: Seq<(u32, FragmentBuffer)>) -> Map<u32, BufferV>
    decreases s.len(),
{
    if s.len() == 0 {
        Map::empty()
    } else {
        buf_map(s.drop_last()).insert(s.last().0, s.last().1@)
    }
}

/// Turns a sequence of raw datagrams into complete logical payloads,
/// holding at most one buffer per message identifier at any time.
pub struct FragmentReassembler {
    pub buffers: Vec<(u32, FragmentBuffer)>,
}

impl View for FragmentReassembler {
    type V = Map<u32, BufferV>;

    open spec fn view(&self) -> Map<u32, BufferV> {
        buf_map(self.buffers@)
    }
}

impl FragmentBuffer {
    /// Every fragment index occurs at most once.
    pub open spec fn wf(&self) -> bool {
        unique_frag_keys(self.received@)
    }
}

impl FragmentReassembler {
    /// Every message identifier occurs at most once, and each buffer is
    /// itself well formed.
    pub open spec fn wf(&self) -> bool {
        &&& unique_buf_keys(self.buffers@)
        &&& forall|i: int| 0 <= i < self.buffers@.len() ==> (#[trigger] self.buffers@[i].1).wf()
    }
}

/// The fragment stored under index `i`, or the empty sequence when none is.
pub open spec fn frag_at(received: Map<u16, Seq<u8>>, i: u16) -> Seq<u8> {
    if received.contains_key(i) {
        received[i]
    } else {
        Seq::empty()
    }
}

/// The concatenation of the stored fragments for indices `0 .. n`, in
/// index order, an absent index contributing nothing.
pub open spec fn assemble(received: Map<u16, Seq<u8>>, n: int) -> Seq<u8>
    decreases n,
{
    if n <= 0 {
        Seq::empty()
    } else {
        assemble(received, n - 1) + frag_at(received, (n - 1) as u16)
    }
}

/// The buffer map after inserting one fragment: the buffer for the
/// header's message identifier (created fresh at `now` when absent)
/// gains the fragment under the header's index, an existing entry for
/// that index being overwritten.
pub open spec fn insert_frag(m: Map<u32, BufferV>, h: HeaderV, frag: Seq<u8>, now: u64) -> Map<
    u32,
    BufferV,
> {
    let b0 = if m.contains_key(h.message_id) {
        m[h.message_id]
    } else {
        BufferV {
            total_fragments: h.total_fragments,
            total_size: h.total_size,
            received: Map::empty(),
            created_at: now,
        }
    };
    let b1 = BufferV { received: b0.received.insert(h.fragment_index, frag), ..b0 };
    m.insert(h.message_id, b1)
}

/// The result of processing one datagram: the new buffer map and the
/// complete payload, if one was produced.
pub ghost struct StepResult {
    pub buffers: Map<u32, BufferV>,
    pub output: Option<Seq<u8>>,
}

/// Processing one datagram.  A datagram without the fragment marker is
/// already complete and passes through unchanged.  A fragment is stored
/// in its message's buffer; when the number of distinct indices held
/// reaches the header's total fragment count, the fragments for indices
/// `0 .. total` are concatenated in index order, the buffer is removed,
/// and the concatenation is emitted.
pub open spec fn step(m: Map<u32, BufferV>, d: Seq<u8>, now: u64) -> StepResult {
    if !is_fragment(d) {
        StepResult { buffers: m, output: Some(d) }
    } else {
        let h = header_of(d);
        let frag = d.skip(HEADER_SIZE as int);
        let m1 = insert_frag(m, h, frag, now);
        let b = m1[h.message_id];
        if b.received.dom().len() == h.total_fragments as int {
            StepResult {
                buffers: m1.remove(h.message_id),
                output: Some(assemble(b.received, h.total_fragments as int)),
            }
        } else {
            StepResult { buffers: m1, output: None }
        }
    }
}

/// A buffer is expired once its age reaches the time-to-live.
pub open spec fn expired(b: BufferV, now: u64) -> bool {
    now - b.created_at >= FRAGMENT_TTL_MS
}

/// The buffer map after the periodic sweep: exactly the unexpired buffers.
pub open spec fn sweep(m: Map<u32, BufferV>, now: u64) -> Map<u32, BufferV> {
    Map::new(|k: u32| m.contains_key(k) && !expired(m[k], now), |k: u32| m[k])
}

proof fn lemma_frag_map_index(s: Seq<(u16, Vec<u8>)>, i: int)
    requires
        unique_frag_keys(s),
        0 <= i < s.len(),
    ensures
        frag_map(s).contains_key(s[i].0),
        frag_map(s)[s[i].0] == s[i].1@,
    decreases s.len(),
{
    if i < s.len() - 1 {
        assert(s.drop_last()[i] == s[i]);
        lemma_frag_map_index(s.drop_last(), i);
        assert(s[i].0 != s.last().0);
    }
}

proof fn lemma_frag_map_absent(s: Seq<(u16, Vec<u8>)>, k: u16)
    requires
        forall|i: int| 0 <= i < s.len() ==> (#[trigger] s[i]).0 != k,
    ensures
        !frag_map(s).contains_key(k),
    decreases s.len(),
{
    if s.len() > 0 {
        assert(forall|i: int|
            0 <= i < s.drop_last().len() ==> (#[trigger] s.drop_last()[i]).0 != k);
        lemma_frag_map_absent(s.drop_last(), k);
    }
}

proof fn lemma_frag_map_dom(s: Seq<(u16, Vec<u8>)>)
    requires
        unique_frag_keys(s),
    ensures
        frag_map(s).dom().finite(),
        frag_map(s).dom().len() == s.len(),
    decreases s.len(),
{
    if s.len() > 0 {
        lemma_frag_map_dom(s.drop_last());
        assert(forall|i: int|
            0 <= i < s.drop_last().len() ==> (#[trigger] s.drop_last()[i]).0 != s.last().0);
        lemma_frag_map_absent(s.drop_last(), s.last().0);
    }
}

proof fn lemma_buf_map_index(s: Seq<(u32, FragmentBuffer)>, i: int)
    requires
        unique_buf_keys(s),
        0 <= i < s.len(),
    ensures
        buf_map(s).contains_key(s[i].0),
        buf_map(s)[s[i].0] == s[i].1@,
    decreases s.len(),
{
    if i < s.len() - 1 {
        assert(s.drop_last()[i] == s[i]);
        lemma_buf_map_index(s.drop_last(), i);
        assert(s[i].0 != s.last().0);
    }
}

proof fn lemma_buf_map_absent(s: Seq<(u32, FragmentBuffer)>, k: u32)
    requires
        forall|i: int| 0 <= i < s.len() ==> (#[trigger] s[i]).0 != k,
    ensures
        !buf_map(s).contains_key(k),
    decreases s.len(),
{
    if s.len() > 0 {
        assert(forall|i: int|
            0 <= i < s.drop_last().len() ==> (#[trigger] s.drop_last()[i]).0 != k);
        lemma_buf_map_absent(s.drop_last(), k);
    }
}

proof fn lemma_buf_map_absent_all(s: Seq<(u32, FragmentBuffer)>, k: u32)
    requires
        !buf_map(s).contains_key(k),
    ensures
        forall|i: int| 0 <= i < s.len() ==> (#[trigger] s[i]).0 != k,
    decreases s.len(),
{
    if s.len() > 0 {
        lemma_buf_map_absent_all(s.drop_last(), k);
        assert(forall|i: int| 0 <= i < s.len() - 1 ==> s[i] == s.drop_last()[i]);
    }
}

proof fn lemma_buf_map_dom(s: Seq<(u32, FragmentBuffer)>)
    requires
        unique_buf_keys(s),
    ensures
        buf_map(s).dom().finite(),
        buf_map(s).dom().len() == s.len(),
    decreases s.len(),
{
    if s.len() > 0 {
        lemma_buf_map_dom(s.drop_last());
        assert(forall|i: int|
            0 <= i < s.drop_last().len() ==> (#[trigger] s.drop_last()[i]).0 != s.last().0);
        lemma_buf_map_absent(s.drop_last(), s.last().0);
    }
}

proof fn lemma_buf_map_remove(s: Seq<(u32, FragmentBuffer)>, i: int)
    requires
        unique_buf_keys(s),
        0 <= i < s.len(),
    ensures
        buf_map(s.remove(i)) == buf_map(s).remove(s[i].0),
        forall|a: int| 0 <= a < s.remove(i).len() ==> (#[trigger] s.remove(i)[a]).0 != s[i].0,
        unique_buf_keys(s.remove(i)),
    decreases s.len(),
{
    if i == s.len() - 1 {
        assert(s.remove(i) =~= s.drop_last());
        assert(forall|j: int|
            0 <= j < s.drop_last().len() ==> (#[trigger] s.drop_last()[j]).0 != s[i].0);
        lemma_buf_map_absent(s.drop_last(), s[i].0);
        assert(buf_map(s.drop_last()) =~= buf_map(s.drop_last()).insert(
            s.last().0,
            s.last().1@,
        ).remove(s[i].0));
    } else {
        assert(s.remove(i).drop_last() =~= s.drop_last().remove(i));
        assert(s.remove(i).last() == s.last());
        assert(s.drop_last()[i] == s[i]);
        lemma_buf_map_remove(s.drop_last(), i);
        assert(s[i].0 != s.last().0);
        assert(buf_map(s.drop_last()).remove(s[i].0).insert(s.last().0, s.last().1@)
            =~= buf_map(s.drop_last()).insert(s.last().0, s.last().1@).remove(s[i].0));
        assert(buf_map(s.remove(i)) == buf_map(s.remove(i).drop_last()).insert(
            s.remove(i).last().0,
            s.remove(i).last().1@,
        ));
    }
}

impl FragmentBuffer {
    /// Looks up the position holding fragment index `idx`.
    fn find_index(&self, idx: u16) -> (r: Option<usize>)
        requires
            self.wf(),
        ensures
            match r {
                Some(i) => i < self.received@.len() && self.received@[i as int].0 == idx,
                None => !self@.received.contains_key(idx),
            },
    {
        let mut i: usize = 0;
        while i < self.received.len()
            invariant
                0 <= i <= self.received@.len(),
                forall|j: int| 0 <= j < i ==> (#[trigger] self.received@[j]).0 != idx,
            decreases self.received@.len() - i,
        {
            if self.received[i].0 == idx {
                return Some(i);
            }
            i += 1;
        }
        proof {
            lemma_frag_map_absent(self.received@, idx);
        }
        None
    }

    /// Stores `frag` under fragment index `idx`, overwriting any fragment
    /// previously held under that index.
    fn insert_fragment(&mut self, idx: u16, frag: Vec<u8>)
        requires
            old(self).wf(),
        ensures
            final(self).wf(),
            final(self)@ == (BufferV {
                received: old(self)@.received.insert(idx, frag@),
                ..old(self)@
            }),
    {
        let ghost s0 = self.received@;
        match self.find_index(idx) {
            Some(i) => {
                proof {
                    lemma_frag_map_remove_u16(s0, i as int);
                }
                let _ = self.received.remove(i);
                self.received.push((idx, frag));
                proof {
                    assert(self.received@.drop_last() =~= s0.remove(i as int));
                    assert(forall|a: int, b: int|
                        0 <= a < b < self.received@.len() ==> self.received@[a].0
                            != self.received@[b].0) by {
                        assert(forall|a: int|
                            0 <= a < s0.remove(i as int).len() ==> (#[trigger] s0.remove(
                                i as int,
                            )[a]).0 != idx);
                    }
                    assert(frag_map(self.received@) =~= frag_map(s0).insert(idx, frag@));
                }
            },
            None => {
                self.received.push((idx, frag));
                proof {
                    assert(self.received@.drop_last() =~= s0);
                    lemma_frag_map_absent_all(s0, idx);
                }
            },
        }
    }

    /// Concatenates the fragments for indices `0 .. total` in index order,
    /// skipping any index that is absent.
    fn assemble_exec(&self, total: u16) -> (r: Vec<u8>)
        requires
            self.wf(),
        ensures
            r@ == assemble(self@.received, total as int),
    {
        let mut out: Vec<u8> = Vec::new();
        let mut i: u16 = 0;
        while i < total
            invariant
                i <= total,
                self.wf(),
                out@ == assemble(self@.received, i as int),
            decreases total - i,
        {
            match self.find_index(i) {
                Some(j) => {
                    proof {
                        lemma_frag_map_index(self.received@, j as int);
                    }
                    out.extend_from_slice(self.received[j].1.as_slice());
                },
                None => {},
            }
            i += 1;
        }
        out
    }
}

proof fn lemma_frag_map_remove_u16(s: Seq<(u16, Vec<u8>)>, i: int)
    requires
        unique_frag_keys(s),
        0 <= i < s.len(),
    ensures
        frag_map(s.remove(i)) == frag_map(s).remove(s[i].0),
        forall|a: int| 0 <= a < s.remove(i).len() ==> (#[trigger] s.remove(i)[a]).0 != s[i].0,
        unique_frag_keys(s.remove(i)),
    decreases s.len(),
{
    if i == s.len() - 1 {
        assert(s.remove(i) =~= s.drop_last());
        assert(forall|j: int|
            0 <= j < s.drop_last().len() ==> (#[trigger] s.drop_last()[j]).0 != s[i].0);
        lemma_frag_map_absent(s.drop_last(), s[i].0);
        assert(frag_map(s.drop_last()) =~= frag_map(s.drop_last()).insert(
            s.last().0,
            s.last().1@,
        ).remove(s[i].0));
    } else {
        assert(s.remove(i).drop_last() =~= s.drop_last().remove(i));
        assert(s.remove(i).last() == s.last());
        assert(s.drop_last()[i] == s[i]);
        lemma_frag_map_remove_u16(s.drop_last(), i);
        assert(s[i].0 != s.last().0);
        assert(frag_map(s.drop_last()).remove(s[i].0).insert(s.last().0, s.last().1@)
            =~= frag_map(s.drop_last()).insert(s.last().0, s.last().1@).remove(s[i].0));
        assert(frag_map(s.remove(i)) == frag_map(s.remove(i).drop_last()).insert(
            s.remove(i).last().0,
            s.remove(i).last().1@,
        ));
    }
}

proof fn lemma_frag_map_absent_all(s: Seq<(u16, Vec<u8>)>, k: u16)
    requires
        !frag_map(s).contains_key(k),
    ensures
        forall|i: int| 0 <= i < s.len() ==> (#[trigger] s[i]).0 != k,
    decreases s.len(),
{
    if s.len() > 0 {
        lemma_frag_map_absent_all(s.drop_last(), k);
        assert(forall|i: int| 0 <= i < s.len() - 1 ==> s[i] == s.drop_last()[i]);
    }
}

impl FragmentReassembler {
    /// A reassembler holding no buffers.
    pub fn new() -> (r: Self)
        ensures
            r.wf(),
            r@ == Map::<u32, BufferV>::empty(),
    {
        FragmentReassembler { buffers: Vec::new() }
    }

    /// The number of buffers currently held.
    pub fn buffer_count(&self) -> (r: usize)
        requires
            self.wf(),
        ensures
            r == self@.dom().len(),
    {
        proof {
            lemma_buf_map_dom(self.buffers@);
        }
        self.buffers.len()
    }

    /// Looks up the position holding message identifier `id`.
    fn find_buffer(&self, id: u32) -> (r: Option<usize>)
        requires
            self.wf(),
        ensures
            match r {
                Some(i) => i < self.buffers@.len() && self.buffers@[i as int].0 == id,
                None => !self@.contains_key(id),
            },
    {
        let mut i: usize = 0;
        while i < self.buffers.len()
            invariant
                0 <= i <= self.buffers@.len(),
                forall|j: int| 0 <= j < i ==> (#[trigger] self.buffers@[j]).0 != id,
            decreases self.buffers@.len() - i,
        {
            if self.buffers[i].0 == id {
                return Some(i);
            }
            i += 1;
        }
        proof {
            lemma_buf_map_absent(self.buffers@, id);
        }
        None
    }

    /// Processes one incoming datagram and returns the complete payload
    /// when reassembly finishes (or at once, for an unfragmented one).
    pub fn process_packet(&mut self, data: &[u8], now: u64) -> (r: Option<Vec<u8>>)
        requires
            old(self).wf(),
        ensures
            final(self).wf(),
            final(self)@ == step(old(self)@, data@, now).buffers,
            match r {
                Some(v) => step(old(self)@, data@, now).output == Some(v@),
                None => step(old(self)@, data@, now).output is None,
            },
    {
        let is_frag = data.len() >= HEADER_SIZE && *slice_index_get(data, 0) == 83
            && *slice_index_get(data, 1) == 72 && *slice_index_get(data, 2) == 82
            && *slice_index_get(data, 3) == 68;
        proof {
            if data@.len() >= HEADER_SIZE {
                if is_frag {
                    assert(data@.subrange(0, 4) =~= magic_seq());
                } else {
                    assert(data@.subrange(0, 4)[0] == data@[0]);
                    assert(data@.subrange(0, 4)[1] == data@[1]);
                    assert(data@.subrange(0, 4)[2] == data@[2]);
                    assert(data@.subrange(0, 4)[3] == data@[3]);
                }
            }
            assert(is_frag == is_fragment(data@));
        }
        if !is_frag {
            return Some(slice_to_vec(data));
        }
        let message_id = le32(
            *slice_index_get(data, 4),
            *slice_index_get(data, 5),
            *slice_index_get(data, 6),
            *slice_index_get(data, 7),
        );
        let fragment_index = le16(*slice_index_get(data, 8), *slice_index_get(data, 9));
        let total_fragments = le16(*slice_index_get(data, 10), *slice_index_get(data, 11));
        let total_size = le32(
            *slice_index_get(data, 12),
            *slice_index_get(data, 13),
            *slice_index_get(data, 14),
            *slice_index_get(data, 15),
        );
        proof {
            assert(header_of(data@) == HeaderV {
                message_id,
                fragment_index,
                total_fragments,
                total_size,
            });
        }
        let frag = slice_to_vec(slice_subrange(data, HEADER_SIZE, data.len()));
        let ghost m0 = self@;
        let ghost s0 = self.buffers@;
        let mut buf: FragmentBuffer = match self.find_buffer(message_id) {
            Some(i) => {
                proof {
                    lemma_buf_map_index(s0, i as int);
                    lemma_buf_map_remove(s0, i as int);
                }
                self.buffers.remove(i).1
            },
            None => {
                proof {
                    assert(m0.remove(message_id) =~= m0);
                    lemma_buf_map_absent_all(s0, message_id);
                }
                FragmentBuffer {
                    total_fragments,
                    total_size,
                    received: Vec::new(),
                    created_at: now,
                }
            },
        };
        // The buffer for `message_id`, if any, has been taken out: the map
        // still held is `m0.remove(message_id)`, and `buf` is the buffer
        // the model inserts into (looked up, or fresh at `now`).
        proof {
            assert(buf_map(self.buffers@) == m0.remove(message_id));
            assert(forall|a: int|
                0 <= a < self.buffers@.len() ==> (#[trigger] self.buffers@[a]).0 != message_id);
            assert(unique_buf_keys(self.buffers@));
            assert(forall|a: int|
                0 <= a < self.buffers@.len() ==> (#[trigger] self.buffers@[a].1).wf());
        }
        let ghost s_rest = self.buffers@;
        buf.insert_fragment(fragment_index, frag);
        let ghost m1 = insert_frag(m0, header_of(data@), data@.skip(HEADER_SIZE as int), now);
        proof {
            assert(frag@ == data@.skip(HEADER_SIZE as int));
            assert(frag_map(Seq::<(u16, Vec<u8>)>::empty()) == Map::<u16, Seq<u8>>::empty());
            assert(buf@ == m1[message_id]);
            lemma_frag_map_dom(buf.received@);
        }
        if buf.received.len() == total_fragments as usize {
            let complete = buf.assemble_exec(total_fragments);
            proof {
                assert(buf_map(self.buffers@) =~= m1.remove(message_id));
            }
            Some(complete)
        } else {
            self.buffers.push((message_id, buf));
            proof {
                assert(self.buffers@.drop_last() =~= s_rest);
                assert(buf_map(self.buffers@) == buf_map(s_rest).insert(message_id, buf@));
                assert(m0.remove(message_id).insert(message_id, buf@) =~= m1);
            }
            None
        }
    }

    /// Removes every buffer whose age has reached the time-to-live,
    /// bounding memory under sustained partial loss.
    pub fn cleanup_old(&mut self, now: u64)
        requires
            old(self).wf(),
        ensures
            final(self).wf(),
            final(self)@ == sweep(old(self)@, now),
    {
        let ghost s0 = self.buffers@;
        let mut kept: Vec<(u32, FragmentBuffer)> = Vec::new();
        let mut i: usize = 0;
        while i < self.buffers.len()
            invariant
                0 <= i <= self.buffers@.len(),
                self.buffers@ == s0,
                self.wf(),
                unique_buf_keys(kept@),
                forall|j: int| 0 <= j < kept@.len() ==> (#[trigger] kept@[j].1).wf(),
                forall|j: int|
                    0 <= j < kept@.len() ==> buf_map(s0.take(i as int)).contains_key(
                        (#[trigger] kept@[j]).0,
                    ),
                buf_map(kept@) == sweep(buf_map(s0.take(i as int)), now),
            decreases self.buffers@.len() - i,
        {
            let ghost kprev = kept@;
            let age = now.saturating_sub(self.buffers[i].1.created_at);
            let keep = age < FRAGMENT_TTL_MS;
            if keep {
                let pair_id = self.buffers[i].0;
                let b = clone_buffer(&self.buffers[i].1);
                kept.push((pair_id, b));
            }
            proof {
                let t1 = s0.take(i as int + 1);
                assert(t1.drop_last() =~= s0.take(i as int));
                assert(t1.last() == s0[i as int]);
                assert(forall|j: int|
                    0 <= j < s0.take(i as int).len() ==> (#[trigger] s0.take(i as int)[j]).0
                        != s0[i as int].0);
                lemma_buf_map_absent(s0.take(i as int), s0[i as int].0);
                assert(keep == !expired(s0[i as int].1@, now));
                if keep {
                    assert(kept@.drop_last() =~= kprev);
                    assert(buf_map(kept@) =~= sweep(buf_map(t1), now));
                } else {
                    assert(buf_map(kept@) =~= sweep(buf_map(t1), now));
                }
            }
            i += 1;
        }
        proof {
            assert(s0.take(s0.len() as int) =~= s0);
        }
        self.buffers = kept;
    }
}

/// A copy of a buffer, fragment by fragment.
fn clone_buffer(b: &FragmentBuffer) -> (r: FragmentBuffer)
    ensures
        r@ == b@,
        b.wf() ==> r.wf(),
{
    let mut received: Vec<(u16, Vec<u8>)> = Vec::new();
    let mut i: usize = 0;
    while i < b.received.len()
        invariant
            0 <= i <= b.received@.len(),
            received@.len() == i,
            forall|j: int|
                0 <= j < i ==> (#[trigger] received@[j]).0 == b.received@[j].0
                    && received@[j].1@ == b.received@[j].1@,
        decreases b.received@.len() - i,
    {
        let idx = b.received[i].0;
        let frag = clone_bytes(&b.received[i].1);
        received.push((idx, frag));
        i += 1;
    }
    proof {
        lemma_frag_map_congruent(received@, b.received@);
    }
    FragmentBuffer {
        total_fragments: b.total_fragments,
        total_size: b.total_size,
        received,
        created_at: b.created_at,
    }
}

/// The buffer map and the emitted outputs after processing a sequence of
/// datagrams one by one, all at time `now`.
pub open spec fn run_steps(m: Map<u32, BufferV>, packets: Seq<Seq<u8>>, now: u64) -> (
    Map<u32, BufferV>,
    Seq<Option<Seq<u8>>>,
)
    decreases packets.len(),
{
    if packets.len() == 0 {
        (m, Seq::empty())
    } else {
        let first = step(m, packets[0], now);
        let rest = run_steps(first.buffers, packets.skip(1), now);
        (rest.0, seq![first.output] + rest.1)
    }
}

/// The fragments held after the first `k` deliveries: chunk `perm[a]`
/// under index `perm[a]`, for each `a < k`.
pub open spec fn frags_received(chunks: Seq<Seq<u8>>, perm: Seq<int>, k: int) -> Map<u16, Seq<u8>>
    decreases k,
{
    if k <= 0 {
        Map::empty()
    } else {
        frags_received(chunks, perm, k - 1).insert(
            perm[k - 1] as u16,
            chunks[perm[k - 1]],
        )
    }
}

proof fn lemma_frags_received_dom(chunks: Seq<Seq<u8>>, perm: Seq<int>, k: int)
    requires
        chunks.len() == perm.len() <= 0xFFFF,
        forall|a: int| 0 <= a < perm.len() ==> 0 <= #[trigger] perm[a] < chunks.len(),
        forall|a: int, b: int| 0 <= a < b < perm.len() ==> perm[a] != perm[b],
        0 <= k <= perm.len(),
    ensures
        frags_received(chunks, perm, k).dom().finite(),
        frags_received(chunks, perm, k).dom().len() == k,
        forall|x: u16|
            #[trigger] frags_received(chunks, perm, k).contains_key(x) ==> exists|b: int|
                0 <= b < k && perm[b] == x as int,
        forall|b: int|
            0 <= b < k ==> frags_received(chunks, perm, k).contains_key(
                (#[trigger] perm[b]) as u16,
            ) && frags_received(chunks, perm, k)[perm[b] as u16] == chunks[perm[b]],
    decreases k,
{
    if k > 0 {
        lemma_frags_received_dom(chunks, perm, k - 1);
        let key = perm[k - 1] as u16;
        if frags_received(chunks, perm, k - 1).contains_key(key) {
            let b = choose|b: int| 0 <= b < k - 1 && perm[b] == key as int;
            assert(perm[b] == perm[k - 1]);
            assert(false);
        }
    }
}

proof fn lemma_assemble_prefix(chunks: Seq<Seq<u8>>, received: Map<u16, Seq<u8>>, i: int)
    requires
        chunks.len() <= 0xFFFF,
        0 <= i <= chunks.len(),
        forall|x: int|
            #![trigger chunks[x]]
            #![trigger received.contains_key(x as u16)]
            0 <= x < chunks.len() ==> received.contains_key(x as u16) && received[x as u16]
                == chunks[x],
    ensures
        assemble(received, i) == chunks.take(i).flatten(),
    decreases i,
{
    if i > 0 {
        lemma_assemble_prefix(chunks, received, i - 1);
        assert(received.contains_key(((i - 1) as u16)) && received[(i - 1) as u16] == chunks[
            i - 1
        ]);
        assert(frag_at(received, (i - 1) as u16) == chunks[i - 1]);
        assert(chunks.take(i) =~= chunks.take(i - 1).push(chunks[i - 1]));
        chunks.take(i - 1).lemma_flatten_push(chunks[i - 1]);
    }
}

/// Some position of `perm` holds the value `x`.
pub open spec fn perm_hits(perm: Seq<int>, x: int) -> bool {
    exists|b: int| 0 <= b < perm.len() && perm[b] == x
}

proof fn lemma_round_trip_from(
    m0: Map<u32, BufferV>,
    id: u32,
    chunks: Seq<Seq<u8>>,
    perm: Seq<int>,
    packets: Seq<Seq<u8>>,
    size: u32,
    now: u64,
    k: int,
)
    requires
        1 <= chunks.len() <= 0xFFFF,
        perm.len() == chunks.len(),
        packets.len() == chunks.len(),
        forall|a: int| 0 <= a < perm.len() ==> 0 <= #[trigger] perm[a] < chunks.len(),
        forall|a: int, b: int| 0 <= a < b < perm.len() ==> perm[a] != perm[b],
        forall|x: int| 0 <= x < chunks.len() ==> #[trigger] perm_hits(perm, x),
        forall|j: int| 0 <= j < packets.len() ==> is_fragment(#[trigger] packets[j]),
        forall|j: int|
            0 <= j < packets.len() ==> header_of(#[trigger] packets[j]) == (HeaderV {
                message_id: id,
                fragment_index: perm[j] as u16,
                total_fragments: chunks.len() as u16,
                total_size: size,
            }),
        forall|j: int|
            0 <= j < packets.len() ==> (#[trigger] packets[j]).skip(HEADER_SIZE as int)
                == chunks[perm[j]],
        !m0.contains_key(id),
        0 <= k < chunks.len(),
    ensures
        ({
            let n = chunks.len() as int;
            let mk = if k == 0 {
                m0
            } else {
                m0.insert(
                    id,
                    BufferV {
                        total_fragments: n as u16,
                        total_size: size,
                        received: frags_received(chunks, perm, k),
                        created_at: now,
                    },
                )
            };
            let res = run_steps(mk, packets.skip(k), now);
            &&& res.1 == Seq::new(
                (n - k) as nat,
                |j: int| if j == n - k - 1 {
                    Some(chunks.flatten())
                } else {
                    None::<Seq<u8>>
                },
            )
            &&& res.0 == m0
        }),
    decreases chunks.len() - k,
{
    let n = chunks.len() as int;
    let mk = if k == 0 {
        m0
    } else {
        m0.insert(
            id,
            BufferV {
                total_fragments: n as u16,
                total_size: size,
                received: frags_received(chunks, perm, k),
                created_at: now,
            },
        )
    };
    let p = packets[k];
    assert(packets.skip(k)[0] == p);
    let h = header_of(p);
    let frag = p.skip(HEADER_SIZE as int);
    lemma_frags_received_dom(chunks, perm, k);
    lemma_frags_received_dom(chunks, perm, k + 1);
    let b1 = BufferV {
        total_fragments: n as u16,
        total_size: size,
        received: frags_received(chunks, perm, k + 1),
        created_at: now,
    };
    assert(frags_received(chunks, perm, k).insert(perm[k] as u16, chunks[perm[k]])
        == frags_received(chunks, perm, k + 1));
    let m1 = insert_frag(mk, h, frag, now);
    assert(m1 =~= m0.insert(id, b1));
    assert(m1.contains_key(h.message_id) && m1[h.message_id] == b1);
    let st = step(mk, p, now);
    if k + 1 < n {
        assert(b1.received.dom().len() != h.total_fragments as int);
        assert(st == StepResult { buffers: m1, output: None::<Seq<u8>> });
        lemma_round_trip_from(m0, id, chunks, perm, packets, size, now, k + 1);
        assert(packets.skip(k).skip(1) =~= packets.skip(k + 1));
        let rest = run_steps(m1, packets.skip(k + 1), now);
        let res = run_steps(mk, packets.skip(k), now);
        assert(res.1 == seq![st.output] + rest.1);
        assert(rest.1 == Seq::new(
            (n - k - 1) as nat,
            |j: int| if j == n - k - 2 {
                Some(chunks.flatten())
            } else {
                None::<Seq<u8>>
            },
        ));
        assert(res.1 =~= Seq::new(
            (n - k) as nat,
            |j: int| if j == n - k - 1 {
                Some(chunks.flatten())
            } else {
                None::<Seq<u8>>
            },
        ));
    } else {
        assert(b1.received.dom().len() == h.total_fragments as int);
        assert forall|x: int|
            #![trigger chunks[x]]
            #![trigger b1.received.contains_key(x as u16)]
            0 <= x < chunks.len() implies b1.received.contains_key(x as u16)
            && b1.received[x as u16] == chunks[x] by {
            assert(perm_hits(perm, x));
            let b = choose|b: int| 0 <= b < perm.len() && perm[b] == x;
            assert(0 <= b < k + 1);
            assert(frags_received(chunks, perm, k + 1).contains_key(perm[b] as u16));
            assert(frags_received(chunks, perm, k + 1)[perm[b] as u16] == chunks[perm[b]]);
            assert(perm[b] as u16 == x as u16);
        }
        lemma_assemble_prefix(chunks, b1.received, n);
        assert(chunks.take(n) =~= chunks);
        assert(st.output == Some(chunks.flatten()));
        assert(st.buffers =~= m0);
        assert(packets.skip(k).skip(1) =~= packets.skip(k + 1));
        assert(packets.skip(k + 1).len() == 0);
        let tail = run_steps(st.buffers, packets.skip(k).skip(1), now);
        assert(packets.skip(k).skip(1).len() == 0);
        assert(tail.1 =~= Seq::<Option<Seq<u8>>>::empty());
        assert(tail.0 == st.buffers);
        let res = run_steps(mk, packets.skip(k), now);
        assert(res.1 =~= seq![st.output]);
        assert(res.1 =~= Seq::new(
            (n - k) as nat,
            |j: int| if j == n - k - 1 {
                Some(chunks.flatten())
            } else {
                None::<Seq<u8>>
            },
        ));
    }
}

/// Reassembly round trip: a payload split into chunks, each sent as a
/// fragment whose header carries the same message identifier, the
/// chunk's own index, the chunk count and a common size, and delivered
/// in an arbitrary order (a permutation of the indices), is emitted
/// exactly once — on the last delivery, every earlier one emitting
/// nothing — equal to the concatenation of the chunks, and the buffer
/// for the message is gone afterwards.
pub proof fn lemma_reassembly_round_trip(
    m0: Map<u32, BufferV>,
    id: u32,
    chunks: Seq<Seq<u8>>,
    perm: Seq<int>,
    packets: Seq<Seq<u8>>,
    size: u32,
    now: u64,
)
    requires
        1 <= chunks.len() <= 0xFFFF,
        perm.len() == chunks.len(),
        packets.len() == chunks.len(),
        forall|a: int| 0 <= a < perm.len() ==> 0 <= #[trigger] perm[a] < chunks.len(),
        forall|a: int, b: int| 0 <= a < b < perm.len() ==> perm[a] != perm[b],
        forall|x: int| 0 <= x < chunks.len() ==> #[trigger] perm_hits(perm, x),
        forall|j: int| 0 <= j < packets.len() ==> is_fragment(#[trigger] packets[j]),
        forall|j: int|
            0 <= j < packets.len() ==> header_of(#[trigger] packets[j]) == (HeaderV {
                message_id: id,
                fragment_index: perm[j] as u16,
                total_fragments: chunks.len() as u16,
                total_size: size,
            }),
        forall|j: int|
            0 <= j < packets.len() ==> (#[trigger] packets[j]).skip(HEADER_SIZE as int)
                == chunks[perm[j]],
        !m0.contains_key(id),
    ensures
        ({
            let res = run_steps(m0, packets, now);
            &&& res.1.len() == chunks.len()
            &&& (forall|j: int| 0 <= j < chunks.len() - 1 ==> res.1[j] is None)
            &&& res.1[chunks.len() - 1] == Some(chunks.flatten())
            &&& res.0 == m0
        }),
{
    lemma_round_trip_from(m0, id, chunks, perm, packets, size, now, 0);
    assert(packets.skip(0) =~= packets);
    let n = chunks.len() as int;
    let res = run_steps(m0, packets, now);
    assert(res.1 == Seq::new(
        n as nat,
        |j: int| if j == n - 1 {
            Some(chunks.flatten())
        } else {
            None::<Seq<u8>>
        },
    ));
    assert(forall|j: int| 0 <= j < n - 1 ==> res.1[j] is None);
    assert(res.1[n - 1] == Some(chunks.flatten()));
}

/// Duplicate-fragment idempotence: re-delivering a fragment already held
/// in its message's incomplete buffer leaves every buffer as it was and
/// emits nothing — it neither changes the eventual output nor causes a
/// second emission.
pub proof fn lemma_duplicate_fragment(m: Map<u32, BufferV>, d: Seq<u8>, now: u64)
    requires
        is_fragment(d),
        m.contains_key(header_of(d).message_id),
        m[header_of(d).message_id].received.contains_pair(
            header_of(d).fragment_index,
            d.skip(HEADER_SIZE as int),
        ),
        m[header_of(d).message_id].received.dom().len() != header_of(d).total_fragments as int,
    ensures
        step(m, d, now).buffers == m,
        step(m, d, now).output is None,
{
    let h = header_of(d);
    let b0 = m[h.message_id];
    assert(b0.received.insert(h.fragment_index, d.skip(HEADER_SIZE as int)) =~= b0.received);
    let b1 = BufferV { received: b0.received.insert(h.fragment_index, d.skip(HEADER_SIZE as int)), ..b0 };
    assert(b1 =~= b0);
    assert(insert_frag(m, h, d.skip(HEADER_SIZE as int), now) =~= m);
}

/// Time-to-live eviction: the periodic sweep removes every buffer whose
/// age has reached the time-to-live — however incomplete — and keeps
/// exactly the younger ones, so the buffer population never outlives the
/// sweep under a stream of messages that never complete.
pub proof fn lemma_ttl_eviction(m: Map<u32, BufferV>, now: u64)
    ensures
        forall|id: u32|
            m.contains_key(id) && expired(#[trigger] m[id], now) ==> !sweep(m, now).contains_key(
                id,
            ),
        forall|id: u32|
            #[trigger] sweep(m, now).contains_key(id) ==> m.contains_key(id) && !expired(
                m[id],
                now,
            ) && sweep(m, now)[id] == m[id],
{
}

proof fn lemma_frag_map_congruent(a: Seq<(u16, Vec<u8>)>, b: Seq<(u16, Vec<u8>)>)
    requires
        a.len() == b.len(),
        forall|j: int| 0 <= j < a.len() ==> (#[trigger] a[j]).0 == b[j].0 && a[j].1@ == b[j].1@,
    ensures
        frag_map(a) == frag_map(b),
    decreases a.len(),
{
    if a.len() > 0 {
        assert(forall|j: int|
            0 <= j < a.len() - 1 ==> (#[trigger] a.drop_last()[j]).0 == b.drop_last()[j].0
                && a.drop_last()[j].1@ == b.drop_last()[j].1@);
        lemma_frag_map_congruent(a.drop_last(), b.drop_last());
    }
}

} // verus!
