use vstd::prelude::*;

use crate::protocol::MAX_FRAME_BYTES;
use crate::wire::push_all;

verus! {

/// Largest UDP payload that is sent: every fragment fits in it.
pub const UDP_PAYLOAD: usize = 1200;

/// Most frames that are assembled at the same time.
pub const MAX_INFLIGHT_FRAMES: usize = 6;

/// How long an incomplete frame is kept, in nanoseconds (750 ms).
pub const FRAME_TIMEOUT: u64 = 750000000;

/// Most fragments that one frame may be split into.
pub open spec fn max_chunks() -> nat {
    ((MAX_FRAME_BYTES + 1171) / 1172 + 1) as nat
}

/// A frame whose fragments are still arriving.
struct PendingFrame {
    frame_id: u64,
    created: u64,
    chunks: Vec<Option<Vec<u8>>>,
    received: usize,
    bytes: usize,
    expected: usize,
}

/// A pending frame as plain values. Times are nanoseconds on the caller's
/// monotonic clock.
#[verifier::ext_equal]
pub struct FrameModel {
    pub id: u64,
    pub created: u64,
    pub chunks: Seq<Option<Seq<u8>>>,
    pub received: nat,
    pub bytes: nat,
    pub expected: nat,
}

pub open spec fn chunk_view(c: Option<Vec<u8>>) -> Option<Seq<u8>> {
    match c {
        Some(v) => Some(v@),
        None => None,
    }
}

pub open spec fn chunks_view(v: Seq<Option<Vec<u8>>>) -> Seq<Option<Seq<u8>>> {
    Seq::new(v.len(), |i: int| chunk_view(v[i]))
}

impl PendingFrame {
    spec fn model(&self) -> FrameModel {
        FrameModel {
            id: self.frame_id,
            created: self.created,
            chunks: chunks_view(self.chunks@),
            received: self.received as nat,
            bytes: self.bytes as nat,
            expected: self.expected as nat,
        }
    }
}

/// Reassembles frames from fragments that may arrive in any order.
pub struct Reassembler {
    frames: Vec<PendingFrame>,
}

#[derive(Debug, Clone, Copy, PartialEq, Eq, Structural)]
pub enum ReassemblyError {
    TooManyChunks,
    InvalidChunk,
    FrameTooLarge,
    SizeMismatch,
}

/// Number of fragments that have arrived.
pub open spec fn count_received(chunks: Seq<Option<Seq<u8>>>) -> nat
    decreases chunks.len(),
{
    if chunks.len() == 0 {
        0
    } else {
        count_received(chunks.drop_last()) + if chunks.last() is Some { 1nat } else { 0nat }
    }
}

/// Number of payload bytes that have arrived.
pub open spec fn chunk_bytes(chunks: Seq<Option<Seq<u8>>>) -> nat
    decreases chunks.len(),
{
    if chunks.len() == 0 {
        0
    } else {
        chunk_bytes(chunks.drop_last()) + match chunks.last() {
            Some(c) => c.len(),
            None => 0,
        }
    }
}

/// The fragments' data joined in fragment order.
pub open spec fn concat_chunks(chunks: Seq<Option<Seq<u8>>>) -> Seq<u8>
    decreases chunks.len(),
{
    if chunks.len() == 0 {
        Seq::empty()
    } else {
        concat_chunks(chunks.drop_last()) + match chunks.last() {
            Some(c) => c,
            None => Seq::empty(),
        }
    }
}

/// Payload bytes held by all pending frames.
pub open spec fn total_bytes(frames: Seq<FrameModel>) -> nat
    decreases frames.len(),
{
    if frames.len() == 0 {
        0
    } else {
        total_bytes(frames.drop_last()) + frames.last().bytes
    }
}

pub open spec fn frame_wf(f: FrameModel) -> bool {
    &&& 1 <= f.chunks.len() <= max_chunks()
    &&& f.received == count_received(f.chunks)
    &&& f.received < f.chunks.len()
    &&& f.bytes == chunk_bytes(f.chunks)
    &&& f.bytes <= f.expected <= MAX_FRAME_BYTES
    &&& forall|i: int|
        0 <= i < f.chunks.len() && #[trigger] f.chunks[i] is Some ==> f.chunks[i].unwrap().len()
            <= UDP_PAYLOAD
}

/// What every reassembler keeps: at most six frames, each consistent, no
/// frame id twice, and at most `MAX_FRAME_BYTES` buffered in all.
pub open spec fn frames_wf(frames: Seq<FrameModel>) -> bool {
    &&& frames.len() <= MAX_INFLIGHT_FRAMES
    &&& forall|i: int| 0 <= i < frames.len() ==> frame_wf(#[trigger] frames[i])
    &&& forall|i: int, j: int|
        0 <= i < frames.len() && 0 <= j < frames.len() && i != j ==> #[trigger] frames[i].id
            != #[trigger] frames[j].id
    &&& total_bytes(frames) <= MAX_FRAME_BYTES
}

/// A frame is kept while at most `FRAME_TIMEOUT` has passed since it was
/// created (no time has passed if the clock reads earlier).
pub open spec fn still_fresh(f: FrameModel, now: u64) -> bool {
    now <= f.created || now - f.created <= FRAME_TIMEOUT
}

pub open spec fn spec_expire(frames: Seq<FrameModel>, now: u64) -> Seq<FrameModel>
    decreases frames.len(),
{
    if frames.len() == 0 {
        Seq::empty()
    } else if still_fresh(frames.last(), now) {
        spec_expire(frames.drop_last(), now).push(frames.last())
    } else {
        spec_expire(frames.drop_last(), now)
    }
}

/// Index of the first frame with the earliest creation time among the first `n`.
pub open spec fn oldest_among(frames: Seq<FrameModel>, n: int) -> int
    decreases n,
{
    if n <= 1 {
        0
    } else {
        let k = oldest_among(frames, n - 1);
        if frames[n - 1].created < frames[k].created {
            n - 1
        } else {
            k
        }
    }
}

pub open spec fn oldest_index(frames: Seq<FrameModel>) -> int {
    oldest_among(frames, frames.len() as int)
}

/// Drops the oldest frames until `incoming` more bytes fit in the budget.
pub open spec fn evict_for_budget(frames: Seq<FrameModel>, incoming: nat) -> Seq<FrameModel>
    decreases frames.len(),
{
    if frames.len() == 0 || total_bytes(frames) + incoming <= MAX_FRAME_BYTES {
        frames
    } else {
        proof {
            lemma_oldest_in_range(frames, frames.len() as int);
        }
        evict_for_budget(frames.remove(oldest_index(frames)), incoming)
    }
}

/// The oldest of the first `n` frames is one of them, and none of them is older.
pub proof fn lemma_oldest_in_range(frames: Seq<FrameModel>, n: int)
    requires
        1 <= n <= frames.len(),
    ensures
        0 <= oldest_among(frames, n) < n,
        forall|j: int| 0 <= j < n ==> frames[oldest_among(frames, n)].created <= #[trigger] frames[j].created,
    decreases n,
{
    if n > 1 {
        lemma_oldest_in_range(frames, n - 1);
    }
}

/// Index of the frame with the given id, if one is pending.
pub open spec fn index_of(frames: Seq<FrameModel>, id: u64) -> Option<int>
    decreases frames.len(),
{
    if frames.len() == 0 {
        None
    } else if frames.last().id == id {
        Some(frames.len() - 1)
    } else {
        index_of(frames.drop_last(), id)
    }
}

/// Makes room for a new frame id by dropping the oldest frame when six are pending.
pub open spec fn evict_for_slot(frames: Seq<FrameModel>, id: u64) -> Seq<FrameModel> {
    if index_of(frames, id) is None && frames.len() >= MAX_INFLIGHT_FRAMES && frames.len() > 0 {
        frames.remove(oldest_index(frames))
    } else {
        frames
    }
}

pub open spec fn new_frame(id: u64, now: u64, count: nat, expected: nat) -> FrameModel {
    FrameModel {
        id,
        created: now,
        chunks: Seq::new(count, |i: int| None),
        received: 0,
        bytes: 0,
        expected,
    }
}

/// What `push` does to the pending frames and what it returns.
pub open spec fn spec_push(
    frames: Seq<FrameModel>,
    id: u64,
    index: u32,
    count: u32,
    expected: usize,
    data: Seq<u8>,
    now: u64,
) -> (Seq<FrameModel>, Result<Option<Seq<u8>>, ReassemblyError>) {
    if expected > MAX_FRAME_BYTES {
        (frames, Err(ReassemblyError::FrameTooLarge))
    } else if count == 0 || count > max_chunks() || index >= count {
        (frames, Err(ReassemblyError::TooManyChunks))
    } else {
        let fs1 = evict_for_slot(evict_for_budget(spec_expire(frames, now), data.len()), id);
        let fs2 = if index_of(fs1, id) is Some {
            fs1
        } else {
            fs1.push(new_frame(id, now, count as nat, expected as nat))
        };
        let k = if index_of(fs1, id) is Some { index_of(fs1, id).unwrap() } else { fs1.len() as int };
        let f = fs2[k];
        if f.chunks.len() != count || f.expected != expected {
            (fs2.remove(k), Err(ReassemblyError::InvalidChunk))
        } else if f.chunks[index as int] is None && (f.bytes + data.len() > f.expected || data.len()
            > UDP_PAYLOAD) {
            (fs2.remove(k), Err(ReassemblyError::FrameTooLarge))
        } else {
            let f1 = if f.chunks[index as int] is None {
                FrameModel {
                    chunks: f.chunks.update(index as int, Some(data)),
                    received: f.received + 1,
                    bytes: f.bytes + data.len(),
                    ..f
                }
            } else {
                f
            };
            if f1.received != f1.chunks.len() {
                (fs2.update(k, f1), Ok(None))
            } else if concat_chunks(f1.chunks).len() != f1.expected {
                (fs2.remove(k), Err(ReassemblyError::SizeMismatch))
            } else {
                (fs2.remove(k), Ok(Some(concat_chunks(f1.chunks))))
            }
        }
    }
}

pub open spec fn result_view(r: Result<Option<Vec<u8>>, ReassemblyError>) -> Result<Option<Seq<u8>>, ReassemblyError> {
    match r {
        Ok(Some(v)) => Ok(Some(v@)),
        Ok(None) => Ok(None),
        Err(e) => Err(e),
    }
}

impl View for Reassembler {
    type V = Seq<FrameModel>;

    closed spec fn view(&self) -> Seq<FrameModel> {
        self.frames@.map_values(|f: PendingFrame| f.model())
    }
}

proof fn lemma_total_push(frames: Seq<FrameModel>, f: FrameModel)
    ensures
        total_bytes(frames.push(f)) == total_bytes(frames) + f.bytes,
{
    assert(frames.push(f).drop_last() =~= frames);
}

proof fn lemma_total_remove(frames: Seq<FrameModel>, i: int)
    requires
        0 <= i < frames.len(),
    ensures
        total_bytes(frames.remove(i)) + frames[i].bytes == total_bytes(frames),
    decreases frames.len(),
{
    if i == frames.len() - 1 {
        assert(frames.remove(i) =~= frames.drop_last());
    } else {
        lemma_total_remove(frames.drop_last(), i);
        assert(frames.remove(i).drop_last() =~= frames.drop_last().remove(i));
        assert(frames.remove(i).last() == frames.last());
    }
}

proof fn lemma_total_update(frames: Seq<FrameModel>, i: int, f: FrameModel)
    requires
        0 <= i < frames.len(),
    ensures
        total_bytes(frames.update(i, f)) + frames[i].bytes == total_bytes(frames) + f.bytes,
{
    lemma_total_remove(frames, i);
    lemma_total_remove(frames.update(i, f), i);
    assert(frames.update(i, f).remove(i) =~= frames.remove(i));
}

proof fn lemma_total_prefix(frames: Seq<FrameModel>, i: int)
    requires
        0 <= i <= frames.len(),
    ensures
        total_bytes(frames.take(i)) <= total_bytes(frames),
    decreases frames.len(),
{
    if i < frames.len() {
        lemma_total_prefix(frames.drop_last(), i);
        assert(frames.drop_last().take(i) =~= frames.take(i));
    } else {
        assert(frames.take(i) =~= frames);
    }
}

proof fn lemma_wf_remove(frames: Seq<FrameModel>, i: int)
    requires
        frames_wf(frames),
        0 <= i < frames.len(),
    ensures
        frames_wf(frames.remove(i)),
        total_bytes(frames.remove(i)) + frames[i].bytes == total_bytes(frames),
        forall|j: int| 0 <= j < frames.remove(i).len() ==> exists|k: int| 0 <= k < frames.len() && k != i && #[trigger] frames.remove(i)[j] == frames[k],
{
    lemma_total_remove(frames, i);
    let r = frames.remove(i);
    assert forall|j: int| 0 <= j < r.len() implies exists|k: int| 0 <= k < frames.len() && k != i && #[trigger] r[j] == frames[k] by {
        if j < i {
            assert(r[j] == frames[j]);
        } else {
            assert(r[j] == frames[j + 1]);
        }
    }
    assert forall|a: int, b: int| 0 <= a < r.len() && 0 <= b < r.len() && a != b implies #[trigger] r[a].id != #[trigger] r[b].id by {
        let ka = if a < i { a } else { a + 1 };
        let kb = if b < i { b } else { b + 1 };
        assert(r[a] == frames[ka]);
        assert(r[b] == frames[kb]);
    }
    assert forall|a: int| 0 <= a < r.len() implies frame_wf(#[trigger] r[a]) by {
        let ka = if a < i { a } else { a + 1 };
        assert(r[a] == frames[ka]);
    }
}

/// Frames that outlive the timeout keep their order; the invariant survives.
proof fn lemma_expire_wf(frames: Seq<FrameModel>, now: u64)
    requires
        frames_wf(frames),
    ensures
        frames_wf(spec_expire(frames, now)),
        spec_expire(frames, now).len() <= frames.len(),
        total_bytes(spec_expire(frames, now)) <= total_bytes(frames),
        forall|j: int| 0 <= j < spec_expire(frames, now).len() ==> exists|k: int| 0 <= k < frames.len() && #[trigger] spec_expire(frames, now)[j] == frames[k],
    decreases frames.len(),
{
    if frames.len() > 0 {
        let d = frames.drop_last();
        lemma_wf_remove(frames, frames.len() - 1);
        assert(frames.remove(frames.len() - 1) =~= d);
        lemma_expire_wf(d, now);
        let e = spec_expire(d, now);
        if still_fresh(frames.last(), now) {
            let r = e.push(frames.last());
            lemma_total_push(e, frames.last());
            assert forall|j: int| 0 <= j < r.len() implies exists|k: int| 0 <= k < frames.len() && #[trigger] r[j] == frames[k] by {
                if j < e.len() {
                    let k = choose|k: int| 0 <= k < d.len() && #[trigger] e[j] == d[k];
                    assert(r[j] == frames[k]);
                } else {
                    assert(r[j] == frames[frames.len() - 1]);
                }
            }
            assert forall|a: int, b: int| 0 <= a < r.len() && 0 <= b < r.len() && a != b implies #[trigger] r[a].id != #[trigger] r[b].id by {
                if a < e.len() && b < e.len() {
                    assert(r[a] == e[a] && r[b] == e[b]);
                } else if a < e.len() {
                    let k = choose|k: int| 0 <= k < d.len() && #[trigger] e[a] == d[k];
                    assert(r[a] == frames[k]);
                    assert(r[b] == frames[frames.len() - 1]);
                } else {
                    let k = choose|k: int| 0 <= k < d.len() && #[trigger] e[b] == d[k];
                    assert(r[b] == frames[k]);
                    assert(r[a] == frames[frames.len() - 1]);
                }
            }
            assert forall|a: int| 0 <= a < r.len() implies frame_wf(#[trigger] r[a]) by {
                if a < e.len() {
                    assert(r[a] == e[a]);
                } else {
                    assert(r[a] == frames[frames.len() - 1]);
                }
            }
        } else {
            assert forall|j: int| 0 <= j < e.len() implies exists|k: int| 0 <= k < frames.len() && #[trigger] e[j] == frames[k] by {
                let k = choose|k: int| 0 <= k < d.len() && #[trigger] e[j] == d[k];
                assert(e[j] == frames[k]);
            }
        }
    }
}

proof fn lemma_evict_for_budget(frames: Seq<FrameModel>, incoming: nat)
    requires
        frames_wf(frames),
    ensures
        frames_wf(evict_for_budget(frames, incoming)),
        evict_for_budget(frames, incoming).len() == 0 || total_bytes(evict_for_budget(frames, incoming)) + incoming <= MAX_FRAME_BYTES,
        forall|j: int| 0 <= j < evict_for_budget(frames, incoming).len() ==> exists|k: int| 0 <= k < frames.len() && #[trigger] evict_for_budget(frames, incoming)[j] == frames[k],
    decreases frames.len(),
{
    if frames.len() == 0 || total_bytes(frames) + incoming <= MAX_FRAME_BYTES {
    } else {
        lemma_oldest_in_range(frames, frames.len() as int);
        let o = oldest_index(frames);
        lemma_wf_remove(frames, o);
        lemma_evict_for_budget(frames.remove(o), incoming);
        let r = evict_for_budget(frames, incoming);
        assert forall|j: int| 0 <= j < r.len() implies exists|k: int| 0 <= k < frames.len() && #[trigger] r[j] == frames[k] by {
            let k1 = choose|k: int| 0 <= k < frames.remove(o).len() && #[trigger] r[j] == frames.remove(o)[k];
            let k2 = choose|k: int| 0 <= k < frames.len() && k != o && #[trigger] frames.remove(o)[k1] == frames[k];
        }
    }
}

proof fn lemma_index_of(frames: Seq<FrameModel>, id: u64)
    ensures
        index_of(frames, id) matches Some(k) ==> 0 <= k < frames.len() && frames[k].id == id,
        index_of(frames, id) is None ==> forall|i: int| 0 <= i < frames.len() ==> #[trigger] frames[i].id != id,
    decreases frames.len(),
{
    if frames.len() > 0 {
        lemma_index_of(frames.drop_last(), id);
        if frames.last().id != id {
            assert forall|i: int| 0 <= i < frames.len() && index_of(frames, id) is None implies #[trigger] frames[i].id != id by {
                if i < frames.len() - 1 {
                    assert(frames[i] == frames.drop_last()[i]);
                }
            }
        }
    }
}

proof fn lemma_chunks_empty(n: nat)
    ensures
        count_received(Seq::<Option<Seq<u8>>>::new(n, |i: int| None)) == 0,
        chunk_bytes(Seq::<Option<Seq<u8>>>::new(n, |i: int| None)) == 0,
    decreases n,
{
    if n > 0 {
        lemma_chunks_empty((n - 1) as nat);
        assert(Seq::<Option<Seq<u8>>>::new(n, |i: int| None).drop_last() =~= Seq::<Option<Seq<u8>>>::new((n - 1) as nat, |i: int| None));
    }
}

proof fn lemma_count_at_most_len(c: Seq<Option<Seq<u8>>>)
    ensures
        count_received(c) <= c.len(),
    decreases c.len(),
{
    if c.len() > 0 {
        lemma_count_at_most_len(c.drop_last());
    }
}

proof fn lemma_chunks_fill(c: Seq<Option<Seq<u8>>>, i: int, d: Seq<u8>)
    requires
        0 <= i < c.len(),
        c[i] is None,
    ensures
        count_received(c.update(i, Some(d))) == count_received(c) + 1,
        chunk_bytes(c.update(i, Some(d))) == chunk_bytes(c) + d.len(),
    decreases c.len(),
{
    let u = c.update(i, Some(d));
    if i == c.len() - 1 {
        assert(u.drop_last() =~= c.drop_last());
    } else {
        lemma_chunks_fill(c.drop_last(), i, d);
        assert(u.drop_last() =~= c.drop_last().update(i, Some(d)));
    }
}

proof fn lemma_wf_push_new(frames: Seq<FrameModel>, f: FrameModel)
    requires
        frames_wf(frames),
        frames.len() < MAX_INFLIGHT_FRAMES,
        frame_wf(f),
        f.bytes == 0,
        forall|i: int| 0 <= i < frames.len() ==> #[trigger] frames[i].id != f.id,
    ensures
        frames_wf(frames.push(f)),
        total_bytes(frames.push(f)) == total_bytes(frames),
{
    lemma_total_push(frames, f);
    let r = frames.push(f);
    assert forall|a: int| 0 <= a < r.len() implies frame_wf(#[trigger] r[a]) by {
        if a < frames.len() {
            assert(r[a] == frames[a]);
        }
    }
    assert forall|a: int, b: int| 0 <= a < r.len() && 0 <= b < r.len() && a != b implies #[trigger] r[a].id != #[trigger] r[b].id by {
        if a < frames.len() && b < frames.len() {
            assert(r[a] == frames[a] && r[b] == frames[b]);
        } else if a < frames.len() {
            assert(r[a] == frames[a]);
        } else {
            assert(r[b] == frames[b]);
        }
    }
}

proof fn lemma_wf_update(frames: Seq<FrameModel>, k: int, f: FrameModel)
    requires
        frames_wf(frames),
        0 <= k < frames.len(),
        frame_wf(f),
        f.id == frames[k].id,
        total_bytes(frames) - frames[k].bytes + f.bytes <= MAX_FRAME_BYTES,
    ensures
        frames_wf(frames.update(k, f)),
{
    lemma_total_update(frames, k, f);
    let r = frames.update(k, f);
    assert forall|a: int| 0 <= a < r.len() implies frame_wf(#[trigger] r[a]) by {
        if a != k {
            assert(r[a] == frames[a]);
        }
    }
    assert forall|a: int, b: int| 0 <= a < r.len() && 0 <= b < r.len() && a != b implies #[trigger] r[a].id != #[trigger] r[b].id by {
        assert(r[a].id == frames[a].id);
        assert(r[b].id == frames[b].id);
    }
}

impl Default for Reassembler {
    fn default() -> (r: Self)
        ensures
            r.wf(),
            r@ == Seq::<FrameModel>::empty(),
    {
        Reassembler::new()
    }
}

impl Reassembler {
    pub open spec fn wf(&self) -> bool {
        frames_wf(self@)
    }

    /// An empty reassembler.
    pub fn new() -> (r: Self)
        ensures
            r.wf(),
            r@ == Seq::<FrameModel>::empty(),
    {
        let r = Reassembler { frames: Vec::new() };
        assert(r@ =~= Seq::<FrameModel>::empty());
        r
    }

    /// Drops the frames that were created more than `FRAME_TIMEOUT` before `now`.
    pub fn expire(&mut self, now: u64)
        requires
            old(self).wf(),
        ensures
            final(self).wf(),
            final(self)@ == spec_expire(old(self)@, now),
    {
        let ghost orig = self@;
        let ghost mut j: int = 0;
        let mut i: usize = 0;
        proof {
            lemma_expire_wf(orig, now);
            assert(orig.take(0) =~= Seq::<FrameModel>::empty());
            assert(self@ =~= spec_expire(orig.take(0), now) + orig.skip(0));
        }
        while i < self.frames.len()
            invariant
                0 <= j <= orig.len(),
                i == spec_expire(orig.take(j), now).len(),
                self@ == spec_expire(orig.take(j), now) + orig.skip(j),
            decreases orig.len() - j,
        {
            let ghost before = self@;
            assert(orig.take(j + 1).drop_last() =~= orig.take(j));
            assert(orig.take(j + 1).last() == orig[j]);
            assert(self@[i as int] == orig[j]);
            let created = self.frames[i].created;
            if now <= created || now - created <= FRAME_TIMEOUT {
                i = i + 1;
                proof {
                    j = j + 1;
                    assert(self@ =~= spec_expire(orig.take(j), now) + orig.skip(j));
                }
            } else {
                self.frames.remove(i);
                proof {
                    assert(!still_fresh(orig[j], now));
                    assert(self@ =~= before.remove(i as int));
                    assert(spec_expire(orig.take(j + 1), now) == spec_expire(orig.take(j), now));
                    j = j + 1;
                    assert(self@ =~= spec_expire(orig.take(j), now) + orig.skip(j));
                }
            }
        }
        proof {
            assert(orig.take(j) =~= orig);
            assert(self@ =~= spec_expire(orig, now));
        }
    }

    fn total(&self) -> (r: usize)
        requires
            self.wf(),
        ensures
            r == total_bytes(self@),
    {
        let mut sum: usize = 0;
        let mut i: usize = 0;
        while i < self.frames.len()
            invariant
                self.wf(),
                i <= self@.len(),
                sum == total_bytes(self@.take(i as int)),
            decreases self@.len() - i,
        {
            proof {
                assert(self@.take(i + 1).drop_last() =~= self@.take(i as int));
                lemma_total_prefix(self@, i + 1);
            }
            sum = sum + self.frames[i].bytes;
            i = i + 1;
        }
        assert(self@.take(i as int) =~= self@);
        sum
    }

    fn oldest(&self) -> (r: usize)
        requires
            self@.len() > 0,
        ensures
            r == oldest_index(self@),
    {
        let mut best: usize = 0;
        let mut i: usize = 1;
        while i < self.frames.len()
            invariant
                1 <= i <= self@.len(),
                best == oldest_among(self@, i as int),
            decreases self@.len() - i,
        {
            proof {
                lemma_oldest_in_range(self@, i as int);
            }
            if self.frames[i].created < self.frames[best].created {
                best = i;
            }
            i = i + 1;
        }
        best
    }

    fn find(&self, id: u64) -> (r: Option<usize>)
        ensures
            match (r, index_of(self@, id)) {
                (Some(k), Some(e)) => k == e,
                (None, None) => true,
                _ => false,
            },
    {
        let mut i: usize = self.frames.len();
        assert(self@.take(i as int) =~= self@);
        while i > 0
            invariant
                i <= self@.len(),
                index_of(self@, id) == index_of(self@.take(i as int), id),
            decreases i,
        {
            assert(self@.take(i as int).drop_last() =~= self@.take(i - 1));
            if self.frames[i - 1].frame_id == id {
                return Some(i - 1);
            }
            i = i - 1;
        }
        None
    }

    /// Drops expired frames, then the oldest frames until `incoming` more
    /// bytes fit, then the oldest frame if `frame_id` would be a seventh frame.
    fn make_room(&mut self, frame_id: u64, incoming: usize, now: u64)
        requires
            old(self).wf(),
        ensures
            final(self).wf(),
            final(self)@ == evict_for_slot(evict_for_budget(spec_expire(old(self)@, now), incoming as nat), frame_id),
            final(self)@.len() == 0 || total_bytes(final(self)@) + incoming <= MAX_FRAME_BYTES,
            index_of(final(self)@, frame_id) is None ==> final(self)@.len() < MAX_INFLIGHT_FRAMES,
    {
        self.expire(now);
        let ghost expired = self@;
        proof {
            lemma_evict_for_budget(expired, incoming as nat);
        }
        loop
            invariant
                self.wf(),
                evict_for_budget(self@, incoming as nat) == evict_for_budget(expired, incoming as nat),
            ensures
                self.wf(),
                self@ == evict_for_budget(expired, incoming as nat),
            decreases self@.len(),
        {
            if self.frames.len() == 0 {
                assert(evict_for_budget(self@, incoming as nat) == self@);
                break;
            }
            let total = self.total();
            if incoming <= MAX_FRAME_BYTES - total {
                assert(evict_for_budget(self@, incoming as nat) == self@);
                break;
            }
            let o = self.oldest();
            proof {
                lemma_oldest_in_range(self@, self@.len() as int);
                lemma_wf_remove(self@, o as int);
            }
            let ghost before = self@;
            self.frames.remove(o);
            assert(self@ =~= before.remove(o as int));
        }
        let ghost budgeted = self@;
        if self.find(frame_id).is_none() && self.frames.len() >= MAX_INFLIGHT_FRAMES {
            let o = self.oldest();
            proof {
                lemma_oldest_in_range(self@, self@.len() as int);
                lemma_wf_remove(self@, o as int);
            }
            let ghost before = self@;
            self.frames.remove(o);
            assert(self@ =~= before.remove(o as int));
        }
        proof {
            lemma_index_of(self@, frame_id);
            lemma_index_of(budgeted, frame_id);
            if index_of(budgeted, frame_id) is None && budgeted.len() >= MAX_INFLIGHT_FRAMES {
                lemma_oldest_in_range(budgeted, budgeted.len() as int);
                lemma_total_remove(budgeted, oldest_index(budgeted));
            }
            if index_of(self@, frame_id) is None && index_of(budgeted, frame_id) is Some {
                let kb = index_of(budgeted, frame_id).unwrap();
                assert(self@ == budgeted);
                assert(self@[kb].id == frame_id);
            }
        }
    }

    /// The position of frame `frame_id`, adding it with `chunk_count` empty
    /// slots when it is not pending yet.
    fn slot_for(&mut self, frame_id: u64, chunk_count: u32, expected: usize, now: u64) -> (k: usize)
        requires
            old(self).wf(),
            1 <= chunk_count <= max_chunks(),
            expected <= MAX_FRAME_BYTES,
            index_of(old(self)@, frame_id) is None ==> old(self)@.len() < MAX_INFLIGHT_FRAMES,
        ensures
            final(self).wf(),
            total_bytes(final(self)@) == total_bytes(old(self)@),
            index_of(old(self)@, frame_id) is Some ==> final(self)@ == old(self)@ && k == index_of(old(self)@, frame_id).unwrap(),
            index_of(old(self)@, frame_id) is None ==> final(self)@ == old(self)@.push(new_frame(frame_id, now, chunk_count as nat, expected as nat)) && k == old(self)@.len(),
            k < final(self)@.len(),
    {
        proof {
            lemma_index_of(self@, frame_id);
        }
        match self.find(frame_id) {
            Some(k) => k,
            None => {
                let mut chunks: Vec<Option<Vec<u8>>> = Vec::new();
                let mut n: usize = 0;
                while n < chunk_count as usize
                    invariant
                        n <= chunk_count,
                        chunks@.len() == n,
                        forall|i: int| 0 <= i < n ==> #[trigger] chunks@[i] is None,
                    decreases chunk_count - n,
                {
                    chunks.push(None);
                    n = n + 1;
                }
                assert(chunks_view(chunks@) =~= Seq::<Option<Seq<u8>>>::new(n as nat, |i: int| None));
                let frame = PendingFrame { frame_id, created: now, chunks, received: 0, bytes: 0, expected };
                let ghost before = self@;
                proof {
                    lemma_chunks_empty(chunk_count as nat);
                    assert(frame.model() == new_frame(frame_id, now, chunk_count as nat, expected as nat));
                    lemma_wf_push_new(before, frame.model());
                }
                self.frames.push(frame);
                assert(self@ =~= before.push(new_frame(frame_id, now, chunk_count as nat, expected as nat)));
                self.frames.len() - 1
            },
        }
    }

    /// Takes one fragment of frame `frame_id`. Returns the whole frame once
    /// its last fragment has arrived, `None` while fragments are missing.
    /// Expired frames are dropped first, then the oldest frames while the
    /// buffered bytes plus `data` would exceed `MAX_FRAME_BYTES`, then the
    /// oldest frame when a seventh frame would start.
    pub fn push(
        &mut self,
        frame_id: u64,
        chunk_index: u32,
        chunk_count: u32,
        expected: usize,
        data: &[u8],
        now: u64,
    ) -> (r: Result<Option<Vec<u8>>, ReassemblyError>)
        requires
            old(self).wf(),
        ensures
            final(self).wf(),
            (final(self)@, result_view(r)) == spec_push(old(self)@, frame_id, chunk_index, chunk_count, expected, data@, now),
            r matches Ok(Some(v)) ==> v@.len() == expected,
    {
        if expected > MAX_FRAME_BYTES {
            return Err(ReassemblyError::FrameTooLarge);
        }
        let max_chunks: usize = (MAX_FRAME_BYTES + 1171) / 1172 + 1;
        if chunk_count == 0 || chunk_count as usize > max_chunks || chunk_index >= chunk_count {
            return Err(ReassemblyError::TooManyChunks);
        }
        self.make_room(frame_id, data.len(), now);
        let k = self.slot_for(frame_id, chunk_count, expected, now);
        self.take_chunk(k, chunk_index, chunk_count, expected, data)
    }

    fn take_chunk(&mut self, k: usize, chunk_index: u32, chunk_count: u32, expected: usize, data: &[u8]) -> (r: Result<Option<Vec<u8>>, ReassemblyError>)
        requires
            old(self).wf(),
            k < old(self)@.len(),
            chunk_index < chunk_count,
            old(self)@.len() == 1 || total_bytes(old(self)@) + data@.len() <= MAX_FRAME_BYTES || old(self)@[k as int].bytes == total_bytes(old(self)@),
        ensures
            final(self).wf(),
            ({
                let placed = old(self)@;
                let f = placed[k as int];
                let pair = (final(self)@, result_view(r));
                if f.chunks.len() != chunk_count || f.expected != expected {
                    pair == (placed.remove(k as int), Err::<Option<Seq<u8>>, ReassemblyError>(ReassemblyError::InvalidChunk))
                } else if f.chunks[chunk_index as int] is None && (f.bytes + data@.len() > f.expected || data@.len() > UDP_PAYLOAD) {
                    pair == (placed.remove(k as int), Err::<Option<Seq<u8>>, ReassemblyError>(ReassemblyError::FrameTooLarge))
                } else {
                    let f1 = if f.chunks[chunk_index as int] is None {
                        FrameModel {
                            chunks: f.chunks.update(chunk_index as int, Some(data@)),
                            received: f.received + 1,
                            bytes: f.bytes + data@.len(),
                            ..f
                        }
                    } else {
                        f
                    };
                    if f1.received != f1.chunks.len() {
                        pair == (placed.update(k as int, f1), Ok::<Option<Seq<u8>>, ReassemblyError>(None))
                    } else if concat_chunks(f1.chunks).len() != f1.expected {
                        pair == (placed.remove(k as int), Err::<Option<Seq<u8>>, ReassemblyError>(ReassemblyError::SizeMismatch))
                    } else {
                        pair == (placed.remove(k as int), Ok::<Option<Seq<u8>>, ReassemblyError>(Some(concat_chunks(f1.chunks))))
                    }
                }
            }),
    {
        let ghost placed = self@;
        let ghost f = placed[k as int];
        proof {
            lemma_wf_remove(placed, k as int);
        }
        let mut frame = self.frames.remove(k);
        assert(self@ =~= placed.remove(k as int));
        assert(frame.model() == f);
        if frame.chunks.len() != chunk_count as usize || frame.expected != expected {
            return Err(ReassemblyError::InvalidChunk);
        }
        let idx = chunk_index as usize;
        if frame.chunks[idx].is_none() {
            if data.len() > UDP_PAYLOAD || data.len() > frame.expected - frame.bytes {
                return Err(ReassemblyError::FrameTooLarge);
            }
            let mut copy: Vec<u8> = Vec::new();
            push_all(&mut copy, data);
            let ghost old_chunks = f.chunks;
            proof {
                lemma_chunks_fill(old_chunks, idx as int, data@);
            }
            frame.chunks.set(idx, Some(copy));
            frame.received = frame.received + 1;
            frame.bytes = frame.bytes + data.len();
            assert(frame.model().chunks =~= old_chunks.update(idx as int, Some(data@)));
        }
        let ghost f1 = frame.model();
        if frame.received != frame.chunks.len() {
            proof {
                lemma_count_at_most_len(f1.chunks);
                lemma_total_remove(placed, k as int);
                lemma_wf_update(placed, k as int, f1);
            }
            let ghost before = self@;
            self.frames.insert(k, frame);
            assert(self@ =~= before.insert(k as int, f1));
            assert(self@ =~= placed.update(k as int, f1));
            return Ok(None);
        }
        let mut completed: Vec<u8> = Vec::new();
        let mut j: usize = 0;
        while j < frame.chunks.len()
            invariant
                f1 == frame.model(),
                j <= f1.chunks.len(),
                completed@ == concat_chunks(f1.chunks.take(j as int)),
            decreases f1.chunks.len() - j,
        {
            assert(f1.chunks.take(j + 1).drop_last() =~= f1.chunks.take(j as int));
            match &frame.chunks[j] {
                Some(c) => push_all(&mut completed, c.as_slice()),
                None => {},
            }
            j = j + 1;
        }
        assert(f1.chunks.take(j as int) =~= f1.chunks);
        if completed.len() != frame.expected {
            return Err(ReassemblyError::SizeMismatch);
        }
        Ok(Some(completed))
    }
}

/// The fragment slots of a frame after the fragments `order[0..m]` of
/// `parts` have arrived.
pub open spec fn chunks_after(parts: Seq<Seq<u8>>, order: Seq<u32>, m: int) -> Seq<Option<Seq<u8>>> {
    Seq::new(
        parts.len(),
        |i: int|
            if order.take(m).contains(i as u32) {
                Some(parts[i])
            } else {
                None
            },
    )
}

/// The pending frame `id` after the fragments `order[0..m]` have arrived.
pub open spec fn partial_frame(
    id: u64,
    now: u64,
    parts: Seq<Seq<u8>>,
    order: Seq<u32>,
    m: int,
    expected: usize,
) -> FrameModel {
    FrameModel {
        id,
        created: now,
        chunks: chunks_after(parts, order, m),
        received: m as nat,
        bytes: chunk_bytes(chunks_after(parts, order, m)),
        expected: expected as nat,
    }
}

/// `order` names every fragment of `parts` exactly once; the fragments fit
/// in UDP payloads and their bytes add up to `expected`, a size that may be
/// buffered.
pub open spec fn complete_delivery(parts: Seq<Seq<u8>>, order: Seq<u32>, expected: usize) -> bool {
    &&& 1 <= parts.len() <= max_chunks()
    &&& order.len() == parts.len()
    &&& forall|i: int| 0 <= i < order.len() ==> #[trigger] order[i] < parts.len()
    &&& forall|i: int, j: int| 0 <= i < j < order.len() ==> #[trigger] order[i] != #[trigger] order[j]
    &&& forall|i: int| 0 <= i < parts.len() ==> #[trigger] parts[i].len() <= UDP_PAYLOAD
    &&& parts.flatten().len() == expected
    &&& expected <= MAX_FRAME_BYTES
}

/// Frames were created no later than `now`.
pub open spec fn created_by(frames: Seq<FrameModel>, now: u64) -> bool {
    forall|i: int| 0 <= i < frames.len() ==> #[trigger] frames[i].created <= now
}

proof fn lemma_chunks_after_step(parts: Seq<Seq<u8>>, order: Seq<u32>, expected: usize, m: int)
    requires
        complete_delivery(parts, order, expected),
        0 <= m < order.len(),
    ensures
        chunks_after(parts, order, m)[order[m] as int] is None,
        chunks_after(parts, order, m + 1) == chunks_after(parts, order, m).update(
            order[m] as int,
            Some(parts[order[m] as int]),
        ),
{
    let i = order[m];
    assert(order.take(m + 1) =~= order.take(m).push(i));
    if order.take(m).contains(i) {
        let j = choose|j: int| 0 <= j < m && order.take(m)[j] == i;
        assert(order[j] == order[m]);
    }
    let a = chunks_after(parts, order, m + 1);
    let u = chunks_after(parts, order, m).update(i as int, Some(parts[i as int]));
    assert forall|j: int| 0 <= j < a.len() implies #[trigger] a[j] == u[j] by {
        assert((j as u32) as int == j);
        if j == i {
            assert(order.take(m + 1)[m] == i);
        } else {
            if order.take(m + 1).contains(j as u32) {
                let t = choose|t: int| 0 <= t < m + 1 && #[trigger] order.take(m + 1)[t] == j as u32;
                assert(t < m);
                assert(order.take(m)[t] == j as u32);
            }
            if order.take(m).contains(j as u32) {
                let t = choose|t: int| 0 <= t < m && #[trigger] order.take(m)[t] == j as u32;
                assert(order.take(m + 1)[t] == j as u32);
            }
        }
    }
    assert(a =~= u);
}

proof fn lemma_partial_counts(parts: Seq<Seq<u8>>, order: Seq<u32>, expected: usize, m: int)
    requires
        complete_delivery(parts, order, expected),
        0 <= m <= order.len(),
    ensures
        count_received(chunks_after(parts, order, m)) == m,
    decreases m,
{
    if m == 0 {
        assert(chunks_after(parts, order, 0) =~= Seq::<Option<Seq<u8>>>::new(parts.len(), |i: int| None));
        lemma_chunks_empty(parts.len());
    } else {
        lemma_partial_counts(parts, order, expected, m - 1);
        lemma_chunks_after_step(parts, order, expected, m - 1);
        lemma_chunks_fill(chunks_after(parts, order, m - 1), order[m - 1] as int, parts[order[m - 1] as int]);
    }
}

proof fn lemma_all_received(c: Seq<Option<Seq<u8>>>)
    requires
        count_received(c) == c.len(),
    ensures
        forall|i: int| 0 <= i < c.len() ==> #[trigger] c[i] is Some,
    decreases c.len(),
{
    if c.len() > 0 {
        lemma_count_at_most_len(c.drop_last());
        lemma_all_received(c.drop_last());
        assert forall|i: int| 0 <= i < c.len() implies #[trigger] c[i] is Some by {
            if i < c.len() - 1 {
                assert(c[i] == c.drop_last()[i]);
            }
        }
    }
}

/// Bytes held by some of the fragments are at most the bytes of all of them.
proof fn lemma_chunk_bytes_partial(c: Seq<Option<Seq<u8>>>, parts: Seq<Seq<u8>>)
    requires
        c.len() == parts.len(),
        forall|i: int| 0 <= i < c.len() && #[trigger] c[i] is Some ==> c[i] == Some(parts[i]),
    ensures
        chunk_bytes(c) <= parts.flatten_alt().len(),
    decreases c.len(),
{
    if c.len() > 0 {
        lemma_chunk_bytes_partial(c.drop_last(), parts.drop_last());
    }
}

proof fn lemma_full_chunks(c: Seq<Option<Seq<u8>>>, parts: Seq<Seq<u8>>)
    requires
        c.len() == parts.len(),
        forall|i: int| 0 <= i < c.len() ==> #[trigger] c[i] == Some(parts[i]),
    ensures
        concat_chunks(c) == parts.flatten_alt(),
        chunk_bytes(c) == parts.flatten_alt().len(),
    decreases c.len(),
{
    if c.len() > 0 {
        lemma_full_chunks(c.drop_last(), parts.drop_last());
    }
}

proof fn lemma_oldest_not_last(frames: Seq<FrameModel>)
    requires
        frames.len() >= 2,
        forall|i: int| 0 <= i < frames.len() ==> #[trigger] frames[i].created <= frames.last().created,
    ensures
        oldest_index(frames) < frames.len() - 1,
{
    lemma_oldest_in_range(frames, frames.len() - 1);
}

proof fn lemma_evict_keeps_last(frames: Seq<FrameModel>, incoming: nat)
    requires
        frames_wf(frames),
        frames.len() >= 1,
        forall|i: int| 0 <= i < frames.len() ==> #[trigger] frames[i].created <= frames.last().created,
        frames.last().bytes + incoming <= MAX_FRAME_BYTES,
    ensures
        evict_for_budget(frames, incoming).len() >= 1,
        evict_for_budget(frames, incoming).last() == frames.last(),
    decreases frames.len(),
{
    if total_bytes(frames) + incoming > MAX_FRAME_BYTES {
        if frames.len() == 1 {
            assert(frames.drop_last().len() == 0);
            assert(total_bytes(frames.drop_last()) == 0);
            assert(total_bytes(frames) == frames.last().bytes);
            assert(false);
        }
        lemma_oldest_not_last(frames);
        lemma_oldest_in_range(frames, frames.len() as int);
        let o = oldest_index(frames);
        lemma_wf_remove(frames, o);
        let r = frames.remove(o);
        assert(r.last() == frames.last());
        assert forall|i: int| 0 <= i < r.len() implies #[trigger] r[i].created <= r.last().created by {
            if i < o {
                assert(r[i] == frames[i]);
            } else {
                assert(r[i] == frames[i + 1]);
            }
        }
        lemma_evict_keeps_last(r, incoming);
    }
}

proof fn lemma_drawn_created_by(frames: Seq<FrameModel>, sub: Seq<FrameModel>, now: u64)
    requires
        created_by(frames, now),
        forall|j: int| 0 <= j < sub.len() ==> exists|k: int| 0 <= k < frames.len() && #[trigger] sub[j] == frames[k],
    ensures
        created_by(sub, now),
{
    assert forall|j: int| 0 <= j < sub.len() implies #[trigger] sub[j].created <= now by {
        let k = choose|k: int| 0 <= k < frames.len() && #[trigger] sub[j] == frames[k];
        assert(frames[k].created <= now);
    }
}

proof fn lemma_drawn_lacks_id(frames: Seq<FrameModel>, sub: Seq<FrameModel>, id: u64)
    requires
        index_of(frames, id) is None,
        forall|j: int| 0 <= j < sub.len() ==> exists|k: int| 0 <= k < frames.len() && #[trigger] sub[j] == frames[k],
    ensures
        index_of(sub, id) is None,
{
    lemma_index_of(frames, id);
    lemma_index_of(sub, id);
    if index_of(sub, id) is Some {
        let j = index_of(sub, id).unwrap();
        let k = choose|k: int| 0 <= k < frames.len() && #[trigger] sub[j] == frames[k];
        assert(frames[k].id == id);
    }
}

/// One fragment of an incomplete frame arrives (the frame is pending as the
/// last frame, or not yet pending for the first fragment).
proof fn lemma_next_fragment(
    frames: Seq<FrameModel>,
    id: u64,
    parts: Seq<Seq<u8>>,
    order: Seq<u32>,
    expected: usize,
    now: u64,
    m: int,
)
    requires
        complete_delivery(parts, order, expected),
        frames_wf(frames),
        created_by(frames, now),
        0 <= m < order.len(),
        m == 0 ==> index_of(frames, id) is None,
        m > 0 ==> frames.len() >= 1 && frames.last() == partial_frame(id, now, parts, order, m, expected),
    ensures
        ({
            let (next, r) = spec_push(frames, id, order[m], parts.len() as u32, expected, parts[order[m] as int], now);
            &&& frames_wf(next)
            &&& created_by(next, now)
            &&& m + 1 < order.len() ==> r == Ok::<Option<Seq<u8>>, ReassemblyError>(None) && next.len() >= 1 && next.last() == partial_frame(id, now, parts, order, m + 1, expected)
            &&& m + 1 == order.len() ==> r == Ok::<Option<Seq<u8>>, ReassemblyError>(Some(parts.flatten())) && index_of(next, id) is None
        }),
{
    let count = parts.len();
    let i = order[m];
    let data = parts[i as int];
    assert(max_chunks() < 200000);
    parts.lemma_flatten_and_flatten_alt_are_equivalent();
    lemma_partial_counts(parts, order, expected, m);
    lemma_partial_counts(parts, order, expected, m + 1);
    lemma_chunks_after_step(parts, order, expected, m);
    let before = chunks_after(parts, order, m);
    let after = chunks_after(parts, order, m + 1);
    lemma_chunks_fill(before, i as int, data);
    lemma_chunk_bytes_partial(after, parts);
    // Expiry keeps every frame this one could collide with in order.
    lemma_expire_wf(frames, now);
    let e = spec_expire(frames, now);
    lemma_drawn_created_by(frames, e, now);
    lemma_evict_for_budget(e, data.len());
    let b = evict_for_budget(e, data.len());
    lemma_drawn_created_by(e, b, now);
    if m > 0 {
        assert(frames.drop_last().len() < frames.len());
        assert(still_fresh(frames.last(), now));
        assert(e == spec_expire(frames.drop_last(), now).push(frames.last()));
        assert(e.last() == frames.last());
        lemma_evict_keeps_last(e, data.len());
    } else {
        lemma_drawn_lacks_id(frames, e, id);
        lemma_drawn_lacks_id(e, b, id);
    }
    let s = evict_for_slot(b, id);
    if index_of(b, id) is None && b.len() >= MAX_INFLIGHT_FRAMES && b.len() > 0 {
        lemma_oldest_in_range(b, b.len() as int);
        lemma_wf_remove(b, oldest_index(b));
        lemma_drawn_lacks_id(b, s, id);
        lemma_drawn_created_by(b, s, now);
    }
    lemma_index_of(s, id);
    let fresh = new_frame(id, now, count, expected as nat);
    let f = partial_frame(id, now, parts, order, m, expected);
    let f1 = partial_frame(id, now, parts, order, m + 1, expected);
    let s2 = if index_of(s, id) is Some { s } else { s.push(fresh) };
    let k = if index_of(s, id) is Some { index_of(s, id).unwrap() } else { s.len() as int };
    if m == 0 {
        assert(chunks_after(parts, order, 0) =~= Seq::<Option<Seq<u8>>>::new(count, |j: int| None));
        lemma_chunks_empty(count);
        assert(fresh == f);
        lemma_wf_push_new(s, fresh);
        assert(s2.last() == f);
    } else {
        assert(index_of(s, id) == Some(s.len() - 1));
    }
    assert(k == s2.len() - 1);
    assert(s2[k] == f);
    assert(s2.last().id == id);
    assert(created_by(s2, now));
    assert(f1 == FrameModel {
        chunks: f.chunks.update(i as int, Some(data)),
        received: f.received + 1,
        bytes: f.bytes + data.len(),
        ..f
    });
    if m + 1 < order.len() {
        lemma_total_prefix(s2, s2.len() as int);
        assert(total_bytes(s2) <= total_bytes(b) || s2.len() == 1);
        lemma_total_remove(s2, k);
        assert(frame_wf(f1));
        lemma_wf_update(s2, k, f1);
        let next = s2.update(k, f1);
        assert(next.last() == f1);
        assert(created_by(next, now));
    } else {
        lemma_all_received(after);
        assert forall|j: int| 0 <= j < count implies #[trigger] after[j] == Some(parts[j]) by {
            assert(after[j] is Some);
        }
        lemma_full_chunks(after, parts);
        lemma_wf_remove(s2, k);
        let next = s2.remove(k);
        lemma_index_of(next, id);
        if index_of(next, id) is Some {
            let j = index_of(next, id).unwrap();
            assert(next[j] == s2[j]);
            assert(s2[j].id == s2[k].id);
        }
        lemma_drawn_created_by(s2, next, now);
    }
}

/// The pending frames and the results after pushing fragments
/// `order[0..m]` of `parts` as frame `id`, all at time `now`.
pub open spec fn deliver(
    frames: Seq<FrameModel>,
    id: u64,
    parts: Seq<Seq<u8>>,
    order: Seq<u32>,
    expected: usize,
    now: u64,
    m: int,
) -> (Seq<FrameModel>, Seq<Result<Option<Seq<u8>>, ReassemblyError>>)
    decreases m,
{
    if m <= 0 {
        (frames, Seq::empty())
    } else {
        let (prev, results) = deliver(frames, id, parts, order, expected, now, m - 1);
        let (next, r) = spec_push(prev, id, order[m - 1], parts.len() as u32, expected, parts[order[m - 1] as int], now);
        (next, results.push(r))
    }
}

proof fn lemma_deliver_prefix(
    frames: Seq<FrameModel>,
    id: u64,
    parts: Seq<Seq<u8>>,
    order: Seq<u32>,
    expected: usize,
    now: u64,
    m: int,
)
    requires
        complete_delivery(parts, order, expected),
        frames_wf(frames),
        created_by(frames, now),
        index_of(frames, id) is None,
        0 <= m <= order.len(),
    ensures
        ({
            let (state, results) = deliver(frames, id, parts, order, expected, now, m);
            &&& results.len() == m
            &&& frames_wf(state)
            &&& created_by(state, now)
            &&& forall|j: int| 0 <= j < m && j + 1 < order.len() ==> #[trigger] results[j] == Ok::<Option<Seq<u8>>, ReassemblyError>(None)
            &&& m == 0 ==> index_of(state, id) is None
            &&& 0 < m < order.len() ==> state.len() >= 1 && state.last() == partial_frame(id, now, parts, order, m, expected)
            &&& m == order.len() ==> results[m - 1] == Ok::<Option<Seq<u8>>, ReassemblyError>(Some(parts.flatten())) && index_of(state, id) is None
        }),
    decreases m,
{
    if m > 0 {
        lemma_deliver_prefix(frames, id, parts, order, expected, now, m - 1);
        let (prev, results) = deliver(frames, id, parts, order, expected, now, m - 1);
        lemma_next_fragment(prev, id, parts, order, expected, now, m - 1);
        let (next, r) = spec_push(prev, id, order[m - 1], parts.len() as u32, expected, parts[order[m - 1] as int], now);
        assert(deliver(frames, id, parts, order, expected, now, m) == (next, results.push(r)));
        assert forall|j: int| 0 <= j < m && j + 1 < order.len() implies #[trigger] results.push(r)[j] == Ok::<Option<Seq<u8>>, ReassemblyError>(None) by {
            if j < m - 1 {
                assert(results.push(r)[j] == results[j]);
            }
        }
    }
}

/// Fragments reassemble in any arrival order: when every fragment of a frame
/// that is not yet pending arrives exactly once, at one time `now` no earlier
/// than any pending frame's creation, each push but the last answers
/// `Ok(None)` and the last answers the fragments joined in index order; no
/// trace of the frame stays behind, and the invariant holds throughout.
pub proof fn lemma_reassembles_in_any_order(
    frames: Seq<FrameModel>,
    id: u64,
    parts: Seq<Seq<u8>>,
    order: Seq<u32>,
    expected: usize,
    now: u64,
)
    requires
        complete_delivery(parts, order, expected),
        frames_wf(frames),
        created_by(frames, now),
        index_of(frames, id) is None,
    ensures
        ({
            let (state, results) = deliver(frames, id, parts, order, expected, now, order.len() as int);
            &&& results.len() == order.len()
            &&& forall|j: int| 0 <= j < order.len() - 1 ==> #[trigger] results[j] == Ok::<Option<Seq<u8>>, ReassemblyError>(None)
            &&& results.last() == Ok::<Option<Seq<u8>>, ReassemblyError>(Some(parts.flatten()))
            &&& frames_wf(state)
            &&& index_of(state, id) is None
        }),
{
    lemma_deliver_prefix(frames, id, parts, order, expected, now, order.len() as int);
}

/// A seventh frame id pushes out the pending frame created earliest: when
/// six frames are pending and none has this id, exactly one of them goes,
/// created no later than any other, and the rest keep their order.
pub proof fn lemma_seventh_frame_evicts_oldest(frames: Seq<FrameModel>, id: u64)
    requires
        frames.len() == MAX_INFLIGHT_FRAMES,
        index_of(frames, id) is None,
    ensures
        ({
            let k = oldest_index(frames);
            &&& 0 <= k < frames.len()
            &&& evict_for_slot(frames, id) == frames.remove(k)
            &&& forall|j: int| 0 <= j < frames.len() ==> frames[k].created <= #[trigger] frames[j].created
        }),
{
    lemma_oldest_in_range(frames, frames.len() as int);
}

proof fn lemma_missing_chunk(c: Seq<Option<Seq<u8>>>)
    requires
        count_received(c) < c.len(),
    ensures
        exists|i: int| 0 <= i < c.len() && #[trigger] c[i] is None,
    decreases c.len(),
{
    let d = c.drop_last();
    if c.last() is None {
        assert(c[c.len() - 1] is None);
    } else {
        lemma_missing_chunk(d);
        let i = choose|i: int| 0 <= i < d.len() && #[trigger] d[i] is None;
        assert(c[i] == d[i]);
    }
}

proof fn lemma_no_id_left(frames: Seq<FrameModel>, id: u64)
    requires
        forall|i: int| 0 <= i < frames.len() ==> #[trigger] frames[i].id != id,
    ensures
        index_of(frames, id) is None,
{
    lemma_index_of(frames, id);
}

/// What a push answers says where the frame stands: `Ok(None)` leaves it
/// pending with a fragment still missing; `Ok(Some(v))` hands back exactly
/// `expected` bytes and the frame is no longer pending, so a later fragment
/// with its id starts a new frame; and the pending frames stay within their
/// limits whatever the answer.
pub proof fn lemma_push_outcome(
    frames: Seq<FrameModel>,
    id: u64,
    index: u32,
    count: u32,
    expected: usize,
    data: Seq<u8>,
    now: u64,
)
    requires
        frames_wf(frames),
    ensures
        ({
            let (next, r) = spec_push(frames, id, index, count, expected, data, now);
            &&& r == Ok::<Option<Seq<u8>>, ReassemblyError>(None) ==> (index_of(next, id) matches Some(k)
                && exists|i: int| 0 <= i < next[k].chunks.len() && #[trigger] next[k].chunks[i] is None)
            &&& r matches Ok(Some(v)) ==> v.len() == expected && index_of(next, id) is None
            &&& next.len() <= MAX_INFLIGHT_FRAMES
            &&& total_bytes(next) <= MAX_FRAME_BYTES
        }),
{
    let (next, r) = spec_push(frames, id, index, count, expected, data, now);
    if expected > MAX_FRAME_BYTES || count == 0 || count > max_chunks() || index >= count {
        return;
    }
    lemma_expire_wf(frames, now);
    let e = spec_expire(frames, now);
    lemma_evict_for_budget(e, data.len());
    let b = evict_for_budget(e, data.len());
    let fs1 = evict_for_slot(b, id);
    if index_of(b, id) is None && b.len() >= MAX_INFLIGHT_FRAMES && b.len() > 0 {
        lemma_oldest_in_range(b, b.len() as int);
        lemma_wf_remove(b, oldest_index(b));
    }
    assert(frames_wf(fs1));
    lemma_index_of(fs1, id);
    let fs2 = if index_of(fs1, id) is Some { fs1 } else { fs1.push(new_frame(id, now, count as nat, expected as nat)) };
    let k = if index_of(fs1, id) is Some { index_of(fs1, id).unwrap() } else { fs1.len() as int };
    if index_of(fs1, id) is None {
        lemma_index_of(b, id);
        assert(fs1.len() < MAX_INFLIGHT_FRAMES);
        lemma_chunks_empty(count as nat);
        lemma_wf_push_new(fs1, new_frame(id, now, count as nat, expected as nat));
    }
    assert(frames_wf(fs2));
    assert(fs2[k].id == id);
    assert forall|i: int| 0 <= i < fs2.remove(k).len() implies #[trigger] fs2.remove(k)[i].id != id by {
        if i < k {
            assert(fs2.remove(k)[i] == fs2[i]);
        } else {
            assert(fs2.remove(k)[i] == fs2[i + 1]);
        }
    }
    lemma_no_id_left(fs2.remove(k), id);
    lemma_wf_remove(fs2, k);
    let f = fs2[k];
    if f.chunks.len() != count || f.expected != expected {
    } else if f.chunks[index as int] is None && (f.bytes + data.len() > f.expected || data.len() > UDP_PAYLOAD) {
    } else {
        let f1 = if f.chunks[index as int] is None {
            FrameModel {
                chunks: f.chunks.update(index as int, Some(data)),
                received: f.received + 1,
                bytes: f.bytes + data.len(),
                ..f
            }
        } else {
            f
        };
        if f.chunks[index as int] is None {
            lemma_chunks_fill(f.chunks, index as int, data);
        }
        assert(f1.received == count_received(f1.chunks));
        if f1.received != f1.chunks.len() {
            lemma_count_at_most_len(f1.chunks);
            lemma_missing_chunk(f1.chunks);
            let u = fs2.update(k, f1);
            assert forall|a: int| 0 <= a < u.len() && a != k implies #[trigger] u[a].id != id by {
                assert(u[a] == fs2[a]);
            }
            lemma_index_of(u, id);
            assert(u[k].id == id);
            assert(index_of(u, id) == Some(k));
            assert(total_bytes(fs1) <= total_bytes(b));
            assert(total_bytes(fs2) == total_bytes(fs1));
            assert(frame_wf(f));
            assert forall|i: int| 0 <= i < f1.chunks.len() && #[trigger] f1.chunks[i] is Some implies f1.chunks[i].unwrap().len() <= UDP_PAYLOAD by {
                if i != index {
                    assert(f1.chunks[i] == f.chunks[i]);
                }
            }
            assert(frame_wf(f1));
            lemma_wf_update(fs2, k, f1);
        }
    }
}

} // verus!
