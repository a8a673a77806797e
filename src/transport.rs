use vstd::prelude::*;

verus! {

/// Incremental framer that cuts SML frames out of an arbitrarily chunked byte
/// stream.
///
/// A frame starts with `1B 1B 1B 1B 01 01 01 01` and ends with
/// `1B 1B 1B 1B 1A` followed by one padding byte and two CRC bytes.
#[derive(PartialEq, Eq, Debug)]
pub enum SMLMessageBuilder {
    /// Not inside a frame.
    Empty,
    /// The last `n` bytes of the stream are the first `n` bytes of the start sequence.
    IncompleteStartSignature(usize),
    /// The start sequence was seen; holds the payload bytes read since.
    Recording(Vec<u8>),
    /// A full frame was read.
    Complete {
        /// the body of the message, omitting crc and header/footer
        data: Vec<u8>,
        /// the unprocessed rest of the byte stream
        rest: Vec<u8>,
    },
}

/// Mathematical form of an [`SMLMessageBuilder`].
pub enum BuilderModel {
    Empty,
    Incomplete(int),
    Recording(Seq<u8>),
    Complete { data: Seq<u8>, rest: Seq<u8> },
}

impl View for SMLMessageBuilder {
    type V = BuilderModel;

    open spec fn view(&self) -> BuilderModel {
        match self {
            SMLMessageBuilder::Empty => BuilderModel::Empty,
            SMLMessageBuilder::IncompleteStartSignature(n) => BuilderModel::Incomplete(*n as int),
            SMLMessageBuilder::Recording(v) => BuilderModel::Recording(v@),
            SMLMessageBuilder::Complete { data, rest } => BuilderModel::Complete {
                data: data@,
                rest: rest@,
            },
        }
    }
}

/// The sequence that opens a frame.
pub open spec fn start_seq() -> Seq<u8> {
    seq![0x1bu8, 0x1bu8, 0x1bu8, 0x1bu8, 0x01u8, 0x01u8, 0x01u8, 0x01u8]
}

/// The sequence that closes a frame, before its padding byte and CRC.
pub open spec fn end_prefix() -> Seq<u8> {
    seq![0x1bu8, 0x1bu8, 0x1bu8, 0x1bu8, 0x1au8]
}

/// An end sequence starts at `i` in `buf` and is followed by its three trailer bytes.
pub open spec fn end_at(buf: Seq<u8>, i: int) -> bool {
    0 <= i && i + 8 <= buf.len() && buf.subrange(i, i + 5) == end_prefix()
}

/// `buf` holds no end sequence with its trailer.
pub open spec fn no_end(buf: Seq<u8>) -> bool {
    forall|i: int| !#[trigger] end_at(buf, i)
}

/// Matched start bytes after one more byte `b`, when the stream so far ended in
/// the first `n` bytes of the start sequence: the length of the longest suffix
/// of the stream that is a prefix of the start sequence.
pub open spec fn start_step(n: int, b: u8) -> int {
    if b == start_seq()[n] {
        n + 1
    } else if b == 0x1b {
        if n == 4 {
            4
        } else {
            1
        }
    } else {
        0
    }
}

/// The builder state for `k` matched start bytes.
pub open spec fn scan_state(k: int) -> BuilderModel {
    if k == 8 {
        BuilderModel::Recording(Seq::empty())
    } else if k == 0 {
        BuilderModel::Empty
    } else {
        BuilderModel::Incomplete(k)
    }
}

/// The builder state after one more byte.
pub open spec fn byte_step(st: BuilderModel, b: u8) -> BuilderModel {
    match st {
        BuilderModel::Empty => scan_state(start_step(0, b)),
        BuilderModel::Incomplete(n) => scan_state(start_step(n, b)),
        BuilderModel::Recording(buf) => {
            let nb = buf.push(b);
            if end_at(nb, nb.len() - 8) {
                BuilderModel::Complete { data: nb.take(nb.len() - 8), rest: Seq::empty() }
            } else {
                BuilderModel::Recording(nb)
            }
        },
        BuilderModel::Complete { .. } => st,
    }
}

/// The builder state after `record(c)`: bytes are taken one at a time until a
/// frame is complete; the bytes after it become the frame's `rest`. A complete
/// builder takes no more bytes.
pub open spec fn record_spec(st: BuilderModel, c: Seq<u8>) -> BuilderModel
    decreases c.len(),
{
    if c.len() == 0 {
        st
    } else {
        match st {
            BuilderModel::Complete { .. } => st,
            _ => match byte_step(st, c[0]) {
                BuilderModel::Complete { data, .. } => BuilderModel::Complete {
                    data,
                    rest: c.skip(1),
                },
                s1 => record_spec(s1, c.skip(1)),
            },
        }
    }
}

/// The frames that a stream `c` yields from state `st`, when the builder is
/// reset to `Empty` after each complete frame and its rest fed back in, with
/// the state in which it is left.
pub open spec fn frames(st: BuilderModel, c: Seq<u8>) -> (Seq<Seq<u8>>, BuilderModel)
    decreases c.len(),
{
    if c.len() == 0 {
        (Seq::empty(), st)
    } else {
        match byte_step(st, c[0]) {
            BuilderModel::Complete { data, .. } => {
                let (f, s) = frames(BuilderModel::Empty, c.skip(1));
                (seq![data] + f, s)
            },
            s1 => frames(s1, c.skip(1)),
        }
    }
}

impl BuilderModel {
    /// A state that the builder can reach: a partial start match has one to
    /// seven bytes, and a recording holds no finished end sequence.
    pub open spec fn wf(self) -> bool {
        match self {
            BuilderModel::Incomplete(n) => 1 <= n <= 7,
            BuilderModel::Recording(buf) => no_end(buf),
            _ => true,
        }
    }

    pub open spec fn is_complete(self) -> bool {
        self is Complete
    }
}

fn start_byte(i: usize) -> (r: u8)
    requires
        i < 8,
    ensures
        r == start_seq()[i as int],
{
    if i < 4 {
        0x1b
    } else {
        0x01
    }
}

fn start_step_exec(n: usize, b: u8) -> (r: usize)
    requires
        n < 8,
    ensures
        r == start_step(n as int, b),
        r <= 8,
{
    if b == start_byte(n) {
        n + 1
    } else if b == 0x1b {
        if n == 4 {
            4
        } else {
            1
        }
    } else {
        0
    }
}

fn scan_state_exec(k: usize) -> (r: SMLMessageBuilder)
    requires
        k <= 8,
    ensures
        r@ == scan_state(k as int),
{
    if k == 8 {
        SMLMessageBuilder::Recording(Vec::new())
    } else if k == 0 {
        SMLMessageBuilder::Empty
    } else {
        SMLMessageBuilder::IncompleteStartSignature(k)
    }
}

fn ends_with_end(v: &Vec<u8>) -> (r: bool)
    ensures
        r == end_at(v@, v@.len() - 8),
{
    let n = v.len();
    if n < 8 {
        return false;
    }
    let k = n - 8;
    let r = v[k] == 0x1b && v[k + 1] == 0x1b && v[k + 2] == 0x1b && v[k + 3] == 0x1b && v[k + 4]
        == 0x1a;
    proof {
        if r {
            assert(v@.subrange(k as int, k + 5) =~= end_prefix());
        } else {
            if v@.subrange(k as int, k + 5) == end_prefix() {
                assert(v@.subrange(k as int, k + 5)[0] == v@[k as int]);
                assert(v@.subrange(k as int, k + 5)[1] == v@[k + 1]);
                assert(v@.subrange(k as int, k + 5)[2] == v@[k + 2]);
                assert(v@.subrange(k as int, k + 5)[3] == v@[k + 3]);
                assert(v@.subrange(k as int, k + 5)[4] == v@[k + 4]);
            }
        }
    }
    r
}

/// The bytes of `buf` from `start` up to `end`.
pub(crate) fn copy_range(buf: &[u8], start: usize, end: usize) -> (r: Vec<u8>)
    requires
        start <= end <= buf@.len(),
    ensures
        r@ == buf@.subrange(start as int, end as int),
{
    let mut r: Vec<u8> = Vec::new();
    let mut i: usize = start;
    while i < end
        invariant
            start <= i <= end <= buf@.len(),
            r@ == buf@.subrange(start as int, i as int),
        decreases end - i,
    {
        r.push(buf[i]);
        i = i + 1;
        proof {
            assert(r@ =~= buf@.subrange(start as int, i as int));
        }
    }
    r
}

proof fn lemma_step_keeps_wf(st: BuilderModel, b: u8)
    requires
        st.wf(),
        !st.is_complete(),
    ensures
        byte_step(st, b).wf(),
{
    if let BuilderModel::Recording(buf) = st {
        let nb = buf.push(b);
        if !end_at(nb, nb.len() - 8) {
            assert forall|i: int| !#[trigger] end_at(nb, i) by {
                if end_at(nb, i) && i != nb.len() - 8 {
                    assert(nb.subrange(i, i + 5) =~= buf.subrange(i, i + 5));
                    assert(end_at(buf, i));
                }
            }
        }
    }
}

impl SMLMessageBuilder {
    /// Feeds the next chunk of the byte stream to the builder.
    ///
    /// Outside a frame, the chunk is searched for the start sequence, also
    /// where it began in earlier chunks; once it is found, the bytes after it
    /// are recorded. While recording, bytes are appended until the first end
    /// sequence with its three trailer bytes; the payload before it becomes
    /// `data`, the bytes after the trailer `rest`. A complete builder ignores
    /// further input; an empty chunk changes nothing.
    pub fn record(&mut self, buf: &[u8])
        requires
            old(self)@.wf(),
        ensures
            final(self)@ == record_spec(old(self)@, buf@),
            final(self)@.wf(),
    {
        let mut st = SMLMessageBuilder::Empty;
        std::mem::swap(self, &mut st);
        if let SMLMessageBuilder::Complete { .. } = st {
            *self = st;
            return;
        }
        let ghost st0 = st@;
        let mut i: usize = 0;
        proof {
            assert(buf@.skip(0) =~= buf@);
        }
        while i < buf.len()
            invariant
                0 <= i <= buf@.len(),
                st@.wf(),
                !st@.is_complete(),
                st0 == old(self)@,
                record_spec(st0, buf@) == record_spec(st@, buf@.skip(i as int)),
            decreases buf@.len() - i,
        {
            let b = buf[i];
            proof {
                let c = buf@.skip(i as int);
                assert(c[0] == b);
                assert(c.skip(1) =~= buf@.skip(i + 1));
                lemma_step_keeps_wf(st@, b);
            }
            let ghost cur = st@;
            let next = match st {
                SMLMessageBuilder::Empty => scan_state_exec(start_step_exec(0, b)),
                SMLMessageBuilder::IncompleteStartSignature(n) => scan_state_exec(
                    start_step_exec(n, b),
                ),
                SMLMessageBuilder::Recording(mut v) => {
                    let ghost old_v = v@;
                    v.push(b);
                    if ends_with_end(&v) {
                        let n = v.len() - 8;
                        let ghost nb = v@;
                        v.truncate(n);
                        let rest = copy_range(buf, i + 1, buf.len());
                        proof {
                            assert(v@ =~= nb.take(nb.len() - 8));
                            assert(rest@ =~= buf@.skip(i + 1));
                            let c = buf@.skip(i as int);
                            assert(cur == BuilderModel::Recording(old_v));
                            assert(nb == old_v.push(b));
                            assert(byte_step(cur, c[0]) == (BuilderModel::Complete {
                                data: v@,
                                rest: Seq::empty(),
                            }));
                            assert(record_spec(cur, c) == (BuilderModel::Complete {
                                data: v@,
                                rest: rest@,
                            }));
                        }
                        *self = SMLMessageBuilder::Complete { data: v, rest };
                        return;
                    }
                    SMLMessageBuilder::Recording(v)
                },
                SMLMessageBuilder::Complete { data, rest } => SMLMessageBuilder::Complete {
                    data,
                    rest,
                },
            };
            st = next;
            i = i + 1;
        }
        proof {
            assert(buf@.skip(i as int).len() == 0);
        }
        *self = st;
    }
}

/// The frames and final state when the chunks are fed one after the other.
pub open spec fn feed_all(st: BuilderModel, chunks: Seq<Seq<u8>>) -> (Seq<Seq<u8>>, BuilderModel)
    decreases chunks.len(),
{
    if chunks.len() == 0 {
        (Seq::empty(), st)
    } else {
        let (f1, s1) = frames(st, chunks[0]);
        let (f2, s2) = feed_all(s1, chunks.drop_first());
        (f1 + f2, s2)
    }
}

/// Feeding `a` and then `b` yields the frames of `a` followed by those of `b`.
pub proof fn lemma_frames_concat(st: BuilderModel, a: Seq<u8>, b: Seq<u8>)
    ensures
        frames(st, a + b) == (
            frames(st, a).0 + frames(frames(st, a).1, b).0,
            frames(frames(st, a).1, b).1,
        ),
    decreases a.len(),
{
    if a.len() == 0 {
        assert(a + b =~= b);
        assert(frames(st, a).0 + frames(st, b).0 =~= frames(st, b).0);
    } else {
        assert((a + b)[0] == a[0]);
        assert((a + b).skip(1) =~= a.skip(1) + b);
        match byte_step(st, a[0]) {
            BuilderModel::Complete { data, .. } => {
                lemma_frames_concat(BuilderModel::Empty, a.skip(1), b);
                let fa = frames(BuilderModel::Empty, a.skip(1));
                let fb = frames(fa.1, b);
                assert(seq![data] + (fa.0 + fb.0) =~= (seq![data] + fa.0) + fb.0);
            },
            s1 => {
                lemma_frames_concat(s1, a.skip(1), b);
            },
        }
    }
}

/// Any cut of the stream into chunks yields the same frames, and leaves the
/// builder in the same state, as the whole stream in one chunk.
pub proof fn lemma_chunking_invariant(st: BuilderModel, chunks: Seq<Seq<u8>>)
    ensures
        feed_all(st, chunks) == frames(st, chunks.flatten()),
    decreases chunks.len(),
{
    if chunks.len() > 0 {
        let (f1, s1) = frames(st, chunks[0]);
        lemma_chunking_invariant(s1, chunks.drop_first());
        lemma_frames_concat(st, chunks[0], chunks.drop_first().flatten());
        assert(chunks.flatten() == chunks[0] + chunks.drop_first().flatten());
    } else {
        assert(chunks.flatten() =~= Seq::<u8>::empty());
    }
}

proof fn lemma_noise_frames(noise: Seq<u8>)
    requires
        forall|i: int| 0 <= i < noise.len() ==> noise[i] != 0x1b,
    ensures
        frames(BuilderModel::Empty, noise) == (Seq::<Seq<u8>>::empty(), BuilderModel::Empty),
    decreases noise.len(),
{
    if noise.len() > 0 {
        assert(noise[0] != start_seq()[0]);
        assert(byte_step(BuilderModel::Empty, noise[0]) == BuilderModel::Empty);
        lemma_noise_frames(noise.skip(1));
    }
}

/// Bytes other than the escape byte `1B` between the end of one frame and
/// the start of the next change none of the frames.
pub proof fn lemma_noise_between_frames(a: Seq<u8>, noise: Seq<u8>, b: Seq<u8>)
    requires
        frames(BuilderModel::Empty, a).1 == BuilderModel::Empty,
        forall|i: int| 0 <= i < noise.len() ==> noise[i] != 0x1b,
    ensures
        frames(BuilderModel::Empty, a + noise + b) == frames(BuilderModel::Empty, a + b),
{
    lemma_noise_frames(noise);
    lemma_frames_concat(BuilderModel::Empty, a, noise + b);
    lemma_frames_concat(BuilderModel::Empty, noise, b);
    lemma_frames_concat(BuilderModel::Empty, a, b);
    assert(a + noise + b =~= a + (noise + b));
    assert(Seq::<Seq<u8>>::empty() + frames(BuilderModel::Empty, b).0 =~= frames(
        BuilderModel::Empty,
        b,
    ).0);
}

/// One `record` call either leaves the builder incomplete, and then the stream
/// so far has yielded no frame, or completes it, and then the frame is the
/// first one and the rest is what follows it.
pub proof fn lemma_record_frames(st: BuilderModel, c: Seq<u8>)
    requires
        st.wf(),
        !st.is_complete(),
    ensures
        match record_spec(st, c) {
            BuilderModel::Complete { data, rest } => rest.len() < c.len() && frames(st, c) == (
                seq![data] + frames(BuilderModel::Empty, rest).0,
                frames(BuilderModel::Empty, rest).1,
            ),
            other => frames(st, c) == (Seq::<Seq<u8>>::empty(), other),
        },
    decreases c.len(),
{
    if c.len() > 0 {
        lemma_step_keeps_wf(st, c[0]);
        match byte_step(st, c[0]) {
            BuilderModel::Complete { .. } => {},
            s1 => {
                lemma_record_frames(s1, c.skip(1));
            },
        }
    }
}

proof fn lemma_start_then(k: int, c: Seq<u8>)
    requires
        0 <= k <= 8,
    ensures
        frames(scan_state(k), start_seq().skip(k) + c) == frames(
            BuilderModel::Recording(Seq::empty()),
            c,
        ),
    decreases 8 - k,
{
    let t = start_seq().skip(k) + c;
    if k == 8 {
        assert(t =~= c);
    } else {
        assert(t[0] == start_seq()[k]);
        assert(t.skip(1) =~= start_seq().skip(k + 1) + c);
        assert(byte_step(scan_state(k), t[0]) == scan_state(k + 1));
        lemma_start_then(k + 1, c);
    }
}

proof fn lemma_recording_until_end(buf: Seq<u8>, c: Seq<u8>)
    requires
        c.len() >= 1,
        forall|j: int| 1 <= j < c.len() ==> !end_at(buf + c.take(j), buf.len() + j - 8),
        end_at(buf + c, buf.len() + c.len() - 8),
    ensures
        frames(BuilderModel::Recording(buf), c) == (
            seq![(buf + c).take(buf.len() + c.len() - 8)],
            BuilderModel::Empty,
        ),
    decreases c.len(),
{
    let nb = buf.push(c[0]);
    assert(nb =~= buf + c.take(1));
    if c.len() == 1 {
        assert(nb =~= buf + c);
        assert(c.skip(1).len() == 0);
        assert(frames(BuilderModel::Empty, c.skip(1)) == (
            Seq::<Seq<u8>>::empty(),
            BuilderModel::Empty,
        ));
        assert(byte_step(BuilderModel::Recording(buf), c[0]) == (BuilderModel::Complete {
            data: nb.take(nb.len() - 8),
            rest: Seq::empty(),
        }));
        assert(seq![(buf + c).take(buf.len() + c.len() - 8)] + Seq::<Seq<u8>>::empty() =~= seq![
            (buf + c).take(buf.len() + c.len() - 8),
        ]);
    } else {
        assert(!end_at(buf + c.take(1), buf.len() + 1 - 8));
        let c1 = c.skip(1);
        assert forall|j: int| 1 <= j < c1.len() implies !end_at(nb + c1.take(j), nb.len() + j - 8) by {
            assert(nb + c1.take(j) =~= buf + c.take(j + 1));
        }
        assert(nb + c1 =~= buf + c);
        assert(byte_step(BuilderModel::Recording(buf), c[0]) == BuilderModel::Recording(nb));
        lemma_recording_until_end(nb, c1);
    }
}

/// A frame written as the start sequence, a payload with no end sequence of
/// its own, the end sequence and three trailer bytes yields exactly that
/// payload as its one frame, and leaves the builder empty.
pub proof fn lemma_single_frame(payload: Seq<u8>, trailer: Seq<u8>)
    requires
        trailer.len() == 3,
        forall|i: int| 0 <= i < payload.len() ==> !end_at(payload + end_prefix() + trailer, i),
    ensures
        frames(BuilderModel::Empty, start_seq() + payload + end_prefix() + trailer) == (
            seq![payload],
            BuilderModel::Empty,
        ),
{
    let c = payload + end_prefix() + trailer;
    assert(start_seq() + payload + end_prefix() + trailer =~= start_seq().skip(0) + c);
    lemma_start_then(0, c);
    assert forall|j: int| 1 <= j < c.len() implies !end_at(Seq::<u8>::empty() + c.take(j), j - 8) by {
        assert(Seq::<u8>::empty() + c.take(j) =~= c.take(j));
        if j - 8 >= 0 && end_at(c.take(j), j - 8) {
            assert(c.take(j).subrange(j - 8, j - 3) =~= c.subrange(j - 8, j - 3));
            assert(end_at(c, j - 8));
        }
    }
    assert(c.subrange(payload.len() as int, payload.len() as int + 5) =~= end_prefix());
    assert(Seq::<u8>::empty() + c =~= c);
    assert(c.take(payload.len() as int) =~= payload);
    lemma_recording_until_end(Seq::empty(), c);
}

/// While recording, `record` appends the chunk and ends the frame at the
/// first end sequence in the whole buffer that has its three trailer bytes:
/// the payload is what precedes it, the rest what follows the trailer.
pub proof fn lemma_recording_first_end(buf: Seq<u8>, c: Seq<u8>)
    requires
        no_end(buf),
    ensures
        match record_spec(BuilderModel::Recording(buf), c) {
            BuilderModel::Complete { data, rest } => end_at(buf + c, data.len() as int) && (
            forall|k: int| 0 <= k < data.len() ==> !end_at(buf + c, k)) && data == (buf + c).take(
                data.len() as int,
            ) && rest == (buf + c).skip(data.len() as int + 8),
            BuilderModel::Recording(r) => r == buf + c && no_end(buf + c),
            _ => false,
        },
    decreases c.len(),
{
    if c.len() == 0 {
        assert(buf + c =~= buf);
    } else {
        let nb = buf.push(c[0]);
        let t = buf + c;
        lemma_step_keeps_wf(BuilderModel::Recording(buf), c[0]);
        if end_at(nb, nb.len() - 8) {
            let i = nb.len() - 8;
            assert(t.subrange(i, i + 5) =~= nb.subrange(i, i + 5));
            assert forall|k: int| 0 <= k < i implies !end_at(t, k) by {
                assert(t.subrange(k, k + 5) =~= buf.subrange(k, k + 5));
                assert(!end_at(buf, k));
            }
            assert(nb.take(i) =~= t.take(i));
            assert(c.skip(1) =~= t.skip(i + 8));
        } else {
            assert(nb + c.skip(1) =~= t);
            lemma_recording_first_end(nb, c.skip(1));
        }
    }
}

// ---------------------------------------------------------------------------
// Start-sequence matching
// ---------------------------------------------------------------------------

/// Matched start bytes after the bytes `c`, from `n` matched bytes; eight is
/// final.
spec fn scan(n: int, c: Seq<u8>) -> int
    decreases c.len(),
{
    if c.len() == 0 || n == 8 {
        n
    } else {
        scan(start_step(n, c[0]), c.skip(1))
    }
}

proof fn lemma_start_bytes()
    ensures
        start_seq().len() == 8,
        forall|i: int| 0 <= i < 8 ==> #[trigger] start_seq()[i] == (if i < 4 {
            0x1bu8
        } else {
            0x01u8
        }),
{
    assert(start_seq()[0] == 0x1b && start_seq()[1] == 0x1b && start_seq()[2] == 0x1b
        && start_seq()[3] == 0x1b);
    assert(start_seq()[4] == 0x01 && start_seq()[5] == 0x01 && start_seq()[6] == 0x01
        && start_seq()[7] == 0x01);
}

proof fn lemma_scan_push(n: int, c: Seq<u8>, b: u8)
    requires
        0 <= n <= 8,
    ensures
        0 <= scan(n, c) <= 8,
        scan(n, c.push(b)) == if scan(n, c) == 8 {
            8
        } else {
            start_step(scan(n, c), b)
        },
    decreases c.len(),
{
    lemma_start_bytes();
    if c.len() as int > 0 && n != 8 {
        assert(c.push(b)[0] == c[0]);
        assert(c.push(b).skip(1) =~= c.skip(1).push(b));
        lemma_scan_push(start_step(n, c[0]), c.skip(1), b);
        assert(scan(n, c.push(b)) == scan(start_step(n, c[0]), c.skip(1).push(b)));
        assert(scan(n, c) == scan(start_step(n, c[0]), c.skip(1)));
    } else if c.len() as int == 0 {
        assert(c.push(b)[0] == b);
        assert(c.push(b).skip(1).len() == 0);
        assert(scan(n, c) == n);
        if n != 8 {
            assert(scan(n, c.push(b)) == scan(start_step(n, b), c.push(b).skip(1)));
        }
    } else {
        assert(scan(n, c) == 8);
        assert(scan(n, c.push(b)) == 8);
    }
}

proof fn lemma_recording_stays(buf: Seq<u8>, c: Seq<u8>)
    ensures
        record_spec(BuilderModel::Recording(buf), c) is Recording || record_spec(
            BuilderModel::Recording(buf),
            c,
        ) is Complete,
    decreases c.len(),
{
    if c.len() as int > 0 {
        match byte_step(BuilderModel::Recording(buf), c[0]) {
            BuilderModel::Recording(nb) => lemma_recording_stays(nb, c.skip(1)),
            _ => {},
        }
    }
}

/// While no start sequence completes, `record` follows the matched count.
proof fn lemma_record_scan(n: int, c: Seq<u8>)
    requires
        0 <= n <= 7,
    ensures
        (record_spec(scan_state(n), c) is Empty || record_spec(scan_state(n), c) is Incomplete)
            ==> scan(n, c) < 8,
        (c.len() == 0 || scan(n, c.drop_last()) < 8) ==> record_spec(scan_state(n), c)
            == scan_state(scan(n, c)),
    decreases c.len(),
{
    if c.len() as int > 0 {
        let n1 = start_step(n, c[0]);
        assert(byte_step(scan_state(n), c[0]) == scan_state(n1));
        if n1 == 8 {
            lemma_recording_stays(Seq::empty(), c.skip(1));
            if c.len() as int > 1 {
                assert(c.drop_last()[0] == c[0]);
                assert(c.drop_last().skip(1) =~= c.skip(1).drop_last());
                assert(scan(n1, c.skip(1).drop_last()) == 8);
            } else {
                assert(c.skip(1).len() == 0);
            }
        } else {
            lemma_record_scan(n1, c.skip(1));
            if c.len() as int > 1 {
                assert(c.drop_last()[0] == c[0]);
                assert(c.drop_last().skip(1) =~= c.skip(1).drop_last());
            } else {
                assert(c.skip(1).len() == 0);
            }
        }
    }
}

/// The stream ends with the first `m` bytes of the start sequence.
pub open spec fn ends_with_start(t: Seq<u8>, m: int) -> bool {
    0 <= m <= t.len() && m <= 8 && t.subrange(t.len() - m, t.len() as int) == start_seq().take(m)
}

/// Two partial start matches at the end of one stream, the shorter non-empty:
/// the start sequence has no border past its run of escape bytes.
proof fn lemma_start_border(t: Seq<u8>, k: int, m: int)
    requires
        1 <= k < m <= 7,
        ends_with_start(t, k),
        ends_with_start(t, m),
    ensures
        m <= 4,
{
    let l = t.len() as int;
    if m >= 5 {
        assert(t.subrange(l - m, l)[m - 1] == t[l - 1]);
        assert(t.subrange(l - k, l)[k - 1] == t[l - 1]);
        assert(start_seq().take(m)[m - 1] == 0x01);
        assert(k >= 5);
        assert(t.subrange(l - k, l)[3] == t[l - k + 3]);
        assert(t.subrange(l - m, l)[m - k + 3] == t[l - k + 3]);
    }
}

proof fn lemma_scan_sound(n: int, c: Seq<u8>)
    requires
        0 <= n <= 7,
        scan(n, c) < 8 || c.len() == 0 || scan(n, c.drop_last()) < 8,
    ensures
        ends_with_start(start_seq().take(n) + c, scan(n, c)),
    decreases c.len(),
{
    let t = start_seq().take(n) + c;
    if c.len() as int == 0 {
        assert(t.subrange(0, n) =~= start_seq().take(n));
        assert(t =~= start_seq().take(n));
    } else {
        let c0 = c.drop_last();
        let b = c.last();
        assert(c0.push(b) =~= c);
        lemma_scan_push(n, c0, b);
        lemma_scan_sound(n, c0);
        let m0 = scan(n, c0);
        let m = scan(n, c);
        let t0 = start_seq().take(n) + c0;
        assert(t =~= t0.push(b));
        let l = t.len() as int;
        if m > 0 {
            assert forall|i: int| 0 <= i < m implies #[trigger] t.subrange(l - m, l)[i] == start_seq().take(
                m,
            )[i] by {
                if i < m - 1 {
                    if b == start_seq()[m0] {
                        assert(t0.subrange(t0.len() as int - m0, t0.len() as int)[i] == t0[t0.len() as int - m0 + i]);
                    } else {
                        assert(t0.subrange(t0.len() as int - m0, t0.len() as int)[m0 - m + 1 + i] == t0[t0.len() as int
                            - m0 + (m0 - m + 1 + i)]);
                    }
                }
            }
            assert(t.subrange(l - m, l) =~= start_seq().take(m));
        } else {
            assert(t.subrange(l, l) =~= start_seq().take(0));
        }
    }
}

proof fn lemma_scan_complete(n: int, c: Seq<u8>, k: int)
    requires
        0 <= n <= 7,
        0 <= k <= 8,
        ends_with_start(start_seq().take(n) + c, k),
        scan(n, c) < 8,
    ensures
        scan(n, c) >= k,
    decreases c.len(),
{
    lemma_start_bytes();
    lemma_scan_push(n, c, 0);
    let t = start_seq().take(n) + c;
    if c.len() == 0 {
        assert(t.len() == n);
    } else if k > 0 {
        let c0 = c.drop_last();
        let b = c.last();
        assert(c0.push(b) =~= c);
        lemma_scan_push(n, c0, b);
        let m0 = scan(n, c0);
        let t0 = start_seq().take(n) + c0;
        assert(t =~= t0.push(b));
        let lt = t.len() as int;
        assert(t.subrange(lt - k, lt)[k - 1] == b);
        assert(t0.subrange(lt - k, lt - 1) =~= t.subrange(lt - k, lt).take(k - 1));
        assert(start_seq().take(k).take(k - 1) =~= start_seq().take(k - 1));
        lemma_scan_complete(n, c0, k - 1);
        lemma_scan_sound(n, c0);
        if m0 > k - 1 && k - 1 >= 1 {
            lemma_start_border(t0, k - 1, m0);
        }
        assert(start_seq().take(k)[k - 1] == start_seq()[k - 1]);
        assert(b == start_seq()[k - 1]);
        assert(m0 < 8);
        assert(scan(n, c) == start_step(m0, b));
        if m0 == k - 1 {
            assert(start_step(m0, b) == k);
        } else if k - 1 == 0 {
            assert(b == 0x1b);
            assert(start_step(m0, b) >= 1);
        } else {
            assert(m0 <= 4);
            assert(b == 0x1b);
            assert(start_step(m0, b) >= k);
        }
    }
}

/// The count after the rest of the start sequence, bytes `k..j`, fed after a
/// count of `m` that covers the first `k` of them.
spec fn completion_count(m: int, k: int, j: int) -> int {
    if j <= 4 {
        if m + j - k < 4 {
            m + j - k
        } else {
            4
        }
    } else {
        j
    }
}

proof fn lemma_scan_completion(n: int, c: Seq<u8>, k: int, j: int)
    requires
        0 <= n <= 7,
        1 <= k <= j <= 8,
        k <= 7,
        scan(n, c) < 8,
        scan(n, c) == k || (k < scan(n, c) <= 4),
    ensures
        scan(n, c + start_seq().subrange(k, j)) == completion_count(scan(n, c), k, j),
    decreases j - k,
{
    if j == k {
        assert(c + start_seq().subrange(k, j) =~= c);
    } else {
        lemma_scan_completion(n, c, k, j - 1);
        let c0 = c + start_seq().subrange(k, j - 1);
        assert(c + start_seq().subrange(k, j) =~= c0.push(start_seq()[j - 1]));
        lemma_scan_push(n, c0, start_seq()[j - 1]);
    }
}

/// When a chunk leaves the builder outside a frame and ends with the first `k`
/// bytes of the start sequence, feeding the rest of the start sequence keeps
/// it waiting for the start until the eighth start byte arrives, and with the
/// eighth it starts recording an empty payload. `n` is the count of matched
/// start bytes before the chunk (zero for `Empty`).
pub proof fn lemma_start_completes_on_eighth_byte(n: int, c: Seq<u8>, k: int)
    requires
        0 <= n <= 7,
        1 <= k <= 7,
        k <= c.len(),
        c.subrange(c.len() - k, c.len() as int) == start_seq().take(k),
        record_spec(scan_state(n), c) is Empty || record_spec(scan_state(n), c) is Incomplete,
    ensures
        forall|j: int|
            k <= j < 8 ==> #[trigger] record_spec(scan_state(n), c + start_seq().subrange(k, j))
                is Incomplete,
        record_spec(scan_state(n), c + start_seq().subrange(k, 8)) == BuilderModel::Recording(
            Seq::empty(),
        ),
{
    lemma_start_bytes();
    lemma_record_scan(n, c);
    let t = start_seq().take(n) + c;
    let lt = t.len() as int;
    let lc = c.len() as int;
    assert(t.subrange(lt - k, lt) =~= c.subrange(lc - k, lc));
    lemma_scan_complete(n, c, k);
    let m = scan(n, c);
    if m > k {
        lemma_scan_sound(n, c);
        lemma_start_border(t, k, m);
    }
    assert forall|j: int| k <= j <= 8 implies record_spec(
        scan_state(n),
        c + start_seq().subrange(k, j),
    ) == scan_state(completion_count(m, k, j)) by {
        lemma_scan_completion(n, c, k, j);
        let cj = c + start_seq().subrange(k, j);
        if j == k {
            assert(cj =~= c);
            let c0 = c.drop_last();
            assert(c0.push(c.last()) =~= c);
            lemma_scan_push(n, c0, c.last());
        } else {
            lemma_scan_completion(n, c, k, j - 1);
            assert(cj.drop_last() =~= c + start_seq().subrange(k, j - 1));
        }
        lemma_record_scan(n, cj);
    }
    assert forall|j: int| k <= j < 8 implies #[trigger] record_spec(
        scan_state(n),
        c + start_seq().subrange(k, j),
    ) is Incomplete by {
        assert(1 <= completion_count(m, k, j) <= 7);
    }
    assert(completion_count(m, k, 8) == 8);
}

/// Outside a frame, the builder's count of matched start bytes is the longest
/// tail of the stream that begins the start sequence; the stream before the
/// chunk ended in the first `n` of them (zero for `Empty`).
pub proof fn lemma_partial_start_is_longest(n: int, c: Seq<u8>)
    requires
        0 <= n <= 7,
        record_spec(scan_state(n), c) is Empty || record_spec(scan_state(n), c) is Incomplete,
    ensures
        ({
            let m = match record_spec(scan_state(n), c) {
                BuilderModel::Incomplete(m) => m,
                _ => 0,
            };
            &&& ends_with_start(start_seq().take(n) + c, m)
            &&& forall|k: int| m < k <= 7 ==> !ends_with_start(start_seq().take(n) + c, k)
        }),
{
    lemma_record_scan(n, c);
    lemma_scan_sound(n, c);
    if c.len() > 0 {
        let c0 = c.drop_last();
        assert(c0.push(c.last()) =~= c);
        lemma_scan_push(n, c0, c.last());
    }
    assert(record_spec(scan_state(n), c) == scan_state(scan(n, c)));
    let t = start_seq().take(n) + c;
    assert forall|k: int| scan(n, c) < k <= 7 implies !ends_with_start(t, k) by {
        if ends_with_start(t, k) {
            lemma_scan_complete(n, c, k);
        }
    }
}

proof fn lemma_record_concat(st: BuilderModel, a: Seq<u8>, b: Seq<u8>)
    requires
        !record_spec(st, a).is_complete(),
    ensures
        record_spec(st, a + b) == record_spec(record_spec(st, a), b),
    decreases a.len(),
{
    if a.len() == 0 {
        assert(a + b =~= b);
    } else {
        assert((a + b)[0] == a[0]);
        assert((a + b).skip(1) =~= a.skip(1) + b);
        match byte_step(st, a[0]) {
            BuilderModel::Complete { .. } => {},
            s1 => {
                if !st.is_complete() {
                    lemma_record_concat(s1, a.skip(1), b);
                }
            },
        }
    }
}

/// Outside a frame, the builder starts recording right after the first
/// complete start sequence of the stream, also one that began in earlier
/// chunks, and records the rest of the chunk; `n` is the count of start bytes
/// matched before the chunk and `j` the length of the chunk's part up to the
/// end of that start sequence.
pub proof fn lemma_first_start_found(n: int, c: Seq<u8>, j: int)
    requires
        0 <= n <= 7,
        0 < j <= c.len(),
        ends_with_start(start_seq().take(n) + c.take(j), 8),
        forall|i: int| 0 < i < j ==> !ends_with_start(start_seq().take(n) + c.take(i), 8),
    ensures
        record_spec(scan_state(n), c) == record_spec(
            BuilderModel::Recording(Seq::empty()),
            c.skip(j),
        ),
{
    assert forall|i: int| 0 <= i < j implies scan(n, c.take(i)) < 8 by {
        lemma_first_scan_below(n, c, i, j);
    }
    let a = c.take(j);
    assert(a.drop_last() =~= c.take(j - 1));
    lemma_scan_push(n, a, 0);
    if scan(n, a) < 8 {
        lemma_scan_complete(n, a, 8);
    }
    lemma_record_scan(n, a);
    assert(a + c.skip(j) =~= c);
    lemma_record_concat(scan_state(n), a, c.skip(j));
}

proof fn lemma_first_scan_below(n: int, c: Seq<u8>, i: int, j: int)
    requires
        0 <= n <= 7,
        0 <= i < j <= c.len(),
        forall|l: int| 0 < l < j ==> !ends_with_start(start_seq().take(n) + c.take(l), 8),
    ensures
        scan(n, c.take(i)) < 8,
    decreases i,
{
    if i > 0 {
        lemma_first_scan_below(n, c, i - 1, j);
        let a = c.take(i);
        assert(a.drop_last() =~= c.take(i - 1));
        lemma_scan_sound(n, a);
        lemma_scan_push(n, a, 0);
    }
}

} // verus!
