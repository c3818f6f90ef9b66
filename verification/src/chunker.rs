//! Chunk accumulator and stream driver logic: grows the current chunk from
//! incoming buffers, cuts it at the first line boundary at or past the size
//! threshold once the accumulated bytes reach it, and flushes the final
//! partial chunk at end of stream.

use vstd::prelude::*;

use crate::boundary::{
    admissible_cut, boundary_offset, cut_scan_result, find_cut_boundary, find_last_line_ending,
    is_earliest_cut, lemma_earliest_cut_from, scan_result, scan_warning, MAX_SCAN,
};
use crate::config::{Config, ConfigModel, TextEncoding};

verus! {

/// The concatenation of a sequence of byte chunks, in order.
pub open spec fn concat_all(cs: Seq<Seq<u8>>) -> Seq<u8>
    decreases cs.len(),
{
    if cs.len() == 0 {
        Seq::empty()
    } else {
        concat_all(cs.drop_last()) + cs.last()
    }
}

pub proof fn lemma_concat_all_push(cs: Seq<Seq<u8>>, c: Seq<u8>)
    ensures
        concat_all(cs.push(c)) == concat_all(cs) + c,
{
    assert(cs.push(c).drop_last() =~= cs);
    assert(cs.push(c).last() == c);
}

/// With every chunk non-empty, there are at least as many concatenated bytes
/// as chunks.
pub proof fn lemma_concat_all_count(cs: Seq<Seq<u8>>)
    requires
        forall|i: int| 0 <= i < cs.len() ==> cs[i].len() >= 1,
    ensures
        concat_all(cs).len() >= cs.len(),
    decreases cs.len(),
{
    if cs.len() > 0 {
        lemma_concat_all_count(cs.drop_last());
    }
}

/// Ghost model of the accumulator: its configuration, the bytes of the chunk
/// in progress, the chunks emitted so far, the next chunk index, and every
/// byte fed in so far.
pub struct ChunkerModel {
    pub chunk: Seq<u8>,
    pub next_index: int,
    pub threshold: int,
    pub line_ending: Seq<char>,
    pub encoding: int,
    pub emitted: Seq<Seq<u8>>,
    pub fed: Seq<u8>,
}

/// The state of a fresh accumulator for a run under configuration `c`.
pub open spec fn init_model(c: ConfigModel) -> ChunkerModel {
    ChunkerModel {
        chunk: Seq::empty(),
        next_index: 1,
        threshold: c.chunk_size,
        line_ending: c.line_ending,
        encoding: c.encoding,
        emitted: Seq::empty(),
        fed: Seq::empty(),
    }
}

/// What always holds of the accumulator: indices count the emitted chunks
/// from 1, no emitted chunk is empty, and the emitted chunks followed by the
/// chunk in progress are exactly the bytes fed in.
pub open spec fn model_inv(m: ChunkerModel) -> bool {
    &&& m.next_index == m.emitted.len() + 1
    &&& concat_all(m.emitted) + m.chunk == m.fed
    &&& m.line_ending.len() >= 1
    &&& forall|i: int| 0 <= i < m.emitted.len() ==> m.emitted[i].len() >= 1
}

/// A chunk that ends exactly at a line boundary: with the bytes that
/// followed it restored, the decoded text holds a line-ending occurrence
/// whose boundary byte offset is exactly the chunk's length.
pub open spec fn boundary_terminated(c: Seq<u8>, le: Seq<char>, enc: int) -> bool {
    exists|s: Seq<u8>, o: int|
        {
            &&& #[trigger] crate::boundary::is_occurrence_at(
                crate::boundary::decoded_text(c + s, enc),
                le,
                o,
            )
            &&& boundary_offset(c + s, le, enc, o) == c.len()
        }
}

/// Every emitted chunk ends at a located line boundary. Holds until the final
/// flush, which may emit a chunk with an unterminated trailing line.
pub open spec fn all_aligned(m: ChunkerModel) -> bool {
    forall|i: int|
        0 <= i < m.emitted.len() ==> boundary_terminated(
            #[trigger] m.emitted[i],
            m.line_ending,
            m.encoding,
        )
}

/// Every emitted chunk except possibly the last ends at a located line
/// boundary.
pub open spec fn aligned_except_last(m: ChunkerModel) -> bool {
    forall|i: int|
        0 <= i < m.emitted.len() - 1 ==> boundary_terminated(
            #[trigger] m.emitted[i],
            m.line_ending,
            m.encoding,
        )
}

/// How far into a freshly read buffer the accumulator appends before the cut
/// decision: through the rightmost line boundary the scan located, or the
/// whole buffer when none was (the unterminated line is then completed by a
/// later read).
pub open spec fn end_pos_spec(data: Seq<u8>, le: Seq<char>, enc: int) -> int {
    match scan_result(data, le, enc) {
        Some(p) => if 0 <= p <= data.len() {
            p
        } else {
            data.len() as int
        },
        None => data.len() as int,
    }
}

/// Where the accumulated bytes are cut once they reach the threshold: at
/// the first line boundary whose byte offset reaches the threshold, so the
/// cut chunk is the minimal boundary-ending prefix of at least the
/// threshold. No such boundary, or bytes still under the threshold, mean no
/// cut: a chunk may grow past the threshold rather than break a line.
pub open spec fn cut_spec(c1: Seq<u8>, threshold: int, le: Seq<char>, enc: int) -> Option<int> {
    if c1.len() >= threshold && c1.len() <= MAX_SCAN {
        cut_scan_result(c1, le, enc, threshold)
    } else {
        None
    }
}

/// One accumulator step on a freshly read buffer: append through the located
/// boundary, cut if the threshold is reached, then append the deferred
/// trailing bytes. Returns the new state and the emitted chunk, if any.
pub open spec fn push_spec(m: ChunkerModel, data: Seq<u8>) -> (ChunkerModel, Option<Seq<u8>>) {
    let ep = end_pos_spec(data, m.line_ending, m.encoding);
    let c1 = m.chunk + data.subrange(0, ep);
    let tail = data.subrange(ep, data.len() as int);
    match cut_spec(c1, m.threshold, m.line_ending, m.encoding) {
        Some(sp) => (
            ChunkerModel {
                chunk: c1.subrange(sp, c1.len() as int) + tail,
                next_index: m.next_index + 1,
                emitted: m.emitted.push(c1.subrange(0, sp)),
                fed: m.fed + data,
                ..m
            },
            Some(c1.subrange(0, sp)),
        ),
        None => (ChunkerModel { chunk: c1 + tail, fed: m.fed + data, ..m }, None),
    }
}

/// Whether a push reports malformed input for the chosen encoding: the scan
/// of the new buffer met it, or the scan of the accumulated bytes did when
/// the cut decision ran.
pub open spec fn push_warned(m: ChunkerModel, data: Seq<u8>) -> bool {
    let ep = end_pos_spec(data, m.line_ending, m.encoding);
    let c1 = m.chunk + data.subrange(0, ep);
    scan_warning(data, m.encoding) || (c1.len() >= m.threshold && c1.len() <= MAX_SCAN
        && scan_warning(c1, m.encoding))
}

/// The end-of-stream step: a non-empty chunk in progress is emitted as the
/// final chunk whatever its size; an empty one is not.
pub open spec fn finish_spec(m: ChunkerModel) -> (ChunkerModel, Option<Seq<u8>>) {
    if m.chunk.len() > 0 {
        (
            ChunkerModel {
                chunk: Seq::empty(),
                next_index: m.next_index + 1,
                emitted: m.emitted.push(m.chunk),
                ..m
            },
            Some(m.chunk),
        )
    } else {
        (m, None)
    }
}

/// Law (round-trip completeness): once the chunk in progress has been
/// flushed, concatenating the emitted chunks in index order reproduces the
/// fed input byte-for-byte.
pub proof fn lemma_round_trip(m: ChunkerModel)
    requires
        model_inv(m),
        m.chunk.len() == 0,
    ensures
        concat_all(m.emitted) == m.fed,
{
    assert(m.chunk =~= Seq::<u8>::empty());
    assert(concat_all(m.emitted) =~= concat_all(m.emitted) + m.chunk);
}

/// Law (threshold respect): a chunk is cut only once the accumulated bytes
/// have reached the threshold, and the cut chunk itself is at least the
/// threshold, so a smaller chunk can only come from the final flush. The cut
/// is minimal: the emitted bytes end at a line-ending occurrence of the
/// decoded accumulation, and every earlier occurrence's boundary offset
/// falls short of the threshold. A chunk outgrows the threshold only while
/// the accumulation holds no such boundary at all.
pub proof fn lemma_threshold_respected(m: ChunkerModel, data: Seq<u8>)
    requires
        model_inv(m),
        push_spec(m, data).1 is Some,
    ensures
        ({
            let ep = end_pos_spec(data, m.line_ending, m.encoding);
            let c1 = m.chunk + data.subrange(0, ep);
            let em = push_spec(m, data).1->Some_0;
            &&& c1.len() >= m.threshold
            &&& em.len() >= m.threshold
            &&& 1 <= em.len() <= c1.len()
            &&& em == c1.subrange(0, em.len() as int)
            &&& is_earliest_cut(c1, m.line_ending, m.encoding, m.threshold, 0, em.len() as int)
        }),
{
    let ep = end_pos_spec(data, m.line_ending, m.encoding);
    let c1 = m.chunk + data.subrange(0, ep);
    lemma_earliest_cut_from(c1, m.line_ending, m.encoding, m.threshold, 0);
}

/// Law (index monotonicity): with N chunks emitted the next index is N + 1;
/// since each emission hands out the index current at that moment and then
/// increments it, the chunks ever emitted carried exactly the indices 1..=N,
/// with no gap and no repeat.
pub proof fn lemma_dense_indices(m: ChunkerModel)
    requires
        model_inv(m),
    ensures
        m.next_index == m.emitted.len() + 1,
{
}

/// A chunk handed out for emission, with its 1-based index.
pub struct Emitted {
    pub index: usize,
    pub bytes: Vec<u8>,
}

/// The streaming chunker: accumulates fed bytes and hands back a finished
/// chunk as soon as one can be cut.
pub struct Chunker {
    chunk: Vec<u8>,
    next_index: usize,
    threshold: usize,
    line_ending: Vec<char>,
    encoding: TextEncoding,
    total_fed: usize,
    emitted: Ghost<Seq<Seq<u8>>>,
    fed: Ghost<Seq<u8>>,
}

impl View for Chunker {
    type V = ChunkerModel;

    closed spec fn view(&self) -> ChunkerModel {
        ChunkerModel {
            chunk: self.chunk@,
            next_index: self.next_index as int,
            threshold: self.threshold as int,
            line_ending: self.line_ending@,
            encoding: self.encoding.code(),
            emitted: self.emitted@,
            fed: self.fed@,
        }
    }
}

fn append_range(dst: &mut Vec<u8>, src: &Vec<u8>, from: usize, to: usize)
    requires
        from <= to <= src@.len(),
    ensures
        final(dst)@ == old(dst)@ + src@.subrange(from as int, to as int),
{
    let mut i: usize = from;
    while i < to
        invariant
            from <= i <= to <= src@.len(),
            dst@ == old(dst)@ + src@.subrange(from as int, i as int),
        decreases to - i,
    {
        dst.push(src[i]);
        proof {
            assert(dst@ =~= old(dst)@ + src@.subrange(from as int, i + 1));
        }
        i = i + 1;
    }
    proof {
        assert(dst@ =~= old(dst)@ + src@.subrange(from as int, to as int));
    }
}

impl Chunker {
    /// What always holds of a chunker between calls.
    pub open spec fn inv(&self) -> bool {
        &&& model_inv(self@)
        &&& self@.fed.len() < usize::MAX
        &&& self.counter_ok()
    }

    /// The byte counter mirrors the ghost trace of fed bytes.
    pub closed spec fn counter_ok(&self) -> bool {
        self.total_fed as int == self@.fed.len()
    }

    /// A fresh chunker for one run under `config`: nothing fed, nothing
    /// emitted, the next chunk getting index 1.
    pub fn new(config: &Config) -> (r: Chunker)
        requires
            config.wf(),
        ensures
            r.inv(),
            all_aligned(r@),
            r@ == init_model(config@),
    {
        let r = Chunker {
            chunk: Vec::new(),
            next_index: 1,
            threshold: config.chunk_size,
            line_ending: vstd::slice::slice_to_vec(config.line_ending.as_slice()),
            encoding: config.encoding,
            total_fed: 0,
            emitted: Ghost(Seq::empty()),
            fed: Ghost(Seq::empty()),
        };
        proof {
            assert(concat_all(r@.emitted) + r@.chunk =~= r@.fed);
        }
        r
    }

    /// How many bytes have been fed in so far.
    pub fn bytes_fed(&self) -> (r: usize)
        requires
            self.inv(),
        ensures
            r as int == self@.fed.len(),
    {
        self.total_fed
    }

    /// Feeds one freshly read buffer. Returns the chunk that was cut, if the
    /// accumulated bytes reached the threshold and held a line boundary at or
    /// past it, and whether the decoder met malformed input.
    #[verifier::rlimit(100)]
    pub fn push(&mut self, data: &Vec<u8>) -> (r: (Option<Emitted>, bool))
        requires
            old(self).inv(),
            data@.len() <= MAX_SCAN,
            old(self)@.fed.len() + data@.len() < usize::MAX,
        ensures
            final(self).inv(),
            final(self)@ == push_spec(old(self)@, data@).0,
            ({
                let em = push_spec(old(self)@, data@).1;
                match r.0 {
                    Some(e) => em == Some(e.bytes@) && e.index as int == old(self)@.next_index,
                    None => em is None,
                }
            }),
            r.1 == push_warned(old(self)@, data@),
            all_aligned(old(self)@) ==> all_aligned(final(self)@),
    {
        let ghost m0 = self@;
        let ghost le = m0.line_ending;
        let ghost enc = m0.encoding;
        let mut warn: bool = false;

        // Scan the new bytes and append only through the located boundary.
        let (found, w1) = find_last_line_ending(data.as_slice(), &self.line_ending, self.encoding);
        if w1 {
            warn = true;
        }
        let end_pos: usize = match found {
            Some(p) => {
                if p <= data.len() {
                    p
                } else {
                    data.len()
                }
            },
            None => data.len(),
        };
        proof {
            assert(end_pos as int == end_pos_spec(data@, le, enc));
        }
        append_range(&mut self.chunk, data, 0, end_pos);
        let ghost c1 = self.chunk@;
        proof {
            assert(c1 == m0.chunk + data@.subrange(0, end_pos as int));
        }

        // Cut at the first boundary at or past the threshold once the
        // accumulated bytes have reached it.
        let mut result: Option<Emitted> = None;
        if self.chunk.len() >= self.threshold && self.chunk.len() <= MAX_SCAN {
            let (found2, w2) = find_cut_boundary(
                self.chunk.as_slice(),
                &self.line_ending,
                self.encoding,
                self.threshold,
            );
            if w2 {
                warn = true;
            }
            match found2 {
                Some(sp) => {
                    proof {
                        assert(cut_spec(c1, m0.threshold, le, enc) == Some(sp as int));
                        lemma_earliest_cut_from(c1, le, enc, m0.threshold, 0);
                        assert(admissible_cut(c1, m0.threshold, sp as int));
                    }
                    let em = vstd::slice::slice_to_vec(
                        vstd::slice::slice_subrange(self.chunk.as_slice(), 0, sp),
                    );
                    let rest = vstd::slice::slice_to_vec(
                        vstd::slice::slice_subrange(self.chunk.as_slice(), sp, self.chunk.len()),
                    );
                    self.chunk = rest;
                    proof {
                        // The new index stays within `usize`.
                        lemma_concat_all_count(m0.emitted);
                        assert(m0.emitted.len() < usize::MAX);
                    }
                    let idx = self.next_index;
                    self.next_index = idx + 1;
                    proof {
                        self.emitted@ = m0.emitted.push(em@);
                        lemma_concat_all_push(m0.emitted, em@);
                        // The emitted chunk ends at a line-ending occurrence
                        // of the accumulated bytes.
                        assert(em@ + rest@ =~= c1);
                        let o = choose|o: int|
                            {
                                &&& #[trigger] crate::boundary::is_occurrence_at(
                                    crate::boundary::decoded_text(c1, enc),
                                    le,
                                    o,
                                )
                                &&& 0 <= o
                                &&& boundary_offset(c1, le, enc, o) == sp as int
                                &&& crate::boundary::no_admissible_between(
                                    c1,
                                    le,
                                    enc,
                                    m0.threshold,
                                    0,
                                    o,
                                )
                            };
                        assert(boundary_offset(em@ + rest@, le, enc, o) == em@.len());
                        assert(boundary_terminated(em@, le, enc));
                    }
                    result = Some(Emitted { index: idx, bytes: em });
                },
                None => {
                    proof {
                        assert(cut_spec(c1, m0.threshold, le, enc) is None);
                    }
                },
            }
        } else {
            proof {
                assert(cut_spec(c1, m0.threshold, le, enc) is None);
            }
        }

        // Append the deferred trailing bytes of the buffer.
        append_range(&mut self.chunk, data, end_pos, data.len());
        self.total_fed = self.total_fed + data.len();
        proof {
            self.fed@ = m0.fed + data@;
            let (m1, em) = push_spec(m0, data@);
            let tail = data@.subrange(end_pos as int, data@.len() as int);
            match cut_spec(c1, m0.threshold, le, enc) {
                Some(sp) => {
                    assert(self@.chunk =~= c1.subrange(sp, c1.len() as int) + tail);
                    assert(self@.emitted == m0.emitted.push(c1.subrange(0, sp))) by {
                        assert(result matches Some(e) && e.bytes@ =~= c1.subrange(0, sp));
                    }
                    assert(self@ == m1);
                    assert(concat_all(self@.emitted) + self@.chunk =~= self@.fed) by {
                        lemma_concat_all_push(m0.emitted, c1.subrange(0, sp));
                        assert(concat_all(m0.emitted) + m0.chunk == m0.fed);
                        assert(c1.subrange(0, sp) + (c1.subrange(sp, c1.len() as int) + tail)
                            =~= c1 + tail);
                        assert(concat_all(m0.emitted) + c1 + tail =~= m0.fed + data@);
                    }
                },
                None => {
                    assert(self@.chunk =~= c1 + tail);
                    assert(self@ == m1);
                    assert(concat_all(self@.emitted) + self@.chunk =~= self@.fed) by {
                        assert(concat_all(m0.emitted) + m0.chunk == m0.fed);
                        assert(m0.chunk + (data@.subrange(0, end_pos as int) + tail) =~= m0.chunk
                            + data@);
                        assert(concat_all(m0.emitted) + (c1 + tail) =~= m0.fed + data@);
                    }
                },
            }
        }
        (result, warn)
    }

    /// Flushes the final chunk at end of stream: a non-empty chunk in
    /// progress is emitted whatever its size. Afterwards the emitted chunks
    /// are exactly the bytes fed in.
    pub fn finish(&mut self) -> (r: Option<Emitted>)
        requires
            old(self).inv(),
        ensures
            final(self).inv(),
            final(self)@ == finish_spec(old(self)@).0,
            ({
                let em = finish_spec(old(self)@).1;
                match r {
                    Some(e) => em == Some(e.bytes@) && e.index as int == old(self)@.next_index,
                    None => em is None,
                }
            }),
            final(self)@.chunk == Seq::<u8>::empty(),
            concat_all(final(self)@.emitted) == final(self)@.fed,
            all_aligned(old(self)@) ==> aligned_except_last(final(self)@),
    {
        let ghost m0 = self@;
        if self.chunk.len() == 0 {
            proof {
                assert(self@.chunk =~= Seq::<u8>::empty());
                assert(concat_all(self@.emitted) =~= concat_all(self@.emitted) + self@.chunk);
            }
            return None;
        }
        let em = vstd::slice::slice_to_vec(self.chunk.as_slice());
        self.chunk = Vec::new();
        proof {
            lemma_concat_all_count(m0.emitted);
        }
        let idx = self.next_index;
        self.next_index = idx + 1;
        proof {
            self.emitted@ = m0.emitted.push(em@);
            lemma_concat_all_push(m0.emitted, em@);
            assert(self@.chunk =~= Seq::<u8>::empty());
            assert(concat_all(self@.emitted) + self@.chunk =~= self@.fed);
            assert(concat_all(self@.emitted) =~= self@.fed);
        }
        Some(Emitted { index: idx, bytes: em })
    }
}

} // verus!
