//! The incremental reader, which turns chunks of bytes into telegrams, and
//! the stream adapter, which hands those telegrams out one at a time.
use std::collections::VecDeque;
use vstd::prelude::*;

use crate::framing::{
    dropped_prefix, extract_telegram, is_line_start, lemma_dropped_prefix,
    lemma_split_append_found, lemma_split_append_kept, lemma_split_rest_quiescent,
    lemma_telegram_split, telegram_split, LF, TELEGRAM_START,
};

verus! {

/// What repeated extraction makes of `b`: every complete telegram, oldest
/// first, and the bytes kept after the last attempt.
pub open spec fn drain_telegrams(b: Seq<u8>) -> (Seq<Seq<u8>>, Seq<u8>)
    decreases b.len(),
    via drain_telegrams_decreases
{
    match telegram_split(b) {
        (Some(m), rest) => {
            let (ms, r) = drain_telegrams(rest);
            (seq![m] + ms, r)
        },
        (None, rest) => (Seq::empty(), rest),
    }
}

#[via_fn]
proof fn drain_telegrams_decreases(b: Seq<u8>) {
    lemma_telegram_split(b);
}

/// Bytes in which the extractor finds nothing more to do: no complete
/// telegram, and nothing to drop.
pub open spec fn is_quiescent(b: Seq<u8>) -> bool {
    telegram_split(b) == (None::<Seq<u8>>, b)
}

/// Cutting the input into `b` and then `y` is as good as feeding `b + y`:
/// true unless the reader drops all of `b`, `b` ends in the middle of a line
/// and `y` starts with the start byte, which would then start a line of its
/// own.
pub open spec fn is_clean_cut(b: Seq<u8>, y: Seq<u8>) -> bool {
    drain_telegrams(b).1.len() > 0 || b.len() == 0 || b.last() == LF || y.len() == 0 || y[0]
        != TELEGRAM_START
}

proof fn lemma_drain_append(b: Seq<u8>, y: Seq<u8>)
    requires
        is_clean_cut(b, y),
    ensures
        ({
            let (m1, r1) = drain_telegrams(b);
            let (m2, r2) = drain_telegrams(r1 + y);
            drain_telegrams(b + y) == (m1 + m2, r2)
        }),
    decreases b.len(),
{
    lemma_telegram_split(b);
    let (m, r) = telegram_split(b);
    match m {
        Some(m) => {
            lemma_split_append_found(b, y);
            if r.len() > 0 {
                assert(r.last() == b.last());
            }
            lemma_drain_append(r, y);
            let (m1, r1) = drain_telegrams(r);
            let (m2, r2) = drain_telegrams(r1 + y);
            assert(seq![m] + (m1 + m2) =~= (seq![m] + m1) + m2);
        },
        None => {
            lemma_split_append_kept(b, y);
            assert(drain_telegrams(b).0 + drain_telegrams(r + y).0 =~= drain_telegrams(r + y).0);
        },
    }
}

/// What repeated extraction keeps is quiescent.
proof fn lemma_drain_rest_quiescent(b: Seq<u8>)
    ensures
        is_quiescent(drain_telegrams(b).1),
    decreases b.len(),
{
    lemma_telegram_split(b);
    match telegram_split(b) {
        (Some(_), r) => lemma_drain_rest_quiescent(r),
        (None, _) => lemma_split_rest_quiescent(b),
    }
}

/// The telegrams that a reader with `p` pending returns over `chunks`, fed
/// one at a time, and the bytes pending at the end.
pub open spec fn feed_each(p: Seq<u8>, chunks: Seq<Seq<u8>>) -> (Seq<Seq<u8>>, Seq<u8>)
    decreases chunks.len(),
{
    if chunks.len() == 0 {
        (Seq::empty(), p)
    } else {
        let (ms, r) = drain_telegrams(p + chunks[0]);
        let (ms2, r2) = feed_each(r, chunks.drop_first());
        (ms + ms2, r2)
    }
}

/// Every cut between one chunk and the chunks after it falls cleanly, given
/// what the reader has pending at that point.
pub open spec fn cuts_are_clean(p: Seq<u8>, chunks: Seq<Seq<u8>>) -> bool
    decreases chunks.len(),
{
    chunks.len() == 0 || {
        &&& is_clean_cut(p + chunks[0], chunks.drop_first().flatten())
        &&& cuts_are_clean(drain_telegrams(p + chunks[0]).1, chunks.drop_first())
    }
}

/// Feeding `chunks` one at a time to a well-formed reader returns the same
/// telegrams, in the same order, and leaves the same bytes pending, as
/// feeding all of them at once, wherever every cut falls cleanly.
pub proof fn lemma_chunks_split(p: Seq<u8>, chunks: Seq<Seq<u8>>)
    requires
        is_quiescent(p),
        cuts_are_clean(p, chunks),
    ensures
        feed_each(p, chunks) == drain_telegrams(p + chunks.flatten()),
    decreases chunks.len(),
{
    if chunks.len() == 0 {
        assert(p + chunks.flatten() =~= p);
        assert(drain_telegrams(p).0 =~= Seq::<Seq<u8>>::empty());
    } else {
        let b = p + chunks[0];
        let rest = chunks.drop_first();
        let y = rest.flatten();
        let r = drain_telegrams(b).1;
        assert(chunks.flatten() == chunks[0] + y);
        assert(p + chunks.flatten() =~= b + y);
        lemma_drain_append(b, y);
        lemma_drain_rest_quiescent(b);
        lemma_chunks_split(r, rest);
    }
}

/// Feeding an empty chunk to a well-formed reader returns no telegram and
/// leaves the pending bytes as they are.
pub proof fn lemma_feed_empty(p: Seq<u8>)
    requires
        is_quiescent(p),
    ensures
        drain_telegrams(p + Seq::<u8>::empty()) == (Seq::<Seq<u8>>::empty(), p),
{
    assert(p + Seq::<u8>::empty() =~= p);
}

/// The pieces that repeated extraction cuts from `b`, in order: the bytes
/// dropped before the first telegram, the telegram, the bytes dropped before
/// the next one, and so on, up to the bytes dropped at the last attempt.
pub open spec fn drain_pieces(b: Seq<u8>) -> Seq<Seq<u8>>
    decreases b.len(),
    via drain_pieces_decreases
{
    match telegram_split(b) {
        (Some(m), rest) => seq![dropped_prefix(b), m] + drain_pieces(rest),
        (None, _) => seq![dropped_prefix(b)],
    }
}

#[via_fn]
proof fn drain_pieces_decreases(b: Seq<u8>) {
    lemma_telegram_split(b);
}

/// No byte is lost and none is doubled: the bytes dropped and the telegrams
/// returned, in the order in which they stand in `b`, followed by the bytes
/// kept, are `b` itself. Every odd piece is a returned telegram, and no line
/// of a dropped piece starts with the start byte.
pub proof fn lemma_bytes_conserved(b: Seq<u8>)
    ensures
        ({
            let (ms, rest) = drain_telegrams(b);
            let ps = drain_pieces(b);
            &&& ps.len() == 2 * ms.len() + 1
            &&& forall|i: int| 0 <= i < ms.len() ==> #[trigger] ps[2 * i + 1] == ms[i]
            &&& forall|i: int, p: int|
                0 <= i <= ms.len() ==> !#[trigger] is_line_start(ps[2 * i], TELEGRAM_START, p)
            &&& b == ps.flatten() + rest
        }),
    decreases b.len(),
{
    lemma_telegram_split(b);
    lemma_dropped_prefix(b);
    let d = dropped_prefix(b);
    let ps = drain_pieces(b);
    match telegram_split(b) {
        (Some(m), r) => {
            lemma_bytes_conserved(r);
            let (ms, rest) = drain_telegrams(r);
            let qs = drain_pieces(r);
            assert(ps == seq![d, m] + qs);
            assert(ps.drop_first() =~= seq![m] + qs);
            assert(ps.drop_first().drop_first() =~= qs);
            assert(ps.drop_first().flatten() == m + qs.flatten());
            assert(ps.flatten() == d + (m + qs.flatten()));
            assert(b =~= ps.flatten() + rest);
            assert forall|i: int| 0 <= i < ms.len() + 1 implies #[trigger] ps[2 * i + 1] == (seq![m]
                + ms)[i] by {
                if i > 0 {
                    assert(ps[2 * i + 1] == qs[2 * (i - 1) + 1]);
                }
            }
            assert forall|i: int, p: int| 0 <= i <= ms.len() + 1 implies !#[trigger] is_line_start(
                ps[2 * i],
                TELEGRAM_START,
                p,
            ) by {
                if i > 0 {
                    assert(ps[2 * i] == qs[2 * (i - 1)]);
                }
            }
        },
        (None, r) => {
            assert(ps.drop_first() =~= Seq::<Seq<u8>>::empty());
            assert(ps.drop_first().flatten() == Seq::<u8>::empty());
            assert(ps.flatten() =~= d);
            assert(b =~= ps.flatten() + r);
        },
    }
}

/// What a reader with `p` pending makes of `chunks`, fed one at a time: the
/// pieces that each feed cuts, in order, and the bytes pending at the end.
pub open spec fn feed_pieces(p: Seq<u8>, chunks: Seq<Seq<u8>>) -> (Seq<Seq<u8>>, Seq<u8>)
    decreases chunks.len(),
{
    if chunks.len() == 0 {
        (Seq::empty(), p)
    } else {
        let b = p + chunks[0];
        let (ps, r) = feed_pieces(drain_telegrams(b).1, chunks.drop_first());
        (drain_pieces(b) + ps, r)
    }
}

/// Over any sequence of chunks, the bytes pending at the start and all the
/// chunks fed are, byte for byte, the pieces dropped or returned by the
/// feeds, in order, followed by the bytes pending at the end.
pub proof fn lemma_chunks_conserved(p: Seq<u8>, chunks: Seq<Seq<u8>>)
    ensures
        p + chunks.flatten() == feed_pieces(p, chunks).0.flatten() + feed_pieces(p, chunks).1,
    decreases chunks.len(),
{
    if chunks.len() == 0 {
        assert(chunks.flatten() =~= Seq::<u8>::empty());
        assert(feed_pieces(p, chunks).0.flatten() =~= Seq::<u8>::empty());
        assert(p + chunks.flatten() =~= p);
        assert(feed_pieces(p, chunks).0.flatten() + p =~= p);
    } else {
        let b = p + chunks[0];
        let r = drain_telegrams(b).1;
        lemma_bytes_conserved(b);
        lemma_chunks_conserved(r, chunks.drop_first());
        let (ps, r2) = feed_pieces(r, chunks.drop_first());
        vstd::seq_lib::lemma_flatten_concat(drain_pieces(b), ps);
        assert(chunks.flatten() == chunks[0] + chunks.drop_first().flatten());
        assert(p + chunks.flatten() =~= b + chunks.drop_first().flatten());
        assert(b + chunks.drop_first().flatten() =~= drain_pieces(b).flatten() + (r
            + chunks.drop_first().flatten()));
        assert(feed_pieces(p, chunks).0.flatten() + r2 =~= drain_pieces(b).flatten() + (ps.flatten()
            + r2));
    }
}

/// Bytes in which no line starts with the start byte never delay a telegram
/// that follows them: what is read from `n + t` is what is read from `t`.
pub proof fn lemma_noise_skipped(n: Seq<u8>, t: Seq<u8>)
    requires
        forall|p: int| !is_line_start(n, TELEGRAM_START, p),
        is_clean_cut(n, t),
    ensures
        drain_telegrams(n + t) == drain_telegrams(t),
{
    crate::framing::lemma_first_line_start(n, TELEGRAM_START);
    assert(telegram_split(n).1.len() == 0);
    lemma_split_append_kept(n, t);
    assert(telegram_split(n).1 + t =~= t);
}

/// Raw bytes of a single DSMR telegram, from its header line ("/ID") to the
/// line break that ends its footer ("!CRC\r\n").
pub struct RawTelegram {
    pub contents: Vec<u8>,
}

impl View for RawTelegram {
    type V = Seq<u8>;

    open spec fn view(&self) -> Seq<u8> {
        self.contents@
    }
}

impl RawTelegram {
    /// The bytes of the telegram.
    pub fn as_bytes(&self) -> (r: &[u8])
        ensures
            r@ == self@,
    {
        self.contents.as_slice()
    }
}

impl AsRef<[u8]> for RawTelegram {
    fn as_ref(&self) -> &[u8] {
        self.contents.as_slice()
    }
}

/// The contents of each telegram, in order.
pub open spec fn telegram_contents(ts: Seq<RawTelegram>) -> Seq<Seq<u8>> {
    ts.map_values(|t: RawTelegram| t@)
}

/// Buffered extractor of DSMR telegrams from partial byte buffers.
///
/// Each call of `feed` returns the telegrams that the bytes fed so far have
/// completed; the bytes of a returned telegram are never returned again.
pub struct RawTelegramReader {
    partial_telegram: Vec<u8>,
}

impl View for RawTelegramReader {
    type V = Seq<u8>;

    /// The pending bytes: fed, and neither returned nor dropped yet.
    closed spec fn view(&self) -> Seq<u8> {
        self.partial_telegram@
    }
}

impl RawTelegramReader {
    /// The pending bytes hold no complete telegram and nothing to drop.
    pub open spec fn wf(&self) -> bool {
        is_quiescent(self@)
    }

    /// A reader with nothing pending.
    pub fn new() -> (r: Self)
        ensures
            r@ == Seq::<u8>::empty(),
            r.wf(),
    {
        let r = RawTelegramReader { partial_telegram: Vec::new() };
        assert(telegram_split(r@) == (None::<Seq<u8>>, r@));
        r
    }

    /// The pending bytes.
    pub fn pending_bytes(&self) -> (r: &[u8])
        ensures
            r@ == self@,
    {
        self.partial_telegram.as_slice()
    }

    /// Adds `bytes` to the pending bytes and returns every telegram that is
    /// now complete, oldest first.
    ///
    /// The pending bytes followed by `bytes` are cut as often as a telegram is
    /// found in what is left; what is left after the last attempt is pending
    /// afterwards.
    pub fn feed(&mut self, bytes: &[u8]) -> (out: Vec<RawTelegram>)
        ensures
            (telegram_contents(out@), final(self)@) == drain_telegrams(old(self)@ + bytes@),
            final(self).wf(),
    {
        let mut out: Vec<RawTelegram> = Vec::new();
        let was_empty = self.partial_telegram.len() == 0;
        if !was_empty {
            self.partial_telegram.extend_from_slice(bytes);
        }
        let input: &[u8] = if was_empty {
            bytes
        } else {
            self.partial_telegram.as_slice()
        };
        assert(input@ =~= old(self)@ + bytes@);
        let mut telegram_bytes: &[u8] = input;
        assert(telegram_contents(out@) =~= Seq::<Seq<u8>>::empty());
        loop
            invariant_except_break
                drain_telegrams(input@) == (
                    telegram_contents(out@) + drain_telegrams(telegram_bytes@).0,
                    drain_telegrams(telegram_bytes@).1,
                ),
            ensures
                drain_telegrams(input@) == (telegram_contents(out@), telegram_bytes@),
                telegram_split(telegram_bytes@) == (None::<Seq<u8>>, telegram_bytes@),
            decreases telegram_bytes@.len(),
        {
            let (telegram, rest) = extract_telegram(telegram_bytes);
            proof {
                lemma_telegram_split(telegram_bytes@);
            }
            match telegram {
                Some(t) => {
                    let ghost before = out@;
                    out.push(RawTelegram { contents: vstd::slice::slice_to_vec(t) });
                    assert(telegram_contents(out@) =~= telegram_contents(before) + seq![t@]);
                    assert(drain_telegrams(telegram_bytes@).0 =~= seq![t@] + drain_telegrams(
                        rest@,
                    ).0);
                    assert(telegram_contents(out@) + drain_telegrams(rest@).0 =~= telegram_contents(
                        before,
                    ) + drain_telegrams(telegram_bytes@).0);
                    telegram_bytes = rest;
                },
                None => {
                    proof {
                        lemma_split_rest_quiescent(telegram_bytes@);
                        assert(drain_telegrams(telegram_bytes@).0 =~= Seq::<Seq<u8>>::empty());
                        assert(telegram_contents(out@) + drain_telegrams(telegram_bytes@).0
                            =~= telegram_contents(out@));
                    }
                    telegram_bytes = rest;
                    break ;
                },
            }
        }
        let kept = vstd::slice::slice_to_vec(telegram_bytes);
        self.partial_telegram = kept;
        out
    }
}

/// Hands out the telegrams found in a source of byte chunks one at a time.
///
/// The adapter keeps the reader and a queue of the telegrams that the last
/// chunk completed beyond the first; `inner` is the source, which the code
/// driving the adapter pulls from. A pull takes the front of the queue if
/// there is one (`next_ready`), and only then the next chunk, which it hands
/// to `feed_chunk`.
pub struct RawTelegramStream<S> {
    reader: RawTelegramReader,
    ready_telegrams: VecDeque<RawTelegram>,
    inner: S,
}

impl<S> RawTelegramStream<S> {
    /// The bytes the reader keeps pending.
    pub closed spec fn pending(&self) -> Seq<u8> {
        self.reader@
    }

    /// The telegrams that wait to be handed out, front first.
    pub closed spec fn ready(&self) -> Seq<Seq<u8>> {
        telegram_contents(self.ready_telegrams@)
    }

    /// The source of byte chunks.
    pub closed spec fn source(&self) -> S {
        self.inner
    }

    /// The reader within is well formed.
    pub closed spec fn wf(&self) -> bool {
        self.reader.wf()
    }

    /// An adapter over `inner`, with nothing pending and nothing queued.
    pub fn new(inner: S) -> (r: Self)
        ensures
            r.pending() == Seq::<u8>::empty(),
            r.ready() == Seq::<Seq<u8>>::empty(),
            r.source() == inner,
            r.wf(),
    {
        let r = RawTelegramStream {
            reader: RawTelegramReader::new(),
            ready_telegrams: VecDeque::new(),
            inner,
        };
        assert(r.ready() =~= Seq::<Seq<u8>>::empty());
        r
    }

    /// The source, for the code that pulls the next chunk from it.
    pub fn inner_mut(&mut self) -> (r: &mut S)
        ensures
            *r == old(self).source(),
            final(self).source() == *final(r),
            final(self).pending() == old(self).pending(),
            final(self).ready() == old(self).ready(),
            final(self).wf() == old(self).wf(),
    {
        &mut self.inner
    }

    /// Some telegram waits in the queue.
    pub fn has_ready(&self) -> (r: bool)
        ensures
            r == (self.ready().len() > 0),
    {
        self.ready_telegrams.len() > 0
    }

    /// Takes the front of the queue of ready telegrams; `None` when the queue
    /// is empty and the next chunk is needed.
    pub fn next_ready(&mut self) -> (r: Option<RawTelegram>)
        ensures
            final(self).pending() == old(self).pending(),
            final(self).source() == old(self).source(),
            final(self).wf() == old(self).wf(),
            old(self).ready().len() == 0 ==> r is None && final(self).ready() == old(self).ready(),
            old(self).ready().len() > 0 ==> r is Some && r->0@ == old(self).ready()[0]
                && final(self).ready() == old(self).ready().drop_first(),
    {
        let r = self.ready_telegrams.pop_front();
        proof {
            if r is Some {
                assert(self.ready() =~= old(self).ready().drop_first());
            }
        }
        r
    }

    /// Feeds a chunk from the source to the reader, once the queue is empty.
    /// Returns the first telegram that the chunk completed and queues the
    /// others in order; `None` when it completed none, and the next chunk is
    /// needed.
    pub fn feed_chunk(&mut self, bytes: &[u8]) -> (r: Option<RawTelegram>)
        requires
            old(self).ready().len() == 0,
        ensures
            ({
                let (ms, rest) = drain_telegrams(old(self).pending() + bytes@);
                &&& final(self).pending() == rest
                &&& ms.len() == 0 ==> r is None && final(self).ready() == ms
                &&& ms.len() > 0 ==> r is Some && r->0@ == ms[0] && final(self).ready()
                    == ms.drop_first()
            }),
            final(self).source() == old(self).source(),
            final(self).wf(),
    {
        let mut telegrams = self.reader.feed(bytes);
        let ghost all = telegrams@;
        let ghost reader = self.reader;
        assert(self.ready_telegrams@.len() == 0);
        assert(self.ready_telegrams@ =~= Seq::<RawTelegram>::empty());
        while telegrams.len() > 0
            invariant
                telegrams@ + self.ready_telegrams@ == all,
                self.reader == reader,
                self.inner == old(self).inner,
            decreases telegrams@.len(),
        {
            let ghost before = self.ready_telegrams@;
            let ghost left = telegrams@;
            let t = telegrams.pop().unwrap();
            self.ready_telegrams.push_front(t);
            assert(telegrams@ + self.ready_telegrams@ =~= left + before);
        }
        assert(self.ready_telegrams@ =~= all);
        let r = self.ready_telegrams.pop_front();
        proof {
            if r is Some {
                assert(self.ready() =~= telegram_contents(all).drop_first());
            } else {
                assert(self.ready() =~= telegram_contents(all));
            }
        }
        r
    }
}

} // verus!
