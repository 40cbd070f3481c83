//! A queue of owned text chunks that is consumed character by character.

use vstd::prelude::*;
use vstd::string::*;
use vstd::utf8::*;
use std::collections::VecDeque;
use crate::tokenizer::text::{
    data_len, is_trigger, is_trigger_byte, lemma_boundary_from_suffix, lemma_data_len_bounds,
    lemma_encode_concat, lemma_encode_empty, lemma_encode_injective,
    lemma_span_of_encoding, lemma_span_of_unique, lemma_suffix_at_boundary, span_of,
};

verus! {

/// Either a single character or a run of "data" characters: those which
/// don't trigger input stream preprocessing, or special handling in any
/// of the Data / RawData / Plaintext tokenizer states.  We do not exclude
/// characters which trigger a parse error but are otherwise handled
/// normally.
#[derive(Clone, Debug, PartialEq, Eq)]
pub enum DataRunOrChar {
    DataRun(String),
    OneChar(char),
}

impl DataRunOrChar {
    /// The characters that the value carries.
    pub open spec fn text(&self) -> Seq<char> {
        match self {
            DataRunOrChar::DataRun(s) => s@,
            DataRunOrChar::OneChar(c) => seq![*c],
        }
    }
}

/// Length in bytes of the run of data at the start of `front`.
pub open spec fn run_bytes(front: Seq<char>) -> nat {
    encode_utf8(front.take(data_len(front) as int)).len()
}

/// Number of characters that one classified extraction takes from a
/// non-empty `front`: the whole run of data where it is longer than one
/// byte, and one character otherwise.
pub open spec fn taken(front: Seq<char>) -> nat {
    if run_bytes(front) > 1 {
        data_len(front)
    } else {
        1
    }
}

/// What is known of the characters that a classified extraction takes: a
/// run is non-empty, holds no trigger character, and ends at the end of the
/// text or before a trigger; a single character is a trigger, or a lone
/// one-byte character standing before a trigger or the end.
pub proof fn lemma_taken(front: Seq<char>)
    requires
        front.len() > 0,
    ensures
        1 <= taken(front) <= front.len(),
        run_bytes(front) > 1 <==> data_len(front) >= 2 || (data_len(front) == 1 && (
            front[0] as u32) >= 0x80),
        run_bytes(front) > 1 ==> {
            &&& taken(front) == data_len(front)
            &&& forall|i: int| 0 <= i < taken(front) ==> !is_trigger(#[trigger] front[i])
            &&& taken(front) < front.len() ==> is_trigger(front[taken(front) as int])
        },
        run_bytes(front) <= 1 ==> {
            ||| is_trigger(front[0])
            ||| {
                &&& data_len(front) == 1
                &&& (front[0] as u32) < 0x80
                &&& front.len() > 1 ==> is_trigger(front[1])
            }
        },
{
    let k = data_len(front) as int;
    lemma_data_len_bounds(front);
    lemma_encode_empty(front.take(k));
    if k == 1 {
        char_is_scalar(front[0]);
        assert(front.take(1).drop_first() =~= Seq::<char>::empty());
        assert(encode_utf8(Seq::<char>::empty()) =~= Seq::<u8>::empty());
        assert(encode_utf8(front.take(1)) =~= encode_scalar(front[0] as u32));
    }
}

/// One owned block of input text with a read cursor into it.
struct Buffer {
    /// Byte position within the buffer.
    pos: usize,
    /// The buffer.
    buf: String,
}

impl Buffer {
    /// The UTF-8 bytes of the whole block.
    spec fn bytes(&self) -> Seq<u8> {
        encode_utf8(self.buf@)
    }

    /// The byte offset of the cursor.
    spec fn cursor(&self) -> int {
        self.pos as int
    }

    /// The cursor lies within the block, on a character boundary.
    spec fn wf(&self) -> bool {
        is_char_boundary(self.bytes(), self.cursor())
    }

    /// The characters from the cursor to the end of the block.
    spec fn rest(&self) -> Seq<char> {
        decode_utf8(self.bytes().subrange(self.cursor(), self.bytes().len() as int))
    }

    /// A block with the cursor at its start.
    fn new(buf: String) -> (b: Buffer)
        ensures
            b.wf(),
            b.rest() == buf@,
            b.cursor() == 0,
            b.bytes() == encode_utf8(buf@),
    {
        proof {
            encode_utf8_valid_utf8(buf@);
            encode_utf8_decode_utf8(buf@);
            assert(encode_utf8(buf@).subrange(0, encode_utf8(buf@).len() as int) =~= encode_utf8(
                buf@,
            ));
        }
        Buffer { pos: 0, buf }
    }

    /// The bytes from the cursor on are the encoding of `rest()`.
    proof fn lemma_rest(&self)
        requires
            self.wf(),
        ensures
            valid_utf8(self.bytes()),
            0 <= self.cursor() <= self.bytes().len(),
            encode_utf8(self.rest()) == self.bytes().subrange(
                self.cursor(),
                self.bytes().len() as int,
            ),
            self.rest().len() == 0 <==> self.cursor() == self.bytes().len(),
    {
        encode_utf8_valid_utf8(self.buf@);
        lemma_suffix_at_boundary(self.bytes(), self.cursor());
        lemma_encode_empty(self.rest());
    }

    /// The unread text as a slice.
    fn tail(&self) -> (t: &str)
        requires
            self.wf(),
        ensures
            t@ == self.rest(),
    {
        proof {
            self.lemma_rest();
        }
        let (_, t) = self.buf.as_str().split_at(self.pos);
        proof {
            lemma_encode_injective(t@, self.rest());
        }
        t
    }

    /// Whether the cursor has reached the end of the block.
    fn is_exhausted(&self) -> (b: bool)
        requires
            self.wf(),
        ensures
            b == (self.rest().len() == 0),
    {
        proof {
            self.lemma_rest();
        }
        self.pos >= self.buf.as_str().as_bytes().len()
    }

    /// The character at the cursor.
    fn peek_char(&self) -> (c: char)
        requires
            self.wf(),
            self.rest().len() > 0,
        ensures
            c == self.rest()[0],
    {
        self.tail().get_char(0)
    }

    /// Moves the cursor past the character `c` that it stands on.
    fn advance(&mut self, c: char)
        requires
            old(self).wf(),
            old(self).rest().len() > 0,
            c == old(self).rest()[0],
        ensures
            final(self).wf(),
            final(self).rest() == old(self).rest().drop_first(),
            final(self).bytes() == old(self).bytes(),
    {
        let width: usize = c.len_utf8();
        let end: usize = self.buf.as_str().as_bytes().len();
        proof {
            self.lemma_rest();
            let r = self.rest();
            let b = self.bytes();
            let sub = b.subrange(self.cursor(), b.len() as int);
            assert(sub == encode_scalar(c as u32) + encode_utf8(r.drop_first()));
            assert(b.subrange(self.cursor() + width, b.len() as int) =~= encode_utf8(
                r.drop_first(),
            )) by {
                assert(b.subrange(self.cursor() + width, b.len() as int) =~= sub.subrange(
                    width as int,
                    sub.len() as int,
                ));
            }
            lemma_boundary_from_suffix(b, self.cursor() + width, r.drop_first());
        }
        assert(self.pos + width <= end);
        self.pos = self.pos + width;
    }

    /// Takes the run of data at the cursor where it is longer than one
    /// byte, and the single character at the cursor otherwise.
    fn take_data(&mut self) -> (r: DataRunOrChar)
        requires
            old(self).wf(),
            old(self).rest().len() > 0,
        ensures
            final(self).wf(),
            final(self).bytes() == old(self).bytes(),
            r.text() == old(self).rest().take(taken(old(self).rest()) as int),
            final(self).rest() == old(self).rest().skip(taken(old(self).rest()) as int),
            r is DataRun <==> run_bytes(old(self).rest()) > 1,
    {
        let ghost front = self.rest();
        let ghost k = data_len(front) as int;
        let t = self.tail();
        let n: usize = data_span(t);
        proof {
            self.lemma_rest();
            lemma_data_len_bounds(front);
            assert(front =~= front.take(k) + front.skip(k));
            lemma_encode_concat(front.take(k), front.skip(k));
            encode_utf8_valid_utf8(front);
        }
        if n > 1 {
            proof {
                assert(t.spec_bytes().subrange(n as int, t.spec_bytes().len() as int)
                    =~= encode_utf8(front.skip(k)));
                lemma_boundary_from_suffix(t.spec_bytes(), n as int, front.skip(k));
            }
            let (run, _) = t.split_at(n);
            proof {
                assert(run.spec_bytes() =~= encode_utf8(front.take(k)));
                lemma_encode_injective(run@, front.take(k));
            }
            let out = run.to_owned();
            let end: usize = self.buf.as_str().as_bytes().len();
            proof {
                let b = self.bytes();
                assert(b.subrange(self.cursor() + n, b.len() as int) =~= encode_utf8(
                    front.skip(k),
                ));
                lemma_boundary_from_suffix(b, self.cursor() + n, front.skip(k));
            }
            assert(self.pos + n <= end);
            self.pos = self.pos + n;
            DataRunOrChar::DataRun(out)
        } else {
            let c = t.get_char(0);
            self.advance(c);
            proof {
                assert(front.drop_first() =~= front.skip(1));
                assert(seq![c] =~= front.take(1));
            }
            DataRunOrChar::OneChar(c)
        }
    }
}

/// Counts the data bytes at the beginning of `s`: those before the first
/// NUL, CR, `&`, `-` or `<`, or all of them where there is none.
///
/// The count always ends on a character boundary: a trigger is a single
/// byte below 0x80, and no byte of a longer encoding is below 0x80.
pub fn data_span(s: &str) -> (n: usize)
    ensures
        n == span_of(s.spec_bytes()),
        n <= s.spec_bytes().len(),
        forall|i: int| 0 <= i < n ==> !is_trigger_byte(#[trigger] s.spec_bytes()[i]),
        n < s.spec_bytes().len() ==> is_trigger_byte(s.spec_bytes()[n as int]),
        n == run_bytes(s@),
{
    let bytes = s.as_bytes();
    let mut n: usize = 0;
    while n < bytes.len()
        invariant
            n <= bytes@.len(),
            forall|i: int| 0 <= i < n ==> !is_trigger_byte(#[trigger] bytes@[i]),
        ensures
            n <= bytes@.len(),
            forall|i: int| 0 <= i < n ==> !is_trigger_byte(#[trigger] bytes@[i]),
            n < bytes@.len() ==> is_trigger_byte(bytes@[n as int]),
        decreases bytes@.len() - n,
    {
        let b: u8 = bytes[n];
        if b == 0x00 || b == 0x0D || b == 0x26 || b == 0x2D || b == 0x3C {
            break;
        }
        n += 1;
    }
    proof {
        lemma_span_of_unique(bytes@, n as int);
        lemma_span_of_encoding(s@);
    }
    n
}

/// The chunks without the exhausted ones at the front.
pub open spec fn pruned(chunks: Seq<Seq<char>>) -> Seq<Seq<char>>
    decreases chunks.len(),
{
    if chunks.len() > 0 && chunks[0].len() == 0 {
        pruned(chunks.drop_first())
    } else {
        chunks
    }
}

/// The chunks after `k` characters have left the front chunk.
pub open spec fn shortened(chunks: Seq<Seq<char>>, k: int) -> Seq<Seq<char>>
    recommends
        chunks.len() > 0,
        0 <= k <= chunks[0].len(),
{
    chunks.update(0, chunks[0].skip(k))
}

/// The chunks after one character has been consumed, where there is one.
pub open spec fn after_next(chunks: Seq<Seq<char>>) -> Seq<Seq<char>> {
    let p = pruned(chunks);
    if p.len() == 0 {
        p
    } else {
        shortened(p, 1)
    }
}

/// The chunks after `n` characters have been consumed one by one.
pub open spec fn consumed(chunks: Seq<Seq<char>>, n: nat) -> Seq<Seq<char>>
    decreases n,
{
    if n == 0 {
        chunks
    } else {
        after_next(consumed(chunks, (n - 1) as nat))
    }
}

/// The characters that one classified extraction takes: none from an empty
/// queue, else the run of data or the single character at the start of the
/// first chunk that has anything left.
pub open spec fn data_piece(chunks: Seq<Seq<char>>) -> Seq<char> {
    let p = pruned(chunks);
    if p.len() == 0 {
        Seq::empty()
    } else {
        p[0].take(taken(p[0]) as int)
    }
}

/// The chunks after one classified extraction.
pub open spec fn after_data(chunks: Seq<Seq<char>>) -> Seq<Seq<char>> {
    let p = pruned(chunks);
    if p.len() == 0 {
        p
    } else {
        shortened(p, taken(p[0]) as int)
    }
}

/// The chunks after `n` classified extractions.
pub open spec fn after_pieces(chunks: Seq<Seq<char>>, n: nat) -> Seq<Seq<char>>
    decreases n,
{
    if n == 0 {
        chunks
    } else {
        after_data(after_pieces(chunks, (n - 1) as nat))
    }
}

/// What the first `n` classified extractions take, in order.
pub open spec fn pieces(chunks: Seq<Seq<char>>, n: nat) -> Seq<Seq<char>>
    decreases n,
{
    if n == 0 {
        Seq::empty()
    } else {
        pieces(chunks, (n - 1) as nat).push(data_piece(after_pieces(chunks, (n - 1) as nat)))
    }
}

/// Whether `piece` is what a classified extraction may hand out: a text
/// without a trigger character, or a single character.
pub open spec fn is_classified(piece: Seq<char>) -> bool {
    ||| piece.len() == 1
    ||| forall|j: int| 0 <= j < piece.len() ==> !is_trigger(#[trigger] piece[j])
}

/// Pruning changes no character: the text is the same, and what is left
/// either is nothing or starts with a chunk that has a character to give.
pub proof fn lemma_pruned(chunks: Seq<Seq<char>>)
    ensures
        pruned(chunks).flatten() == chunks.flatten(),
        pruned(pruned(chunks)) == pruned(chunks),
        pruned(chunks).len() == 0 <==> chunks.flatten().len() == 0,
        pruned(chunks).len() > 0 ==> pruned(chunks)[0].len() > 0 && pruned(chunks)[0][0]
            == chunks.flatten()[0],
    decreases chunks.len(),
{
    if chunks.len() > 0 && chunks[0].len() == 0 {
        lemma_pruned(chunks.drop_first());
        assert(chunks.flatten() =~= chunks.drop_first().flatten());
    }
}

/// Taking `k` characters from the front chunk takes the first `k`
/// characters of the text.
pub proof fn lemma_shortened(chunks: Seq<Seq<char>>, k: int)
    requires
        chunks.len() > 0,
        0 <= k <= chunks[0].len(),
    ensures
        shortened(chunks, k).flatten() == chunks.flatten().skip(k),
        chunks[0].take(k) == chunks.flatten().take(k),
        chunks[0].take(k) + shortened(chunks, k).flatten() == chunks.flatten(),
{
    let s = shortened(chunks, k);
    assert(s.drop_first() =~= chunks.drop_first());
    assert(s.flatten() =~= chunks.flatten().skip(k));
    assert(chunks[0].take(k) =~= chunks.flatten().take(k));
    assert(chunks[0].take(k) + s.flatten() =~= chunks.flatten());
}

/// Consuming one character removes the first character of the text.
pub proof fn lemma_after_next(chunks: Seq<Seq<char>>)
    ensures
        chunks.flatten().len() > 0 ==> after_next(chunks).flatten() == chunks.flatten().drop_first(),
        chunks.flatten().len() == 0 ==> after_next(chunks).flatten() == chunks.flatten(),
{
    lemma_pruned(chunks);
    if chunks.flatten().len() > 0 {
        lemma_shortened(pruned(chunks), 1);
        assert(chunks.flatten().skip(1) =~= chunks.flatten().drop_first());
    }
}

/// Consuming `n` characters one by one removes the first `n` characters
/// of the text.
pub proof fn lemma_consumed(chunks: Seq<Seq<char>>, n: nat)
    requires
        n <= chunks.flatten().len(),
    ensures
        consumed(chunks, n).flatten() == chunks.flatten().skip(n as int),
    decreases n,
{
    if n == 0 {
        assert(chunks.flatten().skip(0) =~= chunks.flatten());
    } else {
        let m = (n - 1) as nat;
        lemma_consumed(chunks, m);
        lemma_after_next(consumed(chunks, m));
        assert(chunks.flatten().skip(m as int).drop_first() =~= chunks.flatten().skip(n as int));
    }
}

/// One classified extraction takes a piece off the front of the text, and
/// takes at least one character unless the queue is empty.
pub proof fn lemma_after_data(chunks: Seq<Seq<char>>)
    ensures
        data_piece(chunks) + after_data(chunks).flatten() == chunks.flatten(),
        is_classified(data_piece(chunks)),
        chunks.flatten().len() > 0 ==> data_piece(chunks).len() > 0,
{
    lemma_pruned(chunks);
    let p = pruned(chunks);
    if p.len() > 0 {
        lemma_taken(p[0]);
        lemma_shortened(p, taken(p[0]) as int);
    } else {
        assert(data_piece(chunks) + after_data(chunks).flatten() =~= chunks.flatten());
    }
}

/// The pieces of repeated classified extractions, one after the other, are
/// the text that was taken: together with what is left they are the whole
/// text, and all of it once nothing is left. Each piece is a text without
/// a trigger character or a single character.
pub proof fn lemma_pieces_reproduce(chunks: Seq<Seq<char>>, n: nat)
    ensures
        pieces(chunks, n).flatten() + after_pieces(chunks, n).flatten() == chunks.flatten(),
        after_pieces(chunks, n).flatten().len() == 0 ==> pieces(chunks, n).flatten()
            == chunks.flatten(),
        pieces(chunks, n).len() == n,
        forall|i: int| 0 <= i < n ==> is_classified(#[trigger] pieces(chunks, n)[i]),
    decreases n,
{
    if n == 0 {
        assert(pieces(chunks, n).flatten() + after_pieces(chunks, n).flatten()
            =~= chunks.flatten());
    } else {
        let m = (n - 1) as nat;
        lemma_pieces_reproduce(chunks, m);
        let before = after_pieces(chunks, m);
        lemma_after_data(before);
        pieces(chunks, m).lemma_flatten_push(data_piece(before));
        assert(pieces(chunks, n).flatten() + after_pieces(chunks, n).flatten()
            =~= pieces(chunks, m).flatten() + (data_piece(before) + after_data(before).flatten()));
    }
    if after_pieces(chunks, n).flatten().len() == 0 {
        assert(pieces(chunks, n).flatten() + after_pieces(chunks, n).flatten() =~= pieces(
            chunks,
            n,
        ).flatten());
    }
}

/// The number of characters left goes up by the length of each chunk that
/// is pushed, at either end, and down by one for each character consumed.
pub proof fn lemma_available_count(chunks: Seq<Seq<char>>, text: Seq<char>, n: nat)
    requires
        n <= chunks.flatten().len(),
    ensures
        chunks.push(text).flatten().len() == chunks.flatten().len() + text.len(),
        (seq![text] + chunks).flatten().len() == chunks.flatten().len() + text.len(),
        consumed(chunks, n).flatten().len() == chunks.flatten().len() - n,
{
    chunks.lemma_flatten_push(text);
    assert((seq![text] + chunks).drop_first() =~= chunks);
    lemma_consumed(chunks, n);
}

/// Characters come out in the order in which they stand in the queue: the
/// character consumed after `i` others is the one at index `i` of the text.
/// A chunk pushed at the back stands after all of the text, and one pushed
/// at the front before all of it.
pub proof fn lemma_order_preserved(chunks: Seq<Seq<char>>, text: Seq<char>, i: nat)
    requires
        i < chunks.flatten().len(),
    ensures
        consumed(chunks, i).flatten().len() > 0,
        consumed(chunks, i).flatten()[0] == chunks.flatten()[i as int],
        chunks.push(text).flatten() == chunks.flatten() + text,
        (seq![text] + chunks).flatten() == text + chunks.flatten(),
{
    lemma_consumed(chunks, i);
    chunks.lemma_flatten_push(text);
    assert((seq![text] + chunks).drop_first() =~= chunks);
}

/// Pushing back at the front the `k` characters that were just consumed
/// restores the text, and consuming `k` characters again yields the same
/// characters and leaves the same text behind.
pub proof fn lemma_unconsume_round_trip(chunks: Seq<Seq<char>>, k: nat)
    requires
        k <= chunks.flatten().len(),
    ensures
        ({
            let s = chunks.flatten().take(k as int);
            let restored = seq![s] + consumed(chunks, k);
            &&& restored.flatten() == chunks.flatten()
            &&& restored.flatten().take(k as int) == s
            &&& consumed(restored, k).flatten() == consumed(chunks, k).flatten()
        }),
{
    let all = chunks.flatten();
    let s = all.take(k as int);
    let restored = seq![s] + consumed(chunks, k);
    lemma_consumed(chunks, k);
    assert(restored.drop_first() =~= consumed(chunks, k));
    assert(restored.flatten() =~= s + all.skip(k as int));
    assert(s + all.skip(k as int) =~= all);
    lemma_consumed(restored, k);
}

/// An empty queue is not spent for good: once a non-empty chunk is pushed
/// at its back, the next character consumed is the first of that chunk.
pub proof fn lemma_refill_after_empty(chunks: Seq<Seq<char>>, text: Seq<char>)
    requires
        chunks.flatten().len() == 0,
        text.len() > 0,
    ensures
        chunks.push(text).flatten() == text,
        pruned(chunks.push(text))[0][0] == text[0],
        after_next(chunks.push(text)).flatten() == text.drop_first(),
{
    chunks.lemma_flatten_push(text);
    assert(chunks.flatten() + text =~= text);
    lemma_pruned(chunks.push(text));
    lemma_after_next(chunks.push(text));
}

/// A queue of owned string buffers, which supports incrementally
/// consuming characters.
pub struct BufferQueue {
    /// Buffers to process.
    buffers: VecDeque<Buffer>,
    /// Number of available characters.
    available: usize,
}

impl View for BufferQueue {
    type V = Seq<char>;

    /// Every character that is still to be consumed, in order.
    open spec fn view(&self) -> Seq<char> {
        self.chunks().flatten()
    }
}

impl BufferQueue {
    /// The unread text of each queued chunk, front first. An exhausted
    /// chunk that has not been pruned yet shows as an empty text.
    pub closed spec fn chunks(&self) -> Seq<Seq<char>> {
        Seq::new(self.buffers@.len(), |i: int| self.buffers@[i].rest())
    }

    /// The running count of available characters.
    pub closed spec fn count(&self) -> nat {
        self.available as nat
    }

    /// Every cursor is on a character boundary.
    pub closed spec fn cursors_wf(&self) -> bool {
        forall|i: int| 0 <= i < self.buffers@.len() ==> (#[trigger] self.buffers@[i]).wf()
    }

    /// Every cursor is on a character boundary, and the running count is
    /// the number of characters left.
    pub open spec fn wf(&self) -> bool {
        &&& self.cursors_wf()
        &&& self.count() == self@.len()
    }

    /// Create an empty BufferQueue.
    pub fn new() -> (q: BufferQueue)
        ensures
            q.wf(),
            q.chunks() == Seq::<Seq<char>>::empty(),
            q@ == Seq::<char>::empty(),
    {
        let q = BufferQueue { buffers: VecDeque::new(), available: 0 };
        assert(q.chunks() =~= Seq::<Seq<char>>::empty());
        q
    }

    /// Add a buffer to the beginning of the queue.
    pub fn push_front(&mut self, buf: String)
        requires
            old(self).wf(),
            old(self)@.len() + buf@.len() <= usize::MAX,
        ensures
            final(self).wf(),
            final(self).chunks() == seq![buf@] + old(self).chunks(),
            final(self)@ == buf@ + old(self)@,
    {
        self.account_new(buf.as_str());
        self.buffers.push_front(Buffer::new(buf));
        proof {
            let c = seq![buf@] + old(self).chunks();
            assert(self.chunks() =~= c);
            assert(c.drop_first() =~= old(self).chunks());
        }
    }

    /// Add a buffer to the end of the queue.
    pub fn push_back(&mut self, buf: String)
        requires
            old(self).wf(),
            old(self)@.len() + buf@.len() <= usize::MAX,
        ensures
            final(self).wf(),
            final(self).chunks() == old(self).chunks().push(buf@),
            final(self)@ == old(self)@ + buf@,
    {
        self.account_new(buf.as_str());
        self.buffers.push_back(Buffer::new(buf));
        proof {
            assert(self.chunks() =~= old(self).chunks().push(buf@));
            old(self).chunks().lemma_flatten_push(buf@);
        }
    }

    /// Do we have at least n characters available?
    pub fn has(&mut self, n: usize) -> (r: bool)
        requires
            old(self).wf(),
        ensures
            r == (n <= old(self)@.len()),
            *final(self) == *old(self),
    {
        self.available >= n
    }

    /// Get multiple characters, if that many are available.
    pub fn pop_front(&mut self, n: usize) -> (r: Option<String>)
        requires
            old(self).wf(),
        ensures
            final(self).wf(),
            n > old(self)@.len() ==> r is None && *final(self) == *old(self),
            n <= old(self)@.len() ==> {
                &&& r is Some
                &&& r->0@ == old(self)@.take(n as int)
                &&& final(self)@ == old(self)@.skip(n as int)
                &&& final(self).chunks() == consumed(old(self).chunks(), n as nat)
            },
    {
        if !self.has(n) {
            return None;
        }
        let mut out = String::new();
        let mut i: usize = 0;
        proof {
            assert(old(self)@.take(0) =~= Seq::<char>::empty());
            assert(old(self)@.skip(0) =~= old(self)@);
        }
        while i < n
            invariant
                self.wf(),
                i <= n <= old(self)@.len(),
                out@ == old(self)@.take(i as int),
                self@ == old(self)@.skip(i as int),
                self.chunks() == consumed(old(self).chunks(), i as nat),
            decreases n - i,
        {
            let c = self.next().unwrap();
            out.push(c);
            proof {
                let all = old(self)@;
                assert(all.take(i as int).push(all[i as int]) =~= all.take(i + 1));
                assert(all.skip(i as int).drop_first() =~= all.skip(i + 1));
            }
            i += 1;
        }
        Some(out)
    }

    /// Look at the next available character, if any.
    pub fn peek(&mut self) -> (r: Option<char>)
        requires
            old(self).wf(),
        ensures
            final(self).wf(),
            final(self).chunks() == pruned(old(self).chunks()),
            final(self)@ == old(self)@,
            old(self)@.len() == 0 ==> r is None,
            old(self)@.len() > 0 ==> r == Some(old(self)@[0]),
    {
        self.drop_empty_buffers();
        proof {
            lemma_pruned(old(self).chunks());
        }
        if self.buffers.len() == 0 {
            None
        } else {
            assert(self.chunks()[0] == self.buffers@[0].rest());
            Some(self.buffers[0].peek_char())
        }
    }

    /// Pop either a single character or a run of "data" characters.
    /// See `DataRunOrChar` for what this means.
    ///
    /// The run is taken from the first chunk that has anything left and
    /// never reaches into the next one. A run of a single byte comes back
    /// as `OneChar`, as every trigger character does.
    pub fn pop_data(&mut self) -> (r: Option<DataRunOrChar>)
        requires
            old(self).wf(),
        ensures
            final(self).wf(),
            final(self).chunks() == after_data(old(self).chunks()),
            old(self)@.len() == 0 ==> r is None && final(self)@ == old(self)@,
            old(self)@.len() > 0 ==> {
                &&& r is Some
                &&& (r->0 is DataRun <==> run_bytes(pruned(old(self).chunks())[0]) > 1)
                &&& r->0.text() == data_piece(old(self).chunks())
                &&& r->0.text() + final(self)@ == old(self)@
                &&& r->0.text().len() > 0
            },
            r matches Some(DataRunOrChar::DataRun(s)) ==> forall|i: int|
                0 <= i < s@.len() ==> !is_trigger(#[trigger] s@[i]),
            r matches Some(DataRunOrChar::OneChar(c)) ==> is_trigger(c) || (c as u32) < 0x80,
    {
        self.drop_empty_buffers();
        proof {
            lemma_pruned(old(self).chunks());
        }
        match self.buffers.pop_front() {
            None => None,
            Some(mut b) => {
                let ghost p = pruned(old(self).chunks());
                proof {
                    assert(p[0] == b.rest());
                    lemma_taken(p[0]);
                    lemma_shortened(p, taken(p[0]) as int);
                }
                let out = b.take_data();
                let used: usize = match &out {
                    DataRunOrChar::DataRun(s) => s.as_str().unicode_len(),
                    DataRunOrChar::OneChar(_) => 1,
                };
                self.buffers.push_front(b);
                proof {
                    assert(self.chunks() =~= shortened(p, taken(p[0]) as int));
                }
                self.available -= used;
                Some(out)
            },
        }
    }

    /// Get the next character, if one is available.
    ///
    /// Because more data can arrive at any time, this can return Some(c) after
    /// it returns None.
    pub fn next(&mut self) -> (r: Option<char>)
        requires
            old(self).wf(),
        ensures
            final(self).wf(),
            final(self).chunks() == after_next(old(self).chunks()),
            old(self)@.len() == 0 ==> r is None && final(self)@ == old(self)@,
            old(self)@.len() > 0 ==> r == Some(old(self)@[0]) && final(self)@
                == old(self)@.drop_first(),
    {
        self.drop_empty_buffers();
        proof {
            lemma_pruned(old(self).chunks());
            lemma_after_next(old(self).chunks());
        }
        match self.buffers.pop_front() {
            None => None,
            Some(mut b) => {
                let ghost p = pruned(old(self).chunks());
                proof {
                    assert(p[0] == b.rest());
                }
                let c = b.peek_char();
                b.advance(c);
                self.buffers.push_front(b);
                proof {
                    assert(p[0].drop_first() =~= p[0].skip(1));
                    assert(self.chunks() =~= shortened(p, 1));
                }
                self.available -= 1;
                Some(c)
            },
        }
    }

    fn account_new(&mut self, buf: &str)
        requires
            old(self).count() + buf@.len() <= usize::MAX,
        ensures
            final(self).count() == old(self).count() + buf@.len(),
            final(self).buffers == old(self).buffers,
    {
        self.available += buf.unicode_len();
    }

    fn drop_empty_buffers(&mut self)
        requires
            old(self).wf(),
        ensures
            final(self).wf(),
            final(self).chunks() == pruned(old(self).chunks()),
            final(self)@ == old(self)@,
    {
        while self.buffers.len() > 0 && self.buffers[0].is_exhausted()
            invariant
                self.wf(),
                pruned(self.chunks()) == pruned(old(self).chunks()),
                self@ == old(self)@,
            ensures
                pruned(self.chunks()) == self.chunks(),
            decreases self.buffers@.len(),
        {
            let ghost before = self.chunks();
            self.buffers.pop_front();
            proof {
                assert(self.chunks() =~= before.drop_first());
                assert(before.flatten() =~= before.drop_first().flatten());
            }
        }
        proof {
            lemma_pruned(old(self).chunks());
        }
    }
}

} // verus!
