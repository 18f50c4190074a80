//! Work units exchanged between the solving server and its clients, and their
//! little-endian wire format.

use vstd::prelude::*;
use vstd::bytes::{
    spec_u32_from_le_bytes, spec_u32_to_le_bytes, spec_u64_from_le_bytes, spec_u64_to_le_bytes,
    u32_from_le_bytes, u32_to_le_bytes, u64_from_le_bytes, u64_to_le_bytes,
};

verus! {

/// The eight little-endian bytes of `x`.
pub open spec fn le8(x: u64) -> Seq<u8> {
    spec_u64_to_le_bytes(x)
}

/// The little-endian encoding of each word of `ws`, one after the other.
pub open spec fn encode_words(ws: Seq<u64>) -> Seq<u8>
    decreases ws.len(),
{
    if ws.len() == 0 {
        Seq::empty()
    } else {
        encode_words(ws.drop_last()) + le8(ws.last())
    }
}

/// The word stored little-endian in the eight bytes of `bytes` that start at `at`.
pub open spec fn word_at(bytes: Seq<u8>, at: int) -> u64 {
    spec_u64_from_le_bytes(bytes.subrange(at, at + 8))
}

/// The words stored little-endian in `bytes`, eight bytes each; a trailing
/// partial word is ignored.
pub open spec fn decode_words(bytes: Seq<u8>) -> Seq<u64> {
    Seq::new(bytes.len() / 8, |i: int| word_at(bytes, 8 * i))
}

pub proof fn lemma_encode_words_len(ws: Seq<u64>)
    ensures
        encode_words(ws).len() == 8 * ws.len(),
    decreases ws.len(),
{
    vstd::bytes::lemma_auto_spec_u64_to_from_le_bytes();
    if ws.len() > 0 {
        lemma_encode_words_len(ws.drop_last());
        assert(le8(ws.last()).len() == 8);
    }
}

pub proof fn lemma_encode_words_index(ws: Seq<u64>, i: int)
    requires
        0 <= i < ws.len(),
    ensures
        encode_words(ws).len() == 8 * ws.len(),
        encode_words(ws).subrange(8 * i, 8 * i + 8) == le8(ws[i]),
    decreases ws.len(),
{
    vstd::bytes::lemma_auto_spec_u64_to_from_le_bytes();
    lemma_encode_words_len(ws);
    lemma_encode_words_len(ws.drop_last());
    assert(le8(ws.last()).len() == 8);
    if i < ws.len() - 1 {
        lemma_encode_words_index(ws.drop_last(), i);
        assert(encode_words(ws).subrange(8 * i, 8 * i + 8) =~= encode_words(ws.drop_last()).subrange(8 * i, 8 * i + 8));
    } else {
        assert(encode_words(ws).subrange(8 * i, 8 * i + 8) =~= le8(ws.last()));
    }
}

/// Decoding the encoding of a sequence of words gives the words back.
pub proof fn lemma_decode_encode_words(ws: Seq<u64>)
    ensures
        decode_words(encode_words(ws)) == ws,
{
    vstd::bytes::lemma_auto_spec_u64_to_from_le_bytes();
    lemma_encode_words_len(ws);
    assert forall|i: int| 0 <= i < ws.len() implies #[trigger] decode_words(encode_words(ws))[i] == ws[i] by {
        lemma_encode_words_index(ws, i);
    }
    assert(decode_words(encode_words(ws)) =~= ws);
}


/// Copies the little-endian bytes of `x` into `buf` at `at`.
fn write_word(buf: &mut [u8], at: usize, x: u64)
    requires
        at + 8 <= old(buf)@.len(),
    ensures
        final(buf)@.len() == old(buf)@.len(),
        final(buf)@.subrange(at as int, at + 8) == le8(x),
        forall|k: int|
            0 <= k < old(buf)@.len() && !(at <= k < at + 8) ==> final(buf)@[k] == old(buf)@[k],
{
    let bytes = u64_to_le_bytes(x);
    let _n = buf.len();
    let mut j: usize = 0;
    while j < 8
        invariant
            j <= 8,
            at + 8 <= buf@.len(),
            buf@.len() <= usize::MAX,
            bytes@ == le8(x),
            bytes@.len() == 8,
            buf@.len() == old(buf)@.len(),
            forall|k: int| at <= k < at + j ==> buf@[k] == bytes@[k - at],
            forall|k: int|
                0 <= k < old(buf)@.len() && !(at <= k < at + j) ==> buf@[k] == old(buf)@[k],
        decreases 8 - j,
    {
        buf[at + j] = bytes[j];
        j += 1;
    }
    assert(buf@.subrange(at as int, at + 8) =~= le8(x));
}

/// Reads the little-endian word stored in `buf` at `at`.
fn read_word(buf: &[u8], at: usize) -> (x: u64)
    requires
        at + 8 <= buf@.len(),
    ensures
        x == word_at(buf@, at as int),
{
    let _n = buf.len();
    let s = vstd::slice::slice_subrange(buf, at, at + 8);
    u64_from_le_bytes(s)
}

/// Writes every word of `ws` into `buf`, starting at `at`.
fn write_words(buf: &mut [u8], at: usize, ws: &[u64])
    requires
        at + 8 * ws@.len() <= old(buf)@.len(),
    ensures
        final(buf)@.len() == old(buf)@.len(),
        final(buf)@.subrange(at as int, at + 8 * ws@.len()) == encode_words(ws@),
        forall|k: int|
            0 <= k < old(buf)@.len() && !(at <= k < at + 8 * ws@.len()) ==> final(buf)@[k]
                == old(buf)@[k],
{
    let _n = buf.len();
    let mut i: usize = 0;
    while i < ws.len()
        invariant
            i <= ws@.len(),
            buf@.len() <= usize::MAX,
            at + 8 * ws@.len() <= buf@.len(),
            buf@.len() == old(buf)@.len(),
            buf@.subrange(at as int, at + 8 * i) == encode_words(ws@.subrange(0, i as int)),
            forall|k: int|
                0 <= k < old(buf)@.len() && !(at <= k < at + 8 * i) ==> buf@[k] == old(buf)@[k],
        decreases ws@.len() - i,
    {
        let ghost before = buf@;
        write_word(buf, at + 8 * i, ws[i]);
        proof {
            let done = ws@.subrange(0, i as int);
            let next = ws@.subrange(0, i + 1);
            assert(next.drop_last() =~= done);
            lemma_encode_words_len(done);
            assert(buf@.subrange(at as int, at + 8 * i) =~= before.subrange(at as int, at + 8 * i));
            assert(buf@.subrange(at as int, at + 8 * (i + 1)) =~= buf@.subrange(at as int, at + 8 * i)
                + buf@.subrange(at + 8 * i, at + 8 * i + 8));
        }
        i += 1;
    }
    assert(ws@.subrange(0, ws@.len() as int) =~= ws@);
}

/// The tables and round count that identify one scheduling problem.
#[derive(Clone, Debug, PartialEq, Eq, Hash)]
pub struct ScheduleArg {
    tables: Vec<usize>,
    rounds: usize,
}

impl ScheduleArg {
    /// The size of each table.
    pub closed spec fn tables_spec(&self) -> Seq<usize> {
        self.tables@
    }

    /// The number of rounds.
    pub closed spec fn rounds_spec(&self) -> usize {
        self.rounds
    }

    pub fn new(tables: &[usize], rounds: usize) -> (r: Self)
        ensures
            r.tables_spec() == tables@,
            r.rounds_spec() == rounds,
    {
        Self { tables: vstd::slice::slice_to_vec(tables), rounds }
    }

    pub fn get_tables(&self) -> (r: &[usize])
        ensures
            r@ == self.tables_spec(),
    {
        self.tables.as_slice()
    }

    pub fn get_rounds(&self) -> (r: usize)
        ensures
            r == self.rounds_spec(),
    {
        self.rounds
    }
}

/// A length of time: whole seconds and the nanoseconds past them.
#[derive(Copy, Clone, Debug, Default, PartialEq, Eq, Structural)]
pub struct Elapsed {
    pub secs: u64,
    pub nanos: u32,
}

impl Elapsed {
    /// Whether the nanoseconds are below one second, as they always are once made.
    pub open spec fn wf(&self) -> bool {
        self.nanos < 1_000_000_000
    }

    /// The duration of `secs` seconds plus `nanos` nanoseconds; nanoseconds of a
    /// second or more are carried into the seconds.
    pub fn new(secs: u64, nanos: u32) -> (r: Self)
        requires
            secs + nanos / 1_000_000_000 <= u64::MAX,
        ensures
            r.wf(),
            r.secs == secs + nanos / 1_000_000_000,
            r.nanos == nanos % 1_000_000_000,
    {
        Self { secs: secs + (nanos / 1_000_000_000) as u64, nanos: nanos % 1_000_000_000 }
    }

    pub fn as_secs(&self) -> (r: u64)
        ensures
            r == self.secs,
    {
        self.secs
    }

    pub fn subsec_nanos(&self) -> (r: u32)
        ensures
            r == self.nanos,
    {
        self.nanos
    }
}

/// How much work a client did on one batch.
#[derive(Copy, Clone, Debug, Default, PartialEq, Eq, Structural)]
pub struct Stats {
    pub steps: u64,
    pub elapsed: Elapsed,
}

/// The identifier of one batch of solver work.
#[derive(Copy, Clone, Debug, Default, PartialEq, Eq, Hash, Structural)]
pub struct BatchId {
    pub(crate) id: u64,
}

impl BatchId {
    /// The number that the identifier holds.
    pub closed spec fn value(&self) -> u64 {
        self.id
    }

    pub fn new(id: u64) -> (r: Self)
        ensures
            r.value() == id,
    {
        Self { id }
    }

    pub fn get(&self) -> (r: u64)
        ensures
            r == self.value(),
    {
        self.id
    }
}

/// The solver buffer that one batch carries.
#[derive(Clone, Debug, Default, PartialEq, Eq, Hash)]
pub struct BatchData {
    data: Vec<u64>,
}

impl BatchData {
    /// The words of the buffer.
    pub closed spec fn words(&self) -> Seq<u64> {
        self.data@
    }

    pub fn new(data: Vec<u64>) -> (r: Self)
        ensures
            r.words() == data@,
    {
        Self { data }
    }

    pub fn get_ref(&self) -> (r: &[u64])
        ensures
            r@ == self.words(),
    {
        self.data.as_slice()
    }

    /// A buffer with the same words.
    pub fn duplicate(&self) -> (r: Self)
        ensures
            r.words() == self.words(),
    {
        let data = self.data.clone();
        proof {
            assert(data@ =~= self.data@);
        }
        Self { data }
    }
}

/// One batch: its identifier and its buffer.
#[derive(Clone, Debug, Default)]
pub struct Batch {
    id: BatchId,
    data: BatchData,
}

impl Batch {
    pub closed spec fn id_spec(&self) -> BatchId {
        self.id
    }

    pub closed spec fn data_spec(&self) -> BatchData {
        self.data
    }

    pub fn new(id: BatchId, data: BatchData) -> (r: Self)
        ensures
            r.id_spec() == id,
            r.data_spec() == data,
    {
        Self { id, data }
    }

    pub fn split(self) -> (r: (BatchId, BatchData))
        ensures
            r.0 == self.id_spec(),
            r.1 == self.data_spec(),
    {
        (self.id, self.data)
    }

    pub fn get_id(&self) -> (r: BatchId)
        ensures
            r == self.id_spec(),
    {
        self.id
    }

    pub fn get_data(&self) -> (r: &BatchData)
        ensures
            *r == self.data_spec(),
    {
        &self.data
    }

    /// A batch with the same identifier and words.
    pub fn duplicate(&self) -> (r: Self)
        ensures
            r.id_spec() == self.id_spec(),
            r.data_spec().words() == self.data_spec().words(),
    {
        Self { id: self.id, data: self.data.duplicate() }
    }
}


/// The four little-endian bytes of `x`.
pub open spec fn le4(x: u32) -> Seq<u8> {
    spec_u32_to_le_bytes(x)
}

/// The 32-bit word stored little-endian in the four bytes of `bytes` that start at `at`.
pub open spec fn word32_at(bytes: Seq<u8>, at: int) -> u32 {
    spec_u32_from_le_bytes(bytes.subrange(at, at + 4))
}

/// Decoding whole words of a byte range picks out the matching words.
pub proof fn lemma_decode_words_subrange(s: Seq<u8>, a: int, b: int)
    requires
        0 <= a <= b,
        8 * b <= s.len(),
    ensures
        decode_words(s.subrange(8 * a, 8 * b)) == decode_words(s).subrange(a, b),
{
    let l = s.subrange(8 * a, 8 * b);
    assert(l.len() / 8 == b - a) by (nonlinear_arith)
        requires l.len() == 8 * b - 8 * a;
    assert(s.len() / 8 >= b) by (nonlinear_arith)
        requires 8 * b <= s.len();
    assert forall|i: int| 0 <= i < b - a implies #[trigger] decode_words(l)[i] == decode_words(s)[a + i] by {
        assert(l.subrange(8 * i, 8 * i + 8) =~= s.subrange(8 * (a + i), 8 * (a + i) + 8));
    }
    assert(decode_words(l) =~= decode_words(s).subrange(a, b));
}

/// A batch as sent to a client: identifier, word count, then the words.
pub open spec fn encode_batch(id: u64, data: Seq<u64>) -> Seq<u8> {
    le8(id) + le8(data.len() as u64) + encode_words(data)
}

/// The bytes `serialize` writes for a batch result.
pub open spec fn encode_output(
    base: u64,
    children: Seq<u64>,
    notable: Seq<u64>,
    steps: u64,
    secs: u64,
    nanos: u32,
) -> Seq<u8> {
    le8(base) + le8(children.len() as u64) + le8(notable.len() as u64) + le8(steps) + le8(secs)
        + le4(nanos) + encode_words(children) + encode_words(notable)
}

/// The reason a conversion to or from bytes failed: the buffer is too short.
#[derive(Debug)]
pub struct ConvertError {}

/// A batch ready to be written out as bytes.
pub struct BatchSerialize<'a> {
    id: BatchId,
    data: &'a [u64],
}

impl<'a> BatchSerialize<'a> {
    pub closed spec fn id_spec(&self) -> u64 {
        self.id.id
    }

    pub closed spec fn data_spec(&self) -> Seq<u64> {
        self.data@
    }

    /// The number of bytes of the encoding.
    pub open spec fn size_spec(&self) -> int {
        16 + 8 * (self.data_spec().len() as int)
    }

    pub fn new(id: BatchId, data: &'a [u64]) -> (r: Self)
        ensures
            r.id_spec() == id.value(),
            r.data_spec() == data@,
    {
        Self { id, data }
    }

    pub fn get_size(&self) -> (r: usize)
        requires
            self.size_spec() <= usize::MAX,
        ensures
            r == self.size_spec(),
    {
        16 + self.data.len() * 8
    }

    /// Writes the encoding at the start of `buf`; fails, leaving `buf` as it
    /// was, when `buf` is too short.
    pub fn serialize(&self, buf: &mut [u8]) -> (r: Result<(), ConvertError>)
        requires
            self.size_spec() <= usize::MAX,
        ensures
            r is Ok <==> old(buf)@.len() >= self.size_spec(),
            r is Ok ==> final(buf)@ == encode_batch(self.id_spec(), self.data_spec())
                + old(buf)@.subrange(self.size_spec(), old(buf)@.len() as int),
            r is Err ==> final(buf)@ == old(buf)@,
    {
        if buf.len() >= self.get_size() {
            let ghost old_buf = buf@;
            write_word(buf, 0, self.id.id);
            write_word(buf, 8, self.data.len() as u64);
            write_words(buf, 16, self.data);
            proof {
                let n = buf@.len() as int;
                let size = self.size_spec();
                lemma_encode_words_len(self.data@);
                vstd::bytes::lemma_auto_spec_u64_to_from_le_bytes();
                assert(buf@ =~= buf@.subrange(0, 8) + buf@.subrange(8, 16) + buf@.subrange(16, size)
                    + buf@.subrange(size, n));
                assert(buf@.subrange(size, n) =~= old_buf.subrange(size, n));
            }
            Ok(())
        } else {
            Err(ConvertError {})
        }
    }
}

/// A batch read from bytes; its words stay encoded until read.
pub struct BatchDeserialize<'a> {
    id: BatchId,
    data: &'a [u8],
}

impl<'a> BatchDeserialize<'a> {
    pub closed spec fn id_spec(&self) -> u64 {
        self.id.id
    }

    /// The encoded words of the batch.
    pub closed spec fn bytes_spec(&self) -> Seq<u8> {
        self.data@
    }

    /// Reads a batch: identifier, word count, then that many words. Fails when
    /// `buf` is shorter than the header or than the words it announces.
    pub fn deserialize(buf: &'a [u8]) -> (r: Result<Self, ConvertError>)
        ensures
            r is Ok <==> buf@.len() >= 16 && buf@.len() >= 16 + 8 * word_at(buf@, 8),
            r matches Ok(d) ==> d.id_spec() == word_at(buf@, 0) && d.bytes_spec() == buf@.subrange(
                16,
                16 + 8 * word_at(buf@, 8),
            ),
    {
        if buf.len() >= 16 {
            let id = read_word(buf, 0);
            let announced: u128 = read_word(buf, 8) as u128 * 8;
            if buf.len() as u128 >= 16 + announced {
                let len = announced as usize;
                return Ok(
                    Self {
                        id: BatchId::new(id),
                        data: vstd::slice::slice_subrange(buf, 16, 16 + len),
                    },
                );
            }
        }
        Err(ConvertError {})
    }

    pub fn get_id(&self) -> (r: BatchId)
        ensures
            r.value() == self.id_spec(),
    {
        self.id
    }

    /// The number of words in the batch.
    pub fn get_length(&self) -> (r: usize)
        ensures
            r == self.bytes_spec().len() / 8,
    {
        self.data.len() / 8
    }

    pub fn get_data(&self) -> (r: InnerBlockIter<'a>)
        ensures
            r.wf(),
            r.remaining() == decode_words(self.bytes_spec()),
    {
        InnerBlockIter::new(self.data)
    }
}

/// Walks the little-endian words of a byte buffer.
pub struct InnerBlockIter<'a> {
    data: &'a [u8],
    pos: usize,
}

impl<'a> InnerBlockIter<'a> {
    /// The words not yet handed out.
    pub closed spec fn remaining(&self) -> Seq<u64> {
        decode_words(self.data@.subrange(self.pos as int, self.data@.len() as int))
    }

    pub closed spec fn wf(&self) -> bool {
        self.pos <= self.data@.len()
    }

    pub fn new(data: &'a [u8]) -> (r: Self)
        ensures
            r.wf(),
            r.remaining() == decode_words(data@),
    {
        let r = Self { data, pos: 0 };
        assert(data@.subrange(0, data@.len() as int) =~= data@);
        r
    }

    /// The next word, if a whole one is left.
    pub fn next(&mut self) -> (r: Option<u64>)
        requires
            old(self).wf(),
        ensures
            final(self).wf(),
            old(self).remaining().len() == 0 ==> r is None && final(self).remaining() == old(self).remaining(),
            old(self).remaining().len() > 0 ==> r == Some(old(self).remaining()[0]) && final(self).remaining() == old(self).remaining().drop_first(),
    {
        let _n = self.data.len();
        if self.data.len() - self.pos >= 8 {
            let x = read_word(self.data, self.pos);
            proof {
                let rest = self.data@.subrange(self.pos as int, self.data@.len() as int);
                assert(rest.subrange(0, 8) =~= self.data@.subrange(self.pos as int, self.pos + 8));
                let k: int = rest.len() as int / 8;
                assert(k >= 1);
                assert(8 * k <= rest.len()) by (nonlinear_arith)
                    requires k == rest.len() / 8;
                lemma_decode_words_subrange(rest, 1, k);
                let tail = self.data@.subrange(self.pos + 8, self.data@.len() as int);
                assert(tail.len() / 8 == k - 1);
                assert(tail.subrange(0, 8 * (k - 1)) =~= rest.subrange(8, 8 * k));
                assert(8 * (k - 1) <= tail.len());
                lemma_decode_words_subrange(tail, 0, k - 1);
                assert(tail.subrange(0, 8 * (k - 1)).len() == 8 * (k - 1));
                assert(decode_words(tail) =~= decode_words(tail).subrange(0, k - 1));
                assert(decode_words(rest).drop_first() =~= decode_words(rest).subrange(1, k));
            }
            self.pos = self.pos + 8;
            Some(x)
        } else {
            None
        }
    }

    /// All the remaining words, in order.
    pub fn collect_words(&mut self) -> (r: Vec<u64>)
        requires
            old(self).wf(),
        ensures
            r@ == old(self).remaining(),
            final(self).wf(),
            final(self).remaining().len() == 0,
    {
        let mut out: Vec<u64> = Vec::new();
        loop
            invariant
                self.wf(),
                out@ + self.remaining() == old(self).remaining(),
            decreases self.remaining().len(),
        {
            let ghost before = self.remaining();
            match self.next() {
                Some(x) => {
                    out.push(x);
                    assert(out@ + self.remaining() =~= old(self).remaining()) by {
                        assert(before =~= seq![x] + before.drop_first());
                    }
                },
                None => {
                    assert(out@ =~= old(self).remaining());
                    return out;
                },
            }
        }
    }
}

/// Walks the blocks of a byte buffer, each block a run of words of one fixed
/// count; a trailing partial block is ignored.
pub struct BlockIter<'a> {
    data: &'a [u8],
    block_words: usize,
    pos: usize,
}

impl<'a> BlockIter<'a> {
    pub closed spec fn wf(&self) -> bool {
        &&& self.block_words > 0
        &&& 8 * self.block_words <= usize::MAX
        &&& self.pos <= self.data@.len()
    }

    pub closed spec fn block_words_spec(&self) -> nat {
        self.block_words as nat
    }

    /// The number of whole blocks not yet handed out.
    pub closed spec fn blocks_left(&self) -> nat {
        ((self.data@.len() - self.pos) / (8 * self.block_words)) as nat
    }

    /// The words of the whole blocks not yet handed out.
    pub closed spec fn words(&self) -> Seq<u64> {
        decode_words(
            self.data@.subrange(
                self.pos as int,
                self.pos + self.blocks_left() * (8 * self.block_words),
            ),
        )
    }

    /// Blocks of `block_words` words each, read from `data`.
    pub fn new(data: &'a [u8], block_words: usize) -> (r: Self)
        requires
            block_words > 0,
            8 * block_words <= usize::MAX,
        ensures
            r.wf(),
            r.block_words_spec() == block_words,
            r.words() == decode_words(
                data@.subrange(0, (data@.len() as int / (8 * block_words as int)) * (8 * block_words as int)),
            ),
    {
        Self { data, block_words, pos: 0 }
    }

    /// The next whole block, as a walk over its words.
    pub fn next(&mut self) -> (r: Option<InnerBlockIter<'a>>)
        requires
            old(self).wf(),
        ensures
            final(self).wf(),
            final(self).block_words_spec() == old(self).block_words_spec(),
            old(self).words().len() == old(self).blocks_left() * old(self).block_words_spec(),
            old(self).blocks_left() > 0 ==> old(self).words().len() >= old(self).block_words_spec(),
            old(self).blocks_left() == 0 ==> r is None && final(self).words() == old(self).words(),
            old(self).blocks_left() > 0 ==> (r matches Some(it) && it.wf() && it.remaining()
                == old(self).words().subrange(0, old(self).block_words_spec() as int)),
            old(self).blocks_left() > 0 ==> final(self).words() == old(self).words().subrange(
                old(self).block_words_spec() as int,
                old(self).words().len() as int,
            ) && final(self).blocks_left() == old(self).blocks_left() - 1,
    {
        let _n = self.data.len();
        let chunk = 8 * self.block_words;
        proof {
            let left = self.data@.len() - self.pos;
            let b = self.block_words as int;
            let k = self.blocks_left() as int;
            assert(k * (8 * b) <= left) by (nonlinear_arith)
                requires k == left / (8 * b), b > 0, left >= 0;
            assert(k * (8 * b) == 8 * (k * b)) by (nonlinear_arith);
            assert(k * b >= 0) by (nonlinear_arith) requires k >= 0, b > 0;
            assert((8 * (k * b)) / 8 == k * b);
            assert(k > 0 ==> k * b >= b) by (nonlinear_arith) requires k >= 0, b > 0;
        }
        if self.data.len() - self.pos >= chunk {
            let ghost k = self.blocks_left();
            let ghost b = self.block_words as int;
            let ghost rest = self.data@.subrange(self.pos as int, self.pos + k * (8 * b));
            proof {
                let left = self.data@.len() - self.pos;
                assert(k >= 1) by (nonlinear_arith)
                    requires k == left / (8 * b), left >= 8 * b, b > 0;
                assert(k * (8 * b) <= left) by (nonlinear_arith)
                    requires k == left / (8 * b), b > 0, left >= 0;
                assert((left - 8 * b) / (8 * b) == k - 1) by (nonlinear_arith)
                    requires k == left / (8 * b), b > 0, left >= 8 * b;
                assert(k * (8 * b) == 8 * (k * b)) by (nonlinear_arith);
                assert((k - 1) * (8 * b) == 8 * ((k - 1) * b)) by (nonlinear_arith);
                assert(k * b == b + (k - 1) * b) by (nonlinear_arith);
                assert(k * b >= b) by (nonlinear_arith) requires k >= 1, b > 0;
                lemma_decode_words_subrange(rest, 0, b);
                lemma_decode_words_subrange(rest, b, k * b);
                assert(rest.subrange(0, 8 * b) =~= self.data@.subrange(self.pos as int, self.pos + 8 * b));
                assert(rest.subrange(8 * b, 8 * (k * b)) =~= self.data@.subrange(
                    self.pos + 8 * b,
                    self.pos + 8 * b + (k - 1) * (8 * b),
                ));
                assert(rest.len() == 8 * (k * b));
                assert(rest.len() / 8 == k * b);
                assert(self.data@.subrange(self.pos as int, self.pos + 8 * b).len() / 8 == b);
            }
            let block = vstd::slice::slice_subrange(self.data, self.pos, self.pos + chunk);
            let it = InnerBlockIter::new(block);
            self.pos = self.pos + chunk;
            proof {
                assert(it.remaining() =~= decode_words(block@));
            }
            Some(it)
        } else {
            proof {
                let left = self.data@.len() - self.pos;
                let b = self.block_words as int;
                assert(left / (8 * b) == 0) by (nonlinear_arith)
                    requires 0 <= left < 8 * b;
            }
            None
        }
    }

    /// The words of all remaining whole blocks, one block after the other.
    pub fn flatten(&mut self) -> (r: Vec<u64>)
        requires
            old(self).wf(),
        ensures
            r@ == old(self).words(),
            final(self).wf(),
    {
        let mut out: Vec<u64> = Vec::new();
        loop
            invariant
                self.wf(),
                self.block_words_spec() == old(self).block_words_spec(),
                out@ + self.words() == old(self).words(),
            decreases self.blocks_left(),
        {
            let ghost before = self.words();
            match self.next() {
                Some(mut it) => {
                    let mut block = it.collect_words();
                    let ghost bw = self.block_words_spec() as int;
                    out.append(&mut block);
                    assert(out@ + self.words() =~= old(self).words()) by {
                        assert(before =~= before.subrange(0, bw) + before.subrange(bw, before.len() as int));
                    }
                },
                None => {
                    assert(out@ =~= old(self).words());
                    return out;
                },
            }
        }
    }
}


/// Copies the little-endian bytes of the 32-bit `x` into `buf` at `at`.
fn write_word32(buf: &mut [u8], at: usize, x: u32)
    requires
        at + 4 <= old(buf)@.len(),
    ensures
        final(buf)@.len() == old(buf)@.len(),
        final(buf)@.subrange(at as int, at + 4) == le4(x),
        forall|k: int|
            0 <= k < old(buf)@.len() && !(at <= k < at + 4) ==> final(buf)@[k] == old(buf)@[k],
{
    let bytes = u32_to_le_bytes(x);
    let _n = buf.len();
    let mut j: usize = 0;
    while j < 4
        invariant
            j <= 4,
            at + 4 <= buf@.len(),
            buf@.len() <= usize::MAX,
            bytes@ == le4(x),
            bytes@.len() == 4,
            buf@.len() == old(buf)@.len(),
            forall|k: int| at <= k < at + j ==> buf@[k] == bytes@[k - at],
            forall|k: int|
                0 <= k < old(buf)@.len() && !(at <= k < at + j) ==> buf@[k] == old(buf)@[k],
        decreases 4 - j,
    {
        buf[at + j] = bytes[j];
        j += 1;
    }
    assert(buf@.subrange(at as int, at + 4) =~= le4(x));
}

/// Reads the little-endian 32-bit word stored in `buf` at `at`.
fn read_word32(buf: &[u8], at: usize) -> (x: u32)
    requires
        at + 4 <= buf@.len(),
    ensures
        x == word32_at(buf@, at as int),
{
    let _n = buf.len();
    let s = vstd::slice::slice_subrange(buf, at, at + 4);
    u32_from_le_bytes(s)
}

/// The result of working on one batch: the batch it came from, the buffers that
/// the work left to explore, buffers worth noting, and how much work was done.
#[derive(Debug)]
pub struct BatchOutputSerialize<'a> {
    base: BatchId,
    block_size: usize,
    children: &'a [u64],
    notable: &'a [u64],
    stats: Stats,
}

impl<'a> BatchOutputSerialize<'a> {
    pub closed spec fn base_spec(&self) -> u64 {
        self.base.id
    }

    pub closed spec fn children_spec(&self) -> Seq<u64> {
        self.children@
    }

    pub closed spec fn notable_spec(&self) -> Seq<u64> {
        self.notable@
    }

    pub closed spec fn stats_spec(&self) -> Stats {
        self.stats
    }

    pub closed spec fn block_size_spec(&self) -> usize {
        self.block_size
    }

    /// The number of bytes of the encoding.
    pub open spec fn size_spec(&self) -> int {
        44 + 8 * (self.children_spec().len() as int + self.notable_spec().len() as int)
    }

    /// The encoding.
    pub open spec fn encoding(&self) -> Seq<u8> {
        encode_output(
            self.base_spec(),
            self.children_spec(),
            self.notable_spec(),
            self.stats_spec().steps,
            self.stats_spec().elapsed.secs,
            self.stats_spec().elapsed.nanos,
        )
    }

    pub fn new(
        base: BatchId,
        block_size: usize,
        children: &'a [u64],
        notable: &'a [u64],
        stats: Stats,
    ) -> (r: Self)
        ensures
            r.base_spec() == base.value(),
            r.block_size_spec() == block_size,
            r.children_spec() == children@,
            r.notable_spec() == notable@,
            r.stats_spec() == stats,
    {
        Self { base, block_size, children, notable, stats }
    }

    pub fn get_size(&self) -> (r: usize)
        requires
            self.size_spec() <= usize::MAX,
        ensures
            r == self.size_spec(),
    {
        44 + (self.children.len() + self.notable.len()) * 8
    }

    /// Writes the encoding at the start of `buf`; fails, leaving `buf` as it
    /// was, when `buf` is too short.
    pub fn serialize(&self, buf: &mut [u8]) -> (r: Result<(), ConvertError>)
        requires
            self.size_spec() <= usize::MAX,
        ensures
            r is Ok <==> old(buf)@.len() >= self.size_spec(),
            r is Ok ==> final(buf)@ == self.encoding() + old(buf)@.subrange(
                self.size_spec(),
                old(buf)@.len() as int,
            ),
            r is Err ==> final(buf)@ == old(buf)@,
    {
        if buf.len() >= self.get_size() {
            let ghost old_buf = buf@;
            let c = self.children.len();
            write_word(buf, 0, self.base.id);
            write_word(buf, 8, c as u64);
            write_word(buf, 16, self.notable.len() as u64);
            write_word(buf, 24, self.stats.steps);
            write_word(buf, 32, self.stats.elapsed.as_secs());
            write_word32(buf, 40, self.stats.elapsed.subsec_nanos());
            write_words(buf, 44, self.children);
            write_words(buf, 44 + c * 8, self.notable);
            proof {
                let n = buf@.len() as int;
                let size = self.size_spec();
                let m = 44 + 8 * c;
                lemma_encode_words_len(self.children@);
                lemma_encode_words_len(self.notable@);
                vstd::bytes::lemma_auto_spec_u64_to_from_le_bytes();
                vstd::bytes::lemma_auto_spec_u32_to_from_le_bytes();
                assert(buf@ =~= buf@.subrange(0, 8) + buf@.subrange(8, 16) + buf@.subrange(16, 24)
                    + buf@.subrange(24, 32) + buf@.subrange(32, 40) + buf@.subrange(40, 44)
                    + buf@.subrange(44, m) + buf@.subrange(m, size) + buf@.subrange(size, n));
                assert(buf@.subrange(size, n) =~= old_buf.subrange(size, n));
            }
            Ok(())
        } else {
            Err(ConvertError {})
        }
    }
}

/// A batch result read from bytes; the buffers stay encoded until read.
#[derive(Debug)]
pub struct BatchOutputDeserialize<'a> {
    base: BatchId,
    block_size: usize,
    children: &'a [u8],
    notable: &'a [u8],
    stats: Stats,
}

/// The number of children announced in an encoded batch result.
pub open spec fn announced_children(data: Seq<u8>) -> int {
    word_at(data, 8) as int
}

/// The number of notable buffers announced in an encoded batch result.
pub open spec fn announced_notable(data: Seq<u8>) -> int {
    word_at(data, 16) as int
}

/// The time in an encoded batch result, as `Elapsed::new` makes it of the seconds
/// and nanoseconds read.
pub open spec fn decoded_elapsed(data: Seq<u8>) -> Elapsed {
    Elapsed {
        secs: (word_at(data, 32) + word32_at(data, 40) / 1_000_000_000) as u64,
        nanos: (word32_at(data, 40) % 1_000_000_000) as u32,
    }
}

/// Whether the time read from an encoded batch result fits a `u64` of seconds,
/// once its whole seconds of nanoseconds are carried.
pub open spec fn output_fits(data: Seq<u8>) -> bool {
    data.len() >= 44 ==> word_at(data, 32) + word32_at(data, 40) / 1_000_000_000 <= u64::MAX
}

impl<'a> BatchOutputDeserialize<'a> {
    pub closed spec fn base_spec(&self) -> u64 {
        self.base.id
    }

    pub closed spec fn children_bytes(&self) -> Seq<u8> {
        self.children@
    }

    pub closed spec fn notable_bytes(&self) -> Seq<u8> {
        self.notable@
    }

    pub closed spec fn stats_spec(&self) -> Stats {
        self.stats
    }

    pub closed spec fn block_size_spec(&self) -> usize {
        self.block_size
    }

    /// Reads a batch result. Fails when `data` is shorter than the header or
    /// than the buffers it announces.
    pub fn deserialize(block_size: usize, data: &'a [u8]) -> (r: Result<Self, ConvertError>)
        requires
            output_fits(data@),
        ensures
            r is Ok <==> data@.len() >= 44 && 44 + 8 * (announced_children(data@)
                + announced_notable(data@)) <= data@.len(),
            r matches Ok(d) ==> {
                let c = announced_children(data@);
                let n = announced_notable(data@);
                &&& d.base_spec() == word_at(data@, 0)
                &&& d.block_size_spec() == block_size
                &&& d.children_bytes() == data@.subrange(44, 44 + 8 * c)
                &&& d.notable_bytes() == data@.subrange(44 + 8 * c, 44 + 8 * c + 8 * n)
                &&& d.stats_spec().steps == word_at(data@, 24)
                &&& d.stats_spec().elapsed == decoded_elapsed(data@)
            },
    {
        if data.len() < 44 {
            return Err(ConvertError {});
        }
        let id = read_word(data, 0);
        let children_length = read_word(data, 8);
        let notable_length = read_word(data, 16);
        let steps = read_word(data, 24);
        let secs = read_word(data, 32);
        let nanos = read_word32(data, 40);
        let total: u128 = (children_length as u128 + notable_length as u128) * 8 + 44;
        if total > data.len() as u128 {
            return Err(ConvertError {});
        }
        let total_length = total as usize;
        let children_end = 44 + children_length as usize * 8;
        let children = vstd::slice::slice_subrange(data, 44, children_end);
        let notable = vstd::slice::slice_subrange(data, children_end, total_length);
        Ok(
            Self {
                base: BatchId::new(id),
                block_size,
                children,
                notable,
                stats: Stats { steps, elapsed: Elapsed::new(secs, nanos) },
            },
        )
    }

    pub fn get_base(&self) -> (r: BatchId)
        ensures
            r.value() == self.base_spec(),
    {
        self.base
    }

    /// The children, one buffer of `block_size` words at a time.
    pub fn get_children(&self) -> (r: BlockIter<'a>)
        requires
            self.block_size_spec() > 0,
            8 * self.block_size_spec() <= usize::MAX,
        ensures
            r.wf(),
            r.block_words_spec() == self.block_size_spec(),
            r.words() == decode_words(
                self.children_bytes().subrange(
                    0,
                    (self.children_bytes().len() as int / (8 * self.block_size_spec() as int)) * (8
                        * self.block_size_spec() as int),
                ),
            ),
    {
        BlockIter::new(self.children, self.block_size)
    }

    /// The notable buffers, one buffer of `block_size` words at a time.
    pub fn get_notable(&self) -> (r: BlockIter<'a>)
        requires
            self.block_size_spec() > 0,
            8 * self.block_size_spec() <= usize::MAX,
        ensures
            r.wf(),
            r.block_words_spec() == self.block_size_spec(),
            r.words() == decode_words(
                self.notable_bytes().subrange(
                    0,
                    (self.notable_bytes().len() as int / (8 * self.block_size_spec() as int)) * (8
                        * self.block_size_spec() as int),
                ),
            ),
    {
        BlockIter::new(self.notable, self.block_size)
    }

    pub fn get_stats(&self) -> (r: Stats)
        ensures
            r == self.stats_spec(),
    {
        self.stats
    }
}


/// Reading back a batch written by `BatchSerialize::serialize` (followed by any
/// bytes) gives its identifier and its words.
pub proof fn lemma_batch_roundtrip(id: u64, data: Seq<u64>, extra: Seq<u8>)
    requires
        data.len() <= u64::MAX,
    ensures
        ({
            let bytes = encode_batch(id, data) + extra;
            &&& bytes.len() >= 16
            &&& word_at(bytes, 0) == id
            &&& word_at(bytes, 8) == data.len()
            &&& bytes.len() >= 16 + 8 * data.len()
            &&& decode_words(bytes.subrange(16, 16 + 8 * (data.len() as int))) == data
        }),
{
    vstd::bytes::lemma_auto_spec_u64_to_from_le_bytes();
    lemma_encode_words_len(data);
    let bytes = encode_batch(id, data) + extra;
    assert(bytes.subrange(0, 8) =~= le8(id));
    assert(bytes.subrange(8, 16) =~= le8(data.len() as u64));
    assert(bytes.subrange(16, 16 + 8 * (data.len() as int)) =~= encode_words(data));
    lemma_decode_encode_words(data);
}

/// Reading back a batch result written by `BatchOutputSerialize::serialize`
/// (followed by any bytes) gives its base, its buffers, and its statistics.
pub proof fn lemma_output_roundtrip(
    base: u64,
    children: Seq<u64>,
    notable: Seq<u64>,
    steps: u64,
    secs: u64,
    nanos: u32,
    extra: Seq<u8>,
)
    requires
        children.len() <= u64::MAX,
        notable.len() <= u64::MAX,
    ensures
        ({
            let bytes = encode_output(base, children, notable, steps, secs, nanos) + extra;
            let c = children.len() as int;
            let n = notable.len() as int;
            &&& bytes.len() >= 44 + 8 * (c + n)
            &&& word_at(bytes, 0) == base
            &&& announced_children(bytes) == c
            &&& announced_notable(bytes) == n
            &&& word_at(bytes, 24) == steps
            &&& word_at(bytes, 32) == secs
            &&& word32_at(bytes, 40) == nanos
            &&& decode_words(bytes.subrange(44, 44 + 8 * c)) == children
            &&& decode_words(bytes.subrange(44 + 8 * c, 44 + 8 * c + 8 * n)) == notable
            &&& nanos < 1_000_000_000 ==> decoded_elapsed(bytes) == Elapsed { secs, nanos }
        }),
{
    vstd::bytes::lemma_auto_spec_u64_to_from_le_bytes();
    vstd::bytes::lemma_auto_spec_u32_to_from_le_bytes();
    lemma_encode_words_len(children);
    lemma_encode_words_len(notable);
    let bytes = encode_output(base, children, notable, steps, secs, nanos) + extra;
    let c = children.len() as int;
    let n = notable.len() as int;
    assert(bytes.subrange(0, 8) =~= le8(base));
    assert(bytes.subrange(8, 16) =~= le8(c as u64));
    assert(bytes.subrange(16, 24) =~= le8(n as u64));
    assert(bytes.subrange(24, 32) =~= le8(steps));
    assert(bytes.subrange(32, 40) =~= le8(secs));
    assert(bytes.subrange(40, 44) =~= le4(nanos));
    assert(bytes.subrange(44, 44 + 8 * c) =~= encode_words(children));
    assert(bytes.subrange(44 + 8 * c, 44 + 8 * c + 8 * n) =~= encode_words(notable));
    lemma_decode_encode_words(children);
    lemma_decode_encode_words(notable);
}

impl<'a> BatchDeserialize<'a> {
    /// Whether reading `buf` stays within the machine's numbers: the length
    /// it announces, in bytes, fits a `usize`.
    pub fn fits(buf: &[u8]) -> (r: bool)
        ensures
            r == (buf@.len() >= 16 ==> 16 + 8 * word_at(buf@, 8) <= usize::MAX),
    {
        if buf.len() < 16 {
            return true;
        }
        let n = read_word(buf, 8) as u128;
        16 + 8 * n <= usize::MAX as u128
    }
}

impl<'a> BatchOutputDeserialize<'a> {
    /// Whether reading `data` stays within the machine's numbers: its whole
    /// seconds do not overflow when the nanoseconds are carried.
    pub fn fits(data: &[u8]) -> (r: bool)
        ensures
            r == output_fits(data@),
    {
        if data.len() < 44 {
            return true;
        }
        let secs = read_word(data, 32) as u128;
        let nanos = read_word32(data, 40) as u128;
        secs + nanos / 1_000_000_000 <= u64::MAX as u128
    }
}

} // verus!
