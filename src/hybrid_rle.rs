//! The hybrid run-length / bit-packed encoding of a sequence of small
//! integers: a stream of runs, each either one value repeated (a ULEB128
//! header `count << 1`, then the value in `ceil8(bit_width)` little-endian
//! bytes) or a group of literal values packed at `bit_width` bits each (a
//! header `(ceil8(count) << 1) | 1`, then the values padded with zeros to a
//! multiple of eight).
use vstd::prelude::*;
use crate::bitpacked::{
    digits,
    lane_of,
    lanes_u8,
    le_value,
    lemma_unpack_pack,
    lemma_value_of_digits,
    lanes_fit,
    lanes_u32,
    packed_bytes,
    pack32,
    two_to,
    lemma_packed_bytes_concat,
};
use vstd::arithmetic::power2::{pow2, lemma2_to64, lemma_pow2_adds, lemma_pow2_pos};
use vstd::arithmetic::div_mod::lemma_div_denominator;

verus! {

/// Upper bound on the values buffered for one bit-packed run.
pub const MAX_VALUES_PER_LITERAL_RUN: usize = 8192;

/// Values per call of the 32-lane packing kernel.
const U32_BLOCK_LEN: usize = 32;

/// Number of bytes, or groups of eight, that `n` bits, or values, take.
pub open spec fn ceil8(n: int) -> int {
    (n + 7) / 8
}

/// The ULEB128 encoding of `x`: seven bits per byte, least significant
/// first, the high bit set on every byte but the last.
pub open spec fn uleb_bytes(x: nat) -> Seq<u8>
    decreases x,
{
    if x < 128 {
        seq![x as u8]
    } else {
        seq![(x % 128 + 128) as u8] + uleb_bytes(x / 128)
    }
}

/// The first `k` little-endian bytes of `v`.
pub open spec fn le_bytes(v: int, k: int) -> Seq<u8> {
    Seq::new(k as nat, |j: int| ((v / two_to(8 * j)) % 256) as u8)
}

/// `s` followed by zeros up to a multiple of eight values.
pub open spec fn pad8(s: Seq<int>) -> Seq<int> {
    s + Seq::new((ceil8(s.len() as int) * 8 - s.len()) as nat, |i: int| 0int)
}

/// One run of the hybrid encoding.
pub enum HybridRun {
    /// `value`, `count` times.
    Repeated { count: nat, value: int },
    /// Literal values, bit-packed.
    BitPacked { values: Seq<int> },
}

/// The bytes of one run.
pub open spec fn run_bytes(run: HybridRun, bits: nat) -> Seq<u8> {
    match run {
        HybridRun::Repeated { count, value } => uleb_bytes(2 * count) + le_bytes(
            value,
            ceil8(bits as int),
        ),
        HybridRun::BitPacked { values } => uleb_bytes(
            (2 * ceil8(values.len() as int) + 1) as nat,
        ) + packed_bytes(pad8(values), bits),
    }
}

/// The values one run stands for.
pub open spec fn run_values(run: HybridRun) -> Seq<int> {
    match run {
        HybridRun::Repeated { count, value } => Seq::new(count, |i: int| value),
        HybridRun::BitPacked { values } => values,
    }
}

pub open spec fn runs_bytes(runs: Seq<HybridRun>, bits: nat) -> Seq<u8>
    decreases runs.len(),
{
    if runs.len() == 0 {
        Seq::empty()
    } else {
        runs_bytes(runs.drop_last(), bits) + run_bytes(runs.last(), bits)
    }
}

pub open spec fn runs_values(runs: Seq<HybridRun>) -> Seq<int>
    decreases runs.len(),
{
    if runs.len() == 0 {
        Seq::empty()
    } else {
        runs_values(runs.drop_last()) + run_values(runs.last())
    }
}

/// A repeated run is longer than eight values; a bit-packed run holds
/// between one and the buffer's capacity of values, a multiple of eight
/// unless it is the stream's last run.
pub open spec fn runs_ok(runs: Seq<HybridRun>) -> bool {
    forall|i: int|
        0 <= i < runs.len() ==> match #[trigger] runs[i] {
            HybridRun::Repeated { count, .. } => count > 8,
            HybridRun::BitPacked { values } => {
                &&& 0 < values.len() <= MAX_VALUES_PER_LITERAL_RUN
                &&& (i < runs.len() - 1 ==> values.len() % 8 == 0)
            },
        }
}

/// `bytes` is a hybrid encoding of `values` at `bits` bits per value.
pub open spec fn is_hybrid_encoding(bytes: Seq<u8>, values: Seq<int>, bits: nat) -> bool {
    exists|runs: Seq<HybridRun>|
        runs_ok(runs) && runs_values(runs) == values && bytes == runs_bytes(runs, bits)
}

/// Appends the ULEB128 encoding of `x`.
fn uleb128_encode(x: u64, writer: &mut Vec<u8>)
    ensures
        final(writer)@ == old(writer)@ + uleb_bytes(x as nat),
    decreases x,
{
    if x < 128 {
        writer.push(x as u8);
        assert(writer@ =~= old(writer)@ + uleb_bytes(x as nat));
    } else {
        writer.push((x % 128 + 128) as u8);
        uleb128_encode(x / 128, writer);
        assert(writer@ =~= old(writer)@ + uleb_bytes(x as nat));
    }
}

/// Appends `src[0..n]`.
fn extend_prefix(writer: &mut Vec<u8>, src: &[u8], n: usize)
    requires
        n <= src@.len(),
    ensures
        final(writer)@ == old(writer)@ + src@.subrange(0, n as int),
{
    let mut i: usize = 0;
    while i < n
        invariant
            n <= src@.len(),
            0 <= i <= n,
            writer@ == old(writer)@ + src@.subrange(0, i as int),
        decreases n - i,
    {
        writer.push(src[i]);
        assert(writer@ =~= old(writer)@ + src@.subrange(0, i + 1));
        i = i + 1;
    }
}

/// Appends a repeated run: `run_length` copies of `value`.
fn run_length_encode_u32(writer: &mut Vec<u8>, run_length: usize, value: u32, bit_width: u32)
    requires
        bit_width <= 32,
        2 * run_length <= u64::MAX,
    ensures
        final(writer)@ == old(writer)@ + run_bytes(
            HybridRun::Repeated { count: run_length as nat, value: value as int },
            bit_width as nat,
        ),
{
    let header: u64 = (run_length as u64) * 2;
    uleb128_encode(header, writer);
    let ghost mid = writer@;
    let num_bytes: u32 = (bit_width + 7) / 8;
    let mut v: u32 = value;
    let mut j: u32 = 0;
    proof {
        lemma2_to64();
        assert(value as int / 1 == value);
    }
    while j < num_bytes
        invariant
            num_bytes == ceil8(bit_width as int),
            num_bytes <= 4,
            0 <= j <= num_bytes,
            v == value as int / two_to(8 * j),
            writer@ == mid + le_bytes(value as int, j as int),
        decreases num_bytes - j,
    {
        writer.push((v % 256) as u8);
        proof {
            lemma_pow2_pos((8 * j) as nat);
            lemma_pow2_adds((8 * j) as nat, 8);
            lemma2_to64();
            lemma_div_denominator(value as int, two_to(8 * j), 256);
            assert(two_to(8 * (j + 1)) == two_to(8 * j) * 256);
            assert(writer@ =~= mid + le_bytes(value as int, j + 1));
        }
        v = v / 256;
        j = j + 1;
    }
    assert(writer@ =~= old(writer)@ + run_bytes(
        HybridRun::Repeated { count: run_length as nat, value: value as int },
        bit_width as nat,
    ));
}

proof fn lemma_mul_mod8(m: int, b: int)
    requires
        m >= 0,
        b >= 0,
        m % 8 == 0,
    ensures
        (m * b) % 8 == 0,
{
    let q = m / 8;
    assert(m * b == (q * b) * 8) by (nonlinear_arith)
        requires
            m == 8 * q,
    ;
    vstd::arithmetic::div_mod::lemma_mod_multiples_basic(q * b, 8);
}

proof fn lemma_zeros_fit(n: nat, bits: nat)
    ensures
        lanes_fit(Seq::new(n, |i: int| 0int), bits),
{
    lemma_pow2_pos(bits);
}

proof fn lemma_concat_fit(a: Seq<int>, b: Seq<int>, bits: nat)
    requires
        lanes_fit(a, bits),
        lanes_fit(b, bits),
    ensures
        lanes_fit(a + b, bits),
{
    assert forall|i: int| 0 <= i < (a + b).len() implies 0 <= #[trigger] (a + b)[i] < pow2(
        bits,
    ) by {
        if i < a.len() {
            assert((a + b)[i] == a[i]);
        } else {
            assert((a + b)[i] == b[i - a.len()]);
        }
    }
}

/// Appends `buffer[start..start + count]`, padded with zeros to a multiple
/// of eight values, packed at `num_bits` bits each.
fn pack_block_u32(
    writer: &mut Vec<u8>,
    buffer: &Vec<u32>,
    start: usize,
    count: usize,
    num_bits: usize,
)
    requires
        start + count <= buffer@.len(),
        1 <= count <= U32_BLOCK_LEN,
        num_bits <= 32,
        lanes_fit(lanes_u32(buffer@.subrange(start as int, start + count)), num_bits as nat),
    ensures
        final(writer)@ == old(writer)@ + packed_bytes(
            pad8(lanes_u32(buffer@.subrange(start as int, start + count))),
            num_bits as nat,
        ),
{
    let ghost vals = lanes_u32(buffer@.subrange(start as int, start + count));
    let ghost b = num_bits as nat;
    let blen = buffer.len();
    let mut block = [0u32;32];
    let mut j: usize = 0;
    while j < count
        invariant
            start + count <= blen,
            blen == buffer@.len(),
            count <= 32,
            0 <= j <= count,
            block@.len() == 32,
            forall|a: int| 0 <= a < j ==> block@[a] == buffer@[start + a],
            forall|a: int| j <= a < 32 ==> block@[a] == 0,
        decreases count - j,
    {
        block[j] = buffer[start + j];
        j = j + 1;
    }
    assert((count + 7) / 8 <= 4);
    assert(((count + 7) / 8) * num_bits <= 128) by (nonlinear_arith)
        requires
            (count + 7) / 8 <= 4,
            num_bits <= 32,
    ;
    let size = ((count + 7) / 8) * num_bits;
    let ghost lanes = lanes_u32(block@);
    let ghost g = ceil8(count as int) * 8;
    let ghost head = lanes.subrange(0, g);
    let ghost tail = lanes.subrange(g, 32);
    proof {
        assert(head =~= pad8(vals));
        assert(tail =~= Seq::new((32 - g) as nat, |i: int| 0int));
        assert(lanes =~= head + tail);
        lemma_zeros_fit((g - count) as nat, b);
        lemma_concat_fit(vals, Seq::new((g - count) as nat, |i: int| 0int), b);
        lemma_zeros_fit((32 - g) as nat, b);
        lemma_concat_fit(head, tail, b);
    }
    let mut packed = [0u8;128];
    pack32(&block, &mut packed, num_bits);
    let ghost before = writer@;
    extend_prefix(writer, &packed, size);
    proof {
        if b == 0 {
            assert(packed_bytes(pad8(vals), b) =~= Seq::<u8>::empty());
            assert(writer@ =~= before);
        } else {
            lemma_mul_mod8(head.len() as int, b as int);
            lemma_mul_mod8(tail.len() as int, b as int);
            lemma_packed_bytes_concat(head, tail, b);
            assert(g * b / 8 == size) by (nonlinear_arith)
                requires
                    g == ceil8(count as int) * 8,
                    size == ceil8(count as int) * b,
            ;
            assert(packed@.subrange(0, size as int) =~= packed_bytes(head, b));
        }
    }
}

/// Appends a bit-packed run holding `buffer[0..length]`.
fn bitpacked_encode_u32(writer: &mut Vec<u8>, buffer: &Vec<u32>, length: usize, num_bits: usize)
    requires
        length <= buffer@.len(),
        buffer@.len() <= MAX_VALUES_PER_LITERAL_RUN,
        num_bits <= 32,
        lanes_fit(lanes_u32(buffer@.subrange(0, length as int)), num_bits as nat),
    ensures
        final(writer)@ == old(writer)@ + run_bytes(
            HybridRun::BitPacked { values: lanes_u32(buffer@.subrange(0, length as int)) },
            num_bits as nat,
        ),
{
    let ghost vals = lanes_u32(buffer@.subrange(0, length as int));
    let ghost b = num_bits as nat;
    let header: u64 = ((length as u64 + 7) / 8) * 2 + 1;
    uleb128_encode(header, writer);
    let ghost start = writer@;
    let chunks = length / U32_BLOCK_LEN;
    let remainder = length - chunks * U32_BLOCK_LEN;
    let mut c: usize = 0;
    proof {
        assert(vals.subrange(0, 0) =~= Seq::<int>::empty());
        assert(packed_bytes(Seq::<int>::empty(), b) =~= Seq::<u8>::empty());
    }
    while c < chunks
        invariant
            length <= buffer@.len(),
            num_bits <= 32,
            b == num_bits as nat,
            vals == lanes_u32(buffer@.subrange(0, length as int)),
            lanes_fit(vals, b),
            chunks == length / 32,
            0 <= c <= chunks,
            writer@ == start + packed_bytes(vals.subrange(0, 32 * c as int), b),
        decreases chunks - c,
    {
        let ghost blk = vals.subrange(32 * c as int, 32 * c + 32);
        proof {
            assert(lanes_u32(buffer@.subrange(32 * c as int, 32 * c + 32)) =~= blk);
            crate::bitpacked::lemma_fit_sub(vals, b, 32 * c as int, 32 * c + 32);
            assert(pad8(blk) =~= blk);
        }
        pack_block_u32(writer, buffer, 32 * c, 32, num_bits);
        proof {
            let prev = vals.subrange(0, 32 * c as int);
            if b == 0 {
                assert(packed_bytes(vals.subrange(0, 32 * c + 32), b) =~= Seq::<u8>::empty());
                assert(packed_bytes(prev, b) =~= Seq::<u8>::empty());
                assert(packed_bytes(blk, b) =~= Seq::<u8>::empty());
            } else {
                crate::bitpacked::lemma_fit_sub(vals, b, 0, 32 * c as int);
                lemma_mul_mod8(prev.len() as int, b as int);
                lemma_mul_mod8(blk.len() as int, b as int);
                lemma_packed_bytes_concat(prev, blk, b);
            }
            assert(prev + blk =~= vals.subrange(0, 32 * c + 32));
        }
        c = c + 1;
    }
    if remainder != 0 {
        let ghost prev = vals.subrange(0, 32 * chunks as int);
        let ghost rest = vals.subrange(32 * chunks as int, length as int);
        proof {
            assert(lanes_u32(buffer@.subrange(32 * chunks as int, length as int)) =~= rest);
            crate::bitpacked::lemma_fit_sub(vals, b, 32 * chunks as int, length as int);
        }
        pack_block_u32(writer, buffer, 32 * chunks, remainder, num_bits);
        proof {
            assert(prev + pad8(rest) =~= pad8(vals));
            if b == 0 {
                assert(packed_bytes(pad8(vals), b) =~= Seq::<u8>::empty());
                assert(packed_bytes(prev, b) =~= Seq::<u8>::empty());
                assert(packed_bytes(pad8(rest), b) =~= Seq::<u8>::empty());
            } else {
                crate::bitpacked::lemma_fit_sub(vals, b, 0, 32 * chunks as int);
                lemma_zeros_fit((pad8(rest).len() - rest.len()) as nat, b);
                lemma_concat_fit(
                    rest,
                    Seq::new((pad8(rest).len() - rest.len()) as nat, |i: int| 0int),
                    b,
                );
                lemma_mul_mod8(prev.len() as int, b as int);
                lemma_mul_mod8(pad8(rest).len() as int, b as int);
                lemma_packed_bytes_concat(prev, pad8(rest), b);
            }
        }
    } else {
        proof {
            assert(vals.subrange(0, 32 * chunks as int) =~= vals);
            assert(pad8(vals) =~= vals);
        }
    }
    proof {
        assert(writer@ =~= old(writer)@ + run_bytes(
            HybridRun::BitPacked { values: vals },
            b,
        ));
    }
}

/// A run that may stand anywhere in a stream: a bit-packed run that holds a
/// whole number of groups of eight.
pub open spec fn run_closed(run: HybridRun) -> bool {
    match run {
        HybridRun::Repeated { count, .. } => count > 8,
        HybridRun::BitPacked { values } => 0 < values.len() <= MAX_VALUES_PER_LITERAL_RUN
            && values.len() % 8 == 0,
    }
}

proof fn lemma_runs_push(runs: Seq<HybridRun>, run: HybridRun, bits: nat)
    ensures
        runs_bytes(runs.push(run), bits) == runs_bytes(runs, bits) + run_bytes(run, bits),
        runs_values(runs.push(run)) == runs_values(runs) + run_values(run),
{
    assert(runs.push(run).drop_last() =~= runs);
}

proof fn lemma_prefix_fit(buf: Seq<u32>, k: int, bits: nat)
    requires
        0 <= k <= buf.len(),
        forall|j: int| 0 <= j < k ==> (buf[j] as int) < pow2(bits),
    ensures
        lanes_fit(lanes_u32(buf.subrange(0, k)), bits),
{
    let l = lanes_u32(buf.subrange(0, k));
    assert forall|i: int| 0 <= i < l.len() implies 0 <= #[trigger] l[i] < pow2(bits) by {
        assert(l[i] == buf[i] as int);
    }
}

/// `after` is `before` followed by a hybrid encoding of `values`.
pub open spec fn appends_hybrid(after: Seq<u8>, before: Seq<u8>, values: Seq<int>, bits: nat) -> bool {
    &&& after.len() >= before.len()
    &&& after.subrange(0, before.len() as int) == before
    &&& is_hybrid_encoding(after.subrange(before.len() as int, after.len() as int), values, bits)
}

/// The encoder's state between two values: the runs written so far, the
/// values buffered since (`buffered`, of which the first `literal_end` are
/// literal for sure), the last value and how many times in a row it came.
pub struct EncoderModel {
    pub repeats: int,
    pub buffered: Seq<int>,
    pub literal_end: int,
    pub previous: int,
    pub runs: Seq<HybridRun>,
}

pub open spec fn model_start() -> EncoderModel {
    EncoderModel {
        repeats: 0,
        buffered: Seq::empty(),
        literal_end: 0,
        previous: 0,
        runs: Seq::empty(),
    }
}

/// Buffers `val`; a full buffer is first written out as one bit-packed run.
pub open spec fn model_append(m: EncoderModel, val: int) -> EncoderModel {
    let m1 = if m.buffered.len() == MAX_VALUES_PER_LITERAL_RUN {
        EncoderModel {
            repeats: m.repeats - (m.buffered.len() - m.literal_end),
            buffered: Seq::empty(),
            literal_end: 0,
            runs: m.runs.push(HybridRun::BitPacked { values: m.buffered }),
            ..m
        }
    } else {
        m
    };
    EncoderModel { buffered: m1.buffered.push(val), previous: val, ..m1 }
}

/// Takes in one value. A value equal to the last one lengthens the current
/// run: past eight repeats it is no longer buffered, and at the eighth the
/// run lends values to the literal part until that fills whole groups of
/// eight. A different value ends a run of more than eight repeats (written
/// after the literal part before it), else the run joins the literal part.
pub open spec fn model_step(m: EncoderModel, val: int) -> EncoderModel {
    if val == m.previous {
        let cr = m.repeats + 1;
        if cr > 8 {
            EncoderModel { repeats: cr, ..m }
        } else if cr == 8 {
            let pad = (8 - m.literal_end % 8) % 8;
            model_append(
                EncoderModel { repeats: cr - pad, literal_end: m.literal_end + pad, ..m },
                val,
            )
        } else {
            model_append(EncoderModel { repeats: cr, ..m }, val)
        }
    } else if m.repeats > 8 {
        let runs1 = if m.literal_end > 0 {
            m.runs.push(
                HybridRun::BitPacked { values: m.buffered.subrange(0, m.literal_end) },
            )
        } else {
            m.runs
        };
        model_append(
            EncoderModel {
                repeats: 1,
                buffered: Seq::empty(),
                literal_end: 0,
                runs: runs1.push(
                    HybridRun::Repeated { count: m.repeats as nat, value: m.previous },
                ),
                ..m
            },
            val,
        )
    } else {
        model_append(EncoderModel { repeats: 1, literal_end: m.buffered.len() as int, ..m }, val)
    }
}

/// The state after taking in `values` from the start.
pub open spec fn model_run(values: Seq<int>) -> EncoderModel
    decreases values.len(),
{
    if values.len() == 0 {
        model_start()
    } else {
        model_step(model_run(values.drop_last()), values.last())
    }
}

/// The runs once the last value was taken in: what is buffered is written
/// as a bit-packed run, then a pending run of more than eight repeats.
pub open spec fn model_finish(m: EncoderModel) -> Seq<HybridRun> {
    let lit = if m.repeats <= 8 {
        m.buffered.len() as int
    } else {
        m.literal_end
    };
    let runs1 = if lit > 0 {
        m.runs.push(HybridRun::BitPacked { values: m.buffered.subrange(0, lit) })
    } else {
        m.runs
    };
    if m.repeats > 8 {
        runs1.push(HybridRun::Repeated { count: m.repeats as nat, value: m.previous })
    } else {
        runs1
    }
}

/// The runs the encoder writes for `values`.
pub open spec fn hybrid_runs(values: Seq<int>) -> Seq<HybridRun> {
    model_finish(model_run(values))
}

/// The state of the encoder between two values: the literal values
/// buffered so far, and the run of equal values at their end.
struct RunBuilder {
    consecutive_repeats: usize,
    buffered_bits: Vec<u32>,
    buffer_idx: usize,
    literal_run_idx: usize,
    previous_val: u32,
}

impl RunBuilder {
    /// The state as the model sees it, with the runs written so far.
    spec fn model(&self, runs: Seq<HybridRun>) -> EncoderModel {
        EncoderModel {
            repeats: self.consecutive_repeats as int,
            buffered: self.buffered(),
            literal_end: self.literal_run_idx as int,
            previous: self.previous_val as int,
            runs,
        }
    }

    spec fn buffered(&self) -> Seq<int> {
        lanes_u32(self.buffered_bits@.subrange(0, self.buffer_idx as int))
    }

    spec fn literal(&self) -> Seq<int> {
        lanes_u32(self.buffered_bits@.subrange(0, self.literal_run_idx as int))
    }

    spec fn common(&self, runs: Seq<HybridRun>, b: nat) -> bool {
        &&& self.buffered_bits@.len() == MAX_VALUES_PER_LITERAL_RUN
        &&& self.literal_run_idx <= self.buffer_idx <= MAX_VALUES_PER_LITERAL_RUN
        &&& forall|i: int| 0 <= i < runs.len() ==> run_closed(#[trigger] runs[i])
        &&& forall|j: int|
            0 <= j < self.buffer_idx ==> (#[trigger] self.buffered_bits@[j] as int) < pow2(b)
    }

    /// Emitted runs, buffer and pending run together stand for `done`.
    spec fn inv(&self, runs: Seq<HybridRun>, done: Seq<int>, b: nat) -> bool {
        let cr = self.consecutive_repeats;
        let prev = self.previous_val;
        &&& self.common(runs, b)
        &&& cr <= 8 ==> runs_values(runs) + self.buffered() == done && self.buffer_idx
            - self.literal_run_idx == cr
        &&& cr > 8 ==> runs_values(runs) + self.literal() + Seq::new(
            cr as nat,
            |i: int| prev as int,
        ) == done && self.buffer_idx == self.literal_run_idx + 8
        &&& cr >= 8 ==> self.literal_run_idx % 8 == 0
        &&& forall|j: int|
            self.literal_run_idx <= j < self.buffer_idx ==> #[trigger] self.buffered_bits@[j]
                == prev
        &&& (prev as int) < pow2(b)
        &&& cr <= done.len()
    }

    /// About to buffer `val`, the `consecutive_repeats`-th of its run.
    spec fn ready(&self, runs: Seq<HybridRun>, done: Seq<int>, val: u32, b: nat) -> bool {
        let cr = self.consecutive_repeats;
        &&& self.common(runs, b)
        &&& 1 <= cr <= 8
        &&& self.buffer_idx - self.literal_run_idx == cr - 1
        &&& runs_values(runs) + self.buffered() == done
        &&& forall|j: int|
            self.literal_run_idx <= j < self.buffer_idx ==> #[trigger] self.buffered_bits@[j]
                == val
        &&& cr == 8 ==> self.literal_run_idx % 8 == 0
        &&& (val as int) < pow2(b)
    }

    /// Buffers `val`, flushing a full buffer first.
    fn append(
        &mut self,
        writer: &mut Vec<u8>,
        val: u32,
        num_bits: u32,
        Ghost(runs): Ghost<Seq<HybridRun>>,
        Ghost(done): Ghost<Seq<int>>,
        Ghost(base): Ghost<Seq<u8>>,
    ) -> (r: Ghost<Seq<HybridRun>>)
        requires
            num_bits <= 32,
            old(self).ready(runs, done, val, num_bits as nat),
            old(writer)@ == base + runs_bytes(runs, num_bits as nat),
        ensures
            final(self).inv(r@, done.push(val as int), num_bits as nat),
            final(self).model(r@) == model_append(old(self).model(runs), val as int),
            final(writer)@ == base + runs_bytes(r@, num_bits as nat),
    {
        let ghost b = num_bits as nat;
        let ghost mut rs = runs;
        let ghost m0 = self.model(runs);
        if self.buffer_idx == MAX_VALUES_PER_LITERAL_RUN {
            // The buffer is full: flush it as one bit-packed run.
            proof {
                lemma_prefix_fit(self.buffered_bits@, self.buffer_idx as int, b);
            }
            bitpacked_encode_u32(writer, &self.buffered_bits, self.buffer_idx, num_bits as usize);
            proof {
                let r = HybridRun::BitPacked { values: self.buffered() };
                lemma_runs_push(rs, r, b);
                rs = rs.push(r);
                assert forall|i: int| 0 <= i < rs.len() implies run_closed(#[trigger] rs[i]) by {
                    if i < rs.len() - 1 {
                        assert(rs[i] == runs[i]);
                    }
                }
            }
            self.consecutive_repeats = self.consecutive_repeats - (self.buffer_idx
                - self.literal_run_idx);
            self.buffer_idx = 0;
            self.literal_run_idx = 0;
            proof {
                assert(self.buffered() =~= Seq::<int>::empty());
                assert(runs_values(rs) + self.buffered() =~= done);
            }
        }
        let ghost pre = self.buffered();
        let i = self.buffer_idx;
        self.buffered_bits.set(i, val);
        self.previous_val = val;
        self.buffer_idx = i + 1;
        proof {
            assert(self.buffered() =~= pre.push(val as int));
            assert(runs_values(rs) + self.buffered() =~= done.push(val as int));
            if self.consecutive_repeats == 8 {
                assert(self.literal_run_idx % 8 == 0);
            }
            assert(self.model(rs) =~= model_append(m0, val as int));
        }
        Ghost(rs)
    }

    /// Ends a repeated run before `val`: flushes the literal part, if any,
    /// then the run.
    fn flush_repeated(
        &mut self,
        writer: &mut Vec<u8>,
        val: u32,
        num_bits: u32,
        Ghost(runs): Ghost<Seq<HybridRun>>,
        Ghost(done): Ghost<Seq<int>>,
        Ghost(base): Ghost<Seq<u8>>,
    ) -> (r: Ghost<Seq<HybridRun>>)
        requires
            num_bits <= 32,
            old(self).inv(runs, done, num_bits as nat),
            old(self).consecutive_repeats > 8,
            (val as int) < pow2(num_bits as nat),
            2 * done.len() <= u64::MAX,
            old(writer)@ == base + runs_bytes(runs, num_bits as nat),
        ensures
            final(self).ready(r@, done, val, num_bits as nat),
            final(self).consecutive_repeats == 1,
            final(self).model(r@) == ({
                let m = old(self).model(runs);
                let runs1 = if m.literal_end > 0 {
                    m.runs.push(
                        HybridRun::BitPacked { values: m.buffered.subrange(0, m.literal_end) },
                    )
                } else {
                    m.runs
                };
                EncoderModel {
                    repeats: 1,
                    buffered: Seq::empty(),
                    literal_end: 0,
                    runs: runs1.push(
                        HybridRun::Repeated { count: m.repeats as nat, value: m.previous },
                    ),
                    ..m
                }
            }),
            final(writer)@ == base + runs_bytes(r@, num_bits as nat),
    {
        let ghost b = num_bits as nat;
        let ghost mut rs = runs;
        let ghost m0 = self.model(runs);
        if self.literal_run_idx > 0 {
            proof {
                lemma_prefix_fit(self.buffered_bits@, self.literal_run_idx as int, b);
                assert(self.literal() =~= m0.buffered.subrange(0, m0.literal_end));
            }
            bitpacked_encode_u32(
                writer,
                &self.buffered_bits,
                self.literal_run_idx,
                num_bits as usize,
            );
            proof {
                let r = HybridRun::BitPacked { values: self.literal() };
                lemma_runs_push(rs, r, b);
                rs = rs.push(r);
                assert forall|i: int| 0 <= i < rs.len() implies run_closed(#[trigger] rs[i]) by {
                    if i < rs.len() - 1 {
                        assert(rs[i] == runs[i]);
                    }
                }
            }
        } else {
            proof {
                assert(self.literal() =~= Seq::<int>::empty());
                assert(runs_values(rs) + self.literal() =~= runs_values(rs));
            }
        }
        run_length_encode_u32(writer, self.consecutive_repeats, self.previous_val, num_bits);
        proof {
            let r = HybridRun::Repeated {
                count: self.consecutive_repeats as nat,
                value: self.previous_val as int,
            };
            let rs0 = rs;
            lemma_runs_push(rs, r, b);
            rs = rs.push(r);
            assert forall|i: int| 0 <= i < rs.len() implies run_closed(#[trigger] rs[i]) by {
                if i < rs.len() - 1 {
                    assert(rs[i] == rs0[i]);
                }
            }
        }
        self.consecutive_repeats = 1;
        self.buffer_idx = 0;
        self.literal_run_idx = 0;
        proof {
            assert(self.buffered() =~= Seq::<int>::empty());
            assert(runs_values(rs) + self.buffered() =~= done);
        }
        Ghost(rs)
    }

    /// Takes in the next value.
    fn push(
        &mut self,
        writer: &mut Vec<u8>,
        val: u32,
        num_bits: u32,
        Ghost(runs): Ghost<Seq<HybridRun>>,
        Ghost(done): Ghost<Seq<int>>,
        Ghost(base): Ghost<Seq<u8>>,
    ) -> (r: Ghost<Seq<HybridRun>>)
        requires
            num_bits <= 32,
            old(self).inv(runs, done, num_bits as nat),
            (val as int) < pow2(num_bits as nat),
            done.len() < usize::MAX,
            2 * (done.len() + 1) <= u64::MAX,
            old(writer)@ == base + runs_bytes(runs, num_bits as nat),
        ensures
            final(self).inv(r@, done.push(val as int), num_bits as nat),
            final(self).model(r@) == model_step(old(self).model(runs), val as int),
            final(writer)@ == base + runs_bytes(r@, num_bits as nat),
    {
        let ghost b = num_bits as nat;
        let ghost m0 = self.model(runs);
        if val == self.previous_val {
            self.consecutive_repeats = self.consecutive_repeats + 1;
            if self.consecutive_repeats > 8 {
                // Long enough for a repeated run: nothing to buffer.
                proof {
                    let cr = self.consecutive_repeats;
                    let rep = Seq::new(cr as nat, |i: int| val as int);
                    assert(rep =~= Seq::new((cr - 1) as nat, |i: int| val as int).push(val as int));
                    if cr == 9 {
                        assert(self.buffered_bits@.subrange(0, self.buffer_idx as int)
                            =~= self.buffered_bits@.subrange(0, self.literal_run_idx as int)
                            + self.buffered_bits@.subrange(
                            self.literal_run_idx as int,
                            self.buffer_idx as int,
                        ));
                        assert(self.buffered() =~= self.literal() + Seq::new(
                            8,
                            |i: int| val as int,
                        ));
                    }
                    assert(runs_values(runs) + self.literal() + rep =~= done.push(val as int));
                    assert(self.model(runs) =~= model_step(m0, val as int));
                }
                return Ghost(runs);
            } else if self.consecutive_repeats == 8 {
                // Borrow from the run so that the literal part fills whole
                // groups of eight.
                let literal_padding = (8 - (self.literal_run_idx % 8)) % 8;
                self.consecutive_repeats = self.consecutive_repeats - literal_padding;
                self.literal_run_idx = self.literal_run_idx + literal_padding;
            }
            self.append(writer, val, num_bits, Ghost(runs), Ghost(done), Ghost(base))
        } else if self.consecutive_repeats > 8 {
            let r = self.flush_repeated(writer, val, num_bits, Ghost(runs), Ghost(done), Ghost(base));
            self.append(writer, val, num_bits, r, Ghost(done), Ghost(base))
        } else {
            // Too short for a repeated run: it joins the literal part.
            self.literal_run_idx = self.buffer_idx;
            self.consecutive_repeats = 1;
            self.append(writer, val, num_bits, Ghost(runs), Ghost(done), Ghost(base))
        }
    }

    /// Flushes what is left once every value was taken in.
    fn finish(
        &mut self,
        writer: &mut Vec<u8>,
        num_bits: u32,
        Ghost(runs): Ghost<Seq<HybridRun>>,
        Ghost(done): Ghost<Seq<int>>,
        Ghost(base): Ghost<Seq<u8>>,
    ) -> (r: Ghost<Seq<HybridRun>>)
        requires
            num_bits <= 32,
            old(self).inv(runs, done, num_bits as nat),
            2 * done.len() <= u64::MAX,
            old(writer)@ == base + runs_bytes(runs, num_bits as nat),
        ensures
            runs_ok(r@),
            runs_values(r@) == done,
            r@ == model_finish(old(self).model(runs)),
            final(writer)@ == base + runs_bytes(r@, num_bits as nat),
    {
        let ghost b = num_bits as nat;
        let ghost mut rs = runs;
        let ghost m0 = self.model(runs);
        // Not enough repeats at the end for a repeated run: all is literal.
        if self.consecutive_repeats <= 8 {
            self.literal_run_idx = self.buffer_idx;
            self.consecutive_repeats = 0;
            proof {
                assert(self.literal() == self.buffered());
            }
        }
        if self.literal_run_idx > 0 {
            proof {
                lemma_prefix_fit(self.buffered_bits@, self.literal_run_idx as int, b);
            }
            bitpacked_encode_u32(
                writer,
                &self.buffered_bits,
                self.literal_run_idx,
                num_bits as usize,
            );
            proof {
                let r = HybridRun::BitPacked { values: self.literal() };
                lemma_runs_push(rs, r, b);
                rs = rs.push(r);
            }
        } else {
            proof {
                assert(self.literal() =~= Seq::<int>::empty());
            }
        }
        let ghost rs1 = rs;
        if self.consecutive_repeats > 8 {
            run_length_encode_u32(writer, self.consecutive_repeats, self.previous_val, num_bits);
            proof {
                let r = HybridRun::Repeated {
                    count: self.consecutive_repeats as nat,
                    value: self.previous_val as int,
                };
                lemma_runs_push(rs, r, b);
                rs = rs.push(r);
            }
        }
        proof {
            assert(rs1.len() <= runs.len() + 1);
            assert forall|i: int| 0 <= i < rs.len() implies match #[trigger] rs[i] {
                HybridRun::Repeated { count, .. } => count > 8,
                HybridRun::BitPacked { values } => {
                    &&& 0 < values.len() <= MAX_VALUES_PER_LITERAL_RUN
                    &&& (i < rs.len() - 1 ==> values.len() % 8 == 0)
                },
            } by {
                if i < runs.len() {
                    assert(rs[i] == runs[i]);
                    assert(run_closed(runs[i]));
                } else if i < rs1.len() {
                    assert(rs[i] == rs1[i]);
                }
            }
            if self.consecutive_repeats <= 8 {
                assert(runs_values(rs) =~= done);
            } else {
                assert(runs_values(rs) =~= done);
            }
            if self.literal_run_idx > 0 {
                assert(self.literal() =~= m0.buffered.subrange(0, self.literal_run_idx as int));
            }
            assert(rs =~= model_finish(m0));
        }
        Ghost(rs)
    }
}

/// Appends the hybrid encoding of `values` at `num_bits` bits per value:
/// the runs that `hybrid_runs` chooses, which stand for exactly `values`.
pub fn encode_u32(writer: &mut Vec<u8>, values: &[u32], num_bits: u32)
    requires
        num_bits <= 32,
        lanes_fit(lanes_u32(values@), num_bits as nat),
        2 * values@.len() <= u64::MAX,
    ensures
        final(writer)@ == old(writer)@ + runs_bytes(
            hybrid_runs(lanes_u32(values@)),
            num_bits as nat,
        ),
        runs_ok(hybrid_runs(lanes_u32(values@))),
        runs_values(hybrid_runs(lanes_u32(values@))) == lanes_u32(values@),
        appends_hybrid(final(writer)@, old(writer)@, lanes_u32(values@), num_bits as nat),
{
    let ghost vals = lanes_u32(values@);
    let ghost b = num_bits as nat;
    let ghost w0 = writer@;
    let ghost mut runs: Seq<HybridRun> = Seq::empty();
    let n = values.len();
    let mut state = RunBuilder {
        consecutive_repeats: 0,
        buffered_bits: vec![0; MAX_VALUES_PER_LITERAL_RUN],
        buffer_idx: 0,
        literal_run_idx: 0,
        previous_val: 0,
    };
    let mut idx: usize = 0;
    proof {
        lemma_pow2_pos(b);
        assert(vals.subrange(0, 0) =~= Seq::<int>::empty());
        assert(state.buffered() =~= Seq::<int>::empty());
        assert(writer@ =~= w0 + runs_bytes(runs, b));
        assert(runs_values(runs) + state.buffered() =~= vals.subrange(0, 0));
        assert(state.model(runs) =~= model_run(vals.subrange(0, 0)));
    }
    while idx < n
        invariant
            n == values@.len(),
            vals == lanes_u32(values@),
            b == num_bits as nat,
            num_bits <= 32,
            lanes_fit(vals, b),
            2 * n <= u64::MAX,
            0 <= idx <= n,
            state.inv(runs, vals.subrange(0, idx as int), b),
            state.model(runs) == model_run(vals.subrange(0, idx as int)),
            writer@ == w0 + runs_bytes(runs, b),
        decreases n - idx,
    {
        let val = values[idx];
        proof {
            assert(vals.subrange(0, idx + 1) =~= vals.subrange(0, idx as int).push(val as int));
            assert(vals[idx as int] == val as int);
            assert(vals.subrange(0, idx + 1).drop_last() =~= vals.subrange(0, idx as int));
        }
        let r = state.push(
            writer,
            val,
            num_bits,
            Ghost(runs),
            Ghost(vals.subrange(0, idx as int)),
            Ghost(w0),
        );
        proof {
            runs = r@;
        }
        idx = idx + 1;
    }
    proof {
        assert(vals.subrange(0, n as int) =~= vals);
    }
    let r = state.finish(writer, num_bits, Ghost(runs), Ghost(vals), Ghost(w0));
    proof {
        let bytes = runs_bytes(r@, b);
        assert(writer@.subrange(0, w0.len() as int) =~= w0);
        assert(writer@.subrange(w0.len() as int, writer@.len() as int) =~= bytes);
    }
}

/// Booleans as one-bit values.
pub open spec fn bools_as_bits(values: Seq<bool>) -> Seq<int> {
    values.map_values(|x: bool| if x { 1int } else { 0int })
}

/// Appends the hybrid encoding of booleans, one bit each.
pub fn encode_bool(writer: &mut Vec<u8>, values: &[bool])
    requires
        2 * values@.len() <= u64::MAX,
    ensures
        final(writer)@ == old(writer)@ + runs_bytes(hybrid_runs(bools_as_bits(values@)), 1),
        runs_ok(hybrid_runs(bools_as_bits(values@))),
        runs_values(hybrid_runs(bools_as_bits(values@))) == bools_as_bits(values@),
        appends_hybrid(final(writer)@, old(writer)@, bools_as_bits(values@), 1),
{
    let mut bits: Vec<u32> = Vec::new();
    let mut i: usize = 0;
    while i < values.len()
        invariant
            0 <= i <= values@.len(),
            bits@.len() == i,
            forall|j: int|
                0 <= j < i ==> bits@[j] as int == if values@[j] {
                    1int
                } else {
                    0int
                },
        decreases values@.len() - i,
    {
        bits.push(if values[i] { 1 } else { 0 });
        i = i + 1;
    }
    proof {
        lemma2_to64();
        assert(lanes_u32(bits@) =~= bools_as_bits(values@));
        assert(lanes_fit(lanes_u32(bits@), 1));
    }
    encode_u32(writer, bits.as_slice(), 1);
}

/// The number at the start of `bytes` read as ULEB128, and how many bytes
/// it takes.
pub open spec fn uleb_parse(bytes: Seq<u8>) -> (int, int)
    decreases bytes.len(),
{
    if bytes.len() == 0 {
        (0, 0)
    } else if bytes[0] < 128 {
        (bytes[0] as int, 1)
    } else {
        let (x, c) = uleb_parse(bytes.drop_first());
        (bytes[0] - 128 + 128 * x, c + 1)
    }
}

/// The values of at most `fuel` runs read from the start of `bytes`; a
/// bit-packed run gives all of its groups of eight, padding included.
pub open spec fn hybrid_decode_runs(bytes: Seq<u8>, bits: nat, fuel: nat) -> Seq<int>
    decreases fuel,
{
    if fuel == 0 || bytes.len() == 0 {
        Seq::empty()
    } else {
        let (h, c) = uleb_parse(bytes);
        let body = bytes.subrange(c, bytes.len() as int);
        if h % 2 == 0 {
            let nb = ceil8(bits as int);
            let value = le_value(body.subrange(0, nb));
            Seq::new((h / 2) as nat, |i: int| value) + hybrid_decode_runs(
                body.subrange(nb, body.len() as int),
                bits,
                (fuel - 1) as nat,
            )
        } else {
            let m = (h / 2) * bits;
            Seq::new(((h / 2) * 8) as nat, |i: int| lane_of(body.subrange(0, m), bits, i))
                + hybrid_decode_runs(body.subrange(m, body.len() as int), bits, (fuel - 1) as nat)
        }
    }
}

/// The values a hybrid-encoded byte stream holds, padding of its last
/// bit-packed group included.
pub open spec fn hybrid_decode(bytes: Seq<u8>, bits: nat) -> Seq<int> {
    hybrid_decode_runs(bytes, bits, bytes.len())
}

proof fn lemma_uleb_parse(x: nat, rest: Seq<u8>)
    ensures
        uleb_parse(uleb_bytes(x) + rest) == (x as int, uleb_bytes(x).len() as int),
        uleb_bytes(x).len() >= 1,
    decreases x,
{
    let b = uleb_bytes(x) + rest;
    if x < 128 {
        assert(b[0] == x as u8);
    } else {
        lemma_uleb_parse(x / 128, rest);
        assert(b.drop_first() =~= uleb_bytes(x / 128) + rest);
        assert(b[0] == (x % 128 + 128) as u8);
    }
}

proof fn lemma_le_bytes_value(v: int, k: nat)
    requires
        0 <= v < two_to(8 * k as int),
    ensures
        le_value(le_bytes(v, k as int)) == v,
{
    lemma2_to64();
    assert forall|j: int| 0 <= j < k implies #[trigger] lanes_u8(le_bytes(v, k as int))[j]
        == digits(v, 8, k)[j] by {
        lemma_pow2_pos((8 * j) as nat);
        assert(8 * j == j * 8);
    }
    assert(lanes_u8(le_bytes(v, k as int)) =~= digits(v, 8, k));
    assert(k * 8 == 8 * k);
    lemma_value_of_digits(v, 8, k);
}

proof fn lemma_runs_front(runs: Seq<HybridRun>, bits: nat)
    requires
        runs.len() > 0,
    ensures
        runs_bytes(runs, bits) == run_bytes(runs[0], bits) + runs_bytes(runs.drop_first(), bits),
        runs_values(runs) == run_values(runs[0]) + runs_values(runs.drop_first()),
    decreases runs.len(),
{
    if runs.len() == 1 {
        assert(runs.drop_last() =~= Seq::<HybridRun>::empty());
        assert(runs.drop_first() =~= Seq::<HybridRun>::empty());
        assert(runs.last() == runs[0]);
        assert(runs_values(Seq::<HybridRun>::empty()) == Seq::<int>::empty());
        assert(runs_bytes(Seq::<HybridRun>::empty(), bits) == Seq::<u8>::empty());
        assert(runs_bytes(runs, bits) =~= run_bytes(runs[0], bits));
        assert(runs_values(runs) =~= run_values(runs[0]));
    } else {
        lemma_runs_front(runs.drop_last(), bits);
        assert(runs.drop_last().drop_first() =~= runs.drop_first().drop_last());
        assert(runs.drop_last()[0] == runs[0]);
        assert(runs.drop_first().last() == runs.last());
        assert(runs_bytes(runs, bits) =~= run_bytes(runs[0], bits) + runs_bytes(
            runs.drop_first(),
            bits,
        ));
        assert(runs_values(runs) =~= run_values(runs[0]) + runs_values(runs.drop_first()));
    }
}

proof fn lemma_runs_bytes_len(runs: Seq<HybridRun>, bits: nat)
    ensures
        runs_bytes(runs, bits).len() >= runs.len(),
    decreases runs.len(),
{
    if runs.len() > 0 {
        lemma_runs_bytes_len(runs.drop_last(), bits);
        match runs.last() {
            HybridRun::Repeated { count, .. } => lemma_uleb_parse(2 * count, Seq::empty()),
            HybridRun::BitPacked { values } => lemma_uleb_parse(
                (2 * ceil8(values.len() as int) + 1) as nat,
                Seq::empty(),
            ),
        }
    }
}

/// What decoding gives beyond the values: the zeros that pad the last run
/// when it is bit-packed.
pub open spec fn tail_padding(runs: Seq<HybridRun>) -> Seq<int> {
    if runs.len() > 0 && runs.last() is BitPacked {
        let v = runs.last()->values;
        Seq::new((ceil8(v.len() as int) * 8 - v.len()) as nat, |i: int| 0int)
    } else {
        Seq::empty()
    }
}

/// Runs well formed but for the length bound of a bit-packed run.
spec fn runs_decodable(runs: Seq<HybridRun>) -> bool {
    forall|i: int|
        0 <= i < runs.len() ==> match #[trigger] runs[i] {
            HybridRun::Repeated { count, .. } => count > 0,
            HybridRun::BitPacked { values } => i < runs.len() - 1 ==> values.len() % 8 == 0,
        }
}

proof fn lemma_fit_split(a: Seq<int>, b: Seq<int>, bits: nat)
    requires
        lanes_fit(a + b, bits),
    ensures
        lanes_fit(a, bits),
        lanes_fit(b, bits),
{
    assert forall|i: int| 0 <= i < a.len() implies 0 <= #[trigger] a[i] < pow2(bits) by {
        assert((a + b)[i] == a[i]);
    }
    assert forall|i: int| 0 <= i < b.len() implies 0 <= #[trigger] b[i] < pow2(bits) by {
        assert((a + b)[a.len() + i] == b[i]);
    }
}

/// The values decoding gives for one run: a bit-packed run comes back
/// padded to whole groups of eight.
spec fn run_decoded(run: HybridRun) -> Seq<int> {
    match run {
        HybridRun::Repeated { count, value } => Seq::new(count, |i: int| value),
        HybridRun::BitPacked { values } => pad8(values),
    }
}

proof fn lemma_decode_repeated(count: nat, value: int, rest: Seq<u8>, bits: nat, fuel: nat)
    requires
        bits <= 32,
        0 <= value < pow2(bits),
        fuel >= 1,
    ensures
        hybrid_decode_runs(
            run_bytes(HybridRun::Repeated { count, value }, bits) + rest,
            bits,
            fuel,
        ) == Seq::new(count, |i: int| value) + hybrid_decode_runs(rest, bits, (fuel - 1) as nat),
{
    lemma2_to64();
    let all = run_bytes(HybridRun::Repeated { count, value }, bits) + rest;
    let head = uleb_bytes(2 * count);
    let nb = ceil8(bits as int);
    let vb = le_bytes(value, nb);
    lemma_uleb_parse(2 * count, vb + rest);
    assert(all =~= head + (vb + rest));
    let body = all.subrange(head.len() as int, all.len() as int);
    assert(body =~= vb + rest);
    assert(body.subrange(0, nb) =~= vb);
    assert(body.subrange(nb, body.len() as int) =~= rest);
    assert(bits <= 8 * nb);
    if bits < 8 * nb {
        vstd::arithmetic::power2::lemma_pow2_strictly_increases(bits, (8 * nb) as nat);
    }
    lemma_le_bytes_value(value, nb as nat);
    assert((2 * count) as int / 2 == count);
    assert(Seq::new(count, |i: int| le_value(vb)) =~= Seq::new(count, |i: int| value));
}

proof fn lemma_decode_bitpacked(values: Seq<int>, rest: Seq<u8>, bits: nat, fuel: nat)
    requires
        bits <= 32,
        lanes_fit(values, bits),
        fuel >= 1,
    ensures
        hybrid_decode_runs(run_bytes(HybridRun::BitPacked { values }, bits) + rest, bits, fuel)
            == pad8(values) + hybrid_decode_runs(rest, bits, (fuel - 1) as nat),
{
    lemma2_to64();
    let all = run_bytes(HybridRun::BitPacked { values }, bits) + rest;
    let g = ceil8(values.len() as int);
    let head = uleb_bytes((2 * g + 1) as nat);
    let pv = pad8(values);
    let pb = packed_bytes(pv, bits);
    lemma_uleb_parse((2 * g + 1) as nat, pb + rest);
    assert(all =~= head + (pb + rest));
    let body = all.subrange(head.len() as int, all.len() as int);
    assert(body =~= pb + rest);
    assert((2 * g + 1) / 2 == g);
    assert((2 * g + 1) % 2 == 1);
    assert(pv.len() == g * 8);
    assert(pv.len() * bits / 8 == g * bits) by (nonlinear_arith)
        requires
            pv.len() == g * 8,
            g >= 0,
    ;
    assert(body.subrange(0, g * bits) =~= pb);
    assert(body.subrange(g * bits, body.len() as int) =~= rest);
    lemma_zeros_fit((g * 8 - values.len()) as nat, bits);
    lemma_concat_fit(values, Seq::new((g * 8 - values.len()) as nat, |i: int| 0int), bits);
    let lanes = Seq::new((g * 8) as nat, |i: int| lane_of(pb, bits, i));
    if bits == 0 {
        assert forall|i: int| 0 <= i < g * 8 implies #[trigger] lanes[i] == pv[i] by {
            assert(two_to(0) == 1);
            assert(pv[i] < pow2(0));
        }
    } else {
        lemma_mul_mod8(pv.len() as int, bits as int);
        lemma_unpack_pack(pv, bits);
        assert forall|i: int| 0 <= i < g * 8 implies #[trigger] lanes[i] == pv[i] by {
            assert(lane_of(pb, bits, i) == pv[i]);
        }
    }
    assert(lanes =~= pv);
}

proof fn lemma_decode_runs(runs: Seq<HybridRun>, bits: nat, fuel: nat)
    requires
        runs_decodable(runs),
        lanes_fit(runs_values(runs), bits),
        bits <= 32,
        fuel >= runs.len(),
    ensures
        hybrid_decode_runs(runs_bytes(runs, bits), bits, fuel) == runs_values(runs)
            + tail_padding(runs),
    decreases runs.len(),
{
    if runs.len() == 0 {
        assert(runs_bytes(runs, bits) =~= Seq::<u8>::empty());
        assert(runs_values(runs) + tail_padding(runs) =~= Seq::<int>::empty());
    } else {
        let r0 = runs[0];
        let tail = runs.drop_first();
        lemma_runs_front(runs, bits);
        let rest = runs_bytes(tail, bits);
        lemma_fit_split(run_values(r0), runs_values(tail), bits);
        assert(runs_decodable(tail)) by {
            assert forall|i: int| 0 <= i < tail.len() implies match #[trigger] tail[i] {
                HybridRun::Repeated { count, .. } => count > 0,
                HybridRun::BitPacked { values } => i < tail.len() - 1 ==> values.len() % 8 == 0,
            } by {
                assert(tail[i] == runs[i + 1]);
            }
        }
        lemma_decode_runs(tail, bits, (fuel - 1) as nat);
        assert(match runs[0] {
            HybridRun::Repeated { count, .. } => count > 0,
            HybridRun::BitPacked { values } => 0 < runs.len() - 1 ==> values.len() % 8 == 0,
        });
        match r0 {
            HybridRun::Repeated { count, value } => {
                assert(run_values(r0)[0] == value);
                lemma_decode_repeated(count, value, rest, bits, fuel);
            },
            HybridRun::BitPacked { values } => {
                lemma_decode_bitpacked(values, rest, bits, fuel);
                if tail.len() > 0 {
                    assert(pad8(values) =~= values);
                }
            },
        }
        if tail.len() == 0 {
            assert(runs_values(tail) =~= Seq::<int>::empty());
            assert(rest =~= Seq::<u8>::empty());
            assert(runs.last() == r0);
        } else {
            assert(tail.last() == runs.last());
        }
        assert(hybrid_decode_runs(runs_bytes(runs, bits), bits, fuel) =~= runs_values(runs)
            + tail_padding(runs));
    }
}

/// Decoding a hybrid encoding of values that fit in `bits` bits gives the
/// values back, followed by fewer than eight zeros of padding.
pub proof fn lemma_hybrid_round_trip(bytes: Seq<u8>, values: Seq<int>, bits: nat)
    requires
        bits <= 32,
        is_hybrid_encoding(bytes, values, bits),
        lanes_fit(values, bits),
    ensures
        values.len() <= hybrid_decode(bytes, bits).len() < values.len() + 8,
        hybrid_decode(bytes, bits).subrange(0, values.len() as int) == values,
        forall|i: int|
            values.len() <= i < hybrid_decode(bytes, bits).len() ==> #[trigger] hybrid_decode(
                bytes,
                bits,
            )[i] == 0,
{
    let runs = choose|runs: Seq<HybridRun>|
        runs_ok(runs) && runs_values(runs) == values && bytes == runs_bytes(runs, bits);
    assert(runs_decodable(runs)) by {
        assert forall|i: int| 0 <= i < runs.len() implies match #[trigger] runs[i] {
            HybridRun::Repeated { count, .. } => count > 0,
            HybridRun::BitPacked { values } => i < runs.len() - 1 ==> values.len() % 8 == 0,
        } by {
            assert(runs_ok(runs));
        }
    }
    lemma_runs_bytes_len(runs, bits);
    lemma_decode_runs(runs, bits, bytes.len());
    let d = hybrid_decode(bytes, bits);
    assert(d == values + tail_padding(runs));
    assert(d.subrange(0, values.len() as int) =~= values);
}

} // verus!
