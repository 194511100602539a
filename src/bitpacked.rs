//! Fixed-width bit packing: lanes of 8, 16, 32 or 64 bits, each holding a
//! value of `num_bits` bits, packed least significant bit first into
//! `lanes * num_bits / 8` bytes.
use vstd::prelude::*;
use vstd::arithmetic::power2::{
    pow2,
    lemma_pow2_unfold,
    lemma_pow2_adds,
    lemma_pow2_pos,
    lemma_pow2_strictly_increases,
    lemma2_to64,
    lemma2_to64_rest,
};
use vstd::arithmetic::div_mod::{
    lemma_div_denominator,
    lemma_fundamental_div_mod,
    lemma_fundamental_div_mod_converse,
    lemma_mod_breakdown,
};

verus! {

/// Two to the power `e`, as an integer.
pub open spec fn two_to(e: int) -> int {
    pow2(e as nat) as int
}

/// The integer whose base-`2^bits` digits, least significant first, are
/// the lanes.
pub open spec fn packed_value(lanes: Seq<int>, bits: nat) -> int
    decreases lanes.len(),
{
    if lanes.len() == 0 {
        0
    } else {
        lanes[0] + pow2(bits) * packed_value(lanes.drop_first(), bits)
    }
}

/// The integer whose little-endian bytes are `bytes`.
pub open spec fn le_value(bytes: Seq<u8>) -> int {
    packed_value(lanes_u8(bytes), 8)
}

/// The `lanes.len() * bits / 8` bytes that hold the packed lanes.
pub open spec fn packed_bytes(lanes: Seq<int>, bits: nat) -> Seq<u8> {
    Seq::new(
        (lanes.len() * bits / 8) as nat,
        |j: int| ((packed_value(lanes, bits) / two_to(8 * j)) % 256) as u8,
    )
}

/// Lane `i` of `bits` bits read back from packed bytes.
pub open spec fn lane_of(bytes: Seq<u8>, bits: nat, i: int) -> int {
    (le_value(bytes) / two_to(i * bits)) % two_to(bits as int)
}

/// Every lane holds a value of at most `bits` bits.
pub open spec fn lanes_fit(lanes: Seq<int>, bits: nat) -> bool {
    forall|i: int| 0 <= i < lanes.len() ==> 0 <= #[trigger] lanes[i] < pow2(bits)
}

pub open spec fn lanes_u8(a: Seq<u8>) -> Seq<int> {
    a.map_values(|x: u8| x as int)
}

pub open spec fn lanes_u16(a: Seq<u16>) -> Seq<int> {
    a.map_values(|x: u16| x as int)
}

pub open spec fn lanes_u32(a: Seq<u32>) -> Seq<int> {
    a.map_values(|x: u32| x as int)
}

pub open spec fn lanes_u64(a: Seq<u64>) -> Seq<int> {
    a.map_values(|x: u64| x as int)
}

proof fn lemma_pow2_succ(e: nat)
    ensures
        pow2(e + 1) == 2 * pow2(e),
        pow2(e) > 0,
{
    lemma_pow2_unfold(e + 1);
    lemma_pow2_pos(e);
}

proof fn lemma_packed_value_nonneg(lanes: Seq<int>, bits: nat)
    requires
        lanes_fit(lanes, bits),
    ensures
        packed_value(lanes, bits) >= 0,
    decreases lanes.len(),
{
    if lanes.len() > 0 {
        let rest = lanes.drop_first();
        assert(lanes_fit(rest, bits)) by {
            assert forall|i: int| 0 <= i < rest.len() implies 0 <= #[trigger] rest[i] < pow2(
                bits,
            ) by {
                assert(rest[i] == lanes[i + 1]);
            }
        }
        lemma_packed_value_nonneg(rest, bits);
        lemma_pow2_pos(bits);
        assert(pow2(bits) * packed_value(rest, bits) >= 0) by (nonlinear_arith)
            requires
                pow2(bits) > 0,
                packed_value(rest, bits) >= 0,
        ;
    }
}

proof fn lemma_fit_subrange(lanes: Seq<int>, bits: nat, lo: int, hi: int)
    requires
        lanes_fit(lanes, bits),
        0 <= lo <= hi <= lanes.len(),
    ensures
        lanes_fit(lanes.subrange(lo, hi), bits),
{
    let s = lanes.subrange(lo, hi);
    assert forall|j: int| 0 <= j < s.len() implies 0 <= #[trigger] s[j] < pow2(bits) by {
        assert(s[j] == lanes[lo + j]);
    }
}

/// A run of lanes that fit still fits.
pub(crate) proof fn lemma_fit_sub(lanes: Seq<int>, bits: nat, lo: int, hi: int)
    requires
        lanes_fit(lanes, bits),
        0 <= lo <= hi <= lanes.len(),
    ensures
        lanes_fit(lanes.subrange(lo, hi), bits),
{
    lemma_fit_subrange(lanes, bits, lo, hi);
}

/// Packs `lanes` (as many as fill whole bytes) into the first bytes of
/// `output`, least significant bit first.
fn pack_lanes(lanes: &Vec<u64>, bits: usize, output: &mut [u8])
    requires
        1 <= bits <= 64,
        lanes@.len() <= 64,
        (lanes@.len() * bits) % 8 == 0,
        old(output)@.len() >= lanes@.len() * bits / 8,
        lanes_fit(lanes_u64(lanes@), bits as nat),
    ensures
        final(output)@.len() == old(output)@.len(),
        forall|j: int|
            0 <= j < lanes@.len() * bits / 8 ==> final(output)@[j] == packed_bytes(
                lanes_u64(lanes@),
                bits as nat,
            )[j],
        forall|j: int|
            lanes@.len() * bits / 8 <= j < old(output)@.len() ==> final(output)@[j] == old(
                output,
            )@[j],
{
    let n = lanes.len();
    let ghost lv = lanes_u64(lanes@);
    let ghost b = bits as nat;
    let ghost total = packed_value(lv, b);
    let ghost out0 = output@;
    let ghost nbytes = (n * bits / 8) as int;
    proof {
        lemma2_to64();
        assert(lv.subrange(0, n as int) =~= lv);
        assert(pow2(0) == 1);
    }
    let mut k: usize = 0;
    let mut cur: u32 = 0;
    let mut fill: u32 = 0;
    let mut w: u32 = 1;
    let mut i: usize = 0;
    while i < n
        invariant
            n == lanes@.len(),
            lv == lanes_u64(lanes@),
            b == bits as nat,
            1 <= bits <= 64,
            n <= 64,
            (n * bits) % 8 == 0,
            nbytes == n * bits / 8,
            lanes_fit(lv, b),
            total == packed_value(lv, b),
            0 <= i <= n,
            8 * k + fill == i * bits,
            fill < 8,
            w == two_to(fill as int),
            0 <= cur < w,
            total / two_to(8 * k) == cur + w * packed_value(lv.subrange(i as int, n as int), b),
            output@.len() == out0.len(),
            out0.len() >= nbytes,
            forall|j: int| 0 <= j < k ==> output@[j] == ((total / two_to(8 * j)) % 256) as u8,
            forall|j: int| k <= j < out0.len() ==> output@[j] == out0[j],
        decreases n - i,
    {
        let mut v: u64 = lanes[i];
        let ghost rest = lv.subrange(i + 1, n as int);
        proof {
            assert(lv.subrange(i as int, n as int).drop_first() =~= rest);
            assert(lv[i as int] == v as int);
        }
        let mut t: usize = 0;
        while t < bits
            invariant
                n == lanes@.len(),
                lv == lanes_u64(lanes@),
                b == bits as nat,
                1 <= bits <= 64,
                n <= 64,
                (n * bits) % 8 == 0,
                nbytes == n * bits / 8,
                0 <= i < n,
                0 <= t <= bits,
                rest == lv.subrange(i + 1, n as int),
                lanes_fit(lv, b),
                total == packed_value(lv, b),
                8 * k + fill == i * bits + t,
                fill < 8,
                w == two_to(fill as int),
                0 <= cur < w,
                v < two_to(bits - t),
                total / two_to(8 * k) == cur + w * (v + two_to(bits - t)
                    * packed_value(rest, b)),
                output@.len() == out0.len(),
                out0.len() >= nbytes,
                forall|j: int|
                    0 <= j < k ==> output@[j] == ((total / two_to(8 * j)) % 256) as u8,
                forall|j: int| k <= j < out0.len() ==> output@[j] == out0[j],
            decreases bits - t,
        {
            let bit: u32 = (v % 2) as u32;
            let ghost x = total / two_to(8 * k);
            let ghost g = two_to(bits - t - 1);
            let ghost q = packed_value(rest, b);
            proof {
                lemma2_to64();
                lemma_pow2_strictly_increases(fill as nat, 8);
                lemma_pow2_succ(fill as nat);
                lemma_pow2_succ((bits - t - 1) as nat);
                assert(w < 256);
                assert(bit <= 1);
                assert(bit * w <= w) by (nonlinear_arith)
                    requires
                        bit <= 1,
                ;
                assert(v as int == 2 * (v / 2) as int + (v % 2) as int);
                assert(x == (cur + w * bit) + (2 * w) * ((v / 2) as int + g * q)) by (nonlinear_arith)
                    requires
                        x == cur + w * (v + (2 * g) * q),
                        v as int == 2 * (v / 2) as int + bit as int,
                ;
                assert((v / 2) < g) by (nonlinear_arith)
                    requires
                        v < 2 * g,
                ;
            }
            cur = cur + bit * w;
            v = v / 2;
            fill = fill + 1;
            w = w * 2;
            t = t + 1;
            if fill == 8 {
                proof {
                    assert(w == 256);
                    let r = v as int + two_to(bits - t) * q;
                    assert(x == cur + 256 * r);
                    lemma_pow2_pos((bits - t) as nat);
                    lemma_fit_subrange(lv, b, i + 1, n as int);
                    lemma_packed_value_nonneg(rest, b);
                    assert(r >= 0) by (nonlinear_arith)
                        requires
                            v >= 0,
                            two_to(bits - t) > 0,
                            q >= 0,
                            r == v as int + two_to(bits - t) * q,
                    ;
                    lemma_fundamental_div_mod_converse(x, 256, r, cur as int);
                    lemma_pow2_adds((8 * k) as nat, 8);
                    lemma_pow2_pos((8 * k) as nat);
                    lemma_packed_value_nonneg(lv, b);
                    lemma_div_denominator(total, pow2((8 * k) as nat) as int, 256);
                    assert(two_to(8 * (k + 1)) == two_to(8 * k) * 256);
                    assert(i * bits + t <= n * bits) by (nonlinear_arith)
                        requires
                            i < n,
                            t <= bits,
                    ;
                    lemma_fundamental_div_mod((n * bits) as int, 8);
                    assert(k < nbytes);
                }
                output[k] = cur as u8;
                k = k + 1;
                cur = 0;
                fill = 0;
                w = 1;
                proof {
                    assert(two_to(8 * k) == two_to(8 * (k - 1)) * 256);
                    assert(total / two_to(8 * k) == x / 256);
                    assert(total / two_to(8 * k) == v + two_to(bits - t) * q);
                }
            }
            proof {
                assert(total / two_to(8 * k) == cur + w * (v + two_to(bits - t) * q));
            }
        }
        proof {
            lemma2_to64();
            assert(t == bits);
            assert(two_to(bits - t) == 1);
            assert(v == 0);
            assert(8 * k + fill == (i + 1) * bits) by (nonlinear_arith)
                requires
                    8 * k + fill == i * bits + bits,
            ;
            assert(total / two_to(8 * k) == cur + w * packed_value(rest, b));
            assert(lv.subrange(i + 1, n as int) == rest);
        }
        i = i + 1;
    }
    proof {
        assert(fill == 0) by (nonlinear_arith)
            requires
                8 * k + fill == n * bits,
                (n * bits) % 8 == 0,
                fill < 8,
        ;
        assert(k == nbytes);
    }
}

proof fn lemma_le_value_unfold(bytes: Seq<u8>)
    requires
        bytes.len() > 0,
    ensures
        le_value(bytes) == bytes[0] + 256 * le_value(bytes.drop_first()),
{
    lemma2_to64();
    assert(lanes_u8(bytes).drop_first() =~= lanes_u8(bytes.drop_first()));
}

proof fn lemma_bytes_fit(bytes: Seq<u8>)
    ensures
        lanes_fit(lanes_u8(bytes), 8),
{
    lemma2_to64();
}

/// Reads `n` lanes of `bits` bits back from the first `n * bits / 8` bytes
/// of `input`.
fn unpack_lanes(input: &[u8], n: usize, bits: usize) -> (r: Vec<u64>)
    requires
        1 <= bits <= 64,
        n <= 64,
        (n * bits) % 8 == 0,
        input@.len() >= n * bits / 8,
    ensures
        r@.len() == n,
        forall|i: int|
            0 <= i < n ==> r@[i] as int == lane_of(
                input@.subrange(0, n * bits / 8),
                bits as nat,
                i,
            ),
{
    let ghost m = (n * bits / 8) as int;
    let ghost bs = input@.subrange(0, m);
    let ghost total = le_value(bs);
    let ghost b = bits as nat;
    proof {
        lemma2_to64();
        lemma_bytes_fit(bs);
        lemma_packed_value_nonneg(lanes_u8(bs), 8);
        assert(bs.subrange(0, m) =~= bs);
        lemma_fundamental_div_mod((n * bits) as int, 8);
    }
    let mut out: Vec<u64> = Vec::new();
    let mut k: usize = 0;
    let mut rem: u32 = 0;
    let mut avail: u32 = 0;
    let mut i: usize = 0;
    while i < n
        invariant
            1 <= bits <= 64,
            n <= 64,
            b == bits as nat,
            m == n * bits / 8,
            n * bits == 8 * m,
            input@.len() >= m,
            bs == input@.subrange(0, m),
            total == le_value(bs),
            total >= 0,
            0 <= i <= n,
            out@.len() == i,
            forall|j: int| 0 <= j < i ==> out@[j] as int == lane_of(bs, b, j),
            8 * k - avail == i * bits,
            avail <= 8,
            k <= m,
            rem < two_to(avail as int),
            total / two_to(i * bits) == rem + two_to(avail as int) * le_value(
                bs.subrange(k as int, m),
            ),
        decreases n - i,
    {
        let ghost y = total / two_to(i * bits);
        proof {
            lemma2_to64();
        }
        let mut lane: u128 = 0;
        let mut wt: u128 = 1;
        let mut t: usize = 0;
        while t < bits
            invariant
                1 <= bits <= 64,
                n <= 64,
                b == bits as nat,
                m == n * bits / 8,
                n * bits == 8 * m,
                input@.len() >= m,
                bs == input@.subrange(0, m),
                total == le_value(bs),
                total >= 0,
                0 <= i < n,
                0 <= t <= bits,
                y == total / two_to(i * bits),
                lane == y % two_to(t as int),
                wt == two_to(t as int),
                8 * k - avail == i * bits + t,
                avail <= 8,
                k <= m,
                rem < two_to(avail as int),
                total / two_to(i * bits + t) == rem + two_to(avail as int) * le_value(
                    bs.subrange(k as int, m),
                ),
            decreases bits - t,
        {
            let ghost pos = i * bits + t;
            proof {
                lemma2_to64();
                lemma2_to64_rest();
                lemma_pow2_pos(pos as nat);
                lemma_pow2_pos((i * bits) as nat);
                lemma_pow2_pos(t as nat);
                lemma_pow2_succ(t as nat);
                lemma_pow2_adds((i * bits) as nat, t as nat);
            }
            if avail == 0 {
                proof {
                    assert(i * bits + t < n * bits) by (nonlinear_arith)
                        requires
                            i < n,
                            t < bits,
                    ;
                    assert(k < m);
                    let tail = bs.subrange(k as int, m);
                    lemma_le_value_unfold(tail);
                    assert(tail.drop_first() =~= bs.subrange(k + 1, m));
                    assert(tail[0] == input@[k as int]);
                    assert(two_to(0) == 1);
                    assert(two_to(avail as int) == 1);
                    assert(rem == 0);
                    assert(total / two_to(pos) == le_value(tail));
                }
                rem = input[k] as u32;
                k = k + 1;
                avail = 8;
            }
            let ghost x = total / two_to(pos);
            let ghost rest = le_value(bs.subrange(k as int, m));
            proof {
                assert(avail >= 1);
                assert(x == rem + two_to(avail as int) * rest);
                lemma_pow2_succ((avail - 1) as nat);
                lemma_bytes_fit(bs.subrange(k as int, m));
                lemma_packed_value_nonneg(lanes_u8(bs.subrange(k as int, m)), 8);
                let half = two_to(avail - 1);
                assert(x == (rem % 2) as int + 2 * ((rem / 2) as int + half * rest)) by (
                nonlinear_arith)
                    requires
                        x == rem + (2 * half) * rest,
                        rem as int == 2 * (rem / 2) as int + (rem % 2) as int,
                ;
                assert(half * rest >= 0) by (nonlinear_arith)
                    requires
                        half > 0,
                        rest >= 0,
                ;
                lemma_fundamental_div_mod_converse(
                    x,
                    2,
                    (rem / 2) as int + half * rest,
                    (rem % 2) as int,
                );
                lemma_div_denominator(total, two_to(pos), 2);
                lemma_pow2_succ(pos as nat);
                lemma_div_denominator(total, two_to(i * bits), two_to(t as int));
                assert(y >= 0);
                assert(y / two_to(t as int) == x);
                lemma_mod_breakdown(y, two_to(t as int), 2);
                assert(two_to(t as int) * 2 == two_to(t + 1));
                assert(y % two_to(t + 1) == two_to(t as int) * (x % 2) + lane);
                assert((rem / 2) < half) by (nonlinear_arith)
                    requires
                        rem < 2 * half,
                ;
                lemma_pow2_strictly_increases(t as nat, 65);
                assert(lane < wt);
            }
            let bit = rem % 2;
            rem = rem / 2;
            avail = avail - 1;
            proof {
                assert(bit * wt <= wt) by (nonlinear_arith)
                    requires
                        bit <= 1,
                ;
            }
            lane = lane + (bit as u128) * wt;
            wt = wt * 2;
            t = t + 1;
        }
        proof {
            lemma2_to64();
            lemma_pow2_strictly_increases(b, 65);
            lemma_pow2_pos(b);
            assert(lane < two_to(b as int));
            assert(two_to(64) == 0x10000000000000000);
            if b < 64 {
                lemma_pow2_strictly_increases(b, 64);
            }
            assert(i * bits + bits == (i + 1) * bits) by (nonlinear_arith);
        }
        out.push(lane as u64);
        i = i + 1;
    }
    out
}

/// `out` is `before` with the packed lanes written over its first bytes, or
/// all zero when `bits == 0`.
pub open spec fn packed_into(out: Seq<u8>, before: Seq<u8>, lanes: Seq<int>, bits: nat) -> bool {
    &&& out.len() == before.len()
    &&& bits == 0 ==> forall|j: int| 0 <= j < out.len() ==> out[j] == 0
    &&& bits > 0 ==> out == packed_bytes(lanes, bits) + before.subrange(
        packed_bytes(lanes, bits).len() as int,
        before.len() as int,
    )
}

fn pack_into(lanes: &Vec<u64>, output: &mut [u8], num_bits: usize)
    requires
        num_bits <= 64,
        lanes@.len() <= 64,
        lanes@.len() % 8 == 0,
        old(output)@.len() >= lanes@.len() / 8 * num_bits,
        lanes_fit(lanes_u64(lanes@), num_bits as nat),
    ensures
        packed_into(final(output)@, old(output)@, lanes_u64(lanes@), num_bits as nat),
{
    if num_bits == 0 {
        let mut j: usize = 0;
        while j < output.len()
            invariant
                0 <= j <= output@.len(),
                output@.len() == old(output)@.len(),
                forall|a: int| 0 <= a < j ==> output@[a] == 0,
            decreases output@.len() - j,
        {
            output[j] = 0;
            j = j + 1;
        }
    } else {
        let ghost n = lanes@.len();
        proof {
            assert((n * num_bits) % 8 == 0 && n * num_bits / 8 == n / 8 * num_bits) by (
            nonlinear_arith)
                requires
                    n % 8 == 0,
                    n >= 0,
            {
                let q = n / 8;
                assert(n == 8 * q);
                assert(n * num_bits == 8 * (q * num_bits));
            }
        }
        let ghost before = output@;
        pack_lanes(lanes, num_bits, output);
        proof {
            let pb = packed_bytes(lanes_u64(lanes@), num_bits as nat);
            assert(output@ =~= pb + before.subrange(pb.len() as int, before.len() as int));
        }
    }
}

fn unpack_into_lanes(input: &[u8], n: usize, num_bits: usize) -> (r: Vec<u64>)
    requires
        num_bits <= 64,
        n <= 64,
        n % 8 == 0,
        input@.len() >= n / 8 * num_bits,
    ensures
        r@.len() == n,
        forall|i: int|
            0 <= i < n ==> r@[i] as int == lane_of(
                input@.subrange(0, n / 8 * num_bits),
                num_bits as nat,
                i,
            ),
        forall|i: int| 0 <= i < n ==> r@[i] < two_to(num_bits as int),
{
    proof {
        assert((n * num_bits) % 8 == 0 && n * num_bits / 8 == n / 8 * num_bits) by (
        nonlinear_arith)
            requires
                n % 8 == 0,
                n >= 0,
        {
            let q = n / 8;
            assert(n == 8 * q);
            assert(n * num_bits == 8 * (q * num_bits));
        }
        lemma_pow2_pos(num_bits as nat);
    }
    if num_bits == 0 {
        let mut r: Vec<u64> = Vec::new();
        let mut i: usize = 0;
        proof {
            lemma2_to64();
        }
        while i < n
            invariant
                0 <= i <= n,
                num_bits == 0,
                two_to(0) == 1,
                r@.len() == i,
                forall|j: int| 0 <= j < i ==> r@[j] == 0,
            decreases n - i,
        {
            r.push(0);
            i = i + 1;
        }
        r
    } else {
        unpack_lanes(input, n, num_bits)
    }
}

/// Packs the 8 lanes of `input`, each of `num_bits` bits, into the first
/// `8 * num_bits / 8` bytes of `output`; with `num_bits == 0` every byte
/// of `output` is zeroed.
pub fn pack8(input: &[u8; 8], output: &mut [u8], num_bits: usize)
    requires
        num_bits <= 8,
        old(output)@.len() >= 1 * num_bits,
        lanes_fit(lanes_u8(input@), num_bits as nat),
    ensures
        packed_into(final(output)@, old(output)@, lanes_u8(input@), num_bits as nat),
{
    let mut lanes: Vec<u64> = Vec::new();
    let mut i: usize = 0;
    while i < 8
        invariant
            0 <= i <= 8,
            input@.len() == 8,
            lanes@.len() == i,
            forall|j: int| 0 <= j < i ==> lanes@[j] as int == input@[j] as int,
        decreases 8 - i,
    {
        let x = input[i];
        lanes.push(x as u64);
        proof {
            assert(x == input@[i as int]);
        }
        i = i + 1;
    }
    proof {
        assert(lanes_u64(lanes@) =~= lanes_u8(input@));
    }
    pack_into(&lanes, output, num_bits);
}

/// Reads the 8 lanes of `num_bits` bits packed in the first
/// `8 * num_bits / 8` bytes of `input` into `output`.
pub fn unpack8(input: &[u8], output: &mut [u8; 8], num_bits: usize)
    requires
        num_bits <= 8,
        input@.len() >= 1 * num_bits,
    ensures
        forall|i: int|
            0 <= i < 8 ==> final(output)@[i] as int == lane_of(
                input@.subrange(0, 1 * num_bits),
                num_bits as nat,
                i,
            ),
{
    let lanes = unpack_into_lanes(input, 8, num_bits);
    proof {
        assert(8usize / 8 * num_bits == 1 * num_bits);
        lemma2_to64();
        if num_bits < 8 {
            lemma_pow2_strictly_increases(num_bits as nat, 8);
        }
    }
    let mut i: usize = 0;
    while i < 8
        invariant
            0 <= i <= 8,
            num_bits <= 8,
            input@.len() >= 1 * num_bits,
            lanes@.len() == 8,
            two_to(8) == 0x100,
            forall|j: int| 0 <= j < 8 ==> lanes@[j] < two_to(num_bits as int),
            forall|j: int|
                0 <= j < 8 ==> lanes@[j] as int == lane_of(
                    input@.subrange(0, 1 * num_bits),
                    num_bits as nat,
                    j,
                ),
            two_to(num_bits as int) <= 0x100,
            output@.len() == 8,
            forall|j: int| 0 <= j < i ==> output@[j] as int == lanes@[j] as int,
        decreases 8 - i,
    {
        output[i] = lanes[i] as u8;
        i = i + 1;
    }
    assert forall|j: int| 0 <= j < 8 implies output@[j] as int == lane_of(
        input@.subrange(0, 1 * num_bits),
        num_bits as nat,
        j,
    ) by {
        assert(output@[j] as int == lanes@[j] as int);
    }
}

/// Packs the 16 lanes of `input`, each of `num_bits` bits, into the first
/// `16 * num_bits / 8` bytes of `output`; with `num_bits == 0` every byte
/// of `output` is zeroed.
pub fn pack16(input: &[u16; 16], output: &mut [u8], num_bits: usize)
    requires
        num_bits <= 16,
        old(output)@.len() >= 2 * num_bits,
        lanes_fit(lanes_u16(input@), num_bits as nat),
    ensures
        packed_into(final(output)@, old(output)@, lanes_u16(input@), num_bits as nat),
{
    let mut lanes: Vec<u64> = Vec::new();
    let mut i: usize = 0;
    while i < 16
        invariant
            0 <= i <= 16,
            input@.len() == 16,
            lanes@.len() == i,
            forall|j: int| 0 <= j < i ==> lanes@[j] as int == input@[j] as int,
        decreases 16 - i,
    {
        let x = input[i];
        lanes.push(x as u64);
        proof {
            assert(x == input@[i as int]);
        }
        i = i + 1;
    }
    proof {
        assert(lanes_u64(lanes@) =~= lanes_u16(input@));
    }
    pack_into(&lanes, output, num_bits);
}

/// Reads the 16 lanes of `num_bits` bits packed in the first
/// `16 * num_bits / 8` bytes of `input` into `output`.
pub fn unpack16(input: &[u8], output: &mut [u16; 16], num_bits: usize)
    requires
        num_bits <= 16,
        input@.len() >= 2 * num_bits,
    ensures
        forall|i: int|
            0 <= i < 16 ==> final(output)@[i] as int == lane_of(
                input@.subrange(0, 2 * num_bits),
                num_bits as nat,
                i,
            ),
{
    let lanes = unpack_into_lanes(input, 16, num_bits);
    proof {
        assert(16usize / 8 * num_bits == 2 * num_bits);
        lemma2_to64();
        if num_bits < 16 {
            lemma_pow2_strictly_increases(num_bits as nat, 16);
        }
    }
    let mut i: usize = 0;
    while i < 16
        invariant
            0 <= i <= 16,
            num_bits <= 16,
            input@.len() >= 2 * num_bits,
            lanes@.len() == 16,
            two_to(16) == 0x10000,
            forall|j: int| 0 <= j < 16 ==> lanes@[j] < two_to(num_bits as int),
            forall|j: int|
                0 <= j < 16 ==> lanes@[j] as int == lane_of(
                    input@.subrange(0, 2 * num_bits),
                    num_bits as nat,
                    j,
                ),
            two_to(num_bits as int) <= 0x10000,
            output@.len() == 16,
            forall|j: int| 0 <= j < i ==> output@[j] as int == lanes@[j] as int,
        decreases 16 - i,
    {
        output[i] = lanes[i] as u16;
        i = i + 1;
    }
    assert forall|j: int| 0 <= j < 16 implies output@[j] as int == lane_of(
        input@.subrange(0, 2 * num_bits),
        num_bits as nat,
        j,
    ) by {
        assert(output@[j] as int == lanes@[j] as int);
    }
}

/// Packs the 32 lanes of `input`, each of `num_bits` bits, into the first
/// `32 * num_bits / 8` bytes of `output`; with `num_bits == 0` every byte
/// of `output` is zeroed.
pub fn pack32(input: &[u32; 32], output: &mut [u8], num_bits: usize)
    requires
        num_bits <= 32,
        old(output)@.len() >= 4 * num_bits,
        lanes_fit(lanes_u32(input@), num_bits as nat),
    ensures
        packed_into(final(output)@, old(output)@, lanes_u32(input@), num_bits as nat),
{
    let mut lanes: Vec<u64> = Vec::new();
    let mut i: usize = 0;
    while i < 32
        invariant
            0 <= i <= 32,
            input@.len() == 32,
            lanes@.len() == i,
            forall|j: int| 0 <= j < i ==> lanes@[j] as int == input@[j] as int,
        decreases 32 - i,
    {
        let x = input[i];
        lanes.push(x as u64);
        proof {
            assert(x == input@[i as int]);
        }
        i = i + 1;
    }
    proof {
        assert(lanes_u64(lanes@) =~= lanes_u32(input@));
    }
    pack_into(&lanes, output, num_bits);
}

/// Reads the 32 lanes of `num_bits` bits packed in the first
/// `32 * num_bits / 8` bytes of `input` into `output`.
pub fn unpack32(input: &[u8], output: &mut [u32; 32], num_bits: usize)
    requires
        num_bits <= 32,
        input@.len() >= 4 * num_bits,
    ensures
        forall|i: int|
            0 <= i < 32 ==> final(output)@[i] as int == lane_of(
                input@.subrange(0, 4 * num_bits),
                num_bits as nat,
                i,
            ),
{
    let lanes = unpack_into_lanes(input, 32, num_bits);
    proof {
        assert(32usize / 8 * num_bits == 4 * num_bits);
        lemma2_to64();
        if num_bits < 32 {
            lemma_pow2_strictly_increases(num_bits as nat, 32);
        }
    }
    let mut i: usize = 0;
    while i < 32
        invariant
            0 <= i <= 32,
            num_bits <= 32,
            input@.len() >= 4 * num_bits,
            lanes@.len() == 32,
            two_to(32) == 0x1_0000_0000,
            forall|j: int| 0 <= j < 32 ==> lanes@[j] < two_to(num_bits as int),
            forall|j: int|
                0 <= j < 32 ==> lanes@[j] as int == lane_of(
                    input@.subrange(0, 4 * num_bits),
                    num_bits as nat,
                    j,
                ),
            two_to(num_bits as int) <= 0x1_0000_0000,
            output@.len() == 32,
            forall|j: int| 0 <= j < i ==> output@[j] as int == lanes@[j] as int,
        decreases 32 - i,
    {
        output[i] = lanes[i] as u32;
        i = i + 1;
    }
    assert forall|j: int| 0 <= j < 32 implies output@[j] as int == lane_of(
        input@.subrange(0, 4 * num_bits),
        num_bits as nat,
        j,
    ) by {
        assert(output@[j] as int == lanes@[j] as int);
    }
}

/// Packs the 64 lanes of `input`, each of `num_bits` bits, into the first
/// `64 * num_bits / 8` bytes of `output`; with `num_bits == 0` every byte
/// of `output` is zeroed.
pub fn pack64(input: &[u64; 64], output: &mut [u8], num_bits: usize)
    requires
        num_bits <= 64,
        old(output)@.len() >= 8 * num_bits,
        lanes_fit(lanes_u64(input@), num_bits as nat),
    ensures
        packed_into(final(output)@, old(output)@, lanes_u64(input@), num_bits as nat),
{
    let mut lanes: Vec<u64> = Vec::new();
    let mut i: usize = 0;
    while i < 64
        invariant
            0 <= i <= 64,
            input@.len() == 64,
            lanes@.len() == i,
            forall|j: int| 0 <= j < i ==> lanes@[j] as int == input@[j] as int,
        decreases 64 - i,
    {
        let x = input[i];
        lanes.push(x as u64);
        proof {
            assert(x == input@[i as int]);
        }
        i = i + 1;
    }
    proof {
        assert(lanes_u64(lanes@) =~= lanes_u64(input@));
    }
    pack_into(&lanes, output, num_bits);
}

/// Reads the 64 lanes of `num_bits` bits packed in the first
/// `64 * num_bits / 8` bytes of `input` into `output`.
pub fn unpack64(input: &[u8], output: &mut [u64; 64], num_bits: usize)
    requires
        num_bits <= 64,
        input@.len() >= 8 * num_bits,
    ensures
        forall|i: int|
            0 <= i < 64 ==> final(output)@[i] as int == lane_of(
                input@.subrange(0, 8 * num_bits),
                num_bits as nat,
                i,
            ),
{
    let lanes = unpack_into_lanes(input, 64, num_bits);
    proof {
        assert(64usize / 8 * num_bits == 8 * num_bits);
        lemma2_to64();
        if num_bits < 64 {
            lemma_pow2_strictly_increases(num_bits as nat, 64);
        }
    }
    let mut i: usize = 0;
    while i < 64
        invariant
            0 <= i <= 64,
            num_bits <= 64,
            input@.len() >= 8 * num_bits,
            lanes@.len() == 64,
            two_to(64) == 0x1_0000_0000_0000_0000,
            forall|j: int| 0 <= j < 64 ==> lanes@[j] < two_to(num_bits as int),
            forall|j: int|
                0 <= j < 64 ==> lanes@[j] as int == lane_of(
                    input@.subrange(0, 8 * num_bits),
                    num_bits as nat,
                    j,
                ),
            two_to(num_bits as int) <= 0x1_0000_0000_0000_0000,
            output@.len() == 64,
            forall|j: int| 0 <= j < i ==> output@[j] as int == lanes@[j] as int,
        decreases 64 - i,
    {
        output[i] = lanes[i] as u64;
        i = i + 1;
    }
    assert forall|j: int| 0 <= j < 64 implies output@[j] as int == lane_of(
        input@.subrange(0, 8 * num_bits),
        num_bits as nat,
        j,
    ) by {
        assert(output@[j] as int == lanes@[j] as int);
    }
}

/// The first `n` base-`2^bits` digits of `x`, least significant first.
pub open spec fn digits(x: int, bits: nat, n: nat) -> Seq<int> {
    Seq::new(n, |i: int| (x / two_to(i * bits)) % two_to(bits as int))
}

pub(crate) proof fn lemma_value_bound(lanes: Seq<int>, bits: nat)
    requires
        lanes_fit(lanes, bits),
    ensures
        0 <= packed_value(lanes, bits) < two_to((lanes.len() * bits) as int),
    decreases lanes.len(),
{
    lemma2_to64();
    if lanes.len() > 0 {
        let rest = lanes.drop_first();
        lemma_fit_subrange(lanes, bits, 1, lanes.len() as int);
        assert(rest =~= lanes.subrange(1, lanes.len() as int));
        lemma_value_bound(rest, bits);
        let p = two_to(bits as int);
        let q = two_to((rest.len() * bits) as int);
        lemma_pow2_adds(bits, (rest.len() * bits) as nat);
        assert(bits + rest.len() * bits == lanes.len() * bits) by (nonlinear_arith)
            requires
                rest.len() + 1 == lanes.len(),
        ;
        let pv = packed_value(rest, bits);
        assert(0 <= lanes[0] + p * pv < p * q) by (nonlinear_arith)
            requires
                0 <= lanes[0] < p,
                0 <= pv < q,
        ;
    }
}

proof fn lemma_digit_of_value(lanes: Seq<int>, bits: nat, i: int)
    requires
        lanes_fit(lanes, bits),
        0 <= i < lanes.len(),
    ensures
        (packed_value(lanes, bits) / two_to(i * bits)) % two_to(bits as int) == lanes[i],
    decreases i,
{
    lemma2_to64();
    let rest = lanes.drop_first();
    let p = two_to(bits as int);
    let pv = packed_value(rest, bits);
    let v = packed_value(lanes, bits);
    lemma_pow2_pos(bits);
    lemma_fit_subrange(lanes, bits, 1, lanes.len() as int);
    assert(rest =~= lanes.subrange(1, lanes.len() as int));
    lemma_value_bound(rest, bits);
    lemma_fundamental_div_mod_converse(v, p, pv, lanes[0]);
    if i == 0 {
        assert(i * bits == 0);
        assert(two_to(0) == 1);
        assert(v / 1 == v);
    } else {
        lemma_pow2_pos(((i - 1) * bits) as nat);
        lemma_pow2_adds(bits, ((i - 1) * bits) as nat);
        assert(bits + (i - 1) * bits == i * bits) by (nonlinear_arith);
        assert(v >= 0) by (nonlinear_arith)
            requires
                v == lanes[0] + p * pv,
                lanes[0] >= 0,
                p > 0,
                pv >= 0,
        ;
        lemma_div_denominator(v, p, two_to((i - 1) * bits));
        assert(two_to(i * bits) == p * two_to((i - 1) * bits));
        assert(v / two_to(i * bits) == pv / two_to((i - 1) * bits));
        lemma_digit_of_value(rest, bits, i - 1);
        assert(rest[i - 1] == lanes[i]);
    }
}

pub(crate) proof fn lemma_value_of_digits(x: int, bits: nat, n: nat)
    requires
        bits >= 1,
        0 <= x < two_to((n * bits) as int),
    ensures
        packed_value(digits(x, bits, n), bits) == x,
    decreases n,
{
    lemma2_to64();
    let d = digits(x, bits, n);
    let p = two_to(bits as int);
    lemma_pow2_pos(bits);
    if n > 0 {
        let y = x / p;
        let q = two_to((n - 1) * bits);
        lemma_pow2_adds(bits, ((n - 1) * bits) as nat);
        assert(bits + (n - 1) * bits == n * bits) by (nonlinear_arith)
            requires
                n >= 1,
        ;
        lemma_fundamental_div_mod(x, p);
        assert(0 <= y < q) by (nonlinear_arith)
            requires
                x == p * y + x % p,
                0 <= x % p < p,
                0 <= x < p * q,
                p > 0,
        ;
        assert forall|i: int| 0 <= i < n - 1 implies #[trigger] d.drop_first()[i] == digits(
            y,
            bits,
            (n - 1) as nat,
        )[i] by {
            lemma_pow2_pos((i * bits) as nat);
            lemma_pow2_adds(bits, (i * bits) as nat);
            assert(bits + i * bits == (i + 1) * bits) by (nonlinear_arith);
            lemma_div_denominator(x, p, two_to(i * bits));
        }
        assert(d.drop_first() =~= digits(y, bits, (n - 1) as nat));
        lemma_value_of_digits(y, bits, (n - 1) as nat);
        assert(d[0] == x % p) by {
            assert(0 * bits == 0);
            assert(two_to(0) == 1);
            assert(x / 1 == x);
        }
        assert(packed_value(d, bits) == d[0] + p * packed_value(d.drop_first(), bits));
    } else {
        assert(n * bits == 0);
        assert(two_to(0) == 1);
    }
}

/// Unpacking what was packed gives the lanes back, for every lane count
/// that fills whole bytes and every width the lanes fit in.
pub proof fn lemma_unpack_pack(lanes: Seq<int>, bits: nat)
    requires
        bits >= 1,
        lanes_fit(lanes, bits),
        (lanes.len() * bits) % 8 == 0,
    ensures
        forall|i: int|
            0 <= i < lanes.len() ==> #[trigger] lane_of(packed_bytes(lanes, bits), bits, i)
                == lanes[i],
{
    lemma2_to64();
    let v = packed_value(lanes, bits);
    let m = (lanes.len() * bits / 8) as nat;
    let pb = packed_bytes(lanes, bits);
    lemma_value_bound(lanes, bits);
    lemma_fundamental_div_mod((lanes.len() * bits) as int, 8);
    assert(lanes.len() * bits == m * 8);
    assert forall|j: int| 0 <= j < m implies #[trigger] lanes_u8(pb)[j] == digits(v, 8, m)[j] by {
        lemma_pow2_pos((j * 8) as nat);
        assert(8 * j == j * 8);
    }
    assert(lanes_u8(pb) =~= digits(v, 8, m));
    lemma_value_of_digits(v, 8, m);
    assert forall|i: int| 0 <= i < lanes.len() implies #[trigger] lane_of(pb, bits, i)
        == lanes[i] by {
        lemma_digit_of_value(lanes, bits, i);
    }
}

/// Packing the lanes read back from packed bytes gives the bytes back.
pub proof fn lemma_pack_unpack(bytes: Seq<u8>, bits: nat, n: nat)
    requires
        bits >= 1,
        bytes.len() * 8 == n * bits,
    ensures
        packed_bytes(Seq::new(n, |i: int| lane_of(bytes, bits, i)), bits) == bytes,
{
    lemma2_to64();
    let v = le_value(bytes);
    let lanes = Seq::new(n, |i: int| lane_of(bytes, bits, i));
    lemma_bytes_fit(bytes);
    lemma_value_bound(lanes_u8(bytes), 8);
    assert(bytes.len() * 8 == 8 * bytes.len());
    assert(lanes =~= digits(v, bits, n));
    lemma_value_of_digits(v, bits, n);
    let pb = packed_bytes(lanes, bits);
    assert(pb.len() == bytes.len());
    assert forall|j: int| 0 <= j < bytes.len() implies #[trigger] pb[j] == bytes[j] by {
        lemma_digit_of_value(lanes_u8(bytes), 8, j);
        assert(8 * j == j * 8);
    }
    assert(pb =~= bytes);
}

proof fn lemma_value_concat(a: Seq<int>, b: Seq<int>, bits: nat)
    ensures
        packed_value(a + b, bits) == packed_value(a, bits) + two_to((a.len() * bits) as int)
            * packed_value(b, bits),
    decreases a.len(),
{
    lemma2_to64();
    if a.len() == 0 {
        assert(a + b =~= b);
        assert(a.len() * bits == 0);
        assert(two_to(0) == 1);
    } else {
        assert((a + b).drop_first() =~= a.drop_first() + b);
        lemma_value_concat(a.drop_first(), b, bits);
        let p = two_to(bits as int);
        let q = two_to((a.drop_first().len() * bits) as int);
        lemma_pow2_adds(bits, (a.drop_first().len() * bits) as nat);
        assert(bits + a.drop_first().len() * bits == a.len() * bits) by (nonlinear_arith)
            requires
                a.drop_first().len() + 1 == a.len(),
        ;
        let va = packed_value(a.drop_first(), bits);
        let vb = packed_value(b, bits);
        assert(p * (va + q * vb) == p * va + (p * q) * vb) by (nonlinear_arith);
        assert((a + b)[0] == a[0]);
        assert(two_to((a.len() * bits) as int) == p * q);
        assert(packed_value(a + b, bits) == a[0] + p * packed_value(a.drop_first() + b, bits));
    }
}

proof fn lemma_le_of_packed_bytes(lanes: Seq<int>, bits: nat)
    requires
        lanes_fit(lanes, bits),
        (lanes.len() * bits) % 8 == 0,
    ensures
        le_value(packed_bytes(lanes, bits)) == packed_value(lanes, bits),
{
    lemma2_to64();
    let v = packed_value(lanes, bits);
    let m = (lanes.len() * bits / 8) as nat;
    let pb = packed_bytes(lanes, bits);
    lemma_value_bound(lanes, bits);
    lemma_fundamental_div_mod((lanes.len() * bits) as int, 8);
    assert(lanes.len() * bits == m * 8);
    assert forall|j: int| 0 <= j < m implies #[trigger] lanes_u8(pb)[j] == digits(v, 8, m)[j] by {
        lemma_pow2_pos((j * 8) as nat);
        assert(8 * j == j * 8);
    }
    assert(lanes_u8(pb) =~= digits(v, 8, m));
    lemma_value_of_digits(v, 8, m);
}

/// Packing two blocks one after the other, the first filling whole bytes,
/// gives the bytes of the two blocks packed separately.
pub proof fn lemma_packed_bytes_concat(a: Seq<int>, b: Seq<int>, bits: nat)
    requires
        bits >= 1,
        lanes_fit(a, bits),
        lanes_fit(b, bits),
        (a.len() * bits) % 8 == 0,
        (b.len() * bits) % 8 == 0,
    ensures
        packed_bytes(a + b, bits) == packed_bytes(a, bits) + packed_bytes(b, bits),
{
    lemma2_to64();
    let ab = a + b;
    let x = packed_bytes(a, bits) + packed_bytes(b, bits);
    let ma = (a.len() * bits / 8) as nat;
    let mb = (b.len() * bits / 8) as nat;
    lemma_fundamental_div_mod((a.len() * bits) as int, 8);
    lemma_fundamental_div_mod((b.len() * bits) as int, 8);
    assert(ab.len() * bits == a.len() * bits + b.len() * bits) by (nonlinear_arith)
        requires
            ab.len() == a.len() + b.len(),
    ;
    lemma_fundamental_div_mod((ab.len() * bits) as int, 8);
    assert(lanes_fit(ab, bits)) by {
        assert forall|i: int| 0 <= i < ab.len() implies 0 <= #[trigger] ab[i] < pow2(bits) by {
            if i < a.len() {
                assert(ab[i] == a[i]);
            } else {
                assert(ab[i] == b[i - a.len()]);
            }
        }
    }
    lemma_value_concat(a, b, bits);
    lemma_le_of_packed_bytes(a, bits);
    lemma_le_of_packed_bytes(b, bits);
    assert(lanes_u8(x) =~= lanes_u8(packed_bytes(a, bits)) + lanes_u8(packed_bytes(b, bits)));
    lemma_value_concat(lanes_u8(packed_bytes(a, bits)), lanes_u8(packed_bytes(b, bits)), 8);
    assert(ma * 8 == a.len() * bits);
    let v = le_value(x);
    assert(v == packed_value(ab, bits));
    let pb = packed_bytes(ab, bits);
    assert(pb.len() == x.len());
    lemma_bytes_fit(x);
    assert forall|j: int| 0 <= j < x.len() implies #[trigger] pb[j] == x[j] by {
        lemma_digit_of_value(lanes_u8(x), 8, j);
        assert(8 * j == j * 8);
    }
    assert(pb =~= x);
}

} // verus!
