//! The Reed–Solomon error correction engine: GF(256) arithmetic over the
//! primitive polynomial 0x11D, per-block parity codewords, and the
//! interleaving of data and parity blocks into symbol order.
use vstd::prelude::*;

use crate::bits::{spec_max_len, spec_ok_len, DATA_LENGTHS};
use crate::types::{EcLevel, QrError, QrResult, Version};

verus! {

/// The total number of codewords (data and error correction together) of
/// each version, in the order of the 76-row standard tables.
pub const TOTAL_CODEWORDS: [usize; 76] = [
    // Normal versions
    26, 44, 70, 100, 134, 172, 196, 242, 292, 346, 404, 466, 532, 581, 655, 733, 815, 901, 991,
    1085, 1156, 1258, 1364, 1474, 1588, 1706, 1828, 1921, 2051, 2185, 2323, 2465, 2611, 2761,
    2876, 3034, 3196, 3362, 3532, 3706,
    // Micro versions
    5, 10, 17, 24,
    // rMQR versions
    13, 21, 32, 44, 68, 21, 33, 49, 66, 99, 15, 31, 47, 67, 89, 132, 21, 41, 60, 85, 113, 166, 51,
    74, 103, 136, 199, 61, 88, 122, 160, 232,
];

/// The number of error correction bytes per block of each Normal version,
/// in the order [L, M, Q, H]. Micro and rMQR symbols use a single block.
pub const EC_BYTES_PER_BLOCK: [[usize; 4]; 40] = [
    [7, 10, 13, 17],
    [10, 16, 22, 28],
    [15, 26, 18, 22],
    [20, 18, 26, 16],
    [26, 24, 18, 22],
    [18, 16, 24, 28],
    [20, 18, 18, 26],
    [24, 22, 22, 26],
    [30, 22, 20, 24],
    [18, 26, 24, 28],
    [20, 30, 28, 24],
    [24, 22, 26, 28],
    [26, 22, 24, 22],
    [30, 24, 20, 24],
    [22, 24, 30, 24],
    [24, 28, 24, 30],
    [28, 28, 28, 28],
    [30, 26, 28, 28],
    [28, 26, 26, 26],
    [28, 26, 30, 28],
    [28, 26, 28, 30],
    [28, 28, 30, 24],
    [30, 28, 30, 30],
    [30, 28, 30, 30],
    [26, 28, 30, 30],
    [28, 28, 28, 30],
    [30, 28, 30, 30],
    [30, 28, 30, 30],
    [30, 28, 30, 30],
    [30, 28, 30, 30],
    [30, 28, 30, 30],
    [30, 28, 30, 30],
    [30, 28, 30, 30],
    [30, 28, 30, 30],
    [30, 28, 30, 30],
    [30, 28, 30, 30],
    [30, 28, 30, 30],
    [30, 28, 30, 30],
    [30, 28, 30, 30],
    [30, 28, 30, 30],
];

/// One doubling step in GF(256): multiply by `x` and reduce by the
/// primitive polynomial.
pub open spec fn spec_gf_double(aa: u16) -> u16 {
    let d = aa << 1u16;
    if d >= 0x100 {
        d ^ 0x11D
    } else {
        d
    }
}

/// The product of `a` and `b` in GF(256), as the sum over the set bits of
/// `b` of the correspondingly doubled `a`.
pub open spec fn spec_gf_mul_rec(aa: u16, bb: u8, rounds: nat) -> u16
    decreases rounds,
{
    if rounds == 0 {
        0
    } else {
        (if bb & 1 == 1 {
            aa
        } else {
            0
        }) ^ spec_gf_mul_rec(spec_gf_double(aa), bb >> 1u8, (rounds - 1) as nat)
    }
}

/// The product of two field elements of GF(256) over the primitive
/// polynomial `x^8 + x^4 + x^3 + x^2 + 1`.
pub open spec fn spec_gf_mul(a: u8, b: u8) -> u8 {
    spec_gf_mul_rec(a as u16, b, 8) as u8
}

/// The product of two field elements of GF(256) over the primitive
/// polynomial `x^8 + x^4 + x^3 + x^2 + 1`.
fn gf_mul(a: u8, b: u8) -> (r: u8)
    ensures
        r == spec_gf_mul(a, b),
{
    let mut result: u16 = 0;
    let mut aa: u16 = a as u16;
    let mut bb: u8 = b;
    let mut round: usize = 0;
    proof {
        assert(forall|x: u16, y: u16| #[trigger] (x ^ y) == y ^ x) by (bit_vector);
        assert(spec_gf_mul_rec(a as u16, b, 8) == 0 ^ spec_gf_mul_rec(a as u16, b, 8))
            by (bit_vector);
    }
    while round < 8
        invariant
            aa < 256,
            result < 256,
            round <= 8,
            spec_gf_mul_rec(a as u16, b, 8) == result ^ spec_gf_mul_rec(
                aa,
                bb,
                (8 - round) as nat,
            ),
        decreases 8 - round,
    {
        let ghost pre_result = result;
        let ghost pre_aa = aa;
        let ghost pre_bb = bb;
        if bb & 1 == 1 {
            proof {
                assert(result < 256 && aa < 256 ==> (result ^ aa) < 256) by (bit_vector);
            }
            result = result ^ aa;
        }
        let doubled = aa << 1u16;
        proof {
            assert(aa < 256 ==> (aa << 1u16) < 512) by (bit_vector);
            assert(forall|x: u16| x < 512 && x >= 256 ==> #[trigger] (x ^ 0x11D) < 256)
                by (bit_vector);
        }
        aa = if doubled >= 0x100 {
            doubled ^ 0x11D
        } else {
            doubled
        };
        bb = bb >> 1u8;
        round = round + 1;
        proof {
            assert(aa == spec_gf_double(pre_aa));
            let rest = spec_gf_mul_rec(aa, bb, (8 - round) as nat);
            assert(spec_gf_mul_rec(pre_aa, pre_bb, (9 - round) as nat) == (if pre_bb & 1 == 1 {
                pre_aa
            } else {
                0
            }) ^ rest);
            assert(forall|x: u16, y: u16, z: u16| #[trigger] (x ^ (y ^ z)) == (x ^ y) ^ z)
                by (bit_vector);
            assert(forall|x: u16| #[trigger] (x ^ 0) == x) by (bit_vector);
        }
    }
    proof {
        assert(spec_gf_mul_rec(aa, bb, 0) == 0);
        assert(forall|x: u16| #[trigger] (x ^ 0) == x) by (bit_vector);
        assert(result < 256 ==> result as u8 == spec_gf_mul(a, b) || !(result == spec_gf_mul_rec(
            a as u16,
            b,
            8,
        )));
    }
    result as u8
}

/// One multiplication of a high-to-low coefficient list by `(x - root)`.
pub open spec fn spec_gen_step(g: Seq<u8>, root: u8) -> Seq<u8> {
    Seq::new(
        g.len() + 1,
        |j: int|
            (if j < g.len() {
                g[j]
            } else {
                0
            }) ^ (if j >= 1 {
                spec_gf_mul(g[j - 1], root)
            } else {
                0
            }),
    )
}

/// The generator polynomial built up from root `alpha^i`, coefficients from
/// the leading term downward.
pub open spec fn spec_gen_from(i: nat, k: nat, g: Seq<u8>, root: u8) -> Seq<u8>
    decreases k - i,
{
    if i >= k {
        g
    } else {
        spec_gen_from(i + 1, k, spec_gen_step(g, root), spec_gf_mul(root, 2))
    }
}

/// The Reed-Solomon generator polynomial with `ec_count` roots: the product
/// of `(x - alpha^i)` for `i` below `ec_count`, coefficients from the
/// leading term downward.
pub open spec fn spec_generator(ec_count: nat) -> Seq<u8> {
    spec_gen_from(0, ec_count, seq![1u8], 1)
}

/// The generator polynomial of a root count.
fn generator_poly(ec_count: usize) -> (r: Vec<u8>)
    requires
        ec_count <= 4096,
    ensures
        r@ == spec_generator(ec_count as nat),
        r@.len() == ec_count + 1,
{
    let mut g: Vec<u8> = Vec::new();
    g.push(1);
    proof {
        assert(g@ =~= seq![1u8]);
    }
    let mut root: u8 = 1;
    let mut i: usize = 0;
    while i < ec_count
        invariant
            i <= ec_count <= 4096,
            g@.len() == i + 1,
            spec_generator(ec_count as nat) == spec_gen_from(i as nat, ec_count as nat, g@, root),
        decreases ec_count - i,
    {
        // multiply g by (x - root)
        let mut next: Vec<u8> = Vec::new();
        let mut j: usize = 0;
        while j < g.len() + 1
            invariant
                g@.len() == i + 1,
                i + 1 <= 4097,
                j <= g@.len() + 1,
                next@.len() == j,
                forall|t: int| 0 <= t < j ==> next@[t] == spec_gen_step(g@, root)[t],
            decreases g@.len() + 1 - j,
        {
            let high: u8 = if j < g.len() {
                g[j]
            } else {
                0
            };
            let low: u8 = if j >= 1 {
                gf_mul(g[j - 1], root)
            } else {
                0
            };
            next.push(high ^ low);
            j = j + 1;
        }
        proof {
            assert(next@ =~= spec_gen_step(g@, root));
        }
        g = next;
        root = gf_mul(root, 2);
        i = i + 1;
    }
    g
}

/// One reduction step of the polynomial division: cancel the leading
/// coefficient at `pos` by the generator, scaled by that coefficient.
pub open spec fn spec_reduce_step(buf: Seq<u8>, gen: Seq<u8>, pos: int) -> Seq<u8> {
    if buf[pos] == 0 {
        buf
    } else {
        Seq::new(
            buf.len(),
            |t: int|
                if pos <= t < pos + gen.len() {
                    buf[t] ^ spec_gf_mul(gen[t - pos], buf[pos])
                } else {
                    buf[t]
                },
        )
    }
}

/// The polynomial division run from position `pos` to `end`.
pub open spec fn spec_reduce(buf: Seq<u8>, gen: Seq<u8>, pos: int, end: int) -> Seq<u8>
    decreases end - pos,
{
    if pos >= end {
        buf
    } else {
        spec_reduce(spec_reduce_step(buf, gen, pos), gen, pos + 1, end)
    }
}

/// `k` zero bytes.
pub open spec fn spec_zero_bytes(k: nat) -> Seq<u8> {
    Seq::new(k, |t: int| 0u8)
}

/// The `k` Reed-Solomon parity bytes of a block: the remainder of the block
/// times `x^k` divided by the generator polynomial with `k` roots,
/// coefficients in big-endian order.
pub open spec fn spec_ec_remainder(block: Seq<u8>, k: nat) -> Seq<u8> {
    spec_reduce(block + spec_zero_bytes(k), spec_generator(k), 0, block.len() as int).subrange(
        block.len() as int,
        block.len() + k as int,
    )
}

/// The `ec_count` Reed-Solomon parity bytes of one data block.
pub fn ec_codewords(block: &[u8], ec_count: usize) -> (r: Vec<u8>)
    requires
        ec_count <= 4096,
        block@.len() + ec_count <= 65536,
    ensures
        r@ == spec_ec_remainder(block@, ec_count as nat),
        r@.len() == ec_count,
{
    let gen = generator_poly(ec_count);
    let mut buf: Vec<u8> = Vec::new();
    let mut i: usize = 0;
    while i < block.len()
        invariant
            i <= block@.len(),
            buf@.len() == i,
            block@.len() + ec_count <= 65536,
            forall|t: int| 0 <= t < i ==> buf@[t] == block@[t],
        decreases block@.len() - i,
    {
        buf.push(block[i]);
        i = i + 1;
    }
    let mut z: usize = 0;
    while z < ec_count
        invariant
            z <= ec_count,
            buf@.len() == block@.len() + z,
            block@.len() + ec_count <= 65536,
            forall|t: int| 0 <= t < block@.len() ==> buf@[t] == block@[t],
            forall|t: int| block@.len() <= t < block@.len() + z ==> buf@[t] == 0,
        decreases ec_count - z,
    {
        buf.push(0);
        z = z + 1;
    }
    let ghost buf0 = buf@;
    proof {
        assert(buf0 =~= block@ + spec_zero_bytes(ec_count as nat));
    }
    let mut pos: usize = 0;
    while pos < block.len()
        invariant
            pos <= block@.len(),
            buf@.len() == block@.len() + ec_count,
            gen@ == spec_generator(ec_count as nat),
            gen@.len() == ec_count + 1,
            block@.len() + ec_count <= 65536,
            spec_reduce(buf@, gen@, pos as int, block@.len() as int) == spec_reduce(
                buf0,
                gen@,
                0,
                block@.len() as int,
            ),
        decreases block@.len() - pos,
    {
        let factor = buf[pos];
        let ghost pre = buf@;
        if factor != 0 {
            let mut j: usize = 0;
            while j < gen.len()
                invariant
                    j <= gen@.len(),
                    gen@.len() == ec_count + 1,
                    pos < block@.len(),
                    buf@.len() == block@.len() + ec_count,
                    block@.len() + ec_count <= 65536,
                    factor == pre[pos as int],
                    factor != 0,
                    forall|t: int|
                        pos <= t < pos + j ==> buf@[t] == (pre[t] ^ spec_gf_mul(
                            gen@[t - pos],
                            pre[pos as int],
                        )),
                    forall|t: int|
                        (0 <= t < pos || pos + j <= t < buf@.len()) ==> buf@[t] == pre[t],
                decreases gen@.len() - j,
            {
                let b = buf[pos + j];
                proof {
                    assert(pos + j >= pos + 0);
                    assert(buf@[pos + j] == pre[pos + j]);
                }
                buf[pos + j] = b ^ gf_mul(gen[j], factor);
                j = j + 1;
            }
            proof {
                assert(buf@ =~= spec_reduce_step(pre, gen@, pos as int));
            }
        } else {
            proof {
                assert(buf@ == spec_reduce_step(pre, gen@, pos as int));
            }
        }
        pos = pos + 1;
    }
    let mut r: Vec<u8> = Vec::new();
    let mut t: usize = 0;
    while t < ec_count
        invariant
            t <= ec_count,
            r@.len() == t,
            buf@.len() == block@.len() + ec_count,
            block@.len() + ec_count <= 65536,
            forall|u: int| 0 <= u < t ==> r@[u] == buf@[block@.len() + u],
        decreases ec_count - t,
    {
        r.push(buf[block.len() + t]);
        t = t + 1;
    }
    proof {
        assert(spec_reduce(buf@, gen@, block@.len() as int, block@.len() as int) == buf@);
        assert(r@ =~= spec_ec_remainder(block@, ec_count as nat));
    }
    r
}

/// The number of error correction bytes of a version and level: the total
/// codewords minus the terminated data bytes.
pub open spec fn spec_ec_total(version: Version, ec_level: EcLevel) -> int {
    match version.spec_table_index() {
        Some(idx) => {
            let expected = (spec_ok_len(spec_max_len(version, ec_level)) + 7) / 8;
            if TOTAL_CODEWORDS[idx] > expected {
                TOTAL_CODEWORDS[idx] - expected
            } else {
                0
            }
        },
        None => 0,
    }
}

/// The block count and parity bytes per block of a version and level:
/// Normal versions follow the standard's block table, Micro and rMQR
/// symbols use one block.
pub open spec fn spec_block_count(version: Version, ec_level: EcLevel) -> int {
    match version.spec_table_index() {
        Some(idx) => {
            if idx < 40 {
                let ec_total = TOTAL_CODEWORDS[idx] - (spec_ok_len(spec_max_len(version, ec_level))
                    + 7) / 8;
                let per = EC_BYTES_PER_BLOCK[idx][ec_level.spec_index()];
                if per > 0 {
                    ec_total / (per as int)
                } else {
                    1
                }
            } else {
                1
            }
        },
        None => 1,
    }
}

/// Constructs the data and error correction codewords of the finished
/// stream bytes: the data bytes are split into the version's blocks, each
/// block gets its parity bytes, and both are read out column-major across
/// blocks.
///
/// # Errors
///
/// Returns `Err(QrError::InvalidVersion)` when the version and level have
/// no capacity, and `Err(QrError::DataTooLong)` when `data` is not exactly
/// the terminated stream length of the version.
#[verifier::rlimit(100)]
pub fn construct_codewords(data: &[u8], version: Version, ec_level: EcLevel) -> (r: QrResult<
    (Vec<u8>, Vec<u8>),
>)
    ensures
        match spec_max_len(version, ec_level) {
            Err(e) => r == Err::<(Vec<u8>, Vec<u8>), QrError>(e),
            Ok(cap) => {
                if data@.len() != (cap + 7) / 8 {
                    r == Err::<(Vec<u8>, Vec<u8>), QrError>(QrError::DataTooLong)
                } else {
                    match r {
                        Ok((d, e)) => {
                            &&& d@.len() < 4096
                            &&& e@.len() < 4096
                            &&& spec_block_count(version, ec_level) <= 1 ==> (d@ == data@
                                && d@.len() == data@.len() && e@ == spec_ec_remainder(
                                data@,
                                spec_ec_total(version, ec_level) as nat,
                            ))
                        },
                        Err(_) => false,
                    }
                }
            },
        },
{
    let cap = match version.fetch(ec_level, &DATA_LENGTHS) {
        Ok(c) => c,
        Err(e) => {
            return Err(e);
        },
    };
    proof {
        crate::bits::lemma_data_lengths_bound();
    }
    let expected = (cap + 7) / 8;
    if data.len() != expected {
        return Err(QrError::DataTooLong);
    }
    let idx = match version.table_index() {
        Some(i) => i,
        None => {
            return Err(QrError::InvalidVersion);
        },
    };
    let total = TOTAL_CODEWORDS[idx];
    let ec_total = if total > expected {
        total - expected
    } else {
        0
    };
    let per_block = if idx < 40 {
        EC_BYTES_PER_BLOCK[idx][ec_level.index()]
    } else {
        ec_total
    };
    let block_count = if idx < 40 && per_block > 0 {
        ec_total / per_block
    } else {
        1
    };
    proof {
        assert(forall|k: int| 0 <= k < 76 ==> #[trigger] TOTAL_CODEWORDS[k] <= 3706);
        assert(forall|k: int, j: int|
            0 <= k < 40 && 0 <= j < 4 ==> #[trigger] EC_BYTES_PER_BLOCK[k][j] <= 30);
    }
    if block_count <= 1 {
        // a single block: the data passes through unchanged
        let mut d: Vec<u8> = Vec::new();
        let mut i: usize = 0;
        while i < data.len()
            invariant
                i <= data@.len(),
                d@.len() == i,
                forall|t: int| 0 <= t < i ==> d@[t] == data@[t],
            decreases data@.len() - i,
        {
            d.push(data[i]);
            i = i + 1;
        }
        proof {
            assert(ec_total == spec_ec_total(version, ec_level));
            assert(ec_total <= 3706);
        }
        let e = ec_codewords(data, ec_total);
        proof {
            assert(d@ =~= data@);
        }
        return Ok((d, e));
    }
    // split the data across the blocks: the first blocks take the shorter
    // share, the remaining ones one byte more
    proof {
        assert(data@.len() <= 2957);
    }
    let short_len = data.len() / block_count;
    let long_blocks = data.len() % block_count;
    let short_blocks = block_count - long_blocks;
    let mut blocks: Vec<Vec<u8>> = Vec::new();
    let mut start: usize = 0;
    let mut b: usize = 0;
    while b < block_count
        invariant
            b <= block_count,
            blocks@.len() == b,
            start <= data@.len() <= 2957,
            short_len <= data@.len(),
            forall|t: int| 0 <= t < blocks@.len() ==> (#[trigger] blocks@[t]).len() <= data@.len(),
        decreases block_count - b,
    {
        let this_len = if b < short_blocks {
            short_len
        } else {
            short_len + 1
        };
        let this_len = if start + this_len <= data.len() {
            this_len
        } else {
            data.len() - start
        };
        let mut blk: Vec<u8> = Vec::new();
        let mut t: usize = 0;
        while t < this_len
            invariant
                t <= this_len,
                blk@.len() == t,
                start + this_len <= data@.len() <= 2957,
            decreases this_len - t,
        {
            blk.push(data[start + t]);
            t = t + 1;
        }
        start = start + this_len;
        blocks.push(blk);
        b = b + 1;
    }
    // interleave the data codewords column-major
    proof {
        assert(forall|k: int, j: int|
            0 <= k < 40 && 0 <= j < 4 ==> #[trigger] EC_BYTES_PER_BLOCK[k][j] >= 7);
        assert(per_block >= 7);
        assert(ec_total as int / per_block as int <= 529) by (nonlinear_arith)
            requires
                7 <= per_block && 0 <= ec_total <= 3706,
        ;
        assert(block_count <= 530);
        assert((short_len + 1) * block_count <= data@.len() + block_count) by (nonlinear_arith)
            requires
                block_count >= 2 && short_len == data@.len() as int / block_count as int,
        ;
    }
    let mut d: Vec<u8> = Vec::new();
    let mut col: usize = 0;
    while col < short_len + 1
        invariant
            col <= short_len + 1,
            short_len <= data@.len() <= 2957,
            2 <= block_count <= 530,
            (short_len + 1) * block_count <= data@.len() + block_count,
            blocks@.len() == block_count,
            d@.len() <= col * block_count,
            forall|t: int| 0 <= t < blocks@.len() ==> (#[trigger] blocks@[t]).len() <= data@.len(),
        decreases short_len + 1 - col,
    {
        let mut t: usize = 0;
        while t < blocks.len()
            invariant
                t <= blocks@.len(),
                blocks@.len() == block_count,
                col < short_len + 1,
                2 <= block_count <= 530,
                short_len <= data@.len() <= 2957,
                (short_len + 1) * block_count <= data@.len() + block_count,
                d@.len() <= col * block_count + t,
                forall|u: int|
                    0 <= u < blocks@.len() ==> (#[trigger] blocks@[u]).len() <= data@.len(),
            decreases blocks@.len() - t,
        {
            if col < blocks[t].len() {
                let byte = blocks[t][col];
                d.push(byte);
            }
            t = t + 1;
        }
        proof {
            assert((col + 1) * block_count == col * block_count + block_count)
                by (nonlinear_arith);
        }
        col = col + 1;
    }
    proof {
        assert(d@.len() <= (short_len + 1) * block_count) by (nonlinear_arith)
            requires
                d@.len() <= (short_len + 1) as int * (block_count as int) || d@.len() <= (
                short_len + 1) * block_count,
        ;
        assert(d@.len() < 4096);
    }
    // parity bytes of each block, interleaved column-major
    let per = if per_block <= 4096 {
        per_block
    } else {
        4096
    };
    let mut ec_blocks: Vec<Vec<u8>> = Vec::new();
    let mut t: usize = 0;
    while t < blocks.len()
        invariant
            t <= blocks@.len(),
            ec_blocks@.len() == t,
            forall|u: int| 0 <= u < blocks@.len() ==> (#[trigger] blocks@[u]).len() <= data@.len(),
            forall|u: int| 0 <= u < t ==> (#[trigger] ec_blocks@[u]).len() == per,
            per <= 4096,
            data@.len() <= 2957,
        decreases blocks@.len() - t,
    {
        let e = ec_codewords(blocks[t].as_slice(), per);
        ec_blocks.push(e);
        t = t + 1;
    }
    let mut e: Vec<u8> = Vec::new();
    let mut col: usize = 0;
    proof {
        assert(per * block_count <= ec_total) by (nonlinear_arith)
            requires
                block_count == ec_total as int / per as int && per >= 1,
        ;
    }
    while col < per
        invariant
            col <= per,
            per <= 30,
            ec_total <= 3706,
            2 <= block_count <= 530,
            ec_blocks@.len() == block_count,
            per * block_count <= ec_total,
            e@.len() == col * block_count,
            forall|u: int| 0 <= u < ec_blocks@.len() ==> (#[trigger] ec_blocks@[u]).len() == per,
        decreases per - col,
    {
        let mut t: usize = 0;
        while t < ec_blocks.len()
            invariant
                t <= ec_blocks@.len(),
                ec_blocks@.len() == block_count,
                2 <= block_count <= 530,
                col < per <= 30,
                e@.len() == col * block_count + t,
                forall|u: int|
                    0 <= u < ec_blocks@.len() ==> (#[trigger] ec_blocks@[u]).len() == per,
            decreases ec_blocks@.len() - t,
        {
            let byte = ec_blocks[t][col];
            e.push(byte);
            t = t + 1;
        }
        proof {
            assert((col + 1) * block_count == col * block_count + block_count)
                by (nonlinear_arith);
        }
        col = col + 1;
    }
    proof {
        assert(e@.len() == per * block_count <= ec_total) by (nonlinear_arith)
            requires
                e@.len() == per as int * (block_count as int) && per * block_count <= ec_total,
        ;
        assert(e@.len() < 4096);
    }
    Ok((d, e))
}

/// Index arithmetic of the block split: every block lies inside the data.
proof fn lemma_split_bounds(
    b: int,
    block_count: int,
    short_blocks: int,
    long_blocks: int,
    short_len: int,
    n: int,
)
    by (nonlinear_arith)
    requires
        0 <= b < block_count,
        short_blocks == block_count - long_blocks,
        0 <= long_blocks < block_count,
        short_len >= 0,
        short_blocks * short_len + long_blocks * (short_len + 1) == n,
    ensures
        (if b < short_blocks {
            b * short_len + short_len
        } else {
            short_blocks * short_len + (b - short_blocks) * (short_len + 1) + short_len + 1
        }) <= n,
        (if b + 1 <= short_blocks {
            (b + 1) * short_len
        } else {
            short_blocks * short_len + (b + 1 - short_blocks) * (short_len + 1)
        }) == (if b < short_blocks {
            b * short_len + short_len
        } else {
            short_blocks * short_len + (b - short_blocks) * (short_len + 1) + short_len + 1
        }),
{
}

} // verus!
