//! The `bits` module encodes binary data into the raw bit stream of a QR
//! code: mode indicators, character-count fields, per-mode payloads, the
//! terminator and the padding pattern.
//!
//! The stream is modelled as a sequence of booleans in emission order; every
//! push operation states exactly which bits it appends.
use vstd::prelude::*;

use crate::coding::{
    lemma_optimize_props, lemma_parse_props, optimize, parse, seg_chars_ok, segs_chars_ok,
    spec_optimize, spec_optimize_from, spec_parse, spec_seg_encoded_len, spec_seg_units,
    spec_total_encoded_len, total_encoded_len, wf_partition, Segment,
};
use crate::types::{EcLevel, Mode, QrError, QrResult, Version, RMQR_LENGTH_BITS_COUNT};

verus! {

/// The bit of `b` at position `j`, counting the most significant bit as
/// position 0.
pub open spec fn byte_bit(b: u8, j: u8) -> bool {
    b & (0x80u8 >> j) != 0
}

/// The low `n` bits of `v` in most-significant-first order.
pub open spec fn bits_of(v: u16, n: nat) -> Seq<bool> {
    Seq::new(n, |i: int| (v >> ((n - 1 - i) as u16)) & 1 == 1)
}

/// A sequence of `n` zero bits.
pub open spec fn zero_bits(n: nat) -> Seq<bool> {
    Seq::new(n, |i: int| false)
}

/// The bit of the stream `s` at position `i`, where positions past the end
/// read as zero padding.
pub open spec fn stream_bit(s: Seq<bool>, i: int) -> bool {
    if 0 <= i < s.len() {
        s[i]
    } else {
        false
    }
}

/// The byte whose bits are the eight stream bits starting at position `p`.
pub open spec fn stream_byte(s: Seq<bool>, p: int) -> u8 {
    ((if stream_bit(s, p) {
        128int
    } else {
        0int
    }) + (if stream_bit(s, p + 1) {
        64int
    } else {
        0int
    }) + (if stream_bit(s, p + 2) {
        32int
    } else {
        0int
    }) + (if stream_bit(s, p + 3) {
        16int
    } else {
        0int
    }) + (if stream_bit(s, p + 4) {
        8int
    } else {
        0int
    }) + (if stream_bit(s, p + 5) {
        4int
    } else {
        0int
    }) + (if stream_bit(s, p + 6) {
        2int
    } else {
        0int
    }) + (if stream_bit(s, p + 7) {
        1int
    } else {
        0int
    })) as u8
}

/// The byte vector that stores the stream `s`, the last byte padded with
/// zero bits.
pub open spec fn bytes_of(s: Seq<bool>) -> Seq<u8> {
    Seq::new((s.len() + 7) / 8, |k: int| stream_byte(s, 8 * k))
}

/// Every byte is the weighted sum of its eight bits.
proof fn lemma_byte_reconstruct(b: u8)
    by (bit_vector)
    ensures
        b == (if b & 0x80 != 0 {
            128int
        } else {
            0int
        }) + (if b & 0x40 != 0 {
            64int
        } else {
            0int
        }) + (if b & 0x20 != 0 {
            32int
        } else {
            0int
        }) + (if b & 0x10 != 0 {
            16int
        } else {
            0int
        }) + (if b & 0x08 != 0 {
            8int
        } else {
            0int
        }) + (if b & 0x04 != 0 {
            4int
        } else {
            0int
        }) + (if b & 0x02 != 0 {
            2int
        } else {
            0int
        }) + (if b & 0x01 != 0 {
            1int
        } else {
            0int
        }),
        0x80u8 >> 0u8 == 0x80u8 && 0x80u8 >> 1u8 == 0x40u8 && 0x80u8 >> 2u8 == 0x20u8 && 0x80u8
            >> 3u8 == 0x10u8,
        0x80u8 >> 4u8 == 0x08u8 && 0x80u8 >> 5u8 == 0x04u8 && 0x80u8 >> 6u8 == 0x02u8 && 0x80u8
            >> 7u8 == 0x01u8,
{
}

/// Setting bit `k` by an or-mask leaves every other bit alone.
proof fn lemma_set_bit(b: u8, k: u8)
    by (bit_vector)
    requires
        k < 8,
    ensures
        forall|j: u8| j < 8 && j != k ==> ((b | (0x80u8 >> k)) & (0x80u8 >> j) != 0) == (b & (
        0x80u8 >> j) != 0),
        (b | (0x80u8 >> k)) & (0x80u8 >> k) != 0,
{
}

/// The bits of a fresh one-bit byte.
proof fn lemma_fresh_byte(bit: bool)
    by (bit_vector)
    ensures
        forall|j: u8|
            0 < j < 8 ==> ((if bit {
                0x80u8
            } else {
                0u8
            }) & (0x80u8 >> j) == 0),
        ((if bit {
            0x80u8
        } else {
            0u8
        }) & (0x80u8 >> 0u8) != 0) == bit,
{
}

/// The `Bits` structure stores the encoded data for a QR code.
pub struct Bits {
    data: Vec<u8>,
    bit_offset: usize,
    version: Version,
}

impl View for Bits {
    type V = Seq<bool>;

    /// The bits pushed so far, in emission order.
    closed spec fn view(&self) -> Seq<bool> {
        Seq::new(
            self.spec_len(),
            |i: int| byte_bit(self.data@[i / 8], (i % 8) as u8),
        )
    }
}

impl Bits {
    /// The number of bits pushed so far.
    pub closed spec fn spec_len(&self) -> nat {
        if self.bit_offset == 0 {
            (self.data@.len() * 8) as nat
        } else {
            ((self.data@.len() - 1) * 8 + self.bit_offset) as nat
        }
    }

    /// The version this stream is being built for.
    pub closed spec fn spec_version(&self) -> Version {
        self.version
    }

    /// Well-formedness: the write offset stays below eight, the unused low
    /// bits of the last byte are zero, and the stored length cannot make the
    /// bit count overflow.
    pub closed spec fn wf(&self) -> bool {
        &&& self.bit_offset < 8
        &&& self.data@.len() * 8 <= usize::MAX
        &&& (self.bit_offset != 0 ==> self.data@.len() >= 1 && (forall|j: u8|
            self.bit_offset <= j < 8 ==> !(#[trigger] byte_bit(
                self.data@[self.data@.len() - 1],
                j,
            ))))
        &&& (self.version is Micro ==> self.version.is_valid())
    }

    /// Constructs a new, empty bits structure.
    pub fn new(version: Version) -> (r: Self)
        requires
            version is Micro ==> version.is_valid(),
        ensures
            r.wf(),
            r@ == Seq::<bool>::empty(),
            r.spec_version() == version,
    {
        let r = Self { data: Vec::new(), bit_offset: 0, version };
        proof {
            assert(r@ =~= Seq::<bool>::empty());
        }
        r
    }

    /// Appends one bit to the stream.
    fn push_bit(&mut self, bit: bool)
        requires
            old(self).wf(),
            old(self)@.len() + 8 <= usize::MAX,
        ensures
            final(self).wf(),
            final(self)@ == old(self)@ + seq![bit],
            final(self).version == old(self).version,
    {
        proof {
            assert(old(self)@.len() == old(self).spec_len());
        }
        if self.bit_offset == 0 {
            let fresh: u8 = if bit {
                0x80
            } else {
                0
            };
            self.data.push(fresh);
            self.bit_offset = 1;
            proof {
                lemma_fresh_byte(bit);
                let n = self.data@.len() - 1;
                assert forall|i: int| 0 <= i < self.spec_len() implies self@[i] == (old(self)@
                    + seq![bit])[i] by {
                    if i < old(self).spec_len() {
                        assert(i / 8 < n);
                        assert(self.data@[i / 8] == old(self).data@[i / 8]);
                    } else {
                        assert(i == n * 8);
                        assert(i / 8 == n && i % 8 == 0);
                    }
                }
                assert(self@ =~= old(self)@ + seq![bit]);
            }
        } else {
            let last = self.data.len() - 1;
            let k = self.bit_offset as u8;
            if bit {
                let b = self.data[last];
                self.data[last] = b | (0x80u8 >> k);
            }
            let ghost prev = old(self).data@[last as int];
            proof {
                lemma_set_bit(prev, k);
            }
            self.bit_offset = if self.bit_offset == 7 {
                0
            } else {
                self.bit_offset + 1
            };
            proof {
                let n = self.data@.len() - 1;
                assert(self.spec_len() == old(self).spec_len() + 1);
                assert forall|i: int| 0 <= i < self.spec_len() implies self@[i] == (old(self)@
                    + seq![bit])[i] by {
                    if i / 8 < n {
                        assert(self.data@[i / 8] == old(self).data@[i / 8]);
                    } else {
                        assert(i / 8 == n);
                        let j = (i % 8) as u8;
                        if i < old(self).spec_len() {
                            assert(j < k);
                            assert(byte_bit(self.data@[n], j) == byte_bit(prev, j));
                        } else {
                            assert(j == k);
                            assert(byte_bit(self.data@[n], k) == bit);
                        }
                    }
                }
                assert(self@ =~= old(self)@ + seq![bit]);
                assert forall|j: u8|
                    self.bit_offset != 0 && self.bit_offset <= j < 8 implies !byte_bit(
                    self.data@[n],
                    j,
                ) by {
                    assert(j > k);
                    assert(!byte_bit(prev, j));
                }
            }
        }
    }

    /// Pushes an N-bit big-endian integer to the end of the bits: the low
    /// `n` bits of `number`, most significant first.
    fn push_number(&mut self, n: usize, number: u16)
        requires
            old(self).wf(),
            n <= 16,
            old(self)@.len() + n + 8 <= usize::MAX,
        ensures
            final(self).wf(),
            final(self)@ == old(self)@ + bits_of(number, n as nat),
            final(self).version == old(self).version,
    {
        let mut i: usize = 0;
        while i < n
            invariant
                self.wf(),
                i <= n <= 16,
                self.version == old(self).version,
                old(self)@.len() + n + 8 <= usize::MAX,
                self@ == old(self)@ + bits_of(number, n as nat).take(i as int),
            decreases n - i,
        {
            let shift = (n - 1 - i) as u16;
            let bit = (number >> shift) & 1 == 1;
            self.push_bit(bit);
            proof {
                assert(bits_of(number, n as nat)[i as int] == bit);
                assert(bits_of(number, n as nat).take(i + 1) =~= bits_of(number, n as nat).take(
                    i as int,
                ) + seq![bit]);
            }
            i += 1;
        }
        proof {
            assert(bits_of(number, n as nat).take(n as int) =~= bits_of(number, n as nat));
        }
    }

    /// Pushes an N-bit big-endian integer to the end of the bits, and check
    /// that the number does not overflow the bits.
    ///
    /// Returns `Err(QrError::DataTooLong)` on overflow.
    pub fn push_number_checked(&mut self, n: usize, number: usize) -> (r: QrResult<()>)
        requires
            old(self).wf(),
            old(self)@.len() + 24 <= usize::MAX,
        ensures
            final(self).wf(),
            final(self).spec_version() == old(self).spec_version(),
            if n <= 16 && number < (1usize << n) {
                r == Ok::<(), QrError>(()) && final(self)@ == old(self)@ + bits_of(
                    number as u16,
                    n as nat,
                )
            } else {
                r == Err::<(), QrError>(QrError::DataTooLong) && *final(self) == *old(self)
            },
    {
        if n > 16 || number >= (1usize << n) {
            Err(QrError::DataTooLong)
        } else {
            proof {
                assert(1usize << n <= 0x10000usize && number < (1usize << n) ==> number
                    < 0x10000) by (bit_vector)
                    requires
                        n <= 16,
                ;
                assert((1usize << n) <= 0x10000usize) by (bit_vector)
                    requires
                        n <= 16,
                ;
            }
            self.push_number(n, number as u16);
            Ok(())
        }
    }

    /// Convert the bits into a bytes vector: the stream in big-endian byte
    /// order, the last byte zero-padded.
    pub fn into_bytes(self) -> (r: Vec<u8>)
        requires
            self.wf(),
        ensures
            r@ == bytes_of(self@),
    {
        proof {
            lemma_wf_bytes(self);
        }
        self.data
    }

    /// Total number of bits currently pushed.
    pub fn len(&self) -> (r: usize)
        requires
            self.wf(),
        ensures
            r == self@.len(),
    {
        if self.bit_offset == 0 {
            self.data.len() * 8
        } else {
            (self.data.len() - 1) * 8 + self.bit_offset
        }
    }

    /// Whether there are any bits pushed.
    pub fn is_empty(&self) -> (r: bool)
        requires
            self.wf(),
        ensures
            r == (self@.len() == 0),
    {
        self.data.is_empty()
    }

    /// The maximum number of bits allowed by the provided QR code version and
    /// error correction level.
    ///
    /// # Errors
    ///
    /// Returns `Err(QrError::InvalidVersion)` if it is not valid to use the
    /// `ec_level` for the given version (e.g. `Version::Micro(1)` with
    /// `EcLevel::H`).
    pub fn max_len(&self, ec_level: EcLevel) -> (r: QrResult<usize>)
        ensures
            r == spec_max_len(self.spec_version(), ec_level),
    {
        self.version.fetch(ec_level, &DATA_LENGTHS)
    }

    /// Version of the QR code.
    pub fn version(&self) -> (r: Version)
        ensures
            r == self.spec_version(),
    {
        self.version
    }

    /// Reserves `n` extra bits of space for pushing.
    fn reserve(&mut self, n: usize)
        requires
            old(self).wf(),
        ensures
            final(self).wf(),
            final(self)@ == old(self)@,
            final(self).spec_version() == old(self).spec_version(),
    {
        let extra_bytes = n / 8 + 2;
        self.data.reserve(extra_bytes);
    }
}

/// The stored bytes of a well-formed stream are exactly the packed stream.
proof fn lemma_wf_bytes(bits: Bits)
    requires
        bits.wf(),
    ensures
        bits.data@ == bytes_of(bits@),
{
    let s = bits@;
    let d = bits.data@;
    assert(d.len() == (s.len() + 7) / 8);
    assert forall|k: int| 0 <= k < d.len() implies d[k] == stream_byte(s, 8 * k) by {
        lemma_byte_reconstruct(d[k]);
        assert forall|j: u8| j < 8 implies stream_bit(s, 8 * k + j) == byte_bit(d[k], j) by {
            let i = 8 * k + j;
            if i < s.len() {
                assert((8 * k + j) / 8 == k && (8 * k + j) % 8 == j);
            } else {
                // the position lies in the zero padding of the last byte
                assert(k == d.len() - 1);
                if bits.bit_offset == 0 {
                    assert(false);
                } else {
                    assert(j >= bits.bit_offset);
                }
            }
        }
        assert(byte_bit(d[k], 0) == (d[k] & 0x80 != 0) && byte_bit(d[k], 1) == (d[k] & 0x40 != 0)
            && byte_bit(d[k], 2) == (d[k] & 0x20 != 0) && byte_bit(d[k], 3) == (d[k] & 0x10 != 0)
            && byte_bit(d[k], 4) == (d[k] & 0x08 != 0) && byte_bit(d[k], 5) == (d[k] & 0x04 != 0)
            && byte_bit(d[k], 6) == (d[k] & 0x02 != 0) && byte_bit(d[k], 7) == (d[k] & 0x01
            != 0));
    }
    assert(d =~= bytes_of(s));
}

/// The data-bit capacity of a version and error correction level, from the
/// standard's tables.
pub open spec fn spec_max_len(version: Version, ec_level: EcLevel) -> QrResult<usize> {
    version.spec_fetch(ec_level, DATA_LENGTHS@)
}

/// The number of data bits that each version can carry at each error
/// correction level, in the order [L, M, Q, H]. The first 40 rows are the
/// Normal versions, the next 4 the Micro versions, and the last 32 the rMQR
/// sizes (which only define the M and H levels). Zero marks combinations the
/// standard does not define.
pub const DATA_LENGTHS: [[usize; 4]; 76] = [
    // Normal versions
    [152, 128, 104, 72],
    [272, 224, 176, 128],
    [440, 352, 272, 208],
    [640, 512, 384, 288],
    [864, 688, 496, 368],
    [1088, 864, 608, 480],
    [1248, 992, 704, 528],
    [1552, 1232, 880, 688],
    [1856, 1456, 1056, 800],
    [2192, 1728, 1232, 976],
    [2592, 2032, 1440, 1120],
    [2960, 2320, 1648, 1264],
    [3424, 2672, 1952, 1440],
    [3688, 2920, 2088, 1576],
    [4184, 3320, 2360, 1784],
    [4712, 3624, 2600, 2024],
    [5176, 4056, 2936, 2264],
    [5768, 4504, 3176, 2504],
    [6360, 5016, 3560, 2728],
    [6888, 5352, 3880, 3080],
    [7456, 5712, 4096, 3248],
    [8048, 6256, 4544, 3536],
    [8752, 6880, 4912, 3712],
    [9392, 7312, 5312, 4112],
    [10208, 8000, 5744, 4304],
    [10960, 8496, 6032, 4768],
    [11744, 9024, 6464, 5024],
    [12248, 9544, 6968, 5288],
    [13048, 10136, 7288, 5608],
    [13880, 10984, 7880, 5960],
    [14744, 11640, 8264, 6344],
    [15640, 12328, 8920, 6760],
    [16568, 13048, 9368, 7208],
    [17528, 13800, 9848, 7688],
    [18448, 14496, 10288, 7888],
    [19472, 15312, 10832, 8432],
    [20528, 15936, 11408, 8768],
    [21616, 16816, 12016, 9136],
    [22496, 17728, 12656, 9776],
    [23648, 18672, 13328, 10208],
    // Micro versions
    [20, 0, 0, 0],
    [40, 32, 0, 0],
    [84, 68, 0, 0],
    [128, 112, 80, 0],
    // rMQR versions
    [0, 48, 0, 24],
    [0, 96, 0, 56],
    [0, 160, 0, 80],
    [0, 224, 0, 112],
    [0, 352, 0, 192],
    [0, 96, 0, 56],
    [0, 168, 0, 88],
    [0, 248, 0, 136],
    [0, 336, 0, 176],
    [0, 504, 0, 264],
    [0, 56, 0, 40],
    [0, 152, 0, 88],
    [0, 248, 0, 120],
    [0, 344, 0, 184],
    [0, 456, 0, 232],
    [0, 672, 0, 336],
    [0, 96, 0, 56],
    [0, 216, 0, 104],
    [0, 304, 0, 160],
    [0, 424, 0, 232],
    [0, 584, 0, 280],
    [0, 848, 0, 432],
    [0, 264, 0, 120],
    [0, 384, 0, 208],
    [0, 536, 0, 248],
    [0, 704, 0, 384],
    [0, 1016, 0, 552],
    [0, 312, 0, 168],
    [0, 448, 0, 224],
    [0, 624, 0, 304],
    [0, 800, 0, 448],
    [0, 1216, 0, 608],
];

/// Every capacity in the table is at most the Normal(40)/L capacity.
pub proof fn lemma_data_lengths_bound()
    ensures
        forall|k: int, j: int|
            0 <= k < 76 && 0 <= j < 4 ==> #[trigger] DATA_LENGTHS[k][j] <= 23648,
{
}

/// Within the Normal rows the capacities grow with the version.
pub proof fn lemma_data_lengths_monotone()
    ensures
        forall|k: int, j: int|
            0 <= k < 39 && 0 <= j < 4 ==> #[trigger] DATA_LENGTHS[k][j] <= DATA_LENGTHS[k + 1][j],
{
}

/// The numeric value of the mode indicator in the version's family.
pub open spec fn spec_mode_number(version: Version, mode: Mode) -> u16 {
    match version {
        Version::Micro(_) => match mode {
            Mode::Numeric => 0,
            Mode::Alphanumeric => 1,
            Mode::Byte => 2,
            Mode::Kanji => 3,
        },
        Version::Rmqr(_, _) => match mode {
            Mode::Numeric => 1,
            Mode::Alphanumeric => 2,
            Mode::Byte => 3,
            Mode::Kanji => 4,
        },
        Version::Normal(_) => match mode {
            Mode::Numeric => 1,
            Mode::Alphanumeric => 2,
            Mode::Byte => 4,
            Mode::Kanji => 8,
        },
    }
}

/// Whether the mode may appear at all in the version's family: Micro(1)
/// only admits Numeric and Micro(2) only Numeric and Alphanumeric; every
/// other version admits all four modes.
pub open spec fn spec_mode_allowed(version: Version, mode: Mode) -> bool {
    match version {
        Version::Micro(1) => mode is Numeric,
        Version::Micro(2) => mode is Numeric || mode is Alphanumeric,
        _ => true,
    }
}

/// The bits of the mode indicator: the family's indicator value in the
/// family's indicator width (zero bits for Micro(1)).
pub open spec fn spec_mode_indicator(version: Version, mode: Mode) -> Seq<bool> {
    bits_of(spec_mode_number(version, mode), version.spec_mode_bits_count() as nat)
}

/// Whether `n` raw characters fit the character-count field of the mode in
/// this version.
pub open spec fn spec_len_fits(version: Version, mode: Mode, n: int) -> bool {
    mode.spec_length_bits_count(version) <= 16 && n < (1usize << (mode.spec_length_bits_count(
        version,
    ) as usize))
}

/// The header of one segment: mode indicator, then the character count in
/// the version's count-field width.
pub open spec fn spec_header_bits(version: Version, mode: Mode, n: int) -> Seq<bool> {
    spec_mode_indicator(version, mode) + bits_of(
        n as u16,
        mode.spec_length_bits_count(version) as nat,
    )
}

/// Whether `b` is a decimal digit.
pub open spec fn is_numeric_char(b: u8) -> bool {
    48 <= b <= 57
}

/// The payload bits of a run of decimal digits: groups of three digits in
/// ten bits, a trailing pair in seven, a trailing single digit in four.
pub open spec fn numeric_bits(data: Seq<u8>) -> Seq<bool>
    decreases data.len(),
{
    if data.len() >= 3 {
        bits_of(((data[0] - 48) * 100 + (data[1] - 48) * 10 + (data[2] - 48)) as u16, 10)
            + numeric_bits(data.skip(3))
    } else if data.len() == 2 {
        bits_of(((data[0] - 48) * 10 + (data[1] - 48)) as u16, 7)
    } else if data.len() == 1 {
        bits_of((data[0] - 48) as u16, 4)
    } else {
        Seq::<bool>::empty()
    }
}

/// The base-45 value of an alphanumeric character, as assigned by the
/// standard's table; characters outside the alphabet map to zero.
pub open spec fn spec_alphanumeric_digit(b: u8) -> u16 {
    if 48 <= b <= 57 {
        (b - 48) as u16
    } else if 65 <= b <= 90 {
        (b - 55) as u16
    } else if b == 32 {
        36
    } else if b == 36 {
        37
    } else if b == 37 {
        38
    } else if b == 42 {
        39
    } else if b == 43 {
        40
    } else if b == 45 {
        41
    } else if b == 46 {
        42
    } else if b == 47 {
        43
    } else if b == 58 {
        44
    } else {
        0
    }
}

/// Whether `b` belongs to the alphanumeric alphabet: digits, uppercase
/// letters, space and `$ % * + - . / :`.
pub open spec fn is_alphanumeric_char(b: u8) -> bool {
    ||| 48 <= b <= 57
    ||| 65 <= b <= 90
    ||| b == 32
    ||| b == 36
    ||| b == 37
    ||| b == 42
    ||| b == 43
    ||| b == 45
    ||| b == 46
    ||| b == 47
    ||| b == 58
}

/// The payload bits of an alphanumeric run: pairs as base-45 numbers in
/// eleven bits, a trailing single character in six.
pub open spec fn alphanumeric_bits(data: Seq<u8>) -> Seq<bool>
    decreases data.len(),
{
    if data.len() >= 2 {
        bits_of(
            (spec_alphanumeric_digit(data[0]) * 45 + spec_alphanumeric_digit(data[1])) as u16,
            11,
        ) + alphanumeric_bits(data.skip(2))
    } else if data.len() == 1 {
        bits_of(spec_alphanumeric_digit(data[0]), 6)
    } else {
        Seq::<bool>::empty()
    }
}

/// The payload bits of a byte run: each byte in eight bits.
pub open spec fn byte_bits(data: Seq<u8>) -> Seq<bool>
    decreases data.len(),
{
    if data.len() == 0 {
        Seq::<bool>::empty()
    } else {
        bits_of(data[0] as u16, 8) + byte_bits(data.skip(1))
    }
}

/// The Shift-JIS code point of a double-byte pair.
pub open spec fn spec_kanji_cp(b0: u8, b1: u8) -> int {
    b0 * 256 + b1
}

/// Whether the pair is a double-byte character that Kanji mode encodes:
/// code points 0x8140 to 0x9FFC and 0xE040 to 0xEBBF, with a valid trail
/// byte.
pub open spec fn is_kanji_pair(b0: u8, b1: u8) -> bool {
    &&& (0x8140 <= spec_kanji_cp(b0, b1) <= 0x9FFC || 0xE040 <= spec_kanji_cp(b0, b1) <= 0xEBBF)
    &&& 0x40 <= b1 <= 0xFC
    &&& b1 != 0x7F
}

/// The 13-bit value that Kanji mode assigns to a double-byte pair.
pub open spec fn spec_kanji_value(b0: u8, b1: u8) -> int {
    let adjusted = if spec_kanji_cp(b0, b1) < 0xE040 {
        spec_kanji_cp(b0, b1) - 0x8140
    } else {
        spec_kanji_cp(b0, b1) - 0xC140
    };
    (adjusted / 256) * 192 + adjusted % 256
}

/// The payload bits of a Kanji run: each double-byte pair in thirteen bits.
pub open spec fn kanji_bits(data: Seq<u8>) -> Seq<bool>
    decreases data.len(),
{
    if data.len() >= 2 {
        bits_of(spec_kanji_value(data[0], data[1]) as u16, 13) + kanji_bits(data.skip(2))
    } else {
        Seq::<bool>::empty()
    }
}

/// In QR code `Mode::Alphanumeric` mode, a pair of alphanumeric characters
/// will be encoded as a base-45 integer. `alphanumeric_digit` converts each
/// character into its corresponding base-45 digit.
#[inline]
fn alphanumeric_digit(character: u8) -> (r: u16)
    ensures
        r == spec_alphanumeric_digit(character),
{
    if 48 <= character && character <= 57 {
        (character - 48) as u16
    } else if 65 <= character && character <= 90 {
        (character - 55) as u16
    } else if character == 32 {
        36
    } else if character == 36 {
        37
    } else if character == 37 {
        38
    } else if character == 42 {
        39
    } else if character == 43 {
        40
    } else if character == 45 {
        41
    } else if character == 46 {
        42
    } else if character == 47 {
        43
    } else if character == 58 {
        44
    } else {
        0
    }
}

impl Bits {
    /// Push the mode indicator to the end of the bits.
    ///
    /// # Errors
    ///
    /// If the mode is not supported in the provided version, this method
    /// returns `Err(QrError::UnsupportedCharacterSet)`.
    pub fn push_mode_indicator(&mut self, mode: Mode) -> (r: QrResult<()>)
        requires
            old(self).wf(),
            old(self)@.len() + 24 <= usize::MAX,
        ensures
            final(self).wf(),
            final(self).spec_version() == old(self).spec_version(),
            if spec_mode_allowed(old(self).spec_version(), mode) {
                r == Ok::<(), QrError>(()) && final(self)@ == old(self)@ + spec_mode_indicator(
                    old(self).spec_version(),
                    mode,
                )
            } else {
                r == Err::<(), QrError>(QrError::UnsupportedCharacterSet) && *final(self) == *old(
                    self,
                )
            },
    {
        let allowed = match (self.version, mode) {
            (Version::Micro(1), Mode::Numeric) => true,
            (Version::Micro(1), _) => false,
            (Version::Micro(2), Mode::Numeric) => true,
            (Version::Micro(2), Mode::Alphanumeric) => true,
            (Version::Micro(2), _) => false,
            _ => true,
        };
        if !allowed {
            return Err(QrError::UnsupportedCharacterSet);
        }
        let number: u16 = match (self.version, mode) {
            (Version::Micro(_), Mode::Numeric) => 0,
            (Version::Micro(_), Mode::Alphanumeric) => 1,
            (Version::Micro(_), Mode::Byte) => 2,
            (Version::Micro(_), Mode::Kanji) => 3,
            (Version::Rmqr(_, _), Mode::Numeric) => 1,
            (Version::Rmqr(_, _), Mode::Alphanumeric) => 2,
            (Version::Rmqr(_, _), Mode::Byte) => 3,
            (Version::Rmqr(_, _), Mode::Kanji) => 4,
            (Version::Normal(_), Mode::Numeric) => 1,
            (Version::Normal(_), Mode::Alphanumeric) => 2,
            (Version::Normal(_), Mode::Byte) => 4,
            (Version::Normal(_), Mode::Kanji) => 8,
        };
        let bits = self.version.mode_bits_count();
        self.push_number(bits, number);
        Ok(())
    }

    /// Pushes the mode indicator of `mode` followed by the character count
    /// `raw_data_len` in the count-field width of the version, after
    /// checking that both fit.
    fn push_header(&mut self, mode: Mode, raw_data_len: usize) -> (r: QrResult<()>)
        requires
            old(self).wf(),
            old(self)@.len() + 40 <= usize::MAX,
        ensures
            final(self).wf(),
            final(self).spec_version() == old(self).spec_version(),
            if !spec_mode_allowed(old(self).spec_version(), mode) {
                r == Err::<(), QrError>(QrError::UnsupportedCharacterSet) && *final(self) == *old(
                    self,
                )
            } else if !spec_len_fits(old(self).spec_version(), mode, raw_data_len as int) {
                r == Err::<(), QrError>(QrError::DataTooLong) && *final(self) == *old(self)
            } else {
                r == Ok::<(), QrError>(()) && final(self)@ == old(self)@ + spec_header_bits(
                    old(self).spec_version(),
                    mode,
                    raw_data_len as int,
                )
            },
    {
        let allowed = match (self.version, mode) {
            (Version::Micro(1), Mode::Numeric) => true,
            (Version::Micro(1), _) => false,
            (Version::Micro(2), Mode::Numeric) => true,
            (Version::Micro(2), Mode::Alphanumeric) => true,
            (Version::Micro(2), _) => false,
            _ => true,
        };
        if !allowed {
            return Err(QrError::UnsupportedCharacterSet);
        }
        let length_bits = mode.length_bits_count(self.version);
        if length_bits > 16 || raw_data_len >= (1usize << length_bits) {
            return Err(QrError::DataTooLong);
        }
        let pushed = self.push_mode_indicator(mode);
        if pushed.is_err() {
            return Err(QrError::UnsupportedCharacterSet);
        }
        self.push_number(length_bits, raw_data_len as u16);
        Ok(())
    }
}

/// A shift of the zero word yields zero bits.
proof fn lemma_zero_bits(t: nat)
    ensures
        bits_of(0u16, t) =~= zero_bits(t),
{
    assert(forall|sh: u16| (0u16 >> sh) & 1 == 0) by (bit_vector);
}

impl Bits {
    /// Reports, without pushing anything, whether a header of `mode` with
    /// count `raw_data_len` can be pushed: the family must admit the mode,
    /// and the count must fit the count field.
    fn check_header(&self, mode: Mode, raw_data_len: usize) -> (r: QrResult<()>)
        requires
            self.wf(),
        ensures
            r == (if !spec_mode_allowed(self.spec_version(), mode) {
                Err::<(), QrError>(QrError::UnsupportedCharacterSet)
            } else if !spec_len_fits(self.spec_version(), mode, raw_data_len as int) {
                Err::<(), QrError>(QrError::DataTooLong)
            } else {
                Ok::<(), QrError>(())
            }),
    {
        let allowed = match (self.version, mode) {
            (Version::Micro(1), Mode::Numeric) => true,
            (Version::Micro(1), _) => false,
            (Version::Micro(2), Mode::Numeric) => true,
            (Version::Micro(2), Mode::Alphanumeric) => true,
            (Version::Micro(2), _) => false,
            _ => true,
        };
        if !allowed {
            return Err(QrError::UnsupportedCharacterSet);
        }
        let length_bits = mode.length_bits_count(self.version);
        if length_bits > 16 || raw_data_len >= (1usize << length_bits) {
            return Err(QrError::DataTooLong);
        }
        Ok(())
    }

    /// Encodes a numeric string to the bits.
    ///
    /// The data should only contain the characters 0 to 9.
    ///
    /// # Errors
    ///
    /// Returns `Err(QrError::DataTooLong)` on overflow.
    pub fn push_numeric_data(&mut self, data: &[u8]) -> (r: QrResult<()>)
        requires
            old(self).wf(),
            forall|i: int| 0 <= i < data@.len() ==> is_numeric_char(#[trigger] data@[i]),
            old(self)@.len() + 64 + 4 * data@.len() <= usize::MAX,
        ensures
            final(self).wf(),
            final(self).spec_version() == old(self).spec_version(),
            if !spec_mode_allowed(old(self).spec_version(), Mode::Numeric) {
                r == Err::<(), QrError>(QrError::UnsupportedCharacterSet) && *final(self) == *old(
                    self,
                )
            } else if !spec_len_fits(old(self).spec_version(), Mode::Numeric, data@.len() as int) {
                r == Err::<(), QrError>(QrError::DataTooLong) && *final(self) == *old(self)
            } else {
                r == Ok::<(), QrError>(()) && final(self)@ == old(self)@ + spec_header_bits(
                    old(self).spec_version(),
                    Mode::Numeric,
                    data@.len() as int,
                ) + numeric_bits(data@)
            },
    {
        match self.push_header(Mode::Numeric, data.len()) {
            Ok(()) => {},
            Err(e) => {
                return Err(e);
            },
        }
        let ghost base = self@;
        proof {
            assert(data@.skip(0) =~= data@);
        }
        let mut i: usize = 0;
        while i < data.len()
            invariant
                self.wf(),
                self.spec_version() == old(self).spec_version(),
                i <= data@.len(),
                forall|t: int| 0 <= t < data@.len() ==> is_numeric_char(#[trigger] data@[t]),
                base + numeric_bits(data@) == self@ + numeric_bits(data@.skip(i as int)),
                self@.len() <= base.len() + 4 * i,
                base.len() + 4 * data@.len() + 24 <= usize::MAX,
            decreases data@.len() - i,
        {
            let remaining = data.len() - i;
            if remaining >= 3 {
                let number: u16 = (data[i] - 48) as u16 * 100 + (data[i + 1] - 48) as u16 * 10 + (
                data[i + 2] - 48) as u16;
                proof {
                    assert(data@.skip(i as int).skip(3) =~= data@.skip(i + 3));
                    assert(numeric_bits(data@.skip(i as int)) == bits_of(number, 10)
                        + numeric_bits(data@.skip(i + 3)));
                }
                self.push_number(10, number);
                proof {
                    assert(base + numeric_bits(data@) =~= self@ + numeric_bits(
                        data@.skip(i + 3),
                    ));
                }
                i += 3;
            } else if remaining == 2 {
                let number: u16 = (data[i] - 48) as u16 * 10 + (data[i + 1] - 48) as u16;
                proof {
                    assert(data@.skip(i + 2) =~= Seq::<u8>::empty());
                    assert(numeric_bits(data@.skip(i as int)) == bits_of(number, 7));
                    assert(numeric_bits(data@.skip(i + 2)) =~= Seq::<bool>::empty());
                }
                self.push_number(7, number);
                proof {
                    assert(base + numeric_bits(data@) =~= self@ + numeric_bits(
                        data@.skip(i + 2),
                    ));
                }
                i += 2;
            } else {
                let number: u16 = (data[i] - 48) as u16;
                proof {
                    assert(data@.skip(i + 1) =~= Seq::<u8>::empty());
                    assert(numeric_bits(data@.skip(i as int)) == bits_of(number, 4));
                    assert(numeric_bits(data@.skip(i + 1)) =~= Seq::<bool>::empty());
                }
                self.push_number(4, number);
                proof {
                    assert(base + numeric_bits(data@) =~= self@ + numeric_bits(
                        data@.skip(i + 1),
                    ));
                }
                i += 1;
            }
        }
        proof {
            assert(data@.skip(data@.len() as int) =~= Seq::<u8>::empty());
            assert(final(self)@ =~= base + numeric_bits(data@));
        }
        Ok(())
    }

    /// Encodes an alphanumeric string to the bits.
    ///
    /// The data should only contain the charaters A to Z (excluding
    /// lowercase), 0 to 9, space, `$`, `%`, `*`, `+`, `-`, `.`, `/` or `:`.
    ///
    /// # Errors
    ///
    /// Returns `Err(QrError::DataTooLong)` on overflow, and
    /// `Err(QrError::InvalidCharacter)` when a character outside the
    /// alphabet occurs.
    pub fn push_alphanumeric_data(&mut self, data: &[u8]) -> (r: QrResult<()>)
        requires
            old(self).wf(),
            old(self)@.len() + 64 + 6 * data@.len() <= usize::MAX,
        ensures
            final(self).wf(),
            final(self).spec_version() == old(self).spec_version(),
            if !spec_mode_allowed(old(self).spec_version(), Mode::Alphanumeric) {
                r == Err::<(), QrError>(QrError::UnsupportedCharacterSet) && *final(self) == *old(
                    self,
                )
            } else if !spec_len_fits(
                old(self).spec_version(),
                Mode::Alphanumeric,
                data@.len() as int,
            ) {
                r == Err::<(), QrError>(QrError::DataTooLong) && *final(self) == *old(self)
            } else if exists|t: int| 0 <= t < data@.len() && !is_alphanumeric_char(
                #[trigger] data@[t],
            ) {
                r == Err::<(), QrError>(QrError::InvalidCharacter) && *final(self) == *old(self)
            } else {
                r == Ok::<(), QrError>(()) && final(self)@ == old(self)@ + spec_header_bits(
                    old(self).spec_version(),
                    Mode::Alphanumeric,
                    data@.len() as int,
                ) + alphanumeric_bits(data@)
            },
    {
        match self.check_header(Mode::Alphanumeric, data.len()) {
            Ok(()) => {},
            Err(e) => {
                return Err(e);
            },
        }
        let mut j: usize = 0;
        while j < data.len()
            invariant
                *self == *old(self),
                self.wf(),
                spec_mode_allowed(old(self).spec_version(), Mode::Alphanumeric),
                spec_len_fits(old(self).spec_version(), Mode::Alphanumeric, data@.len() as int),
                j <= data@.len(),
                forall|t: int| 0 <= t < j ==> is_alphanumeric_char(#[trigger] data@[t]),
            decreases data@.len() - j,
        {
            let b = data[j];
            let ok = (48 <= b && b <= 57) || (65 <= b && b <= 90) || b == 32 || b == 36 || b == 37
                || b == 42 || b == 43 || b == 45 || b == 46 || b == 47 || b == 58;
            if !ok {
                proof {
                    assert(!is_alphanumeric_char(data@[j as int]));
                }
                return Err(QrError::InvalidCharacter);
            }
            j += 1;
        }
        match self.push_header(Mode::Alphanumeric, data.len()) {
            Ok(()) => {},
            Err(e) => {
                return Err(e);
            },
        }
        let ghost base = self@;
        proof {
            assert(data@.skip(0) =~= data@);
        }
        let mut i: usize = 0;
        while i < data.len()
            invariant
                self.wf(),
                self.spec_version() == old(self).spec_version(),
                i <= data@.len(),
                base + alphanumeric_bits(data@) == self@ + alphanumeric_bits(
                    data@.skip(i as int),
                ),
                self@.len() <= base.len() + 6 * i,
                base.len() + 6 * data@.len() + 24 <= usize::MAX,
            decreases data@.len() - i,
        {
            let remaining = data.len() - i;
            if remaining >= 2 {
                let number: u16 = alphanumeric_digit(data[i]) * 45 + alphanumeric_digit(
                    data[i + 1],
                );
                proof {
                    assert(data@.skip(i as int).skip(2) =~= data@.skip(i + 2));
                    assert(alphanumeric_bits(data@.skip(i as int)) == bits_of(number, 11)
                        + alphanumeric_bits(data@.skip(i + 2)));
                }
                self.push_number(11, number);
                proof {
                    assert(base + alphanumeric_bits(data@) =~= self@ + alphanumeric_bits(
                        data@.skip(i + 2),
                    ));
                }
                i += 2;
            } else {
                let number: u16 = alphanumeric_digit(data[i]);
                proof {
                    assert(data@.skip(i + 1) =~= Seq::<u8>::empty());
                    assert(alphanumeric_bits(data@.skip(i as int)) == bits_of(number, 6));
                    assert(alphanumeric_bits(data@.skip(i + 1)) =~= Seq::<bool>::empty());
                }
                self.push_number(6, number);
                proof {
                    assert(base + alphanumeric_bits(data@) =~= self@ + alphanumeric_bits(
                        data@.skip(i + 1),
                    ));
                }
                i += 1;
            }
        }
        proof {
            assert(data@.skip(data@.len() as int) =~= Seq::<u8>::empty());
            assert(final(self)@ =~= base + alphanumeric_bits(data@));
        }
        Ok(())
    }

    /// Encodes 8-bit byte data to the bits.
    ///
    /// # Errors
    ///
    /// Returns `Err(QrError::DataTooLong)` on overflow.
    pub fn push_byte_data(&mut self, data: &[u8]) -> (r: QrResult<()>)
        requires
            old(self).wf(),
            old(self)@.len() + 64 + 8 * data@.len() <= usize::MAX,
        ensures
            final(self).wf(),
            final(self).spec_version() == old(self).spec_version(),
            if !spec_mode_allowed(old(self).spec_version(), Mode::Byte) {
                r == Err::<(), QrError>(QrError::UnsupportedCharacterSet) && *final(self) == *old(
                    self,
                )
            } else if !spec_len_fits(old(self).spec_version(), Mode::Byte, data@.len() as int) {
                r == Err::<(), QrError>(QrError::DataTooLong) && *final(self) == *old(self)
            } else {
                r == Ok::<(), QrError>(()) && final(self)@ == old(self)@ + spec_header_bits(
                    old(self).spec_version(),
                    Mode::Byte,
                    data@.len() as int,
                ) + byte_bits(data@)
            },
    {
        match self.push_header(Mode::Byte, data.len()) {
            Ok(()) => {},
            Err(e) => {
                return Err(e);
            },
        }
        let ghost base = self@;
        proof {
            assert(data@.skip(0) =~= data@);
        }
        let mut i: usize = 0;
        while i < data.len()
            invariant
                self.wf(),
                self.spec_version() == old(self).spec_version(),
                i <= data@.len(),
                base + byte_bits(data@) == self@ + byte_bits(data@.skip(i as int)),
                self@.len() <= base.len() + 8 * i,
                base.len() + 8 * data@.len() + 24 <= usize::MAX,
            decreases data@.len() - i,
        {
            let number: u16 = data[i] as u16;
            proof {
                assert(data@.skip(i as int).skip(1) =~= data@.skip(i + 1));
                assert(byte_bits(data@.skip(i as int)) == bits_of(number, 8) + byte_bits(
                    data@.skip(i + 1),
                ));
            }
            self.push_number(8, number);
            proof {
                assert(base + byte_bits(data@) =~= self@ + byte_bits(data@.skip(i + 1)));
            }
            i += 1;
        }
        proof {
            assert(data@.skip(data@.len() as int) =~= Seq::<u8>::empty());
            assert(final(self)@ =~= base + byte_bits(data@));
        }
        Ok(())
    }

    /// Encodes Shift JIS double-byte data to the bits.
    ///
    /// # Errors
    ///
    /// Returns `Err(QrError::DataTooLong)` on overflow.
    ///
    /// Returns `Err(QrError::InvalidCharacter)` if the data is not Shift JIS
    /// double-byte data (e.g. if the length of data is not an even number).
    pub fn push_kanji_data(&mut self, data: &[u8]) -> (r: QrResult<()>)
        requires
            old(self).wf(),
            old(self)@.len() + 64 + 7 * data@.len() <= usize::MAX,
        ensures
            final(self).wf(),
            final(self).spec_version() == old(self).spec_version(),
            if !spec_mode_allowed(old(self).spec_version(), Mode::Kanji) {
                r == Err::<(), QrError>(QrError::UnsupportedCharacterSet) && *final(self) == *old(
                    self,
                )
            } else if !spec_len_fits(
                old(self).spec_version(),
                Mode::Kanji,
                data@.len() as int / 2,
            ) {
                r == Err::<(), QrError>(QrError::DataTooLong) && *final(self) == *old(self)
            } else if data@.len() % 2 != 0 || exists|t: int|
                0 <= t < data@.len() / 2 && !is_kanji_pair(
                    #[trigger] data@[2 * t],
                    data@[2 * t + 1],
                ) {
                r == Err::<(), QrError>(QrError::InvalidCharacter) && *final(self) == *old(self)
            } else {
                r == Ok::<(), QrError>(()) && final(self)@ == old(self)@ + spec_header_bits(
                    old(self).spec_version(),
                    Mode::Kanji,
                    data@.len() as int / 2,
                ) + kanji_bits(data@)
            },
    {
        match self.check_header(Mode::Kanji, data.len() / 2) {
            Ok(()) => {},
            Err(e) => {
                return Err(e);
            },
        }
        if data.len() % 2 != 0 {
            return Err(QrError::InvalidCharacter);
        }
        let mut j: usize = 0;
        while j < data.len()
            invariant
                *self == *old(self),
                self.wf(),
                spec_mode_allowed(old(self).spec_version(), Mode::Kanji),
                spec_len_fits(old(self).spec_version(), Mode::Kanji, data@.len() as int / 2),
                j <= data@.len(),
                j % 2 == 0,
                data@.len() % 2 == 0,
                forall|t: int|
                    0 <= t < j / 2 ==> is_kanji_pair(#[trigger] data@[2 * t], data@[2 * t + 1]),
            decreases data@.len() - j,
        {
            let b0 = data[j];
            let b1 = data[j + 1];
            let cp: u32 = (b0 as u32) * 256 + (b1 as u32);
            let ok = (0x8140 <= cp && cp <= 0x9FFC || 0xE040 <= cp && cp <= 0xEBBF) && 0x40 <= b1
                && b1 <= 0xFC && b1 != 0x7F;
            if !ok {
                proof {
                    let t = j as int / 2;
                    assert(2 * t == j as int);
                    assert(!is_kanji_pair(data@[2 * t], data@[2 * t + 1]));
                }
                return Err(QrError::InvalidCharacter);
            }
            j += 2;
        }
        match self.push_header(Mode::Kanji, data.len() / 2) {
            Ok(()) => {},
            Err(e) => {
                return Err(e);
            },
        }
        let ghost base = self@;
        proof {
            assert(data@.skip(0) =~= data@);
        }
        let mut i: usize = 0;
        while i < data.len()
            invariant
                self.wf(),
                self.spec_version() == old(self).spec_version(),
                i <= data@.len(),
                i % 2 == 0,
                data@.len() % 2 == 0,
                forall|t: int|
                    0 <= t < data@.len() / 2 ==> is_kanji_pair(
                        #[trigger] data@[2 * t],
                        data@[2 * t + 1],
                    ),
                base + kanji_bits(data@) == self@ + kanji_bits(data@.skip(i as int)),
                self@.len() <= base.len() + 7 * i,
                base.len() + 7 * data@.len() + 24 <= usize::MAX,
            decreases data@.len() - i,
        {
            let b0 = data[i];
            let b1 = data[i + 1];
            proof {
                assert(is_kanji_pair(data@[2 * (i as int / 2)], data@[2 * (i as int / 2) + 1]));
                assert(2 * (i as int / 2) == i as int);
            }
            let cp: u16 = (b0 as u16) * 256 + (b1 as u16);
            let adjusted: u16 = if cp < 0xE040 {
                cp - 0x8140
            } else {
                cp - 0xC140
            };
            let number: u16 = (adjusted / 256) * 192 + (adjusted % 256);
            proof {
                assert(data@.skip(i as int).skip(2) =~= data@.skip(i + 2));
                assert(number == spec_kanji_value(b0, b1));
                assert(kanji_bits(data@.skip(i as int)) == bits_of(number, 13) + kanji_bits(
                    data@.skip(i + 2),
                ));
            }
            self.push_number(13, number);
            proof {
                assert(base + kanji_bits(data@) =~= self@ + kanji_bits(data@.skip(i + 2)));
            }
            i += 2;
        }
        proof {
            assert(data@.skip(data@.len() as int) =~= Seq::<u8>::empty());
            assert(final(self)@ =~= base + kanji_bits(data@));
        }
        Ok(())
    }
}

/// The alternating padding bytes that fill the stream up to capacity.
pub open spec fn pad_bytes_seq(k: nat) -> Seq<u8> {
    Seq::new(
        k,
        |i: int|
            if i % 2 == 0 {
                0xECu8
            } else {
                0x11u8
            },
    )
}

/// The number of zero terminator bits the family asks for: four for Normal,
/// `2 v + 1` for Micro(v), three for rMQR.
pub open spec fn spec_terminator_size(version: Version) -> int {
    match version {
        Version::Micro(a) => a * 2 + 1,
        Version::Rmqr(_, _) => 3,
        Version::Normal(_) => 4,
    }
}

/// The bytes stored after terminating the stream `st` against the capacity
/// `cap`: the packed stream, then alternating `0xEC, 0x11` bytes up to the
/// capacity's whole bytes, then one zero byte when the capacity ends in a
/// half byte that is still unfilled.
pub open spec fn spec_terminated(st: Seq<bool>, cap: int) -> Seq<u8> {
    if st.len() == cap {
        bytes_of(st)
    } else {
        let nb = bytes_of(st).len() as int;
        let target = cap / 8;
        let padded = if target > nb {
            bytes_of(st) + pad_bytes_seq((target - nb) as nat)
        } else {
            bytes_of(st)
        };
        if 8 * padded.len() < cap {
            padded + seq![0u8]
        } else {
            padded
        }
    }
}

impl Bits {
    /// Pushes the ending bits to indicate no more data, pads the stream to
    /// a byte boundary and fills the remaining capacity with the standard
    /// padding bytes.
    ///
    /// # Errors
    ///
    /// Returns `Err(QrError::DataTooLong)` on overflow.
    ///
    /// Returns `Err(QrError::InvalidVersion)` if it is not valid to use the
    /// `ec_level` for the given version (e.g. `Version::Micro(1)` with
    /// `EcLevel::H`).
    pub fn push_terminator(&mut self, ec_level: EcLevel) -> (r: QrResult<()>)
        requires
            old(self).wf(),
        ensures
            final(self).wf(),
            final(self).spec_version() == old(self).spec_version(),
            match spec_max_len(old(self).spec_version(), ec_level) {
                Err(e) => r == Err::<(), QrError>(e) && *final(self) == *old(self),
                Ok(cap) => if old(self)@.len() > cap {
                    r == Err::<(), QrError>(QrError::DataTooLong) && *final(self) == *old(self)
                } else {
                    let term = vstd::math::min(
                        spec_terminator_size(old(self).spec_version()),
                        cap - old(self)@.len(),
                    );
                    r == Ok::<(), QrError>(()) && bytes_of(final(self)@) == spec_terminated(
                        old(self)@ + zero_bits(term as nat),
                        cap as int,
                    ) && bytes_of(final(self)@).len() == (cap + 7) / 8
                },
            },
    {
        let terminator_size: usize = match self.version {
            Version::Micro(a) => (a * 2 + 1) as usize,
            Version::Rmqr(_, _) => 3,
            _ => 4,
        };
        let cur_length = self.len();
        let cap = match self.max_len(ec_level) {
            Ok(c) => c,
            Err(e) => {
                return Err(e);
            },
        };
        proof {
            lemma_data_lengths_bound();
            assert(cap <= 23648);
        }
        if cur_length > cap {
            return Err(QrError::DataTooLong);
        }
        let t = if terminator_size < cap - cur_length {
            terminator_size
        } else {
            cap - cur_length
        };
        proof {
            lemma_zero_bits(t as nat);
        }
        self.push_number(t, 0);
        let ghost st = self@;
        proof {
            assert(st == old(self)@ + zero_bits(t as nat));
            assert(st.len() == cur_length + t <= cap);
            lemma_wf_bytes(*self);
        }
        if self.len() < cap {
            self.bit_offset = 0;
            proof {
                assert(self.data@.len() == (st.len() + 7) / 8);
                assert(self.data@ == bytes_of(st));
            }
            let target = cap / 8;
            let ghost nb0 = self.data@.len();
            let mut padded: usize = 0;
            while self.data.len() < target
                invariant
                    self.wf(),
                    self.bit_offset == 0,
                    self.version == old(self).spec_version(),
                    target == cap / 8,
                    cap <= 23648,
                    nb0 == bytes_of(st).len(),
                    padded == self.data@.len() - nb0,
                    self.data@ == bytes_of(st) + pad_bytes_seq(padded as nat),
                    self.data@.len() <= vstd::math::max(nb0 as int, target as int),
                decreases target - self.data@.len(),
            {
                let pad_byte: u8 = if padded % 2 == 0 {
                    0xEC
                } else {
                    0x11
                };
                self.data.push(pad_byte);
                padded = padded + 1;
                proof {
                    assert(self.data@ =~= bytes_of(st) + pad_bytes_seq(padded as nat));
                }
            }
        }
        if self.len() < cap {
            self.data.push(0);
            proof {
                assert(self.bit_offset == 0);
            }
        }
        proof {
            lemma_wf_bytes(*self);
            assert(bytes_of(final(self)@) == self.data@);
            if st.len() == cap {
                assert(self.data@ == bytes_of(st));
            } else {
                let nb = bytes_of(st).len() as int;
                let target = cap as int / 8;
                let padded_spec = if target > nb {
                    bytes_of(st) + pad_bytes_seq((target - nb) as nat)
                } else {
                    bytes_of(st)
                };
                assert(pad_bytes_seq(0) =~= Seq::<u8>::empty());
                if target <= nb {
                    assert(padded_spec =~= bytes_of(st));
                }
                assert(self.data@ == spec_terminated(st, cap as int));
            }
            assert(self.data@.len() == (cap + 7) / 8);
        }
        Ok(())
    }
}

/// The numeric payload never exceeds four bits per digit.
proof fn lemma_numeric_bits_len(s: Seq<u8>)
    ensures
        numeric_bits(s).len() <= 4 * s.len(),
    decreases s.len(),
{
    if s.len() >= 3 {
        lemma_numeric_bits_len(s.skip(3));
    }
}

/// The alphanumeric payload never exceeds six bits per character.
proof fn lemma_alphanumeric_bits_len(s: Seq<u8>)
    ensures
        alphanumeric_bits(s).len() <= 6 * s.len(),
    decreases s.len(),
{
    if s.len() >= 2 {
        lemma_alphanumeric_bits_len(s.skip(2));
    }
}

/// The byte payload is exactly eight bits per byte.
proof fn lemma_byte_bits_len(s: Seq<u8>)
    ensures
        byte_bits(s).len() == 8 * s.len(),
    decreases s.len(),
{
    if s.len() > 0 {
        lemma_byte_bits_len(s.skip(1));
    }
}

/// The Kanji payload never exceeds seven bits per byte.
proof fn lemma_kanji_bits_len(s: Seq<u8>)
    ensures
        kanji_bits(s).len() <= 7 * s.len(),
    decreases s.len(),
{
    if s.len() >= 2 {
        lemma_kanji_bits_len(s.skip(2));
    }
}

/// The payload bits of one segment in the stream.
pub open spec fn spec_seg_payload(data: Seq<u8>, seg: Segment) -> Seq<bool> {
    let sub = data.subrange(seg.begin as int, seg.end as int);
    match seg.mode {
        Mode::Numeric => numeric_bits(sub),
        Mode::Alphanumeric => alphanumeric_bits(sub),
        Mode::Byte => byte_bits(sub),
        Mode::Kanji => kanji_bits(sub),
    }
}

/// The full stream of one segment: header, then payload.
pub open spec fn spec_seg_stream(data: Seq<u8>, seg: Segment, version: Version) -> Seq<bool> {
    spec_header_bits(version, seg.mode, spec_seg_units(seg)) + spec_seg_payload(data, seg)
}

/// What pushing one segment returns: the family must admit the mode, the
/// character count must fit the count field, and the bytes must lie on the
/// mode's alphabet.
pub open spec fn spec_seg_result(data: Seq<u8>, seg: Segment, version: Version) -> QrResult<()> {
    let sub = data.subrange(seg.begin as int, seg.end as int);
    if !spec_mode_allowed(version, seg.mode) {
        Err(QrError::UnsupportedCharacterSet)
    } else if !spec_len_fits(version, seg.mode, spec_seg_units(seg)) {
        Err(QrError::DataTooLong)
    } else if seg.mode is Alphanumeric && (exists|t: int|
        0 <= t < sub.len() && !is_alphanumeric_char(#[trigger] sub[t])) {
        Err(QrError::InvalidCharacter)
    } else if seg.mode is Kanji && (sub.len() % 2 != 0 || (exists|t: int|
        0 <= t < sub.len() / 2 && !is_kanji_pair(#[trigger] sub[2 * t], sub[2 * t + 1]))) {
        Err(QrError::InvalidCharacter)
    } else {
        Ok(())
    }
}

/// What pushing a list of segments returns: the first failure, if any.
pub open spec fn spec_segs_result(data: Seq<u8>, segs: Seq<Segment>, version: Version) -> QrResult<
    (),
>
    decreases segs.len(),
{
    if segs.len() == 0 {
        Ok(())
    } else {
        match spec_seg_result(data, segs[0], version) {
            Err(e) => Err(e),
            Ok(()) => spec_segs_result(data, segs.skip(1), version),
        }
    }
}

/// The concatenated stream of a list of segments.
pub open spec fn spec_segs_stream(data: Seq<u8>, segs: Seq<Segment>, version: Version) -> Seq<
    bool,
>
    decreases segs.len(),
{
    if segs.len() == 0 {
        Seq::<bool>::empty()
    } else {
        spec_seg_stream(data, segs[0], version) + spec_segs_stream(data, segs.skip(1), version)
    }
}

/// The stream of the segments before the first failing one.
pub open spec fn spec_segs_stream_until(
    data: Seq<u8>,
    segs: Seq<Segment>,
    version: Version,
) -> Seq<bool>
    decreases segs.len(),
{
    if segs.len() == 0 {
        Seq::<bool>::empty()
    } else if spec_seg_result(data, segs[0], version) is Err {
        Seq::<bool>::empty()
    } else {
        spec_seg_stream(data, segs[0], version) + spec_segs_stream_until(
            data,
            segs.skip(1),
            version,
        )
    }
}

impl Bits {
    /// Push a segmented data to the bits. Every segment is encoded in turn;
    /// the first failing segment stops the push with its error, leaving the
    /// stream as the successful prefix left it.
    #[verifier::rlimit(100)]
    pub fn push_segments(&mut self, data: &[u8], segments: &[Segment]) -> (r: QrResult<()>)
        requires
            old(self).wf(),
            forall|i: int|
                0 <= i < segments@.len() ==> (#[trigger] segments@[i]).begin <= segments@[i].end
                    <= data@.len(),
            forall|i: int|
                0 <= i < segments@.len() && (#[trigger] segments@[i]).mode is Numeric
                    ==> seg_chars_ok(data@, segments@[i]),
            forall|i: int|
                #![trigger segments@[i], segments@[i + 1]]
                0 <= i < segments@.len() - 1 ==> segments@[i].end <= segments@[i + 1].begin,
            old(self)@.len() + 64 * segments@.len() + 8 * data@.len() + 64 <= usize::MAX,
        ensures
            final(self).wf(),
            final(self).spec_version() == old(self).spec_version(),
            r == spec_segs_result(data@, segments@, old(self).spec_version()),
            final(self)@ == old(self)@ + spec_segs_stream_until(
                data@,
                segments@,
                old(self).spec_version(),
            ),
            r is Ok ==> final(self)@ == old(self)@ + spec_segs_stream(
                data@,
                segments@,
                old(self).spec_version(),
            ),
    {
        let ghost v = old(self).spec_version();
        let ghost mut done: Seq<bool> = Seq::<bool>::empty();
        let mut i: usize = 0;
        proof {
            assert(segments@.skip(0) =~= segments@);
            assert(old(self)@ + done =~= old(self)@);
        }
        while i < segments.len()
            invariant
                self.wf(),
                v == old(self).spec_version(),
                self.spec_version() == v,
                i <= segments@.len(),
                forall|t: int|
                    0 <= t < segments@.len() ==> (#[trigger] segments@[t]).begin
                        <= segments@[t].end <= data@.len(),
                forall|t: int|
                    0 <= t < segments@.len() && (#[trigger] segments@[t]).mode is Numeric
                        ==> seg_chars_ok(data@, segments@[t]),
                forall|t: int|
                    #![trigger segments@[t], segments@[t + 1]]
                    0 <= t < segments@.len() - 1 ==> segments@[t].end <= segments@[t + 1].begin,
                old(self)@.len() + 64 * segments@.len() + 8 * data@.len() + 64 <= usize::MAX,
                done.len() <= 64 * i + 8 * (if i == 0 {
                    0int
                } else {
                    segments@[i - 1].end as int
                }),
                spec_segs_result(data@, segments@, v) == spec_segs_result(
                    data@,
                    segments@.skip(i as int),
                    v,
                ),
                self@ == old(self)@ + done,
                spec_segs_stream_until(data@, segments@, v) == done + spec_segs_stream_until(
                    data@,
                    segments@.skip(i as int),
                    v,
                ),
                old(self)@ + spec_segs_stream(data@, segments@, v) == self@ + spec_segs_stream(
                    data@,
                    segments@.skip(i as int),
                    v,
                ),
            decreases segments@.len() - i,
        {
            let seg = segments[i];
            proof {
                if i > 0 {
                    let u = i - 1 as int;
                    assert(segments@[u].end <= segments@[u + 1].begin);
                }
            }
            let slice = vstd::slice::slice_subrange(data, seg.begin, seg.end);
            let ghost sub = data@.subrange(seg.begin as int, seg.end as int);
            let ghost pre = self@;
            proof {
                assert(segments@.skip(i as int)[0] == seg);
                assert(segments@.skip(i as int).skip(1) =~= segments@.skip(i + 1));
                lemma_numeric_seg_chars(data@, seg);
                lemma_numeric_bits_len(sub);
                lemma_alphanumeric_bits_len(sub);
                lemma_byte_bits_len(sub);
                lemma_kanji_bits_len(sub);
            }
            let pushed = match seg.mode {
                Mode::Numeric => self.push_numeric_data(slice),
                Mode::Alphanumeric => self.push_alphanumeric_data(slice),
                Mode::Byte => self.push_byte_data(slice),
                Mode::Kanji => self.push_kanji_data(slice),
            };
            proof {
                assert(spec_seg_units(seg) == (if seg.mode is Kanji {
                    sub.len() as int / 2
                } else {
                    sub.len() as int
                }));
            }
            match pushed {
                Ok(()) => {
                    proof {
                        assert(spec_seg_result(data@, seg, v) is Ok);
                        assert(self@ == pre + spec_seg_stream(data@, seg, v));
                        done = done + spec_seg_stream(data@, seg, v);
                        assert(self@ =~= old(self)@ + done);
                        assert(spec_segs_stream_until(data@, segments@, v) =~= done
                            + spec_segs_stream_until(data@, segments@.skip(i + 1), v));
                        assert(old(self)@ + spec_segs_stream(data@, segments@, v) =~= self@
                            + spec_segs_stream(data@, segments@.skip(i + 1), v));
                        assert(spec_header_bits(v, seg.mode, spec_seg_units(seg)).len() <= 20);
                    }
                },
                Err(e) => {
                    proof {
                        assert(self@ == pre);
                        assert(spec_seg_result(data@, seg, v) == Err::<(), QrError>(e));
                        assert(spec_segs_stream_until(data@, segments@.skip(i as int), v)
                            =~= Seq::<bool>::empty());
                        assert(spec_segs_stream_until(data@, segments@, v) =~= done);
                        assert(final(self)@ =~= old(self)@ + spec_segs_stream_until(
                            data@,
                            segments@,
                            v,
                        ));
                    }
                    return Err(e);
                },
            }
            i = i + 1;
        }
        proof {
            assert(segments@.skip(segments@.len() as int) =~= Seq::<Segment>::empty());
            assert(spec_segs_stream_until(data@, segments@, v) =~= done);
        }
        Ok(())
    }

    /// Pushes the data to the bits, using the optimal encoding.
    pub fn push_optimal_data(&mut self, data: &[u8]) -> (r: QrResult<()>)
        requires
            old(self).wf(),
            old(self)@.len() + 120 * data@.len() + 2048 <= usize::MAX,
        ensures
            final(self).wf(),
            final(self).spec_version() == old(self).spec_version(),
            r == spec_segs_result(
                data@,
                spec_optimize(spec_parse(data@), old(self).spec_version()),
                old(self).spec_version(),
            ),
            r is Ok ==> final(self)@ == old(self)@ + spec_segs_stream(
                data@,
                spec_optimize(spec_parse(data@), old(self).spec_version()),
                old(self).spec_version(),
            ),
    {
        let raw = parse(data);
        proof {
            lemma_parse_props(data@);
        }
        let segments = optimize(raw.as_slice(), self.version);
        proof {
            lemma_optimize_props(data@, raw@, self.version);
            reveal(crate::coding::seg_chars_ok);
            assert(segments@.len() <= data@.len()) by {
                lemma_partition_count(segments@, data@.len() as int);
            }
        }
        self.push_segments(data, segments.as_slice())
    }
}

/// The bytes under a numeric segment are all decimal digits.
proof fn lemma_numeric_seg_chars(data: Seq<u8>, seg: Segment)
    requires
        seg.begin <= seg.end <= data.len(),
        seg.mode is Numeric ==> seg_chars_ok(data, seg),
    ensures
        seg.mode is Numeric ==> forall|t: int|
            0 <= t < seg.end - seg.begin ==> is_numeric_char(
                #[trigger] data.subrange(seg.begin as int, seg.end as int)[t],
            ),
{
    reveal(crate::coding::seg_chars_ok);
}

/// Within a partition of non-empty segments the `t`-th segment ends past
/// position `t`.
proof fn lemma_partition_index(segs: Seq<Segment>, n: int, t: int)
    requires
        wf_partition(segs, n),
        0 <= t < segs.len(),
    ensures
        segs[t].end >= t + 1,
    decreases t,
{
    if t > 0 {
        lemma_partition_index(segs, n, t - 1);
        let u = t - 1;
        assert(segs[u].end == segs[u + 1].begin);
    }
}

/// A partition into non-empty segments has at most one segment per byte.
proof fn lemma_partition_count(segs: Seq<Segment>, n: int)
    requires
        wf_partition(segs, n),
    ensures
        segs.len() <= n,
{
    if segs.len() > 0 {
        lemma_partition_index(segs, n, segs.len() - 1);
    }
}

/// The Normal version number of a version value, zero otherwise.
pub open spec fn spec_normal_num(v: Version) -> int {
    match v {
        Version::Normal(n) => n as int,
        _ => 0,
    }
}

/// The capacity behind an `Ok` lookup result, zero otherwise.
pub open spec fn spec_ok_len(r: QrResult<usize>) -> int {
    match r {
        Ok(c) => c as int,
        Err(_) => 0,
    }
}

/// Finds the smallest version (QR code only) that can store N bits of data
/// in the given error correction level; the largest version when none can.
fn find_min_version(length: usize, ec_level: EcLevel) -> (r: Version)
    ensures
        r is Normal,
        r.is_valid(),
        1 <= spec_normal_num(r) <= 40,
        length <= DATA_LENGTHS[39][ec_level.spec_index()] ==> DATA_LENGTHS[spec_normal_num(r)
            - 1][ec_level.spec_index()] >= length,
        forall|w: int|
            0 <= w < spec_normal_num(r) - 1 ==> DATA_LENGTHS[w][ec_level.spec_index()] < length,
{
    let lvl = ec_level.index();
    let mut v: usize = 0;
    while v < 39
        invariant
            lvl == ec_level.spec_index(),
            v <= 39,
            forall|w: int| 0 <= w < v ==> DATA_LENGTHS[w][ec_level.spec_index()] < length,
        decreases 39 - v,
    {
        if DATA_LENGTHS[v][lvl] >= length {
            return Version::Normal((v + 1) as u8);
        }
        v = v + 1;
    }
    Version::Normal(40)
}

/// Whether the representative version can hold the optimized segmentation
/// of the input at its own capacity.
pub open spec fn spec_rep_fits(data: Seq<u8>, ec_level: EcLevel, rep: Version) -> bool {
    &&& spec_max_len(rep, ec_level) is Ok
    &&& spec_total_encoded_len(spec_optimize(spec_parse(data), rep), rep) <= spec_ok_len(
        spec_max_len(rep, ec_level),
    )
}

/// The first of the three representative versions (one per length-field
/// regime) whose capacity holds the input's optimized segmentation.
pub open spec fn spec_chosen_rep(data: Seq<u8>, ec_level: EcLevel) -> Version {
    if spec_rep_fits(data, ec_level, Version::Normal(9)) {
        Version::Normal(9)
    } else if spec_rep_fits(data, ec_level, Version::Normal(26)) {
        Version::Normal(26)
    } else {
        Version::Normal(40)
    }
}

/// Whether any Normal version can hold the input at the level: the largest
/// representative decides.
pub open spec fn spec_auto_fits(data: Seq<u8>, ec_level: EcLevel) -> bool {
    ||| spec_rep_fits(data, ec_level, Version::Normal(9))
    ||| spec_rep_fits(data, ec_level, Version::Normal(26))
    ||| spec_rep_fits(data, ec_level, Version::Normal(40))
}

/// Whether the Normal version numbered `u` cannot hold the input's
/// segmentation re-optimized for `u`'s own length-field regime.
pub open spec fn spec_version_overflows(data: Seq<u8>, ec_level: EcLevel, u: int) -> bool {
    spec_total_encoded_len(
        spec_optimize(spec_parse(data), Version::Normal(u as u8)),
        Version::Normal(u as u8),
    ) > spec_ok_len(spec_max_len(Version::Normal(u as u8), ec_level))
}

/// The version a successful automatic Normal-version encode settles on:
/// a valid Normal version whose capacity holds the total of the
/// segmentation optimized for the chosen representative, while every
/// smaller version overflows at its own length-field regime.
pub open spec fn spec_auto_version_props(data: Seq<u8>, ec_level: EcLevel, v: Version) -> bool {
    let rep = spec_chosen_rep(data, ec_level);
    let segs = spec_optimize(spec_parse(data), rep);
    let total = spec_total_encoded_len(segs, rep);
    let lvl = ec_level.spec_index();
    let cap = spec_ok_len(spec_max_len(v, ec_level));
    &&& v is Normal
    &&& v.is_valid()
    &&& spec_max_len(v, ec_level) is Ok
    &&& cap >= total
    &&& (forall|w: int| 0 <= w < spec_normal_num(v) - 1 ==> DATA_LENGTHS[w][lvl] < total)
    &&& (forall|u: int|
        1 <= u < spec_normal_num(v) ==> spec_version_overflows(data, ec_level, u))
}

/// What a successful automatic Normal-version encode returns: the stream of
/// the segmentation optimized for the chosen representative version, pushed
/// at the smallest version whose capacity holds it, then terminated and
/// padded to that capacity.
pub open spec fn spec_encode_auto_ok(data: Seq<u8>, ec_level: EcLevel, bits: Bits) -> bool {
    let rep = spec_chosen_rep(data, ec_level);
    let v = bits.spec_version();
    let segs = spec_optimize(spec_parse(data), rep);
    let cap = spec_ok_len(spec_max_len(v, ec_level));
    let stream = spec_segs_stream(data, segs, v);
    &&& bits.wf()
    &&& spec_auto_version_props(data, ec_level, v)
    &&& bytes_of(bits@) == spec_terminated(
        stream + zero_bits(vstd::math::min(4, cap - stream.len() as int) as nat),
        cap,
    )
    &&& bytes_of(bits@).len() == (cap + 7) / 8
}

/// Within one level's column the capacities never shrink as the Normal
/// version grows.
proof fn lemma_cap_monotone(a: int, b: int, lvl: int)
    requires
        0 <= a <= b < 40,
        0 <= lvl < 4,
    ensures
        DATA_LENGTHS[a][lvl] <= DATA_LENGTHS[b][lvl],
    decreases b - a,
{
    if a < b {
        lemma_data_lengths_monotone();
        lemma_cap_monotone(a, b - 1, lvl);
        assert(DATA_LENGTHS[b - 1][lvl] <= DATA_LENGTHS[b][lvl]);
    }
}

/// Every Normal version below the one the search returns overflows at its
/// own regime: versions in the chosen representative's regime by the
/// search's minimality, versions in the lower regimes because their own
/// representative already overflowed.
#[verifier::rlimit(100)]
proof fn lemma_smaller_versions_overflow(
    data: Seq<u8>,
    ec_level: EcLevel,
    rep: Version,
    v: Version,
)
    requires
        rep == spec_chosen_rep(data, ec_level),
        rep is Normal,
        spec_rep_fits(data, ec_level, rep),
        v is Normal,
        1 <= spec_normal_num(v) <= spec_normal_num(rep),
        forall|w: int|
            0 <= w < spec_normal_num(v) - 1 ==> DATA_LENGTHS[w][ec_level.spec_index()]
                < spec_total_encoded_len(
                spec_optimize(spec_parse(data), rep),
                rep,
            ),
    ensures
        forall|u: int|
            1 <= u < spec_normal_num(v) ==> spec_version_overflows(data, ec_level, u),
{
    let lvl = ec_level.spec_index();
    let segs = spec_parse(data);
    let total = spec_total_encoded_len(spec_optimize(segs, rep), rep);
    assert forall|u: int|
        1 <= u < spec_normal_num(v) implies spec_version_overflows(data, ec_level, u) by {
        let uv = Version::Normal(u as u8);
        assert(uv.is_valid());
        let ucap = spec_ok_len(spec_max_len(uv, ec_level));
        assert(ucap == DATA_LENGTHS[u - 1][lvl]);
        if spec_same_regime(uv, rep) {
            lemma_regime_congruent(segs, uv, rep);
            assert(ucap < total);
        } else if u <= 9 {
            // the first representative already failed
            assert(!spec_rep_fits(data, ec_level, Version::Normal(9)));
            lemma_regime_congruent(segs, uv, Version::Normal(9));
            lemma_cap_monotone(u - 1, 8, lvl);
            assert(spec_max_len(Version::Normal(9), ec_level) == Ok::<usize, QrError>(
                DATA_LENGTHS[8][lvl] as usize,
            ));
        } else {
            // u lies in the middle regime while the chosen one is the last
            assert(10 <= u <= 26);
            assert(rep == Version::Normal(40));
            assert(!spec_rep_fits(data, ec_level, Version::Normal(26)));
            lemma_regime_congruent(segs, uv, Version::Normal(26));
            lemma_cap_monotone(u - 1, 25, lvl);
            assert(spec_max_len(Version::Normal(26), ec_level) == Ok::<usize, QrError>(
                DATA_LENGTHS[25][lvl] as usize,
            ));
        }
    }
}

/// The count fields of segments pushed at version `v` never narrow when
/// the version grows.
proof fn lemma_regime_monotone_seg(seg: Segment, a: Version, b: Version)
    requires
        a is Normal && b is Normal,
        1 <= spec_normal_num(a) <= spec_normal_num(b) <= 40,
        seg.begin <= seg.end,
    ensures
        spec_seg_encoded_len(seg, a) <= spec_seg_encoded_len(seg, b),
{
    reveal(crate::coding::spec_seg_encoded_len);
}

/// The total encoded length at a smaller Normal version never exceeds the
/// total at a larger one.
proof fn lemma_regime_monotone_total(segs: Seq<Segment>, a: Version, b: Version)
    requires
        a is Normal && b is Normal,
        1 <= spec_normal_num(a) <= spec_normal_num(b) <= 40,
        forall|i: int| 0 <= i < segs.len() ==> (#[trigger] segs[i]).begin <= segs[i].end,
    ensures
        spec_total_encoded_len(segs, a) <= spec_total_encoded_len(segs, b),
    decreases segs.len(),
{
    if segs.len() > 0 {
        lemma_regime_monotone_seg(segs[0], a, b);
        assert(forall|i: int|
            0 <= i < segs.skip(1).len() ==> (#[trigger] segs.skip(1)[i]) == segs[i + 1]);
        lemma_regime_monotone_total(segs.skip(1), a, b);
    }
}

/// Automatically determines the minimum version to store the data, and
/// encode the result.
///
/// This method will not consider any Micro QR code or rMQR versions.
///
/// # Errors
///
/// Returns `Err(QrError::DataTooLong)` if and only if the data is too long
/// to fit even the highest QR code version.
#[verifier::rlimit(100)]
pub fn encode_auto(data: &[u8], ec_level: EcLevel) -> (r: QrResult<Bits>)
    requires
        120 * data@.len() + 4096 <= usize::MAX,
    ensures
        match r {
            Ok(bits) => spec_auto_fits(data@, ec_level) && spec_encode_auto_ok(
                data@,
                ec_level,
                bits,
            ),
            Err(e) => !spec_auto_fits(data@, ec_level) && e == QrError::DataTooLong,
        },
{
    let raw = parse(data);
    proof {
        lemma_parse_props(data@);
        lemma_data_lengths_monotone();
        assert(forall|j: int|
            0 <= j < 4 ==> DATA_LENGTHS[8][j] <= DATA_LENGTHS[39][j] && #[trigger] DATA_LENGTHS[25][j]
                <= DATA_LENGTHS[39][j]);
    }
    let mut k: usize = 0;
    while k < 3
        invariant
            120 * data@.len() + 4096 <= usize::MAX,
            k <= 3,
            raw@ == spec_parse(data@),
            wf_partition(raw@, data@.len() as int),
            segs_chars_ok(data@, raw@),
            k >= 1 ==> !spec_rep_fits(data@, ec_level, Version::Normal(9)),
            k >= 2 ==> !spec_rep_fits(data@, ec_level, Version::Normal(26)),
            k >= 3 ==> !spec_rep_fits(data@, ec_level, Version::Normal(40)),
            forall|j: int|
                0 <= j < 4 ==> DATA_LENGTHS[8][j] <= DATA_LENGTHS[39][j]
                    && #[trigger] DATA_LENGTHS[25][j] <= DATA_LENGTHS[39][j],
        decreases 3 - k,
    {
        let rep = if k == 0 {
            Version::Normal(9)
        } else if k == 1 {
            Version::Normal(26)
        } else {
            Version::Normal(40)
        };
        let opt_segments = optimize(raw.as_slice(), rep);
        proof {
            lemma_optimize_props(data@, raw@, rep);
            lemma_partition_count(spec_optimize(raw@, rep), data@.len() as int);
        }
        let total_len = total_encoded_len(opt_segments.as_slice(), rep);
        let data_capacity = match rep.fetch(ec_level, &DATA_LENGTHS) {
            Ok(c) => c,
            Err(_) => {
                proof {
                    assert(false);
                }
                return Err(QrError::DataTooLong);
            },
        };
        if total_len <= data_capacity {
            proof {
                assert(rep == spec_chosen_rep(data@, ec_level));
            }
            let min_version = find_min_version(total_len, ec_level);
            let mut bits = Bits::new(min_version);
            proof {
                lemma_data_lengths_bound();
                lemma_regime_cap();
                let ghost segs = spec_optimize(spec_parse(data@), rep);
                let lvl = ec_level.spec_index();
                let mv = spec_normal_num(min_version);
                // the search returns a version no larger than the fitting
                // representative
                assert(mv <= spec_normal_num(rep)) by {
                    if mv > spec_normal_num(rep) {
                        assert(DATA_LENGTHS[spec_normal_num(rep) - 1][lvl] < total_len);
                    }
                }
                let vcap = spec_ok_len(spec_max_len(min_version, ec_level));
                assert(vcap == DATA_LENGTHS[mv - 1][lvl] >= total_len);
                lemma_regime_monotone_total(segs, min_version, rep);
                assert(spec_total_encoded_len(segs, min_version) <= total_len <= vcap);
                assert(vcap <= spec_regime_cap(min_version));
                lemma_normal_segs_fit(data@, segs, min_version, vcap);
                assert forall|i: int|
                    0 <= i < segs.len() implies (#[trigger] spec_seg_result(
                    data@,
                    segs[i],
                    min_version,
                )) is Ok by {
                    reveal(crate::coding::seg_chars_ok);
                    lemma_seg_result_ok(data@, segs[i], min_version);
                }
                lemma_segs_result_ok(data@, segs, min_version);
                lemma_segs_stream_len(data@, segs, min_version);
            }
            match bits.push_segments(data, opt_segments.as_slice()) {
                Ok(()) => {},
                Err(e) => {
                    proof {
                        assert(false);
                    }
                    return Err(QrError::DataTooLong);
                },
            }
            match bits.push_terminator(ec_level) {
                Ok(()) => {},
                Err(e) => {
                    proof {
                        assert(false);
                    }
                    return Err(QrError::DataTooLong);
                },
            }
            proof {
                lemma_smaller_versions_overflow(data@, ec_level, rep, min_version);
            }
            return Ok(bits);
        }
        k = k + 1;
    }
    Err(QrError::DataTooLong)
}

/// Auto rMQR's version minimization strategy
#[derive(Debug, Clone, Copy)]
pub enum RmqrStrategy {
    /// minimize the width
    Width,
    /// minimize the height
    Height,
    /// minimize the area
    Area,
}

/// What a successful automatic rMQR encode returns: the stream of the
/// segmentation optimized for the chosen size, terminated and padded to
/// that size's capacity.
pub open spec fn spec_encode_rmqr_ok(data: Seq<u8>, ec_level: EcLevel, bits: Bits) -> bool {
    let v = bits.spec_version();
    let segs = spec_optimize(spec_parse(data), v);
    let cap = spec_ok_len(spec_max_len(v, ec_level));
    let stream = spec_segs_stream(data, segs, v);
    &&& bits.wf()
    &&& v.spec_rmqr_index() is Some
    &&& spec_max_len(v, ec_level) is Ok
    &&& spec_total_encoded_len(segs, v) <= cap
    &&& bytes_of(bits@) == spec_terminated(
        stream + zero_bits(vstd::math::min(3, cap - stream.len() as int) as nat),
        cap,
    )
    &&& bytes_of(bits@).len() == (cap + 7) / 8
}

/// The rMQR width at position `wi` of the ascending width order.
pub open spec fn spec_rmqr_width_of(wi: int) -> u8 {
    if wi == 0 {
        27
    } else if wi == 1 {
        43
    } else if wi == 2 {
        59
    } else if wi == 3 {
        77
    } else if wi == 4 {
        99
    } else {
        139
    }
}

/// The rMQR height at position `hi` of the ascending height order.
pub open spec fn spec_rmqr_height_of(hi: int) -> u8 {
    if hi == 0 {
        7
    } else if hi == 1 {
        9
    } else if hi == 2 {
        11
    } else if hi == 3 {
        13
    } else if hi == 4 {
        15
    } else {
        17
    }
}

/// Whether the rMQR size `v` can hold the input's segmentation re-optimized
/// for `v` at the level's capacity.
pub open spec fn spec_rmqr_fits(data: Seq<u8>, ec_level: EcLevel, v: Version) -> bool {
    &&& v.spec_rmqr_index() is Some
    &&& spec_max_len(v, ec_level) is Ok
    &&& spec_total_encoded_len(spec_optimize(spec_parse(data), v), v) <= spec_ok_len(
        spec_max_len(v, ec_level),
    )
}

/// The first height, from `hi` upward, at which the width at `wi` holds the
/// input.
pub open spec fn spec_first_fit(data: Seq<u8>, ec_level: EcLevel, wi: int, hi: int) -> Option<
    Version,
>
    decreases 6 - hi,
{
    if hi < 0 || hi >= 6 {
        None
    } else {
        let v = Version::Rmqr(spec_rmqr_height_of(hi), spec_rmqr_width_of(wi));
        if spec_rmqr_fits(data, ec_level, v) {
            Some(v)
        } else {
            spec_first_fit(data, ec_level, wi, hi + 1)
        }
    }
}

/// The fitting sizes, one per width in ascending width order: for each
/// width its first fitting height.
pub open spec fn spec_rmqr_candidates(data: Seq<u8>, ec_level: EcLevel, wi: int) -> Seq<Version>
    decreases 6 - wi,
{
    if wi < 0 || wi >= 6 {
        Seq::<Version>::empty()
    } else {
        match spec_first_fit(data, ec_level, wi, 0) {
            Some(v) => seq![v] + spec_rmqr_candidates(data, ec_level, wi + 1),
            None => spec_rmqr_candidates(data, ec_level, wi + 1),
        }
    }
}

/// The quantity each strategy minimizes over the candidate sizes. The
/// candidates are width-ordered, so the constant key of `Width` makes its
/// first candidate the chosen one.
pub open spec fn spec_strategy_key(strategy: RmqrStrategy, v: Version) -> int {
    match strategy {
        RmqrStrategy::Width => 0,
        RmqrStrategy::Height => v.spec_height(),
        RmqrStrategy::Area => v.spec_width() * v.spec_height(),
    }
}

/// The strategy picks `v` among the candidate sizes: `v` is a candidate
/// with the least strategy key, and no earlier candidate (of smaller
/// width) shares that key.
pub open spec fn spec_rmqr_choice_ok(
    data: Seq<u8>,
    ec_level: EcLevel,
    strategy: RmqrStrategy,
    v: Version,
) -> bool {
    let cands = spec_rmqr_candidates(data, ec_level, 0);
    exists|j: int|
        0 <= j < cands.len() && v == cands[j] && (forall|t: int|
            0 <= t < j ==> spec_strategy_key(strategy, #[trigger] cands[t]) > spec_strategy_key(
                strategy,
                cands[j],
            )) && (forall|t: int|
            0 <= t < cands.len() ==> spec_strategy_key(strategy, #[trigger] cands[t])
                >= spec_strategy_key(strategy, cands[j]))
}

/// A width whose height search failed holds the input at none of its
/// heights.
proof fn lemma_first_fit_none(data: Seq<u8>, ec_level: EcLevel, wi: int, hi: int)
    requires
        spec_first_fit(data, ec_level, wi, hi) is None,
        0 <= hi,
    ensures
        forall|h: int|
            hi <= h < 6 ==> !spec_rmqr_fits(
                data,
                ec_level,
                Version::Rmqr(spec_rmqr_height_of(h), #[trigger] spec_rmqr_width_of(wi)),
            ),
    decreases 6 - hi,
{
    if hi < 6 {
        lemma_first_fit_none(data, ec_level, wi, hi + 1);
        assert forall|h: int|
            hi <= h < 6 implies !spec_rmqr_fits(
            data,
            ec_level,
            Version::Rmqr(spec_rmqr_height_of(h), #[trigger] spec_rmqr_width_of(wi)),
        ) by {
            if h > hi {
                assert(!spec_rmqr_fits(
                    data,
                    ec_level,
                    Version::Rmqr(spec_rmqr_height_of(h), spec_rmqr_width_of(wi)),
                ));
            }
        }
    }
}

/// A successful height search returns a fitting size of its width.
proof fn lemma_first_fit_some(data: Seq<u8>, ec_level: EcLevel, wi: int, hi: int, v: Version)
    requires
        spec_first_fit(data, ec_level, wi, hi) == Some(v),
        0 <= hi,
    ensures
        spec_rmqr_fits(data, ec_level, v),
    decreases 6 - hi,
{
    if hi < 6 {
        let w = Version::Rmqr(spec_rmqr_height_of(hi), spec_rmqr_width_of(wi));
        if !spec_rmqr_fits(data, ec_level, w) {
            lemma_first_fit_some(data, ec_level, wi, hi + 1, v);
        }
    }
}

/// Every candidate size holds the input.
proof fn lemma_candidates_fit(data: Seq<u8>, ec_level: EcLevel, wi: int)
    requires
        0 <= wi,
    ensures
        forall|j: int|
            0 <= j < spec_rmqr_candidates(data, ec_level, wi).len() ==> spec_rmqr_fits(
                data,
                ec_level,
                #[trigger] spec_rmqr_candidates(data, ec_level, wi)[j],
            ),
    decreases 6 - wi,
{
    if 0 <= wi < 6 {
        lemma_candidates_fit(data, ec_level, wi + 1);
        let c = spec_rmqr_candidates(data, ec_level, wi);
        let rest = spec_rmqr_candidates(data, ec_level, wi + 1);
        match spec_first_fit(data, ec_level, wi, 0) {
            Some(v) => {
                lemma_first_fit_some(data, ec_level, wi, 0, v);
                assert forall|j: int| 0 <= j < c.len() implies spec_rmqr_fits(
                    data,
                    ec_level,
                    #[trigger] c[j],
                ) by {
                    if j > 0 {
                        assert(c[j] == rest[j - 1]);
                        assert(spec_rmqr_fits(data, ec_level, rest[j - 1]));
                    }
                }
            },
            None => {},
        }
    }
}

/// A width whose height search succeeds makes the candidate list from any
/// earlier width non-empty.
proof fn lemma_candidates_nonempty(data: Seq<u8>, ec_level: EcLevel, from: int, wi: int)
    requires
        0 <= from <= wi < 6,
        spec_first_fit(data, ec_level, wi, 0) is Some,
    ensures
        spec_rmqr_candidates(data, ec_level, from).len() > 0,
    decreases wi - from,
{
    if from < wi {
        lemma_candidates_nonempty(data, ec_level, from + 1, wi);
    }
}

/// When the candidate list is empty no standardized rMQR size holds the
/// input.
proof fn lemma_no_candidates(data: Seq<u8>, ec_level: EcLevel)
    requires
        spec_rmqr_candidates(data, ec_level, 0).len() == 0,
    ensures
        forall|v: Version|
            (#[trigger] v.spec_rmqr_index()) is Some ==> !spec_rmqr_fits(data, ec_level, v),
{
    assert forall|wi: int| 0 <= wi < 6 implies (#[trigger] spec_first_fit(
        data,
        ec_level,
        wi,
        0,
    )) is None by {
        if spec_first_fit(data, ec_level, wi, 0) is Some {
            lemma_candidates_nonempty(data, ec_level, 0, wi);
        }
    }
    assert forall|v: Version|
        (#[trigger] v.spec_rmqr_index()) is Some implies !spec_rmqr_fits(data, ec_level, v) by {
        match v {
            Version::Rmqr(h, w) => {
                let hi: int = if h == 7 {
                    0
                } else if h == 9 {
                    1
                } else if h == 11 {
                    2
                } else if h == 13 {
                    3
                } else if h == 15 {
                    4
                } else {
                    5
                };
                let wi: int = if w == 27 {
                    0
                } else if w == 43 {
                    1
                } else if w == 59 {
                    2
                } else if w == 77 {
                    3
                } else if w == 99 {
                    4
                } else {
                    5
                };
                assert(spec_rmqr_height_of(hi) == h && spec_rmqr_width_of(wi) == w);
                lemma_first_fit_none(data, ec_level, wi, 0);
                assert(!spec_rmqr_fits(
                    data,
                    ec_level,
                    Version::Rmqr(spec_rmqr_height_of(hi), spec_rmqr_width_of(wi)),
                ));
            },
            _ => {},
        }
    }
}

/// Powers of two as the count-field widths use them.
pub open spec fn spec_pow2f(f: int) -> int {
    if f <= 0 {
        1
    } else if f == 1 {
        2
    } else if f == 2 {
        4
    } else if f == 3 {
        8
    } else if f == 4 {
        16
    } else if f == 5 {
        32
    } else if f == 6 {
        64
    } else if f == 7 {
        128
    } else if f == 8 {
        256
    } else if f == 9 {
        512
    } else {
        65536
    }
}

/// Within one rMQR symbol, every segment of a partition whose total encoded
/// length fits the capacity also fits its character-count field: after the
/// three indicator bits and the count field, the payload that remains never
/// reaches the field's range.
#[verifier::rlimit(100)]
proof fn lemma_rmqr_segs_fit(data: Seq<u8>, segs: Seq<Segment>, v: Version, cap: int)
    requires
        v.spec_rmqr_index() is Some,
        spec_max_len(v, EcLevel::M) == Ok::<usize, QrError>(cap as usize) || spec_max_len(
            v,
            EcLevel::H,
        ) == Ok::<usize, QrError>(cap as usize),
        1 <= cap <= 23648,
        forall|i: int|
            0 <= i < segs.len() ==> (#[trigger] segs[i]).begin < segs[i].end <= data.len(),
        spec_total_encoded_len(segs, v) <= cap,
    ensures
        forall|i: int|
            0 <= i < segs.len() ==> spec_len_fits(v, (#[trigger] segs[i]).mode, spec_seg_units(
                segs[i],
            )),
    decreases segs.len(),
{
    reveal(crate::coding::spec_seg_encoded_len);
    assert(forall|i: int, m: int|
        0 <= i < 32 && 0 <= m < 4 ==> 2 <= #[trigger] RMQR_LENGTH_BITS_COUNT[i][m] <= 9);
    assert(forall|i: int, m: int|
        0 <= i < 32 && 0 <= m < 4 ==> (DATA_LENGTHS[44 + i][1] - 3
            - #[trigger] RMQR_LENGTH_BITS_COUNT[i][m]) * (if m == 0 {
            3int
        } else if m == 1 {
            2int
        } else {
            1int
        }) < (if m == 0 {
            10int
        } else if m == 1 {
            11int
        } else if m == 2 {
            8int
        } else {
            13int
        }) * spec_pow2f(RMQR_LENGTH_BITS_COUNT[i][m] as int));
    assert(forall|i: int, m: int|
        0 <= i < 32 && 0 <= m < 4 ==> (DATA_LENGTHS[44 + i][3] - 3
            - #[trigger] RMQR_LENGTH_BITS_COUNT[i][m]) * (if m == 0 {
            3int
        } else if m == 1 {
            2int
        } else {
            1int
        }) < (if m == 0 {
            10int
        } else if m == 1 {
            11int
        } else if m == 2 {
            8int
        } else {
            13int
        }) * spec_pow2f(RMQR_LENGTH_BITS_COUNT[i][m] as int));
    if segs.len() > 0 {
        let seg = segs[0];
        crate::coding::lemma_seg_len_bound(seg, v);
        lemma_total_nonneg(data, segs.skip(1), v);
        assert(spec_seg_encoded_len(seg, v) <= cap);
        let u = spec_seg_units(seg);
        let f = seg.mode.spec_length_bits_count(v);
        let payload = seg.mode.spec_data_bits_count(u);
        assert(payload <= cap - 3 - f);
        assert(2 <= f <= 9);
        assert((1usize << 2usize) == 4 && (1usize << 3usize) == 8 && (1usize << 4usize) == 16 && (
        1usize << 5usize) == 32 && (1usize << 6usize) == 64 && (1usize << 7usize) == 128 && (1usize
            << 8usize) == 256 && (1usize << 9usize) == 512) by (bit_vector);
        assert((1usize << (f as usize)) == spec_pow2f(f));
        match seg.mode {
            Mode::Numeric => {
                assert((u * 10 + 2) / 3 <= cap - 3 - f ==> 10 * u <= 3 * (cap - 3 - f))
                    by (nonlinear_arith)
                    requires
                        u >= 0,
                ;
                assert(3 * (cap - 3 - f) < 10 * spec_pow2f(f));
                assert(10 * u < 10 * spec_pow2f(f) ==> u < spec_pow2f(f)) by (nonlinear_arith);
            },
            Mode::Alphanumeric => {
                assert((u * 11 + 1) / 2 <= cap - 3 - f ==> 11 * u <= 2 * (cap - 3 - f))
                    by (nonlinear_arith)
                    requires
                        u >= 0,
                ;
                assert(2 * (cap - 3 - f) < 11 * spec_pow2f(f));
                assert(11 * u < 11 * spec_pow2f(f) ==> u < spec_pow2f(f)) by (nonlinear_arith);
            },
            Mode::Byte => {
                assert((cap - 3 - f) < 8 * spec_pow2f(f));
                assert(8 * u < 8 * spec_pow2f(f) ==> u < spec_pow2f(f)) by (nonlinear_arith);
            },
            Mode::Kanji => {
                assert((cap - 3 - f) < 13 * spec_pow2f(f));
                assert(13 * u < 13 * spec_pow2f(f) ==> u < spec_pow2f(f)) by (nonlinear_arith);
            },
        }
        assert(spec_len_fits(v, seg.mode, u));
        assert(forall|i: int|
            0 <= i < segs.skip(1).len() ==> (#[trigger] segs.skip(1)[i]) == segs[i + 1]);
        lemma_rmqr_segs_fit(data, segs.skip(1), v, cap);
        assert forall|i: int|
            0 <= i < segs.len() implies spec_len_fits(
            v,
            (#[trigger] segs[i]).mode,
            spec_seg_units(segs[i]),
        ) by {
            if i > 0 {
                assert(segs.skip(1)[i - 1] == segs[i]);
                assert(spec_len_fits(
                    v,
                    segs.skip(1)[i - 1].mode,
                    spec_seg_units(segs.skip(1)[i - 1]),
                ));
            }
        }
    }
}

/// Automatically determines the minimum rMQR version to store the data per
/// the given strategy, and encode the result.
///
/// This method will not consider QR or Micro QR code versions.
///
/// # Errors
///
/// Returns `Err(QrError::DataTooLong)` if and only if the data is too long
/// to fit every rMQR code version, and `Err(QrError::InvalidVersion)` if
/// the error correction level is not M or H.
#[verifier::rlimit(100)]
pub fn encode_auto_rmqr(data: &[u8], ec_level: EcLevel, strategy: RmqrStrategy) -> (r: QrResult<
    Bits,
>)
    requires
        120 * data@.len() + 4096 <= usize::MAX,
    ensures
        match r {
            Ok(bits) => {
                &&& spec_encode_rmqr_ok(data@, ec_level, bits)
                &&& spec_rmqr_fits(data@, ec_level, bits.spec_version())
                &&& spec_rmqr_choice_ok(data@, ec_level, strategy, bits.spec_version())
            },
            Err(e) => if ec_level is M || ec_level is H {
                e == QrError::DataTooLong && (forall|v: Version|
                    (#[trigger] v.spec_rmqr_index()) is Some ==> !spec_rmqr_fits(
                        data@,
                        ec_level,
                        v,
                    ))
            } else {
                e == QrError::InvalidVersion
            },
        },
{
    let raw = parse(data);
    proof {
        lemma_parse_props(data@);
        assert(forall|i: int|
            0 <= i < 32 ==> #[trigger] DATA_LENGTHS[44 + i][1] > 0 && DATA_LENGTHS[44 + i][3] > 0);
        assert(forall|i: int|
            0 <= i < 32 ==> #[trigger] DATA_LENGTHS[44 + i][0] == 0 && DATA_LENGTHS[44 + i][2]
                == 0);
    }
    if matches!(ec_level, EcLevel::L) || matches!(ec_level, EcLevel::Q) {
        // the rMQR tables define no capacity at these levels: the first
        // standardized size already reports the lookup failure
        let first = Version::Rmqr(11, 27);
        match first.fetch(ec_level, &DATA_LENGTHS) {
            Ok(_) => {
                proof {
                    assert(false);
                }
                return Err(QrError::InvalidVersion);
            },
            Err(e) => {
                return Err(e);
            },
        }
    }
    let widths = Version::rmqr_all_width();
    let heights = Version::rmqr_all_height();
    let mut possible_versions: Vec<Version> = Vec::new();
    let mut wi: usize = 0;
    while wi < 6
        invariant
            120 * data@.len() + 4096 <= usize::MAX,
            raw@ == spec_parse(data@),
            wf_partition(raw@, data@.len() as int),
            segs_chars_ok(data@, raw@),
            wi <= 6,
            widths@ == seq![27u8, 43, 59, 77, 99, 139],
            heights@ == seq![7u8, 9, 11, 13, 15, 17],
            ec_level is M || ec_level is H,
            spec_rmqr_candidates(data@, ec_level, 0) == possible_versions@
                + spec_rmqr_candidates(data@, ec_level, wi as int),
            forall|t: int|
                0 <= t < possible_versions@.len()
                    ==> (#[trigger] possible_versions@[t]).spec_rmqr_index() is Some,
        decreases 6 - wi,
    {
        let width = widths[wi];
        proof {
            assert(width == spec_rmqr_width_of(wi as int));
        }
        let ghost pre_possible = possible_versions@;
        let mut hi: usize = 0;
        let mut found = false;
        while hi < 6 && !found
            invariant
                120 * data@.len() + 4096 <= usize::MAX,
                raw@ == spec_parse(data@),
                wf_partition(raw@, data@.len() as int),
                segs_chars_ok(data@, raw@),
                wi < 6,
                hi <= 6,
                width == spec_rmqr_width_of(wi as int),
                heights@ == seq![7u8, 9, 11, 13, 15, 17],
                ec_level is M || ec_level is H,
                !found ==> possible_versions@ == pre_possible && spec_first_fit(
                    data@,
                    ec_level,
                    wi as int,
                    0,
                ) == spec_first_fit(data@, ec_level, wi as int, hi as int),
                found ==> (spec_first_fit(data@, ec_level, wi as int, 0) is Some
                    && possible_versions@ == pre_possible.push(
                    spec_first_fit(data@, ec_level, wi as int, 0)->0,
                )),
                forall|t: int|
                    0 <= t < possible_versions@.len()
                        ==> (#[trigger] possible_versions@[t]).spec_rmqr_index() is Some,
            decreases 6 - hi,
        {
            let version = Version::Rmqr(heights[hi], width);
            proof {
                assert(version == Version::Rmqr(
                    spec_rmqr_height_of(hi as int),
                    spec_rmqr_width_of(wi as int),
                ));
            }
            if version.rmqr_index().is_ok() {
                let opt_segments = optimize(raw.as_slice(), version);
                proof {
                    lemma_optimize_props(data@, raw@, version);
                    lemma_partition_count(spec_optimize(raw@, version), data@.len() as int);
                }
                let total_len = total_encoded_len(opt_segments.as_slice(), version);
                let data_capacity = match version.fetch(ec_level, &DATA_LENGTHS) {
                    Ok(c) => c,
                    Err(e) => {
                        proof {
                            assert(false);
                        }
                        return Err(e);
                    },
                };
                if total_len <= data_capacity {
                    possible_versions.push(version);
                    found = true;
                }
            } else {
                proof {
                    assert(!spec_rmqr_fits(data@, ec_level, version));
                }
            }
            hi = hi + 1;
        }
        proof {
            if !found {
                assert(spec_first_fit(data@, ec_level, wi as int, 0) is None);
                assert(spec_rmqr_candidates(data@, ec_level, wi as int) == spec_rmqr_candidates(
                    data@,
                    ec_level,
                    wi + 1,
                ));
            } else {
                assert(spec_rmqr_candidates(data@, ec_level, wi as int) == seq![
                    spec_first_fit(data@, ec_level, wi as int, 0)->0,
                ] + spec_rmqr_candidates(data@, ec_level, wi + 1));
                assert(spec_rmqr_candidates(data@, ec_level, 0) =~= possible_versions@
                    + spec_rmqr_candidates(data@, ec_level, wi + 1));
            }
        }
        wi = wi + 1;
    }
    proof {
        assert(spec_rmqr_candidates(data@, ec_level, 6) =~= Seq::<Version>::empty());
        assert(possible_versions@ =~= spec_rmqr_candidates(data@, ec_level, 0));
    }
    let ghost cands = spec_rmqr_candidates(data@, ec_level, 0);
    if possible_versions.len() == 0 {
        proof {
            lemma_no_candidates(data@, ec_level);
        }
        return Err(QrError::DataTooLong);
    }
    proof {
        lemma_candidates_fit(data@, ec_level, 0);
    }
    let mut best: Version = possible_versions[0];
    let mut best_at: usize = 0;
    let mut t: usize = 1;
    while t < possible_versions.len()
        invariant
            possible_versions@ == cands,
            forall|j: int|
                0 <= j < cands.len() ==> spec_rmqr_fits(data@, ec_level, #[trigger] cands[j]),
            cands.len() > 0,
            1 <= t <= cands.len(),
            best_at < t,
            best == cands[best_at as int],
            forall|j: int|
                0 <= j < best_at ==> spec_strategy_key(strategy, #[trigger] cands[j])
                    > spec_strategy_key(strategy, best),
            forall|j: int|
                0 <= j < t ==> spec_strategy_key(strategy, #[trigger] cands[j])
                    >= spec_strategy_key(strategy, best),
        decreases cands.len() - t,
    {
        let candidate = possible_versions[t];
        proof {
            lemma_valid_rmqr_version(candidate);
            lemma_valid_rmqr_version(best);
            crate::types::lemma_valid_version_dims(candidate);
            crate::types::lemma_valid_version_dims(best);
        }
        let better = match strategy {
            RmqrStrategy::Width => false,
            RmqrStrategy::Height => candidate.height() < best.height(),
            RmqrStrategy::Area => candidate.area() < best.area(),
        };
        if better {
            best = candidate;
            best_at = t;
        }
        t = t + 1;
    }
    let version = best;
    let opt_segments = optimize(raw.as_slice(), version);
    proof {
        lemma_optimize_props(data@, raw@, version);
        lemma_partition_count(spec_optimize(raw@, version), data@.len() as int);
        lemma_data_lengths_bound();
    }
    let total_len = total_encoded_len(opt_segments.as_slice(), version);
    let data_capacity = match version.fetch(ec_level, &DATA_LENGTHS) {
        Ok(c) => c,
        Err(e) => {
            proof {
                assert(false);
            }
            return Err(e);
        },
    };
    proof {
        assert(spec_rmqr_fits(data@, ec_level, version));
        assert(total_len <= data_capacity);
        let ghost segs = spec_optimize(spec_parse(data@), version);
        if data_capacity >= 1 {
            lemma_rmqr_segs_fit(data@, segs, version, data_capacity as int);
        }
        assert forall|i: int|
            0 <= i < segs.len() implies (#[trigger] spec_seg_result(
            data@,
            segs[i],
            version,
        )) is Ok by {
            reveal(crate::coding::seg_chars_ok);
            lemma_seg_result_ok(data@, segs[i], version);
        }
        lemma_segs_result_ok(data@, segs, version);
        lemma_segs_stream_len(data@, segs, version);
    }
    let mut bits = Bits::new(version);
    match bits.push_segments(data, opt_segments.as_slice()) {
        Ok(()) => {},
        Err(e) => {
            proof {
                assert(false);
            }
            return Err(e);
        },
    }
    match bits.push_terminator(ec_level) {
        Ok(()) => {},
        Err(e) => {
            proof {
                assert(false);
            }
            return Err(e);
        },
    }
    Ok(bits)
}

/// Outside the Micro family a segment push can only fail because the data
/// is too long or a character falls outside its mode's alphabet.
proof fn lemma_segs_result_errors(data: Seq<u8>, segs: Seq<Segment>, v: Version)
    requires
        !(v is Micro),
    ensures
        spec_segs_result(data, segs, v) is Ok || spec_segs_result(data, segs, v) == Err::<(
        ), QrError>(QrError::DataTooLong) || spec_segs_result(data, segs, v) == Err::<(
        ), QrError>(QrError::InvalidCharacter),
    decreases segs.len(),
{
    if segs.len() > 0 {
        lemma_segs_result_errors(data, segs.skip(1), v);
    }
}

/// An rMQR size that the standard's table lists is a valid version.
proof fn lemma_valid_rmqr_version(v: Version)
    requires
        v.spec_rmqr_index() is Some,
    ensures
        v.is_valid(),
{
}

/// Each stored stream bit can be read back from its packed byte.
proof fn lemma_stream_byte_bit(s: Seq<bool>, i: int)
    requires
        0 <= i < s.len(),
    ensures
        byte_bit(bytes_of(s)[i / 8], (i % 8) as u8) == s[i],
{
    let k = i / 8;
    let j = (i % 8) as u8;
    let b0 = stream_bit(s, 8 * k);
    let b1 = stream_bit(s, 8 * k + 1);
    let b2 = stream_bit(s, 8 * k + 2);
    let b3 = stream_bit(s, 8 * k + 3);
    let b4 = stream_bit(s, 8 * k + 4);
    let b5 = stream_bit(s, 8 * k + 5);
    let b6 = stream_bit(s, 8 * k + 6);
    let b7 = stream_bit(s, 8 * k + 7);
    assert(bytes_of(s)[k] == stream_byte(s, 8 * k));
    lemma_weighted_bits(b0, b1, b2, b3, b4, b5, b6, b7, j);
    assert(8 * k + j == i);
    assert(stream_bit(s, i) == s[i]);
}

/// Reading bit `j` of the weighted sum of eight bits yields the `j`-th bit.
proof fn lemma_weighted_bits(
    b0: bool,
    b1: bool,
    b2: bool,
    b3: bool,
    b4: bool,
    b5: bool,
    b6: bool,
    b7: bool,
    j: u8,
)
    by (bit_vector)
    requires
        j < 8,
    ensures
        byte_bit(
            ((if b0 {
                128int
            } else {
                0int
            }) + (if b1 {
                64int
            } else {
                0int
            }) + (if b2 {
                32int
            } else {
                0int
            }) + (if b3 {
                16int
            } else {
                0int
            }) + (if b4 {
                8int
            } else {
                0int
            }) + (if b5 {
                4int
            } else {
                0int
            }) + (if b6 {
                2int
            } else {
                0int
            }) + (if b7 {
                1int
            } else {
                0int
            })) as u8,
            j,
        ) == (if j == 0 {
            b0
        } else if j == 1 {
            b1
        } else if j == 2 {
            b2
        } else if j == 3 {
            b3
        } else if j == 4 {
            b4
        } else if j == 5 {
            b5
        } else if j == 6 {
            b6
        } else {
            b7
        }),
{
}

/// Round-trip alignment: the packed byte vector of an assembled stream
/// carries the stream unchanged, bit for bit, in its first `len` bit
/// positions. Together with the single-block pass-through of the error
/// correction engine, the first `len` bits of the interleaved codewords are
/// exactly the bits the assembler emitted before padding.
pub proof fn lemma_round_trip_alignment(s: Seq<bool>)
    ensures
        forall|i: int|
            0 <= i < s.len() ==> #[trigger] byte_bit(bytes_of(s)[i / 8], (i % 8) as u8) == s[i],
{
    assert forall|i: int|
        0 <= i < s.len() implies #[trigger] byte_bit(bytes_of(s)[i / 8], (i % 8) as u8)
        == s[i] by {
        lemma_stream_byte_bit(s, i);
    }
}

/// The numeric payload is exactly `(10 n + 2) / 3` bits for `n` digits.
proof fn lemma_numeric_bits_len_exact(s: Seq<u8>)
    ensures
        numeric_bits(s).len() == (10 * s.len() + 2) / 3,
    decreases s.len(),
{
    if s.len() >= 3 {
        lemma_numeric_bits_len_exact(s.skip(3));
        assert((10 * s.len() + 2) / 3 == (10 * (s.len() - 3) + 2) / 3 + 10) by (nonlinear_arith);
    }
}

/// The alphanumeric payload is exactly `(11 n + 1) / 2` bits for `n`
/// characters.
proof fn lemma_alphanumeric_bits_len_exact(s: Seq<u8>)
    ensures
        alphanumeric_bits(s).len() == (11 * s.len() + 1) / 2,
    decreases s.len(),
{
    if s.len() >= 2 {
        lemma_alphanumeric_bits_len_exact(s.skip(2));
        assert((11 * s.len() + 1) / 2 == (11 * (s.len() - 2) + 1) / 2 + 11) by (nonlinear_arith);
    }
}

/// The Kanji payload is exactly thirteen bits per double-byte pair.
proof fn lemma_kanji_bits_len_exact(s: Seq<u8>)
    ensures
        kanji_bits(s).len() == 13 * (s.len() / 2),
    decreases s.len(),
{
    if s.len() >= 2 {
        lemma_kanji_bits_len_exact(s.skip(2));
    }
}

/// One segment's stream is exactly as long as its encoded length.
proof fn lemma_seg_stream_len(data: Seq<u8>, seg: Segment, version: Version)
    requires
        seg.begin <= seg.end <= data.len(),
        version is Micro ==> version.is_valid(),
    ensures
        spec_seg_stream(data, seg, version).len() == spec_seg_encoded_len(seg, version),
{
    reveal(crate::coding::spec_seg_encoded_len);
    let sub = data.subrange(seg.begin as int, seg.end as int);
    lemma_numeric_bits_len_exact(sub);
    lemma_alphanumeric_bits_len_exact(sub);
    lemma_byte_bits_len(sub);
    lemma_kanji_bits_len_exact(sub);
}

/// A segment list's stream is exactly as long as its total encoded length.
proof fn lemma_segs_stream_len(data: Seq<u8>, segs: Seq<Segment>, version: Version)
    requires
        forall|i: int|
            0 <= i < segs.len() ==> (#[trigger] segs[i]).begin <= segs[i].end <= data.len(),
        version is Micro ==> version.is_valid(),
    ensures
        spec_segs_stream(data, segs, version).len() == spec_total_encoded_len(segs, version),
    decreases segs.len(),
{
    if segs.len() > 0 {
        assert(segs.skip(1)[0] == segs[1] || segs.len() == 1);
        assert(forall|i: int|
            0 <= i < segs.skip(1).len() ==> (#[trigger] segs.skip(1)[i]) == segs[i + 1]);
        lemma_segs_stream_len(data, segs.skip(1), version);
        lemma_seg_stream_len(data, segs[0], version);
    }
}

/// A list of segments that each push successfully pushes successfully as a
/// whole.
proof fn lemma_segs_result_ok(data: Seq<u8>, segs: Seq<Segment>, version: Version)
    requires
        forall|i: int|
            0 <= i < segs.len() ==> (#[trigger] spec_seg_result(data, segs[i], version)) is Ok,
    ensures
        spec_segs_result(data, segs, version) is Ok,
    decreases segs.len(),
{
    if segs.len() > 0 {
        assert(forall|i: int|
            0 <= i < segs.skip(1).len() ==> (#[trigger] segs.skip(1)[i]) == segs[i + 1]);
        assert(spec_seg_result(data, segs[0], version) is Ok);
        lemma_segs_result_ok(data, segs.skip(1), version);
    }
}

/// A segment on its mode's alphabet whose count fits pushes successfully.
proof fn lemma_seg_result_ok(data: Seq<u8>, seg: Segment, version: Version)
    requires
        seg.begin <= seg.end <= data.len(),
        spec_mode_allowed(version, seg.mode),
        spec_len_fits(version, seg.mode, spec_seg_units(seg)),
        seg_chars_ok(data, seg),
    ensures
        spec_seg_result(data, seg, version) is Ok,
{
    reveal(crate::coding::seg_chars_ok);
    let sub = data.subrange(seg.begin as int, seg.end as int);
    match seg.mode {
        Mode::Alphanumeric => {
            assert forall|t: int| 0 <= t < sub.len() implies is_alphanumeric_char(
                #[trigger] sub[t],
            ) by {
                assert(sub[t] == data[seg.begin + t]);
            }
        },
        Mode::Kanji => {
            assert(sub.len() % 2 == 0);
            assert forall|t: int| 0 <= t < sub.len() / 2 implies is_kanji_pair(
                #[trigger] sub[2 * t],
                sub[2 * t + 1],
            ) by {
                assert(sub[2 * t] == data[seg.begin + 2 * t]);
                assert(sub[2 * t + 1] == data[seg.begin + 2 * t + 1]);
                assert(is_kanji_pair(data[seg.begin + 2 * t], data[seg.begin + 2 * t + 1]));
            }
        },
        _ => {},
    }
}

/// Within one Normal symbol, every segment of a partition whose total
/// encoded length fits the capacity also fits its character-count field.
proof fn lemma_normal_segs_fit(data: Seq<u8>, segs: Seq<Segment>, v: Version, cap: int)
    requires
        v is Normal,
        v.is_valid(),
        forall|i: int|
            0 <= i < segs.len() ==> (#[trigger] segs[i]).begin < segs[i].end <= data.len(),
        spec_total_encoded_len(segs, v) <= cap,
        cap <= spec_regime_cap(v),
    ensures
        forall|i: int|
            0 <= i < segs.len() ==> spec_len_fits(v, (#[trigger] segs[i]).mode, spec_seg_units(
                segs[i],
            )),
    decreases segs.len(),
{
    reveal(crate::coding::spec_seg_encoded_len);
    if segs.len() > 0 {
        let seg = segs[0];
        crate::coding::lemma_seg_len_bound(seg, v);
        lemma_total_nonneg(data, segs.skip(1), v);
        assert(spec_seg_encoded_len(seg, v) <= cap);
        let u = spec_seg_units(seg);
        let f = seg.mode.spec_length_bits_count(v);
        assert(seg.mode.spec_data_bits_count(u) <= cap);
        assert((1usize << 8usize) == 256 && (1usize << 9usize) == 512 && (1usize << 10usize)
            == 1024 && (1usize << 11usize) == 2048 && (1usize << 12usize) == 4096 && (1usize
            << 13usize) == 8192 && (1usize << 14usize) == 16384 && (1usize << 16usize) == 65536)
            by (bit_vector);
        match seg.mode {
            Mode::Numeric => {
                assert((u * 10 + 2) / 3 <= cap ==> u <= 3 * cap / 10 + 1) by (nonlinear_arith)
                    requires
                        u >= 0 && cap >= 0,
                ;
            },
            Mode::Alphanumeric => {
                assert((u * 11 + 1) / 2 <= cap ==> u <= (2 * cap + 1) / 11) by (nonlinear_arith)
                    requires
                        u >= 0 && cap >= 0,
                ;
            },
            Mode::Byte => {
                assert(u * 8 <= cap ==> u <= cap / 8) by (nonlinear_arith)
                    requires
                        u >= 0 && cap >= 0,
                ;
            },
            Mode::Kanji => {
                assert(u * 13 <= cap ==> u <= cap / 13) by (nonlinear_arith)
                    requires
                        u >= 0 && cap >= 0,
                ;
            },
        }
        assert(spec_len_fits(v, seg.mode, u));
        assert(forall|i: int|
            0 <= i < segs.skip(1).len() ==> (#[trigger] segs.skip(1)[i]) == segs[i + 1]);
        assert(spec_total_encoded_len(segs.skip(1), v) <= cap);
        lemma_normal_segs_fit(data, segs.skip(1), v, cap);
        assert forall|i: int|
            0 <= i < segs.len() implies spec_len_fits(
            v,
            (#[trigger] segs[i]).mode,
            spec_seg_units(segs[i]),
        ) by {
            if i > 0 {
                assert(segs.skip(1)[i - 1] == segs[i]);
                assert(spec_len_fits(
                    v,
                    segs.skip(1)[i - 1].mode,
                    spec_seg_units(segs.skip(1)[i - 1]),
                ));
            }
        }
    }
}

/// The total encoded length of a list of non-empty segments is not
/// negative, and each member's encoded length is at most the total.
proof fn lemma_total_nonneg(data: Seq<u8>, segs: Seq<Segment>, v: Version)
    requires
        v is Micro ==> v.is_valid(),
        forall|i: int|
            0 <= i < segs.len() ==> (#[trigger] segs[i]).begin < segs[i].end <= data.len(),
    ensures
        spec_total_encoded_len(segs, v) >= 0,
    decreases segs.len(),
{
    if segs.len() > 0 {
        crate::coding::lemma_seg_len_bound(segs[0], v);
        assert(forall|i: int|
            0 <= i < segs.skip(1).len() ==> (#[trigger] segs.skip(1)[i]) == segs[i + 1]);
        lemma_total_nonneg(data, segs.skip(1), v);
    }
}

/// The largest data capacity of any level within the length-field regime of
/// a Normal version.
pub open spec fn spec_regime_cap(v: Version) -> int {
    match v {
        Version::Normal(n) => if n <= 9 {
            1856
        } else if n <= 26 {
            10960
        } else {
            23648
        },
        _ => 0,
    }
}

/// Every Normal capacity lies within its regime's largest capacity.
proof fn lemma_regime_cap()
    ensures
        forall|w: int, j: int|
            0 <= w < 40 && 0 <= j < 4 ==> #[trigger] DATA_LENGTHS[w][j] <= (if w < 9 {
                1856int
            } else if w < 26 {
                10960int
            } else {
                23648int
            }),
{
}

/// Two Normal versions of the same length-field regime assign every
/// segment list the same optimized form and total encoded length.
proof fn lemma_regime_congruent_seg(seg: Segment, u: Version, v: Version)
    requires
        spec_same_regime(u, v),
    ensures
        spec_seg_encoded_len(seg, u) == spec_seg_encoded_len(seg, v),
{
    reveal(crate::coding::spec_seg_encoded_len);
}

/// Whether two Normal versions share the length-field regime.
pub open spec fn spec_same_regime(u: Version, v: Version) -> bool {
    match (u, v) {
        (Version::Normal(a), Version::Normal(b)) => (1 <= a <= 9 && 1 <= b <= 9) || (10 <= a <= 26
            && 10 <= b <= 26) || (27 <= a <= 40 && 27 <= b <= 40),
        _ => false,
    }
}

/// The greedy merge makes the same decisions at two versions of one
/// regime.
proof fn lemma_regime_congruent_optimize_from(
    segs: Seq<Segment>,
    i: int,
    cur: Segment,
    u: Version,
    v: Version,
)
    requires
        spec_same_regime(u, v),
    ensures
        spec_optimize_from(segs, i, cur, u) == spec_optimize_from(segs, i, cur, v),
    decreases segs.len() - i,
{
    if 0 <= i < segs.len() {
        let m = crate::coding::spec_merged(cur, segs[i]);
        lemma_regime_congruent_seg(m, u, v);
        lemma_regime_congruent_seg(cur, u, v);
        lemma_regime_congruent_seg(segs[i], u, v);
        if spec_seg_encoded_len(m, u) <= spec_seg_encoded_len(cur, u) + spec_seg_encoded_len(
            segs[i],
            u,
        ) {
            lemma_regime_congruent_optimize_from(segs, i + 1, m, u, v);
        } else {
            lemma_regime_congruent_optimize_from(segs, i + 1, segs[i], u, v);
        }
    }
}

/// Optimizing and measuring at two Normal versions of one length-field
/// regime gives the same segments and the same total.
pub proof fn lemma_regime_congruent(segs: Seq<Segment>, u: Version, v: Version)
    requires
        spec_same_regime(u, v),
    ensures
        spec_optimize(segs, u) == spec_optimize(segs, v),
        spec_total_encoded_len(spec_optimize(segs, u), u) == spec_total_encoded_len(
            spec_optimize(segs, v),
            v,
        ),
{
    if segs.len() > 0 {
        lemma_regime_congruent_optimize_from(segs, 1, segs[0], u, v);
    }
    lemma_regime_congruent_total(spec_optimize(segs, v), u, v);
}

/// The same segments measure the same at two versions of one regime.
proof fn lemma_regime_congruent_total(segs: Seq<Segment>, u: Version, v: Version)
    requires
        spec_same_regime(u, v),
    ensures
        spec_total_encoded_len(segs, u) == spec_total_encoded_len(segs, v),
    decreases segs.len(),
{
    if segs.len() > 0 {
        lemma_regime_congruent_seg(segs[0], u, v);
        lemma_regime_congruent_total(segs.skip(1), u, v);
    }
}

} // verus!
