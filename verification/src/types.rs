//! Core value types of the encoder: error kinds, module colors, error
//! correction levels, symbol versions and encoding modes.
use vstd::prelude::*;

verus! {

/// An error that can occur while building a QR symbol.
#[derive(Debug, PartialEq, Eq, Copy, Clone, Structural)]
pub enum QrError {
    /// The data is too long to encode into a QR code for the given version.
    DataTooLong,
    /// The provided version / error correction level combination is invalid.
    InvalidVersion,
    /// Some characters in the data cannot be supported by the provided QR code
    /// version.
    UnsupportedCharacterSet,
    /// The provided ECI designator is invalid. A valid designator should be
    /// between 0 and 999999.
    InvalidEciDesignator,
    /// A character not belonging to the character set is found.
    InvalidCharacter,
}

/// `QrResult` is a convenient alias for a QR code generation result.
pub type QrResult<T> = Result<T, QrError>;

/// The color of a module.
#[derive(Copy, Clone, PartialEq, Eq, Hash, Debug, Structural)]
pub enum Color {
    /// The module is light colored.
    Light,
    /// The module is dark colored.
    Dark,
}

impl Color {
    /// Selects a value according to color of the module. Equivalent to
    /// `if self != Color::Light { dark } else { light }`.
    pub fn select<T>(self, dark: T, light: T) -> (r: T)
        ensures
            r == (if self is Dark { dark } else { light }),
    {
        match self {
            Color::Light => light,
            Color::Dark => dark,
        }
    }
}

/// The error correction level. It allows the original information be recovered
/// even if parts of the code is damaged.
#[derive(Debug, Clone, Copy, PartialEq, Eq, Hash, Structural)]
pub enum EcLevel {
    /// Low error correction. Allows up to 7% of wrong blocks.
    L,
    /// Medium error correction (default). Allows up to 15% of wrong blocks.
    M,
    /// "Quartile" error correction. Allows up to 25% of wrong blocks.
    Q,
    /// High error correction. Allows up to 30% of wrong blocks.
    H,
}

impl EcLevel {
    /// The ordinal of the level: L, M, Q, H in this order.
    pub open spec fn spec_index(self) -> int {
        match self {
            EcLevel::L => 0,
            EcLevel::M => 1,
            EcLevel::Q => 2,
            EcLevel::H => 3,
        }
    }

    /// The position of this level in the `[L, M, Q, H]` order of the
    /// standard lookup tables.
    pub fn index(self) -> (r: usize)
        ensures
            r == self.spec_index(),
    {
        match self {
            EcLevel::L => 0,
            EcLevel::M => 1,
            EcLevel::Q => 2,
            EcLevel::H => 3,
        }
    }
}

/// In QR code terminology, `Version` means the size of the generated image.
/// Larger version means the size of code is larger, and therefore can carry
/// more information.
#[derive(Debug, Clone, Copy, PartialEq, Eq, Hash, Structural)]
pub enum Version {
    /// A normal QR code version. The parameter should be between 1 and 40.
    Normal(u8),
    /// A Micro QR code version. The parameter should be between 1 and 4.
    Micro(u8),
    /// A Rmqr code version. The first parameter should be 7, 9, 11, 13, 15, or 17.
    /// The second parameter should be 27, 43, 59, 77, 99, or 139. 27 can only be
    /// used with 11, or 13.
    Rmqr(u8, u8),
}

impl Version {
    /// The number of module columns of a symbol of this version.
    pub open spec fn spec_width(self) -> int {
        match self {
            Version::Normal(v) => v * 4 + 17,
            Version::Micro(v) => v * 2 + 9,
            Version::Rmqr(_, w) => w as int,
        }
    }

    /// The number of module rows of a symbol of this version.
    pub open spec fn spec_height(self) -> int {
        match self {
            Version::Rmqr(h, _) => h as int,
            _ => self.spec_width(),
        }
    }

    /// The position of this version in the 76-row standard tables
    /// (40 Normal, then 4 Micro, then 32 rMQR rows), if it has one.
    pub open spec fn spec_table_index(self) -> Option<int> {
        match self {
            Version::Normal(v) => if 1 <= v <= 40 {
                Some(v - 1)
            } else {
                None
            },
            Version::Micro(v) => if 1 <= v <= 4 {
                Some(v + 39)
            } else {
                None
            },
            Version::Rmqr(_, _) => match self.spec_rmqr_index() {
                Some(i) => Some(i + 44),
                None => None,
            },
        }
    }

    /// Whether the version designates a symbol that the standard defines.
    pub open spec fn is_valid(self) -> bool {
        self.spec_table_index() is Some
    }

    /// Get the number of "modules" on each size of the QR code, i.e. the width
    pub fn width(self) -> (r: i16)
        ensures
            r == self.spec_width(),
    {
        match self {
            Version::Normal(v) => v as i16 * 4 + 17,
            Version::Micro(v) => v as i16 * 2 + 9,
            Version::Rmqr(_, a) => a as i16,
        }
    }

    /// Get the height
    pub fn height(self) -> (r: i16)
        ensures
            r == self.spec_height(),
    {
        match self {
            Version::Rmqr(a, _) => a as i16,
            _ => self.width(),
        }
    }

    /// Get the area
    pub fn area(self) -> (r: i16)
        requires
            self.is_valid(),
        ensures
            r == self.spec_width() * self.spec_height(),
    {
        proof {
            lemma_valid_version_dims(self);
        }
        self.width() * self.height()
    }

    /// Obtains an entry of a hard-coded 76-row standard table.
    ///
    /// The outer array represents the content for each version. The first 40
    /// entries correspond to QR code versions 1 to 40, the next 4 to Micro QR
    /// code versions 1 to 4, and the last 32 to the rMQR code sizes. The inner
    /// array represents the content in each error correction level, in the
    /// order [L, M, Q, H].
    ///
    /// # Errors
    ///
    /// If the entry is zero (the tables mark combinations that the standard
    /// does not define with zero), this method returns
    /// `Err(QrError::InvalidVersion)`.
    pub fn fetch(self, ec_level: EcLevel, table: &[[usize; 4]; 76]) -> (r: QrResult<usize>)
        ensures
            r == self.spec_fetch(ec_level, table@),
    {
        match self {
            Version::Normal(v) => {
                if 1 <= v && v <= 40 {
                    return Ok(table[(v - 1) as usize][ec_level.index()]);
                }
            },
            Version::Micro(v) => {
                if 1 <= v && v <= 4 {
                    let obj = table[(v + 39) as usize][ec_level.index()];
                    if obj != 0 {
                        return Ok(obj);
                    }
                }
            },
            Version::Rmqr(_, _) => {
                match self.rmqr_index() {
                    Ok(index) => {
                        let obj = table[index + 44][ec_level.index()];
                        if obj != 0 {
                            return Ok(obj);
                        }
                    },
                    Err(_) => {},
                }
            },
        }
        Err(QrError::InvalidVersion)
    }

    /// What `fetch` returns: the table entry of a valid version, unless the
    /// entry is a zero outside the Normal family.
    pub open spec fn spec_fetch(self, ec_level: EcLevel, table: Seq<[usize; 4]>) -> QrResult<
        usize,
    > {
        match self.spec_table_index() {
            Some(i) => {
                let entry = table[i][ec_level.spec_index()];
                if self is Normal || entry != 0 {
                    Ok(entry)
                } else {
                    Err(QrError::InvalidVersion)
                }
            },
            None => Err(QrError::InvalidVersion),
        }
    }

    /// The number of bits of the mode indicator in this version's family:
    /// 4 for Normal, `v - 1` for Micro(v), and 3 for rMQR.
    pub open spec fn spec_mode_bits_count(self) -> int {
        match self {
            Version::Normal(_) => 4,
            Version::Micro(a) => a - 1,
            Version::Rmqr(_, _) => 3,
        }
    }

    /// The number of bits needed to encode the mode indicator.
    pub fn mode_bits_count(self) -> (r: usize)
        requires
            self is Micro ==> self.is_valid(),
        ensures
            r == self.spec_mode_bits_count(),
    {
        match self {
            Version::Normal(_) => 4,
            Version::Micro(a) => (a - 1) as usize,
            Version::Rmqr(_, _) => 3,
        }
    }

    /// The position of this version in the 76-row standard tables, if it
    /// has one.
    pub fn table_index(self) -> (r: Option<usize>)
        ensures
            r == (match self.spec_table_index() {
                Some(i) => Some(i as usize),
                None => None::<usize>,
            }),
    {
        match self {
            Version::Normal(v) => {
                if 1 <= v && v <= 40 {
                    Some((v - 1) as usize)
                } else {
                    None
                }
            },
            Version::Micro(v) => {
                if 1 <= v && v <= 4 {
                    Some((v + 39) as usize)
                } else {
                    None
                }
            },
            Version::Rmqr(_, _) => {
                match self.rmqr_index() {
                    Ok(i) => Some(i + 44),
                    Err(_) => None,
                }
            },
        }
    }

    /// Checks whether is version refers to a Micro QR code.
    pub fn is_micro(self) -> (r: bool)
        ensures
            r == (self is Micro),
    {
        matches!(self, Version::Micro(_))
    }

    /// Checks whether is version refers to a rMQR code.
    pub fn is_rmqr(self) -> (r: bool)
        ensures
            r == (self.spec_rmqr_index() is Some),
    {
        self.rmqr_index().is_ok()
    }

    /// The position of an rMQR size in the standard's 32-row table, ordered
    /// by height first and width second.
    pub open spec fn spec_rmqr_index(self) -> Option<int> {
        match self {
            Version::Rmqr(7, 43) => Some(0int),
            Version::Rmqr(7, 59) => Some(1),
            Version::Rmqr(7, 77) => Some(2),
            Version::Rmqr(7, 99) => Some(3),
            Version::Rmqr(7, 139) => Some(4),
            Version::Rmqr(9, 43) => Some(5),
            Version::Rmqr(9, 59) => Some(6),
            Version::Rmqr(9, 77) => Some(7),
            Version::Rmqr(9, 99) => Some(8),
            Version::Rmqr(9, 139) => Some(9),
            Version::Rmqr(11, 27) => Some(10),
            Version::Rmqr(11, 43) => Some(11),
            Version::Rmqr(11, 59) => Some(12),
            Version::Rmqr(11, 77) => Some(13),
            Version::Rmqr(11, 99) => Some(14),
            Version::Rmqr(11, 139) => Some(15),
            Version::Rmqr(13, 27) => Some(16),
            Version::Rmqr(13, 43) => Some(17),
            Version::Rmqr(13, 59) => Some(18),
            Version::Rmqr(13, 77) => Some(19),
            Version::Rmqr(13, 99) => Some(20),
            Version::Rmqr(13, 139) => Some(21),
            Version::Rmqr(15, 43) => Some(22),
            Version::Rmqr(15, 59) => Some(23),
            Version::Rmqr(15, 77) => Some(24),
            Version::Rmqr(15, 99) => Some(25),
            Version::Rmqr(15, 139) => Some(26),
            Version::Rmqr(17, 43) => Some(27),
            Version::Rmqr(17, 59) => Some(28),
            Version::Rmqr(17, 77) => Some(29),
            Version::Rmqr(17, 99) => Some(30),
            Version::Rmqr(17, 139) => Some(31),
            _ => None,
        }
    }

    /// Get the index of the version of the rMQR code.
    pub fn rmqr_index(self) -> (r: QrResult<usize>)
        ensures
            match self.spec_rmqr_index() {
                Some(i) => r == Ok::<usize, QrError>(i as usize),
                None => r == Err::<usize, QrError>(QrError::InvalidVersion),
            },
    {
        match self {
            Version::Rmqr(7, 43) => Ok(0),
            Version::Rmqr(7, 59) => Ok(1),
            Version::Rmqr(7, 77) => Ok(2),
            Version::Rmqr(7, 99) => Ok(3),
            Version::Rmqr(7, 139) => Ok(4),
            Version::Rmqr(9, 43) => Ok(5),
            Version::Rmqr(9, 59) => Ok(6),
            Version::Rmqr(9, 77) => Ok(7),
            Version::Rmqr(9, 99) => Ok(8),
            Version::Rmqr(9, 139) => Ok(9),
            Version::Rmqr(11, 27) => Ok(10),
            Version::Rmqr(11, 43) => Ok(11),
            Version::Rmqr(11, 59) => Ok(12),
            Version::Rmqr(11, 77) => Ok(13),
            Version::Rmqr(11, 99) => Ok(14),
            Version::Rmqr(11, 139) => Ok(15),
            Version::Rmqr(13, 27) => Ok(16),
            Version::Rmqr(13, 43) => Ok(17),
            Version::Rmqr(13, 59) => Ok(18),
            Version::Rmqr(13, 77) => Ok(19),
            Version::Rmqr(13, 99) => Ok(20),
            Version::Rmqr(13, 139) => Ok(21),
            Version::Rmqr(15, 43) => Ok(22),
            Version::Rmqr(15, 59) => Ok(23),
            Version::Rmqr(15, 77) => Ok(24),
            Version::Rmqr(15, 99) => Ok(25),
            Version::Rmqr(15, 139) => Ok(26),
            Version::Rmqr(17, 43) => Ok(27),
            Version::Rmqr(17, 59) => Ok(28),
            Version::Rmqr(17, 77) => Ok(29),
            Version::Rmqr(17, 99) => Ok(30),
            Version::Rmqr(17, 139) => Ok(31),
            _ => Err(QrError::InvalidVersion),
        }
    }

    /// The position of an rMQR width in the ascending order of widths.
    pub open spec fn spec_rmqr_width_index(self) -> Option<int> {
        match self {
            Version::Rmqr(_, 27) => Some(0int),
            Version::Rmqr(_, 43) => Some(1),
            Version::Rmqr(_, 59) => Some(2),
            Version::Rmqr(_, 77) => Some(3),
            Version::Rmqr(_, 99) => Some(4),
            Version::Rmqr(_, 139) => Some(5),
            _ => None,
        }
    }

    /// Get the index in ascending order of width.
    pub fn rmqr_width_index(self) -> (r: QrResult<usize>)
        ensures
            match self.spec_rmqr_width_index() {
                Some(i) => r == Ok::<usize, QrError>(i as usize),
                None => r == Err::<usize, QrError>(QrError::InvalidVersion),
            },
    {
        match self {
            Version::Rmqr(_, 27) => Ok(0),
            Version::Rmqr(_, 43) => Ok(1),
            Version::Rmqr(_, 59) => Ok(2),
            Version::Rmqr(_, 77) => Ok(3),
            Version::Rmqr(_, 99) => Ok(4),
            Version::Rmqr(_, 139) => Ok(5),
            _ => Err(QrError::InvalidVersion),
        }
    }

    /// 27, 43, 59, 77, 99, 139
    pub fn rmqr_all_width() -> (r: [u8; 6])
        ensures
            r@ == seq![27u8, 43, 59, 77, 99, 139],
    {
        let r = [27u8, 43, 59, 77, 99, 139];
        proof {
            assert(r@ =~= seq![27u8, 43, 59, 77, 99, 139]);
        }
        r
    }

    /// 7, 9, 11, 13, 15, 17
    pub fn rmqr_all_height() -> (r: [u8; 6])
        ensures
            r@ == seq![7u8, 9, 11, 13, 15, 17],
    {
        let r = [7u8, 9, 11, 13, 15, 17];
        proof {
            assert(r@ =~= seq![7u8, 9, 11, 13, 15, 17]);
        }
        r
    }

    /// All 32 standardized rMQR sizes, in table order.
    pub fn rmqr_all() -> (r: [Version; 32])
        ensures
            r@.len() == 32,
            forall|i: int|
                0 <= i < 32 ==> #[trigger] r@[i].spec_rmqr_index() == Some(i),
    {
        let r = [
            Version::Rmqr(7, 43),
            Version::Rmqr(7, 59),
            Version::Rmqr(7, 77),
            Version::Rmqr(7, 99),
            Version::Rmqr(7, 139),
            Version::Rmqr(9, 43),
            Version::Rmqr(9, 59),
            Version::Rmqr(9, 77),
            Version::Rmqr(9, 99),
            Version::Rmqr(9, 139),
            Version::Rmqr(11, 27),
            Version::Rmqr(11, 43),
            Version::Rmqr(11, 59),
            Version::Rmqr(11, 77),
            Version::Rmqr(11, 99),
            Version::Rmqr(11, 139),
            Version::Rmqr(13, 27),
            Version::Rmqr(13, 43),
            Version::Rmqr(13, 59),
            Version::Rmqr(13, 77),
            Version::Rmqr(13, 99),
            Version::Rmqr(13, 139),
            Version::Rmqr(15, 43),
            Version::Rmqr(15, 59),
            Version::Rmqr(15, 77),
            Version::Rmqr(15, 99),
            Version::Rmqr(15, 139),
            Version::Rmqr(17, 43),
            Version::Rmqr(17, 59),
            Version::Rmqr(17, 77),
            Version::Rmqr(17, 99),
            Version::Rmqr(17, 139),
        ];
        r
    }
}

/// The bounds that a valid version's dimensions obey.
pub proof fn lemma_valid_version_dims(v: Version)
    requires
        v.is_valid(),
    ensures
        9 <= v.spec_width() <= 177,
        7 <= v.spec_height() <= 177,
        v.spec_width() * v.spec_height() <= 31329,
{
    match v {
        Version::Normal(n) => {
            assert(v.spec_width() <= 177);
            assert(v.spec_width() * v.spec_height() <= 177 * 177) by (nonlinear_arith)
                requires
                    9 <= v.spec_width() <= 177 && v.spec_height() == v.spec_width(),
            ;
        },
        Version::Micro(n) => {
            assert(v.spec_width() * v.spec_height() <= 17 * 17) by (nonlinear_arith)
                requires
                    9 <= v.spec_width() <= 17 && v.spec_height() == v.spec_width(),
            ;
        },
        Version::Rmqr(h, w) => {
            assert(w <= 139 && h <= 17) by {
                assert(v.spec_rmqr_index() is Some);
            }
            assert(v.spec_width() * v.spec_height() <= 139 * 17) by (nonlinear_arith)
                requires
                    9 <= v.spec_width() <= 139 && 7 <= v.spec_height() <= 17,
            ;
        },
    }
}

/// The mode indicator, which can be one of 4 modes.
#[derive(Debug, Clone, Copy, PartialEq, Eq, Hash, Structural)]
pub enum Mode {
    /// The data contains only characters 0 to 9.
    Numeric,
    /// The data contains only uppercase letters, digits and a few punctuations.
    Alphanumeric,
    /// The data contains arbitrary bytes.
    Byte,
    /// The data contains Shift-JIS double-byte characters.
    Kanji,
}

/// The number of bits needed to encode the length of the data, for each rMQR
/// size, in the order \[Numeric, Alphanumeric, Byte, Kanji\].
pub const RMQR_LENGTH_BITS_COUNT: [[usize; 4]; 32] = [
    [4, 3, 3, 2],
    [5, 5, 4, 3],
    [6, 5, 5, 4],
    [7, 6, 5, 5],
    [7, 6, 6, 5],
    [5, 5, 4, 3],
    [6, 5, 5, 4],
    [7, 6, 5, 5],
    [7, 6, 6, 5],
    [8, 7, 6, 6],
    [4, 4, 3, 2],
    [6, 5, 5, 4],
    [7, 6, 5, 5],
    [7, 6, 6, 5],
    [8, 7, 6, 6],
    [8, 7, 7, 6],
    [5, 5, 4, 3],
    [6, 6, 5, 5],
    [7, 6, 6, 5],
    [7, 7, 6, 6],
    [8, 7, 7, 6],
    [8, 8, 7, 7],
    [7, 6, 6, 5],
    [7, 7, 6, 5],
    [8, 7, 7, 6],
    [8, 7, 7, 6],
    [9, 8, 7, 7],
    [7, 6, 6, 5],
    [8, 7, 6, 6],
    [8, 7, 7, 6],
    [8, 8, 7, 6],
    [9, 8, 8, 7],
];

impl Mode {
    /// The column of this mode in the rMQR length-bits table.
    pub open spec fn spec_rmqr_column(self) -> int {
        match self {
            Mode::Numeric => 0,
            Mode::Alphanumeric => 1,
            Mode::Byte => 2,
            Mode::Kanji => 3,
        }
    }

    /// The width of the character-count field for this mode in the given
    /// version, following the standard's tables.
    pub open spec fn spec_length_bits_count(self, version: Version) -> int {
        match version {
            Version::Micro(a) => match self {
                Mode::Numeric => 2 + a,
                Mode::Alphanumeric => 1 + a,
                Mode::Byte => 1 + a,
                Mode::Kanji => a as int,
            },
            Version::Normal(v) => if 1 <= v <= 9 {
                match self {
                    Mode::Numeric => 10,
                    Mode::Alphanumeric => 9,
                    Mode::Byte => 8,
                    Mode::Kanji => 8,
                }
            } else if 10 <= v <= 26 {
                match self {
                    Mode::Numeric => 12,
                    Mode::Alphanumeric => 11,
                    Mode::Byte => 16,
                    Mode::Kanji => 10,
                }
            } else {
                match self {
                    Mode::Numeric => 14,
                    Mode::Alphanumeric => 13,
                    Mode::Byte => 16,
                    Mode::Kanji => 12,
                }
            },
            Version::Rmqr(_, _) => {
                let index = match version.spec_rmqr_index() {
                    Some(i) => i,
                    None => 31,
                };
                RMQR_LENGTH_BITS_COUNT[index][self.spec_rmqr_column()] as int
            },
        }
    }

    /// Computes the number of bits needed to encode the data length.
    pub fn length_bits_count(self, version: Version) -> (r: usize)
        ensures
            r == self.spec_length_bits_count(version),
    {
        match version {
            Version::Micro(a) => {
                let a = a as usize;
                match self {
                    Mode::Numeric => 2 + a,
                    Mode::Alphanumeric | Mode::Byte => 1 + a,
                    Mode::Kanji => a,
                }
            },
            Version::Normal(v) => {
                if 1 <= v && v <= 9 {
                    match self {
                        Mode::Numeric => 10,
                        Mode::Alphanumeric => 9,
                        Mode::Byte | Mode::Kanji => 8,
                    }
                } else if 10 <= v && v <= 26 {
                    match self {
                        Mode::Numeric => 12,
                        Mode::Alphanumeric => 11,
                        Mode::Byte => 16,
                        Mode::Kanji => 10,
                    }
                } else {
                    match self {
                        Mode::Numeric => 14,
                        Mode::Alphanumeric => 13,
                        Mode::Byte => 16,
                        Mode::Kanji => 12,
                    }
                }
            },
            Version::Rmqr(_, _) => {
                let index = match version.rmqr_index() {
                    Ok(i) => i,
                    Err(_) => 31,
                };
                let column = match self {
                    Mode::Numeric => 0,
                    Mode::Alphanumeric => 1,
                    Mode::Byte => 2,
                    Mode::Kanji => 3,
                };
                RMQR_LENGTH_BITS_COUNT[index][column]
            },
        }
    }

    /// The number of payload bits that `raw_data_len` raw characters occupy in
    /// this mode. In Kanji mode `raw_data_len` counts double-byte characters.
    pub open spec fn spec_data_bits_count(self, raw_data_len: int) -> int {
        match self {
            Mode::Numeric => (raw_data_len * 10 + 2) / 3,
            Mode::Alphanumeric => (raw_data_len * 11 + 1) / 2,
            Mode::Byte => raw_data_len * 8,
            Mode::Kanji => raw_data_len * 13,
        }
    }

    /// Computes the number of bits needed to some data of a given raw length.
    ///
    /// Note that in Kanji mode, the `raw_data_len` is the number of Kanjis,
    /// i.e. half the total size of bytes.
    pub fn data_bits_count(self, raw_data_len: usize) -> (r: usize)
        requires
            raw_data_len * 13 + 2 <= usize::MAX,
        ensures
            r == self.spec_data_bits_count(raw_data_len as int),
    {
        proof {
            assert(raw_data_len * 10 <= raw_data_len * 13) by (nonlinear_arith);
            assert(raw_data_len * 11 <= raw_data_len * 13) by (nonlinear_arith);
            assert(raw_data_len * 8 <= raw_data_len * 13) by (nonlinear_arith);
        }
        match self {
            Mode::Numeric => (raw_data_len * 10 + 2) / 3,
            Mode::Alphanumeric => (raw_data_len * 11 + 1) / 2,
            Mode::Byte => raw_data_len * 8,
            Mode::Kanji => raw_data_len * 13,
        }
    }

    /// The partial order of character-set containment: `a` is below `b` when
    /// every string encodable in mode `a` is encodable in mode `b`.
    pub open spec fn spec_le(self, other: Mode) -> bool {
        ||| self == other
        ||| (self is Numeric && (other is Alphanumeric || other is Byte))
        ||| (self is Alphanumeric && other is Byte)
        ||| (self is Kanji && other is Byte)
    }

    /// The least upper bound of two modes under character-set containment;
    /// incomparable pairs join to `Byte`.
    pub open spec fn spec_join(self, other: Mode) -> Mode {
        if self.spec_le(other) {
            other
        } else if other.spec_le(self) {
            self
        } else {
            Mode::Byte
        }
    }

    /// Find the lowest common mode which both modes are compatible with.
    pub fn max(self, other: Self) -> (r: Self)
        ensures
            r == self.spec_join(other),
    {
        match (self, other) {
            (Mode::Numeric, Mode::Numeric) => Mode::Numeric,
            (Mode::Numeric, Mode::Alphanumeric) => Mode::Alphanumeric,
            (Mode::Alphanumeric, Mode::Numeric) => Mode::Alphanumeric,
            (Mode::Alphanumeric, Mode::Alphanumeric) => Mode::Alphanumeric,
            (Mode::Kanji, Mode::Kanji) => Mode::Kanji,
            _ => Mode::Byte,
        }
    }
}

/// The mode join is idempotent and commutative, is an upper bound of both
/// arguments, and joins the incomparable pair Alphanumeric / Kanji to Byte.
pub proof fn lemma_mode_join(a: Mode, b: Mode)
    ensures
        a.spec_join(a) == a,
        a.spec_join(b) == b.spec_join(a),
        Mode::Alphanumeric.spec_join(Mode::Kanji) == Mode::Byte,
        a.spec_le(a.spec_join(b)),
        b.spec_le(a.spec_join(b)),
{
}

} // verus!
