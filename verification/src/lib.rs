//! QR code encoder.
//!
//! This crate encodes binary data into the module matrices of three related
//! symbologies: the classic QR code, the Micro QR code, and the rectangular
//! rMQR code. The encoding pipeline — segmentation, bit assembly,
//! Reed–Solomon error correction, layout and masking — lives here; rendering
//! the finished matrix is a downstream concern.
use vstd::prelude::*;

pub mod bits;
pub mod canvas;
pub mod coding;
pub mod ec;
pub mod types;

pub use crate::bits::RmqrStrategy;
pub use crate::types::{Color, EcLevel, QrResult, Version};

use crate::types::QrError;

verus! {

/// The dot shape a renderer draws the dark modules with.
#[derive(Debug, Copy, Clone)]
pub enum QrShape {
    /// Square dots.
    Square,
    /// Rounded dots.
    Round,
}

/// A finished QR symbol: its version, level, and flat row-major module
/// colors.
#[derive(Clone)]
pub struct QrCode {
    content: Vec<Color>,
    version: Version,
    ec_level: EcLevel,
    width: usize,
    height: usize,
}

/// Relies on `String::push` of std: appends exactly one character.
#[verifier::external_body]
fn string_push(s: &mut String, c: char)
    ensures
        final(s)@ == old(s)@ + seq![c],
{
    s.push(c);
}

impl QrCode {
    /// Well-formedness: the stored dimensions are the version's, and the
    /// content holds one color per module.
    pub closed spec fn wf(&self) -> bool {
        &&& self.version.is_valid()
        &&& self.width == self.version.spec_width()
        &&& self.height == self.version.spec_height()
        &&& self.content@.len() == self.width * self.height
    }

    /// The version of the symbol.
    pub closed spec fn spec_version(&self) -> Version {
        self.version
    }

    /// The error correction level of the symbol.
    pub closed spec fn spec_ec_level(&self) -> EcLevel {
        self.ec_level
    }

    /// The flat row-major module colors.
    pub closed spec fn spec_content(&self) -> Seq<Color> {
        self.content@
    }

    /// Constructs a new QR code which automatically encodes the given data.
    ///
    /// This method uses the "medium" error correction level and
    /// automatically chooses the smallest QR code.
    ///
    /// # Errors
    ///
    /// Returns error if the QR code cannot be constructed, e.g. when the
    /// data is too long.
    pub fn new(data: &[u8]) -> (r: QrResult<QrCode>)
        requires
            120 * data@.len() + 4096 <= usize::MAX,
        ensures
            match r {
                Ok(code) => code.wf() && code.spec_ec_level() == EcLevel::M
                    && bits::spec_auto_fits(data@, EcLevel::M) && bits::spec_auto_version_props(
                    data@,
                    EcLevel::M,
                    code.spec_version(),
                ),
                Err(e) => !bits::spec_auto_fits(data@, EcLevel::M) && e == QrError::DataTooLong,
            },
    {
        Self::with_error_correction_level(data, EcLevel::M)
    }

    /// Constructs a new QR code which automatically encodes the given data
    /// at a specific error correction level.
    ///
    /// # Errors
    ///
    /// Returns error if the QR code cannot be constructed, e.g. when the
    /// data is too long.
    pub fn with_error_correction_level(data: &[u8], ec_level: EcLevel) -> (r: QrResult<QrCode>)
        requires
            120 * data@.len() + 4096 <= usize::MAX,
        ensures
            match r {
                Ok(code) => code.wf() && code.spec_ec_level() == ec_level && bits::spec_auto_fits(
                    data@,
                    ec_level,
                ) && bits::spec_auto_version_props(data@, ec_level, code.spec_version()),
                Err(e) => !bits::spec_auto_fits(data@, ec_level) && e == QrError::DataTooLong,
            },
    {
        let bits = match bits::encode_auto(data, ec_level) {
            Ok(b) => b,
            Err(e) => {
                return Err(e);
            },
        };
        match Self::with_bits(bits, ec_level) {
            Ok(code) => Ok(code),
            Err(e) => {
                proof {
                    assert(false);
                }
                Err(e)
            },
        }
    }

    /// Constructs a new QR code for the given version and error correction
    /// level.
    ///
    /// This method can also be used to generate Micro QR and rMQR codes.
    ///
    /// # Errors
    ///
    /// Returns error if the QR code cannot be constructed, e.g. when the
    /// data is too long, or when the version and error correction level are
    /// incompatible.
    pub fn with_version(data: &[u8], version: Version, ec_level: EcLevel) -> (r: QrResult<QrCode>)
        requires
            120 * data@.len() + 4096 <= usize::MAX,
            version is Micro ==> version.is_valid(),
        ensures
            ({
                let segs = coding::spec_optimize(coding::spec_parse(data@), version);
                match bits::spec_segs_result(data@, segs, version) {
                    Err(e0) => r == Err::<QrCode, QrError>(e0),
                    Ok(()) => match bits::spec_max_len(version, ec_level) {
                        Err(e1) => r == Err::<QrCode, QrError>(e1),
                        Ok(cap) => if bits::spec_segs_stream(data@, segs, version).len() > cap {
                            r == Err::<QrCode, QrError>(QrError::DataTooLong)
                        } else {
                            match r {
                                Ok(code) => code.wf() && code.spec_version() == version
                                    && code.spec_ec_level() == ec_level,
                                Err(_) => false,
                            }
                        },
                    },
                }
            }),
    {
        let mut bits = bits::Bits::new(version);
        match bits.push_optimal_data(data) {
            Ok(()) => {},
            Err(e) => {
                return Err(e);
            },
        }
        match bits.push_terminator(ec_level) {
            Ok(()) => {},
            Err(e) => {
                return Err(e);
            },
        }
        match Self::with_bits(bits, ec_level) {
            Ok(code) => Ok(code),
            Err(e) => {
                proof {
                    assert(false);
                }
                Err(e)
            },
        }
    }

    /// Constructs a new QR code with encoded bits.
    ///
    /// Use this method only if there is a special need to manipulate the
    /// raw bits before encoding.
    ///
    /// # Errors
    ///
    /// Returns error if the QR code cannot be constructed, e.g. when the
    /// bits are not terminated to the exact capacity, or when the version
    /// and error correction level are incompatible.
    pub fn with_bits(bits: bits::Bits, ec_level: EcLevel) -> (r: QrResult<QrCode>)
        requires
            bits.wf(),
        ensures
            match bits::spec_max_len(bits.spec_version(), ec_level) {
                Err(err) => r == Err::<QrCode, QrError>(err),
                Ok(cap) => if bits::bytes_of(bits@).len() != (cap + 7) / 8 {
                    r == Err::<QrCode, QrError>(QrError::DataTooLong)
                } else {
                    match r {
                        Ok(code) => code.wf() && code.spec_version() == bits.spec_version()
                            && code.spec_ec_level() == ec_level && code.spec_content().len()
                            == code.spec_version().spec_width()
                            * code.spec_version().spec_height(),
                        Err(_) => false,
                    }
                },
            },
    {
        let version = bits.version();
        let data = bits.into_bytes();
        let (encoded_data, ec_data) = match ec::construct_codewords(
            data.as_slice(),
            version,
            ec_level,
        ) {
            Ok(p) => p,
            Err(e) => {
                return Err(e);
            },
        };
        proof {
            assert(version.is_valid());
        }
        let mut canvas = canvas::Canvas::new(version, ec_level);
        canvas.draw_all_functional_patterns();
        canvas.draw_data(encoded_data.as_slice(), ec_data.as_slice());
        let canvas = canvas.apply_best_mask();
        proof {
            crate::types::lemma_valid_version_dims(version);
        }
        let width = version.width() as usize;
        let height = version.height() as usize;
        let content = canvas.into_colors();
        Ok(QrCode { content, version, ec_level, width, height })
    }

    /// Constructs a new rMQR code which automatically encodes the given
    /// data, with the "medium" error correction level and the smallest
    /// area.
    ///
    /// # Errors
    ///
    /// Returns error if the QR code cannot be constructed, e.g. when the
    /// data is too long.
    pub fn rmqr(data: &[u8]) -> (r: QrResult<QrCode>)
        requires
            120 * data@.len() + 4096 <= usize::MAX,
        ensures
            match r {
                Ok(code) => code.wf() && code.spec_ec_level() == EcLevel::M
                    && bits::spec_rmqr_fits(data@, EcLevel::M, code.spec_version())
                    && bits::spec_rmqr_choice_ok(
                    data@,
                    EcLevel::M,
                    RmqrStrategy::Area,
                    code.spec_version(),
                ),
                Err(e) => e == QrError::DataTooLong && (forall|v: Version|
                    (#[trigger] v.spec_rmqr_index()) is Some ==> !bits::spec_rmqr_fits(
                        data@,
                        EcLevel::M,
                        v,
                    )),
            },
    {
        Self::rmqr_with_options(data, EcLevel::M, bits::RmqrStrategy::Area)
    }

    /// Constructs a new rMQR code which automatically encodes the given
    /// data at a specific error correction level and rMQR strategy.
    ///
    /// # Errors
    ///
    /// Returns error if the QR code cannot be constructed, e.g. when the
    /// data is too long.
    pub fn rmqr_with_options(data: &[u8], ec_level: EcLevel, strategy: bits::RmqrStrategy) -> (r:
        QrResult<QrCode>)
        requires
            120 * data@.len() + 4096 <= usize::MAX,
        ensures
            match r {
                Ok(code) => code.wf() && code.spec_ec_level() == ec_level && bits::spec_rmqr_fits(
                    data@,
                    ec_level,
                    code.spec_version(),
                ) && bits::spec_rmqr_choice_ok(data@, ec_level, strategy, code.spec_version()),
                Err(e) => if ec_level is M || ec_level is H {
                    e == QrError::DataTooLong && (forall|v: Version|
                        (#[trigger] v.spec_rmqr_index()) is Some ==> !bits::spec_rmqr_fits(
                            data@,
                            ec_level,
                            v,
                        ))
                } else {
                    e == QrError::InvalidVersion
                },
            },
    {
        let bits = match bits::encode_auto_rmqr(data, ec_level, strategy) {
            Ok(b) => b,
            Err(e) => {
                return Err(e);
            },
        };
        match Self::with_bits(bits, ec_level) {
            Ok(code) => Ok(code),
            Err(e) => {
                proof {
                    assert(false);
                }
                Err(e)
            },
        }
    }

    /// Gets the version of this QR code.
    pub fn version(&self) -> (r: Version)
        ensures
            r == self.spec_version(),
    {
        self.version
    }

    /// Gets the error correction level of this QR code.
    pub fn error_correction_level(&self) -> (r: EcLevel)
        ensures
            r == self.spec_ec_level(),
    {
        self.ec_level
    }

    /// Gets the number of modules per row, i.e. the width of this QR code.
    ///
    /// The width here does not contain the quiet zone paddings.
    pub fn width(&self) -> (r: usize)
        requires
            self.wf(),
        ensures
            r == self.spec_version().spec_width(),
    {
        self.width
    }

    /// Gets the number of modules per column, i.e. the height of this QR
    /// code.
    ///
    /// The height here does not contain the quiet zone paddings.
    pub fn height(&self) -> (r: usize)
        requires
            self.wf(),
        ensures
            r == self.spec_version().spec_height(),
    {
        self.height
    }

    /// Converts the QR code to a vector of colors, row-major.
    pub fn to_colors(&self) -> (r: Vec<Color>)
        requires
            self.wf(),
        ensures
            r@ == self.spec_content(),
            r@.len() == self.spec_version().spec_width() * self.spec_version().spec_height(),
    {
        self.content.clone()
    }

    /// Converts the QR code into a vector of colors, row-major.
    pub fn into_colors(self) -> (r: Vec<Color>)
        requires
            self.wf(),
        ensures
            r@ == self.spec_content(),
            r@.len() == self.spec_version().spec_width() * self.spec_version().spec_height(),
    {
        self.content
    }

    /// Converts the QR code into a human-readable string, one character per
    /// module and one newline-terminated line per row.
    pub fn to_str(&self, dark: char, light: char) -> (r: String)
        requires
            self.wf(),
        ensures
            r@.len() == self.spec_version().spec_height() * (self.spec_version().spec_width() + 1),
    {
        proof {
            crate::types::lemma_valid_version_dims(self.version);
        }
        let mut s = String::new();
        let mut y: usize = 0;
        while y < self.height
            invariant
                self.wf(),
                y <= self.height,
                self.width <= 177 && self.height <= 177,
                s@.len() == y * (self.width + 1),
            decreases self.height - y,
        {
            let mut x: usize = 0;
            while x < self.width
                invariant
                    self.wf(),
                    y < self.height,
                    x <= self.width,
                    self.width <= 177 && self.height <= 177,
                    s@.len() == y * (self.width + 1) + x,
                decreases self.width - x,
            {
                proof {
                    assert(y * self.width + x < self.width * self.height && y * self.width + x
                        < 31330) by (nonlinear_arith)
                        requires
                            x < self.width && y < self.height && self.width <= 177 && self.height
                                <= 177,
                    ;
                }
                let color = self.content[y * self.width + x];
                let c = if matches!(color, Color::Dark) {
                    dark
                } else {
                    light
                };
                string_push(&mut s, c);
                x = x + 1;
            }
            string_push(&mut s, '\n');
            proof {
                assert((y + 1) * (self.width + 1) == y * (self.width + 1) + (self.width + 1))
                    by (nonlinear_arith);
            }
            y = y + 1;
        }
        s
    }
}

/// Every finished symbol holds exactly one module color per cell of its
/// version's dimensions.
pub proof fn lemma_module_count(code: QrCode)
    requires
        code.wf(),
    ensures
        code.spec_content().len() == code.spec_version().spec_width()
            * code.spec_version().spec_height(),
{
}

} // verus!
