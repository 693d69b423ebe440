//! The canvas / layout engine: functional-pattern placement, data routing,
//! masking and mask selection over the module grid of a symbol.
use vstd::prelude::*;

use crate::types::{Color, EcLevel, Version};

verus! {

/// One module of the grid while the symbol is being laid out. The reserved
/// variants carry functional patterns and are exempt from data routing and
/// masking.
#[derive(Debug, Clone, Copy, PartialEq, Eq, Structural)]
pub enum Module {
    /// A light module that data routing and masking may change.
    Light,
    /// A dark module that data routing and masking may change.
    Dark,
    /// A light module of a functional pattern.
    LightReserved,
    /// A dark module of a functional pattern.
    DarkReserved,
}

impl Module {
    /// Whether the module belongs to a functional pattern.
    pub fn is_reserved(self) -> (r: bool)
        ensures
            r == (self is LightReserved || self is DarkReserved),
    {
        matches!(self, Module::LightReserved | Module::DarkReserved)
    }

    /// The color of the module.
    pub fn color(self) -> (r: Color)
        ensures
            r == (if self is Dark || self is DarkReserved {
                Color::Dark
            } else {
                Color::Light
            }),
    {
        match self {
            Module::Dark | Module::DarkReserved => Color::Dark,
            Module::Light | Module::LightReserved => Color::Light,
        }
    }
}

/// The alignment pattern center coordinates of each Normal version, from
/// the standard's table; zeros pad the unused tail of each row.
pub const ALIGNMENT_POSITIONS: [[u8; 7]; 40] = [
    [0, 0, 0, 0, 0, 0, 0],
    [6, 18, 0, 0, 0, 0, 0],
    [6, 22, 0, 0, 0, 0, 0],
    [6, 26, 0, 0, 0, 0, 0],
    [6, 30, 0, 0, 0, 0, 0],
    [6, 34, 0, 0, 0, 0, 0],
    [6, 22, 38, 0, 0, 0, 0],
    [6, 24, 42, 0, 0, 0, 0],
    [6, 26, 46, 0, 0, 0, 0],
    [6, 28, 50, 0, 0, 0, 0],
    [6, 30, 54, 0, 0, 0, 0],
    [6, 32, 58, 0, 0, 0, 0],
    [6, 34, 62, 0, 0, 0, 0],
    [6, 26, 46, 66, 0, 0, 0],
    [6, 26, 48, 70, 0, 0, 0],
    [6, 26, 50, 74, 0, 0, 0],
    [6, 30, 54, 78, 0, 0, 0],
    [6, 30, 56, 82, 0, 0, 0],
    [6, 30, 58, 86, 0, 0, 0],
    [6, 34, 62, 90, 0, 0, 0],
    [6, 28, 50, 72, 94, 0, 0],
    [6, 26, 50, 74, 98, 0, 0],
    [6, 30, 54, 78, 102, 0, 0],
    [6, 28, 54, 80, 106, 0, 0],
    [6, 32, 58, 84, 110, 0, 0],
    [6, 30, 58, 86, 114, 0, 0],
    [6, 34, 62, 90, 118, 0, 0],
    [6, 26, 50, 74, 98, 122, 0],
    [6, 30, 54, 78, 102, 126, 0],
    [6, 26, 52, 78, 104, 130, 0],
    [6, 30, 56, 82, 108, 134, 0],
    [6, 34, 60, 86, 112, 138, 0],
    [6, 30, 58, 86, 114, 142, 0],
    [6, 34, 62, 90, 118, 146, 0],
    [6, 30, 54, 78, 102, 126, 150],
    [6, 24, 50, 76, 102, 128, 154],
    [6, 28, 54, 80, 106, 132, 158],
    [6, 32, 58, 84, 110, 136, 162],
    [6, 26, 54, 82, 110, 138, 166],
    [6, 30, 58, 86, 114, 142, 170],
];

/// The module grid of a symbol under construction.
pub struct Canvas {
    modules: Vec<Module>,
    width: usize,
    height: usize,
    version: Version,
    ec_level: EcLevel,
}

impl Canvas {
    /// Well-formedness: the grid holds exactly one module per cell of the
    /// version's dimensions.
    pub closed spec fn wf(&self) -> bool {
        &&& self.version.is_valid()
        &&& self.width == self.version.spec_width()
        &&& self.height == self.version.spec_height()
        &&& self.modules@.len() == self.width * self.height
    }

    /// The version the canvas is laid out for.
    pub closed spec fn spec_version(&self) -> Version {
        self.version
    }

    /// The error correction level the canvas is laid out for.
    pub closed spec fn spec_ec_level(&self) -> EcLevel {
        self.ec_level
    }

    /// The modules of the grid, row-major.
    pub closed spec fn spec_modules(&self) -> Seq<Module> {
        self.modules@
    }

    /// Constructs a new canvas of the version's dimensions, all modules
    /// light.
    pub fn new(version: Version, ec_level: EcLevel) -> (r: Canvas)
        requires
            version.is_valid(),
        ensures
            r.wf(),
            r.spec_version() == version,
            r.spec_ec_level() == ec_level,
            forall|i: int| 0 <= i < r.spec_modules().len() ==> r.spec_modules()[i] is Light,
    {
        proof {
            crate::types::lemma_valid_version_dims(version);
        }
        let width = version.width() as usize;
        let height = version.height() as usize;
        let modules = vec![Module::Light; width * height];
        Canvas { modules, width, height, version, ec_level }
    }

    /// The number of module columns.
    pub fn width(&self) -> (r: usize)
        requires
            self.wf(),
        ensures
            r == self.spec_version().spec_width(),
    {
        self.width
    }

    /// The number of module rows.
    pub fn height(&self) -> (r: usize)
        requires
            self.wf(),
        ensures
            r == self.spec_version().spec_height(),
    {
        self.height
    }

    /// The module at `(x, y)`, light outside the grid.
    fn get(&self, x: i32, y: i32) -> (r: Module)
        requires
            self.wf(),
        ensures
            r == (if 0 <= x < self.spec_version().spec_width() && 0 <= y
                < self.spec_version().spec_height() {
                self.spec_modules()[y * self.spec_version().spec_width() + x]
            } else {
                Module::Light
            }),
    {
        if x < 0 || y < 0 {
            return Module::Light;
        }
        let xu = x as usize;
        let yu = y as usize;
        if xu >= self.width || yu >= self.height {
            return Module::Light;
        }
        proof {
            crate::types::lemma_valid_version_dims(self.version);
            assert(yu * self.width + xu < self.width * self.height) by (nonlinear_arith)
                requires
                    xu < self.width && yu < self.height,
            ;
        }
        let idx = yu * self.width + xu;
        if idx < self.modules.len() {
            self.modules[idx]
        } else {
            Module::Light
        }
    }

    /// Sets the module at `(x, y)`; coordinates outside the grid are
    /// ignored.
    fn put(&mut self, x: i32, y: i32, module: Module)
        requires
            old(self).wf(),
        ensures
            final(self).wf(),
            final(self).spec_version() == old(self).spec_version(),
            final(self).spec_ec_level() == old(self).spec_ec_level(),
            final(self).spec_modules() == (if 0 <= x < old(self).spec_version().spec_width() && 0
                <= y < old(self).spec_version().spec_height() {
                old(self).spec_modules().update(
                    y * old(self).spec_version().spec_width() + x,
                    module,
                )
            } else {
                old(self).spec_modules()
            }),
    {
        if x < 0 || y < 0 {
            return ;
        }
        let xu = x as usize;
        let yu = y as usize;
        if xu >= self.width || yu >= self.height {
            return ;
        }
        proof {
            crate::types::lemma_valid_version_dims(self.version);
            assert(yu * self.width + xu < self.width * self.height) by (nonlinear_arith)
                requires
                    xu < self.width && yu < self.height,
            ;
        }
        let idx = yu * self.width + xu;
        if idx < self.modules.len() {
            self.modules[idx] = module;
        }
    }

    /// Draws one 7x7 finder pattern with its light separator ring, centered
    /// at `(cx, cy)`.
    fn draw_finder_at(&mut self, cx: i32, cy: i32)
        requires
            old(self).wf(),
            -1000 <= cx <= 1000 && -1000 <= cy <= 1000,
        ensures
            final(self).wf(),
            final(self).spec_version() == old(self).spec_version(),
            final(self).spec_ec_level() == old(self).spec_ec_level(),
    {
        let mut ty: usize = 0;
        while ty < 9
            invariant
                self.wf(),
                self.spec_version() == old(self).spec_version(),
                self.spec_ec_level() == old(self).spec_ec_level(),
                ty <= 9,
                -1000 <= cx <= 1000 && -1000 <= cy <= 1000,
            decreases 9 - ty,
        {
            let dy = ty as i32 - 4;
            let mut tx: usize = 0;
            while tx < 9
                invariant
                    self.wf(),
                    self.spec_version() == old(self).spec_version(),
                    self.spec_ec_level() == old(self).spec_ec_level(),
                    tx <= 9,
                    -4 <= dy <= 4,
                    -1000 <= cx <= 1000 && -1000 <= cy <= 1000,
                decreases 9 - tx,
            {
                let dx = tx as i32 - 4;
                let adx = if dx < 0 {
                    -dx
                } else {
                    dx
                };
                let ady = if dy < 0 {
                    -dy
                } else {
                    dy
                };
                let dist = if adx > ady {
                    adx
                } else {
                    ady
                };
                let module = if dist <= 1 || dist == 3 {
                    Module::DarkReserved
                } else {
                    Module::LightReserved
                };
                self.put(cx + dx, cy + dy, module);
                tx = tx + 1;
            }
            ty = ty + 1;
        }
    }

    /// Draws one small alignment or sub-finder square of radius `rad`
    /// centered at `(cx, cy)`: concentric dark, light, dark rings.
    fn draw_square_at(&mut self, cx: i32, cy: i32, rad: i32)
        requires
            old(self).wf(),
            0 <= rad <= 4,
            -1000 <= cx <= 1000 && -1000 <= cy <= 1000,
        ensures
            final(self).wf(),
            final(self).spec_version() == old(self).spec_version(),
            final(self).spec_ec_level() == old(self).spec_ec_level(),
    {
        let side = (2 * rad + 1) as usize;
        let mut ty: usize = 0;
        while ty < side
            invariant
                self.wf(),
                self.spec_version() == old(self).spec_version(),
                self.spec_ec_level() == old(self).spec_ec_level(),
                ty <= side,
                side == 2 * rad + 1,
                0 <= rad <= 4,
                -1000 <= cx <= 1000 && -1000 <= cy <= 1000,
            decreases side - ty,
        {
            let dy = ty as i32 - rad;
            let mut tx: usize = 0;
            while tx < side
                invariant
                    self.wf(),
                    self.spec_version() == old(self).spec_version(),
                    self.spec_ec_level() == old(self).spec_ec_level(),
                    tx <= side,
                    side == 2 * rad + 1,
                    0 <= rad <= 4,
                    -4 <= dy <= 4,
                    -1000 <= cx <= 1000 && -1000 <= cy <= 1000,
                decreases side - tx,
            {
                let dx = tx as i32 - rad;
                let adx = if dx < 0 {
                    -dx
                } else {
                    dx
                };
                let ady = if dy < 0 {
                    -dy
                } else {
                    dy
                };
                let dist = if adx > ady {
                    adx
                } else {
                    ady
                };
                let module = if dist == 1 {
                    Module::LightReserved
                } else {
                    Module::DarkReserved
                };
                self.put(cx + dx, cy + dy, module);
                tx = tx + 1;
            }
            ty = ty + 1;
        }
    }

    /// Reserves a module as a light functional cell if it is still free.
    fn reserve(&mut self, x: i32, y: i32)
        requires
            old(self).wf(),
        ensures
            final(self).wf(),
            final(self).spec_version() == old(self).spec_version(),
            final(self).spec_ec_level() == old(self).spec_ec_level(),
    {
        if !self.get(x, y).is_reserved() {
            self.put(x, y, Module::LightReserved);
        }
    }

    /// Draws a timing line of alternating reserved modules from `(x0, y0)`
    /// along `(dx, dy)` for `count` modules, dark on even steps.
    fn draw_timing(&mut self, x0: i32, y0: i32, dx: i32, dy: i32, count: usize)
        requires
            old(self).wf(),
            -1 <= dx <= 1 && -1 <= dy <= 1,
            -200 <= x0 <= 200 && -200 <= y0 <= 200,
            count <= 200,
        ensures
            final(self).wf(),
            final(self).spec_version() == old(self).spec_version(),
            final(self).spec_ec_level() == old(self).spec_ec_level(),
    {
        let mut i: usize = 0;
        while i < count
            invariant
                self.wf(),
                self.spec_version() == old(self).spec_version(),
                self.spec_ec_level() == old(self).spec_ec_level(),
                i <= count <= 200,
                -1 <= dx <= 1 && -1 <= dy <= 1,
                -200 <= x0 <= 200 && -200 <= y0 <= 200,
            decreases count - i,
        {
            let module = if i % 2 == 0 {
                Module::DarkReserved
            } else {
                Module::LightReserved
            };
            proof {
                assert(-200 <= dx * (i as i32) <= 200 && -200 <= dy * (i as i32) <= 200)
                    by (nonlinear_arith)
                    requires
                        -1 <= dx <= 1 && -1 <= dy <= 1 && 0 <= i <= 200,
                ;
            }
            self.put(x0 + dx * (i as i32), y0 + dy * (i as i32), module);
            i = i + 1;
        }
    }

    /// Places all functional patterns of the version's family: finders,
    /// separators, timing and alignment patterns, the dark module, and the
    /// reserved format- and version-information regions.
    pub fn draw_all_functional_patterns(&mut self)
        requires
            old(self).wf(),
        ensures
            final(self).wf(),
            final(self).spec_version() == old(self).spec_version(),
            final(self).spec_ec_level() == old(self).spec_ec_level(),
    {
        proof {
            crate::types::lemma_valid_version_dims(self.version);
        }
        let w = self.width as i32;
        let h = self.height as i32;
        match self.version {
            Version::Normal(v) => {
                self.draw_finder_at(3, 3);
                self.draw_finder_at(w - 4, 3);
                self.draw_finder_at(3, h - 4);
                // timing patterns on row and column six
                self.draw_timing(8, 6, 1, 0, if w >= 16 {
                    (w - 16) as usize
                } else {
                    0
                });
                self.draw_timing(6, 8, 0, 1, if h >= 16 {
                    (h - 16) as usize
                } else {
                    0
                });
                // alignment patterns
                if 2 <= v && v <= 40 {
                    let row = ALIGNMENT_POSITIONS[(v - 1) as usize];
                    let mut a: usize = 0;
                    while a < 7
                        invariant
                            self.wf(),
                            self.spec_version() == old(self).spec_version(),
                            self.spec_ec_level() == old(self).spec_ec_level(),
                            9 <= w <= 200 && 7 <= h <= 200,
                        9 <= w <= 200 && 7 <= h <= 200,
                            a <= 7,
                            2 <= v <= 40,
                        decreases 7 - a,
                    {
                        let mut b: usize = 0;
                        while b < 7
                            invariant
                                self.wf(),
                                self.spec_version() == old(self).spec_version(),
                                self.spec_ec_level() == old(self).spec_ec_level(),
                                9 <= w <= 200 && 7 <= h <= 200,
                            9 <= w <= 200 && 7 <= h <= 200,
                        9 <= w <= 200 && 7 <= h <= 200,
                                a < 7,
                                b <= 7,
                                2 <= v <= 40,
                            decreases 7 - b,
                        {
                            let cx = ALIGNMENT_POSITIONS[(v - 1) as usize][a] as i32;
                            let cy = ALIGNMENT_POSITIONS[(v - 1) as usize][b] as i32;
                            if cx > 0 && cy > 0 && !self.get(cx, cy).is_reserved() {
                                self.draw_square_at(cx, cy, 2);
                            }
                            b = b + 1;
                        }
                        a = a + 1;
                    }
                }
                // dark module and format information area
                self.put(8, h - 8, Module::DarkReserved);
                let mut k: i32 = 0;
                while k <= 8
                    invariant
                        self.wf(),
                        self.spec_version() == old(self).spec_version(),
                        self.spec_ec_level() == old(self).spec_ec_level(),
                        9 <= w <= 200 && 7 <= h <= 200,
                        0 <= k <= 9,
                    decreases 9 - k,
                {
                    self.reserve(k, 8);
                    self.reserve(8, k);
                    self.reserve(w - 1 - k, 8);
                    self.reserve(8, h - 1 - k);
                    k = k + 1;
                }
                // version information area for versions seven and up
                if v >= 7 {
                    let mut j: i32 = 0;
                    while j < 6
                        invariant
                            self.wf(),
                            self.spec_version() == old(self).spec_version(),
                            self.spec_ec_level() == old(self).spec_ec_level(),
                            9 <= w <= 200 && 7 <= h <= 200,
                        9 <= w <= 200 && 7 <= h <= 200,
                            0 <= j <= 6,
                        decreases 6 - j,
                    {
                        let mut t: i32 = 0;
                        while t < 3
                            invariant
                                self.wf(),
                                self.spec_version() == old(self).spec_version(),
                                self.spec_ec_level() == old(self).spec_ec_level(),
                                9 <= w <= 200 && 7 <= h <= 200,
                            9 <= w <= 200 && 7 <= h <= 200,
                        9 <= w <= 200 && 7 <= h <= 200,
                                0 <= j < 6,
                                0 <= t <= 3,
                            decreases 3 - t,
                        {
                            self.reserve(w - 11 + t, j);
                            self.reserve(j, h - 11 + t);
                            t = t + 1;
                        }
                        j = j + 1;
                    }
                }
            },
            Version::Micro(_) => {
                self.draw_finder_at(3, 3);
                self.draw_timing(8, 0, 1, 0, if w >= 8 {
                    (w - 8) as usize
                } else {
                    0
                });
                self.draw_timing(0, 8, 0, 1, if h >= 8 {
                    (h - 8) as usize
                } else {
                    0
                });
                let mut k: i32 = 1;
                while k <= 8
                    invariant
                        self.wf(),
                        self.spec_version() == old(self).spec_version(),
                        self.spec_ec_level() == old(self).spec_ec_level(),
                        9 <= w <= 200 && 7 <= h <= 200,
                        1 <= k <= 9,
                    decreases 9 - k,
                {
                    self.reserve(k, 8);
                    self.reserve(8, k);
                    k = k + 1;
                }
            },
            Version::Rmqr(_, _) => {
                // corner finder at the top left, sub-finder at the bottom
                // right, corner marks at the other two corners
                self.draw_finder_at(3, 3);
                self.draw_square_at(w - 3, h - 3, 2);
                self.put(w - 1, 0, Module::DarkReserved);
                self.put(w - 2, 0, Module::DarkReserved);
                self.put(w - 1, 1, Module::DarkReserved);
                self.put(0, h - 1, Module::DarkReserved);
                self.put(1, h - 1, Module::DarkReserved);
                self.put(0, h - 2, Module::DarkReserved);
                // timing patterns along the four borders
                self.draw_timing(8, 0, 1, 0, if w >= 11 {
                    (w - 11) as usize
                } else {
                    0
                });
                self.draw_timing(3, h - 1, 1, 0, if w >= 8 {
                    (w - 8) as usize
                } else {
                    0
                });
                self.draw_timing(0, 8, 0, 1, if h >= 10 {
                    (h - 10) as usize
                } else {
                    0
                });
                self.draw_timing(w - 1, 3, 0, 1, if h >= 9 {
                    (h - 9) as usize
                } else {
                    0
                });
                // alignment columns along the long sides
                let mut c: i32 = 21;
                while c < w - 13
                    invariant
                        self.wf(),
                        self.spec_version() == old(self).spec_version(),
                        self.spec_ec_level() == old(self).spec_ec_level(),
                        9 <= w <= 200 && 7 <= h <= 200,
                        21 <= c <= 213,
                    decreases 250 - c,
                {
                    self.draw_square_at(c, 1, 1);
                    self.draw_square_at(c, h - 2, 1);
                    c = c + 26;
                }
                // format information areas near both finders
                let mut k: i32 = 1;
                while k <= 10
                    invariant
                        self.wf(),
                        self.spec_version() == old(self).spec_version(),
                        self.spec_ec_level() == old(self).spec_ec_level(),
                        9 <= w <= 200 && 7 <= h <= 200,
                        1 <= k <= 11,
                    decreases 11 - k,
                {
                    self.reserve(8 + (k - 1) / 3, 1 + (k - 1) % 3);
                    self.reserve(w - 6 + (k - 1) / 3, h - 6 + (k - 1) % 3);
                    k = k + 1;
                }
            },
        }
    }

    /// Routes the interleaved data and error correction codewords through
    /// the free modules in the family's serpentine order, most significant
    /// bit of each codeword first; leftover modules stay light.
    pub fn draw_data(&mut self, data: &[u8], ec: &[u8])
        requires
            old(self).wf(),
            data@.len() + ec@.len() <= 8192,
        ensures
            final(self).wf(),
            final(self).spec_version() == old(self).spec_version(),
            final(self).spec_ec_level() == old(self).spec_ec_level(),
    {
        proof {
            crate::types::lemma_valid_version_dims(self.version);
        }
        let w = self.width as i32;
        let h = self.height as i32;
        // the number of data bits to place: Micro(1) and Micro(3) end in a
        // four-bit codeword
        let data_bits: usize = match self.version {
            Version::Micro(1) | Version::Micro(3) => if data.len() > 0 {
                8 * data.len() - 4
            } else {
                0
            },
            _ => 8 * data.len(),
        };
        let total_bits = data_bits + 8 * ec.len();
        let timing_col: i32 = match self.version {
            Version::Normal(_) => 6,
            _ => -1,
        };
        let mut bit: usize = 0;
        let mut col_right: i32 = w - 1;
        let mut upward: bool = true;
        while col_right > 0
            invariant
                self.wf(),
                self.spec_version() == old(self).spec_version(),
                self.spec_ec_level() == old(self).spec_ec_level(),
                data_bits <= 8 * data@.len(),
                total_bits == data_bits + 8 * ec@.len(),
                -2 <= col_right <= 200,
                h <= 200,
            decreases col_right + 2,
        {
            let mut col = col_right;
            if col == timing_col {
                col = col - 1;
            }
            if col <= 0 {
                break ;
            }
            let mut step: i32 = 0;
            while step < h
                invariant
                    self.wf(),
                    self.spec_version() == old(self).spec_version(),
                    self.spec_ec_level() == old(self).spec_ec_level(),
                    data_bits <= 8 * data@.len(),
                    total_bits == data_bits + 8 * ec@.len(),
                    0 <= step,
                    h <= 200,
                    col >= 1,
                decreases h - step,
            {
                let y = if upward {
                    h - 1 - step
                } else {
                    step
                };
                let mut side: i32 = 0;
                while side < 2
                    invariant
                        self.wf(),
                        self.spec_version() == old(self).spec_version(),
                        self.spec_ec_level() == old(self).spec_ec_level(),
                        data_bits <= 8 * data@.len(),
                        total_bits == data_bits + 8 * ec@.len(),
                        0 <= side <= 2,
                        col >= 1,
                    decreases 2 - side,
                {
                    let x = col - side;
                    if !self.get(x, y).is_reserved() {
                        let value = if bit < total_bits {
                            let byte: u8 = if bit < data_bits {
                                let idx = bit / 8;
                                if idx < data.len() {
                                    data[idx]
                                } else {
                                    0
                                }
                            } else {
                                let idx = (bit - data_bits) / 8;
                                if idx < ec.len() {
                                    ec[idx]
                                } else {
                                    0
                                }
                            };
                            let shift: u8 = if bit < data_bits {
                                (7 - (bit % 8)) as u8
                            } else {
                                (7 - ((bit - data_bits) % 8)) as u8
                            };
                            (byte >> shift) & 1 == 1
                        } else {
                            false
                        };
                        self.put(x, y, if value {
                            Module::Dark
                        } else {
                            Module::Light
                        });
                        if bit < total_bits {
                            bit = bit + 1;
                        }
                    }
                    side = side + 1;
                }
                step = step + 1;
            }
            upward = !upward;
            col_right = col_right - 2;
        }
    }

    /// Whether the mask formula `mask_id` asks to flip the module at
    /// `(x, y)` in this version's family.
    fn mask_hit(&self, mask_id: usize, x: i32, y: i32) -> bool
        requires
            self.wf(),
            0 <= x <= 1000 && 0 <= y <= 1000,
    {
        // Micro masks map to the Normal formulas 1, 4, 6 and 7; rMQR uses
        // its single fixed formula
        let id: usize = match self.version {
            Version::Micro(_) => match mask_id {
                0 => 1,
                1 => 4,
                2 => 6,
                _ => 7,
            },
            Version::Rmqr(_, _) => 4,
            Version::Normal(_) => mask_id % 8,
        };
        let xi = x as i64;
        let yi = y as i64;
        proof {
            assert(0 <= xi * yi <= 1000000) by (nonlinear_arith)
                requires
                    0 <= xi <= 1000 && 0 <= yi <= 1000,
            ;
        }
        match id {
            0 => (xi + yi) % 2 == 0,
            1 => yi % 2 == 0,
            2 => xi % 3 == 0,
            3 => (xi + yi) % 3 == 0,
            4 => (yi / 2 + xi / 3) % 2 == 0,
            5 => (xi * yi) % 2 + (xi * yi) % 3 == 0,
            6 => ((xi * yi) % 2 + (xi * yi) % 3) % 2 == 0,
            _ => ((xi + yi) % 2 + (xi * yi) % 3) % 2 == 0,
        }
    }

    /// XOR-toggles every non-reserved module that the mask formula selects.
    /// Applying the same mask twice restores the canvas.
    fn apply_mask(&mut self, mask_id: usize)
        requires
            old(self).wf(),
        ensures
            final(self).wf(),
            final(self).spec_version() == old(self).spec_version(),
            final(self).spec_ec_level() == old(self).spec_ec_level(),
    {
        proof {
            crate::types::lemma_valid_version_dims(self.version);
        }
        let w = self.width as i32;
        let h = self.height as i32;
        let mut y: i32 = 0;
        while y < h
            invariant
                self.wf(),
                self.spec_version() == old(self).spec_version(),
                self.spec_ec_level() == old(self).spec_ec_level(),
                0 <= y <= 200,
                w <= 200 && h <= 200,
            decreases h - y,
        {
            let mut x: i32 = 0;
            while x < w
                invariant
                    self.wf(),
                    self.spec_version() == old(self).spec_version(),
                    self.spec_ec_level() == old(self).spec_ec_level(),
                    0 <= x <= 200,
                    0 <= y <= 200,
                    w <= 200 && h <= 200,
                decreases w - x,
            {
                if self.mask_hit(mask_id, x, y) {
                    match self.get(x, y) {
                        Module::Light => self.put(x, y, Module::Dark),
                        Module::Dark => self.put(x, y, Module::Light),
                        _ => {},
                    }
                }
                x = x + 1;
            }
            y = y + 1;
        }
    }

    /// The count of dark modules in the given row (`horizontal`) or column.
    fn count_dark_line(&self, fixed: i32, horizontal: bool) -> (r: u64)
        requires
            self.wf(),
        ensures
            r <= 200,
    {
        proof {
            crate::types::lemma_valid_version_dims(self.version);
        }
        let limit = if horizontal {
            self.width as i32
        } else {
            self.height as i32
        };
        let mut count: u64 = 0;
        let mut t: i32 = 0;
        while t < limit
            invariant
                self.wf(),
                0 <= t <= limit,
                count <= t,
                0 <= limit <= 200,
            decreases limit - t,
        {
            let module = if horizontal {
                self.get(t, fixed)
            } else {
                self.get(fixed, t)
            };
            if matches!(module.color(), Color::Dark) {
                count = count + 1;
            }
            t = t + 1;
        }
        count
    }

    /// The mask penalty of the current canvas, following the family's
    /// rules: the run, block, finder-likeness and balance rules for Normal
    /// symbols, and the edge-count score for Micro symbols.
    fn penalty(&self) -> u64
        requires
            self.wf(),
    {
        proof {
            crate::types::lemma_valid_version_dims(self.version);
        }
        let w = self.width as i32;
        let h = self.height as i32;
        if matches!(self.version, Version::Micro(_)) {
            let dark_bottom = self.count_dark_line(h - 1, true);
            let dark_right = self.count_dark_line(w - 1, false);
            let low = if dark_bottom < dark_right {
                dark_bottom
            } else {
                dark_right
            };
            let high = if dark_bottom < dark_right {
                dark_right
            } else {
                dark_bottom
            };
            return 16 * low + high;
        }
        let mut score: u64 = 0;
        let mut dark: u64 = 0;
        let mut y: i32 = 0;
        while y < h
            invariant
                self.wf(),
                0 <= y <= 200,
                w <= 200 && h <= 200,
                dark <= 10000100,
            decreases h - y,
        {
            let mut x: i32 = 0;
            while x < w
                invariant
                    self.wf(),
                    0 <= x <= 200,
                    0 <= y < h,
                    w <= 200 && h <= 200,
                    dark <= 10000100,
                decreases w - x,
            {
                let c = self.get(x, y).color();
                if matches!(c, Color::Dark) {
                    dark = add_capped(dark, 1);
                }
                // adjacent runs of five or more, horizontally and
                // vertically
                if x >= 4 {
                    let mut same = true;
                    let mut k: i32 = 1;
                    while k < 5
                        invariant
                            self.wf(),
                            1 <= k <= 5,
                            0 <= x <= 200,
                            0 <= y <= 200,
                        decreases 5 - k,
                    {
                        if !(self.get(x - k, y).color() == c) {
                            same = false;
                        }
                        k = k + 1;
                    }
                    if same {
                        if x >= 5 && self.get(x - 5, y).color() == c {
                            score = add_capped(score, 1);
                        } else {
                            score = add_capped(score, 3);
                        }
                    }
                }
                if y >= 4 {
                    let mut same = true;
                    let mut k: i32 = 1;
                    while k < 5
                        invariant
                            self.wf(),
                            1 <= k <= 5,
                            0 <= x <= 200,
                            0 <= y <= 200,
                        decreases 5 - k,
                    {
                        if !(self.get(x, y - k).color() == c) {
                            same = false;
                        }
                        k = k + 1;
                    }
                    if same {
                        if y >= 5 && self.get(x, y - 5).color() == c {
                            score = add_capped(score, 1);
                        } else {
                            score = add_capped(score, 3);
                        }
                    }
                }
                // two-by-two blocks of one color
                if x >= 1 && y >= 1 {
                    let a = self.get(x - 1, y - 1).color();
                    let b = self.get(x, y - 1).color();
                    let d = self.get(x - 1, y).color();
                    if a == b && b == d && d == c {
                        score = add_capped(score, 3);
                    }
                }
                // finder-like one-one-three-one-one patterns with a light
                // margin of four
                if x >= 10 {
                    if self.finder_like_row(x, y) {
                        score = add_capped(score, 40);
                    }
                }
                if y >= 10 {
                    if self.finder_like_col(x, y) {
                        score = add_capped(score, 40);
                    }
                }
                x = x + 1;
            }
            y = y + 1;
        }
        // balance of dark modules
        proof {
            crate::types::lemma_valid_version_dims(self.version);
        }
        let total = (self.width * self.height) as u64;
        if total > 0 {
            let percent = dark * 100 / total;
            let distance = if percent < 50 {
                50 - percent
            } else {
                percent - 50
            };
            score = add_capped(score, if 10 * (distance / 5) <= 100 { 10 * (distance / 5) } else { 100 });
        }
        score
    }

    /// Whether the eleven modules ending at `(x, y)` in its row form a
    /// finder-like pattern with its light margin on either side.
    fn finder_like_row(&self, x: i32, y: i32) -> bool
        requires
            self.wf(),
            10 <= x <= 1000 && 0 <= y <= 1000,
    {
        let p0 = self.pattern_at(x - 10, y, true);
        let p1 = self.pattern_at(x - 6, y, true);
        p0 || p1
    }

    /// Whether the eleven modules ending at `(x, y)` in its column form a
    /// finder-like pattern with its light margin on either side.
    fn finder_like_col(&self, x: i32, y: i32) -> bool
        requires
            self.wf(),
            10 <= y <= 1000 && 0 <= x <= 1000,
    {
        let p0 = self.pattern_at(x, y - 10, false);
        let p1 = self.pattern_at(x, y - 6, false);
        p0 || p1
    }

    /// Whether the seven modules from `(x, y)` onward form the
    /// dark-light-dark-dark-dark-light-dark core with a light margin of
    /// four before (`p0`) or after it.
    fn pattern_at(&self, x: i32, y: i32, horizontal: bool) -> bool
        requires
            self.wf(),
            -1000 <= x <= 1000 && -1000 <= y <= 1000,
    {
        let mut k: i32 = 0;
        let mut core = true;
        while k < 7
            invariant
                self.wf(),
                -1000 <= x <= 1000 && -1000 <= y <= 1000,
                0 <= k <= 7,
            decreases 7 - k,
        {
            let m = if horizontal {
                self.get(x + k, y)
            } else {
                self.get(x, y + k)
            };
            let want_dark = k == 0 || k == 2 || k == 3 || k == 4 || k == 6;
            if (m.color() == Color::Dark) != want_dark {
                core = false;
            }
            k = k + 1;
        }
        if !core {
            return false;
        }
        let mut before = true;
        let mut after = true;
        let mut t: i32 = 1;
        while t < 5
            invariant
                self.wf(),
                -1000 <= x <= 1000 && -1000 <= y <= 1000,
                1 <= t <= 5,
            decreases 5 - t,
        {
            let mb = if horizontal {
                self.get(x - t, y)
            } else {
                self.get(x, y - t)
            };
            let ma = if horizontal {
                self.get(x + 6 + t, y)
            } else {
                self.get(x, y + 6 + t)
            };
            if mb.color() == Color::Dark {
                before = false;
            }
            if ma.color() == Color::Dark {
                after = false;
            }
            t = t + 1;
        }
        before || after
    }

    /// The 15-bit format information word of a Normal symbol: the level and
    /// mask bits, their BCH(15,5) remainder, and the fixed mask.
    fn format_info_normal(&self, mask_id: usize) -> u32
        requires
            self.wf(),
    {
        let level_bits: u32 = match self.ec_level {
            EcLevel::L => 1,
            EcLevel::M => 0,
            EcLevel::Q => 3,
            EcLevel::H => 2,
        };
        let value: u32 = (level_bits << 3u32) | ((mask_id % 8) as u32);
        let bch = bch_remainder(value << 10u32, 0x537, 15);
        ((value << 10u32) | bch) ^ 0x5412
    }

    /// Writes the format information of the mask into the reserved format
    /// regions of the family.
    fn write_format_info(&mut self, mask_id: usize)
        requires
            old(self).wf(),
        ensures
            final(self).wf(),
            final(self).spec_version() == old(self).spec_version(),
            final(self).spec_ec_level() == old(self).spec_ec_level(),
    {
        proof {
            crate::types::lemma_valid_version_dims(self.version);
        }
        let w = self.width as i32;
        let h = self.height as i32;
        match self.version {
            Version::Normal(_) => {
                let format = self.format_info_normal(mask_id);
                let mut k: i32 = 0;
                while k < 15
                    invariant
                        self.wf(),
                        self.spec_version() == old(self).spec_version(),
                        self.spec_ec_level() == old(self).spec_ec_level(),
                        0 <= k <= 15,
                        9 <= w <= 200 && 7 <= h <= 200,
                    decreases 15 - k,
                {
                    let on = (format >> (k as u32)) & 1 == 1;
                    let module = if on {
                        Module::DarkReserved
                    } else {
                        Module::LightReserved
                    };
                    // first copy around the top-left finder
                    let (x1, y1): (i32, i32) = if k < 6 {
                        (8, k)
                    } else if k < 8 {
                        (8, k + 1)
                    } else if k == 8 {
                        (7, 8)
                    } else {
                        (14 - k, 8)
                    };
                    self.put(x1, y1, module);
                    // second copy split between the other two finders
                    let (x2, y2): (i32, i32) = if k < 8 {
                        (w - 1 - k, 8)
                    } else {
                        (8, h - 15 + k)
                    };
                    self.put(x2, y2, module);
                    k = k + 1;
                }
            },
            Version::Micro(a) => {
                let symbol_number: u32 = match (a, self.ec_level) {
                    (1, _) => 0,
                    (2, EcLevel::L) => 1,
                    (2, _) => 2,
                    (3, EcLevel::L) => 3,
                    (3, _) => 4,
                    (4, EcLevel::L) => 5,
                    (4, EcLevel::M) => 6,
                    (4, _) => 7,
                    (_, _) => 0,
                };
                let value: u32 = (symbol_number << 2u32) | ((mask_id % 4) as u32);
                let bch = bch_remainder(value << 10u32, 0x537, 15);
                let format = ((value << 10u32) | bch) ^ 0x4445;
                let mut k: i32 = 0;
                while k < 15
                    invariant
                        self.wf(),
                        self.spec_version() == old(self).spec_version(),
                        self.spec_ec_level() == old(self).spec_ec_level(),
                        0 <= k <= 15,
                    decreases 15 - k,
                {
                    let on = (format >> (k as u32)) & 1 == 1;
                    let module = if on {
                        Module::DarkReserved
                    } else {
                        Module::LightReserved
                    };
                    let (x, y): (i32, i32) = if k < 8 {
                        (8, k + 1)
                    } else {
                        (15 - k, 8)
                    };
                    self.put(x, y, module);
                    k = k + 1;
                }
            },
            Version::Rmqr(_, _) => {
                let index = match self.version.rmqr_index() {
                    Ok(i) => i as u32,
                    Err(_) => 0,
                };
                let level_bit: u32 = match self.ec_level {
                    EcLevel::H => 1,
                    _ => 0,
                };
                let value: u32 = (index << 1u32) | level_bit;
                let bch = bch_remainder(value << 12u32, 0x1F25, 18);
                let format = ((value << 12u32) | bch) ^ 0x1FAB2;
                let mut k: i32 = 0;
                while k < 18
                    invariant
                        self.wf(),
                        self.spec_version() == old(self).spec_version(),
                        self.spec_ec_level() == old(self).spec_ec_level(),
                        0 <= k <= 18,
                        9 <= w <= 200 && 7 <= h <= 200,
                    decreases 18 - k,
                {
                    let on = (format >> (k as u32)) & 1 == 1;
                    let module = if on {
                        Module::DarkReserved
                    } else {
                        Module::LightReserved
                    };
                    self.put(8 + k / 3, 1 + k % 3, module);
                    self.put(w - 6 + k / 3, h - 6 + k % 3, module);
                    k = k + 1;
                }
            },
        }
    }

    /// Applies every candidate mask of the family, scores each with the
    /// family's penalty rule, and keeps the mask with the lowest penalty
    /// (the lowest mask id on ties), with its format information written.
    pub fn apply_best_mask(self) -> (r: Canvas)
        requires
            self.wf(),
        ensures
            r.wf(),
            r.spec_version() == self.spec_version(),
            r.spec_ec_level() == self.spec_ec_level(),
    {
        let mut canvas = self;
        let mask_count: usize = match canvas.version {
            Version::Normal(_) => 8,
            Version::Micro(_) => 4,
            Version::Rmqr(_, _) => 1,
        };
        let ghost orig = canvas;
        let mut best_id: usize = 0;
        let mut best_score: u64 = 0;
        let mut have_best = false;
        let mut id: usize = 0;
        while id < mask_count
            invariant
                canvas.wf(),
                canvas.spec_version() == orig.spec_version(),
                canvas.spec_ec_level() == orig.spec_ec_level(),
                id <= mask_count,
            decreases mask_count - id,
        {
            canvas.apply_mask(id);
            canvas.write_format_info(id);
            let score = canvas.penalty();
            if !have_best || score < best_score {
                best_id = id;
                best_score = score;
                have_best = true;
            }
            // revert: the mask toggle is an involution on free modules
            canvas.apply_mask(id);
            id = id + 1;
        }
        canvas.apply_mask(best_id);
        canvas.write_format_info(best_id);
        canvas
    }

    /// Consumes the canvas into its flat row-major color vector.
    pub fn into_colors(self) -> (r: Vec<Color>)
        requires
            self.wf(),
        ensures
            r@.len() == self.spec_version().spec_width() * self.spec_version().spec_height(),
            forall|i: int|
                0 <= i < r@.len() ==> r@[i] == (if self.spec_modules()[i] is Dark
                    || self.spec_modules()[i] is DarkReserved {
                    Color::Dark
                } else {
                    Color::Light
                }),
    {
        let mut r: Vec<Color> = Vec::new();
        let mut i: usize = 0;
        while i < self.modules.len()
            invariant
                self.wf(),
                i <= self.modules@.len(),
                r@.len() == i,
                forall|t: int|
                    0 <= t < i ==> r@[t] == (if self.spec_modules()[t] is Dark
                        || self.spec_modules()[t] is DarkReserved {
                        Color::Dark
                    } else {
                        Color::Light
                    }),
            decreases self.modules@.len() - i,
        {
            r.push(self.modules[i].color());
            i = i + 1;
        }
        r
    }
}

/// Adds a small penalty increment, capping far below overflow.
fn add_capped(a: u64, b: u64) -> (r: u64)
    requires
        b <= 100,
    ensures
        a <= 10000100 ==> r <= 10000100,
{
    if a < 10000000 {
        a + b
    } else {
        a
    }
}

/// The remainder of `value` divided by the BCH generator `generator` whose
/// highest set bit is at position `bits - 10`-ish; used for the format and
/// version information words.
fn bch_remainder(value: u32, generator: u32, bits: u32) -> u32
    requires
        bits <= 20,
        generator >= 1,
{
    let gen_degree: u32 = if generator >= 0x1000 {
        12
    } else {
        10
    };
    let mut rem: u32 = value;
    let mut shift: u32 = bits;
    while shift > gen_degree
        invariant
            gen_degree <= 12,
            shift <= 20,
        decreases shift,
    {
        let s = shift - 1;
        if (rem >> s) & 1 == 1 {
            proof {
                assert(s >= gen_degree && s < 20 && gen_degree <= 12 ==> (s - gen_degree) < 20);
            }
            rem = rem ^ (generator << ((s - gen_degree) as u32));
        }
        shift = shift - 1;
    }
    rem
}

} // verus!
