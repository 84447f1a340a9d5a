//! Layout of the glyph atlas: printable ASCII in a 16-column grid of
//! fixed-size cells, glyph bitmaps placed bottom-aligned in their cells and
//! the space cell filled solid for background quads.

use vstd::prelude::*;

use crate::grid::{lemma_index_bounds, lemma_index_split};

verus! {

/// Pixel size glyphs are rasterized at.
pub const FONT_SIZE_PX: u32 = 24;

/// Cells per atlas row.
pub const ATLAS_COLUMNS: u32 = 16;

/// First character in the atlas (space).
pub const FIRST_CHAR: u8 = 32;

/// Last character in the atlas (tilde).
pub const LAST_CHAR: u8 = 126;

/// Number of characters in the atlas.
pub const CHAR_COUNT: u32 = 95;

/// Rows of cells in the atlas.
pub const ATLAS_ROWS: u32 = 6;

/// A rasterized glyph: `coverage` holds `width * height` values, row by row
/// from the top.
pub struct GlyphBitmap {
    pub width: usize,
    pub height: usize,
    pub coverage: Vec<u8>,
}

pub open spec fn bitmap_wf(g: GlyphBitmap) -> bool {
    g.coverage@.len() == g.width * g.height
}

/// `p` with the `w` x `h` rectangle at `(ox, oy)` overwritten by `cov`,
/// clipped to the `aw`-wide image.
pub open spec fn painted(p: Seq<u8>, aw: int, ox: int, oy: int, w: int, h: int, cov: Seq<u8>) -> Seq<u8> {
    Seq::new(
        p.len(),
        |i: int|
            {
                let x = i % aw;
                let y = i / aw;
                if ox <= x < ox + w && oy <= y < oy + h {
                    cov[(y - oy) * w + (x - ox)]
                } else {
                    p[i]
                }
            },
    )
}

/// Cell position (column, row) of the character with atlas index `idx`.
pub open spec fn cell_of(idx: int) -> (int, int) {
    (idx % (ATLAS_COLUMNS as int), idx / (ATLAS_COLUMNS as int))
}

/// Vertical offset that bottom-aligns a glyph of height `h` in a cell.
pub open spec fn bottom_offset(cell_h: int, h: int) -> int {
    if cell_h >= h {
        cell_h - h
    } else {
        0
    }
}

/// The atlas after placing the first `k` characters: the space cell is
/// filled with 255, every other glyph is drawn bottom-aligned at its cell's
/// origin (later glyphs overwrite earlier ones where they overlap).
pub open spec fn atlas_after(gw: int, gh: int, glyphs: Seq<GlyphBitmap>, k: nat) -> Seq<u8>
    decreases k,
{
    let aw = ATLAS_COLUMNS * gw;
    let ah = ATLAS_ROWS * gh;
    if k == 0 {
        Seq::new((aw * ah) as nat, |i: int| 0u8)
    } else {
        let idx = k - 1;
        let prev = atlas_after(gw, gh, glyphs, (k - 1) as nat);
        let (col, row) = cell_of(idx);
        if idx == 0 {
            painted(prev, aw, col * gw, row * gh, gw, gh, Seq::new((gw * gh) as nat, |i: int| 255u8))
        } else {
            let g = glyphs[idx - 1];
            painted(
                prev,
                aw,
                col * gw,
                row * gh + bottom_offset(gh, g.height as int),
                g.width as int,
                g.height as int,
                g.coverage@,
            )
        }
    }
}

pub proof fn lemma_atlas_len(gw: int, gh: int, glyphs: Seq<GlyphBitmap>, k: nat)
    requires
        gw >= 0,
        gh >= 0,
    ensures
        atlas_after(gw, gh, glyphs, k).len() == (ATLAS_COLUMNS * gw) * (ATLAS_ROWS * gh),
    decreases k,
{
    assert((ATLAS_COLUMNS * gw) * (ATLAS_ROWS * gh) >= 0) by (nonlinear_arith)
        requires
            gw >= 0,
            gh >= 0,
    ;
    if k > 0 {
        lemma_atlas_len(gw, gh, glyphs, (k - 1) as nat);
    }
}

/// Atlas index of a character: its code truncated to a byte and clamped to
/// the printable range, counted from the space.
pub open spec fn char_index(ch: char) -> int {
    let b = (ch as u32) % 256;
    let c = if b < FIRST_CHAR {
        FIRST_CHAR as int
    } else if b > LAST_CHAR {
        LAST_CHAR as int
    } else {
        b as int
    };
    c - FIRST_CHAR
}

/// Every printable ASCII character has its own cell, in code order from the
/// space: character `ch` sits at column `(ch - 32) % 16`, row
/// `(ch - 32) / 16`, the cell where the atlas draws `glyphs[ch - 33]` (or
/// the filled space). Codes below the space read as the space and codes
/// past `~` (after truncation to a byte) as `~`.
pub proof fn lemma_char_cells(ch: char)
    ensures
        32 <= (ch as u32) <= 126 ==> {
            &&& char_index(ch) == ch as u32 - 32
            &&& cell_of(char_index(ch)) == (((ch as u32 - 32) % 16) as int, ((ch as u32 - 32) / 16) as int)
        },
        (ch as u32) % 256 < 32 ==> char_index(ch) == 0,
        (ch as u32) % 256 > 126 ==> char_index(ch) == 94,
        0 <= char_index(ch) < CHAR_COUNT,
{
    if 32 <= (ch as u32) <= 126 {
        vstd::arithmetic::div_mod::lemma_small_mod(ch as u32 as nat, 256);
    }
}

/// Glyph dimensions the atlas accepts: positive cells whose atlas fits in
/// `u32` pixels, with room to address every glyph pixel.
pub open spec fn atlas_dims_ok(gw: int, gh: int) -> bool {
    &&& 1 <= gw
    &&& 1 <= gh
    &&& (ATLAS_COLUMNS * gw) * (ATLAS_ROWS * gh) <= u32::MAX
}

pub open spec fn glyphs_ok(gw: int, gh: int, glyphs: Seq<GlyphBitmap>) -> bool {
    &&& glyphs.len() == CHAR_COUNT - 1
    &&& forall|k: int|
        0 <= k < glyphs.len() ==> {
            &&& bitmap_wf(#[trigger] glyphs[k])
            &&& glyphs[k].coverage@.len() <= u32::MAX
            &&& ATLAS_COLUMNS * gw + glyphs[k].width <= u32::MAX
            &&& ATLAS_ROWS * gh + gh + glyphs[k].height <= u32::MAX
        }
}

/// A monochrome atlas of the printable ASCII glyphs.
pub struct GlyphAtlas {
    pub glyph_width: u32,
    pub glyph_height: u32,
    pub atlas_columns: u32,
    pub atlas_width: u32,
    pub atlas_height: u32,
    pub pixels: Vec<u8>,
}

/// Draws `g` into the `aw` x `ah` image `pixels` at `(ox, oy)`, skipping
/// pixels that fall outside the image.
fn blit(pixels: &mut Vec<u8>, aw: u32, ah: u32, ox: u32, oy: u32, g: &GlyphBitmap)
    requires
        old(pixels)@.len() == aw * ah,
        aw * ah <= u32::MAX,
        aw > 0,
        bitmap_wf(*g),
        g.coverage@.len() <= u32::MAX,
        ox + g.width <= u32::MAX,
        oy + g.height <= u32::MAX,
    ensures
        final(pixels)@ == painted(
            old(pixels)@,
            aw as int,
            ox as int,
            oy as int,
            g.width as int,
            g.height as int,
            g.coverage@,
        ),
{
    let ghost p0 = pixels@;
    let ghost target = painted(p0, aw as int, ox as int, oy as int, g.width as int, g.height as int, g.coverage@);
    let ghost n = (aw * ah) as int;
    let w = g.width as u32;
    let h = g.height as u32;
    proof {
        assert(g.width <= u32::MAX) by (nonlinear_arith)
            requires
                ox + g.width <= u32::MAX,
                ox >= 0,
        ;
    }
    let mut y: u32 = 0;
    while y < h
        invariant
            pixels@.len() == n,
            p0.len() == n,
            n == aw * ah,
            aw * ah <= u32::MAX,
            aw > 0,
            w == g.width,
            h == g.height,
            bitmap_wf(*g),
            g.coverage@.len() <= u32::MAX,
            ox + w <= u32::MAX,
            oy + h <= u32::MAX,
            y <= h,
            target == painted(p0, aw as int, ox as int, oy as int, w as int, h as int, g.coverage@),
            forall|i: int|
                0 <= i < n ==> #[trigger] pixels@[i] == if (ox <= i % (aw as int) < ox + w && oy
                    <= i / (aw as int) < oy + y) {
                    target[i]
                } else {
                    p0[i]
                },
        decreases h - y,
    {
        let mut x: u32 = 0;
        while x < w
            invariant
                pixels@.len() == n,
                p0.len() == n,
                n == aw * ah,
                aw * ah <= u32::MAX,
                aw > 0,
                w == g.width,
                h == g.height,
                bitmap_wf(*g),
                g.coverage@.len() <= u32::MAX,
                ox + w <= u32::MAX,
                oy + h <= u32::MAX,
                y < h,
                x <= w,
                target == painted(p0, aw as int, ox as int, oy as int, w as int, h as int, g.coverage@),
                forall|i: int|
                    0 <= i < n ==> #[trigger] pixels@[i] == if (ox <= i % (aw as int) < ox + w
                        && oy <= i / (aw as int) < oy + y) || (ox <= i % (aw as int) < ox + x && i
                        / (aw as int) == oy + y) {
                        target[i]
                    } else {
                        p0[i]
                    },
            decreases w - x,
        {
            proof {
                lemma_index_bounds(x as int, y as int, w as int, h as int);
            }
            let src = (y * w + x) as usize;
            let dst_x = ox + x;
            let dst_y = oy + y;
            if dst_x < aw && dst_y < ah {
                proof {
                    lemma_index_bounds(dst_x as int, dst_y as int, aw as int, ah as int);
                }
                let di = (dst_y * aw + dst_x) as usize;
                pixels.set(di, g.coverage[src]);
                proof {
                    assert forall|i: int| 0 <= i < n implies #[trigger] pixels@[i] == if (ox <= i
                        % (aw as int) < ox + w && oy <= i / (aw as int) < oy + y) || (ox <= i % (
                    aw as int) < ox + x + 1 && i / (aw as int) == oy + y) {
                        target[i]
                    } else {
                        p0[i]
                    } by {
                        lemma_index_split(i, aw as int, ah as int);
                        if i != di {
                            if i % (aw as int) == dst_x && i / (aw as int) == dst_y {
                                assert(i == dst_y * aw + dst_x);
                            }
                        } else {
                            assert((i / (aw as int) - oy) * w + (i % (aw as int) - ox) == src);
                            assert(target[i] == g.coverage@[src as int]);
                        }
                    }
                }
            } else {
                proof {
                    assert forall|i: int| 0 <= i < n implies #[trigger] pixels@[i] == if (ox <= i
                        % (aw as int) < ox + w && oy <= i / (aw as int) < oy + y) || (ox <= i % (
                    aw as int) < ox + x + 1 && i / (aw as int) == oy + y) {
                        target[i]
                    } else {
                        p0[i]
                    } by {
                        lemma_index_split(i, aw as int, ah as int);
                        assert(!(i % (aw as int) == ox + x && i / (aw as int) == oy + y));
                    }
                }
            }
            x = x + 1;
        }
        y = y + 1;
    }
    proof {
        assert(pixels@ =~= target) by {
            assert forall|i: int| 0 <= i < n implies #[trigger] pixels@[i] == target[i] by {
                lemma_index_split(i, aw as int, ah as int);
            }
        }
    }
}

impl GlyphAtlas {
    /// Builds the atlas from `glyph_width` x `glyph_height` cells and the
    /// bitmaps of the characters after the space (`glyphs[k]` is character
    /// `33 + k`).
    pub fn new(glyph_width: u32, glyph_height: u32, glyphs: &Vec<GlyphBitmap>) -> (a: GlyphAtlas)
        requires
            atlas_dims_ok(glyph_width as int, glyph_height as int),
            glyphs_ok(glyph_width as int, glyph_height as int, glyphs@),
        ensures
            a.glyph_width == glyph_width,
            a.glyph_height == glyph_height,
            a.atlas_columns == ATLAS_COLUMNS,
            a.atlas_width == ATLAS_COLUMNS * glyph_width,
            a.atlas_height == ATLAS_ROWS * glyph_height,
            a.pixels@ == atlas_after(
                glyph_width as int,
                glyph_height as int,
                glyphs@,
                CHAR_COUNT as nat,
            ),
    {
        let gw = glyph_width;
        let gh = glyph_height;
        let rows = (CHAR_COUNT + ATLAS_COLUMNS - 1) / ATLAS_COLUMNS;
        assert(rows == ATLAS_ROWS);
        proof {
            assert(gw * gh <= (ATLAS_COLUMNS * gw) * (ATLAS_ROWS * gh)) by (nonlinear_arith)
                requires
                    1 <= gw,
                    1 <= gh,
            ;
            assert(ATLAS_COLUMNS * gw <= (ATLAS_COLUMNS * gw) * (ATLAS_ROWS * gh)) by (nonlinear_arith)
                requires
                    1 <= gh,
            ;
            assert(ATLAS_ROWS * gh <= (ATLAS_COLUMNS * gw) * (ATLAS_ROWS * gh)) by (nonlinear_arith)
                requires
                    1 <= gw,
            ;
        }
        let aw = ATLAS_COLUMNS * gw;
        let ah = rows * gh;
        let n = (aw * ah) as usize;
        let mut pixels: Vec<u8> = Vec::new();
        while pixels.len() < n
            invariant
                pixels@.len() <= n,
                forall|k: int| 0 <= k < pixels@.len() ==> #[trigger] pixels@[k] == 0u8,
            decreases n - pixels@.len(),
        {
            pixels.push(0);
        }
        assert(pixels@ =~= atlas_after(gw as int, gh as int, glyphs@, 0));
        let cell = (gw * gh) as usize;
        let mut solid_cov: Vec<u8> = Vec::new();
        while solid_cov.len() < cell
            invariant
                solid_cov@.len() <= cell,
                forall|k: int| 0 <= k < solid_cov@.len() ==> #[trigger] solid_cov@[k] == 255u8,
            decreases cell - solid_cov@.len(),
        {
            solid_cov.push(255);
        }
        let solid = GlyphBitmap { width: gw as usize, height: gh as usize, coverage: solid_cov };
        assert(solid.coverage@ =~= Seq::new((gw * gh) as nat, |i: int| 255u8));
        let mut c: u8 = FIRST_CHAR;
        while c <= LAST_CHAR
            invariant
                FIRST_CHAR <= c <= LAST_CHAR + 1,
                gw == glyph_width,
                gh == glyph_height,
                atlas_dims_ok(gw as int, gh as int),
                glyphs_ok(gw as int, gh as int, glyphs@),
                aw == ATLAS_COLUMNS * gw,
                ah == ATLAS_ROWS * gh,
                aw * ah <= u32::MAX,
                gw * gh <= u32::MAX,
                aw >= gw,
                solid.width == gw,
                solid.height == gh,
                solid.coverage@ == Seq::new((gw * gh) as nat, |i: int| 255u8),
                pixels@ == atlas_after(gw as int, gh as int, glyphs@, (c - FIRST_CHAR) as nat),
            decreases LAST_CHAR + 1 - c,
        {
            proof {
                lemma_atlas_len(gw as int, gh as int, glyphs@, (c - FIRST_CHAR) as nat);
            }
            let idx = (c - FIRST_CHAR) as u32;
            let col = idx % ATLAS_COLUMNS;
            let row = idx / ATLAS_COLUMNS;
            proof {
                assert(col * gw + gw <= ATLAS_COLUMNS * gw) by (nonlinear_arith)
                    requires
                        col < ATLAS_COLUMNS,
                ;
                assert(row * gh + gh <= ATLAS_ROWS * gh) by (nonlinear_arith)
                    requires
                        row < ATLAS_ROWS,
                ;
            }
            let origin_x = col * gw;
            let origin_y = row * gh;
            if c == FIRST_CHAR {
                blit(&mut pixels, aw, ah, origin_x, origin_y, &solid);
            } else {
                let g = &glyphs[(idx - 1) as usize];
                let offset_y = gh.saturating_sub(g.height as u32);
                blit(&mut pixels, aw, ah, origin_x, origin_y + offset_y, g);
            }
            c = c + 1;
        }
        GlyphAtlas {
            glyph_width: gw,
            glyph_height: gh,
            atlas_columns: ATLAS_COLUMNS,
            atlas_width: aw,
            atlas_height: ah,
            pixels,
        }
    }

    /// Pixel origin of the cell holding `ch` (characters outside the
    /// printable range map to the nearest end after byte truncation).
    pub fn glyph_origin(&self, ch: char) -> (r: (u32, u32))
        requires
            self.atlas_columns == ATLAS_COLUMNS,
            atlas_dims_ok(self.glyph_width as int, self.glyph_height as int),
        ensures
            r.0 == cell_of(char_index(ch)).0 * self.glyph_width,
            r.1 == cell_of(char_index(ch)).1 * self.glyph_height,
            32 <= (ch as u32) <= 126 ==> r.0 == ((ch as u32 - 32) % 16) * self.glyph_width && r.1
                == ((ch as u32 - 32) / 16) * self.glyph_height,
    {
        proof {
            lemma_char_cells(ch);
        }
        let b = ((ch as u32) % 256) as u8;
        let c = if b < FIRST_CHAR {
            FIRST_CHAR
        } else if b > LAST_CHAR {
            LAST_CHAR
        } else {
            b
        };
        let idx = (c - FIRST_CHAR) as u32;
        let col = idx % self.atlas_columns;
        let row = idx / self.atlas_columns;
        proof {
            assert(col * self.glyph_width <= ATLAS_COLUMNS * self.glyph_width) by (nonlinear_arith)
                requires
                    col < ATLAS_COLUMNS,
            ;
            assert(row * self.glyph_height <= ATLAS_ROWS * self.glyph_height) by (nonlinear_arith)
                requires
                    row < ATLAS_ROWS,
            ;
            assert(ATLAS_COLUMNS * self.glyph_width <= (ATLAS_COLUMNS * self.glyph_width) * (
            ATLAS_ROWS * self.glyph_height)) by (nonlinear_arith)
                requires
                    1 <= self.glyph_height,
            ;
            assert(ATLAS_ROWS * self.glyph_height <= (ATLAS_COLUMNS * self.glyph_width) * (
            ATLAS_ROWS * self.glyph_height)) by (nonlinear_arith)
                requires
                    1 <= self.glyph_width,
            ;
        }
        (col * self.glyph_width, row * self.glyph_height)
    }
}

} // verus!
