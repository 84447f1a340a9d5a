use milkdrop_pi::atlas::{GlyphAtlas, GlyphBitmap, ATLAS_COLUMNS, CHAR_COUNT};

fn empty_glyphs() -> Vec<GlyphBitmap> {
    (0..CHAR_COUNT - 1)
        .map(|_| GlyphBitmap { width: 0, height: 0, coverage: Vec::new() })
        .collect()
}

#[test]
fn atlas_dimensions_and_space_cell() {
    let atlas = GlyphAtlas::new(2, 3, &empty_glyphs());
    assert_eq!(atlas.atlas_columns, ATLAS_COLUMNS);
    assert_eq!(atlas.atlas_width, 32);
    assert_eq!(atlas.atlas_height, 18);
    assert_eq!(atlas.pixels.len(), 32 * 18);
    for y in 0..18 {
        for x in 0..32 {
            let expect = if x < 2 && y < 3 { 255 } else { 0 };
            assert_eq!(atlas.pixels[y * 32 + x], expect, "pixel {x},{y}");
        }
    }
}

#[test]
fn glyphs_are_bottom_aligned_in_their_cells() {
    let mut glyphs = empty_glyphs();
    // 'A' is character 65: atlas index 33, column 1, row 2.
    glyphs[65 - 33] = GlyphBitmap { width: 2, height: 2, coverage: vec![1, 2, 3, 4] };
    let atlas = GlyphAtlas::new(3, 4, &glyphs);
    let aw = atlas.atlas_width as usize;
    let ox = 3;
    let oy = 2 * 4 + 2;
    assert_eq!(atlas.pixels[oy * aw + ox], 1);
    assert_eq!(atlas.pixels[oy * aw + ox + 1], 2);
    assert_eq!(atlas.pixels[(oy + 1) * aw + ox], 3);
    assert_eq!(atlas.pixels[(oy + 1) * aw + ox + 1], 4);
    assert_eq!(atlas.pixels[(oy - 1) * aw + ox], 0);
    assert_eq!(atlas.pixels.iter().filter(|&&p| p != 0 && p != 255).count(), 4);
}

#[test]
fn oversized_glyph_is_clipped_to_atlas() {
    let mut glyphs = empty_glyphs();
    // '/' (47) sits in the last column of the first row.
    glyphs[47 - 33] = GlyphBitmap { width: 3, height: 1, coverage: vec![7, 8, 9] };
    let atlas = GlyphAtlas::new(2, 2, &glyphs);
    let aw = atlas.atlas_width as usize;
    let row = 1;
    assert_eq!(atlas.pixels[row * aw + 30], 7);
    assert_eq!(atlas.pixels[row * aw + 31], 8);
    assert_eq!(atlas.pixels.iter().filter(|&&p| p == 9).count(), 0);
}

#[test]
fn glyph_origin_clamps_and_truncates() {
    let atlas = GlyphAtlas::new(10, 20, &empty_glyphs());
    assert_eq!(atlas.glyph_origin(' '), (0, 0));
    assert_eq!(atlas.glyph_origin('A'), (10, 40));
    assert_eq!(atlas.glyph_origin('~'), (140, 100));
    assert_eq!(atlas.glyph_origin('\n'), (0, 0));
    // U+0141 truncates to 0x41 = 'A'.
    assert_eq!(atlas.glyph_origin('\u{141}'), (10, 40));
    // U+00FF truncates to 255, clamped to '~'.
    assert_eq!(atlas.glyph_origin('\u{ff}'), (140, 100));
}
