use text_overlay::codec::{decode, encode_png};
use text_overlay::composite::{blend, blend_layer, composite, tint};
use text_overlay::dilate::dilate;
use text_overlay::error::{ConfigError, ConversionError};
use text_overlay::glyph::{pen_positions, plot_glyph, rasterize, GlyphRaster, TextRun};
use text_overlay::pipeline::{compose, render, text_placement, Anchor, Style, TextPlacement, TextScale};
use text_overlay::raster::{CoverageMask, RasterImage, Rgba};

const WHITE: Rgba = Rgba { r: 255, g: 255, b: 255, a: 255 };
const RED: Rgba = Rgba { r: 255, g: 0, b: 0, a: 255 };
const BLACK: Rgba = Rgba { r: 0, g: 0, b: 0, a: 255 };

fn mask(width: u32, height: u32, values: Vec<u8>) -> CoverageMask {
    CoverageMask::from_raw(width, height, values).unwrap()
}

fn block(width: u32, height: u32) -> CoverageMask {
    mask(width, height, vec![255; (width * height) as usize])
}

fn glyph(left: i32, top: i32, advance_px: u32, m: CoverageMask) -> GlyphRaster {
    GlyphRaster { left, top, advance: advance_px * 64, mask: m }
}

fn style(radius: u32) -> Style {
    Style::caption(RED, BLACK, radius)
}

/// A stand-in for "Hi": an H built of two stems and a bar, an i as a dot over a stem.
fn hi_run() -> TextRun {
    let mut h = vec![0u8; 12 * 14];
    for y in 0..14 {
        for x in 0..12 {
            if x < 3 || x >= 9 || (6..9).contains(&y) {
                h[y * 12 + x] = 255;
            }
        }
    }
    let mut i = vec![0u8; 3 * 14];
    for y in 0..14 {
        if y < 3 || y >= 5 {
            for x in 0..3 {
                i[y * 3 + x] = 255;
            }
        }
    }
    TextRun {
        pen_x: 10,
        pen_y: 30,
        glyphs: vec![glyph(0, -14, 16, mask(12, 14, h)), glyph(0, -14, 6, mask(3, 14, i))],
    }
}

#[test]
fn caption_on_white_canvas() {
    let mut canvas = RasterImage::filled(100, 100, WHITE).unwrap();
    let run = hi_run();
    compose(&mut canvas, &run, &style(2)).unwrap();
    assert_eq!((canvas.width, canvas.height), (100, 100));
    // Inside the H's left stem and the i's stem: pure fill.
    assert_eq!(canvas.pixel(11, 20), RED);
    assert_eq!(canvas.pixel(27, 25), RED);
    // One and two pixels left of the H: inside the halo, outline color.
    assert_eq!(canvas.pixel(9, 20), BLACK);
    assert_eq!(canvas.pixel(8, 20), BLACK);
    // Between the H's stems above the bar: within 2 pixels of a stem, halo.
    assert_eq!(canvas.pixel(14, 18), BLACK);
    // Three pixels from any glyph: untouched.
    assert_eq!(canvas.pixel(7, 20), WHITE);
    assert_eq!(canvas.pixel(15, 13), WHITE);
    assert_eq!(canvas.pixel(50, 50), WHITE);
    let png = encode_png(&canvas).unwrap();
    let back = decode(&png).unwrap();
    assert_eq!((back.width, back.height), (100, 100));
    assert_eq!(back.pixels, canvas.pixels);
}

#[test]
fn render_keeps_dimensions() {
    let canvas = RasterImage::filled(37, 23, WHITE).unwrap();
    let png = render(canvas, &hi_run(), &style(3)).unwrap();
    let back = decode(&png).unwrap();
    assert_eq!((back.width, back.height), (37, 23));
}

#[test]
fn empty_text_gives_background_alone() {
    let mut canvas = RasterImage::filled(20, 10, Rgba { r: 12, g: 200, b: 99, a: 180 }).unwrap();
    canvas.pixels[5] = 7;
    let expected = encode_png(&canvas).unwrap();
    let run = TextRun { pen_x: 2, pen_y: 5, glyphs: vec![] };
    let png = render(canvas.clone(), &run, &style(4)).unwrap();
    assert_eq!(png, expected);
    let back = decode(&png).unwrap();
    assert_eq!(back.pixels, canvas.pixels);
}

#[test]
fn zero_radius_draws_fill_only() {
    let mut canvas = RasterImage::filled(40, 40, WHITE).unwrap();
    let mut run = hi_run();
    run.glyphs[0].mask.values[0] = 128;
    compose(&mut canvas, &run, &style(0)).unwrap();
    let cov = rasterize(&run, 40, 40).unwrap();
    let mut expected = RasterImage::filled(40, 40, WHITE).unwrap();
    blend_layer(&mut expected, &tint(&cov, RED));
    assert_eq!(canvas.pixels, expected.pixels);
    assert_eq!(canvas.pixel(10, 16), Rgba { r: 255, g: 127, b: 127, a: 255 });
}

#[test]
fn malformed_bytes_fail_to_decode() {
    let r = decode(&b"definitely not an image".to_vec());
    assert!(matches!(r, Err(ConversionError::Image(_))));
    let r = decode(&vec![]);
    assert!(matches!(r, Err(ConversionError::Image(_))));
}

#[test]
fn encode_then_decode_round_trips() {
    let img = RasterImage::from_raw(2, 1, vec![1, 2, 3, 4, 250, 251, 252, 253]).unwrap();
    let png = encode_png(&img).unwrap();
    assert_eq!(&png[1..4], b"PNG");
    let back = decode(&png).unwrap();
    assert_eq!((back.width, back.height), (2, 1));
    assert_eq!(back.pixels, img.pixels);
}

#[test]
fn placement_scales_with_canvas() {
    let p = text_placement(800, 600, &style(2)).unwrap();
    assert_eq!(p, TextPlacement { scale_x: 80, scale_y: 60, pen_x: 80, pen_y: 60 });
    let s = Style { scale: TextScale::Pixels(96), anchor: Anchor::Pixels(50, 100), ..style(2) };
    let p = text_placement(800, 600, &s).unwrap();
    assert_eq!(p, TextPlacement { scale_x: 96, scale_y: 96, pen_x: 50, pen_y: 100 });
}

#[test]
fn zero_scale_is_refused() {
    let s = Style { scale: TextScale::Pixels(0), ..style(2) };
    let r = text_placement(800, 600, &s);
    assert!(matches!(r, Err(ConversionError::Config(ConfigError::ScaleNotPositive))));
    let s = Style { scale: TextScale::PerMille(1), ..style(2) };
    let r = text_placement(999, 600, &s);
    assert!(matches!(r, Err(ConversionError::Config(ConfigError::ScaleNotPositive))));
}

#[test]
fn far_anchor_is_refused() {
    let s = Style { anchor: Anchor::InsetPerMille(u32::MAX), ..style(2) };
    let r = text_placement(u32::MAX, 10, &s);
    assert!(matches!(r, Err(ConversionError::Config(ConfigError::AnchorOutOfRange))));
}

#[test]
fn pen_moves_right_by_each_advance() {
    let run = TextRun {
        pen_x: 5,
        pen_y: 0,
        glyphs: vec![
            GlyphRaster { left: 0, top: 0, advance: 1, mask: block(0, 0) },
            GlyphRaster { left: 0, top: 0, advance: 100, mask: block(0, 0) },
            GlyphRaster { left: 0, top: 0, advance: 7, mask: block(0, 0) },
        ],
    };
    let pens = pen_positions(&run).unwrap();
    assert_eq!(pens, vec![320, 321, 421, 428]);
    assert!(pens[3] > pens[0]);
}

#[test]
fn pen_rounds_to_nearest_pixel() {
    // 31/64 px rounds down, 32/64 px rounds up.
    for (advance, expected_x) in [(31u32, 0usize), (32, 1)] {
        let run = TextRun {
            pen_x: 0,
            pen_y: 0,
            glyphs: vec![
                GlyphRaster { left: 0, top: 0, advance, mask: block(0, 0) },
                GlyphRaster { left: 0, top: 0, advance: 64, mask: block(1, 1) },
            ],
        };
        let cov = rasterize(&run, 3, 1).unwrap();
        let mut want = vec![0u8; 3];
        want[expected_x] = 255;
        assert_eq!(cov.values, want);
    }
}

#[test]
fn overlapping_glyphs_keep_the_larger_coverage() {
    let run = TextRun {
        pen_x: 0,
        pen_y: 1,
        glyphs: vec![
            glyph(0, -1, 1, mask(2, 1, vec![100, 200])),
            glyph(0, -1, 0, mask(2, 1, vec![150, 50])),
        ],
    };
    let cov = rasterize(&run, 4, 1).unwrap();
    assert_eq!(cov.values, vec![100, 200, 50, 0]);
}

#[test]
fn glyph_cells_off_canvas_are_dropped() {
    let mut cov = CoverageMask::empty(3, 2);
    let g = mask(3, 3, vec![1, 2, 3, 4, 5, 6, 7, 8, 9]);
    plot_glyph(&mut cov, &g, -1, -1);
    assert_eq!(cov.values, vec![5, 6, 0, 8, 9, 0]);
    plot_glyph(&mut cov, &g, 2, 1);
    assert_eq!(cov.values, vec![5, 6, 0, 8, 9, 1]);
    plot_glyph(&mut cov, &g, 40, -40);
    assert_eq!(cov.values, vec![5, 6, 0, 8, 9, 1]);
}

#[test]
fn dilation_takes_square_maximum() {
    let m = mask(5, 4, vec![
        0, 0, 0, 0, 0, //
        0, 0, 9, 0, 0, //
        0, 0, 0, 0, 0, //
        4, 0, 0, 0, 0,
    ]);
    let d = dilate(&m, 1);
    assert_eq!(d.values, vec![
        0, 9, 9, 9, 0, //
        0, 9, 9, 9, 0, //
        4, 9, 9, 9, 0, //
        4, 4, 0, 0, 0,
    ]);
    assert_eq!(dilate(&m, 0).values, m.values);
}

#[test]
fn dilation_footprint_grows_with_radius() {
    let m = mask(7, 6, vec![
        0, 0, 0, 0, 0, 0, 0, //
        0, 3, 0, 0, 0, 0, 0, //
        0, 0, 0, 0, 0, 0, 0, //
        0, 0, 0, 0, 0, 0, 0, //
        0, 0, 0, 0, 0, 8, 0, //
        0, 0, 0, 0, 0, 0, 0,
    ]);
    let small = dilate(&m, 1);
    let large = dilate(&m, 2);
    let mut grew = false;
    for i in 0..small.values.len() {
        if small.values[i] > 0 {
            assert!(large.values[i] > 0);
        }
        grew |= small.values[i] == 0 && large.values[i] > 0;
    }
    assert!(grew);
}

#[test]
fn dilating_twice_equals_dilating_by_double() {
    let mut values = vec![0u8; 9 * 8];
    values[0] = 17;
    values[4 * 9 + 5] = 200;
    values[7 * 9 + 8] = 90;
    values[2 * 9 + 7] = 40;
    let m = mask(9, 8, values);
    for r in 0..4 {
        let twice = dilate(&dilate(&m, r), r);
        let once = dilate(&m, 2 * r);
        assert_eq!(twice.values, once.values);
    }
}

#[test]
fn blend_exact_values() {
    let half_red = Rgba { r: 255, g: 0, b: 0, a: 128 };
    assert_eq!(blend(half_red, WHITE), Rgba { r: 255, g: 127, b: 127, a: 255 });
    let src = Rgba { r: 10, g: 20, b: 30, a: 100 };
    let clear = Rgba { r: 0, g: 0, b: 0, a: 0 };
    assert_eq!(blend(src, clear), src);
    assert_eq!(blend(RED, Rgba { r: 1, g: 2, b: 3, a: 4 }), RED);
    // Half over half: alpha 0.5 + 0.25.
    let half_blue = Rgba { r: 0, g: 0, b: 255, a: 128 };
    assert_eq!(blend(half_red, half_blue), Rgba { r: 170, g: 0, b: 85, a: 192 });
}

#[test]
fn transparent_layer_leaves_background() {
    let mut canvas = RasterImage::from_raw(2, 2, (0..16).map(|i| i * 13).collect()).unwrap();
    let before = canvas.pixels.clone();
    let layer = RasterImage::filled(2, 2, Rgba { r: 250, g: 1, b: 77, a: 0 }).unwrap();
    composite(&mut canvas, &vec![layer]).unwrap();
    assert_eq!(canvas.pixels, before);
    for d in [Rgba { r: 9, g: 8, b: 7, a: 0 }, Rgba { r: 9, g: 8, b: 7, a: 1 }, WHITE] {
        assert_eq!(blend(Rgba { r: 1, g: 2, b: 3, a: 0 }, d), d);
    }
}

#[test]
fn composite_goes_bottom_to_top() {
    let mut canvas = RasterImage::filled(1, 1, WHITE).unwrap();
    let layers = vec![RasterImage::filled(1, 1, BLACK).unwrap(), RasterImage::filled(1, 1, RED).unwrap()];
    composite(&mut canvas, &layers).unwrap();
    assert_eq!(canvas.pixel(0, 0), RED);
}

#[test]
fn mismatched_layer_is_refused_before_blending() {
    let mut canvas = RasterImage::filled(2, 2, WHITE).unwrap();
    let layers = vec![RasterImage::filled(2, 2, BLACK).unwrap(), RasterImage::filled(2, 1, RED).unwrap()];
    let r = composite(&mut canvas, &layers);
    assert!(matches!(r, Err(ConversionError::Config(ConfigError::LayerSizeMismatch))));
    assert_eq!(canvas.pixels, RasterImage::filled(2, 2, WHITE).unwrap().pixels);
}

#[test]
fn tint_scales_alpha_by_coverage() {
    let m = mask(3, 1, vec![0, 128, 255]);
    let t = tint(&m, Rgba { r: 1, g: 2, b: 3, a: 128 });
    assert_eq!(t.pixels, vec![1, 2, 3, 0, 1, 2, 3, 64, 1, 2, 3, 128]);
}

#[test]
fn raw_buffers_must_match_dimensions() {
    assert!(RasterImage::from_raw(2, 2, vec![0; 15]).is_none());
    assert!(RasterImage::from_raw(0, 2, vec![]).is_none());
    assert!(CoverageMask::from_raw(2, 3, vec![0; 5]).is_none());
    assert!(RasterImage::filled(0, 5, WHITE).is_none());
}
