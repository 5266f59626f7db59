use renzora_plugins::terminal::grid::{indexed, mix, row_runs, Cell, Color, Rgb, RowOverlay};

const FG: Rgb = Rgb { r: 200, g: 200, b: 200 };
const BG: Rgb = Rgb { r: 10, g: 10, b: 10 };
const SEL: Rgb = Rgb { r: 50, g: 60, b: 70 };

fn cell(text: &str) -> Option<Cell> {
    Some(Cell {
        contents: text.to_string(),
        wide: false,
        wide_continuation: false,
        fgcolor: Color::Default,
        bgcolor: Color::Default,
        bold: false,
        dim: false,
        underline: false,
        inverse: false,
    })
}

fn no_overlay() -> RowOverlay {
    RowOverlay { cursor: None, cursor_solid: false, selection: None }
}

fn texts(cells: &Vec<Option<Cell>>, cols: u16, overlay: RowOverlay) -> Vec<String> {
    row_runs(cells, cols, overlay, FG, BG, SEL).0.into_iter().map(|r| r.text).collect()
}

/// The float blend the panel used to compute, `round(x + (y - x) * t)`.
fn float_lerp(x: u8, y: u8, t: f32) -> u8 {
    (x as f32 + (y as f32 - x as f32) * t).round().clamp(0.0, 255.0) as u8
}

#[test]
fn the_integer_blend_matches_the_float_one_everywhere() {
    for (weight, t) in [(45u32, 0.45f32), (35u32, 0.35f32)] {
        for x in 0..=255u8 {
            for y in 0..=255u8 {
                let c = mix(Rgb { r: x, g: y, b: x }, Rgb { r: y, g: x, b: y }, weight);
                assert_eq!(c.r, float_lerp(x, y, t), "{x} -> {y} at {t}");
                assert_eq!(c.g, float_lerp(y, x, t), "{y} -> {x} at {t}");
            }
        }
    }
}

#[test]
fn the_palette_has_its_three_parts() {
    assert_eq!(indexed(1), Rgb { r: 205, g: 49, b: 49 });
    assert_eq!(indexed(15), Rgb { r: 255, g: 255, b: 255 });
    assert_eq!(indexed(16), Rgb { r: 0, g: 0, b: 0 });
    assert_eq!(indexed(21), Rgb { r: 0, g: 0, b: 255 });
    assert_eq!(indexed(196), Rgb { r: 255, g: 0, b: 0 });
    assert_eq!(indexed(231), Rgb { r: 255, g: 255, b: 255 });
    assert_eq!(indexed(232), Rgb { r: 8, g: 8, b: 8 });
    assert_eq!(indexed(255), Rgb { r: 238, g: 238, b: 238 });
}

#[test]
fn one_style_is_one_run_and_trailing_blanks_are_dropped() {
    // Blanks of the same style extend the run they follow.
    let cells = vec![cell("l"), cell("s"), cell(""), None];
    assert_eq!(texts(&cells, 5, no_overlay()), vec!["ls   ".to_string()]);
    // A run of default blanks after a styled one draws nothing and is dropped.
    let mut red = cell("x");
    if let Some(c) = red.as_mut() {
        c.fgcolor = Color::Idx(1);
    }
    let cells = vec![red, cell(""), cell("")];
    assert_eq!(texts(&cells, 80, no_overlay()), vec!["x".to_string()]);
    let empty: Vec<Option<Cell>> = Vec::new();
    assert!(texts(&empty, 80, no_overlay()).is_empty());
}

#[test]
fn a_style_change_starts_a_run() {
    let mut red = cell("x");
    if let Some(c) = red.as_mut() {
        c.fgcolor = Color::Idx(1);
    }
    let cells = vec![cell("a"), red, cell("b")];
    let (runs, _) = row_runs(&cells, 3, no_overlay(), FG, BG, SEL);
    assert_eq!(runs.len(), 3);
    assert_eq!(runs[1].style.fg, Rgb { r: 205, g: 49, b: 49 });
}

#[test]
fn bold_promotes_the_first_eight_colours() {
    let mut c = cell("x");
    if let Some(x) = c.as_mut() {
        x.fgcolor = Color::Idx(1);
        x.bold = true;
    }
    let (runs, _) = row_runs(&vec![c], 1, no_overlay(), FG, BG, SEL);
    assert_eq!(runs[0].style.fg, Rgb { r: 241, g: 76, b: 76 });
    assert!(runs[0].style.bold);
}

#[test]
fn a_wide_character_takes_two_columns() {
    let mut wide = cell("語");
    if let Some(c) = wide.as_mut() {
        c.wide = true;
    }
    let mut cont = cell("");
    if let Some(c) = cont.as_mut() {
        c.wide_continuation = true;
    }
    let cells = vec![wide, cont, cell("a")];
    assert_eq!(texts(&cells, 3, no_overlay()), vec!["語a".to_string()]);
}

#[test]
fn a_selection_paints_the_background_and_keeps_blanks() {
    let cells = vec![cell("a"), cell("b"), cell(""), cell("")];
    let overlay = RowOverlay { cursor: None, cursor_solid: false, selection: Some((1, 3)) };
    let (runs, _) = row_runs(&cells, 4, overlay, FG, BG, SEL);
    let got: Vec<(String, Option<Rgb>)> = runs.iter().map(|r| (r.text.clone(), r.style.bg)).collect();
    assert_eq!(got, vec![("a".to_string(), None), ("b ".to_string(), Some(SEL))]);
}

#[test]
fn the_cursor_is_a_block_or_a_dim_one() {
    let cells = vec![cell("a")];
    let solid = RowOverlay { cursor: Some(0), cursor_solid: true, selection: None };
    let (runs, _) = row_runs(&cells, 1, solid, FG, BG, SEL);
    assert_eq!(runs[0].style.fg, BG);
    assert_eq!(runs[0].style.bg, Some(FG));
    let hollow = RowOverlay { cursor: Some(0), cursor_solid: false, selection: None };
    let (runs, _) = row_runs(&cells, 1, hollow, FG, BG, SEL);
    assert_eq!(runs[0].style.fg, FG);
    assert_eq!(runs[0].style.bg, Some(mix(BG, FG, 35)));
}

#[test]
fn inverse_swaps_resolved_colours() {
    let mut c = cell("a");
    if let Some(x) = c.as_mut() {
        x.inverse = true;
        x.fgcolor = Color::Rgb(1, 2, 3);
    }
    let (runs, _) = row_runs(&vec![c], 1, no_overlay(), FG, BG, SEL);
    assert_eq!(runs[0].style.fg, BG);
    assert_eq!(runs[0].style.bg, Some(Rgb { r: 1, g: 2, b: 3 }));
}

#[test]
fn dim_blends_towards_the_background() {
    let mut c = cell("a");
    if let Some(x) = c.as_mut() {
        x.dim = true;
    }
    let (runs, _) = row_runs(&vec![c], 1, no_overlay(), FG, BG, SEL);
    assert_eq!(runs[0].style.fg, Rgb { r: 115, g: 115, b: 115 });
}

#[test]
fn the_hash_moves_with_what_is_drawn() {
    let a = row_runs(&vec![cell("a")], 4, no_overlay(), FG, BG, SEL).1;
    let a_again = row_runs(&vec![cell("a"), cell("")], 4, no_overlay(), FG, BG, SEL).1;
    let b = row_runs(&vec![cell("b")], 4, no_overlay(), FG, BG, SEL).1;
    let empty = row_runs(&Vec::new(), 4, no_overlay(), FG, BG, SEL).1;
    assert_eq!(a, a_again, "a blank cell and a missing one draw the same");
    assert_ne!(a, b);
    assert_eq!(empty, 0xcbf2_9ce4_8422_2325, "no runs is the FNV offset basis");
}

#[test]
fn neighbouring_runs_never_share_a_style() {
    let mut u = cell("u");
    if let Some(x) = u.as_mut() {
        x.underline = true;
    }
    let cells = vec![cell("a"), cell("b"), u, cell("c"), cell("d")];
    let (runs, _) = row_runs(&cells, 5, no_overlay(), FG, BG, SEL);
    assert_eq!(runs.len(), 3);
    for w in runs.windows(2) {
        assert_ne!(w[0].style, w[1].style);
    }
}
