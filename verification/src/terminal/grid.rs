//! Turning one row of the emulator's cell grid into the runs the panel draws.
//!
//! A row is flattened into **runs**: maximal stretches of cells sharing one
//! style, one text span each. Each row also comes with a hash of everything it
//! draws, so the panel can rewrite only the rows whose hash moved.
//!
//! The emulator's cells arrive as [`Cell`] values, one per column read; a column
//! past the end of the slice reads as no cell at all.

use vstd::prelude::*;

use crate::text::{bytes_of, push_char, push_str};

verus! {

/// An RGB colour, one byte per channel.
#[derive(Clone, Copy, PartialEq, Eq, Debug, Structural)]
pub struct Rgb {
    pub r: u8,
    pub g: u8,
    pub b: u8,
}

/// A cell colour as the emulator reports it.
#[derive(Clone, Copy, PartialEq, Eq, Debug, Structural)]
pub enum Color {
    Default,
    Idx(u8),
    Rgb(u8, u8, u8),
}

/// One grid cell as the emulator holds it.
pub struct Cell {
    /// The text in the cell; empty for a blank cell.
    pub contents: String,
    /// The cell holds a character two columns wide.
    pub wide: bool,
    /// The cell is the second column of the wide character before it.
    pub wide_continuation: bool,
    pub fgcolor: Color,
    pub bgcolor: Color,
    pub bold: bool,
    pub dim: bool,
    pub underline: bool,
    pub inverse: bool,
}

/// What the panel knows about this row that the emulator does not.
#[derive(Clone, Copy, Default)]
pub struct RowOverlay {
    /// Column of the block cursor, when it is on this row and visible.
    pub cursor: Option<u16>,
    /// Whether the cursor should be drawn solid.
    pub cursor_solid: bool,
    /// `[start, end)` columns covered by the selection on this row.
    pub selection: Option<(u16, u16)>,
}

/// The resolved appearance of one cell. `bg` is `None` for the panel's own
/// background.
#[derive(Clone, Copy, PartialEq, Eq, Debug, Structural)]
pub struct Style {
    pub fg: Rgb,
    pub bg: Option<Rgb>,
    /// Kept in the style so two cells that differ only in boldness do not
    /// merge: bold promotes indexed colours 0-7 to their bright counterparts.
    pub bold: bool,
    pub underline: bool,
}

/// A maximal stretch of cells sharing one style.
pub struct Run {
    pub text: String,
    pub style: Style,
}

/// One drawn piece of a row, or one run: its characters and its style.
pub type Piece = (Seq<char>, Style);

pub open spec fn rgb(r: u8, g: u8, b: u8) -> Rgb {
    Rgb { r, g, b }
}

/// Colours 0-15: the palette VS Code's terminal uses.
pub open spec fn base_palette(i: u8) -> Rgb {
    if i == 0 {
        rgb(0, 0, 0)
    } else if i == 1 {
        rgb(205, 49, 49)
    } else if i == 2 {
        rgb(13, 188, 121)
    } else if i == 3 {
        rgb(229, 229, 16)
    } else if i == 4 {
        rgb(36, 114, 200)
    } else if i == 5 {
        rgb(188, 63, 188)
    } else if i == 6 {
        rgb(17, 168, 205)
    } else if i == 7 {
        rgb(229, 229, 229)
    } else if i == 8 {
        rgb(102, 102, 102)
    } else if i == 9 {
        rgb(241, 76, 76)
    } else if i == 10 {
        rgb(35, 209, 139)
    } else if i == 11 {
        rgb(245, 245, 67)
    } else if i == 12 {
        rgb(59, 142, 234)
    } else if i == 13 {
        rgb(214, 112, 214)
    } else if i == 14 {
        rgb(41, 184, 219)
    } else {
        rgb(255, 255, 255)
    }
}

/// One axis of the 6x6x6 cube: 0, then 95 to 255 in steps of 40.
pub open spec fn cube_level(v: int) -> u8 {
    if v == 0 {
        0
    } else {
        (55 + v * 40) as u8
    }
}

/// The 256-colour palette: a table for 0-15, the 6x6x6 cube for 16-231 and
/// the greyscale ramp for 232-255.
pub open spec fn palette(i: u8) -> Rgb {
    if i < 16 {
        base_palette(i)
    } else if i < 232 {
        let j = i - 16;
        rgb(cube_level(j / 36), cube_level((j / 6) % 6), cube_level(j % 6))
    } else {
        let v = (8 + (i - 232) * 10) as u8;
        rgb(v, v, v)
    }
}

/// One emulator colour as RGB. `bold` promotes an indexed colour 0-7 to its
/// bright counterpart.
pub open spec fn resolved(c: Color, default: Rgb, bold: bool) -> Rgb {
    match c {
        Color::Default => default,
        Color::Rgb(r, g, b) => rgb(r, g, b),
        Color::Idx(i) => palette(
            if bold && i < 8 {
                (i + 8) as u8
            } else {
                i
            },
        ),
    }
}

/// `x + (y - x) * t / 100`, rounded to the nearest integer with halves going
/// up, for a weight `t` in hundredths.
pub open spec fn lerped(x: u8, y: u8, t: int) -> u8 {
    (((100 - t) * x + t * y + 50) / 100) as u8
}

/// Blend `a` towards `b` by `t` hundredths, channel by channel.
pub open spec fn mixed(a: Rgb, b: Rgb, t: int) -> Rgb {
    rgb(lerped(a.r, b.r, t), lerped(a.g, b.g, t), lerped(a.b, b.b, t))
}

pub open spec fn or_rgb(o: Option<Rgb>, d: Rgb) -> Rgb {
    match o {
        Some(c) => c,
        None => d,
    }
}

/// The weight of a dim cell's text towards its background.
pub const DIM_WEIGHT: u32 = 45;

/// The weight of an unfocused cursor block towards the text colour.
pub const CURSOR_WEIGHT: u32 = 35;

/// How one cell is drawn: its own colours with inverse and dim applied, then
/// the selection, then the cursor.
pub open spec fn style_of(
    cell: Option<Cell>,
    col: int,
    overlay: RowOverlay,
    default_fg: Rgb,
    default_bg: Rgb,
    selection_bg: Rgb,
) -> Style {
    let bold = cell matches Some(c) && c.bold;
    let fg0 = match cell {
        Some(c) => resolved(c.fgcolor, default_fg, bold),
        None => default_fg,
    };
    let bg0 = match cell {
        Some(c) => match c.bgcolor {
            Color::Default => None,
            other => Some(resolved(other, default_bg, false)),
        },
        None => None,
    };
    let inverse = cell matches Some(c) && c.inverse;
    let fg1 = if inverse {
        or_rgb(bg0, default_bg)
    } else {
        fg0
    };
    let bg1 = if inverse {
        Some(fg0)
    } else {
        bg0
    };
    let fg2 = if cell matches Some(c) && c.dim {
        mixed(fg1, or_rgb(bg1, default_bg), DIM_WEIGHT as int)
    } else {
        fg1
    };
    let bg2 = if overlay.selection matches Some(s) && s.0 <= col < s.1 {
        Some(selection_bg)
    } else {
        bg1
    };
    let on_cursor = overlay.cursor matches Some(c) && c == col;
    let fg3 = if on_cursor && overlay.cursor_solid {
        or_rgb(bg2, default_bg)
    } else {
        fg2
    };
    let bg3 = if on_cursor {
        if overlay.cursor_solid {
            Some(fg2)
        } else {
            Some(mixed(or_rgb(bg2, default_bg), fg2, CURSOR_WEIGHT as int))
        }
    } else {
        bg2
    };
    Style { fg: fg3, bg: bg3, bold, underline: cell matches Some(c) && c.underline }
}

/// The cell at `col`, or none past the end of the row.
pub open spec fn cell_at(cells: Seq<Option<Cell>>, col: int) -> Option<Cell> {
    if 0 <= col < cells.len() {
        cells[col]
    } else {
        None
    }
}

/// The second column of a wide character: drawn by the cell before it.
pub open spec fn is_continuation(cell: Option<Cell>) -> bool {
    cell matches Some(c) && c.wide_continuation
}

/// Columns the cell covers.
pub open spec fn width_of(cell: Option<Cell>) -> int {
    if cell matches Some(c) && c.wide {
        2
    } else {
        1
    }
}

pub open spec fn spaces(n: int) -> Seq<char> {
    Seq::new(n as nat, |i: int| ' ')
}

/// What a cell draws: its contents, or a space per column when it has none,
/// so the columns after it stay in place.
pub open spec fn text_of(cell: Option<Cell>) -> Seq<char> {
    match cell {
        Some(c) => if c.contents@.len() > 0 {
            c.contents@
        } else {
            spaces(width_of(cell))
        },
        None => spaces(1),
    }
}

/// The pieces of the row from column `col` on: one per cell, skipping the
/// second column of each wide character.
pub open spec fn pieces(
    cells: Seq<Option<Cell>>,
    cols: int,
    col: int,
    overlay: RowOverlay,
    default_fg: Rgb,
    default_bg: Rgb,
    selection_bg: Rgb,
) -> Seq<Piece>
    decreases cols + 2 - col,
{
    if col >= cols {
        Seq::empty()
    } else {
        let cell = cell_at(cells, col);
        if is_continuation(cell) {
            pieces(cells, cols, col + 1, overlay, default_fg, default_bg, selection_bg)
        } else {
            seq![(text_of(cell), style_of(cell, col, overlay, default_fg, default_bg, selection_bg))]
                + pieces(
                cells,
                cols,
                col + width_of(cell),
                overlay,
                default_fg,
                default_bg,
                selection_bg,
            )
        }
    }
}

/// Pieces joined into runs: each piece extends the run before it when the two
/// share a style, and starts a new run otherwise.
pub open spec fn merged(ps: Seq<Piece>) -> Seq<Piece>
    decreases ps.len(),
{
    if ps.len() == 0 {
        Seq::empty()
    } else {
        let rs = merged(ps.drop_last());
        let p = ps.last();
        if rs.len() > 0 && rs.last().1 == p.1 {
            rs.update(rs.len() - 1, (rs.last().0 + p.0, p.1))
        } else {
            rs.push(p)
        }
    }
}

/// A run that draws nothing: default background, and nothing but spaces.
pub open spec fn is_blank(r: Piece) -> bool {
    r.1.bg is None && all_spaces(vstd::utf8::encode_utf8(r.0))
}

/// Every byte is an ASCII space.
pub open spec fn all_spaces(b: Seq<u8>) -> bool {
    forall|i: int| 0 <= i < b.len() ==> b[i] == 32
}

/// The runs without their trailing blank ones.
pub open spec fn trimmed(rs: Seq<Piece>) -> Seq<Piece>
    decreases rs.len(),
{
    if rs.len() > 0 && is_blank(rs.last()) {
        trimmed(rs.drop_last())
    } else {
        rs
    }
}

/// The runs a row draws.
pub open spec fn row_model(
    cells: Seq<Option<Cell>>,
    cols: int,
    overlay: RowOverlay,
    default_fg: Rgb,
    default_bg: Rgb,
    selection_bg: Rgb,
) -> Seq<Piece> {
    trimmed(merged(pieces(cells, cols, 0, overlay, default_fg, default_bg, selection_bg)))
}

pub const FNV_OFFSET: u64 = 0xcbf2_9ce4_8422_2325;

pub const FNV_PRIME: u64 = 0x0000_0100_0000_01b3;

/// The 64-bit FNV-1a hash of `bytes`, continued from `h`.
pub open spec fn fnv_of(h: u64, bytes: Seq<u8>) -> u64
    decreases bytes.len(),
{
    if bytes.len() == 0 {
        h
    } else {
        (fnv_of(h, bytes.drop_last()) ^ (bytes.last() as u64)).wrapping_mul(FNV_PRIME)
    }
}

pub open spec fn rgb_bytes(c: Rgb) -> Seq<u8> {
    seq![c.r, c.g, c.b]
}

pub open spec fn flag(b: bool) -> u8 {
    if b {
        1
    } else {
        0
    }
}

/// The hash continued over one run: its text's bytes, its colours (black for
/// a default background) and its three flags.
pub open spec fn hash_run(h: u64, r: Piece) -> u64 {
    let h1 = fnv_of(h, vstd::utf8::encode_utf8(r.0));
    let h2 = fnv_of(h1, rgb_bytes(r.1.fg));
    let h3 = fnv_of(h2, rgb_bytes(or_rgb(r.1.bg, rgb(0, 0, 0))));
    fnv_of(h3, seq![flag(r.1.bg is Some), flag(r.1.bold), flag(r.1.underline)])
}

/// The hash of a row's runs, in order.
pub open spec fn hash_runs(rs: Seq<Piece>) -> u64
    decreases rs.len(),
{
    if rs.len() == 0 {
        FNV_OFFSET
    } else {
        hash_run(hash_runs(rs.drop_last()), rs.last())
    }
}

/// Runs as pieces: their characters and their style.
pub open spec fn runs_view(rs: Seq<Run>) -> Seq<Piece> {
    rs.map_values(|r: Run| (r.text@, r.style))
}

/// The 256-colour palette entry `i`.
pub fn indexed(i: u8) -> (c: Rgb)
    ensures
        c == palette(i),
{
    if i < 16 {
        match i {
            0 => Rgb { r: 0, g: 0, b: 0 },
            1 => Rgb { r: 205, g: 49, b: 49 },
            2 => Rgb { r: 13, g: 188, b: 121 },
            3 => Rgb { r: 229, g: 229, b: 16 },
            4 => Rgb { r: 36, g: 114, b: 200 },
            5 => Rgb { r: 188, g: 63, b: 188 },
            6 => Rgb { r: 17, g: 168, b: 205 },
            7 => Rgb { r: 229, g: 229, b: 229 },
            8 => Rgb { r: 102, g: 102, b: 102 },
            9 => Rgb { r: 241, g: 76, b: 76 },
            10 => Rgb { r: 35, g: 209, b: 139 },
            11 => Rgb { r: 245, g: 245, b: 67 },
            12 => Rgb { r: 59, g: 142, b: 234 },
            13 => Rgb { r: 214, g: 112, b: 214 },
            14 => Rgb { r: 41, g: 184, b: 219 },
            _ => Rgb { r: 255, g: 255, b: 255 },
        }
    } else if i < 232 {
        let j = i - 16;
        Rgb { r: cube_step(j / 36), g: cube_step((j / 6) % 6), b: cube_step(j % 6) }
    } else {
        let v = 8 + (i - 232) * 10;
        Rgb { r: v, g: v, b: v }
    }
}

fn cube_step(v: u8) -> (s: u8)
    requires
        v < 6,
    ensures
        s == cube_level(v as int),
{
    if v == 0 {
        0
    } else {
        55 + v * 40
    }
}

/// One emulator colour as RGB.
fn resolve(color: Color, default: Rgb, bold: bool) -> (c: Rgb)
    ensures
        c == resolved(color, default, bold),
{
    match color {
        Color::Default => default,
        Color::Rgb(r, g, b) => Rgb { r, g, b },
        Color::Idx(i) => indexed(
            if bold && i < 8 {
                i + 8
            } else {
                i
            },
        ),
    }
}

fn lerp(x: u8, y: u8, t: u32) -> (v: u8)
    requires
        t <= 100,
    ensures
        v == lerped(x, y, t as int),
{
    let xs = x as u32;
    let ys = y as u32;
    proof {
        assert((100 - t) * xs <= (100 - t) * 255) by (nonlinear_arith)
            requires
                xs <= 255,
                t <= 100,
        ;
        assert(t * ys <= t * 255) by (nonlinear_arith)
            requires
                ys <= 255,
        ;
    }
    let v = ((100 - t) * xs + t * ys + 50) / 100;
    v as u8
}

/// Blend `a` towards `b` by `t` hundredths, rounding each channel to the
/// nearest value with halves going up.
pub fn mix(a: Rgb, b: Rgb, t: u32) -> (c: Rgb)
    requires
        t <= 100,
    ensures
        c == mixed(a, b, t as int),
{
    Rgb { r: lerp(a.r, b.r, t), g: lerp(a.g, b.g, t), b: lerp(a.b, b.b, t) }
}

fn or_else(o: Option<Rgb>, d: Rgb) -> (c: Rgb)
    ensures
        c == or_rgb(o, d),
{
    match o {
        Some(c) => c,
        None => d,
    }
}

/// Resolve one cell's colours, applying inverse, dim, the selection and the
/// cursor in that order.
fn cell_style(
    cell: Option<&Cell>,
    col: u16,
    overlay: RowOverlay,
    default_fg: Rgb,
    default_bg: Rgb,
    selection_bg: Rgb,
) -> (s: Style)
    ensures
        s == style_of(
            match cell {
                Some(c) => Some(*c),
                None => None,
            },
            col as int,
            overlay,
            default_fg,
            default_bg,
            selection_bg,
        ),
{
    let (bold, inverse, dim, underline) = match cell {
        Some(c) => (c.bold, c.inverse, c.dim, c.underline),
        None => (false, false, false, false),
    };
    let fg0 = match cell {
        Some(c) => resolve(c.fgcolor, default_fg, bold),
        None => default_fg,
    };
    let bg0 = match cell {
        Some(c) => match c.bgcolor {
            Color::Default => None,
            other => Some(resolve(other, default_bg, false)),
        },
        None => None,
    };
    let mut fg = fg0;
    let mut bg = bg0;
    if inverse {
        fg = or_else(bg0, default_bg);
        bg = Some(fg0);
    }
    if dim {
        fg = mix(fg, or_else(bg, default_bg), DIM_WEIGHT);
    }
    let selected = match overlay.selection {
        Some((start, end)) => start <= col && col < end,
        None => false,
    };
    if selected {
        bg = Some(selection_bg);
    }
    let on_cursor = match overlay.cursor {
        Some(c) => c == col,
        None => false,
    };
    if on_cursor {
        if overlay.cursor_solid {
            let block = fg;
            fg = or_else(bg, default_bg);
            bg = Some(block);
        } else {
            bg = Some(mix(or_else(bg, default_bg), fg, CURSOR_WEIGHT));
        }
    }
    Style { fg, bg, bold, underline }
}

/// The FNV-1a hash of `bytes`, continued from `h`.
fn fnv(h: u64, bytes: &[u8]) -> (r: u64)
    ensures
        r == fnv_of(h, bytes@),
{
    let mut hash = h;
    let mut i: usize = 0;
    while i < bytes.len()
        invariant
            i <= bytes@.len(),
            hash == fnv_of(h, bytes@.take(i as int)),
        decreases bytes@.len() - i,
    {
        proof {
            assert(bytes@.take(i + 1).drop_last() =~= bytes@.take(i as int));
        }
        hash = (hash ^ (bytes[i] as u64)).wrapping_mul(FNV_PRIME);
        i = i + 1;
    }
    assert(bytes@.take(bytes@.len() as int) =~= bytes@);
    hash
}

/// The hash continued over three bytes.
fn fnv3(h: u64, a: u8, b: u8, c: u8) -> (r: u64)
    ensures
        r == fnv_of(h, seq![a, b, c]),
{
    proof {
        assert(seq![a, b, c].drop_last() =~= seq![a, b]);
        assert(seq![a, b].drop_last() =~= seq![a]);
        assert(seq![a].drop_last() =~= Seq::<u8>::empty());
    }
    let h1 = (h ^ (a as u64)).wrapping_mul(FNV_PRIME);
    assert(fnv_of(h, seq![a]) == h1) by {
        assert(fnv_of(h, Seq::<u8>::empty()) == h);
    }
    let h2 = (h1 ^ (b as u64)).wrapping_mul(FNV_PRIME);
    assert(fnv_of(h, seq![a, b]) == h2);
    let h3 = (h2 ^ (c as u64)).wrapping_mul(FNV_PRIME);
    assert(fnv_of(h, seq![a, b, c]) == h3);
    h3
}

fn flag_byte(b: bool) -> (v: u8)
    ensures
        v == flag(b),
{
    if b {
        1
    } else {
        0
    }
}

/// The hash continued over one run.
fn hash_one(h: u64, run: &Run) -> (r: u64)
    ensures
        r == hash_run(h, (run.text@, run.style)),
{
    let text = bytes_of(run.text.as_str());
    let h1 = fnv(h, text.as_slice());
    let fg = run.style.fg;
    let h2 = fnv3(h1, fg.r, fg.g, fg.b);
    let bg = or_else(run.style.bg, Rgb { r: 0, g: 0, b: 0 });
    let h3 = fnv3(h2, bg.r, bg.g, bg.b);
    fnv3(
        h3,
        flag_byte(run.style.bg.is_some()),
        flag_byte(run.style.bold),
        flag_byte(run.style.underline),
    )
}

/// Whether a run draws nothing.
fn blank_run(run: &Run) -> (b: bool)
    ensures
        b == is_blank((run.text@, run.style)),
{
    if run.style.bg.is_some() {
        return false;
    }
    let bytes = bytes_of(run.text.as_str());
    let mut i: usize = 0;
    while i < bytes.len()
        invariant
            i <= bytes@.len(),
            bytes@ == vstd::utf8::encode_utf8(run.text@),
            forall|k: int| 0 <= k < i ==> bytes@[k] == 32,
        decreases bytes@.len() - i,
    {
        if bytes[i] != 32 {
            assert(!all_spaces(bytes@));
            return false;
        }
        i = i + 1;
    }
    true
}

/// The cell at `col`, if the row has one there.
fn cell_ref(cells: &Vec<Option<Cell>>, col: usize) -> (c: Option<&Cell>)
    ensures
        match c {
            Some(x) => cell_at(cells@, col as int) == Some(*x),
            None => cell_at(cells@, col as int) is None,
        },
{
    if col < cells.len() {
        match &cells[col] {
            Some(x) => Some(x),
            None => None,
        }
    } else {
        None
    }
}

/// What a cell draws, as a new string.
fn cell_text(cell: Option<&Cell>) -> (t: String)
    ensures
        t@ == text_of(
            match cell {
                Some(c) => Some(*c),
                None => None,
            },
        ),
{
    let wide = match cell {
        Some(c) => c.wide,
        None => false,
    };
    match cell {
        Some(c) => {
            if !c.contents.as_str().is_empty() {
                return c.contents.clone();
            }
        },
        None => {},
    }
    let mut t = String::new();
    push_char(&mut t, ' ');
    if wide {
        push_char(&mut t, ' ');
    }
    assert(t@ =~= spaces(
        if wide {
            2
        } else {
            1
        },
    ));
    t
}

/// Flatten a row into runs, and hash what they draw.
///
/// `cells` holds the row's cells from column 0; `cols` is the grid width. Each
/// run is a maximal stretch of one style, trailing runs that draw nothing are
/// dropped, and the hash covers every run's text, colours and flags in order.
pub fn row_runs(
    cells: &Vec<Option<Cell>>,
    cols: u16,
    overlay: RowOverlay,
    default_fg: Rgb,
    default_bg: Rgb,
    selection_bg: Rgb,
) -> (out: (Vec<Run>, u64))
    ensures
        runs_view(out.0@) == row_model(
            cells@,
            cols as int,
            overlay,
            default_fg,
            default_bg,
            selection_bg,
        ),
        out.1 == hash_runs(runs_view(out.0@)),
{
    let ghost all = pieces(cells@, cols as int, 0, overlay, default_fg, default_bg, selection_bg);
    let ghost mut done: Seq<Piece> = Seq::empty();
    let mut runs: Vec<Run> = Vec::new();
    let mut col: u32 = 0;
    while col < cols as u32
        invariant
            col <= cols as int + 1,
            all == pieces(cells@, cols as int, 0, overlay, default_fg, default_bg, selection_bg),
            all == done + pieces(
                cells@,
                cols as int,
                col as int,
                overlay,
                default_fg,
                default_bg,
                selection_bg,
            ),
            runs_view(runs@) == merged(done),
        decreases cols as int + 2 - col,
    {
        let cell = cell_ref(cells, col as usize);
        let ghost sc = cell_at(cells@, col as int);
        let cont = match cell {
            Some(c) => c.wide_continuation,
            None => false,
        };
        if cont {
            col = col + 1;
            continue;
        }
        let width: u32 = match cell {
            Some(c) => if c.wide {
                2
            } else {
                1
            },
            None => 1,
        };
        let text = cell_text(cell);
        let style = cell_style(cell, col as u16, overlay, default_fg, default_bg, selection_bg);
        let ghost p: Piece = (text@, style);
        proof {
            assert(sc == match cell {
                Some(c) => Some(*c),
                None => None,
            });
            let rest = pieces(
                cells@,
                cols as int,
                col + width,
                overlay,
                default_fg,
                default_bg,
                selection_bg,
            );
            assert(done + (seq![p] + rest) =~= done.push(p) + rest);
            assert(done.push(p).drop_last() =~= done);
        }
        let ghost before = runs_view(runs@);
        let n = runs.len();
        if n > 0 && runs[n - 1].style == style {
            let last = runs.pop();
            match last {
                Some(mut last) => {
                    push_str(&mut last.text, text.as_str());
                    runs.push(last);
                },
                None => {},
            }
            proof {
                assert(runs_view(runs@) =~= before.update(
                    before.len() - 1,
                    (before.last().0 + p.0, p.1),
                ));
            }
        } else {
            runs.push(Run { text, style });
            proof {
                assert(runs_view(runs@) =~= before.push(p));
            }
        }
        proof {
            done = done.push(p);
        }
        col = col + width;
    }
    proof {
        assert(done + Seq::<Piece>::empty() =~= done);
    }
    loop
        invariant
            trimmed(runs_view(runs@)) == trimmed(merged(all)),
            all == pieces(cells@, cols as int, 0, overlay, default_fg, default_bg, selection_bg),
        ensures
            runs_view(runs@) == trimmed(merged(all)),
        decreases runs@.len(),
    {
        let n = runs.len();
        if n == 0 {
            break;
        }
        if !blank_run(&runs[n - 1]) {
            break;
        }
        let ghost before = runs_view(runs@);
        runs.pop();
        proof {
            assert(runs_view(runs@) =~= before.drop_last());
        }
    }
    let mut hash = FNV_OFFSET;
    let mut i: usize = 0;
    while i < runs.len()
        invariant
            i <= runs@.len(),
            hash == hash_runs(runs_view(runs@).take(i as int)),
        decreases runs@.len() - i,
    {
        proof {
            assert(runs_view(runs@).take(i + 1).drop_last() =~= runs_view(runs@).take(i as int));
        }
        hash = hash_one(hash, &runs[i]);
        i = i + 1;
    }
    proof {
        assert(runs_view(runs@).take(runs@.len() as int) =~= runs_view(runs@));
    }
    (runs, hash)
}

/// No two neighbouring runs share a style.
pub open spec fn styles_alternate(rs: Seq<Piece>) -> bool {
    forall|i: int| 0 <= i < rs.len() - 1 ==> #[trigger] rs[i].1 != rs[i + 1].1
}

proof fn lemma_merged_alternates(ps: Seq<Piece>)
    ensures
        styles_alternate(merged(ps)),
    decreases ps.len(),
{
    if ps.len() > 0 {
        lemma_merged_alternates(ps.drop_last());
        let rs = merged(ps.drop_last());
        let out = merged(ps);
        assert forall|i: int| 0 <= i < out.len() - 1 implies #[trigger] out[i].1 != out[i + 1].1 by {
            if i + 1 < rs.len() {
                assert(out[i] == rs[i]);
                assert(out[i + 1].1 == rs[i + 1].1);
            }
        }
    }
}

proof fn lemma_trimmed_prefix(rs: Seq<Piece>)
    ensures
        trimmed(rs).len() <= rs.len(),
        forall|i: int| 0 <= i < trimmed(rs).len() ==> #[trigger] trimmed(rs)[i] == rs[i],
        trimmed(rs).len() > 0 ==> !is_blank(trimmed(rs).last()),
    decreases rs.len(),
{
    if rs.len() > 0 && is_blank(rs.last()) {
        lemma_trimmed_prefix(rs.drop_last());
    }
}

/// Runs are maximal and the row ends on something drawn: no two neighbouring
/// runs share a style, and the last run is not a default-background stretch
/// of spaces.
pub proof fn law_runs_are_maximal(
    cells: Seq<Option<Cell>>,
    cols: int,
    overlay: RowOverlay,
    default_fg: Rgb,
    default_bg: Rgb,
    selection_bg: Rgb,
)
    ensures
        styles_alternate(row_model(cells, cols, overlay, default_fg, default_bg, selection_bg)),
        row_model(cells, cols, overlay, default_fg, default_bg, selection_bg).len() > 0 ==> !is_blank(
            row_model(cells, cols, overlay, default_fg, default_bg, selection_bg).last(),
        ),
{
    let ms = merged(pieces(cells, cols, 0, overlay, default_fg, default_bg, selection_bg));
    lemma_merged_alternates(pieces(cells, cols, 0, overlay, default_fg, default_bg, selection_bg));
    lemma_trimmed_prefix(ms);
    let t = trimmed(ms);
    assert forall|i: int| 0 <= i < t.len() - 1 implies #[trigger] t[i].1 != t[i + 1].1 by {
        assert(t[i] == ms[i]);
        assert(t[i + 1] == ms[i + 1]);
    }
}


/// Bold brightens the foreground only. For a cell drawn as itself (not
/// inverse, not under the cursor), the background is the same bold or not;
/// and a bold foreground in one of the eight base colours is drawn as the
/// bright colour eight places up would be drawn without bold.
pub proof fn law_bold_brightens_only_the_foreground(
    c: Cell,
    col: int,
    overlay: RowOverlay,
    default_fg: Rgb,
    default_bg: Rgb,
    selection_bg: Rgb,
)
    requires
        !c.inverse,
        !(overlay.cursor matches Some(x) && x == col),
    ensures
        style_of(Some(Cell { bold: true, ..c }), col, overlay, default_fg, default_bg, selection_bg).bg
            == style_of(Some(Cell { bold: false, ..c }), col, overlay, default_fg, default_bg, selection_bg).bg,
        match c.fgcolor {
            Color::Idx(i) => (i < 8 && !c.dim) ==> style_of(
                Some(Cell { bold: true, ..c }),
                col,
                overlay,
                default_fg,
                default_bg,
                selection_bg,
            ).fg == style_of(
                Some(Cell { bold: false, fgcolor: Color::Idx((i + 8) as u8), ..c }),
                col,
                overlay,
                default_fg,
                default_bg,
                selection_bg,
            ).fg,
            _ => true,
        },
{
}

} // verus!
