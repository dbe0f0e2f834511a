//! The tray icon: a 20 by 20 picture with the tempo (or a tap mark) on top
//! and, below it, a grid of 3 rows of 8 tap states. Each row shows 7 cells;
//! the eighth state of a row is the connector that joins its cells into a
//! solid bar. The visible rows roll by whole rows as tapping goes on.
use crate::canvas::{
    canvas_height, canvas_pixels, canvas_size, canvas_wf, canvas_width, covers, decode_image,
    decoded_image, encode_png, lemma_paint_all_concat, lemma_paint_all_len, lemma_paint_all_pixel, lemma_paint_all_push,
    lemma_paint_all_skips_uncovered,
    new_canvas, paint, paint_all, png_bytes, put_pixel, Canvas, Color, FilledRect,
};
use image::ImageError;
use vstd::arithmetic::div_mod::{lemma_fundamental_div_mod, lemma_fundamental_div_mod_converse};
use vstd::prelude::*;

verus! {

/// Width and height of the icon, in pixels.
pub const ICON_SIZE: i32 = 20;

const INDICATOR_COLUMNS: usize = 7;

const INDICATOR_ROWS: usize = 3;

const INDICATOR_STATES_PER_ROW: usize = 8;

const INDICATOR_Y: i32 = 12;

const INDICATOR_CELL_WIDTH: i32 = 2;

const INDICATOR_CELL_HEIGHT: i32 = 2;

const INDICATOR_GAP_X: i32 = 1;

const INDICATOR_GAP_Y: i32 = 1;

const DIGIT_Y: i32 = 0;

const DIGIT_COLUMNS: usize = 5;

const DIGIT_ROWS: usize = 7;

const DIGIT_ROW_HEIGHTS: [i32; 7] = [2, 1, 2, 1, 2, 1, 2];

/// The digit glyphs, 7 rows of 5 columns each; in a row, bit 4 is the
/// leftmost column and bit 0 the rightmost.
pub const DIGIT_BITMAPS: [[u8; 7]; 10] = [
    [0b11111, 0b11011, 0b11011, 0b11011, 0b11011, 0b11011, 0b11111],
    [0b00110, 0b01110, 0b00110, 0b00110, 0b00110, 0b00110, 0b11111],
    [0b11111, 0b00011, 0b00011, 0b11111, 0b11000, 0b11000, 0b11111],
    [0b11111, 0b00011, 0b00011, 0b11111, 0b00011, 0b00011, 0b11111],
    [0b11011, 0b11011, 0b11011, 0b11111, 0b00011, 0b00011, 0b00011],
    [0b11111, 0b11000, 0b11000, 0b11111, 0b00011, 0b00011, 0b11111],
    [0b11111, 0b11000, 0b11000, 0b11111, 0b11011, 0b11011, 0b11111],
    [0b11111, 0b00011, 0b00011, 0b00110, 0b01100, 0b01100, 0b01100],
    [0b11111, 0b11011, 0b11011, 0b11111, 0b11011, 0b11011, 0b11111],
    [0b11111, 0b11011, 0b11011, 0b11111, 0b00011, 0b00011, 0b11111],
];

/// What the icon is showing.
#[derive(Clone, Copy, Debug, PartialEq, Eq, Structural)]
pub enum IconState {
    Idle,
    Collecting,
    Stable,
}

/// Sizing of the icon; the icon is drawn at its own size, so there is
/// nothing in it yet.
#[derive(Clone, Copy, Debug, Default)]
pub struct IconMetrics;

/// The colours of one icon state.
#[derive(Clone, Copy, Debug)]
pub struct IconColors {
    pub background: Color,
    pub foreground: Color,
    pub empty_dot: Color,
    pub filled_dot: Color,
    pub newest_dot: Color,
}

/// The colours of every icon state.
#[derive(Clone, Copy, Debug)]
pub struct IconTheme {
    pub idle: IconColors,
    pub collecting: IconColors,
    pub stable: IconColors,
}

/// Everything the icon is drawn from.
#[derive(Clone, Copy, Debug)]
pub struct TrayIconRender {
    pub bpm: Option<u16>,
    pub state: IconState,
    pub tap_count: usize,
    pub stable_tap_dots: usize,
    pub theme: IconTheme,
    pub metrics: IconMetrics,
}

/// The colours the theme gives a state.
pub open spec fn theme_colors(theme: IconTheme, state: IconState) -> IconColors {
    match state {
        IconState::Idle => theme.idle,
        IconState::Collecting => theme.collecting,
        IconState::Stable => theme.stable,
    }
}

/// The default colours: slate for idle, yellow on dark grey with cyan taps
/// while collecting and when stable.
pub open spec fn default_theme() -> IconTheme {
    let grey = Color { red: 67, green: 67, blue: 67, alpha: 255 };
    let yellow = Color { red: 255, green: 255, blue: 0, alpha: 255 };
    let cyan = Color { red: 64, green: 212, blue: 255, alpha: 255 };
    let busy = IconColors {
        background: grey,
        foreground: yellow,
        empty_dot: grey,
        filled_dot: cyan,
        newest_dot: cyan,
    };
    IconTheme {
        idle: IconColors {
            background: Color { red: 51, green: 65, blue: 85, alpha: 255 },
            foreground: Color { red: 248, green: 250, blue: 252, alpha: 255 },
            empty_dot: Color { red: 51, green: 65, blue: 85, alpha: 255 },
            filled_dot: Color { red: 148, green: 163, blue: 184, alpha: 255 },
            newest_dot: Color { red: 248, green: 250, blue: 252, alpha: 255 },
        },
        collecting: busy,
        stable: busy,
    }
}

/// In the default theme the tap grid is visible in every state but idle:
/// tapped cells are cyan, unlike both the empty cells and the background.
pub proof fn lemma_default_theme_shows_taps(state: IconState)
    requires
        state != IconState::Idle,
    ensures
        ({
            let colors = theme_colors(default_theme(), state);
            &&& colors.filled_dot == (Color { red: 64, green: 212, blue: 255, alpha: 255 })
            &&& colors.filled_dot != colors.empty_dot
            &&& colors.filled_dot != colors.background
        }),
{
}

impl Default for IconTheme {
    fn default() -> (theme: Self)
        ensures
            theme == default_theme(),
    {
        let grey = Color { red: 67, green: 67, blue: 67, alpha: 255 };
        let yellow = Color { red: 255, green: 255, blue: 0, alpha: 255 };
        let cyan = Color { red: 64, green: 212, blue: 255, alpha: 255 };
        Self {
            idle: IconColors {
                background: Color { red: 51, green: 65, blue: 85, alpha: 255 },
                foreground: Color { red: 248, green: 250, blue: 252, alpha: 255 },
                empty_dot: Color { red: 51, green: 65, blue: 85, alpha: 255 },
                filled_dot: Color { red: 148, green: 163, blue: 184, alpha: 255 },
                newest_dot: Color { red: 248, green: 250, blue: 252, alpha: 255 },
            },
            collecting: IconColors {
                background: grey,
                foreground: yellow,
                empty_dot: grey,
                filled_dot: cyan,
                newest_dot: cyan,
            },
            stable: IconColors {
                background: grey,
                foreground: yellow,
                empty_dot: grey,
                filled_dot: cyan,
                newest_dot: cyan,
            },
        }
    }
}

impl IconTheme {
    fn colors_for(self, state: IconState) -> (colors: IconColors)
        ensures
            colors == theme_colors(self, state),
    {
        match state {
            IconState::Idle => self.idle,
            IconState::Collecting => self.collecting,
            IconState::Stable => self.stable,
        }
    }
}

/// The first tap state shown in the grid: the grid shows the row holding the
/// newest completed-row boundary and up to two rows before it, so it starts
/// two whole rows before the last completed row (never before state 0).
pub open spec fn first_visible_state(tap_count: int) -> int {
    if tap_count == 0 {
        0
    } else {
        let completed_groups = tap_count / 8;
        if completed_groups >= 2 {
            (completed_groups - 2) * 8
        } else {
            0
        }
    }
}

/// The colour of tap state `state_index` in the grid: the newest tap is
/// highlighted once there are at least `stable_tap_dots` taps; other taps
/// are filled; states not yet reached are empty.
pub open spec fn state_color(
    state_index: int,
    tap_count: int,
    stable_tap_dots: int,
    empty: Color,
    filled: Color,
    newest: Color,
) -> Color {
    if tap_count >= stable_tap_dots && state_index == tap_count - 1 {
        newest
    } else if state_index < tap_count {
        filled
    } else {
        empty
    }
}

/// The cell of grid row `row`, column `column`.
pub open spec fn cell_rect(row: int, column: int, color: Color) -> FilledRect {
    FilledRect {
        x: (column * 3) as i32,
        y: (12 + row * 3) as i32,
        width: 2,
        height: 2,
        color,
    }
}

/// The six gaps between the cells of grid row `row`, filled.
pub open spec fn connector_rects(row: int, color: Color) -> Seq<FilledRect> {
    Seq::new(
        6,
        |gap: int| FilledRect { x: (gap * 3 + 2) as i32, y: (12 + row * 3) as i32, width: 1, height: 2, color },
    )
}

/// What grid row `row` draws: its seven cells, then its connector when the
/// row's eighth state has been reached.
pub open spec fn grid_row_rects(
    row: int,
    tap_count: int,
    stable_tap_dots: int,
    empty: Color,
    filled: Color,
    newest: Color,
) -> Seq<FilledRect> {
    let row_start = first_visible_state(tap_count) + row * 8;
    let cells = Seq::new(
        7,
        |column: int|
            cell_rect(
                row,
                column,
                state_color(row_start + column, tap_count, stable_tap_dots, empty, filled, newest),
            ),
    );
    let connector = row_start + 7;
    if connector < tap_count {
        let color = if tap_count >= stable_tap_dots && connector == tap_count - 1 {
            newest
        } else {
            filled
        };
        cells + connector_rects(row, color)
    } else {
        cells
    }
}

/// What the first `rows` grid rows draw.
pub open spec fn grid_rows_rects(
    rows: nat,
    tap_count: int,
    stable_tap_dots: int,
    empty: Color,
    filled: Color,
    newest: Color,
) -> Seq<FilledRect>
    decreases rows,
{
    if rows == 0 {
        Seq::empty()
    } else {
        grid_rows_rects((rows - 1) as nat, tap_count, stable_tap_dots, empty, filled, newest)
            + grid_row_rects(rows - 1, tap_count, stable_tap_dots, empty, filled, newest)
    }
}

/// What the tap grid draws: nothing when `stable_tap_dots` is zero, else its
/// three rows.
pub open spec fn grid_rects(
    tap_count: int,
    stable_tap_dots: int,
    empty: Color,
    filled: Color,
    newest: Color,
) -> Seq<FilledRect> {
    if stable_tap_dots == 0 {
        Seq::empty()
    } else {
        grid_rows_rects(3, tap_count, stable_tap_dots, empty, filled, newest)
    }
}

/// A canvas the drawing code can address with `i32` coordinates.
pub open spec fn drawable(canvas: Canvas) -> bool {
    &&& canvas_wf(canvas)
    &&& canvas_size(canvas).0 <= i32::MAX
    &&& canvas_size(canvas).1 <= i32::MAX
}

/// The canvas after painting `rects` on `before`, at the same size.
pub open spec fn painted(after: Canvas, before: Canvas, rects: Seq<FilledRect>) -> bool {
    &&& canvas_size(after) == canvas_size(before)
    &&& canvas_pixels(after) == paint_all(
        canvas_pixels(before),
        canvas_size(before).0 as int,
        rects,
    )
}

/// Row and column of a pixel index.
proof fn lemma_pixel_coords(i: int, w: int, h: int)
    requires
        0 <= i < w * h,
        w > 0,
    ensures
        0 <= i % w < w,
        0 <= i / w < h,
        i == (i / w) * w + i % w,
{
    lemma_fundamental_div_mod(i, w);
    vstd::arithmetic::div_mod::lemma_mod_pos_bound(i, w);
    let q = i / w;
    let r = i % w;
    assert(w * q == q * w) by (nonlinear_arith);
    assert(0 <= q < h) by (nonlinear_arith)
        requires
            i == q * w + r,
            0 <= r < w,
            0 <= i < w * h,
            w > 0,
    ;
}

/// The pixel index of `(x, y)` has row `y` and column `x`.
proof fn lemma_index_coords(x: int, y: int, w: int)
    requires
        0 <= x < w,
    ensures
        (y * w + x) % w == x,
        (y * w + x) / w == y,
{
    lemma_fundamental_div_mod_converse(y * w + x, w, y, x);
}

/// Fills the rectangle at `(x, y)` of the given size, clipped to the canvas.
fn draw_rect(
    canvas: &mut Canvas,
    _metrics: IconMetrics,
    x: i32,
    y: i32,
    width: i32,
    height: i32,
    color: Color,
)
    requires
        drawable(*old(canvas)),
        i32::MIN <= x + width <= i32::MAX,
        i32::MIN <= y + height <= i32::MAX,
    ensures
        drawable(*final(canvas)),
        canvas_size(*final(canvas)) == canvas_size(*old(canvas)),
        canvas_pixels(*final(canvas)) == paint(
            canvas_pixels(*old(canvas)),
            canvas_size(*old(canvas)).0 as int,
            FilledRect { x, y, width, height, color },
        ),
{
    let ghost rect = FilledRect { x, y, width, height, color };
    let ghost before = canvas_pixels(*canvas);
    let ghost w = canvas_size(*canvas).0 as int;
    let ghost h = canvas_size(*canvas).1 as int;
    let max_x = canvas_width(canvas) as i32;
    let max_y = canvas_height(canvas) as i32;
    let x_start: i32 = if x > 0 {
        x
    } else {
        0
    };
    let x_end: i32 = if x + width < max_x {
        x + width
    } else {
        max_x
    };
    let y_start: i32 = if y > 0 {
        y
    } else {
        0
    };
    let y_end: i32 = if y + height < max_y {
        y + height
    } else {
        max_y
    };
    let mut py: i32 = y_start;
    proof {
        assert forall|i: int| 0 <= i < before.len() implies #[trigger] before[i] == (if covers(
            rect,
            i % w,
            i / w,
        ) && i / w < py {
            color
        } else {
            before[i]
        }) by {
            lemma_pixel_coords(i, w, h);
        }
        assert(before =~= Seq::new(
            before.len(),
            |i: int|
                if covers(rect, i % w, i / w) && i / w < py {
                    color
                } else {
                    before[i]
                },
        ));
    }
    while py < y_end
        invariant
            drawable(*canvas),
            canvas_size(*canvas) == canvas_size(*old(canvas)),
            before == canvas_pixels(*old(canvas)),
            w == canvas_size(*canvas).0,
            h == canvas_size(*canvas).1,
            max_x == w,
            max_y == h,
            rect == (FilledRect { x, y, width, height, color }),
            0 <= y_start <= py,
            y_start >= y,
            x_start >= x,
            x_start >= 0,
            x_end <= x + width,
            x_end <= w,
            x_end == x + width || x_end == w,
            y_end <= y + height,
            y_end <= h,
            y_end == y + height || y_end == h,
            x_start == x || x_start == 0,
            y_start == y || y_start == 0,
            py <= y_end || y_end <= y_start,
            canvas_pixels(*canvas) == Seq::new(
                before.len(),
                |i: int|
                    if covers(rect, i % w, i / w) && i / w < py {
                        color
                    } else {
                        before[i]
                    },
            ),
        decreases y_end - py,
    {
        let mut px: i32 = x_start;
        proof {
            let current = canvas_pixels(*canvas);
            assert forall|i: int| 0 <= i < before.len() implies #[trigger] current[i] == (if covers(
                rect,
                i % w,
                i / w,
            ) && (i / w < py || (i / w == py && i % w < px)) {
                color
            } else {
                before[i]
            }) by {
                lemma_pixel_coords(i, w, h);
            }
            assert(current =~= Seq::new(
                before.len(),
                |i: int|
                    if covers(rect, i % w, i / w) && (i / w < py || (i / w == py && i % w < px)) {
                        color
                    } else {
                        before[i]
                    },
            ));
        }
        while px < x_end
            invariant
                drawable(*canvas),
                canvas_size(*canvas) == canvas_size(*old(canvas)),
                before == canvas_pixels(*old(canvas)),
                w == canvas_size(*canvas).0,
                h == canvas_size(*canvas).1,
                rect == (FilledRect { x, y, width, height, color }),
                0 <= y_start <= py < y_end,
                y_start >= y,
                x_start >= x,
                x_start >= 0,
                x_start <= px,
                px <= x_end || x_end <= x_start,
                x_end <= x + width,
                x_end <= w,
                x_end == x + width || x_end == w,
                x_start == x || x_start == 0,
                y_end <= y + height,
                y_end <= h,
                canvas_pixels(*canvas) == Seq::new(
                    before.len(),
                    |i: int|
                        if covers(rect, i % w, i / w) && (i / w < py || (i / w == py && i % w
                            < px)) {
                            color
                        } else {
                            before[i]
                        },
                ),
            decreases x_end - px,
        {
            let ghost current = canvas_pixels(*canvas);
            put_pixel(canvas, px as u32, py as u32, color);
            proof {
                let k = py * w + px;
                lemma_index_coords(px as int, py as int, w);
                assert(0 <= k < w * h) by (nonlinear_arith)
                    requires
                        k == py * w + px,
                        0 <= px < w,
                        0 <= py < h,
                ;
                assert forall|i: int| 0 <= i < before.len() implies #[trigger] canvas_pixels(
                    *canvas,
                )[i] == (if covers(rect, i % w, i / w) && (i / w < py || (i / w == py && i % w
                    < px + 1)) {
                    color
                } else {
                    before[i]
                }) by {
                    lemma_pixel_coords(i, w, h);
                    if i != k {
                        assert(!(i / w == py && i % w == px));
                    }
                }
                assert(canvas_pixels(*canvas) =~= Seq::new(
                    before.len(),
                    |i: int|
                        if covers(rect, i % w, i / w) && (i / w < py || (i / w == py && i % w
                            < px + 1)) {
                            color
                        } else {
                            before[i]
                        },
                ));
            }
            px = px + 1;
        }
        proof {
            assert forall|i: int| 0 <= i < before.len() implies #[trigger] canvas_pixels(
                *canvas,
            )[i] == (if covers(rect, i % w, i / w) && i / w < py + 1 {
                color
            } else {
                before[i]
            }) by {
                lemma_pixel_coords(i, w, h);
            }
            assert(canvas_pixels(*canvas) =~= Seq::new(
                before.len(),
                |i: int|
                    if covers(rect, i % w, i / w) && i / w < py + 1 {
                        color
                    } else {
                        before[i]
                    },
            ));
        }
        py = py + 1;
    }
    proof {
        assert forall|i: int| 0 <= i < before.len() implies #[trigger] canvas_pixels(*canvas)[i]
            == paint(before, w, rect)[i] by {
            lemma_pixel_coords(i, w, h);
        }
        assert(canvas_pixels(*canvas) =~= paint(before, w, rect));
    }
}

/// The first tap state the grid shows for `tap_count` taps.
pub fn visible_start_state(tap_count: usize) -> (start: usize)
    ensures
        start == first_visible_state(tap_count as int),
{
    if tap_count == 0 {
        return 0;
    }
    let completed_groups = tap_count / INDICATOR_STATES_PER_ROW;
    let visible_group_start = completed_groups.saturating_sub(INDICATOR_ROWS - 1);
    visible_group_start * INDICATOR_STATES_PER_ROW
}

/// The left edge of grid column `column`.
pub fn indicator_cell_x(column: usize) -> (x: i32)
    requires
        column * 3 <= i32::MAX,
    ensures
        x == column * 3,
{
    column as i32 * (INDICATOR_CELL_WIDTH + INDICATOR_GAP_X)
}

/// The top edge of grid row `row`.
pub fn indicator_cell_y(row: usize) -> (y: i32)
    requires
        12 + row * 3 <= i32::MAX,
    ensures
        y == 12 + row * 3,
{
    INDICATOR_Y + row as i32 * (INDICATOR_CELL_HEIGHT + INDICATOR_GAP_Y)
}

fn draw_indicator_cell(
    canvas: &mut Canvas,
    metrics: IconMetrics,
    row: usize,
    column: usize,
    color: Color,
)
    requires
        drawable(*old(canvas)),
        row < INDICATOR_ROWS,
        column < INDICATOR_COLUMNS,
    ensures
        drawable(*final(canvas)),
        painted(*final(canvas), *old(canvas), seq![cell_rect(row as int, column as int, color)]),
{
    let x = indicator_cell_x(column);
    let y = indicator_cell_y(row);
    draw_rect(canvas, metrics, x, y, INDICATOR_CELL_WIDTH, INDICATOR_CELL_HEIGHT, color);
    proof {
        lemma_paint_all_push(
            canvas_pixels(*old(canvas)),
            canvas_size(*old(canvas)).0 as int,
            Seq::empty(),
            cell_rect(row as int, column as int, color),
        );
        assert(Seq::<FilledRect>::empty().push(cell_rect(row as int, column as int, color))
            =~= seq![cell_rect(row as int, column as int, color)]);
    }
}

fn draw_indicator_connector(canvas: &mut Canvas, metrics: IconMetrics, row: usize, color: Color)
    requires
        drawable(*old(canvas)),
        row < INDICATOR_ROWS,
    ensures
        drawable(*final(canvas)),
        painted(*final(canvas), *old(canvas), connector_rects(row as int, color)),
{
    let ghost before = canvas_pixels(*canvas);
    let ghost w = canvas_size(*canvas).0 as int;
    let y = indicator_cell_y(row);
    let mut gap: usize = 0;
    proof {
        assert(connector_rects(row as int, color).take(0) =~= Seq::<FilledRect>::empty());
    }
    while gap < INDICATOR_COLUMNS - 1
        invariant
            drawable(*canvas),
            row < INDICATOR_ROWS,
            y == 12 + row * 3,
            0 <= gap <= 6,
            canvas_size(*canvas) == canvas_size(*old(canvas)),
            before == canvas_pixels(*old(canvas)),
            w == canvas_size(*old(canvas)).0,
            canvas_pixels(*canvas) == paint_all(
                before,
                w,
                connector_rects(row as int, color).take(gap as int),
            ),
        decreases 6 - gap,
    {
        let x = indicator_cell_x(gap) + INDICATOR_CELL_WIDTH;
        draw_rect(canvas, metrics, x, y, INDICATOR_GAP_X, INDICATOR_CELL_HEIGHT, color);
        proof {
            let rects = connector_rects(row as int, color);
            lemma_paint_all_push(before, w, rects.take(gap as int), rects[gap as int]);
            assert(rects.take(gap as int).push(rects[gap as int]) =~= rects.take(gap + 1));
        }
        gap = gap + 1;
    }
    proof {
        assert(connector_rects(row as int, color).take(6) =~= connector_rects(row as int, color));
    }
}

fn draw_tap_grid(
    canvas: &mut Canvas,
    metrics: IconMetrics,
    tap_count: usize,
    stable_tap_dots: usize,
    empty_color: Color,
    filled_color: Color,
    newest_color: Color,
)
    requires
        drawable(*old(canvas)),
        first_visible_state(tap_count as int) + 23 <= usize::MAX,
    ensures
        drawable(*final(canvas)),
        painted(
            *final(canvas),
            *old(canvas),
            grid_rects(
                tap_count as int,
                stable_tap_dots as int,
                empty_color,
                filled_color,
                newest_color,
            ),
        ),
{
    let ghost before = canvas_pixels(*canvas);
    let ghost w = canvas_size(*canvas).0 as int;
    let ghost t = tap_count as int;
    let ghost s = stable_tap_dots as int;
    if stable_tap_dots == 0 {
        return;
    }
    let visible_start = visible_start_state(tap_count);
    let newest_index = tap_count.checked_sub(1);
    let highlight_newest = tap_count >= stable_tap_dots;
    let mut row: usize = 0;
    while row < INDICATOR_ROWS
        invariant
            drawable(*canvas),
            0 <= row <= 3,
            stable_tap_dots > 0,
            visible_start == first_visible_state(t),
            visible_start + 23 <= usize::MAX,
            t == tap_count,
            s == stable_tap_dots,
            newest_index == (if tap_count >= 1 {
                Some((tap_count - 1) as usize)
            } else {
                None
            }),
            highlight_newest == (tap_count >= stable_tap_dots),
            canvas_size(*canvas) == canvas_size(*old(canvas)),
            before == canvas_pixels(*old(canvas)),
            w == canvas_size(*old(canvas)).0,
            canvas_pixels(*canvas) == paint_all(
                before,
                w,
                grid_rows_rects(row as nat, t, s, empty_color, filled_color, newest_color),
            ),
        decreases 3 - row,
    {
        let ghost done = grid_rows_rects(row as nat, t, s, empty_color, filled_color, newest_color);
        let ghost row_rects = grid_row_rects(
            row as int,
            t,
            s,
            empty_color,
            filled_color,
            newest_color,
        );
        let row_start = row * INDICATOR_STATES_PER_ROW;
        let mut column: usize = 0;
        while column < INDICATOR_COLUMNS
            invariant
                drawable(*canvas),
                0 <= row < 3,
                0 <= column <= 7,
                row_start == row * 8,
                visible_start == first_visible_state(t),
                visible_start + 23 <= usize::MAX,
                t == tap_count,
                s == stable_tap_dots,
                newest_index == (if tap_count >= 1 {
                    Some((tap_count - 1) as usize)
                } else {
                    None
                }),
                highlight_newest == (tap_count >= stable_tap_dots),
                canvas_size(*canvas) == canvas_size(*old(canvas)),
                before == canvas_pixels(*old(canvas)),
                w == canvas_size(*old(canvas)).0,
                done == grid_rows_rects(row as nat, t, s, empty_color, filled_color, newest_color),
                row_rects == grid_row_rects(
                    row as int,
                    t,
                    s,
                    empty_color,
                    filled_color,
                    newest_color,
                ),
                canvas_pixels(*canvas) == paint_all(
                    before,
                    w,
                    done + row_rects.take(column as int),
                ),
            decreases 7 - column,
        {
            let state_index = visible_start + row_start + column;
            let color = if highlight_newest && newest_index == Some(state_index) {
                newest_color
            } else if state_index < tap_count {
                filled_color
            } else {
                empty_color
            };
            let ghost prefix = done + row_rects.take(column as int);
            draw_indicator_cell(canvas, metrics, row, column, color);
            proof {
                assert(row_rects[column as int] == cell_rect(row as int, column as int, color));
                lemma_paint_all_concat(
                    before,
                    w,
                    prefix,
                    seq![cell_rect(row as int, column as int, color)],
                );
                assert(prefix + seq![cell_rect(row as int, column as int, color)] =~= done
                    + row_rects.take(column + 1));
            }
            column = column + 1;
        }
        let connector_index = visible_start + row_start + INDICATOR_COLUMNS;
        if connector_index < tap_count {
            let color = if highlight_newest && newest_index == Some(connector_index) {
                newest_color
            } else {
                filled_color
            };
            let ghost prefix = done + row_rects.take(7);
            draw_indicator_connector(canvas, metrics, row, color);
            proof {
                lemma_paint_all_concat(before, w, prefix, connector_rects(row as int, color));
                assert(prefix + connector_rects(row as int, color) =~= done + row_rects);
            }
        } else {
            proof {
                assert(row_rects.take(7) =~= row_rects);
            }
        }
        proof {
            assert(grid_rows_rects((row + 1) as nat, t, s, empty_color, filled_color, newest_color)
                == done + row_rects);
        }
        row = row + 1;
    }
}

/// How digits are drawn: the width of each glyph column, the height of each
/// glyph row, the top edge, and the space between digits.
#[derive(Clone, Copy)]
pub struct DigitStyle {
    pub column_widths: [i32; 5],
    pub row_heights: [i32; 7],
    pub y: i32,
    pub gap: i32,
}

/// The glyph column widths for a number of `digit_count` digits: narrower
/// columns for more digits.
pub open spec fn style_column_widths(digit_count: int) -> Seq<i32> {
    if digit_count >= 3 {
        seq![1i32, 1, 2, 1, 1]
    } else if digit_count == 2 {
        seq![2i32, 1, 2, 1, 2]
    } else {
        seq![2i32, 2, 2, 2, 2]
    }
}

/// The glyph row heights: thick strokes on the even rows.
pub open spec fn style_row_heights() -> Seq<i32> {
    seq![2i32, 1, 2, 1, 2, 1, 2]
}

/// The space between digits for a number of `digit_count` digits.
pub open spec fn style_gap(digit_count: int) -> i32 {
    if digit_count >= 3 {
        1
    } else if digit_count == 2 {
        4
    } else {
        0
    }
}

/// The style for a number of `digit_count` digits.
pub fn digit_style(digit_count: usize) -> (style: DigitStyle)
    ensures
        style.column_widths@ == style_column_widths(digit_count as int),
        style.row_heights@ == style_row_heights(),
        style.y == 0,
        style.gap == style_gap(digit_count as int),
{
    let style = if digit_count >= 3 {
        DigitStyle {
            column_widths: [1, 1, 2, 1, 1],
            row_heights: DIGIT_ROW_HEIGHTS,
            y: DIGIT_Y,
            gap: 1,
        }
    } else if digit_count == 2 {
        DigitStyle {
            column_widths: [2, 1, 2, 1, 2],
            row_heights: DIGIT_ROW_HEIGHTS,
            y: DIGIT_Y,
            gap: 4,
        }
    } else {
        DigitStyle {
            column_widths: [2, 2, 2, 2, 2],
            row_heights: DIGIT_ROW_HEIGHTS,
            y: DIGIT_Y,
            gap: 0,
        }
    };
    assert(style.column_widths@ =~= style_column_widths(digit_count as int));
    assert(style.row_heights@ =~= style_row_heights());
    style
}

/// `s[0] + ... + s[k - 1]`.
pub open spec fn prefix_sum(s: Seq<i32>, k: nat) -> int
    decreases k,
{
    if k == 0 {
        0
    } else {
        prefix_sum(s, (k - 1) as nat) + s[k - 1]
    }
}

/// The width of one digit: the sum of the glyph column widths.
pub fn digit_width(style: DigitStyle) -> (width: i32)
    requires
        forall|k: nat| k <= 5 ==> i32::MIN <= #[trigger] prefix_sum(style.column_widths@, k)
            <= i32::MAX,
    ensures
        width == prefix_sum(style.column_widths@, 5),
{
    let mut sum: i32 = 0;
    let mut i: usize = 0;
    while i < DIGIT_COLUMNS
        invariant
            0 <= i <= 5,
            sum == prefix_sum(style.column_widths@, i as nat),
            forall|k: nat| k <= 5 ==> i32::MIN <= #[trigger] prefix_sum(style.column_widths@, k)
                <= i32::MAX,
        decreases 5 - i,
    {
        assert(prefix_sum(style.column_widths@, (i + 1) as nat) == sum + style.column_widths@[i as int]);
        sum = sum + style.column_widths[i];
        i = i + 1;
    }
    sum
}

/// Whether the glyph of `digit` is lit at `row`, `column`.
pub open spec fn glyph_lit(digit: int, row: int, column: int) -> bool {
    (DIGIT_BITMAPS@[digit]@[row] >> ((4 - column) as u8)) & 1u8 == 1u8
}

/// The glyph cell at `row`, `column` of a digit drawn at `(x, y)`.
pub open spec fn glyph_cell_rect(
    x: int,
    y: int,
    widths: Seq<i32>,
    heights: Seq<i32>,
    row: int,
    column: int,
    color: Color,
) -> FilledRect {
    FilledRect {
        x: (x + prefix_sum(widths, column as nat)) as i32,
        y: (y + prefix_sum(heights, row as nat)) as i32,
        width: widths[column],
        height: heights[row],
        color,
    }
}

/// The lit cells among the first `k` glyph cells (row by row) of `digit`.
pub open spec fn glyph_cells_rects(
    x: int,
    y: int,
    digit: int,
    widths: Seq<i32>,
    heights: Seq<i32>,
    color: Color,
    k: nat,
) -> Seq<FilledRect>
    decreases k,
{
    if k == 0 {
        Seq::empty()
    } else {
        let previous = glyph_cells_rects(x, y, digit, widths, heights, color, (k - 1) as nat);
        let row = (k - 1) / 5;
        let column = (k - 1) % 5;
        if glyph_lit(digit, row, column) {
            previous.push(glyph_cell_rect(x, y, widths, heights, row, column, color))
        } else {
            previous
        }
    }
}

/// What drawing `digit` at `(x, y)` draws: its lit glyph cells; nothing for
/// a value that is not a digit.
pub open spec fn digit_rects(
    x: int,
    y: int,
    digit: int,
    widths: Seq<i32>,
    heights: Seq<i32>,
    color: Color,
) -> Seq<FilledRect> {
    if 0 <= digit < 10 {
        glyph_cells_rects(x, y, digit, widths, heights, color, 35)
    } else {
        Seq::empty()
    }
}

/// The sums that drawing a glyph at `(x, y)` computes stay within `i32`:
/// the partial sums of the column widths and row heights that are added up,
/// and every column and row edge measured from `(x, y)`.
pub open spec fn glyph_sums_fit(x: int, y: int, widths: Seq<i32>, heights: Seq<i32>) -> bool {
    &&& forall|k: nat| k <= 4 ==> i32::MIN <= #[trigger] prefix_sum(widths, k) <= i32::MAX
    &&& forall|k: nat| k <= 5 ==> i32::MIN <= x + #[trigger] prefix_sum(widths, k) <= i32::MAX
    &&& forall|k: nat| k <= 6 ==> i32::MIN <= #[trigger] prefix_sum(heights, k) <= i32::MAX
    &&& forall|k: nat| k <= 7 ==> i32::MIN <= y + #[trigger] prefix_sum(heights, k) <= i32::MAX
}

fn draw_digit(
    canvas: &mut Canvas,
    metrics: IconMetrics,
    x: i32,
    y: i32,
    digit: u8,
    style: DigitStyle,
    color: Color,
)
    requires
        drawable(*old(canvas)),
        digit < 10 ==> glyph_sums_fit(
            x as int,
            y as int,
            style.column_widths@,
            style.row_heights@,
        ),
    ensures
        drawable(*final(canvas)),
        painted(
            *final(canvas),
            *old(canvas),
            digit_rects(
                x as int,
                y as int,
                digit as int,
                style.column_widths@,
                style.row_heights@,
                color,
            ),
        ),
{
    let ghost before = canvas_pixels(*canvas);
    let ghost w = canvas_size(*canvas).0 as int;
    let ghost widths = style.column_widths@;
    let ghost heights = style.row_heights@;
    if digit as usize >= DIGIT_BITMAPS.len() {
        return;
    }
    let rows = DIGIT_BITMAPS[digit as usize];
    let mut row_index: usize = 0;
    let mut row_y: i32 = y;
    while row_index < DIGIT_ROWS
        invariant
            drawable(*canvas),
            glyph_sums_fit(x as int, y as int, widths, heights),
            widths == style.column_widths@,
            heights == style.row_heights@,
            digit < 10,
            rows@ == DIGIT_BITMAPS@[digit as int]@,
            0 <= row_index <= 7,
            row_y == y + prefix_sum(heights, row_index as nat),
            canvas_size(*canvas) == canvas_size(*old(canvas)),
            before == canvas_pixels(*old(canvas)),
            w == canvas_size(*old(canvas)).0,
            canvas_pixels(*canvas) == paint_all(
                before,
                w,
                glyph_cells_rects(x as int, y as int, digit as int, widths, heights, color, (row_index * 5) as nat),
            ),
        decreases 7 - row_index,
    {
        proof {
            assert(i32::MIN <= y + prefix_sum(heights, (row_index + 1) as nat) <= i32::MAX);
        }
        let row = rows[row_index];
        let mut column_index: usize = 0;
        let mut column_x: i32 = x;
        while column_index < DIGIT_COLUMNS
            invariant
                drawable(*canvas),
                glyph_sums_fit(x as int, y as int, widths, heights),
                widths == style.column_widths@,
                heights == style.row_heights@,
                digit < 10,
                row == DIGIT_BITMAPS@[digit as int]@[row_index as int],
                0 <= row_index < 7,
                0 <= column_index <= 5,
                row_y == y + prefix_sum(heights, row_index as nat),
                i32::MIN <= y + prefix_sum(heights, (row_index + 1) as nat) <= i32::MAX,
                column_x == x + prefix_sum(widths, column_index as nat),
                canvas_size(*canvas) == canvas_size(*old(canvas)),
                before == canvas_pixels(*old(canvas)),
                w == canvas_size(*old(canvas)).0,
                canvas_pixels(*canvas) == paint_all(
                    before,
                    w,
                    glyph_cells_rects(
                        x as int,
                        y as int,
                        digit as int,
                        widths,
                        heights,
                        color,
                        (row_index * 5 + column_index) as nat,
                    ),
                ),
            decreases 5 - column_index,
        {
            proof {
                assert(i32::MIN <= x + prefix_sum(widths, (column_index + 1) as nat) <= i32::MAX);
                lemma_fundamental_div_mod_converse(
                    (row_index * 5 + column_index) as int,
                    5,
                    row_index as int,
                    column_index as int,
                );
            }
            let ghost k = (row_index * 5 + column_index) as nat;
            let ghost done = glyph_cells_rects(x as int, y as int, digit as int, widths, heights, color, k);
            if (row >> ((4 - column_index) as u8)) & 1 == 1 {
                draw_rect(
                    canvas,
                    metrics,
                    column_x,
                    row_y,
                    style.column_widths[column_index],
                    style.row_heights[row_index],
                    color,
                );
                proof {
                    lemma_paint_all_push(
                        before,
                        w,
                        done,
                        glyph_cell_rect(
                            x as int,
                            y as int,
                            widths,
                            heights,
                            row_index as int,
                            column_index as int,
                            color,
                        ),
                    );
                }
            }
            column_x = column_x + style.column_widths[column_index];
            column_index = column_index + 1;
        }
        row_y = row_y + style.row_heights[row_index];
        row_index = row_index + 1;
    }
}

/// The decimal digits of `n`, most significant first, without leading
/// zeros (`0` has the single digit 0).
pub open spec fn decimal_digits(n: nat) -> Seq<u8>
    decreases n,
{
    if n < 10 {
        seq![n as u8]
    } else {
        decimal_digits(n / 10).push((n % 10) as u8)
    }
}

/// The number a sequence of decimal digits reads as, most significant first.
pub open spec fn digits_value(digits: Seq<u8>) -> int
    decreases digits.len(),
{
    if digits.len() == 0 {
        0
    } else {
        digits_value(digits.drop_last()) * 10 + digits.last()
    }
}

/// `decimal_digits` writes `n` in decimal: its digits are each below ten,
/// read back as `n`, and start with a nonzero digit unless `n` is zero.
pub proof fn lemma_decimal_digits_read_back(n: nat)
    ensures
        decimal_digits(n).len() >= 1,
        forall|i: int| 0 <= i < decimal_digits(n).len() ==> #[trigger] decimal_digits(n)[i] < 10,
        digits_value(decimal_digits(n)) == n,
        n > 0 ==> decimal_digits(n)[0] != 0,
    decreases n,
{
    if n >= 10 {
        lemma_decimal_digits_read_back(n / 10);
        let prefix = decimal_digits(n / 10);
        let all = decimal_digits(n);
        assert(all == prefix.push((n % 10) as u8));
        assert(all.drop_last() =~= prefix);
        assert forall|i: int| 0 <= i < all.len() implies #[trigger] all[i] < 10 by {
            if i < prefix.len() {
                assert(all[i] == prefix[i]);
            }
        }
        assert(all[0] == prefix[0]);
        assert(all.last() == (n % 10) as u8);
        assert(digits_value(all) == digits_value(prefix) * 10 + (n % 10));
        assert((n / 10) * 10 + n % 10 == n);
    } else {
        let all = decimal_digits(n);
        assert(all.drop_last() =~= Seq::<u8>::empty());
        assert(digits_value(all.drop_last()) == 0);
        assert(all.last() == n as u8);
    }
}

/// The decimal digits of a number below 1000.
fn digits_of(number: u16) -> (digits: Vec<u8>)
    requires
        number <= 999,
    ensures
        digits@ == decimal_digits(number as nat),
        1 <= digits@.len() <= 3,
        forall|i: int| 0 <= i < digits@.len() ==> #[trigger] digits@[i] < 10,
{
    let mut digits: Vec<u8> = Vec::new();
    if number >= 100 {
        digits.push((number / 100) as u8);
    }
    if number >= 10 {
        digits.push((number / 10 % 10) as u8);
    }
    digits.push((number % 10) as u8);
    proof {
        let n = number as nat;
        if n >= 100 {
            assert(decimal_digits(n / 100) == seq![(n / 100) as u8]);
            assert(decimal_digits(n / 10) == decimal_digits(n / 10 / 10).push((n / 10 % 10) as u8));
            assert(n / 10 / 10 == n / 100);
        } else if n >= 10 {
            assert(decimal_digits(n / 10) == seq![(n / 10) as u8]);
            assert(n / 10 % 10 == n / 10);
        }
        assert(digits@ =~= decimal_digits(n));
    }
    digits
}

/// The left edge of a number of `count` digits centred in the icon.
pub open spec fn number_start_x(count: int) -> int {
    let widths = style_column_widths(count);
    let total = count * prefix_sum(widths, 5) + (count - 1) * style_gap(count);
    let start = (20 - total) / 2;
    if start > 0 {
        start
    } else {
        0
    }
}

/// What drawing the first `k` digits of `digits` draws, starting at
/// `start_x` and `step` apart.
pub open spec fn digits_rects(
    digits: Seq<u8>,
    start_x: int,
    step: int,
    color: Color,
    k: nat,
) -> Seq<FilledRect>
    decreases k,
{
    if k == 0 {
        Seq::empty()
    } else {
        let count = digits.len() as int;
        digits_rects(digits, start_x, step, color, (k - 1) as nat) + digit_rects(
            start_x + (k - 1) * step,
            0,
            digits[k - 1] as int,
            style_column_widths(count),
            style_row_heights(),
            color,
        )
    }
}

/// What drawing `number` (below 1000) centred at the top of the icon draws.
pub open spec fn number_rects(number: nat, color: Color) -> Seq<FilledRect> {
    let digits = decimal_digits(number);
    let count = digits.len() as int;
    let step = prefix_sum(style_column_widths(count), 5) + style_gap(count);
    digits_rects(digits, number_start_x(count), step, color, digits.len())
}

/// The glyph row edges lie between 0 and 11.
proof fn lemma_row_heights_prefix()
    ensures
        forall|k: nat| k <= 7 ==> 0 <= #[trigger] prefix_sum(style_row_heights(), k) <= 11,
{
    assert forall|k: nat| k <= 7 implies 0 <= #[trigger] prefix_sum(style_row_heights(), k)
        <= 11 by {
        reveal_with_fuel(prefix_sum, 8);
    }
}

/// The digit widths and layout of numbers of one, two and three digits.
proof fn lemma_number_layout(count: int)
    requires
        1 <= count <= 3,
    ensures
        forall|k: nat| k <= 5 ==> 0 <= #[trigger] prefix_sum(style_column_widths(count), k) <= 10,
        count == 1 ==> prefix_sum(style_column_widths(count), 5) == 10 && style_gap(count) == 0,
        count == 2 ==> prefix_sum(style_column_widths(count), 5) == 8 && style_gap(count) == 4,
        count == 3 ==> prefix_sum(style_column_widths(count), 5) == 6 && style_gap(count) == 1,
        count == 1 ==> number_start_x(count) == 5,
        count >= 2 ==> number_start_x(count) == 0,
{
    let widths = style_column_widths(count);
    reveal_with_fuel(prefix_sum, 6);
    assert forall|k: nat| k <= 5 implies 0 <= #[trigger] prefix_sum(widths, k) <= 10 by {
        reveal_with_fuel(prefix_sum, 6);
    }
}

/// The tempo reads left to right, most significant digit first: a
/// three-digit number draws its hundreds, tens and units glyphs (narrow
/// style) at x = 0, 7 and 14; a two-digit number its tens and units glyphs
/// (medium style) at x = 0 and 12; a single digit (wide style) at x = 5.
pub proof fn lemma_number_reads_left_to_right(n: nat, color: Color)
    requires
        n <= 999,
    ensures
        n >= 100 ==> number_rects(n, color) == digit_rects(
            0,
            0,
            (n / 100) as int,
            seq![1i32, 1, 2, 1, 1],
            seq![2i32, 1, 2, 1, 2, 1, 2],
            color,
        ) + digit_rects(
            7,
            0,
            ((n / 10) % 10) as int,
            seq![1i32, 1, 2, 1, 1],
            seq![2i32, 1, 2, 1, 2, 1, 2],
            color,
        ) + digit_rects(
            14,
            0,
            (n % 10) as int,
            seq![1i32, 1, 2, 1, 1],
            seq![2i32, 1, 2, 1, 2, 1, 2],
            color,
        ),
        10 <= n < 100 ==> number_rects(n, color) == digit_rects(
            0,
            0,
            (n / 10) as int,
            seq![2i32, 1, 2, 1, 2],
            seq![2i32, 1, 2, 1, 2, 1, 2],
            color,
        ) + digit_rects(
            12,
            0,
            (n % 10) as int,
            seq![2i32, 1, 2, 1, 2],
            seq![2i32, 1, 2, 1, 2, 1, 2],
            color,
        ),
        n < 10 ==> number_rects(n, color) == digit_rects(
            5,
            0,
            n as int,
            seq![2i32, 2, 2, 2, 2],
            seq![2i32, 1, 2, 1, 2, 1, 2],
            color,
        ),
{
    let digits = decimal_digits(n);
    if n >= 100 {
        assert(decimal_digits(n / 100) == seq![(n / 100) as u8]);
        assert(n / 10 >= 10);
        assert(decimal_digits(n / 10) == decimal_digits(n / 10 / 10).push(((n / 10) % 10) as u8));
        assert(n / 10 / 10 == n / 100);
        assert(digits == decimal_digits(n / 10).push((n % 10) as u8));
        assert(digits =~= seq![(n / 100) as u8, ((n / 10) % 10) as u8, (n % 10) as u8]);
        lemma_number_layout(3);
        let step = prefix_sum(style_column_widths(3), 5) + style_gap(3);
        assert(step == 7);
        let d0 = digits_rects(digits, 0, 7, color, 0);
        let d1 = digits_rects(digits, 0, 7, color, 1);
        let d2 = digits_rects(digits, 0, 7, color, 2);
        let d3 = digits_rects(digits, 0, 7, color, 3);
        assert(d0 == Seq::<FilledRect>::empty());
        assert(d1 == d0 + digit_rects(0, 0, digits[0] as int, style_column_widths(3), style_row_heights(), color));
        assert(d2 == d1 + digit_rects(7, 0, digits[1] as int, style_column_widths(3), style_row_heights(), color));
        assert(d3 == d2 + digit_rects(0 + (3 - 1) * 7, 0, digits[3 - 1] as int, style_column_widths(3), style_row_heights(), color));
        assert(0 + (3 - 1) * 7 == 14);
        assert(d1 =~= digit_rects(0, 0, digits[0] as int, style_column_widths(3), style_row_heights(), color));
    } else if n >= 10 {
        assert(decimal_digits(n / 10) == seq![(n / 10) as u8]);
        assert(digits == decimal_digits(n / 10).push((n % 10) as u8));
        assert(digits =~= seq![(n / 10) as u8, (n % 10) as u8]);
        lemma_number_layout(2);
        let d0 = digits_rects(digits, 0, 12, color, 0);
        let d1 = digits_rects(digits, 0, 12, color, 1);
        let d2 = digits_rects(digits, 0, 12, color, 2);
        assert(d0 == Seq::<FilledRect>::empty());
        assert(d1 == d0 + digit_rects(0, 0, digits[0] as int, style_column_widths(2), style_row_heights(), color));
        assert(d2 == d1 + digit_rects(12, 0, digits[1] as int, style_column_widths(2), style_row_heights(), color));
        assert(d1 =~= digit_rects(0, 0, digits[0] as int, style_column_widths(2), style_row_heights(), color));
    } else {
        assert(digits == seq![n as u8]);
        lemma_number_layout(1);
        let d0 = digits_rects(digits, 5, 10, color, 0);
        let d1 = digits_rects(digits, 5, 10, color, 1);
        assert(d0 == Seq::<FilledRect>::empty());
        assert(d1 == d0 + digit_rects(5, 0, digits[0] as int, style_column_widths(1), style_row_heights(), color));
        assert(d1 =~= digit_rects(5, 0, digits[0] as int, style_column_widths(1), style_row_heights(), color));
    }
}

fn draw_centered_number(canvas: &mut Canvas, metrics: IconMetrics, number: u16, color: Color)
    requires
        drawable(*old(canvas)),
        number <= 999,
    ensures
        drawable(*final(canvas)),
        painted(*final(canvas), *old(canvas), number_rects(number as nat, color)),
{
    let ghost before = canvas_pixels(*canvas);
    let ghost w = canvas_size(*canvas).0 as int;
    let digits = digits_of(number);
    let count = digits.len();
    let style = digit_style(count);
    proof {
        lemma_number_layout(count as int);
        lemma_row_heights_prefix();
    }
    let digit_width = digit_width(style);
    proof {
        assert(0 <= digit_width <= 10);
        assert(0 <= style.gap <= 4);
        assert(0 <= count * digit_width <= 30) by (nonlinear_arith)
            requires
                1 <= count <= 3,
                0 <= digit_width <= 10,
        ;
        assert(0 <= (count - 1) * style.gap <= 8) by (nonlinear_arith)
            requires
                1 <= count <= 3,
                0 <= style.gap <= 4,
        ;
    }
    let total_width = count as i32 * digit_width + (count as i32 - 1) * style.gap;
    let half = (ICON_SIZE - total_width) / 2;
    let start_x: i32 = if half > 0 {
        half
    } else {
        0
    };
    let step = digit_width + style.gap;
    let mut index: usize = 0;
    while index < count
        invariant
            drawable(*canvas),
            forall|k: nat| k <= 5 ==> 0 <= #[trigger] prefix_sum(style.column_widths@, k) <= 10,
            forall|k: nat| k <= 7 ==> 0 <= #[trigger] prefix_sum(style.row_heights@, k) <= 11,
            count == digits@.len(),
            1 <= count <= 3,
            digits@ == decimal_digits(number as nat),
            style.column_widths@ == style_column_widths(count as int),
            style.row_heights@ == style_row_heights(),
            style.y == 0,
            start_x == number_start_x(count as int),
            step == prefix_sum(style_column_widths(count as int), 5) + style_gap(count as int),
            0 <= start_x <= 10,
            0 <= step <= 14,
            0 <= index <= count,
            canvas_size(*canvas) == canvas_size(*old(canvas)),
            before == canvas_pixels(*old(canvas)),
            w == canvas_size(*old(canvas)).0,
            canvas_pixels(*canvas) == paint_all(
                before,
                w,
                digits_rects(digits@, start_x as int, step as int, color, index as nat),
            ),
        decreases count - index,
    {
        let ghost done = digits_rects(digits@, start_x as int, step as int, color, index as nat);
        proof {
            assert(0 <= index * step <= 28) by (nonlinear_arith)
                requires
                    0 <= index <= 2,
                    0 <= step <= 14,
            ;
        }
        let x = start_x + index as i32 * step;
        draw_digit(canvas, metrics, x, style.y, digits[index], style, color);
        proof {
            lemma_paint_all_concat(
                before,
                w,
                done,
                digit_rects(
                    x as int,
                    0,
                    digits@[index as int] as int,
                    style.column_widths@,
                    style.row_heights@,
                    color,
                ),
            );
        }
        index = index + 1;
    }
}

/// The tap mark shown before there is a tempo: a small "T".
pub open spec fn tap_mark_rects(color: Color) -> Seq<FilledRect> {
    seq![
        FilledRect { x: 6, y: 2, width: 8, height: 2, color },
        FilledRect { x: 9, y: 2, width: 2, height: 8, color },
        FilledRect { x: 7, y: 8, width: 6, height: 2, color },
    ]
}

fn draw_tap_mark(canvas: &mut Canvas, metrics: IconMetrics, color: Color)
    requires
        drawable(*old(canvas)),
    ensures
        drawable(*final(canvas)),
        painted(*final(canvas), *old(canvas), tap_mark_rects(color)),
{
    let ghost before = canvas_pixels(*canvas);
    let ghost w = canvas_size(*canvas).0 as int;
    let ghost rects = tap_mark_rects(color);
    draw_rect(canvas, metrics, 6, 2, 8, 2, color);
    proof {
        lemma_paint_all_push(before, w, Seq::empty(), rects[0]);
        assert(Seq::<FilledRect>::empty().push(rects[0]) =~= rects.take(1));
    }
    draw_rect(canvas, metrics, 9, 2, 2, 8, color);
    proof {
        lemma_paint_all_push(before, w, rects.take(1), rects[1]);
        assert(rects.take(1).push(rects[1]) =~= rects.take(2));
    }
    draw_rect(canvas, metrics, 7, 8, 6, 2, color);
    proof {
        lemma_paint_all_push(before, w, rects.take(2), rects[2]);
        assert(rects.take(2).push(rects[2]) =~= rects);
    }
}

/// Everything the icon draws over its background: the tap grid, then the
/// tempo (capped at 999) or, without one, the tap mark.
pub open spec fn icon_rects(render: TrayIconRender) -> Seq<FilledRect> {
    let colors = theme_colors(render.theme, render.state);
    let grid = grid_rects(
        render.tap_count as int,
        render.stable_tap_dots as int,
        colors.empty_dot,
        colors.filled_dot,
        colors.newest_dot,
    );
    match render.bpm {
        Some(value) => grid + number_rects(
            if value > 999 {
                999nat
            } else {
                value as nat
            },
            colors.foreground,
        ),
        None => grid + tap_mark_rects(colors.foreground),
    }
}

/// The icon's pixels, row by row: the background of its state's colours
/// with `icon_rects` painted over it.
pub open spec fn icon_pixels(render: TrayIconRender) -> Seq<Color> {
    let colors = theme_colors(render.theme, render.state);
    paint_all(Seq::new(400, |i: int| colors.background), 20, icon_rects(render))
}

/// The tap grid's state numbers always fit in a `usize`: the grid starts on
/// a row boundary at or below the last whole row.
proof fn lemma_grid_states_fit(tap_count: usize)
    ensures
        first_visible_state(tap_count as int) + 23 <= usize::MAX,
{
    let t = tap_count as int;
    let g = t / 8;
    assert(8 * g <= t < 8 * g + 8);
    assert(8 * (usize::MAX as int / 8) + 7 == usize::MAX);
    assert(g <= usize::MAX as int / 8);
}

/// Draws the icon for a non-idle state.
pub fn render_icon_pixels(render: TrayIconRender) -> (canvas: Canvas)
    ensures
        canvas_wf(canvas),
        canvas_size(canvas) == (20u32, 20u32),
        canvas_pixels(canvas) == icon_pixels(render),
{
    let colors = render.theme.colors_for(render.state);
    let metrics = render.metrics;
    let size = ICON_SIZE as u32;
    let mut canvas = new_canvas(size, size, colors.background);
    proof {
        lemma_grid_states_fit(render.tap_count);
    }
    let ghost background = canvas_pixels(canvas);
    proof {
        assert(background =~= Seq::new(400, |i: int| colors.background));
    }
    draw_tap_grid(
        &mut canvas,
        metrics,
        render.tap_count,
        render.stable_tap_dots,
        colors.empty_dot,
        colors.filled_dot,
        colors.newest_dot,
    );
    let ghost grid = grid_rects(
        render.tap_count as int,
        render.stable_tap_dots as int,
        colors.empty_dot,
        colors.filled_dot,
        colors.newest_dot,
    );
    match render.bpm {
        Some(value) => {
            let shown = if value < 999 {
                value
            } else {
                999
            };
            draw_centered_number(&mut canvas, metrics, shown, colors.foreground);
            proof {
                lemma_paint_all_concat(
                    background,
                    20,
                    grid,
                    number_rects(shown as nat, colors.foreground),
                );
            }
        },
        None => {
            draw_tap_mark(&mut canvas, metrics, colors.foreground);
            proof {
                lemma_paint_all_concat(background, 20, grid, tap_mark_rects(colors.foreground));
            }
        },
    }
    canvas
}

/// The visible grid rolls by whole rows: it starts on a row boundary, never
/// moves back, moves at most one row per tap, and always shows the newest
/// tap's state.
pub proof fn lemma_grid_rolls_by_whole_rows(tap_count: nat)
    ensures
        first_visible_state(tap_count as int) % 8 == 0,
        first_visible_state(tap_count as int) <= first_visible_state(tap_count + 1int)
            <= first_visible_state(tap_count as int) + 8,
        tap_count >= 1 ==> first_visible_state(tap_count as int) <= tap_count - 1
            < first_visible_state(tap_count as int) + 24,
{
    let n = tap_count as int;
    let g = n / 8;
    let g1 = (n + 1) / 8;
    assert(g <= g1 <= g + 1);
    assert(8 * g <= n < 8 * g + 8);
}

/// A row whose eighth state has been reached is a solid bar: its cells and
/// its connector are all drawn in the filled (or newest) colour. A row not
/// yet completed draws only its seven cells.
pub proof fn lemma_completed_rows_are_solid(
    row: int,
    tap_count: int,
    stable_tap_dots: int,
    empty: Color,
    filled: Color,
    newest: Color,
)
    requires
        0 <= row < 3,
        tap_count >= 0,
    ensures
        ({
            let rects = grid_row_rects(row, tap_count, stable_tap_dots, empty, filled, newest);
            let connector = first_visible_state(tap_count) + row * 8 + 7;
            &&& connector < tap_count ==> rects.len() == 13 && forall|i: int|
                0 <= i < 13 ==> (#[trigger] rects[i]).color == filled || rects[i].color
                    == newest
            &&& connector >= tap_count ==> rects.len() == 7
        }),
{
}

/// Every rectangle of the first `rows` grid rows starts at row 12 or below.
proof fn lemma_grid_rows_below_top(
    rows: nat,
    tap_count: int,
    stable_tap_dots: int,
    empty: Color,
    filled: Color,
    newest: Color,
)
    requires
        rows <= 3,
    ensures
        forall|k: int|
            0 <= k < grid_rows_rects(rows, tap_count, stable_tap_dots, empty, filled, newest).len()
                ==> #[trigger] grid_rows_rects(
                rows,
                tap_count,
                stable_tap_dots,
                empty,
                filled,
                newest,
            )[k].y >= 12,
    decreases rows,
{
    if rows > 0 {
        let j = (rows - 1) as nat;
        lemma_grid_rows_below_top(j, tap_count, stable_tap_dots, empty, filled, newest);
        let done = grid_rows_rects(j, tap_count, stable_tap_dots, empty, filled, newest);
        let row = grid_row_rects(j as int, tap_count, stable_tap_dots, empty, filled, newest);
        let all = grid_rows_rects(rows, tap_count, stable_tap_dots, empty, filled, newest);
        assert(all == done + row);
        assert forall|k: int| 0 <= k < all.len() implies #[trigger] all[k].y >= 12 by {
            if k >= done.len() {
                assert(all[k] == row[k - done.len()]);
            }
        }
    }
}

/// The glyph rows of a digit end at or above row 11.
proof fn lemma_glyph_rows_fit(row: int)
    requires
        0 <= row < 7,
    ensures
        0 <= prefix_sum(style_row_heights(), row as nat),
        prefix_sum(style_row_heights(), row as nat) + style_row_heights()[row] <= 11,
{
    reveal_with_fuel(prefix_sum, 8);
}

/// Every lit glyph cell of a digit drawn at the top lies in rows 0 to 10.
proof fn lemma_glyph_cells_in_top(x: int, digit: int, widths: Seq<i32>, color: Color, k: nat)
    requires
        k <= 35,
    ensures
        forall|i: int|
            0 <= i < glyph_cells_rects(x, 0, digit, widths, style_row_heights(), color, k).len()
                ==> {
                let r = #[trigger] glyph_cells_rects(
                    x,
                    0,
                    digit,
                    widths,
                    style_row_heights(),
                    color,
                    k,
                )[i];
                r.y >= 0 && r.y + r.height <= 11
            },
    decreases k,
{
    if k > 0 {
        let j = (k - 1) as nat;
        lemma_glyph_cells_in_top(x, digit, widths, color, j);
        let row = (k - 1) / 5;
        let column = (k - 1) % 5;
        lemma_glyph_rows_fit(row);
        let heights = style_row_heights();
        let done = glyph_cells_rects(x, 0, digit, widths, heights, color, j);
        let all = glyph_cells_rects(x, 0, digit, widths, heights, color, k);
        let cell = glyph_cell_rect(x, 0, widths, heights, row, column, color);
        assert(cell.y == prefix_sum(heights, row as nat));
        assert(cell.height == heights[row]);
        assert forall|i: int| 0 <= i < all.len() implies #[trigger] all[i].y >= 0 && all[i].y
            + all[i].height <= 11 by {
            if glyph_lit(digit, row, column) {
                assert(all == done.push(cell));
                if i < done.len() {
                    assert(all[i] == done[i]);
                }
            } else {
                assert(all == done);
            }
        }
    }
}

/// Every rectangle of the first `k` digits lies in rows 0 to 10.
proof fn lemma_digits_in_top(digits: Seq<u8>, start_x: int, step: int, color: Color, k: nat)
    requires
        k <= digits.len(),
    ensures
        forall|i: int|
            0 <= i < digits_rects(digits, start_x, step, color, k).len() ==> {
                let r = #[trigger] digits_rects(digits, start_x, step, color, k)[i];
                r.y >= 0 && r.y + r.height <= 11
            },
    decreases k,
{
    if k > 0 {
        let j = (k - 1) as nat;
        lemma_digits_in_top(digits, start_x, step, color, j);
        let count = digits.len() as int;
        let x = start_x + j * step;
        let d = digits[j as int] as int;
        let widths = style_column_widths(count);
        let done = digits_rects(digits, start_x, step, color, j);
        let digit = digit_rects(x, 0, d, widths, style_row_heights(), color);
        let all = digits_rects(digits, start_x, step, color, k);
        assert(all == done + digit);
        if 0 <= d < 10 {
            lemma_glyph_cells_in_top(x, d, widths, color, 35);
        }
        assert forall|i: int| 0 <= i < all.len() implies #[trigger] all[i].y >= 0 && all[i].y
            + all[i].height <= 11 by {
            if i >= done.len() {
                assert(all[i] == digit[i - done.len()]);
            }
        }
    }
}

/// The tempo (or tap mark) and the tap grid never overlap: the top twelve
/// rows of the icon show the tempo over the background as if there were no
/// grid, and the bottom eight rows show the grid as if there were no tempo.
pub proof fn lemma_tempo_and_grid_do_not_overlap(render: TrayIconRender, x: int, y: int)
    requires
        0 <= x < 20,
        0 <= y < 20,
    ensures
        ({
            let colors = theme_colors(render.theme, render.state);
            let background = Seq::new(400, |i: int| colors.background);
            let grid = grid_rects(
                render.tap_count as int,
                render.stable_tap_dots as int,
                colors.empty_dot,
                colors.filled_dot,
                colors.newest_dot,
            );
            let top = match render.bpm {
                Some(value) => number_rects(
                    if value > 999 {
                        999nat
                    } else {
                        value as nat
                    },
                    colors.foreground,
                ),
                None => tap_mark_rects(colors.foreground),
            };
            &&& y >= 12 ==> icon_pixels(render)[y * 20 + x] == paint_all(background, 20, grid)[y
                * 20 + x]
            &&& y < 12 ==> icon_pixels(render)[y * 20 + x] == paint_all(background, 20, top)[y
                * 20 + x]
        }),
{
    let colors = theme_colors(render.theme, render.state);
    let background = Seq::new(400, |i: int| colors.background);
    let t = render.tap_count as int;
    let s = render.stable_tap_dots as int;
    let grid = grid_rects(t, s, colors.empty_dot, colors.filled_dot, colors.newest_dot);
    let top = match render.bpm {
        Some(value) => number_rects(
            if value > 999 {
                999nat
            } else {
                value as nat
            },
            colors.foreground,
        ),
        None => tap_mark_rects(colors.foreground),
    };
    assert(icon_rects(render) == grid + top);
    let i = y * 20 + x;
    lemma_index_coords(x, y, 20);
    assert(0 <= i < 400);
    // Where each part lies.
    lemma_grid_rows_below_top(3, t, s, colors.empty_dot, colors.filled_dot, colors.newest_dot);
    match render.bpm {
        Some(value) => {
            let n: nat = if value > 999 {
                999nat
            } else {
                value as nat
            };
            let digits = decimal_digits(n);
            let count = digits.len() as int;
            lemma_digits_in_top(
                digits,
                number_start_x(count),
                prefix_sum(style_column_widths(count), 5) + style_gap(count),
                colors.foreground,
                digits.len(),
            );
        },
        None => {},
    }
    assert(forall|k: int| 0 <= k < top.len() ==> #[trigger] top[k].y >= 0 && top[k].y
        + top[k].height <= 11);
    if y >= 12 {
        assert forall|k: int| 0 <= k < top.len() implies !covers(#[trigger] top[k], i % 20, i / 20) by {
            assert(top[k].y >= 0 && top[k].y + top[k].height <= 11);
        }
        lemma_paint_all_len(background, 20, grid);
        let painted_grid = paint_all(background, 20, grid);
        lemma_paint_all_concat(background, 20, grid, top);
        lemma_paint_all_skips_uncovered(painted_grid, 20, top, Seq::empty(), i);
        assert(top + Seq::<FilledRect>::empty() =~= top);
    } else {
        assert forall|k: int| 0 <= k < grid.len() implies !covers(#[trigger] grid[k], i % 20, i / 20) by {
            assert(grid[k].y >= 12);
        }
        lemma_paint_all_skips_uncovered(background, 20, grid, top, i);
    }
}

/// Whether grid row `row` has reached its eighth state (its connector).
pub open spec fn row_completed(row: int, tap_count: int) -> bool {
    first_visible_state(tap_count) + row * 8 + 7 < tap_count
}

/// The first `low` grid rows are drawn first: their rectangles start the
/// list of the first `high` rows.
proof fn lemma_grid_rows_prefix(
    low: nat,
    high: nat,
    tap_count: int,
    stable_tap_dots: int,
    empty: Color,
    filled: Color,
    newest: Color,
)
    requires
        low <= high,
    ensures
        grid_rows_rects(low, tap_count, stable_tap_dots, empty, filled, newest).len()
            <= grid_rows_rects(high, tap_count, stable_tap_dots, empty, filled, newest).len(),
        forall|k: int|
            0 <= k < grid_rows_rects(low, tap_count, stable_tap_dots, empty, filled, newest).len()
                ==> grid_rows_rects(high, tap_count, stable_tap_dots, empty, filled, newest)[k]
                == #[trigger] grid_rows_rects(
                low,
                tap_count,
                stable_tap_dots,
                empty,
                filled,
                newest,
            )[k],
    decreases high,
{
    if low < high {
        let j = (high - 1) as nat;
        lemma_grid_rows_prefix(low, j, tap_count, stable_tap_dots, empty, filled, newest);
        let done = grid_rows_rects(j, tap_count, stable_tap_dots, empty, filled, newest);
        let last = grid_row_rects(j as int, tap_count, stable_tap_dots, empty, filled, newest);
        assert(grid_rows_rects(high, tap_count, stable_tap_dots, empty, filled, newest) == done
            + last);
    }
}

/// Each rectangle the first `rows` grid rows draw is one of the rectangles
/// of one of those rows: the row and the position in it.
proof fn lemma_grid_rows_member(
    rows: nat,
    tap_count: int,
    stable_tap_dots: int,
    empty: Color,
    filled: Color,
    newest: Color,
    k: int,
) -> (place: (int, int))
    requires
        0 <= k < grid_rows_rects(rows, tap_count, stable_tap_dots, empty, filled, newest).len(),
    ensures
        0 <= place.0 < rows,
        0 <= place.1 < grid_row_rects(
            place.0,
            tap_count,
            stable_tap_dots,
            empty,
            filled,
            newest,
        ).len(),
        grid_rows_rects(rows, tap_count, stable_tap_dots, empty, filled, newest)[k]
            == grid_row_rects(place.0, tap_count, stable_tap_dots, empty, filled, newest)[place.1],
    decreases rows,
{
    let q = (rows - 1) as nat;
    let done = grid_rows_rects(q, tap_count, stable_tap_dots, empty, filled, newest);
    let last = grid_row_rects(q as int, tap_count, stable_tap_dots, empty, filled, newest);
    let all = grid_rows_rects(rows, tap_count, stable_tap_dots, empty, filled, newest);
    assert(all == done + last);
    if k < done.len() {
        assert(all[k] == done[k]);
        lemma_grid_rows_member(q, tap_count, stable_tap_dots, empty, filled, newest, k)
    } else {
        assert(all[k] == last[k - done.len()]);
        (q as int, k - done.len())
    }
}

/// Each cell of the tap grid shows its tap state in the icon: a cell whose
/// state has been reached shows the filled colour (the newest-tap colour for
/// the newest tap once there are at least `stable_tap_dots` taps), and a cell
/// not yet reached shows the empty colour.
pub proof fn lemma_grid_cell_shows_its_state(
    render: TrayIconRender,
    row: int,
    column: int,
    px: int,
    py: int,
)
    requires
        0 <= row < 3,
        0 <= column < 7,
        render.stable_tap_dots > 0,
        3 * column <= px < 3 * column + 2,
        12 + 3 * row <= py < 14 + 3 * row,
    ensures
        ({
            let colors = theme_colors(render.theme, render.state);
            let t = render.tap_count as int;
            let state = first_visible_state(t) + row * 8 + column;
            let pixel = icon_pixels(render)[py * 20 + px];
            &&& state < t ==> (pixel == colors.filled_dot || pixel == colors.newest_dot)
            &&& state >= t ==> pixel == colors.empty_dot
            &&& (t >= render.stable_tap_dots && state == t - 1) ==> pixel == colors.newest_dot
        }),
{
    let colors = theme_colors(render.theme, render.state);
    let t = render.tap_count as int;
    let st = render.stable_tap_dots as int;
    let e = colors.empty_dot;
    let f = colors.filled_dot;
    let nw = colors.newest_dot;
    let background = Seq::new(400, |i: int| colors.background);
    let grid = grid_rects(t, st, e, f, nw);
    let top = match render.bpm {
        Some(value) => number_rects(
            if value > 999 {
                999nat
            } else {
                value as nat
            },
            colors.foreground,
        ),
        None => tap_mark_rects(colors.foreground),
    };
    let rects = icon_rects(render);
    assert(rects == grid + top);
    assert(grid == grid_rows_rects(3, t, st, e, f, nw));
    let i = py * 20 + px;
    lemma_index_coords(px, py, 20);
    assert(0 <= i < 400);
    let state = first_visible_state(t) + row * 8 + column;
    let expected = state_color(state, t, st, e, f, nw);
    // The cell itself covers the pixel.
    let row_rects = grid_row_rects(row, t, st, e, f, nw);
    assert(row_rects[column] == cell_rect(row, column, expected));
    let before = grid_rows_rects(row as nat, t, st, e, f, nw);
    let through = grid_rows_rects((row + 1) as nat, t, st, e, f, nw);
    assert(through == before + row_rects);
    let k = before.len() + column;
    assert(through[k] == row_rects[column]);
    lemma_grid_rows_prefix((row + 1) as nat, 3, t, st, e, f, nw);
    assert(rects[k] == grid[k]);
    assert(covers(rects[k], i % 20, i / 20));
    // Nothing else covering the pixel has another colour.
    match render.bpm {
        Some(value) => {
            let n: nat = if value > 999 {
                999nat
            } else {
                value as nat
            };
            let digits = decimal_digits(n);
            let count = digits.len() as int;
            lemma_digits_in_top(
                digits,
                number_start_x(count),
                prefix_sum(style_column_widths(count), 5) + style_gap(count),
                colors.foreground,
                digits.len(),
            );
        },
        None => {},
    }
    assert(forall|m: int| 0 <= m < top.len() ==> #[trigger] top[m].y >= 0 && top[m].y
        + top[m].height <= 11);
    lemma_paint_all_pixel(background, 20, rects, i);
    let m = choose|m: int|
        0 <= m < rects.len() && covers(#[trigger] rects[m], i % 20, i / 20) && paint_all(
            background,
            20,
            rects,
        )[i] == rects[m].color;
    if m < grid.len() {
        assert(rects[m] == grid[m]);
        let (r, j) = lemma_grid_rows_member(3, t, st, e, f, nw, m);
        let rr = grid_row_rects(r, t, st, e, f, nw);
        if j < 7 {
            assert(rr[j].y == 12 + r * 3);
            assert(r == row);
            assert(rr[j].x == 3 * j);
            assert(j == column);
        } else {
            assert(rr[j].y == 12 + r * 3);
            assert(rr[j].x == 3 * (j - 7) + 2 && rr[j].width == 1);
            assert(false);
        }
    } else {
        assert(rects[m] == top[m - grid.len()]);
    }
}

/// A completed grid row is a solid bar in the icon: every pixel of its two
/// lines, from x = 0 to x = 19, shows the filled colour (or the newest-tap
/// colour) of the icon's state, whatever else the icon shows.
pub proof fn lemma_completed_row_is_a_solid_bar(render: TrayIconRender, row: int, px: int, py: int)
    requires
        0 <= row < 3,
        render.stable_tap_dots > 0,
        row_completed(row, render.tap_count as int),
        0 <= px < 20,
        12 + 3 * row <= py < 14 + 3 * row,
    ensures
        ({
            let colors = theme_colors(render.theme, render.state);
            let pixel = icon_pixels(render)[py * 20 + px];
            pixel == colors.filled_dot || pixel == colors.newest_dot
        }),
{
    let colors = theme_colors(render.theme, render.state);
    let t = render.tap_count as int;
    let st = render.stable_tap_dots as int;
    let e = colors.empty_dot;
    let f = colors.filled_dot;
    let nw = colors.newest_dot;
    let background = Seq::new(400, |i: int| colors.background);
    let grid = grid_rects(t, st, e, f, nw);
    let top = match render.bpm {
        Some(value) => number_rects(
            if value > 999 {
                999nat
            } else {
                value as nat
            },
            colors.foreground,
        ),
        None => tap_mark_rects(colors.foreground),
    };
    let rects = icon_rects(render);
    assert(rects == grid + top);
    assert(grid == grid_rows_rects(3, t, st, e, f, nw));
    let i = py * 20 + px;
    lemma_index_coords(px, py, 20);
    assert(0 <= i < 400);
    // A rectangle of this row covers the pixel.
    let row_rects = grid_row_rects(row, t, st, e, f, nw);
    let start = first_visible_state(t) + row * 8;
    let column = px / 3;
    let j = if px % 3 < 2 {
        column
    } else {
        7 + column
    };
    assert(0 <= column <= 6);
    assert(row_rects[j].y == 12 + row * 3 && row_rects[j].height == 2);
    assert(covers(row_rects[j], px, py));
    let before = grid_rows_rects(row as nat, t, st, e, f, nw);
    let through = grid_rows_rects((row + 1) as nat, t, st, e, f, nw);
    assert(through == before + row_rects);
    let k = before.len() + j;
    assert(through[k] == row_rects[j]);
    lemma_grid_rows_prefix((row + 1) as nat, 3, t, st, e, f, nw);
    assert(grid[k] == row_rects[j]);
    assert(rects[k] == grid[k]);
    assert(covers(rects[k], i % 20, i / 20));
    // Every rectangle covering the pixel is filled or newest.
    lemma_completed_rows_are_solid(row, t, st, e, f, nw);
    match render.bpm {
        Some(value) => {
            let n: nat = if value > 999 {
                999nat
            } else {
                value as nat
            };
            let digits = decimal_digits(n);
            let count = digits.len() as int;
            lemma_digits_in_top(
                digits,
                number_start_x(count),
                prefix_sum(style_column_widths(count), 5) + style_gap(count),
                colors.foreground,
                digits.len(),
            );
        },
        None => {},
    }
    assert(forall|m: int| 0 <= m < top.len() ==> #[trigger] top[m].y >= 0 && top[m].y
        + top[m].height <= 11);
    lemma_paint_all_pixel(background, 20, rects, i);
    let m = choose|m: int|
        0 <= m < rects.len() && covers(#[trigger] rects[m], i % 20, i / 20) && paint_all(
            background,
            20,
            rects,
        )[i] == rects[m].color;
    if m < grid.len() {
        assert(rects[m] == grid[m]);
        let (r, j) = lemma_grid_rows_member(3, t, st, e, f, nw, m);
        let rr = grid_row_rects(r, t, st, e, f, nw);
        assert(rr[j].y == 12 + r * 3 && rr[j].height == 2);
        assert(r == row);
    } else {
        assert(rects[m] == top[m - grid.len()]);
    }
}

/// Why the tray icon could not be produced.
#[derive(Debug)]
pub enum IconRenderError {
    /// The idle icon's PNG file did not decode.
    IdleIcon(ImageError),
    /// Writing the icon as PNG failed.
    Encoding(ImageError),
}

/// The idle icon: the picture in `idle_icon_png`, as RGBA pixels.
pub fn render_idle_icon_pixels(idle_icon_png: &[u8]) -> (canvas: Result<Canvas, ImageError>)
    ensures
        match canvas {
            Ok(c) => {
                &&& canvas_wf(c)
                &&& 0 < canvas_size(c).0
                &&& 0 < canvas_size(c).1
                &&& decoded_image(idle_icon_png@) == Some(
                    (canvas_pixels(c), canvas_size(c).0, canvas_size(c).1),
                )
            },
            Err(_) => decoded_image(idle_icon_png@) is None,
        },
{
    decode_image(idle_icon_png)
}

/// The tray icon as a PNG file: for the idle state the picture in
/// `idle_icon_png`, for the other states the drawn icon. It fails only when
/// the idle picture does not decode.
pub fn render_tray_icon(render: TrayIconRender, idle_icon_png: &[u8]) -> (png: Result<
    Vec<u8>,
    IconRenderError,
>)
    ensures
        render.state != IconState::Idle ==> png is Ok,
        render.state == IconState::Idle ==> (png is Ok <==> decoded_image(idle_icon_png@) is Some),
        render.state == IconState::Idle ==> match png {
            Ok(bytes) => decoded_image(idle_icon_png@) matches Some(
                decoded,
            ) && bytes@ == png_bytes(decoded.0, decoded.1, decoded.2),
            Err(IconRenderError::IdleIcon(_)) => decoded_image(idle_icon_png@) is None,
            Err(IconRenderError::Encoding(_)) => false,
        },
        render.state != IconState::Idle ==> match png {
            Ok(bytes) => bytes@ == png_bytes(icon_pixels(render), 20, 20),
            Err(error) => error is Encoding,
        },
{
    let canvas = if render.state == IconState::Idle {
        match render_idle_icon_pixels(idle_icon_png) {
            Ok(canvas) => canvas,
            Err(error) => {
                return Err(IconRenderError::IdleIcon(error));
            },
        }
    } else {
        render_icon_pixels(render)
    };
    match encode_png(canvas) {
        Ok(bytes) => Ok(bytes),
        Err(error) => Err(IconRenderError::Encoding(error)),
    }
}

} // verus!
