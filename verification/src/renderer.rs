use vstd::prelude::*;

use crate::sigma::{grid_shape, Grid, Sigma};

verus! {

/// The three channels of one pixel.
pub type Pixel = (u8, u8, u8);

/// The pixel in row `r`, column `c` of `g`.
pub open spec fn pixel_at(g: Grid, r: int, c: int) -> Pixel {
    (g[r][c][0], g[r][c][1], g[r][c][2])
}

/// Reads the pixel in row `row`, column `col`.
pub fn load_pixel(sigma: &Sigma, row: usize, col: usize) -> (p: Pixel)
    requires
        sigma.wf(),
        row < sigma.spec_height(),
        col < sigma.spec_width(),
    ensures
        p == pixel_at(sigma@, row as int, col as int),
{
    (sigma.cell(row, col, 0), sigma.cell(row, col, 1), sigma.cell(row, col, 2))
}

/// The decimal digits of `n` as ASCII bytes, without leading zeros.
pub open spec fn decimal_bytes(n: u8) -> Seq<u8> {
    if n >= 100 {
        seq![(48 + n / 100) as u8, (48 + (n % 100) / 10) as u8, (48 + n % 10) as u8]
    } else if n >= 10 {
        seq![(48 + n / 10) as u8, (48 + n % 10) as u8]
    } else {
        seq![(48 + n) as u8]
    }
}

/// Appends the decimal digits of `n`.
pub fn write_u8(buf: &mut Vec<u8>, n: u8)
    ensures
        final(buf)@ == old(buf)@ + decimal_bytes(n),
{
    let ghost b = buf@;
    if n >= 100 {
        buf.push(48 + n / 100);
        let m = n % 100;
        buf.push(48 + m / 10);
        buf.push(48 + m % 10);
    } else if n >= 10 {
        buf.push(48 + n / 10);
        buf.push(48 + n % 10);
    } else {
        buf.push(48 + n);
    }
    assert(buf@ =~= b + decimal_bytes(n));
}

fn push_bytes(buf: &mut Vec<u8>, s: &[u8])
    ensures
        final(buf)@ == old(buf)@ + s@,
{
    let mut i: usize = 0;
    while i < s.len()
        invariant
            i <= s@.len(),
            buf@ == old(buf)@ + s@.subrange(0, i as int),
        decreases s@.len() - i,
    {
        buf.push(s[i]);
        i = i + 1;
        assert(buf@ =~= old(buf)@ + s@.subrange(0, i as int));
    }
    assert(s@.subrange(0, s@.len() as int) =~= s@);
}

/// `ESC [ row ; col H`: moves the cursor to row `row`, column `col` (counted from 1).
pub open spec fn cursor_move_bytes(row: u8, col: u8) -> Seq<u8> {
    seq![27u8, 91u8] + decimal_bytes(row) + seq![59u8] + decimal_bytes(col) + seq![72u8]
}

/// Appends the sequence that moves the cursor to row `row`, column `col`.
pub fn write_cursor_move(buf: &mut Vec<u8>, row: u8, col: u8)
    ensures
        final(buf)@ == old(buf)@ + cursor_move_bytes(row, col),
{
    let ghost b = buf@;
    buf.push(27);
    buf.push(91);
    write_u8(buf, row);
    buf.push(59);
    write_u8(buf, col);
    buf.push(72);
    assert(buf@ =~= b + cursor_move_bytes(row, col));
}

/// `ESC [38;2;`: the start of a true-color foreground.
pub open spec fn fg_prefix() -> Seq<u8> {
    seq![27u8, 91u8, 51u8, 56u8, 59u8, 50u8, 59u8]
}

/// `;48;2;`: the start of a true-color background.
pub open spec fn bg_infix() -> Seq<u8> {
    seq![59u8, 52u8, 56u8, 59u8, 50u8, 59u8]
}

/// `;49m`: the default background, closing a color sequence.
pub open spec fn default_bg_suffix() -> Seq<u8> {
    seq![59u8, 52u8, 57u8, 109u8]
}

/// `r;g;b` in decimal.
pub open spec fn rgb_bytes(p: Pixel) -> Seq<u8> {
    decimal_bytes(p.0) + seq![59u8] + decimal_bytes(p.1) + seq![59u8] + decimal_bytes(p.2)
}

/// The sequence that sets the foreground to `fg` and the background to `bg`.
pub open spec fn colors_bytes(fg: Pixel, bg: Pixel) -> Seq<u8> {
    fg_prefix() + rgb_bytes(fg) + bg_infix() + rgb_bytes(bg) + seq![109u8]
}

fn write_rgb(buf: &mut Vec<u8>, p: Pixel)
    ensures
        final(buf)@ == old(buf)@ + rgb_bytes(p),
{
    let ghost b = buf@;
    write_u8(buf, p.0);
    buf.push(59);
    write_u8(buf, p.1);
    buf.push(59);
    write_u8(buf, p.2);
    assert(buf@ =~= b + rgb_bytes(p));
}

/// Appends the sequence that sets the foreground to `fg` and the background to `bg`.
pub fn write_colors(buf: &mut Vec<u8>, fg: Pixel, bg: Pixel)
    ensures
        final(buf)@ == old(buf)@ + colors_bytes(fg, bg),
{
    let ghost b = buf@;
    let start = [27u8, 91u8, 51u8, 56u8, 59u8, 50u8, 59u8];
    let mid = [59u8, 52u8, 56u8, 59u8, 50u8, 59u8];
    assert(start@ =~= fg_prefix());
    assert(mid@ =~= bg_infix());
    push_bytes(buf, &start);
    write_rgb(buf, fg);
    push_bytes(buf, &mid);
    write_rgb(buf, bg);
    buf.push(109);
    assert(buf@ =~= b + colors_bytes(fg, bg));
}

/// The UTF-8 bytes of the upper half block, whose foreground colors the upper half
/// of a character cell and whose background the lower half.
pub open spec fn half_block() -> Seq<u8> {
    seq![226u8, 150u8, 128u8]
}

/// `ESC [?2026h`: the start of a synchronized update.
pub open spec fn sync_begin() -> Seq<u8> {
    seq![27u8, 91u8, 63u8, 50u8, 48u8, 50u8, 54u8, 104u8]
}

/// `ESC [?2026l`: the end of a synchronized update.
pub open spec fn sync_end() -> Seq<u8> {
    seq![27u8, 91u8, 63u8, 50u8, 48u8, 50u8, 54u8, 108u8]
}

/// `ESC [0m`: resets the colors.
pub open spec fn reset_bytes() -> Seq<u8> {
    seq![27u8, 91u8, 48u8, 109u8]
}

/// `ESC [2K`: clears the line of the cursor.
pub open spec fn clear_line_bytes() -> Seq<u8> {
    seq![27u8, 91u8, 50u8, 75u8]
}

/// Why a frame cannot be drawn.
#[derive(Debug, PartialEq, Eq, Structural, Clone, Copy)]
pub enum RenderError {
    /// The terminal has fewer rows or columns than the picture needs.
    TerminalTooSmall,
    /// The size of the terminal is not known.
    TerminalUnknown,
}

/// What the terminal shows of the memory: each character cell draws two pixels of a
/// column, the upper one in its upper half; an odd last row is drawn alone.
pub struct RenderState {
    sigma_height: u8,
    sigma_width: u8,
    pair_rows: Vec<Vec<(Pixel, Pixel)>>,
    last_row: Option<Vec<Pixel>>,
}

/// The abstract form of what the terminal shows.
pub struct SpecRenderState {
    pub height: u8,
    pub width: u8,
    pub pair_rows: Seq<Seq<(Pixel, Pixel)>>,
    pub last_row: Option<Seq<Pixel>>,
}

/// The two pixels that the cell in character row `r`, column `c` draws.
pub open spec fn pair_at(g: Grid, r: int, c: int) -> (Pixel, Pixel) {
    (pixel_at(g, 2 * r, c), pixel_at(g, 2 * r + 1, c))
}

/// The bytes that redraw the cells of character row `r` up to column `c` whose pixels
/// differ from `prev`.
pub open spec fn pair_row_bytes(prev: Seq<(Pixel, Pixel)>, g: Grid, r: int, c: int) -> Seq<u8>
    decreases c,
{
    if c <= 0 {
        Seq::empty()
    } else {
        let cur = pair_at(g, r, c - 1);
        pair_row_bytes(prev, g, r, c - 1) + if cur != prev[c - 1] {
            cursor_move_bytes((r + 1) as u8, c as u8) + colors_bytes(cur.0, cur.1) + half_block()
        } else {
            Seq::empty()
        }
    }
}

/// The bytes that redraw the changed cells of the first `r` character rows.
pub open spec fn pairs_bytes(prev: Seq<Seq<(Pixel, Pixel)>>, g: Grid, width: int, r: int) -> Seq<u8>
    decreases r,
{
    if r <= 0 {
        Seq::empty()
    } else {
        pairs_bytes(prev, g, width, r - 1) + pair_row_bytes(prev[r - 1], g, r - 1, width)
    }
}

/// The bytes that redraw, on character row `line`, the changed pixels of the memory row
/// `row` up to column `c`.
pub open spec fn last_row_bytes(prev: Seq<Pixel>, g: Grid, row: int, line: u8, c: int) -> Seq<u8>
    decreases c,
{
    if c <= 0 {
        Seq::empty()
    } else {
        let cur = pixel_at(g, row, c - 1);
        last_row_bytes(prev, g, row, line, c - 1) + if cur != prev[c - 1] {
            cursor_move_bytes(line, c as u8) + fg_prefix() + rgb_bytes(cur) + default_bg_suffix() + half_block()
        } else {
            Seq::empty()
        }
    }
}

/// The number of character rows the memory takes.
pub open spec fn text_rows(height: u8) -> int {
    (height as int + 1) / 2
}

/// The frame that brings the terminal from `s` to the memory `g`: the changed cells,
/// then the cleared status line holding `status`, then the end of the update.
pub open spec fn frame_bytes(s: SpecRenderState, g: Grid, status: Seq<u8>) -> Seq<u8> {
    let n = s.height / 2;
    let last: Seq<u8> = match s.last_row {
        Some(prev) => last_row_bytes(prev, g, s.height - 1, (n + 1) as u8, s.width as int),
        None => Seq::empty(),
    };
    sync_begin() + pairs_bytes(s.pair_rows, g, s.width as int, n as int) + last + cursor_move_bytes(
        (text_rows(s.height) + 1) as u8,
        1,
    ) + reset_bytes() + clear_line_bytes() + status + reset_bytes() + sync_end()
}

/// What the terminal shows of the memory `g` of `height` rows of `width` pixels.
pub open spec fn shown(g: Grid, height: u8, width: u8) -> SpecRenderState {
    SpecRenderState {
        height,
        width,
        pair_rows: Seq::new((height / 2) as nat, |r: int| Seq::new(width as nat, |c: int| pair_at(g, r, c))),
        last_row: if height % 2 == 1 {
            Some(Seq::new(width as nat, |c: int| pixel_at(g, height - 1, c)))
        } else {
            None
        },
    }
}

/// What the terminal shows before the first frame: every pixel white.
pub open spec fn blank(height: u8, width: u8) -> SpecRenderState {
    let white: Pixel = (255u8, 255u8, 255u8);
    SpecRenderState {
        height,
        width,
        pair_rows: Seq::new((height / 2) as nat, |r: int| Seq::new(width as nat, |c: int| (white, white))),
        last_row: if height % 2 == 1 {
            Some(Seq::new(width as nat, |c: int| white))
        } else {
            None
        },
    }
}

impl View for RenderState {
    type V = SpecRenderState;

    closed spec fn view(&self) -> SpecRenderState {
        SpecRenderState {
            height: self.sigma_height,
            width: self.sigma_width,
            pair_rows: self.pair_rows@.map_values(|v: Vec<(Pixel, Pixel)>| v@),
            last_row: match self.last_row {
                Some(v) => Some(v@),
                None => None,
            },
        }
    }
}

/// The rows of a state match its dimensions.
pub open spec fn state_wf(s: SpecRenderState) -> bool {
    &&& s.pair_rows.len() == s.height / 2
    &&& forall|r: int| 0 <= r < s.pair_rows.len() ==> #[trigger] s.pair_rows[r].len() == s.width
    &&& (s.last_row is Some <==> s.height % 2 == 1)
    &&& (s.last_row is Some ==> s.last_row->Some_0.len() == s.width)
}


fn same_pixel(a: Pixel, b: Pixel) -> (r: bool)
    ensures
        r == (a == b),
{
    a.0 == b.0 && a.1 == b.1 && a.2 == b.2
}

impl RenderState {
    /// The state before the first frame, for the memory `sigma`: every pixel white.
    pub fn build_initial(sigma: &Sigma) -> (s: RenderState)
        requires
            sigma.wf(),
            sigma.spec_height() > 0,
        ensures
            s@ == blank(sigma.spec_height() as u8, sigma.spec_width() as u8),
            state_wf(s@),
    {
        let height = sigma.height();
        let width = sigma.width();
        let white: Pixel = (255, 255, 255);
        let n = (height / 2) as usize;
        let w = width as usize;
        let mut pair_rows: Vec<Vec<(Pixel, Pixel)>> = Vec::new();
        let mut r: usize = 0;
        while r < n
            invariant
                r <= n,
                pair_rows@.len() == r,
                forall|k: int| 0 <= k < r ==> #[trigger] pair_rows@[k]@ == Seq::new(w as nat, |j: int| (white, white)),
            decreases n - r,
        {
            let mut row: Vec<(Pixel, Pixel)> = Vec::new();
            let mut c: usize = 0;
            while c < w
                invariant
                    c <= w,
                    row@ == Seq::new(c as nat, |j: int| (white, white)),
                decreases w - c,
            {
                row.push((white, white));
                c = c + 1;
                assert(row@ =~= Seq::new(c as nat, |j: int| (white, white)));
            }
            pair_rows.push(row);
            r = r + 1;
        }
        let last_row = if height % 2 == 1 {
            let mut last: Vec<Pixel> = Vec::new();
            let mut c: usize = 0;
            while c < w
                invariant
                    c <= w,
                    last@ == Seq::new(c as nat, |j: int| white),
                decreases w - c,
            {
                last.push(white);
                c = c + 1;
                assert(last@ =~= Seq::new(c as nat, |j: int| white));
            }
            Some(last)
        } else {
            None
        };
        let s = RenderState { sigma_height: height, sigma_width: width, pair_rows, last_row };
        assert(s@.pair_rows =~~= blank(height, width).pair_rows);
        s
    }

    /// Writes to `buf` the frame that brings the terminal, of `terminal` columns and
    /// rows when its size is known, from what it shows to the memory `sigma`: only the
    /// cells whose pixels changed are redrawn, and the status line shows `status`.
    #[verifier::spinoff_prover]
    pub fn write_changes(
        &mut self,
        sigma: &Sigma,
        buf: &mut Vec<u8>,
        terminal: Option<(u16, u16)>,
        status: &Vec<u8>,
    ) -> (r: Result<(), RenderError>)
        requires
            state_wf(old(self)@),
            sigma.wf(),
            sigma.spec_height() == old(self)@.height,
            sigma.spec_width() == old(self)@.width,
        ensures
            state_wf(final(self)@),
            match terminal {
                None => r == Err::<(), RenderError>(RenderError::TerminalUnknown) && final(self)@ == old(self)@
                    && final(buf)@ == old(buf)@,
                Some((cols, rows)) => if (rows as int) < text_rows(old(self)@.height) || (cols as int) < old(
                    self,
                )@.width {
                    r == Err::<(), RenderError>(RenderError::TerminalTooSmall) && final(self)@ == old(self)@
                        && final(buf)@ == old(buf)@
                } else {
                    r is Ok && final(buf)@ == frame_bytes(old(self)@, sigma@, status@) && final(self)@ == shown(
                        sigma@,
                        old(self)@.height,
                        old(self)@.width,
                    )
                },
            },
    {
        let ghost s0 = self@;
        let ghost g = sigma@;
        proof {
            sigma.lemma_shape();
        }
        let height = self.sigma_height;
        let width = self.sigma_width;
        let total_rows: u16 = ((height as u16) + 1) / 2;
        match terminal {
            None => {
                return Err(RenderError::TerminalUnknown);
            },
            Some((cols, rows)) => {
                if rows < total_rows || cols < width as u16 {
                    return Err(RenderError::TerminalTooSmall);
                }
            },
        }
        let n = (height / 2) as usize;
        let w = width as usize;
        buf.clear();
        let begin = [27u8, 91u8, 63u8, 50u8, 48u8, 50u8, 54u8, 104u8];
        assert(begin@ =~= sync_begin());
        push_bytes(buf, &begin);
        assert(buf@ =~= sync_begin() + pairs_bytes(s0.pair_rows, g, w as int, 0));
        let block = [226u8, 150u8, 128u8];
        assert(block@ =~= half_block());
        let mut r: usize = 0;
        while r < n
            invariant
                sigma.wf(),
                g == sigma@,
                sigma.spec_height() == height,
                sigma.spec_width() == width,
                grid_shape(g, width as nat, height as nat),
                height == s0.height,
                width == s0.width,
                state_wf(s0),
                n == height / 2,
                w == width,
                r <= n,
                block@ == half_block(),
                self.sigma_height == height,
                self.sigma_width == width,
                self.last_row == old(self).last_row,
                s0 == old(self)@,
                self.pair_rows@.len() == n,
                forall|k: int| 0 <= k < r ==> #[trigger] self.pair_rows@[k]@ == Seq::new(
                    w as nat,
                    |c: int| pair_at(g, k, c),
                ),
                forall|k: int| r <= k < n ==> #[trigger] self.pair_rows@[k]@ == s0.pair_rows[k],
                buf@ == sync_begin() + pairs_bytes(s0.pair_rows, g, w as int, r as int),
            decreases n - r,
        {
            let ghost prefix = buf@;
            let ghost prev = s0.pair_rows[r as int];
            let mut new_row: Vec<(Pixel, Pixel)> = Vec::new();
            let mut c: usize = 0;
            while c < w
                invariant
                    sigma.wf(),
                    g == sigma@,
                    sigma.spec_height() == height,
                    sigma.spec_width() == width,
                    grid_shape(g, width as nat, height as nat),
                    n == height / 2,
                    w == width,
                    r < n,
                    c <= w,
                    block@ == half_block(),
                    prev == s0.pair_rows[r as int],
                    prev.len() == w,
                    self.pair_rows@.len() == n,
                    self.pair_rows@[r as int]@ == prev,
                    new_row@ == Seq::new(c as nat, |j: int| pair_at(g, r as int, j)),
                    buf@ == prefix + pair_row_bytes(prev, g, r as int, c as int),
                decreases w - c,
            {
                let top = load_pixel(sigma, 2 * r, c);
                let bottom = load_pixel(sigma, 2 * r + 1, c);
                let before = self.pair_rows[r][c];
                assert(before == prev[c as int]);
                let ghost b = buf@;
                if !(same_pixel(top, before.0) && same_pixel(bottom, before.1)) {
                    write_cursor_move(buf, (r as u8) + 1, (c as u8) + 1);
                    write_colors(buf, top, bottom);
                    push_bytes(buf, &block);
                }
                new_row.push((top, bottom));
                c = c + 1;
                assert(new_row@ =~= Seq::new(c as nat, |j: int| pair_at(g, r as int, j)));
                assert(buf@ =~= prefix + pair_row_bytes(prev, g, r as int, c as int));
            }
            self.pair_rows.set(r, new_row);
            r = r + 1;
        }
        let ghost after_pairs = buf@;
        let line = (n + 1) as u8;
        let last_new: Option<Vec<Pixel>> = match &self.last_row {
            None => None,
            Some(prev_row) => {
                let ghost prev = prev_row@;
                let last_idx = (height - 1) as usize;
                let mut fresh: Vec<Pixel> = Vec::new();
                let mut c: usize = 0;
                let fg_start = [27u8, 91u8, 51u8, 56u8, 59u8, 50u8, 59u8];
                let bg_default = [59u8, 52u8, 57u8, 109u8];
                assert(fg_start@ =~= fg_prefix());
                assert(bg_default@ =~= default_bg_suffix());
                while c < w
                    invariant
                        sigma.wf(),
                        g == sigma@,
                        sigma.spec_height() == height,
                        sigma.spec_width() == width,
                        grid_shape(g, width as nat, height as nat),
                        w == width,
                        c <= w,
                        last_idx == height - 1,
                        height % 2 == 1,
                        prev.len() == w,
                        prev_row@ == prev,
                        block@ == half_block(),
                        fg_start@ == fg_prefix(),
                        bg_default@ == default_bg_suffix(),
                        fresh@ == Seq::new(c as nat, |j: int| pixel_at(g, last_idx as int, j)),
                        buf@ == after_pairs + last_row_bytes(prev, g, last_idx as int, line, c as int),
                    decreases w - c,
                {
                    let cur = load_pixel(sigma, last_idx, c);
                    if !same_pixel(cur, prev_row[c]) {
                        write_cursor_move(buf, line, (c as u8) + 1);
                        push_bytes(buf, &fg_start);
                        write_rgb(buf, cur);
                        push_bytes(buf, &bg_default);
                        push_bytes(buf, &block);
                    }
                    fresh.push(cur);
                    c = c + 1;
                    assert(fresh@ =~= Seq::new(c as nat, |j: int| pixel_at(g, last_idx as int, j)));
                    assert(buf@ =~= after_pairs + last_row_bytes(prev, g, last_idx as int, line, c as int));
                }
                Some(fresh)
            },
        };
        self.last_row = last_new;
        let status_line = (total_rows as u8) + 1;
        write_cursor_move(buf, status_line, 1);
        let reset = [27u8, 91u8, 48u8, 109u8];
        let clear = [27u8, 91u8, 50u8, 75u8];
        assert(reset@ =~= reset_bytes());
        assert(clear@ =~= clear_line_bytes());
        push_bytes(buf, &reset);
        push_bytes(buf, &clear);
        let ghost before_status = buf@;
        let mut i: usize = 0;
        while i < status.len()
            invariant
                i <= status@.len(),
                buf@ == before_status + status@.subrange(0, i as int),
            decreases status@.len() - i,
        {
            buf.push(status[i]);
            i = i + 1;
            assert(buf@ =~= before_status + status@.subrange(0, i as int));
        }
        assert(status@.subrange(0, status@.len() as int) =~= status@);
        let end = [27u8, 91u8, 63u8, 50u8, 48u8, 50u8, 54u8, 108u8];
        assert(end@ =~= sync_end());
        push_bytes(buf, &reset);
        push_bytes(buf, &end);
        assert(buf@ =~= frame_bytes(s0, g, status@));
        assert(self@.pair_rows =~~= shown(g, height, width).pair_rows);
        Ok(())
    }
}



/// A row of cells that already shows its pixels needs no bytes.
proof fn lemma_pair_row_quiet(prev: Seq<(Pixel, Pixel)>, g: Grid, r: int, c: int)
    requires
        0 <= c <= prev.len(),
        forall|j: int| 0 <= j < c ==> #[trigger] prev[j] == pair_at(g, r, j),
    ensures
        pair_row_bytes(prev, g, r, c) == Seq::<u8>::empty(),
    decreases c,
{
    if c > 0 {
        lemma_pair_row_quiet(prev, g, r, c - 1);
        assert(prev[c - 1] == pair_at(g, r, c - 1));
        assert(pair_row_bytes(prev, g, r, c) =~= Seq::<u8>::empty());
    }
}

/// Rows of cells that already show their pixels need no bytes.
proof fn lemma_pairs_quiet(prev: Seq<Seq<(Pixel, Pixel)>>, g: Grid, width: int, r: int)
    requires
        0 <= r <= prev.len(),
        0 <= width,
        forall|k: int| 0 <= k < r ==> #[trigger] prev[k] == Seq::new(width as nat, |c: int| pair_at(g, k, c)),
    ensures
        pairs_bytes(prev, g, width, r) == Seq::<u8>::empty(),
    decreases r,
{
    if r > 0 {
        lemma_pairs_quiet(prev, g, width, r - 1);
        let row = prev[r - 1];
        assert(row == Seq::new(width as nat, |c: int| pair_at(g, r - 1, c)));
        lemma_pair_row_quiet(row, g, r - 1, width);
        assert(pairs_bytes(prev, g, width, r) =~= Seq::<u8>::empty());
    }
}

/// A last row that already shows its pixels needs no bytes.
proof fn lemma_last_row_quiet(prev: Seq<Pixel>, g: Grid, row: int, line: u8, c: int)
    requires
        0 <= c <= prev.len(),
        forall|j: int| 0 <= j < c ==> #[trigger] prev[j] == pixel_at(g, row, j),
    ensures
        last_row_bytes(prev, g, row, line, c) == Seq::<u8>::empty(),
    decreases c,
{
    if c > 0 {
        lemma_last_row_quiet(prev, g, row, line, c - 1);
        assert(prev[c - 1] == pixel_at(g, row, c - 1));
        assert(last_row_bytes(prev, g, row, line, c) =~= Seq::<u8>::empty());
    }
}

/// A frame drawn over a memory that has not changed since the last frame redraws no
/// cell: it only opens the update, rewrites the status line and ends the update.
pub proof fn law_unchanged_memory_redraws_nothing(g: Grid, height: u8, width: u8, status: Seq<u8>)
    ensures
        frame_bytes(shown(g, height, width), g, status) == sync_begin() + cursor_move_bytes(
            (text_rows(height) + 1) as u8,
            1,
        ) + reset_bytes() + clear_line_bytes() + status + reset_bytes() + sync_end(),
{
    let s = shown(g, height, width);
    let n = height / 2;
    lemma_pairs_quiet(s.pair_rows, g, width as int, n as int);
    if height % 2 == 1 {
        let prev = s.last_row->Some_0;
        lemma_last_row_quiet(prev, g, height - 1, (n + 1) as u8, width as int);
    }
    assert(frame_bytes(s, g, status) =~= sync_begin() + cursor_move_bytes((text_rows(height) + 1) as u8, 1)
        + reset_bytes() + clear_line_bytes() + status + reset_bytes() + sync_end());
}

/// `piece` stands somewhere in `s`, as consecutive bytes.
pub open spec fn holds_bytes(s: Seq<u8>, piece: Seq<u8>) -> bool {
    exists|i: int| 0 <= i && i + piece.len() <= s.len() && #[trigger] s.subrange(i, i + piece.len()) == piece
}

/// Bytes around a text keep what the text holds.
proof fn lemma_holds_around(a: Seq<u8>, s: Seq<u8>, b: Seq<u8>, piece: Seq<u8>)
    requires
        holds_bytes(s, piece),
    ensures
        holds_bytes(a + s + b, piece),
{
    let i = choose|i: int| 0 <= i && i + piece.len() <= s.len() && #[trigger] s.subrange(i, i + piece.len()) == piece;
    let t = a + s + b;
    let j = a.len() + i;
    assert(t.subrange(j, j + piece.len()) =~= s.subrange(i, i + piece.len()));
}

/// A text holds itself.
proof fn lemma_holds_self(piece: Seq<u8>)
    ensures
        holds_bytes(piece, piece),
{
    let i: int = 0;
    assert(piece.subrange(i, i + piece.len()) =~= piece);
}

/// Bytes before a text keep what the text holds.
proof fn lemma_holds_after(a: Seq<u8>, s: Seq<u8>, piece: Seq<u8>)
    requires
        holds_bytes(s, piece),
    ensures
        holds_bytes(a + s, piece),
{
    lemma_holds_around(a, s, Seq::<u8>::empty(), piece);
    assert(a + s + Seq::<u8>::empty() =~= a + s);
}

/// Bytes after a text keep what the text holds.
proof fn lemma_holds_before(s: Seq<u8>, b: Seq<u8>, piece: Seq<u8>)
    requires
        holds_bytes(s, piece),
    ensures
        holds_bytes(s + b, piece),
{
    lemma_holds_around(Seq::<u8>::empty(), s, b, piece);
    assert(Seq::<u8>::empty() + s + b =~= s + b);
}

/// The bytes that redraw cell `c` of character row `r` when its pixels changed.
pub open spec fn cell_bytes(g: Grid, r: int, c: int) -> Seq<u8> {
    cursor_move_bytes((r + 1) as u8, (c + 1) as u8) + colors_bytes(pair_at(g, r, c).0, pair_at(g, r, c).1)
        + half_block()
}

/// The bytes of a character row up to column `w` redraw every cell before `w` whose
/// pixels changed.
proof fn lemma_row_redraws(prev: Seq<(Pixel, Pixel)>, g: Grid, r: int, c: int, w: int)
    requires
        0 <= c < w,
        pair_at(g, r, c) != prev[c],
    ensures
        holds_bytes(pair_row_bytes(prev, g, r, w), cell_bytes(g, r, c)),
    decreases w,
{
    if w == c + 1 {
        let piece = cell_bytes(g, r, c);
        let base = pair_row_bytes(prev, g, r, c);
        assert(pair_row_bytes(prev, g, r, w) == base + piece);
        assert(piece =~= Seq::<u8>::empty() + piece + Seq::<u8>::empty());
        assert(piece.subrange(0, piece.len() as int) =~= piece);
        lemma_holds_around(base, piece, Seq::<u8>::empty(), piece);
        assert(base + piece + Seq::<u8>::empty() =~= base + piece);
    } else {
        lemma_row_redraws(prev, g, r, c, w - 1);
        lemma_holds_around(Seq::<u8>::empty(), pair_row_bytes(prev, g, r, w - 1), pair_row_bytes(prev, g, r, w).subrange(
            pair_row_bytes(prev, g, r, w - 1).len() as int,
            pair_row_bytes(prev, g, r, w).len() as int,
        ), cell_bytes(g, r, c));
        assert(Seq::<u8>::empty() + pair_row_bytes(prev, g, r, w - 1) + pair_row_bytes(prev, g, r, w).subrange(
            pair_row_bytes(prev, g, r, w - 1).len() as int,
            pair_row_bytes(prev, g, r, w).len() as int,
        ) =~= pair_row_bytes(prev, g, r, w));
    }
}

/// The bytes of the first `n` character rows redraw every changed cell of those rows.
proof fn lemma_rows_redraw(prev: Seq<Seq<(Pixel, Pixel)>>, g: Grid, width: int, r: int, c: int, n: int)
    requires
        0 <= r < n,
        0 <= c < width,
        pair_at(g, r, c) != prev[r][c],
    ensures
        holds_bytes(pairs_bytes(prev, g, width, n), cell_bytes(g, r, c)),
    decreases n,
{
    let before = pairs_bytes(prev, g, width, n - 1);
    let row = pair_row_bytes(prev[n - 1], g, n - 1, width);
    assert(pairs_bytes(prev, g, width, n) == before + row);
    if n == r + 1 {
        lemma_row_redraws(prev[r], g, r, c, width);
        lemma_holds_around(before, row, Seq::<u8>::empty(), cell_bytes(g, r, c));
    } else {
        lemma_rows_redraw(prev, g, width, r, c, n - 1);
        lemma_holds_around(Seq::<u8>::empty(), before, row, cell_bytes(g, r, c));
        assert(Seq::<u8>::empty() + before + row =~= before + row);
    }
    assert(before + row + Seq::<u8>::empty() =~= before + row);
}

/// A frame redraws every cell whose two pixels differ from what the terminal shows: it
/// moves the cursor to that cell, sets the colors of its upper and lower pixel and
/// writes the half block, whichever of the two pixels changed.
pub proof fn law_changed_cell_is_redrawn(s: SpecRenderState, g: Grid, status: Seq<u8>, r: int, c: int)
    requires
        0 <= r < s.height / 2,
        0 <= c < s.width,
        pair_at(g, r, c) != s.pair_rows[r][c],
    ensures
        holds_bytes(
            frame_bytes(s, g, status),
            cursor_move_bytes((r + 1) as u8, (c + 1) as u8) + colors_bytes(pair_at(g, r, c).0, pair_at(g, r, c).1)
                + half_block(),
        ),
{
    let n = s.height / 2;
    let piece = cell_bytes(g, r, c);
    lemma_rows_redraw(s.pair_rows, g, s.width as int, r, c, n as int);
    let pairs = pairs_bytes(s.pair_rows, g, s.width as int, n as int);
    let last: Seq<u8> = match s.last_row {
        Some(prev) => last_row_bytes(prev, g, s.height - 1, (n + 1) as u8, s.width as int),
        None => Seq::empty(),
    };
    lemma_holds_after(sync_begin(), pairs, piece);
    let x1 = sync_begin() + pairs;
    lemma_holds_before(x1, last, piece);
    let x2 = x1 + last;
    let cm = cursor_move_bytes((text_rows(s.height) + 1) as u8, 1);
    lemma_holds_before(x2, cm, piece);
    let x3 = x2 + cm;
    lemma_holds_before(x3, reset_bytes(), piece);
    let x4 = x3 + reset_bytes();
    lemma_holds_before(x4, clear_line_bytes(), piece);
    let x5 = x4 + clear_line_bytes();
    lemma_holds_before(x5, status, piece);
    let x6 = x5 + status;
    lemma_holds_before(x6, reset_bytes(), piece);
    let x7 = x6 + reset_bytes();
    lemma_holds_before(x7, sync_end(), piece);
    assert(frame_bytes(s, g, status) == x7 + sync_end());
}

/// The bytes that redraw, on character row `line`, pixel `c` of the memory row `row`.
pub open spec fn last_cell_bytes(g: Grid, row: int, line: u8, c: int) -> Seq<u8> {
    cursor_move_bytes(line, (c + 1) as u8) + fg_prefix() + rgb_bytes(pixel_at(g, row, c)) + default_bg_suffix()
        + half_block()
}

/// The bytes of an odd last row up to column `w` redraw every pixel before `w` that
/// changed.
proof fn lemma_last_row_redraws(prev: Seq<Pixel>, g: Grid, row: int, line: u8, c: int, w: int)
    requires
        0 <= c < w,
        pixel_at(g, row, c) != prev[c],
    ensures
        holds_bytes(last_row_bytes(prev, g, row, line, w), last_cell_bytes(g, row, line, c)),
    decreases w,
{
    let piece = last_cell_bytes(g, row, line, c);
    if w == c + 1 {
        let base = last_row_bytes(prev, g, row, line, c);
        assert(last_row_bytes(prev, g, row, line, w) == base + piece);
        lemma_holds_self(piece);
        lemma_holds_after(base, piece, piece);
    } else {
        lemma_last_row_redraws(prev, g, row, line, c, w - 1);
        let before = last_row_bytes(prev, g, row, line, w - 1);
        let whole = last_row_bytes(prev, g, row, line, w);
        lemma_holds_before(before, whole.subrange(before.len() as int, whole.len() as int), piece);
        assert(before + whole.subrange(before.len() as int, whole.len() as int) =~= whole);
    }
}

/// A frame redraws every pixel of an odd last row that differs from what the terminal
/// shows: it moves the cursor to the pixel's cell and writes it in the upper half, over
/// the default background.
pub proof fn law_changed_last_pixel_is_redrawn(s: SpecRenderState, g: Grid, status: Seq<u8>, c: int)
    requires
        s.last_row is Some,
        0 <= c < s.width,
        pixel_at(g, s.height - 1, c) != s.last_row->Some_0[c],
    ensures
        holds_bytes(
            frame_bytes(s, g, status),
            cursor_move_bytes((s.height / 2 + 1) as u8, (c + 1) as u8) + fg_prefix() + rgb_bytes(
                pixel_at(g, s.height - 1, c),
            ) + default_bg_suffix() + half_block(),
        ),
{
    let n = s.height / 2;
    let line = (n + 1) as u8;
    let piece = last_cell_bytes(g, s.height - 1, line, c);
    let prev = s.last_row->Some_0;
    lemma_last_row_redraws(prev, g, s.height - 1, line, c, s.width as int);
    let pairs = pairs_bytes(s.pair_rows, g, s.width as int, n as int);
    let last = last_row_bytes(prev, g, s.height - 1, line, s.width as int);
    lemma_holds_after(sync_begin() + pairs, last, piece);
    let x2 = sync_begin() + pairs + last;
    let cm = cursor_move_bytes((text_rows(s.height) + 1) as u8, 1);
    lemma_holds_before(x2, cm, piece);
    let x3 = x2 + cm;
    lemma_holds_before(x3, reset_bytes(), piece);
    let x4 = x3 + reset_bytes();
    lemma_holds_before(x4, clear_line_bytes(), piece);
    let x5 = x4 + clear_line_bytes();
    lemma_holds_before(x5, status, piece);
    let x6 = x5 + status;
    lemma_holds_before(x6, reset_bytes(), piece);
    let x7 = x6 + reset_bytes();
    lemma_holds_before(x7, sync_end(), piece);
    assert(frame_bytes(s, g, status) == x7 + sync_end());
}

} // verus!
