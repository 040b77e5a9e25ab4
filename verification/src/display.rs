//! The framebuffer: a fixed 64x32 grid of single-bit pixels with toroidal
//! coordinates. Sprites are composed onto it by XOR, eight pixels per row
//! byte; a bit equal to 0 never changes the destination pixel, a bit equal
//! to 1 toggles it, and turning an ON pixel OFF is a collision.

use vstd::prelude::*;
use vstd::arithmetic::div_mod::{
    lemma_add_mod_noop, lemma_fundamental_div_mod, lemma_fundamental_div_mod_converse,
    lemma_mod_mod,
};

verus! {

pub struct Display {
    px: Vec<bool>,
}

impl View for Display {
    type V = Seq<bool>;

    closed spec fn view(&self) -> Seq<bool> {
        self.px@
    }
}

/// The framebuffer index of the pixel at row `r`, column `c`.
pub open spec fn pix(r: int, c: int) -> int {
    r * 64 + c
}

/// Bit `j` of a sprite row byte, counted from the leftmost drawn pixel.
pub open spec fn bit_of(b: u8, j: int) -> bool {
    (b >> ((7 - j) as u8)) & 1 == 1
}

/// The framebuffer after the first `j` bits of one sprite row byte have
/// been XOR-drawn with origin `(x, y)`; the column of bit `j'` is
/// `(x + j') mod 64` and the row is `y mod 32`.
pub open spec fn draw_byte_fb_upto(fb: Seq<bool>, b: u8, x: u8, y: u8, j: int) -> Seq<bool>
    decreases j,
{
    if j <= 0 {
        fb
    } else {
        let prev = draw_byte_fb_upto(fb, b, x, y, j - 1);
        let p = pix((y as int) % 32, (x as int + (j - 1)) % 64);
        if bit_of(b, j - 1) {
            prev.update(p, !prev[p])
        } else {
            prev
        }
    }
}

/// The framebuffer after one whole sprite row byte is drawn at `(x, y)`.
pub open spec fn draw_byte_fb(fb: Seq<bool>, b: u8, x: u8, y: u8) -> Seq<bool> {
    draw_byte_fb_upto(fb, b, x, y, 8)
}

/// Whether any of the first `j` bits of the row byte is 1 and lands on a
/// pixel that is ON in `fb`.
pub open spec fn draw_byte_coll_upto(fb: Seq<bool>, b: u8, x: u8, y: u8, j: int) -> bool
    decreases j,
{
    if j <= 0 {
        false
    } else {
        draw_byte_coll_upto(fb, b, x, y, j - 1) || (bit_of(b, j - 1) && fb[pix(
            (y as int) % 32,
            (x as int + (j - 1)) % 64,
        )])
    }
}

/// Whether drawing one row byte at `(x, y)` on `fb` turns some pixel OFF.
pub open spec fn draw_byte_coll(fb: Seq<bool>, b: u8, x: u8, y: u8) -> bool {
    draw_byte_coll_upto(fb, b, x, y, 8)
}

/// The next row coordinate below `y`, as the 8-bit machine computes it.
pub open spec fn wrap_inc(y: u8) -> u8 {
    ((y as int + 1) % 256) as u8
}

/// The framebuffer after a whole sprite (one byte per row, top row first)
/// is drawn with origin `(x, y)`.
pub open spec fn draw_sprite_fb(fb: Seq<bool>, rows: Seq<u8>, x: u8, y: u8) -> Seq<bool>
    decreases rows.len(),
{
    if rows.len() == 0 {
        fb
    } else {
        draw_sprite_fb(draw_byte_fb(fb, rows[0], x, y), rows.skip(1), x, wrap_inc(y))
    }
}

/// Whether drawing a whole sprite at `(x, y)` on `fb` turns some pixel OFF
/// at any point; the flag is reported once for the whole sprite.
pub open spec fn draw_sprite_coll(fb: Seq<bool>, rows: Seq<u8>, x: u8, y: u8) -> bool
    decreases rows.len(),
{
    if rows.len() == 0 {
        false
    } else {
        draw_byte_coll(fb, rows[0], x, y) || draw_sprite_coll(
            draw_byte_fb(fb, rows[0], x, y),
            rows.skip(1),
            x,
            wrap_inc(y),
        )
    }
}

/// Which bit of a row byte drawn at column origin `x` covers column `c`:
/// the unique `j < 64` with `(x + j) mod 64 == c`.
pub open spec fn col_offset(x: u8, c: int) -> int {
    if c >= (x as int) % 64 {
        c - (x as int) % 64
    } else {
        c + 64 - (x as int) % 64
    }
}

/// Whether the row byte `b` drawn at `(x, y)` toggles pixel `p`.
pub open spec fn byte_hits(b: u8, x: u8, y: u8, p: int) -> bool {
    p / 64 == (y as int) % 32 && col_offset(x, p % 64) < 8 && bit_of(b, col_offset(x, p % 64))
}

/// `byte_hits` restricted to the first `j` bits.
pub open spec fn byte_hits_upto(b: u8, x: u8, y: u8, p: int, j: int) -> bool {
    p / 64 == (y as int) % 32 && col_offset(x, p % 64) < j && bit_of(b, col_offset(x, p % 64))
}

proof fn lemma_wrap_offset(x: u8, j: int)
    requires
        0 <= j < 64,
    ensures
        0 <= (x as int + j) % 64 < 64,
        col_offset(x, (x as int + j) % 64) == j,
{
    let xi = x as int;
    let xm = xi % 64;
    let q = xi / 64;
    lemma_fundamental_div_mod(xi, 64);
    if xm + j < 64 {
        lemma_fundamental_div_mod_converse(xi + j, 64, q, xm + j);
    } else {
        lemma_fundamental_div_mod_converse(xi + j, 64, q + 1, xm + j - 64);
    }
}

proof fn lemma_offset_wrap(x: u8, c: int)
    requires
        0 <= c < 64,
    ensures
        0 <= col_offset(x, c) < 64,
        (x as int + col_offset(x, c)) % 64 == c,
{
    let xi = x as int;
    let xm = xi % 64;
    let q = xi / 64;
    lemma_fundamental_div_mod(xi, 64);
    if c >= xm {
        lemma_fundamental_div_mod_converse(xi + (c - xm), 64, q, c);
    } else {
        lemma_fundamental_div_mod_converse(xi + (c + 64 - xm), 64, q + 1, c);
    }
}

proof fn lemma_pix_decomp(r: int, c: int)
    requires
        0 <= r < 32,
        0 <= c < 64,
    ensures
        pix(r, c) / 64 == r,
        pix(r, c) % 64 == c,
        0 <= pix(r, c) < 2048,
{
    lemma_fundamental_div_mod_converse(r * 64 + c, 64, r, c);
}

/// Per-pixel description of drawing the first `j` bits of one row byte:
/// exactly the covered pixels with a 1 bit are toggled, and a collision is
/// a covered ON pixel.
proof fn lemma_draw_byte_char_upto(fb: Seq<bool>, b: u8, x: u8, y: u8, j: int)
    requires
        fb.len() == 2048,
        0 <= j <= 8,
    ensures
        draw_byte_fb_upto(fb, b, x, y, j).len() == 2048,
        forall|p: int|
            0 <= p < 2048 ==> draw_byte_fb_upto(fb, b, x, y, j)[p] == if byte_hits_upto(
                b,
                x,
                y,
                p,
                j,
            ) {
                !fb[p]
            } else {
                fb[p]
            },
        draw_byte_coll_upto(fb, b, x, y, j) == exists|p: int|
            0 <= p < 2048 && byte_hits_upto(b, x, y, p, j) && fb[p],
    decreases j,
{
    if j == 0 {
        assert(forall|p: int| 0 <= p < 2048 ==> !byte_hits_upto(b, x, y, p, 0));
        assert(!draw_byte_coll_upto(fb, b, x, y, 0));
    } else {
        lemma_draw_byte_char_upto(fb, b, x, y, j - 1);
        let row = (y as int) % 32;
        let colj = (x as int + (j - 1)) % 64;
        lemma_wrap_offset(x, j - 1);
        let pj = pix(row, colj);
        lemma_pix_decomp(row, colj);
        let prev = draw_byte_fb_upto(fb, b, x, y, j - 1);
        // pixel pj is not covered by the first j-1 bits
        assert(!byte_hits_upto(b, x, y, pj, j - 1));
        // a pixel covered at offset j-1 is pj and no other
        assert forall|p: int|
            0 <= p < 2048 && p != pj implies byte_hits_upto(b, x, y, p, j) == byte_hits_upto(
            b,
            x,
            y,
            p,
            j - 1,
        ) by {
            if p / 64 == row && col_offset(x, p % 64) == j - 1 {
                lemma_fundamental_div_mod(p, 64);
                lemma_offset_wrap(x, p % 64);
                assert(p == pj);
            }
        }
        if bit_of(b, j - 1) {
            assert(byte_hits_upto(b, x, y, pj, j));
            assert(draw_byte_fb_upto(fb, b, x, y, j) == prev.update(pj, !prev[pj]));
            // collision characterization
            assert(draw_byte_coll_upto(fb, b, x, y, j) == (draw_byte_coll_upto(fb, b, x, y, j - 1)
                || fb[pj]));
            if fb[pj] {
                assert(byte_hits_upto(b, x, y, pj, j) && fb[pj]);
            }
            if draw_byte_coll_upto(fb, b, x, y, j) {
                assert(exists|p: int| 0 <= p < 2048 && byte_hits_upto(b, x, y, p, j) && fb[p]);
            }
            if exists|p: int| 0 <= p < 2048 && byte_hits_upto(b, x, y, p, j) && fb[p] {
                let p = choose|p: int| 0 <= p < 2048 && byte_hits_upto(b, x, y, p, j) && fb[p];
                if p != pj {
                    assert(byte_hits_upto(b, x, y, p, j - 1));
                }
                assert(draw_byte_coll_upto(fb, b, x, y, j));
            }
        } else {
            assert forall|p: int| 0 <= p < 2048 implies byte_hits_upto(b, x, y, p, j)
                == byte_hits_upto(b, x, y, p, j - 1) by {
                if p / 64 == row && col_offset(x, p % 64) == j - 1 {
                    assert(!bit_of(b, col_offset(x, p % 64)));
                }
            }
        }
    }
}

impl Display {
    pub open spec fn wf(&self) -> bool {
        self@.len() == 2048
    }

    /// A fresh framebuffer: every pixel OFF.
    pub fn new() -> (r: Display)
        ensures
            r.wf(),
            r@ == Seq::new(2048, |p: int| false),
    {
        let mut px: Vec<bool> = Vec::new();
        while px.len() < 2048
            invariant
                px@.len() <= 2048,
                forall|k: int| 0 <= k < px@.len() ==> px@[k] == false,
            decreases 2048 - px@.len(),
        {
            px.push(false);
        }
        proof {
            assert(px@ =~= Seq::new(2048, |p: int| false));
        }
        Display { px }
    }

    /// Turn every pixel OFF (the CLS instruction).
    pub fn clear(&mut self)
        requires
            old(self).wf(),
        ensures
            final(self).wf(),
            final(self)@ == Seq::new(2048, |p: int| false),
    {
        let mut k: usize = 0;
        while k < 2048
            invariant
                self@.len() == 2048,
                k <= 2048,
                forall|p: int| 0 <= p < k ==> self@[p] == false,
            decreases 2048 - k,
        {
            self.px.set(k, false);
            k = k + 1;
        }
        proof {
            assert(self@ =~= Seq::new(2048, |p: int| false));
        }
    }

    /// Read one pixel; `x` is the column, `y` the row.
    pub fn pixel(&self, x: u8, y: u8) -> (r: bool)
        requires
            self.wf(),
            x < 64,
            y < 32,
        ensures
            r == self@[pix(y as int, x as int)],
    {
        self.px[(y as usize) * 64 + (x as usize)]
    }

    /// XOR-draw one sprite row byte with origin `(x, y)`; both coordinates
    /// wrap, so a row near the right edge reappears on the left. Returns
    /// whether some pixel was turned OFF.
    pub fn draw_byte(&mut self, byte: u8, x: u8, y: u8) -> (collision: bool)
        requires
            old(self).wf(),
        ensures
            final(self).wf(),
            final(self)@ == draw_byte_fb(old(self)@, byte, x, y),
            collision == draw_byte_coll(old(self)@, byte, x, y),
    {
        let ghost fb0 = self@;
        let row: usize = (y as usize) % 32;
        let mut collision = false;
        let mut j: usize = 0;
        while j < 8
            invariant
                self.wf(),
                fb0.len() == 2048,
                j <= 8,
                row == (y as int) % 32,
                self@ == draw_byte_fb_upto(fb0, byte, x, y, j as int),
                collision == draw_byte_coll_upto(fb0, byte, x, y, j as int),
            decreases 8 - j,
        {
            let sh: u8 = (7 - j) as u8;
            proof {
                assert(bit_of(byte, j as int) == ((byte >> sh) & 1 == 1));
                lemma_wrap_offset(x, j as int);
                lemma_pix_decomp(row as int, (x as int + j) % 64);
                lemma_draw_byte_char_upto(fb0, byte, x, y, j as int);
            }
            if (byte >> sh) & 1 == 1 {
                let col: usize = ((x as usize) + (j as usize)) % 64;
                let p: usize = row * 64 + col;
                proof {
                    assert(col == (x as int + j) % 64);
                    assert(p == pix((y as int) % 32, (x as int + j) % 64));
                    assert(!byte_hits_upto(byte, x, y, p as int, j as int));
                    assert(self@[p as int] == fb0[p as int]);
                }
                let prev = self.px[p];
                if prev {
                    collision = true;
                }
                self.px.set(p, !prev);
            }
            j = j + 1;
        }
        collision
    }

    /// XOR-draw a whole sprite, one row byte after another, the origin row
    /// moving down (and wrapping) once per byte. Returns whether any pixel
    /// of the whole sprite was turned OFF.
    pub fn draw_sprite(&mut self, rows: &Vec<u8>, x: u8, y: u8) -> (collision: bool)
        requires
            old(self).wf(),
        ensures
            final(self).wf(),
            final(self)@ == draw_sprite_fb(old(self)@, rows@, x, y),
            collision == draw_sprite_coll(old(self)@, rows@, x, y),
    {
        let ghost fb0 = self@;
        let mut collision = false;
        let mut k: usize = 0;
        let mut yk: u8 = y;
        proof {
            assert(rows@.skip(0) =~= rows@);
        }
        while k < rows.len()
            invariant
                self.wf(),
                k <= rows@.len(),
                draw_sprite_fb(fb0, rows@, x, y) == draw_sprite_fb(
                    self@,
                    rows@.skip(k as int),
                    x,
                    yk,
                ),
                draw_sprite_coll(fb0, rows@, x, y) == (collision || draw_sprite_coll(
                    self@,
                    rows@.skip(k as int),
                    x,
                    yk,
                )),
            decreases rows@.len() - k,
        {
            let ghost pre = self@;
            let b = rows[k];
            proof {
                assert(rows@.skip(k as int)[0] == rows@[k as int]);
                assert(rows@.skip(k as int).skip(1) =~= rows@.skip(k as int + 1));
            }
            let c = self.draw_byte(b, x, yk);
            if c {
                collision = true;
            }
            yk = if yk == 255 {
                0
            } else {
                yk + 1
            };
            k = k + 1;
        }
        proof {
            assert(rows@.skip(rows@.len() as int) =~= Seq::<u8>::empty());
        }
        collision
    }
}

} // verus!

// The laws of XOR sprite composition: drawing the same sprite twice
// restores the framebuffer, and the second draw's collision flag is
// characterized exactly over the framebuffer before the first draw.

verus! {

/// The screen row that sprite row `k` lands on when the origin row is `y`.
pub open spec fn target_row(y: u8, k: int) -> int {
    (y as int + k) % 32
}

/// Whether drawing the sprite toggles pixel `p` an odd number of times (a
/// sprite taller than the screen can revisit a row).
pub open spec fn sprite_parity(rows: Seq<u8>, x: u8, y: u8, p: int) -> bool
    decreases rows.len(),
{
    if rows.len() == 0 {
        false
    } else {
        byte_hits(rows[0], x, y, p) != sprite_parity(rows.skip(1), x, wrap_inc(y), p)
    }
}

/// Per-pixel description of one whole row byte: exactly the covered pixels
/// with a 1 bit are toggled.
proof fn lemma_draw_byte_char(fb: Seq<bool>, b: u8, x: u8, y: u8)
    requires
        fb.len() == 2048,
    ensures
        draw_byte_fb(fb, b, x, y).len() == 2048,
        forall|p: int|
            0 <= p < 2048 ==> draw_byte_fb(fb, b, x, y)[p] == (if byte_hits(b, x, y, p) {
                !fb[p]
            } else {
                fb[p]
            }),
{
    lemma_draw_byte_char_upto(fb, b, x, y, 8);
}

/// Per-pixel description of a whole sprite: every pixel ends up XORed with
/// its toggle parity.
proof fn lemma_draw_sprite_char(fb: Seq<bool>, rows: Seq<u8>, x: u8, y: u8)
    requires
        fb.len() == 2048,
    ensures
        draw_sprite_fb(fb, rows, x, y).len() == 2048,
        forall|p: int|
            0 <= p < 2048 ==> draw_sprite_fb(fb, rows, x, y)[p] == (fb[p] != sprite_parity(
                rows,
                x,
                y,
                p,
            )),
    decreases rows.len(),
{
    if rows.len() > 0 {
        lemma_draw_byte_char(fb, rows[0], x, y);
        let fb1 = draw_byte_fb(fb, rows[0], x, y);
        lemma_draw_sprite_char(fb1, rows.skip(1), x, wrap_inc(y));
        assert forall|p: int| 0 <= p < 2048 implies draw_sprite_fb(fb, rows, x, y)[p] == (fb[p]
            != sprite_parity(rows, x, y, p)) by {
            assert(draw_sprite_fb(fb, rows, x, y)[p] == (fb1[p] != sprite_parity(
                rows.skip(1),
                x,
                wrap_inc(y),
                p,
            )));
        }
    }
}

/// Law: drawing the same sprite twice at the same origin toggles every
/// affected pixel back, restoring the whole framebuffer (XOR is its own
/// inverse).
pub proof fn lemma_draw_twice_restores(fb: Seq<bool>, rows: Seq<u8>, x: u8, y: u8)
    requires
        fb.len() == 2048,
    ensures
        draw_sprite_fb(draw_sprite_fb(fb, rows, x, y), rows, x, y) == fb,
{
    let fb1 = draw_sprite_fb(fb, rows, x, y);
    lemma_draw_sprite_char(fb, rows, x, y);
    lemma_draw_sprite_char(fb1, rows, x, y);
    assert(draw_sprite_fb(fb1, rows, x, y) =~= fb);
}

/// Law: sprite coordinates wrap rather than clip: bit `j` of a row byte
/// drawn at `(x, y)` lands on column `(x + j) mod 64` of row `y mod 32`,
/// toggled exactly when the bit is 1 — a row starting near the right edge
/// reappears on the left, never out of range.
pub proof fn lemma_draw_byte_wraps(fb: Seq<bool>, b: u8, x: u8, y: u8, j: int)
    requires
        fb.len() == 2048,
        0 <= j < 8,
    ensures
        0 <= pix((y as int) % 32, (x as int + j) % 64) < 2048,
        draw_byte_fb(fb, b, x, y)[pix((y as int) % 32, (x as int + j) % 64)] == (if bit_of(b, j) {
            !fb[pix((y as int) % 32, (x as int + j) % 64)]
        } else {
            fb[pix((y as int) % 32, (x as int + j) % 64)]
        }),
{
    lemma_draw_byte_char(fb, b, x, y);
    lemma_wrap_offset(x, j);
    lemma_pix_decomp((y as int) % 32, (x as int + j) % 64);
}

/// The j-indexed form of one row byte's collision test.
proof fn lemma_byte_coll_exists(fb: Seq<bool>, b: u8, x: u8, y: u8, jmax: int)
    requires
        0 <= jmax <= 8,
    ensures
        draw_byte_coll_upto(fb, b, x, y, jmax) == exists|j: int|
            0 <= j < jmax && bit_of(b, j) && fb[pix((y as int) % 32, (x as int + j) % 64)],
    decreases jmax,
{
    if jmax > 0 {
        lemma_byte_coll_exists(fb, b, x, y, jmax - 1);
        if draw_byte_coll_upto(fb, b, x, y, jmax - 1) {
            let j = choose|j: int|
                0 <= j < jmax - 1 && bit_of(b, j) && fb[pix((y as int) % 32, (x as int + j) % 64)];
            assert(0 <= j < jmax && bit_of(b, j) && fb[pix((y as int) % 32, (x as int + j) % 64)]);
        } else if bit_of(b, jmax - 1) && fb[pix((y as int) % 32, (x as int + (jmax - 1)) % 64)] {
            assert(0 <= jmax - 1 < jmax && bit_of(b, jmax - 1) && fb[pix(
                (y as int) % 32,
                (x as int + (jmax - 1)) % 64,
            )]);
        }
        if exists|j: int|
            0 <= j < jmax && bit_of(b, j) && fb[pix((y as int) % 32, (x as int + j) % 64)] {
            let j = choose|j: int|
                0 <= j < jmax && bit_of(b, j) && fb[pix((y as int) % 32, (x as int + j) % 64)];
            if j < jmax - 1 {
                assert(draw_byte_coll_upto(fb, b, x, y, jmax - 1));
            }
            assert(draw_byte_coll_upto(fb, b, x, y, jmax));
        }
    }
}

/// Stepping the origin row down by one and shifting the row index agree:
/// the 8-bit wraparound of the row coordinate composed with the screen's
/// modulo 32 is plain addition modulo 32.
proof fn lemma_wrap_inc_row(y: u8, k: int)
    requires
        0 <= k,
    ensures
        target_row(wrap_inc(y), k) == target_row(y, k + 1),
{
    let yi = y as int;
    assert(wrap_inc(y) as int == (yi + 1) % 256);
    lemma_mod_mod(yi + 1, 32, 8);
    lemma_add_mod_noop((yi + 1) % 256, k, 32);
    lemma_add_mod_noop(yi + 1, k, 32);
    assert(((yi + 1) % 256) % 32 == (yi + 1) % 32);
}

/// Distinct row offsets under 32 land on distinct screen rows.
proof fn lemma_row_distinct(y: u8, t: int)
    requires
        1 <= t < 32,
    ensures
        target_row(y, t) != target_row(y, 0),
{
    let yi = y as int;
    let r = yi % 32;
    let q = yi / 32;
    lemma_fundamental_div_mod(yi, 32);
    if r + t < 32 {
        lemma_fundamental_div_mod_converse(yi + t, 32, q, r + t);
    } else {
        lemma_fundamental_div_mod_converse(yi + t, 32, q + 1, r + t - 32);
    }
}

/// A pixel outside every target row of the sprite is never toggled.
proof fn lemma_parity_row_mismatch(rows: Seq<u8>, x: u8, y: u8, p: int)
    requires
        forall|k: int| 0 <= k < rows.len() ==> p / 64 != #[trigger] target_row(y, k),
    ensures
        !sprite_parity(rows, x, y, p),
    decreases rows.len(),
{
    if rows.len() > 0 {
        assert(target_row(y, 0) == (y as int) % 32);
        assert(!byte_hits(rows[0], x, y, p));
        assert forall|k: int| 0 <= k < rows.len() - 1 implies p / 64 != #[trigger] target_row(
            wrap_inc(y),
            k,
        ) by {
            lemma_wrap_inc_row(y, k);
            assert(p / 64 != target_row(y, k + 1));
        }
        lemma_parity_row_mismatch(rows.skip(1), x, wrap_inc(y), p);
    }
}

/// With at most 32 rows, each pixel is toggled by at most one row, so the
/// parity is exactly "some row's ON bit covers p".
proof fn lemma_parity_exists(rows: Seq<u8>, x: u8, y: u8, p: int)
    requires
        rows.len() <= 32,
        0 <= p < 2048,
    ensures
        sprite_parity(rows, x, y, p) == exists|k: int|
            0 <= k < rows.len() && p / 64 == #[trigger] target_row(y, k) && col_offset(x, p % 64)
                < 8 && bit_of(rows[k], col_offset(x, p % 64)),
    decreases rows.len(),
{
    if rows.len() > 0 {
        assert(target_row(y, 0) == (y as int) % 32);
        if p / 64 == target_row(y, 0) {
            assert forall|k: int| 0 <= k < rows.len() - 1 implies p / 64 != #[trigger] target_row(
                wrap_inc(y),
                k,
            ) by {
                lemma_wrap_inc_row(y, k);
                lemma_row_distinct(y, k + 1);
            }
            lemma_parity_row_mismatch(rows.skip(1), x, wrap_inc(y), p);
            assert(sprite_parity(rows, x, y, p) == byte_hits(rows[0], x, y, p));
            if byte_hits(rows[0], x, y, p) {
                assert(0 <= 0 < rows.len() && p / 64 == target_row(y, 0) && col_offset(x, p % 64)
                    < 8 && bit_of(rows[0], col_offset(x, p % 64)));
            }
            if exists|k: int|
                0 <= k < rows.len() && p / 64 == #[trigger] target_row(y, k) && col_offset(
                    x,
                    p % 64,
                ) < 8 && bit_of(rows[k], col_offset(x, p % 64)) {
                let k = choose|k: int|
                    0 <= k < rows.len() && p / 64 == #[trigger] target_row(y, k) && col_offset(
                        x,
                        p % 64,
                    ) < 8 && bit_of(rows[k], col_offset(x, p % 64));
                if k > 0 {
                    lemma_row_distinct(y, k);
                }
                assert(k == 0);
                assert(byte_hits(rows[0], x, y, p));
            }
        } else {
            assert(!byte_hits(rows[0], x, y, p));
            lemma_parity_exists(rows.skip(1), x, wrap_inc(y), p);
            if sprite_parity(rows, x, y, p) {
                let k = choose|k: int|
                    0 <= k < rows.skip(1).len() && p / 64 == #[trigger] target_row(wrap_inc(y), k)
                        && col_offset(x, p % 64) < 8 && bit_of(
                        rows.skip(1)[k],
                        col_offset(x, p % 64),
                    );
                lemma_wrap_inc_row(y, k);
                assert(rows.skip(1)[k] == rows[k + 1]);
                assert(0 <= k + 1 < rows.len() && p / 64 == target_row(y, k + 1) && col_offset(
                    x,
                    p % 64,
                ) < 8 && bit_of(rows[k + 1], col_offset(x, p % 64)));
            }
            if exists|k: int|
                0 <= k < rows.len() && p / 64 == #[trigger] target_row(y, k) && col_offset(
                    x,
                    p % 64,
                ) < 8 && bit_of(rows[k], col_offset(x, p % 64)) {
                let k = choose|k: int|
                    0 <= k < rows.len() && p / 64 == #[trigger] target_row(y, k) && col_offset(
                        x,
                        p % 64,
                    ) < 8 && bit_of(rows[k], col_offset(x, p % 64));
                assert(k != 0);
                lemma_wrap_inc_row(y, k - 1);
                assert(rows.skip(1)[k - 1] == rows[k]);
                assert(0 <= k - 1 < rows.skip(1).len() && p / 64 == target_row(wrap_inc(y), k - 1)
                    && col_offset(x, p % 64) < 8 && bit_of(
                    rows.skip(1)[k - 1],
                    col_offset(x, p % 64),
                ));
                assert(sprite_parity(rows, x, y, p));
            }
        }
    }
}

/// The collision flag of one draw, characterized over the framebuffer the
/// draw started from: some ON bit of the sprite covers an ON pixel.
proof fn lemma_sprite_coll_exists(fb: Seq<bool>, rows: Seq<u8>, x: u8, y: u8)
    requires
        fb.len() == 2048,
        rows.len() <= 32,
    ensures
        draw_sprite_coll(fb, rows, x, y) == exists|k: int, j: int|
            0 <= k < rows.len() && 0 <= j < 8 && #[trigger] bit_of(rows[k], j) && fb[pix(
                target_row(y, k),
                (x as int + j) % 64,
            )],
    decreases rows.len(),
{
    if rows.len() > 0 {
        lemma_byte_coll_exists(fb, rows[0], x, y, 8);
        let fb1 = draw_byte_fb(fb, rows[0], x, y);
        lemma_draw_byte_char(fb, rows[0], x, y);
        lemma_sprite_coll_exists(fb1, rows.skip(1), x, wrap_inc(y));
        assert(target_row(y, 0) == (y as int) % 32);
        if draw_byte_coll(fb, rows[0], x, y) {
            let j = choose|j: int|
                0 <= j < 8 && bit_of(rows[0], j) && fb[pix((y as int) % 32, (x as int + j) % 64)];
            assert(0 <= 0 < rows.len() && 0 <= j < 8 && bit_of(rows[0], j) && fb[pix(
                target_row(y, 0),
                (x as int + j) % 64,
            )]);
        } else if draw_sprite_coll(fb1, rows.skip(1), x, wrap_inc(y)) {
            let (k, j) = choose|k: int, j: int|
                0 <= k < rows.skip(1).len() && 0 <= j < 8 && #[trigger] bit_of(rows.skip(1)[k], j)
                    && fb1[pix(target_row(wrap_inc(y), k), (x as int + j) % 64)];
            lemma_wrap_inc_row(y, k);
            lemma_row_distinct(y, k + 1);
            let row = target_row(y, k + 1);
            let col = (x as int + j) % 64;
            lemma_wrap_offset(x, j);
            lemma_pix_decomp(row, col);
            assert(!byte_hits(rows[0], x, y, pix(row, col)));
            assert(fb1[pix(row, col)] == fb[pix(row, col)]);
            assert(rows.skip(1)[k] == rows[k + 1]);
            assert(0 <= k + 1 < rows.len() && 0 <= j < 8 && bit_of(rows[k + 1], j) && fb[pix(
                target_row(y, k + 1),
                (x as int + j) % 64,
            )]);
        }
        if exists|k: int, j: int|
            0 <= k < rows.len() && 0 <= j < 8 && #[trigger] bit_of(rows[k], j) && fb[pix(
                target_row(y, k),
                (x as int + j) % 64,
            )] {
            let (k, j) = choose|k: int, j: int|
                0 <= k < rows.len() && 0 <= j < 8 && #[trigger] bit_of(rows[k], j) && fb[pix(
                    target_row(y, k),
                    (x as int + j) % 64,
                )];
            if k == 0 {
                assert(fb[pix((y as int) % 32, (x as int + j) % 64)]);
                assert(draw_byte_coll(fb, rows[0], x, y));
            } else {
                lemma_wrap_inc_row(y, k - 1);
                lemma_row_distinct(y, k);
                let row = target_row(y, k);
                let col = (x as int + j) % 64;
                lemma_wrap_offset(x, j);
                lemma_pix_decomp(row, col);
                assert(!byte_hits(rows[0], x, y, pix(row, col)));
                assert(fb1[pix(row, col)] == fb[pix(row, col)]);
                assert(rows.skip(1)[k - 1] == rows[k]);
                assert(0 <= k - 1 < rows.skip(1).len() && 0 <= j < 8 && bit_of(
                    rows.skip(1)[k - 1],
                    j,
                ) && fb1[pix(target_row(wrap_inc(y), k - 1), (x as int + j) % 64)]);
                assert(draw_sprite_coll(fb1, rows.skip(1), x, wrap_inc(y)));
            }
            assert(draw_sprite_coll(fb, rows, x, y));
        }
    }
}

/// Law: after a sprite of at most 32 rows is drawn once, drawing it again
/// at the same origin reports a collision exactly when some ON bit of the
/// sprite covers a pixel that was OFF before the first draw (that pixel is
/// ON when the second draw reaches it).
pub proof fn lemma_second_draw_collision(fb: Seq<bool>, rows: Seq<u8>, x: u8, y: u8)
    requires
        fb.len() == 2048,
        rows.len() <= 32,
    ensures
        draw_sprite_coll(draw_sprite_fb(fb, rows, x, y), rows, x, y) == exists|k: int, j: int|
            0 <= k < rows.len() && 0 <= j < 8 && #[trigger] bit_of(rows[k], j) && !fb[pix(
                target_row(y, k),
                (x as int + j) % 64,
            )],
{
    let fb1 = draw_sprite_fb(fb, rows, x, y);
    lemma_draw_sprite_char(fb, rows, x, y);
    lemma_sprite_coll_exists(fb1, rows, x, y);
    if draw_sprite_coll(fb1, rows, x, y) {
        let (k, j) = choose|k: int, j: int|
            0 <= k < rows.len() && 0 <= j < 8 && #[trigger] bit_of(rows[k], j) && fb1[pix(
                target_row(y, k),
                (x as int + j) % 64,
            )];
        let row = target_row(y, k);
        let col = (x as int + j) % 64;
        lemma_wrap_offset(x, j);
        lemma_pix_decomp(row, col);
        let p = pix(row, col);
        lemma_parity_exists(rows, x, y, p);
        assert(0 <= k < rows.len() && p / 64 == target_row(y, k) && col_offset(x, p % 64) < 8
            && bit_of(rows[k], col_offset(x, p % 64)));
        assert(sprite_parity(rows, x, y, p));
        assert(!fb[p]);
        assert(0 <= k < rows.len() && 0 <= j < 8 && bit_of(rows[k], j) && !fb[pix(
            target_row(y, k),
            (x as int + j) % 64,
        )]);
    }
    if exists|k: int, j: int|
        0 <= k < rows.len() && 0 <= j < 8 && #[trigger] bit_of(rows[k], j) && !fb[pix(
            target_row(y, k),
            (x as int + j) % 64,
        )] {
        let (k, j) = choose|k: int, j: int|
            0 <= k < rows.len() && 0 <= j < 8 && #[trigger] bit_of(rows[k], j) && !fb[pix(
                target_row(y, k),
                (x as int + j) % 64,
            )];
        let row = target_row(y, k);
        let col = (x as int + j) % 64;
        lemma_wrap_offset(x, j);
        lemma_pix_decomp(row, col);
        let p = pix(row, col);
        lemma_parity_exists(rows, x, y, p);
        assert(0 <= k < rows.len() && p / 64 == target_row(y, k) && col_offset(x, p % 64) < 8
            && bit_of(rows[k], col_offset(x, p % 64)));
        assert(sprite_parity(rows, x, y, p));
        assert(fb1[p]);
        assert(0 <= k < rows.len() && 0 <= j < 8 && bit_of(rows[k], j) && fb1[pix(
            target_row(y, k),
            (x as int + j) % 64,
        )]);
        assert(draw_sprite_coll(fb1, rows, x, y));
    }
}

} // verus!
