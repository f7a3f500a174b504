//! The screens' own raster: a panel-sized RGBA face, the solid rectangles drawn on it, and the
//! lines of type placed over it.
use vstd::prelude::*;
use vstd::arithmetic::div_mod::lemma_fundamental_div_mod_converse;

verus! {

/// The panel's width and height in pixels: the compositor shows a face this size unscaled.
pub const OUT_W: u32 = 640;
pub const OUT_H: u32 = 480;

/// An RGBA image, four bytes a pixel, row after row.
pub struct UndoFace {
    pub rgba: Vec<u8>,
    pub w: u32,
    pub h: u32,
}

/// A line of type to set on a face: the text, where its box starts, its size in pixels, how
/// wide the line may run before it is cut, and its ink.
pub struct TextRun {
    pub text: String,
    pub x: i32,
    pub y: i32,
    pub px: u32,
    pub width: i32,
    pub ink: [u8; 3],
}

/// A line of type as the specifications see it: text, x, y, size, width, ink.
pub type TextView = (Seq<char>, i32, i32, u32, i32, Seq<u8>);

impl View for TextRun {
    type V = TextView;

    open spec fn view(&self) -> TextView {
        (self.text@, self.x, self.y, self.px, self.width, self.ink@)
    }
}

pub open spec fn runs_view(v: Seq<TextRun>) -> Seq<TextView> {
    v.map_values(|r: TextRun| r@)
}

/// The bright ink of headings and rows, and the dim one of secondary lines.
pub open spec fn bright() -> Seq<u8> {
    seq![240u8, 240u8, 244u8]
}

pub open spec fn dim() -> Seq<u8> {
    seq![185u8, 190u8, 200u8]
}

/// A run of text, laid out.
pub fn run(text: String, x: i32, y: i32, px: u32, width: i32, ink: [u8; 3]) -> (r: TextRun)
    ensures
        r@ == (text@, x, y, px, width, ink@),
{
    TextRun { text, x, y, px, width, ink }
}

/// A face is well formed when it holds exactly four bytes for each of its pixels.
pub open spec fn well_formed(f: &UndoFace) -> bool {
    f.rgba@.len() == f.w * f.h * 4
}

/// The rectangle `fill` paints, clipped to the face: columns `x0..x1`, rows `y0..y1`.
pub open spec fn clip_lo(v: int) -> int {
    if v < 0 { 0 } else { v }
}

pub open spec fn clip_hi(v: int, limit: int) -> int {
    if v > limit { limit } else { v }
}

/// Byte `i` of a face `w` pixels wide lies in the rectangle of columns `x0..x1` and rows
/// `y0..y1`.
pub open spec fn in_rect(w: int, i: int, x0: int, x1: int, y0: int, y1: int) -> bool {
    let p = i / 4;
    y0 <= p / w < y1 && x0 <= p % w < x1
}

/// The byte a fill leaves at `i`: the colour's channel inside the clipped rectangle, what was
/// there outside it.
pub open spec fn filled(
    old: Seq<u8>,
    w: int,
    h: int,
    x: int,
    y: int,
    fw: int,
    fh: int,
    colour: Seq<u8>,
    i: int,
) -> u8 {
    if in_rect(w, i, clip_lo(x), clip_hi(x + fw, w), clip_lo(y), clip_hi(y + fh, h)) {
        colour[i % 4]
    } else {
        old[i]
    }
}

proof fn lemma_pixel_index(w: int, row: int, col: int, k: int)
    requires
        w > 0,
        0 <= col < w,
        0 <= row,
        0 <= k < 4,
    ensures
        ((row * w + col) * 4 + k) / 4 == row * w + col,
        ((row * w + col) * 4 + k) % 4 == k,
        (row * w + col) / w == row,
        (row * w + col) % w == col,
{
    lemma_fundamental_div_mod_converse((row * w + col) * 4 + k, 4, row * w + col, k);
    lemma_fundamental_div_mod_converse(row * w + col, w, row, col);
}

proof fn lemma_same_pixel(w: int, row: int, col: int, i: int)
    requires
        w > 0,
        0 <= col < w,
        0 <= row,
        0 <= i,
        (i / 4) / w == row,
        (i / 4) % w == col,
    ensures
        (row * w + col) * 4 <= i < (row * w + col) * 4 + 4,
{
    let p = i / 4;
    vstd::arithmetic::div_mod::lemma_fundamental_div_mod(p, w);
    vstd::arithmetic::div_mod::lemma_fundamental_div_mod(i, 4);
    assert(p == w * row + col);
    assert(w * row == row * w) by (nonlinear_arith);
}

/// Paints the rectangle at (`x`, `y`), `w` by `h` pixels, in `colour`, clipped to the face.
pub fn fill(face: &mut UndoFace, x: i32, y: i32, w: i32, h: i32, colour: [u8; 4])
    requires
        well_formed(old(face)),
        old(face).w > 0,
        old(face).w <= i32::MAX,
        old(face).h <= i32::MAX,
        i32::MIN <= x + w <= i32::MAX,
        i32::MIN <= y + h <= i32::MAX,
    ensures
        final(face).w == old(face).w,
        final(face).h == old(face).h,
        final(face).rgba@.len() == old(face).rgba@.len(),
        forall|i: int|
            0 <= i < old(face).rgba@.len() ==> #[trigger] final(face).rgba@[i] == filled(
                old(face).rgba@,
                old(face).w as int,
                old(face).h as int,
                x as int,
                y as int,
                w as int,
                h as int,
                colour@,
                i,
            ),
{
    let fw = face.w as i32;
    let fh = face.h as i32;
    let ghost wide = face.w as int;
    let ghost high = face.h as int;
    let ghost before = face.rgba@;
    let ghost len = face.rgba@.len();
    let ghost x0 = clip_lo(x as int);
    let ghost x1 = clip_hi(x + w, wide);
    let ghost y0 = clip_lo(y as int);
    let ghost y1 = clip_hi(y + h, high);
    let ys = if y < 0 { 0 } else { y };
    let ye = if y + h > fh { fh } else { y + h };
    let xs = if x < 0 { 0 } else { x };
    let xe = if x + w > fw { fw } else { x + w };
    let n = face.rgba.len();
    if ys >= ye || xs >= xe {
        return;
    }
    let mut yy = ys;
    while yy < ye
        invariant
            face.w as int == wide,
            face.h as int == high,
            wide > 0,
            wide <= i32::MAX,
            high <= i32::MAX,
            fw as int == wide,
            face.rgba@.len() == len,
            len == wide * high * 4,
            ys as int == y0,
            xs as int == x0,
            ye as int == y1,
            xe as int == x1,
            n == len,
            0 <= y0 <= yy <= y1 <= high,
            0 <= x0 < x1 <= wide,
            forall|i: int|
                0 <= i < len ==> #[trigger] face.rgba@[i] == if in_rect(wide, i, x0, x1, y0, yy as int) {
                    colour@[i % 4]
                } else {
                    before[i]
                },
        decreases ye - yy,
    {
        let mut xx = xs;
        while xx < xe
            invariant
                face.w as int == wide,
                face.h as int == high,
                wide > 0,
                wide <= i32::MAX,
                high <= i32::MAX,
                fw as int == wide,
                face.rgba@.len() == len,
                len == wide * high * 4,
                ys as int == y0,
                xs as int == x0,
                ye as int == y1,
                xe as int == x1,
                n == len,
                0 <= y0 <= yy < y1 <= high,
                0 <= x0 <= xx <= x1 <= wide,
                forall|i: int|
                    0 <= i < len ==> #[trigger] face.rgba@[i] == if in_rect(wide, i, x0, x1, y0, yy as int)
                        || in_rect(wide, i, x0, xx as int, yy as int, yy + 1) {
                        colour@[i % 4]
                    } else {
                        before[i]
                    },
            decreases xe - xx,
        {
            let ghost row = yy as int;
            let ghost col = xx as int;
            assert(0 <= col < wide);
            assert(row * wide + col < high * wide) by (nonlinear_arith)
                requires
                    0 <= row < high,
                    0 <= col < wide,
            ;
            assert(high * wide * 4 == len) by (nonlinear_arith)
                requires
                    len == wide * high * 4,
            ;
            let at: usize = ((yy as usize) * (face.w as usize) + (xx as usize)) * 4;
            assert(at == (row * wide + col) * 4);
            let ghost mid = face.rgba@;
            face.rgba[at] = colour[0];
            face.rgba[at + 1] = colour[1];
            face.rgba[at + 2] = colour[2];
            face.rgba[at + 3] = colour[3];
            proof {
                assert forall|i: int| 0 <= i < len implies #[trigger] face.rgba@[i] == if in_rect(wide, i, x0, x1, y0, yy as int)
                    || in_rect(wide, i, x0, xx + 1, yy as int, yy + 1) {
                    colour@[i % 4]
                } else {
                    before[i]
                } by {
                    if at <= i < at + 4 {
                        lemma_pixel_index(wide, row, col, i - at);
                        assert(i == (row * wide + col) * 4 + (i - at));
                    } else {
                        assert(face.rgba@[i] == mid[i]);
                        if (i / 4) / wide == row && (i / 4) % wide == col {
                            lemma_same_pixel(wide, row, col, i);
                        }
                    }
                }
            }
            xx += 1;
        }
        proof {
            assert forall|i: int| 0 <= i < len implies #[trigger] face.rgba@[i] == if in_rect(wide, i, x0, x1, y0, yy + 1) {
                colour@[i % 4]
            } else {
                before[i]
            } by {
                assert(in_rect(wide, i, x0, x1, y0, yy + 1) == (in_rect(wide, i, x0, x1, y0, yy as int)
                    || in_rect(wide, i, x0, xx as int, yy as int, yy + 1)));
            }
        }
        yy += 1;
    }
    proof {
        assert forall|i: int| 0 <= i < len implies #[trigger] face.rgba@[i] == filled(
            before, wide, high, x as int, y as int, w as int, h as int, colour@, i) by {
            assert(in_rect(wide, i, x0, x1, y0, yy as int) == in_rect(wide, i, x0, x1, y0, y1));
        }
    }
}

/// The ground every screen here is drawn on.
pub open spec fn ground() -> Seq<u8> {
    seq![20u8, 21u8, 25u8, 255u8]
}

proof fn lemma_whole_panel(i: int)
    requires
        0 <= i < 640 * 480 * 4,
    ensures
        in_rect(640, i, 0, 640, 0, 480),
{
    let p = i / 4;
    assert(0 <= p < 640 * 480) by (nonlinear_arith)
        requires
            0 <= i < 640 * 480 * 4,
            p == i / 4,
    ;
    assert(0 <= p / 640 < 480) by (nonlinear_arith)
        requires
            0 <= p < 640 * 480,
    ;
}

/// A panel-sized face in the ground colour.
pub fn blank_face() -> (f: UndoFace)
    ensures
        f.w == OUT_W,
        f.h == OUT_H,
        well_formed(&f),
        forall|i: int| 0 <= i < f.rgba@.len() ==> #[trigger] f.rgba@[i] == ground()[i % 4],
{
    let mut face = UndoFace { rgba: vec![0u8; 640 * 480 * 4], w: OUT_W, h: OUT_H };
    fill(&mut face, 0, 0, 640, 480, [20, 21, 25, 255]);
    proof {
        assert forall|i: int| 0 <= i < face.rgba@.len() implies #[trigger] face.rgba@[i] == ground()[i % 4] by {
            lemma_whole_panel(i);
        }
    }
    face
}

} // verus!
