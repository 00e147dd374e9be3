//! The on-screen overlay: where key boxes and click rings go, and how what
//! was painted is put onto a frame.

use vstd::prelude::*;

use crate::config::OverlayPosition;
use crate::input::{MouseButton, OverlayFrame, RingVis, RING_LIFETIME_NS};

verus! {

pub const BOX_H: i32 = 32;

pub const BOX_GAP: i32 = 6;

pub const MARGIN: i32 = 12;

/// No more keys than this are shown.
pub const MAX_BOXES: usize = 6;

/// BGR packed colors (0xBBGGRR).
pub const BOX_BG: u32 = 0x10_12_24;

pub const BOX_BORDER: u32 = 0x5B_8C_FF;

/// A rectangle; `right` and `bottom` lie just outside.
#[derive(Debug, Clone, Copy, PartialEq, Eq, Structural)]
pub struct Rect {
    pub left: i32,
    pub top: i32,
    pub right: i32,
    pub bottom: i32,
}

impl Rect {
    /// Holds nothing, and adds nothing to a union.
    pub open spec fn nothing() -> Rect {
        Rect { left: i32::MAX, top: i32::MAX, right: i32::MIN, bottom: i32::MIN }
    }

    /// The smallest rectangle around both.
    pub open spec fn joined(self, r: Rect) -> Rect {
        Rect {
            left: if r.left < self.left {
                r.left
            } else {
                self.left
            },
            top: if r.top < self.top {
                r.top
            } else {
                self.top
            },
            right: if r.right > self.right {
                r.right
            } else {
                self.right
            },
            bottom: if r.bottom > self.bottom {
                r.bottom
            } else {
                self.bottom
            },
        }
    }

    /// Whether `r` lies within this rectangle.
    pub open spec fn covers(self, r: Rect) -> bool {
        &&& self.left <= r.left
        &&& self.top <= r.top
        &&& r.right <= self.right
        &&& r.bottom <= self.bottom
    }
}

/// Grows `dirty` to the smallest rectangle that holds `r` too.
pub fn union(dirty: &mut Rect, r: Rect)
    ensures
        *final(dirty) == old(dirty).joined(r),
{
    if r.left < dirty.left {
        dirty.left = r.left;
    }
    if r.top < dirty.top {
        dirty.top = r.top;
    }
    if r.right > dirty.right {
        dirty.right = r.right;
    }
    if r.bottom > dirty.bottom {
        dirty.bottom = r.bottom;
    }
}

/// A union holds both of its parts, and nothing smaller does.
pub proof fn union_is_smallest_cover(a: Rect, b: Rect, c: Rect)
    ensures
        a.joined(b).covers(a),
        a.joined(b).covers(b),
        c.covers(a) && c.covers(b) ==> c.covers(a.joined(b)),
        Rect::nothing().joined(a) == a,
{
}

/// BGR packed color per button: 0xBBGGRR.
pub open spec fn color_of(button: MouseButton) -> u32 {
    match button {
        MouseButton::Left => 0xFF_8C_5B,
        MouseButton::Right => 0x45_7A_FF,
        MouseButton::Middle => 0x4F_D2_FF,
        MouseButton::X1 => 0xA9_A9_3F,
        MouseButton::X2 => 0xFF_7A_C0,
    }
}

/// BGR packed color per button: 0xBBGGRR.
pub fn button_color(button: MouseButton) -> (r: u32)
    ensures
        r == color_of(button),
{
    match button {
        MouseButton::Left => 0xFF_8C_5B,
        MouseButton::Right => 0x45_7A_FF,
        MouseButton::Middle => 0x4F_D2_FF,
        MouseButton::X1 => 0xA9_A9_3F,
        MouseButton::X2 => 0xFF_7A_C0,
    }
}

// ---------------------------------------------------------------------------
// Key boxes
// ---------------------------------------------------------------------------

/// The width of a box around text of a given width.
pub open spec fn box_width(text_width: i32) -> int {
    (if text_width < 14 {
        14int
    } else {
        text_width as int
    }) + 16
}

/// The boxes' widths together.
pub open spec fn widths_sum(text_widths: Seq<i32>) -> int
    decreases text_widths.len(),
{
    if text_widths.len() == 0 {
        0
    } else {
        widths_sum(text_widths.drop_last()) + box_width(text_widths.last())
    }
}

/// The width of a row of boxes with the gaps between them.
pub open spec fn row_width(text_widths: Seq<i32>) -> int {
    widths_sum(text_widths) + BOX_GAP * (if text_widths.len() == 0 {
        0int
    } else {
        text_widths.len() - 1
    })
}

/// Whether a corner is on the right, where rows run right to left.
pub open spec fn runs_left(position: OverlayPosition) -> bool {
    position is TopRight || position is BottomRight
}

/// Starting x for the row of key boxes: the margin of the corner that the row
/// runs from.
pub open spec fn start_x(position: OverlayPosition, w: u32) -> int {
    if runs_left(position) {
        w - MARGIN
    } else {
        MARGIN as int
    }
}

/// Top y for the row of key boxes.
pub open spec fn row_top(position: OverlayPosition, h: u32) -> int {
    if position is TopLeft || position is TopRight {
        MARGIN as int
    } else {
        h - MARGIN - BOX_H
    }
}

/// The left edge of the `i`-th box. The first box of a row that runs left ends
/// where the row starts; each further box keeps a gap to the one before.
pub open spec fn box_left(position: OverlayPosition, w: u32, text_widths: Seq<i32>, i: int) -> int {
    let start = start_x(position, w);
    if runs_left(position) {
        start - widths_sum(text_widths.take(i + 1)) - BOX_GAP * i
    } else {
        start + widths_sum(text_widths.take(i)) + BOX_GAP * i
    }
}

/// The `i`-th key box. What lies outside the range of a coordinate is held
/// within it.
pub open spec fn box_at(
    position: OverlayPosition,
    w: u32,
    h: u32,
    text_widths: Seq<i32>,
    i: int,
) -> Rect {
    let left = box_left(position, w, text_widths, i);
    let top = row_top(position, h);
    Rect {
        left: coordinate(left),
        top: coordinate(top),
        right: coordinate(left + box_width(text_widths[i])),
        bottom: coordinate(top + BOX_H),
    }
}

/// All the boxes of a row.
pub open spec fn boxes_for(position: OverlayPosition, w: u32, h: u32, text_widths: Seq<i32>) -> Seq<
    Rect,
> {
    Seq::new(
        if text_widths.len() < MAX_BOXES {
            text_widths.len()
        } else {
            MAX_BOXES as nat
        },
        |i: int| box_at(position, w, h, text_widths, i),
    )
}

proof fn lemma_widths_sum(text_widths: Seq<i32>, i: int)
    requires
        0 <= i <= text_widths.len(),
    ensures
        30 * i <= widths_sum(text_widths.take(i)) <= (i32::MAX + 16) * i,
        i < text_widths.len() ==> widths_sum(text_widths.take(i + 1)) == widths_sum(
            text_widths.take(i),
        ) + box_width(text_widths[i]),
    decreases i,
{
    if i > 0 {
        lemma_widths_sum(text_widths, i - 1);
    }
    if i < text_widths.len() {
        assert(text_widths.take(i + 1).drop_last() =~= text_widths.take(i));
    }
}

/// A row begins with its first boxes.
proof fn lemma_widths_sum_grows(text_widths: Seq<i32>, i: int)
    requires
        0 <= i <= text_widths.len(),
    ensures
        widths_sum(text_widths.take(i)) + 30 * (text_widths.len() - i) <= widths_sum(text_widths),
    decreases text_widths.len() - i,
{
    if i < text_widths.len() {
        lemma_widths_sum(text_widths, i);
        lemma_widths_sum_grows(text_widths, i + 1);
    } else {
        assert(text_widths.take(i) =~= text_widths);
    }
}

/// In whatever corner, a row of boxes that fits between the margins stays
/// within them: no box reaches out of the frame.
pub proof fn row_stays_in_the_frame(
    position: OverlayPosition,
    w: u32,
    h: u32,
    text_widths: Seq<i32>,
    i: int,
)
    requires
        w <= i32::MAX,
        h <= i32::MAX,
        text_widths.len() <= MAX_BOXES,
        row_width(text_widths) + 2 * MARGIN <= w,
        BOX_H + 2 * MARGIN <= h,
        0 <= i < text_widths.len(),
    ensures
        ({
            let r = boxes_for(position, w, h, text_widths)[i];
            &&& MARGIN <= r.left < r.right <= w - MARGIN
            &&& MARGIN <= r.top < r.bottom <= h - MARGIN
        }),
{
    lemma_widths_sum(text_widths, i);
    lemma_widths_sum_grows(text_widths, i + 1);
}

/// A row on the right starts at the right margin: its first box ends there.
pub proof fn rows_on_the_right_end_at_the_margin(
    position: OverlayPosition,
    w: u32,
    h: u32,
    text_widths: Seq<i32>,
)
    requires
        runs_left(position),
        w <= i32::MAX,
        text_widths.len() > 0,
    ensures
        boxes_for(position, w, h, text_widths)[0].right == w - MARGIN,
{
    lemma_widths_sum(text_widths, 0);
}

// ---------------------------------------------------------------------------
// Click rings
// ---------------------------------------------------------------------------

/// The radius of a ring: it grows from 13 pixels by 30 a second.
pub open spec fn ring_radius(r: RingVis, now_ns: u64) -> int {
    let age = if now_ns < r.born_ns {
        0int
    } else if now_ns - r.born_ns > RING_LIFETIME_NS {
        RING_LIFETIME_NS as int
    } else {
        now_ns - r.born_ns
    };
    13 + age * 30 / 1_000_000_000
}

/// A number held within the range of a coordinate.
pub open spec fn coordinate(v: int) -> i32 {
    if v < i32::MIN {
        i32::MIN
    } else if v > i32::MAX {
        i32::MAX
    } else {
        v as i32
    }
}

/// The square around a ring.
pub open spec fn ring_rect(r: RingVis, now_ns: u64) -> Rect {
    let radius = ring_radius(r, now_ns);
    Rect {
        left: coordinate(r.x - radius),
        top: coordinate(r.y - radius),
        right: coordinate(r.x + radius),
        bottom: coordinate(r.y + radius),
    }
}

fn hold(v: i64) -> (r: i32)
    ensures
        r == coordinate(v as int),
{
    if v < i32::MIN as i64 {
        i32::MIN
    } else if v > i32::MAX as i64 {
        i32::MAX
    } else {
        v as i32
    }
}

fn rect_of_ring(r: RingVis, now_ns: u64) -> (out: Rect)
    ensures
        out == ring_rect(r, now_ns),
{
    let age: u64 = if now_ns < r.born_ns {
        0
    } else if now_ns - r.born_ns > RING_LIFETIME_NS {
        RING_LIFETIME_NS
    } else {
        now_ns - r.born_ns
    };
    let radius: i64 = 13 + (age * 30 / 1_000_000_000) as i64;
    Rect {
        left: hold(r.x as i64 - radius),
        top: hold(r.y as i64 - radius),
        right: hold(r.x as i64 + radius),
        bottom: hold(r.y as i64 + radius),
    }
}

/// A ring to draw: the square around it and its color.
#[derive(Debug, Clone, Copy, PartialEq, Eq, Structural)]
pub struct RingShape {
    pub rect: Rect,
    pub color: u32,
}

/// The shapes of rings at a given time.
pub open spec fn ring_shapes(rings: Seq<RingVis>, now_ns: u64) -> Seq<RingShape> {
    Seq::new(
        rings.len(),
        |i: int| RingShape { rect: ring_rect(rings[i], now_ns), color: color_of(rings[i].button) },
    )
}

/// The smallest rectangle around everything drawn.
pub open spec fn around(boxes: Seq<Rect>, rings: Seq<RingShape>) -> Rect
    decreases boxes.len() + rings.len(),
{
    if rings.len() > 0 {
        around(boxes, rings.drop_last()).joined(rings.last().rect)
    } else if boxes.len() > 0 {
        around(boxes.drop_last(), rings).joined(boxes.last())
    } else {
        Rect::nothing()
    }
}

/// What to draw: the box of each key shown, the rings, and the part of the
/// frame that they touch.
#[derive(Debug)]
pub struct OverlayPlan {
    pub boxes: Vec<Rect>,
    pub rings: Vec<RingShape>,
    pub dirty: Rect,
}

/// An overlay bitmap of a given size.
#[derive(Debug, Clone, Copy, PartialEq, Eq, Structural)]
pub struct GdiOverlay {
    pub w: u32,
    pub h: u32,
}

impl GdiOverlay {
    pub fn new(w: u32, h: u32) -> (r: GdiOverlay)
        ensures
            r.w == w,
            r.h == h,
    {
        GdiOverlay { w, h }
    }

    pub fn width(&self) -> (r: u32)
        ensures
            r == self.w,
    {
        self.w
    }

    pub fn height(&self) -> (r: u32)
        ensures
            r == self.h,
    {
        self.h
    }

    /// Starting x (and top y) for the row of key boxes.
    pub fn anchor(&self, position: OverlayPosition) -> (r: (i64, i64))
        ensures
            r.0 == start_x(position, self.w),
            r.1 == row_top(position, self.h),
    {
        let right: i64 = self.w as i64 - MARGIN as i64;
        let low: i64 = self.h as i64 - MARGIN as i64 - BOX_H as i64;
        match position {
            OverlayPosition::TopLeft => (MARGIN as i64, MARGIN as i64),
            OverlayPosition::TopRight => (right, MARGIN as i64),
            OverlayPosition::BottomLeft => (MARGIN as i64, low),
            OverlayPosition::BottomRight => (right, low),
        }
    }

    fn boxes(&self, position: OverlayPosition, text_widths: &Vec<i32>) -> (out: Vec<Rect>)
        ensures
            out@ == boxes_for(position, self.w, self.h, text_widths@),
    {
        let ghost tw = text_widths@;
        let n: usize = if text_widths.len() < MAX_BOXES {
            text_widths.len()
        } else {
            MAX_BOXES
        };
        let (start, top) = self.anchor(position);
        let leftward = matches!(position, OverlayPosition::TopRight | OverlayPosition::BottomRight);
        let mut out: Vec<Rect> = Vec::new();
        let mut x: i64 = start;
        let mut k: usize = 0;
        assert(tw.take(0).len() == 0);
        while k < n
            invariant
                tw == text_widths@,
                n <= tw.len(),
                n <= MAX_BOXES,
                k <= n,
                out@.len() == k,
                leftward == runs_left(position),
                start == start_x(position, self.w),
                top == row_top(position, self.h),
                x == if leftward {
                    start - widths_sum(tw.take(k as int)) - BOX_GAP * k
                } else {
                    start + widths_sum(tw.take(k as int)) + BOX_GAP * k
                },
                forall|j: int|
                    0 <= j < k ==> #[trigger] out@[j] == box_at(position, self.w, self.h, tw, j),
            decreases n - k,
        {
            proof {
                lemma_widths_sum(tw, k as int);
                lemma_widths_sum(tw, k + 1);
            }
            let t = text_widths[k];
            let bw: i64 = if t < 14 {
                30
            } else {
                t as i64 + 16
            };
            let bx: i64 = if leftward {
                x - bw
            } else {
                x
            };
            let r = Rect {
                left: hold(bx),
                top: hold(top),
                right: hold(bx + bw),
                bottom: hold(top + BOX_H as i64),
            };
            assert(r == box_at(position, self.w, self.h, tw, k as int));
            out.push(r);
            x = if leftward {
                bx - BOX_GAP as i64
            } else {
                bx + bw + BOX_GAP as i64
            };
            k += 1;
        }
        assert(out@ =~= boxes_for(position, self.w, self.h, tw));
        out
    }

    /// What to draw for a snapshot onto a frame of `w` by `h` pixels, or
    /// `None` where the frame is not of this overlay's size. `text_widths`
    /// holds how wide the names of the keys shown are; keys beyond the last
    /// box are left out.
    pub fn compose(
        &self,
        w: u32,
        h: u32,
        position: OverlayPosition,
        text_widths: &Vec<i32>,
        snap: &OverlayFrame,
        now_ns: u64,
    ) -> (r: Option<OverlayPlan>)
        ensures
            r is None <==> (w != self.w || h != self.h),
            r is Some ==> {
                &&& r->0.boxes@ == boxes_for(position, w, h, text_widths@)
                &&& r->0.rings@ == ring_shapes(snap.clicks@, now_ns)
                &&& r->0.dirty == around(r->0.boxes@, r->0.rings@)
            },
    {
        if w != self.w || h != self.h {
            return None;
        }
        let boxes = self.boxes(position, text_widths);
        let mut dirty = Rect {
            left: i32::MAX,
            top: i32::MAX,
            right: i32::MIN,
            bottom: i32::MIN,
        };
        let mut i: usize = 0;
        let ghost no_rings = Seq::<RingShape>::empty();
        while i < boxes.len()
            invariant
                i <= boxes@.len(),
                no_rings == Seq::<RingShape>::empty(),
                dirty == around(boxes@.take(i as int), no_rings),
            decreases boxes@.len() - i,
        {
            assert(boxes@.take(i + 1).drop_last() =~= boxes@.take(i as int));
            union(&mut dirty, boxes[i]);
            i += 1;
        }
        assert(boxes@.take(i as int) =~= boxes@);
        let mut rings: Vec<RingShape> = Vec::new();
        let mut k: usize = 0;
        assert(rings@ =~= no_rings);
        while k < snap.clicks.len()
            invariant
                k <= snap.clicks@.len(),
                rings@.len() == k,
                rings@ =~= ring_shapes(snap.clicks@, now_ns).take(k as int),
                dirty == around(boxes@, rings@),
            decreases snap.clicks@.len() - k,
        {
            let c = snap.clicks[k];
            let shape = RingShape { rect: rect_of_ring(c, now_ns), color: button_color(c.button) };
            let ghost before = rings@;
            rings.push(shape);
            assert(rings@.drop_last() =~= before);
            union(&mut dirty, shape.rect);
            k += 1;
        }
        assert(rings@ =~= ring_shapes(snap.clicks@, now_ns));
        Some(OverlayPlan { boxes, rings, dirty })
    }
}

// ---------------------------------------------------------------------------
// Blending
// ---------------------------------------------------------------------------

/// The columns or rows of a rectangle that lie on the frame: from its lower
/// edge up to its upper edge. An upper edge before the frame counts as the
/// frame's end.
pub open spec fn lower_edge(v: i32) -> int {
    if v < 0 {
        0
    } else {
        v as int
    }
}

pub open spec fn upper_edge(v: i32, size: u32) -> int {
    if v < 0 || v > size {
        size as int
    } else {
        v as int
    }
}

/// Whether the pixel at a position lies in the part of the frame to blend.
pub open spec fn in_part(pixel: int, w: u32, h: u32, dirty: Rect) -> bool {
    let row = pixel / (w as int);
    let col = pixel % (w as int);
    &&& lower_edge(dirty.top) <= row < upper_edge(dirty.bottom, h)
    &&& lower_edge(dirty.left) <= col < upper_edge(dirty.right, w)
}

/// Whether anything was painted (non-black) at a pixel.
pub open spec fn is_painted(bits: Seq<u8>, pixel: int) -> bool {
    bits[pixel * 4] != 0 || bits[pixel * 4 + 1] != 0 || bits[pixel * 4 + 2] != 0
}

/// One byte of a frame onto which a painted, opaque pixel was put.
pub open spec fn painted_byte(bits: Seq<u8>, k: int) -> u8 {
    if k % 4 == 3 {
        0xFF
    } else {
        bits[k]
    }
}

/// The frame (BGRA8) with what was painted in a part of it put on top.
pub open spec fn blended(frame: Seq<u8>, bits: Seq<u8>, w: u32, h: u32, dirty: Rect) -> Seq<u8> {
    Seq::new(
        frame.len(),
        |k: int|
            if k < w * h * 4 && in_part(k / 4, w, h, dirty) && is_painted(bits, k / 4) {
                painted_byte(bits, k)
            } else {
                frame[k]
            },
    )
}

/// The frame with what was painted between two pixels put on top.
spec fn blended_run(frame: Seq<u8>, bits: Seq<u8>, from: int, to: int) -> Seq<u8> {
    Seq::new(
        frame.len(),
        |k: int|
            if from <= k / 4 < to && is_painted(bits, k / 4) {
                painted_byte(bits, k)
            } else {
                frame[k]
            },
    )
}

fn blend_run(frame: &mut Vec<u8>, bits: &Vec<u8>, from: usize, to: usize)
    requires
        from <= to,
        to * 4 <= old(frame)@.len(),
        to * 4 <= bits@.len(),
    ensures
        final(frame)@ == blended_run(old(frame)@, bits@, from as int, to as int),
{
    let size = bits.len();
    let mut i: usize = from;
    assert(frame@ =~= blended_run(old(frame)@, bits@, from as int, i as int));
    while i < to
        invariant
            from <= i <= to,
            to * 4 <= frame@.len(),
            size == bits@.len(),
            to * 4 <= size,
            frame@ == blended_run(old(frame)@, bits@, from as int, i as int),
        decreases to - i,
    {
        let p: usize = i * 4;
        let ghost before = frame@;
        if bits[p] != 0 || bits[p + 1] != 0 || bits[p + 2] != 0 {
            frame.set(p, bits[p]);
            frame.set(p + 1, bits[p + 1]);
            frame.set(p + 2, bits[p + 2]);
            frame.set(p + 3, 0xFF);
        }
        proof {
            let next = blended_run(old(frame)@, bits@, from as int, i + 1);
            assert forall|k: int| 0 <= k < frame@.len() implies frame@[k] == next[k] by {
                assert(before[k] == blended_run(old(frame)@, bits@, from as int, i as int)[k]);
                if k / 4 == i {
                    assert(p <= k <= p + 3);
                    assert(before[k] == old(frame)@[k]);
                } else {
                    assert(k < p || k > p + 3);
                }
            }
            assert(frame@ =~= next);
        }
        i += 1;
    }
}

proof fn lemma_row(w: int, row: int, left: int, right: int, pixel: int)
    requires
        0 <= left <= right <= w,
        0 < w,
        0 <= row,
        0 <= pixel,
    ensures
        row * w + left <= pixel < row * w + right <==> (pixel / w == row && left <= pixel % w
            < right),
{
    vstd::arithmetic::div_mod::lemma_fundamental_div_mod(pixel, w);
    if row * w + left <= pixel < row * w + right {
        vstd::arithmetic::div_mod::lemma_fundamental_div_mod_converse(
            pixel,
            w,
            row,
            pixel - row * w,
        );
    }
    if pixel / w == row {
        assert(w * row == row * w) by (nonlinear_arith);
    }
}

/// Composite whatever was painted (non-black) onto `frame` (BGRA8), within
/// the part given.
pub fn blend(frame: &mut Vec<u8>, bits: &Vec<u8>, w: u32, h: u32, dirty: Rect)
    requires
        w * h * 4 <= old(frame)@.len(),
        w * h * 4 <= bits@.len(),
    ensures
        final(frame)@ == blended(old(frame)@, bits@, w, h, dirty),
{
    let left: usize = if dirty.left < 0 {
        0
    } else {
        dirty.left as usize
    };
    let top: usize = if dirty.top < 0 {
        0
    } else {
        dirty.top as usize
    };
    let right: usize = if dirty.right < 0 || dirty.right as u32 > w {
        w as usize
    } else {
        dirty.right as usize
    };
    let bottom: usize = if dirty.bottom < 0 || dirty.bottom as u32 > h {
        h as usize
    } else {
        dirty.bottom as usize
    };
    if left >= right || top >= bottom {
        assert(frame@ =~= blended(frame@, bits@, w, h, dirty));
        return;
    }
    let wu: usize = w as usize;
    let size = bits.len();
    let mut row: usize = top;
    let ghost start = frame@;
    let ghost part = |k: int, r: int|
        top <= (k / 4) / (w as int) < r && left <= (k / 4) % (w as int) < right;
    while row < bottom
        invariant
            wu == w,
            0 < w,
            left < right <= w,
            top <= row <= bottom <= h,
            start == old(frame)@,
            part == (|k: int, r: int|
                top <= (k / 4) / (w as int) < r && left <= (k / 4) % (w as int) < right),
            frame@.len() == start.len(),
            w * h * 4 <= start.len(),
            size == bits@.len(),
            w * h * 4 <= size,
            forall|k: int|
                #![trigger frame@[k]]
                0 <= k < start.len() ==> frame@[k] == if part(k, row as int) && is_painted(
                    bits@,
                    k / 4,
                ) {
                    painted_byte(bits@, k)
                } else {
                    start[k]
                },
        decreases bottom - row,
    {
        proof {
            assert((row + 1) * w <= h * w && 0 <= row * w && row * w + w == (row + 1) * w)
                by (nonlinear_arith)
                requires
                    0 <= row < h,
                    0 < w,
            ;
            assert(h * w == w * h) by (nonlinear_arith);
        }
        let base: usize = row * wu;
        let ghost before = frame@;
        blend_run(frame, bits, base + left, base + right);
        proof {
            assert forall|k: int| #![trigger frame@[k]] 0 <= k < start.len() implies frame@[k] == if part(
                k,
                row + 1,
            ) && is_painted(bits@, k / 4) {
                painted_byte(bits@, k)
            } else {
                start[k]
            } by {
                lemma_row(w as int, row as int, left as int, right as int, k / 4);
                assert(before[k] == if part(k, row as int) && is_painted(bits@, k / 4) {
                    painted_byte(bits@, k)
                } else {
                    start[k]
                });
            }
        }
        row += 1;
    }
    proof {
        let want = blended(start, bits@, w, h, dirty);
        assert forall|k: int| 0 <= k < start.len() implies frame@[k] == want[k] by {
            if part(k, bottom as int) {
                let pixel = k / 4;
                vstd::arithmetic::div_mod::lemma_fundamental_div_mod(pixel, w as int);
                let q = pixel / (w as int);
                assert(pixel < w * h) by (nonlinear_arith)
                    requires
                        pixel == w * q + pixel % (w as int),
                        pixel % (w as int) < w,
                        q + 1 <= h,
                        0 < w,
                ;
            }
        }
        assert(frame@ =~= want);
    }
}

/// Blending leaves the frame's length alone, and every pixel outside the part
/// given or with nothing painted on it.
pub proof fn blend_keeps_the_rest(
    frame: Seq<u8>,
    bits: Seq<u8>,
    w: u32,
    h: u32,
    dirty: Rect,
    k: int,
)
    requires
        0 <= k < frame.len(),
        !in_part(k / 4, w, h, dirty) || !is_painted(bits, k / 4),
    ensures
        blended(frame, bits, w, h, dirty).len() == frame.len(),
        blended(frame, bits, w, h, dirty)[k] == frame[k],
{
}

// ---------------------------------------------------------------------------
// Renderer
// ---------------------------------------------------------------------------

/// What the renderer needs before it can draw.
#[derive(Debug, Clone, Copy, PartialEq, Eq, Structural)]
pub enum RenderStep {
    /// There is nothing to draw.
    Skip,
    /// A bitmap of the frame's size has to be made.
    Create,
    /// The bitmap can be drawn on.
    Draw,
}

/// Per-frame overlay renderer: keeps a bitmap of the frame's size.
#[derive(Debug, Clone, Copy, PartialEq, Eq, Structural)]
pub struct OverlayRenderer {
    pub bitmap: Option<GdiOverlay>,
}

impl OverlayRenderer {
    pub fn new() -> (r: OverlayRenderer)
        ensures
            r.bitmap is None,
    {
        OverlayRenderer { bitmap: None }
    }

    /// What has to be done to composite a snapshot onto a frame of a given
    /// size.
    pub fn compose(&self, width: u32, height: u32, snap: &OverlayFrame) -> (r: RenderStep)
        ensures
            r == if snap.keys@.len() == 0 && snap.clicks@.len() == 0 {
                RenderStep::Skip
            } else if self.bitmap == Some(GdiOverlay { w: width, h: height }) {
                RenderStep::Draw
            } else {
                RenderStep::Create
            },
    {
        if snap.is_empty() {
            return RenderStep::Skip;
        }
        match &self.bitmap {
            Some(g) => if g.width() != width || g.height() != height {
                RenderStep::Create
            } else {
                RenderStep::Draw
            },
            None => RenderStep::Create,
        }
    }

    /// Takes note that a bitmap of the frame's size was made.
    pub fn created(&mut self, width: u32, height: u32)
        ensures
            final(self).bitmap == Some(GdiOverlay { w: width, h: height }),
    {
        self.bitmap = Some(GdiOverlay::new(width, height));
    }
}

// ---------------------------------------------------------------------------
// Laws
// ---------------------------------------------------------------------------

/// A key's box leaves eight pixels on each side of its text, is never narrower
/// than 30 and is 32 high; at most six keys are shown, each in a box of its own.
pub proof fn boxes_hold_their_text(
    position: OverlayPosition,
    w: u32,
    h: u32,
    text_widths: Seq<i32>,
    i: int,
)
    requires
        w <= i32::MAX,
        44 <= h <= i32::MAX,
        0 <= i < boxes_for(position, w, h, text_widths).len(),
        i32::MIN < boxes_for(position, w, h, text_widths)[i].left,
        boxes_for(position, w, h, text_widths)[i].right < i32::MAX,
    ensures
        ({
            let boxes = boxes_for(position, w, h, text_widths);
            &&& text_widths.len() <= 6 ==> boxes.len() == text_widths.len()
            &&& text_widths.len() > 6 ==> boxes.len() == 6
            &&& boxes[i].bottom - boxes[i].top == 32
            &&& boxes[i].right - boxes[i].left >= 30
            &&& text_widths[i] >= 14 ==> boxes[i].right - boxes[i].left == text_widths[i] + 16
            &&& text_widths[i] <= 14 ==> boxes[i].right - boxes[i].left == 30
        }),
{
}

/// The first box stands twelve pixels from both edges of its corner.
pub proof fn rows_start_in_their_corner(
    position: OverlayPosition,
    w: u32,
    h: u32,
    text_widths: Seq<i32>,
)
    requires
        w <= i32::MAX,
        44 <= h <= i32::MAX,
        text_widths.len() > 0,
    ensures
        ({
            let first = boxes_for(position, w, h, text_widths)[0];
            &&& position is TopLeft || position is BottomLeft ==> first.left == 12
            &&& position is TopRight || position is BottomRight ==> first.right == w - 12
            &&& position is TopLeft || position is TopRight ==> first.top == 12
            &&& position is BottomLeft || position is BottomRight ==> first.bottom == h - 12
        }),
{
    lemma_widths_sum(text_widths, 0);
    assert(text_widths.take(0).len() == 0);
}

/// Each further box stands beside the one before, six pixels away from it and at
/// one height: to the right in a left corner, to the left in a right corner.
pub proof fn boxes_keep_a_gap(
    position: OverlayPosition,
    w: u32,
    h: u32,
    text_widths: Seq<i32>,
    i: int,
)
    requires
        w <= i32::MAX,
        h <= i32::MAX,
        text_widths.len() <= MAX_BOXES,
        row_width(text_widths) + 2 * MARGIN <= w,
        0 < i < text_widths.len(),
    ensures
        ({
            let boxes = boxes_for(position, w, h, text_widths);
            &&& boxes[i].top == boxes[i - 1].top
            &&& position is TopLeft || position is BottomLeft ==> boxes[i].left == boxes[i
                - 1].right + 6
            &&& position is TopRight || position is BottomRight ==> boxes[i].right == boxes[i
                - 1].left - 6
        }),
{
    lemma_widths_sum(text_widths, i);
    lemma_widths_sum(text_widths, i - 1);
    lemma_widths_sum_grows(text_widths, i);
    lemma_widths_sum_grows(text_widths, i + 1);
}

/// A ring is a square around the place of the click. It begins 26 pixels wide,
/// never shrinks, gains a pixel of radius every thirtieth of a second, and stops
/// at 68 pixels.
pub proof fn rings_grow_around_the_click(r: RingVis, now_ns: u64, later_ns: u64)
    requires
        i32::MIN + 34 <= r.x <= i32::MAX - 34,
        i32::MIN + 34 <= r.y <= i32::MAX - 34,
        now_ns <= later_ns,
    ensures
        ({
            let a = ring_rect(r, now_ns);
            let b = ring_rect(r, later_ns);
            &&& a.left + a.right == 2 * r.x
            &&& a.top + a.bottom == 2 * r.y
            &&& a.right - a.left == a.bottom - a.top
            &&& now_ns <= r.born_ns ==> a.right - a.left == 26
            &&& r.born_ns <= now_ns <= r.born_ns + 700_000_000 ==> {
                &&& (a.right - r.x - 13) * 1_000_000_000 <= 30 * (now_ns - r.born_ns)
                &&& 30 * (now_ns - r.born_ns) < (a.right - r.x - 12) * 1_000_000_000
            }
            &&& now_ns >= r.born_ns + 700_000_000 ==> a.right - a.left == 68
            &&& b.covers(a)
        }),
{
}

/// Every ring has the color of its button, and no two buttons share one.
pub proof fn rings_show_their_button(rings: Seq<RingVis>, now_ns: u64, i: int, j: int)
    requires
        0 <= i < rings.len(),
        0 <= j < rings.len(),
    ensures
        ring_shapes(rings, now_ns).len() == rings.len(),
        ring_shapes(rings, now_ns)[i].color == ring_shapes(rings, now_ns)[j].color
            <==> rings[i].button == rings[j].button,
        ring_shapes(rings, now_ns)[i].color != 0,
{
}

/// The part of the frame that is touched holds every box and every ring, and no
/// smaller one does.
pub proof fn everything_drawn_is_in_the_part(boxes: Seq<Rect>, rings: Seq<RingShape>, c: Rect)
    ensures
        forall|i: int|
            0 <= i < boxes.len() ==> around(boxes, rings).covers(#[trigger] boxes[i]),
        forall|i: int|
            0 <= i < rings.len() ==> around(boxes, rings).covers((#[trigger] rings[i]).rect),
        boxes.len() + rings.len() > 0 && (forall|i: int|
            0 <= i < boxes.len() ==> c.covers(#[trigger] boxes[i])) && (forall|i: int|
            0 <= i < rings.len() ==> c.covers((#[trigger] rings[i]).rect)) ==> c.covers(
            around(boxes, rings),
        ),
    decreases boxes.len() + rings.len(),
{
    if rings.len() > 0 {
        let rest = rings.drop_last();
        everything_drawn_is_in_the_part(boxes, rest, c);
        assert(rings.last() == rings[rings.len() - 1]);
        assert forall|i: int| 0 <= i < rings.len() implies around(boxes, rings).covers(
            (#[trigger] rings[i]).rect,
        ) by {
            if i < rest.len() {
                assert(rest[i] == rings[i]);
            }
        }
        assert forall|i: int| 0 <= i < rest.len() implies #[trigger] rest[i] == rings[i] by {}
        assert((forall|i: int| 0 <= i < rings.len() ==> c.covers((#[trigger] rings[i]).rect))
            ==> (forall|i: int| 0 <= i < rest.len() ==> c.covers((#[trigger] rest[i]).rect)));
        if boxes.len() + rest.len() == 0 {
            assert(around(boxes, rest) == Rect::nothing());
        }
    } else if boxes.len() > 0 {
        let rest = boxes.drop_last();
        everything_drawn_is_in_the_part(rest, rings, c);
        assert(boxes.last() == boxes[boxes.len() - 1]);
        assert forall|i: int| 0 <= i < boxes.len() implies around(boxes, rings).covers(
            #[trigger] boxes[i],
        ) by {
            if i < rest.len() {
                assert(rest[i] == boxes[i]);
            }
        }
        assert((forall|i: int| 0 <= i < boxes.len() ==> c.covers(#[trigger] boxes[i])) ==> (forall|
            i: int,
        |
            0 <= i < rest.len() ==> c.covers(#[trigger] rest[i])));
        if rest.len() + rings.len() == 0 {
            assert(around(rest, rings) == Rect::nothing());
        }
    }
}

/// A pixel on which something was painted takes its color and becomes opaque, if
/// it lies in a given part of the frame; no other pixel changes.
pub proof fn painted_pixels_show(
    frame: Seq<u8>,
    bits: Seq<u8>,
    w: u32,
    h: u32,
    dirty: Rect,
    row: int,
    column: int,
    channel: int,
)
    requires
        0 <= row < h,
        0 <= column < w,
        0 <= channel < 4,
        w * h * 4 <= frame.len(),
        dirty.bottom >= 0,
        dirty.right >= 0,
    ensures
        ({
            let p = (row * w + column) * 4;
            let inside = dirty.left <= column < dirty.right && dirty.top <= row < dirty.bottom;
            let painted = bits[p] != 0 || bits[p + 1] != 0 || bits[p + 2] != 0;
            let byte = blended(frame, bits, w, h, dirty)[p + channel];
            &&& inside && painted && channel < 3 ==> byte == bits[p + channel]
            &&& inside && painted && channel == 3 ==> byte == 255
            &&& !inside || !painted ==> byte == frame[p + channel]
        }),
{
    let pixel = row * w + column;
    let k = pixel * 4 + channel;
    assert(k / 4 == pixel && k % 4 == channel);
    assert(0 <= k < w * h * 4) by (nonlinear_arith)
        requires
            k == (row * w + column) * 4 + channel,
            0 <= row < h,
            0 <= column < w,
            0 <= channel < 4,
    ;
    vstd::arithmetic::div_mod::lemma_fundamental_div_mod_converse(
        pixel,
        w as int,
        row,
        column,
    );
}

/// The colors of the buttons, as blue, green and red.
pub proof fn buttons_have_their_colors(button: MouseButton)
    ensures
        ({
            let c = color_of(button) as int;
            let shades = (c / 0x1_0000, c / 0x100 % 0x100, c % 0x100);
            &&& button is Left <==> shades == (0xFFint, 0x8Cint, 0x5Bint)
            &&& button is Right <==> shades == (0x45int, 0x7Aint, 0xFFint)
            &&& button is Middle <==> shades == (0x4Fint, 0xD2int, 0xFFint)
            &&& button is X1 <==> shades == (0xA9int, 0xA9int, 0x3Fint)
            &&& button is X2 <==> shades == (0xFFint, 0x7Aint, 0xC0int)
        }),
{
}

} // verus!
