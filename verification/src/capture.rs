//! Screen capture: which monitors there are, and how raw pixels become flat
//! BGRA8 frames in a caller-owned buffer.

use vstd::prelude::*;

verus! {

/// A frame is a borrow of the capture buffer (zero-copy for the consumer).
#[derive(Debug)]
pub struct FrameView<'a> {
    pub data: &'a [u8],
    pub width: u32,
    pub height: u32,
    pub row_stride: usize,
    pub frame_num: u64,
}

#[derive(Debug, Clone, Copy, PartialEq, Eq, Structural)]
pub struct MonitorInfo {
    pub width: u32,
    pub height: u32,
    pub offset_x: i32,
    pub offset_y: i32,
    pub adapter_index: usize,
    pub output_index: usize,
    /// Whether it is the primary monitor.
    pub primary: bool,
}

// ---------------------------------------------------------------------------
// Monitors
// ---------------------------------------------------------------------------

/// Whether a monitor stands before another: the primary one first, then from
/// left to right, and from top to bottom in one column.
pub open spec fn leads(a: MonitorInfo, b: MonitorInfo) -> bool {
    if a.primary != b.primary {
        a.primary
    } else {
        a.offset_x < b.offset_x || (a.offset_x == b.offset_x && a.offset_y < b.offset_y)
    }
}

/// Whether monitor `i` comes before monitor `j`; of two in one place the one
/// listed first does.
pub open spec fn comes_first(list: Seq<MonitorInfo>, i: int, j: int) -> bool {
    leads(list[i], list[j]) || (!leads(list[j], list[i]) && i < j)
}

/// Whether `sorted` holds the monitors of `list`, each of them, in order.
/// `order` says where each one stood.
pub open spec fn is_sorted_list(sorted: Seq<MonitorInfo>, list: Seq<MonitorInfo>, order: Seq<int>) -> bool {
    &&& sorted.len() == list.len()
    &&& order.len() == list.len()
    &&& forall|k: int|
        #![trigger order[k]]
        0 <= k < order.len() ==> 0 <= order[k] < list.len() && sorted[k] == list[order[k]]
    &&& forall|a: int, b: int|
        0 <= a < b < order.len() ==> comes_first(list, #[trigger] order[a], #[trigger] order[b])
    &&& forall|i: int| 0 <= i < list.len() ==> order.contains(i)
}

fn before(a: &MonitorInfo, b: &MonitorInfo) -> (r: bool)
    ensures
        r == leads(*a, *b),
{
    if a.primary != b.primary {
        a.primary
    } else {
        a.offset_x < b.offset_x || (a.offset_x == b.offset_x && a.offset_y < b.offset_y)
    }
}

/// The monitors in order: the primary one first, then from left to right, and
/// from top to bottom in one column.
pub fn sort_monitors(list: &Vec<MonitorInfo>) -> (sorted: Vec<MonitorInfo>)
    ensures
        exists|order: Seq<int>| is_sorted_list(sorted@, list@, order),
{
    let mut sorted: Vec<MonitorInfo> = Vec::new();
    let ghost mut order: Seq<int> = Seq::empty();
    let mut n: usize = 0;
    assert(list@.take(0).len() == 0);
    while n < list.len()
        invariant
            n <= list@.len(),
            is_sorted_list(sorted@, list@.take(n as int), order),
        decreases list@.len() - n,
    {
        let ghost part = list@.take(n as int);
        let ghost next = list@.take(n + 1);
        let mut at: usize = n;
        while at > 0 && before(&list[n], &sorted[at - 1])
            invariant
                at <= n < list@.len(),
                part == list@.take(n as int),
                is_sorted_list(sorted@, part, order),
                forall|k: int|
                    #![trigger order[k]]
                    at <= k < n ==> leads(list@[n as int], part[order[k]]),
            decreases at,
        {
            assert(sorted@[at - 1] == part[order[at - 1]]);
            at -= 1;
        }
        let ghost old_order = order;
        let ghost old_sorted = sorted@;
        sorted.insert(at, list[n]);
        proof {
            if at > 0 {
                assert(old_sorted[at - 1] == part[old_order[at - 1]]);
            }
            order = old_order.insert(at as int, n as int);
            lemma_insert_sorted(list@, n as int, at as int, old_sorted, old_order);
        }
        n += 1;
    }
    assert(list@.take(n as int) =~= list@);
    sorted
}

proof fn lemma_insert_sorted(
    list: Seq<MonitorInfo>,
    n: int,
    at: int,
    sorted: Seq<MonitorInfo>,
    order: Seq<int>,
)
    requires
        0 <= at <= n < list.len(),
        is_sorted_list(sorted, list.take(n), order),
        forall|k: int|
            #![trigger order[k]]
            at <= k < n ==> leads(list[n], list.take(n)[order[k]]),
        at > 0 ==> !leads(list[n], list.take(n)[order[at - 1]]),
    ensures
        is_sorted_list(sorted.insert(at, list[n]), list.take(n + 1), order.insert(at, n)),
{
    let part = list.take(n);
    let next = list.take(n + 1);
    let o = order.insert(at, n);
    let s = sorted.insert(at, list[n]);
    assert forall|k: int| #![trigger o[k]] 0 <= k < o.len() implies 0 <= o[k] < next.len() && s[k]
        == next[o[k]] by {
        if k < at {
            assert(o[k] == order[k] && s[k] == sorted[k]);
            assert(part[order[k]] == next[order[k]]);
        } else if k > at {
            assert(o[k] == order[k - 1] && s[k] == sorted[k - 1]);
            assert(part[order[k - 1]] == next[order[k - 1]]);
        }
    }
    assert forall|a: int, b: int| 0 <= a < b < o.len() implies comes_first(
        next,
        #[trigger] o[a],
        #[trigger] o[b],
    ) by {
        let a0 = if a < at {
            a
        } else {
            a - 1
        };
        let b0 = if b < at {
            b
        } else {
            b - 1
        };
        if a != at {
            assert(o[a] == order[a0]);
            assert(part[order[a0]] == next[order[a0]]);
        }
        if b != at {
            assert(o[b] == order[b0]);
            assert(part[order[b0]] == next[order[b0]]);
        }
        if a != at && b != at {
            assert(comes_first(part, order[a0], order[b0]));
        } else if b == at {
            if a < at - 1 {
                assert(comes_first(part, order[a], order[at - 1]));
                assert(part[order[at - 1]] == next[order[at - 1]]);
            }
        }
    }
    assert forall|i: int| 0 <= i < next.len() implies o.contains(i) by {
        if i < n {
            assert(order.contains(i));
            let k = choose|k: int| 0 <= k < order.len() && order[k] == i;
            if k < at {
                assert(o[k] == i);
            } else {
                assert(o[k + 1] == i);
            }
        } else {
            assert(o[at] == n);
        }
    }
}

/// A monitor as the display server describes it.
#[derive(Debug, Clone, Copy, PartialEq, Eq, Structural)]
pub struct MonitorGeometry {
    pub x: i16,
    pub y: i16,
    pub width: u16,
    pub height: u16,
    pub primary: bool,
}

/// The `i`-th monitor that the display server describes. No side is empty.
pub open spec fn described(geometry: Seq<MonitorGeometry>, i: int) -> MonitorInfo {
    let g = geometry[i];
    MonitorInfo {
        width: if g.width == 0 {
            1
        } else {
            g.width as u32
        },
        height: if g.height == 0 {
            1
        } else {
            g.height as u32
        },
        offset_x: g.x as i32,
        offset_y: g.y as i32,
        adapter_index: 0,
        output_index: i as usize,
        primary: g.primary,
    }
}

/// All the monitors that the display server describes.
pub open spec fn described_all(geometry: Seq<MonitorGeometry>) -> Seq<MonitorInfo> {
    Seq::new(geometry.len(), |i: int| described(geometry, i))
}

/// One monitor spanning the whole screen.
pub open spec fn whole_screen(width: u16, height: u16) -> MonitorInfo {
    MonitorInfo {
        width: width as u32,
        height: height as u32,
        offset_x: 0,
        offset_y: 0,
        adapter_index: 0,
        output_index: 0,
        primary: true,
    }
}

/// The monitors that a display server describes, the primary one first; where
/// it describes none, one that spans the whole screen.
pub fn enumerate_monitors(
    geometry: &Vec<MonitorGeometry>,
    screen_width: u16,
    screen_height: u16,
) -> (out: Vec<MonitorInfo>)
    ensures
        geometry@.len() == 0 ==> out@ == seq![whole_screen(screen_width, screen_height)],
        geometry@.len() > 0 ==> exists|order: Seq<int>|
            is_sorted_list(out@, described_all(geometry@), order),
{
    if geometry.len() == 0 {
        let mut out: Vec<MonitorInfo> = Vec::new();
        out.push(
            MonitorInfo {
                width: screen_width as u32,
                height: screen_height as u32,
                offset_x: 0,
                offset_y: 0,
                adapter_index: 0,
                output_index: 0,
                primary: true,
            },
        );
        return out;
    }
    let mut list: Vec<MonitorInfo> = Vec::new();
    let mut i: usize = 0;
    while i < geometry.len()
        invariant
            i <= geometry@.len(),
            list@ == Seq::new(i as nat, |k: int| described(geometry@, k)),
        decreases geometry@.len() - i,
    {
        let g = geometry[i];
        list.push(
            MonitorInfo {
                width: if g.width == 0 {
                    1
                } else {
                    g.width as u32
                },
                height: if g.height == 0 {
                    1
                } else {
                    g.height as u32
                },
                offset_x: g.x as i32,
                offset_y: g.y as i32,
                adapter_index: 0,
                output_index: i,
                primary: g.primary,
            },
        );
        assert(list@ =~= Seq::new((i + 1) as nat, |k: int| described(geometry@, k)));
        i += 1;
    }
    assert(list@ =~= described_all(geometry@));
    sort_monitors(&list)
}

/// Monitor 0 is the primary one, wherever it stands, where one of the monitors
/// is.
pub proof fn primary_monitor_comes_first(
    sorted: Seq<MonitorInfo>,
    list: Seq<MonitorInfo>,
    order: Seq<int>,
    i: int,
)
    requires
        is_sorted_list(sorted, list, order),
        0 <= i < list.len(),
        list[i].primary,
    ensures
        sorted[0].primary,
{
    assert(order.contains(i));
    let k = choose|k: int| 0 <= k < order.len() && order[k] == i;
    assert(sorted[0] == list[order[0]]);
    if k > 0 {
        assert(comes_first(list, order[0], order[k]));
    }
}

/// A side of a rectangle: at least one pixel.
pub open spec fn side(from: i32, to: i32) -> int {
    if to - from < 1 {
        1
    } else {
        to - from
    }
}

/// The sides of a desktop rectangle.
pub fn rect_dims(left: i32, top: i32, right: i32, bottom: i32) -> (r: (u32, u32))
    ensures
        r.0 == side(left, right),
        r.1 == side(top, bottom),
{
    let w: i64 = right as i64 - left as i64;
    let h: i64 = bottom as i64 - top as i64;
    (
        if w < 1 {
            1
        } else {
            w as u32
        },
        if h < 1 {
            1
        } else {
            h as u32
        },
    )
}

// ---------------------------------------------------------------------------
// Frames
// ---------------------------------------------------------------------------

/// Why there is no frame, or no session.
#[derive(Debug, Clone, Copy, PartialEq, Eq, Structural)]
pub enum CaptureError {
    /// There is no monitor of that number.
    OutOfRange,
    /// The screen has too few colors.
    UnsupportedDepth,
    /// A pixel has neither three nor four bytes.
    UnsupportedBpp,
    /// A frame does not fit the buffer.
    BufferTooSmall,
}

/// One byte of a frame made of rows of pixels of three or four bytes each. A
/// row that did not arrive is white where pixels have four bytes, and stays
/// as it was where they have three.
pub open spec fn frame_byte(old: Seq<u8>, src: Seq<u8>, width: int, bpp: int, k: int) -> u8 {
    let row = k / (width * 4);
    let j = k % (width * 4);
    let arrived = (row + 1) * (width * bpp) <= src.len();
    if bpp == 4 {
        if arrived {
            src[k]
        } else {
            0xFF
        }
    } else if !arrived {
        old[k]
    } else if j % 4 == 3 {
        0xFF
    } else {
        src[row * (width * 3) + (j / 4) * 3 + j % 4]
    }
}

/// The buffer after a frame was put into it.
pub open spec fn framed(old: Seq<u8>, src: Seq<u8>, width: int, height: int, bpp: int) -> Seq<u8> {
    Seq::new(
        old.len(),
        |k: int|
            if k < width * height * 4 {
                frame_byte(old, src, width, bpp, k)
            } else {
                old[k]
            },
    )
}

/// The buffer after the rows of a texture, `stride` bytes apart, were put
/// into it without gaps.
pub open spec fn packed(old: Seq<u8>, src: Seq<u8>, stride: int, width: int, height: int) -> Seq<u8> {
    Seq::new(
        old.len(),
        |k: int|
            if k < width * height * 4 {
                src[(k / (width * 4)) * stride + k % (width * 4)]
            } else {
                old[k]
            },
    )
}

proof fn lemma_row_of(width: int, row: int, k: int)
    requires
        0 < width,
        0 <= k,
        0 <= row,
    ensures
        k / (width * 4) < row <==> k < row * (width * 4),
        k / (width * 4) == row <==> row * (width * 4) <= k < (row + 1) * (width * 4),
        0 <= k % (width * 4) < width * 4,
        k == (k / (width * 4)) * (width * 4) + k % (width * 4),
{
    let d = width * 4;
    vstd::arithmetic::div_mod::lemma_fundamental_div_mod(k, d);
    let q = k / d;
    assert(d * q == q * d) by (nonlinear_arith);
    assert(q < row ==> k < row * d) by (nonlinear_arith)
        requires
            k == q * d + k % d,
            0 <= k % d < d,
    ;
    assert(q >= row ==> k >= row * d) by (nonlinear_arith)
        requires
            k == q * d + k % d,
            0 <= k % d,
            d > 0,
    ;
    assert(q < row + 1 ==> k < (row + 1) * d) by (nonlinear_arith)
        requires
            k == q * d + k % d,
            0 <= k % d < d,
    ;
    assert(q >= row + 1 ==> k >= (row + 1) * d) by (nonlinear_arith)
        requires
            k == q * d + k % d,
            0 <= k % d,
            d > 0,
    ;
}

/// `dst` with `n` bytes of `src`, from `from` on, put in at `at`.
spec fn spliced(dst: Seq<u8>, at: int, src: Seq<u8>, from: int, n: int) -> Seq<u8> {
    Seq::new(
        dst.len(),
        |k: int|
            if at <= k < at + n {
                src[from + (k - at)]
            } else {
                dst[k]
            },
    )
}

fn copy_span(dst: &mut Vec<u8>, at: usize, src: &[u8], from: usize, n: usize)
    requires
        at + n <= old(dst)@.len(),
        from + n <= src@.len(),
    ensures
        final(dst)@ == spliced(old(dst)@, at as int, src@, from as int, n as int),
{
    let size = src.len();
    let room = dst.len();
    let mut i: usize = 0;
    assert(dst@ =~= spliced(old(dst)@, at as int, src@, from as int, 0));
    while i < n
        invariant
            i <= n,
            size == src@.len(),
            room == dst@.len(),
            at + n <= room,
            from + n <= size,
            dst@ == spliced(old(dst)@, at as int, src@, from as int, i as int),
        decreases n - i,
    {
        dst.set(at + i, src[from + i]);
        assert(dst@ =~= spliced(old(dst)@, at as int, src@, from as int, i + 1));
        i += 1;
    }
}

fn fill_span(dst: &mut Vec<u8>, at: usize, n: usize, v: u8)
    requires
        at + n <= old(dst)@.len(),
    ensures
        final(dst)@ == Seq::new(
            old(dst)@.len(),
            |k: int|
                if at <= k < at + n {
                    v
                } else {
                    old(dst)@[k]
                },
        ),
{
    let room = dst.len();
    let mut i: usize = 0;
    while i < n
        invariant
            i <= n,
            room == dst@.len(),
            room == old(dst)@.len(),
            at + n <= room,
            forall|k: int|
                #![trigger dst@[k]]
                0 <= k < room ==> dst@[k] == if at <= k < at + i {
                    v
                } else {
                    old(dst)@[k]
                },
        decreases n - i,
    {
        dst.set(at + i, v);
        i += 1;
    }
    assert(dst@ =~= Seq::new(
        old(dst)@.len(),
        |k: int|
            if at <= k < at + n {
                v
            } else {
                old(dst)@[k]
            },
    ));
}

/// One row of three-byte pixels, made opaque.
spec fn expanded(dst: Seq<u8>, at: int, src: Seq<u8>, from: int, pixels: int) -> Seq<u8> {
    Seq::new(
        dst.len(),
        |k: int|
            if at <= k < at + pixels * 4 {
                if (k - at) % 4 == 3 {
                    0xFF
                } else {
                    src[from + ((k - at) / 4) * 3 + (k - at) % 4]
                }
            } else {
                dst[k]
            },
    )
}

fn expand_row(dst: &mut Vec<u8>, at: usize, src: &[u8], from: usize, pixels: usize)
    requires
        at + pixels * 4 <= old(dst)@.len(),
        from + pixels * 3 <= src@.len(),
    ensures
        final(dst)@ == expanded(old(dst)@, at as int, src@, from as int, pixels as int),
{
    let size = src.len();
    let room = dst.len();
    let mut i: usize = 0;
    assert(dst@ =~= expanded(old(dst)@, at as int, src@, from as int, 0));
    while i < pixels
        invariant
            i <= pixels,
            size == src@.len(),
            room == dst@.len(),
            at + pixels * 4 <= room,
            from + pixels * 3 <= size,
            dst@ == expanded(old(dst)@, at as int, src@, from as int, i as int),
        decreases pixels - i,
    {
        let d: usize = at + i * 4;
        let p: usize = from + i * 3;
        let ghost before = dst@;
        dst.set(d, src[p]);
        dst.set(d + 1, src[p + 1]);
        dst.set(d + 2, src[p + 2]);
        dst.set(d + 3, 0xFF);
        proof {
            let next = expanded(old(dst)@, at as int, src@, from as int, i + 1);
            assert forall|k: int| 0 <= k < dst@.len() implies dst@[k] == next[k] by {
                assert(before[k] == expanded(old(dst)@, at as int, src@, from as int, i as int)[k]);
                if d <= k < d + 4 {
                    assert((k - at) / 4 == i);
                    assert((k - at) % 4 == k - d);
                }
            }
            assert(dst@ =~= next);
        }
        i += 1;
    }
}

/// A capture of one monitor's region.
#[derive(Debug, Clone, Copy, PartialEq, Eq, Structural)]
pub struct CaptureSession {
    pub width: u32,
    pub height: u32,
    pub offset_x: i32,
    pub offset_y: i32,
    /// Bytes per pixel of what arrives.
    pub bpp: u32,
    pub frame_num: u64,
    pub has_last: bool,
}

impl CaptureSession {
    /// Whether a frame's size is within what the machine can address.
    pub open spec fn fits(self) -> bool {
        self.width * self.height * 4 <= usize::MAX
    }

    /// The bytes of a frame.
    pub open spec fn frame_bytes(self) -> int {
        self.width * self.height * 4
    }

    /// A session on one of the monitors. `depth` is the screen's color depth;
    /// 24-bit pixels arrive padded to 32 bits.
    pub fn new(monitors: &Vec<MonitorInfo>, monitor_index: usize, depth: u8) -> (r: Result<
        CaptureSession,
        CaptureError,
    >)
        ensures
            match r {
                Ok(s) => {
                    &&& monitor_index < monitors@.len()
                    &&& depth >= 15
                    &&& s == (CaptureSession {
                        width: monitors@[monitor_index as int].width,
                        height: monitors@[monitor_index as int].height,
                        offset_x: monitors@[monitor_index as int].offset_x,
                        offset_y: monitors@[monitor_index as int].offset_y,
                        bpp: 4,
                        frame_num: 0,
                        has_last: false,
                    })
                },
                Err(CaptureError::OutOfRange) => monitor_index >= monitors@.len(),
                Err(CaptureError::UnsupportedDepth) => monitor_index < monitors@.len() && depth
                    < 15,
                Err(_) => false,
            },
    {
        if monitor_index >= monitors.len() {
            return Err(CaptureError::OutOfRange);
        }
        if depth < 15 {
            return Err(CaptureError::UnsupportedDepth);
        }
        let m = monitors[monitor_index];
        Ok(
            CaptureSession {
                width: m.width,
                height: m.height,
                offset_x: m.offset_x,
                offset_y: m.offset_y,
                bpp: 4,
                frame_num: 0,
                has_last: false,
            },
        )
    }

    pub fn width(&self) -> (r: u32)
        ensures
            r == self.width,
    {
        self.width
    }

    pub fn height(&self) -> (r: u32)
        ensures
            r == self.height,
    {
        self.height
    }

    /// Where the region lies on the desktop.
    pub fn offset(&self) -> (r: (i32, i32))
        ensures
            r == (self.offset_x, self.offset_y),
    {
        (self.offset_x, self.offset_y)
    }

    pub fn frame_size_bytes(&self) -> (r: usize)
        requires
            self.fits(),
        ensures
            r == self.frame_bytes(),
            r > 0 ==> self.width > 0 && self.height > 0,
    {
        frame_size(self.width, self.height)
    }

    /// Puts the pixels that arrived into `buffer` as flat BGRA8.
    /// `frame_num` is the frame's number.
    pub fn acquire(&mut self, buffer: &mut Vec<u8>, src: &[u8], frame_num: u64) -> (r: Result<
        bool,
        CaptureError,
    >)
        requires
            old(self).fits(),
        ensures
            match r {
                Ok(fresh) => {
                    &&& fresh
                    &&& old(self).frame_bytes() <= old(buffer)@.len()
                    &&& old(self).bpp == 3 || old(self).bpp == 4 || old(self).frame_bytes() == 0
                    &&& final(buffer)@ == framed(
                        old(buffer)@,
                        src@,
                        old(self).width as int,
                        old(self).height as int,
                        old(self).bpp as int,
                    )
                    &&& *final(self) == (CaptureSession {
                        frame_num,
                        has_last: true,
                        ..*old(self)
                    })
                },
                Err(e) => {
                    &&& *final(self) == *old(self)
                    &&& *final(buffer) == *old(buffer)
                    &&& e == CaptureError::BufferTooSmall ==> old(buffer)@.len() < old(
                        self,
                    ).frame_bytes()
                    &&& e == CaptureError::UnsupportedBpp ==> old(self).frame_bytes() <= old(
                        buffer,
                    )@.len() && old(self).bpp != 3 && old(self).bpp != 4 && old(self).frame_bytes()
                        > 0
                    &&& e == CaptureError::BufferTooSmall || e == CaptureError::UnsupportedBpp
                },
            },
    {
        let need = self.frame_size_bytes();
        if buffer.len() < need {
            return Err(CaptureError::BufferTooSmall);
        }
        if need > 0 && self.bpp != 3 && self.bpp != 4 {
            return Err(CaptureError::UnsupportedBpp);
        }
        if need > 0 {
            fill_frame(buffer, src, self.width as usize, self.height as usize, self.bpp as usize);
        } else {
            assert(buffer@ =~= framed(
                buffer@,
                src@,
                self.width as int,
                self.height as int,
                self.bpp as int,
            ));
        }
        self.frame_num = frame_num;
        self.has_last = true;
        Ok(true)
    }

    /// Puts a texture of `width` by `height` pixels, whose rows lie `stride`
    /// bytes apart, into `buffer` without gaps. The session takes on the
    /// texture's size.
    pub fn acquire_texture(
        &mut self,
        buffer: &mut Vec<u8>,
        src: &[u8],
        stride: usize,
        width: u32,
        height: u32,
    ) -> (r: Result<bool, CaptureError>)
        requires
            width * height * 4 <= usize::MAX,
            width * 4 <= stride,
            stride * height <= src@.len(),
            old(self).frame_num < u64::MAX,
        ensures
            match r {
                Ok(fresh) => {
                    &&& fresh
                    &&& width * height * 4 <= old(buffer)@.len()
                    &&& final(buffer)@ == packed(
                        old(buffer)@,
                        src@,
                        stride as int,
                        width as int,
                        height as int,
                    )
                    &&& *final(self) == (CaptureSession {
                        width,
                        height,
                        frame_num: (old(self).frame_num + 1) as u64,
                        has_last: true,
                        ..*old(self)
                    })
                },
                Err(e) => {
                    &&& e == CaptureError::BufferTooSmall
                    &&& old(buffer)@.len() < width * height * 4
                    &&& *final(buffer) == *old(buffer)
                    &&& *final(self) == (CaptureSession { width, height, has_last: true, ..*old(self) })
                },
            },
    {
        self.has_last = true;
        self.width = width;
        self.height = height;
        let need = frame_size(width, height);
        if buffer.len() < need {
            return Err(CaptureError::BufferTooSmall);
        }
        if need > 0 {
            pack_rows(buffer, src, stride, width as usize, height as usize);
        } else {
            assert(buffer@ =~= packed(buffer@, src@, stride as int, width as int, height as int));
        }
        self.frame_num = self.frame_num + 1;
        Ok(true)
    }

    /// Takes note that no frame came in time.
    pub fn missed(&mut self)
        ensures
            *final(self) == (CaptureSession { has_last: false, ..*old(self) }),
    {
        self.has_last = false;
    }

    /// Takes note that the frame was released. Must follow a successful
    /// `acquire`.
    pub fn release(&mut self)
        ensures
            *final(self) == (CaptureSession { has_last: false, ..*old(self) }),
    {
        self.has_last = false;
    }

    /// True while an acquired frame is pending release.
    pub fn has_acquired(&self) -> (r: bool)
        ensures
            r == self.has_last,
    {
        self.has_last
    }

    /// The frame in a buffer, as far as the buffer goes.
    pub fn frame_view<'a>(&self, buffer: &'a [u8]) -> (v: FrameView<'a>)
        requires
            self.fits(),
            self.width * 4 <= usize::MAX,
        ensures
            v.data@ == if self.frame_bytes() <= buffer@.len() {
                buffer@.take(self.frame_bytes())
            } else {
                buffer@
            },
            v.width == self.width,
            v.height == self.height,
            v.row_stride == self.width * 4,
            v.frame_num == self.frame_num,
    {
        let need = self.frame_size_bytes();
        let size = buffer.len();
        let total: usize = if need < size {
            need
        } else {
            size
        };
        let data = vstd::slice::slice_subrange(buffer, 0, total);
        assert(data@ =~= if self.frame_bytes() <= buffer@.len() {
            buffer@.take(self.frame_bytes())
        } else {
            buffer@
        });
        FrameView {
            data,
            width: self.width,
            height: self.height,
            row_stride: self.width as usize * 4,
            frame_num: self.frame_num,
        }
    }
}

fn frame_size(width: u32, height: u32) -> (r: usize)
    requires
        width * height * 4 <= usize::MAX,
    ensures
        r == width * height * 4,
        r > 0 ==> width > 0 && height > 0,
{
    proof {
        let w = width as int;
        let h = height as int;
        assert(w * h * 4 > 0 ==> w > 0 && h > 0) by (nonlinear_arith)
            requires
                0 <= w,
                0 <= h,
        ;
        assert(0 <= w * h <= usize::MAX) by (nonlinear_arith)
            requires
                0 <= w,
                0 <= h,
                w * h * 4 <= usize::MAX,
        ;
    }
    (width as usize) * (height as usize) * 4
}

proof fn lemma_rows_fit(width: int, height: int, row: int)
    requires
        0 < width,
        0 <= row < height,
    ensures
        0 <= row * (width * 4),
        (row + 1) * (width * 4) == row * (width * 4) + width * 4,
        (row + 1) * (width * 4) <= width * height * 4,
        0 <= row * (width * 3),
        (row + 1) * (width * 3) == row * (width * 3) + width * 3,
        (row + 1) * (width * 3) <= width * height * 4,
        0 <= width * 4 <= width * height * 4,
{
    assert((row + 1) * (width * 4) <= width * height * 4) by (nonlinear_arith)
        requires
            0 < width,
            0 <= row < height,
    ;
    assert((row + 1) * (width * 3) <= width * height * 4) by (nonlinear_arith)
        requires
            0 < width,
            0 <= row < height,
    ;
    assert((row + 1) * (width * 4) == row * (width * 4) + width * 4) by (nonlinear_arith);
    assert((row + 1) * (width * 3) == row * (width * 3) + width * 3) by (nonlinear_arith);
    assert(0 <= row * (width * 4) && 0 <= row * (width * 3) && width * 4 <= width * height * 4)
        by (nonlinear_arith)
        requires
            0 < width,
            0 <= row < height,
    ;
}

#[verifier::rlimit(30)]
fn fill_frame(buffer: &mut Vec<u8>, src: &[u8], width: usize, height: usize, bpp: usize)
    requires
        0 < width,
        0 < height,
        bpp == 3 || bpp == 4,
        width * height * 4 <= old(buffer)@.len(),
    ensures
        final(buffer)@ == framed(old(buffer)@, src@, width as int, height as int, bpp as int),
{
    let ghost start = buffer@;
    let room = buffer.len();
    let size = src.len();
    let mut row: usize = 0;
    while row < height
        invariant
            0 < width,
            row <= height,
            bpp == 3 || bpp == 4,
            start == old(buffer)@,
            room == buffer@.len(),
            room == start.len(),
            size == src@.len(),
            width * height * 4 <= room,
            forall|k: int|
                #![trigger buffer@[k]]
                0 <= k < room ==> buffer@[k] == if k < row * (width * 4) {
                    frame_byte(start, src@, width as int, bpp as int, k)
                } else {
                    start[k]
                },
        decreases height - row,
    {
        proof {
            lemma_rows_fit(width as int, height as int, row as int);
            assert(width * bpp == if bpp == 3 {
                width * 3
            } else {
                width * 4
            });
        }
        let to_bytes: usize = width * 4;
        let at: usize = row * to_bytes;
        let from_bytes: usize = if bpp == 3 {
            width * 3
        } else {
            width * 4
        };
        let from: usize = row * from_bytes;
        let arrived = size >= from_bytes && from <= size - from_bytes;
        let ghost before = buffer@;
        if bpp == 4 {
            if arrived {
                copy_span(buffer, at, src, from, to_bytes);
            } else {
                fill_span(buffer, at, to_bytes, 0xFF);
            }
        } else if arrived {
            expand_row(buffer, at, src, from, width);
        }
        proof {
            assert(arrived <==> (row + 1) * (width * bpp) <= size);
            assert forall|k: int| #![trigger buffer@[k]] 0 <= k < room implies buffer@[k] == if k
                < (row + 1) * (width * 4) {
                frame_byte(start, src@, width as int, bpp as int, k)
            } else {
                start[k]
            } by {
                assert(before[k] == if k < row * (width * 4) {
                    frame_byte(start, src@, width as int, bpp as int, k)
                } else {
                    start[k]
                });
                lemma_row_of(width as int, row as int, k);
            }
        }
        row += 1;
    }
    proof {
        assert(height * (width * 4) == width * height * 4) by (nonlinear_arith);
        assert(buffer@ =~= framed(start, src@, width as int, height as int, bpp as int));
    }
}

fn pack_rows(buffer: &mut Vec<u8>, src: &[u8], stride: usize, width: usize, height: usize)
    requires
        0 < width,
        0 < height,
        width * height * 4 <= old(buffer)@.len(),
        width * 4 <= stride,
        stride * height <= src@.len(),
    ensures
        final(buffer)@ == packed(
            old(buffer)@,
            src@,
            stride as int,
            width as int,
            height as int,
        ),
{
    let ghost start = buffer@;
    let room = buffer.len();
    let size = src.len();
    let mut row: usize = 0;
    while row < height
        invariant
            0 < width,
            row <= height,
            start == old(buffer)@,
            room == buffer@.len(),
            room == start.len(),
            size == src@.len(),
            width * height * 4 <= room,
            width * 4 <= stride,
            stride * height <= size,
            forall|k: int|
                #![trigger buffer@[k]]
                0 <= k < room ==> buffer@[k] == if k < row * (width * 4) {
                    src@[(k / (width * 4)) * stride + k % (width * 4)]
                } else {
                    start[k]
                },
        decreases height - row,
    {
        proof {
            lemma_rows_fit(width as int, height as int, row as int);
            assert(0 <= row * stride && row * stride + stride <= stride * height)
                by (nonlinear_arith)
                requires
                    0 <= row < height,
                    0 <= stride,
            ;
        }
        let bytes: usize = width * 4;
        let at: usize = row * bytes;
        let from: usize = row * stride;
        let ghost before = buffer@;
        copy_span(buffer, at, src, from, bytes);
        proof {
            assert forall|k: int| #![trigger buffer@[k]] 0 <= k < room implies buffer@[k] == if k
                < (row + 1) * (width * 4) {
                src@[(k / (width * 4)) * stride + k % (width * 4)]
            } else {
                start[k]
            } by {
                assert(before[k] == if k < row * (width * 4) {
                    src@[(k / (width * 4)) * stride + k % (width * 4)]
                } else {
                    start[k]
                });
                lemma_row_of(width as int, row as int, k);
            }
        }
        row += 1;
    }
    proof {
        assert(height * (width * 4) == width * height * 4) by (nonlinear_arith);
        assert(buffer@ =~= packed(start, src@, stride as int, width as int, height as int));
    }
}

// ---------------------------------------------------------------------------
// Laws
// ---------------------------------------------------------------------------

/// A complete frame of four-byte pixels is copied as it is, and nothing after
/// it in the buffer changes.
pub proof fn complete_frame_is_copied(old: Seq<u8>, src: Seq<u8>, width: int, height: int, k: int)
    requires
        0 < width,
        0 <= k < old.len(),
        width * height * 4 <= src.len(),
    ensures
        framed(old, src, width, height, 4)[k] == if k < width * height * 4 {
            src[k]
        } else {
            old[k]
        },
{
    if k < width * height * 4 {
        let row = k / (width * 4);
        lemma_row_of(width, row, k);
        assert(row + 1 <= height) by (nonlinear_arith)
            requires
                row * (width * 4) <= k,
                k < width * height * 4,
                0 < width,
        ;
        assert((row + 1) * (width * 4) <= width * height * 4) by (nonlinear_arith)
            requires
                row + 1 <= height,
                0 < width,
        ;
    }
}

/// A texture whose rows lie without gaps is copied as it is.
pub proof fn packed_texture_is_copied(old: Seq<u8>, src: Seq<u8>, width: int, height: int, k: int)
    requires
        0 < width,
        0 <= k < old.len(),
    ensures
        packed(old, src, width * 4, width, height)[k] == if k < width * height * 4 {
            src[k]
        } else {
            old[k]
        },
{
    lemma_row_of(width, 0, k);
}

/// Of two monitors in the list, the first is the primary one or both are alike in
/// that; then it lies further left, or above in one column, and of two in one
/// place it is the one that was described first. None is listed twice.
pub proof fn monitors_stand_left_to_right(
    sorted: Seq<MonitorInfo>,
    list: Seq<MonitorInfo>,
    order: Seq<int>,
    a: int,
    b: int,
)
    requires
        is_sorted_list(sorted, list, order),
        0 <= a < b < sorted.len(),
    ensures
        sorted[b].primary ==> sorted[a].primary,
        sorted[a].primary == sorted[b].primary ==> sorted[a].offset_x <= sorted[b].offset_x,
        sorted[a].primary == sorted[b].primary && sorted[a].offset_x == sorted[b].offset_x
            ==> sorted[a].offset_y <= sorted[b].offset_y,
        sorted[a].primary == sorted[b].primary && sorted[a].offset_x == sorted[b].offset_x
            && sorted[a].offset_y == sorted[b].offset_y ==> order[a] < order[b],
        order[a] != order[b],
{
    assert(comes_first(list, order[a], order[b]));
    assert(sorted[a] == list[order[a]] && sorted[b] == list[order[b]]);
}

/// Every monitor that the display server describes is listed, where it lies and
/// as large as it is, and is found again by its number. No other is listed.
pub proof fn every_monitor_is_listed(
    geometry: Seq<MonitorGeometry>,
    out: Seq<MonitorInfo>,
    order: Seq<int>,
    i: int,
)
    requires
        is_sorted_list(out, described_all(geometry), order),
        geometry.len() <= usize::MAX,
        0 <= i < geometry.len(),
    ensures
        out.len() == geometry.len(),
        exists|k: int|
            {
                &&& 0 <= k < out.len()
                &&& #[trigger] out[k].output_index == i
                &&& out[k].offset_x == geometry[i].x
                &&& out[k].offset_y == geometry[i].y
                &&& geometry[i].width > 0 ==> out[k].width == geometry[i].width
                &&& geometry[i].height > 0 ==> out[k].height == geometry[i].height
                &&& out[k].width > 0 && out[k].height > 0
                &&& out[k].primary == geometry[i].primary
            },
{
    assert(order.contains(i));
    let k = choose|k: int| 0 <= k < order.len() && order[k] == i;
    assert(out[k] == described_all(geometry)[order[k]]);
    assert(out[k].output_index == i);
}

/// A rectangle reaches from one edge to the other, and is never empty.
pub proof fn sides_reach_from_edge_to_edge(from: i32, to: i32)
    ensures
        from < to ==> from + side(from, to) == to,
        from >= to ==> side(from, to) == 1,
{
}

/// The pixel in a row and a column of a texture arrives in that row and that
/// column of the frame, whatever lies between the texture's rows.
pub proof fn pixels_of_a_texture_keep_their_place(
    old: Seq<u8>,
    src: Seq<u8>,
    stride: int,
    width: int,
    height: int,
    row: int,
    column: int,
    channel: int,
)
    requires
        0 <= row < height,
        0 <= column < width,
        0 <= channel < 4,
        width * height * 4 <= old.len(),
    ensures
        packed(old, src, stride, width, height)[(row * width + column) * 4 + channel] == src[row
            * stride + column * 4 + channel],
{
    let j = column * 4 + channel;
    let k = (row * width + column) * 4 + channel;
    lemma_place_of(width, height, row, j);
    assert(k == row * (width * 4) + j) by (nonlinear_arith)
        requires
            k == (row * width + column) * 4 + channel,
            j == column * 4 + channel,
    ;
}

/// A byte of a row lies in the frame, and is found by its row and its place in
/// the row.
proof fn lemma_place_of(width: int, height: int, row: int, j: int)
    requires
        0 <= row < height,
        0 <= j < width * 4,
    ensures
        0 <= row * (width * 4) + j < width * height * 4,
        (row * (width * 4) + j) / (width * 4) == row,
        (row * (width * 4) + j) % (width * 4) == j,
{
    let d = width * 4;
    let k = row * d + j;
    assert(0 <= k < width * height * 4) by (nonlinear_arith)
        requires
            0 <= row < height,
            d == width * 4,
            0 <= j < d,
            k == row * d + j,
    ;
    assert((row + 1) * d == row * d + d) by (nonlinear_arith);
    lemma_row_of(width, row, k);
}

/// The pixel in a row and a column keeps its place and its colors, whether it
/// arrives with three bytes or with four; one of three becomes opaque. A row that
/// did not arrive is white, or stays as it was where pixels have three bytes.
pub proof fn pixels_keep_their_place(
    old: Seq<u8>,
    src: Seq<u8>,
    width: int,
    height: int,
    bpp: int,
    row: int,
    column: int,
    channel: int,
)
    requires
        0 <= row < height,
        0 <= column < width,
        0 <= channel < 4,
        bpp == 3 || bpp == 4,
        width * height * 4 <= old.len(),
    ensures
        ({
            let byte = framed(old, src, width, height, bpp)[(row * width + column) * 4 + channel];
            let arrived = (row + 1) * (width * bpp) <= src.len();
            &&& arrived && channel < bpp ==> byte == src[(row * width + column) * bpp + channel]
            &&& arrived && channel >= bpp ==> byte == 255
            &&& !arrived && bpp == 4 ==> byte == 255
            &&& !arrived && bpp == 3 ==> byte == old[(row * width + column) * 4 + channel]
        }),
{
    let j = column * 4 + channel;
    let k = (row * width + column) * 4 + channel;
    lemma_place_of(width, height, row, j);
    assert(k == row * (width * 4) + j) by (nonlinear_arith)
        requires
            k == (row * width + column) * 4 + channel,
            j == column * 4 + channel,
    ;
    assert(j / 4 == column && j % 4 == channel);
    assert(row * (width * 3) + column * 3 + channel == (row * width + column) * 3 + channel)
        by (nonlinear_arith);
}

/// What lies behind the frame in the buffer is left alone, and no byte is added
/// or lost.
pub proof fn buffer_behind_the_frame_is_kept(
    old: Seq<u8>,
    src: Seq<u8>,
    stride: int,
    width: int,
    height: int,
    bpp: int,
    k: int,
)
    requires
        width * height * 4 <= k < old.len(),
        0 <= k,
    ensures
        framed(old, src, width, height, bpp)[k] == old[k],
        packed(old, src, stride, width, height)[k] == old[k],
        framed(old, src, width, height, bpp).len() == old.len(),
        packed(old, src, stride, width, height).len() == old.len(),
{
}

/// Where no monitor is described, there is one as large as the screen, in its
/// corner.
pub proof fn whole_screen_is_one_monitor(width: u16, height: u16)
    ensures
        ({
            let m = whole_screen(width, height);
            &&& m.width == width && m.height == height
            &&& m.offset_x == 0 && m.offset_y == 0
            &&& m.adapter_index == 0 && m.output_index == 0
            &&& m.primary
        }),
{
}

/// A frame takes four bytes for each of its pixels, row after row.
pub proof fn frames_take_four_bytes_a_pixel(s: CaptureSession)
    ensures
        s.frame_bytes() == s.height * (s.width * 4),
        s.fits() <==> s.height * (s.width * 4) <= usize::MAX,
{
    assert(s.width * s.height * 4 == s.height * (s.width * 4)) by (nonlinear_arith);
}

} // verus!
