//! Rasterization: each event becomes one pixel. The horizontal coordinate
//! scales the event's timestamp over the normalized range onto the image
//! width, the vertical coordinate is the note, and the color comes from the
//! 16-entry palette indexed by the channel. Later events overwrite earlier
//! ones at the same pixel; there is no blending.

use vstd::prelude::*;
use vstd::arithmetic::div_mod::lemma_fundamental_div_mod_converse;
use vstd::arithmetic::div_mod::lemma_multiply_divide_lt;

use crate::event::Event;

verus! {

/// The fixed 16-color palette: RGBA, one byte per component, most significant
/// byte red, least significant byte the alpha, which is always opaque.
pub open spec fn palette_seq() -> Seq<u32> {
    seq![
        0xaaaaaaffu32,
        0x005500ffu32,
        0x00aa00ffu32,
        0x00ff00ffu32,
        0x0000ffffu32,
        0x0055ffffu32,
        0x00aaffffu32,
        0x00ffffffu32,
        0xff0000ffu32,
        0xff5500ffu32,
        0xffaa00ffu32,
        0xffff00ffu32,
        0xff00ffffu32,
        0xff55ffffu32,
        0xffaaffffu32,
        0xffffffffu32,
    ]
}

/// Builds the fixed palette as a value, to be handed to the rasterizer.
pub fn default_palette() -> (p: Vec<u32>)
    ensures
        p@ == palette_seq(),
{
    let mut p: Vec<u32> = Vec::new();
    p.push(0xaaaaaaff);
    p.push(0x005500ff);
    p.push(0x00aa00ff);
    p.push(0x00ff00ff);
    p.push(0x0000ffff);
    p.push(0x0055ffff);
    p.push(0x00aaffff);
    p.push(0x00ffffff);
    p.push(0xff0000ff);
    p.push(0xff5500ff);
    p.push(0xffaa00ff);
    p.push(0xffff00ff);
    p.push(0xff00ffff);
    p.push(0xff55ffff);
    p.push(0xffaaffff);
    p.push(0xffffffff);
    proof {
        assert(p@ =~= palette_seq());
    }
    p
}

/// The horizontal coordinate of timestamp `t` within the normalized range
/// `[mn, mx]` on an image `w` pixels wide: the ratio `(t - mn) / (mx - mn)`
/// scaled onto `0 .. w`, rounded to the nearest pixel with halves rounding
/// up. A degenerate range (`mn == mx`) maps every timestamp to 0.
pub open spec fn spec_x(t: u64, mn: u64, mx: u64, w: u32) -> int {
    if mn == mx {
        0
    } else {
        ((t - mn) * (w - 1) + (mx - mn) / 2) / (mx - mn)
    }
}

/// A degenerate range places every event at the left edge: there is no
/// division by zero to fear when all timestamps coincide.
pub proof fn lemma_degenerate_x(t: u64, mn: u64, w: u32)
    ensures
        spec_x(t, mn, mn, w) == 0,
{
}

/// The scaled coordinate always lands inside the image.
pub proof fn lemma_spec_x_bounds(t: u64, mn: u64, mx: u64, w: u32)
    requires
        mn <= t <= mx,
        w >= 1,
    ensures
        0 <= spec_x(t, mn, mx, w) < w,
{
    if mn < mx {
        let ti = t as int;
        let mni = mn as int;
        let mxi = mx as int;
        let wi = w as int;
        let d = mxi - mni;
        let a = ti - mni;
        let num = a * (wi - 1);
        assert(0 <= a * (wi - 1) && a * (wi - 1) <= d * (wi - 1)) by (nonlinear_arith)
            requires
                0 <= a,
                a <= d,
                1 <= wi,
        {}
        assert(num + d / 2 < d * wi) by (nonlinear_arith)
            requires
                num <= d * (wi - 1),
                d >= 1,
                wi >= 1,
        {}
        lemma_multiply_divide_lt(num + d / 2, d, wi);
        assert(spec_x(t, mn, mx, w) == (num + d / 2) / d);
        assert((num + d / 2) / d >= 0) by (nonlinear_arith)
            requires
                num + d / 2 >= 0,
                d >= 1,
        {}
    }
}

/// Computes [`spec_x`] in machine arithmetic, free of overflow.
pub fn map_x(t: u64, mn: u64, mx: u64, width: u32) -> (x: u32)
    requires
        mn <= t <= mx,
        width >= 1,
    ensures
        x as int == spec_x(t, mn, mx, width),
        x < width,
{
    if mn == mx {
        return 0;
    }
    proof {
        assert(((t - mn) as u128) * ((width - 1) as u128) <= 0xffff_ffff_ffff_ffff
            * 0xffff_ffff) by (nonlinear_arith)
            requires
                0 <= (t - mn) as u128 <= 0xffff_ffff_ffff_ffff,
                0 <= (width - 1) as u128 <= 0xffff_ffff,
        {}
        lemma_spec_x_bounds(t, mn, mx, width);
    }
    let d: u128 = (mx - mn) as u128;
    let num: u128 = ((t - mn) as u128) * ((width - 1) as u128);
    let q: u128 = (num + d / 2) / d;
    proof {
        assert(q as int == spec_x(t, mn, mx, width));
    }
    q as u32
}

/// The event's channel indexes the palette and its note fits the image
/// height; only such an event can be drawn.
pub open spec fn event_in_bounds(e: Event, h: u32) -> bool {
    e.channel < 16 && (e.note as int) < h as int
}

/// Every event of the sequence can be drawn on an image of height `h`.
pub open spec fn all_in_bounds(s: Seq<Event>, h: u32) -> bool {
    forall|i: int| 0 <= i < s.len() ==> event_in_bounds(#[trigger] s[i], h)
}

/// The event at position `i` is the first one that cannot be drawn.
pub open spec fn is_first_bad(s: Seq<Event>, h: u32, i: int) -> bool {
    &&& 0 <= i < s.len()
    &&& !event_in_bounds(s[i], h)
    &&& forall|j: int| 0 <= j < i ==> event_in_bounds(#[trigger] s[j], h)
}

/// A fatal out-of-range condition met while rasterizing one event. The
/// rasterizer fails fast on the first such event, checking the channel before
/// the note.
#[derive(Debug, Clone, Copy, PartialEq, Eq, Structural)]
pub enum RasterError {
    /// The channel does not index the 16-entry palette.
    ChannelOutOfRange { channel: u8 },
    /// The note does not fit below the framebuffer height.
    NoteOutOfRange { note: u8 },
}

/// The error that an undrawable event produces.
pub open spec fn raster_error_for(e: Event, h: u32) -> RasterError {
    if e.channel >= 16 {
        RasterError::ChannelOutOfRange { channel: e.channel }
    } else {
        RasterError::NoteOutOfRange { note: e.note }
    }
}

/// An in-memory grid of RGBA pixels, row-major from the top-left corner, one
/// `u32` per pixel laid out as the palette entries are.
#[derive(Debug, PartialEq, Eq)]
pub struct Framebuffer {
    pub width: u32,
    pub height: u32,
    pub pixels: Vec<u32>,
}

/// The index of the pixel an event addresses, in a row-major grid `w` wide.
pub open spec fn pix_index(e: Event, mn: u64, mx: u64, w: u32) -> int {
    (e.note as int) * (w as int) + spec_x(e.timestamp, mn, mx, w)
}

/// A drawable event addresses a cell of the grid.
pub proof fn lemma_pix_index_bounds(e: Event, mn: u64, mx: u64, w: u32, h: u32)
    requires
        mn <= e.timestamp <= mx,
        w >= 1,
        event_in_bounds(e, h),
    ensures
        0 <= pix_index(e, mn, mx, w) < (w as int) * (h as int),
{
    lemma_spec_x_bounds(e.timestamp, mn, mx, w);
    assert(0 <= ((e.note as int) * (w as int) + spec_x(e.timestamp, mn, mx, w)) < ((w as int) * (
    h as int))) by (nonlinear_arith)
        requires
            0 <= spec_x(e.timestamp, mn, mx, w) < w as int,
            0 <= (e.note as int) < (h as int),
            w >= 1,
    {}
}

/// Two drawable events that address distinct `(x, y)` pixels have distinct
/// row-major indices.
proof fn lemma_pix_index_injective(a: Event, b: Event, mn: u64, mx: u64, w: u32)
    requires
        mn <= a.timestamp <= mx,
        mn <= b.timestamp <= mx,
        w >= 1,
        !(spec_x(a.timestamp, mn, mx, w) == spec_x(b.timestamp, mn, mx, w) && a.note == b.note),
    ensures
        pix_index(a, mn, mx, w) != pix_index(b, mn, mx, w),
{
    lemma_spec_x_bounds(a.timestamp, mn, mx, w);
    lemma_spec_x_bounds(b.timestamp, mn, mx, w);
    let xa = spec_x(a.timestamp, mn, mx, w);
    let xb = spec_x(b.timestamp, mn, mx, w);
    if pix_index(a, mn, mx, w) == pix_index(b, mn, mx, w) {
        let idx = pix_index(a, mn, mx, w);
        lemma_fundamental_div_mod_converse(idx, w as int, a.note as int, xa);
        lemma_fundamental_div_mod_converse(idx, w as int, b.note as int, xb);
        assert(false);
    }
}

/// The framebuffer every rasterization starts from: each cell holds the
/// background color.
pub open spec fn init_pixels(width: u32, height: u32, background: u32) -> Seq<u32> {
    Seq::new(((width as int) * (height as int)) as nat, |i: int| background)
}

/// The framebuffer contents after drawing every event of `s` in order onto
/// `pix`: each event overwrites the cell it addresses with its palette color,
/// so later events take precedence at a shared cell.
pub open spec fn render(s: Seq<Event>, mn: u64, mx: u64, w: u32, pal: Seq<u32>, pix: Seq<u32>) -> Seq<
    u32,
>
    decreases s.len(),
{
    if s.len() == 0 {
        pix
    } else {
        let pre = render(s.drop_last(), mn, mx, w, pal, pix);
        let e = s.last();
        pre.update(pix_index(e, mn, mx, w), pal[e.channel as int])
    }
}

/// Drawing a sequence of drawable events never changes the size of the grid.
pub proof fn lemma_render_len(
    s: Seq<Event>,
    mn: u64,
    mx: u64,
    w: u32,
    h: u32,
    pal: Seq<u32>,
    pix: Seq<u32>,
)
    requires
        w >= 1,
        pix.len() == (w as int) * (h as int),
        forall|i: int| 0 <= i < s.len() ==> mn <= (#[trigger] s[i]).timestamp <= mx,
        all_in_bounds(s, h),
    ensures
        render(s, mn, mx, w, pal, pix).len() == pix.len(),
    decreases s.len(),
{
    if s.len() > 0 {
        assert(forall|i: int| 0 <= i < s.len() - 1 ==> #[trigger] s.drop_last()[i] == s[i]);
        lemma_render_len(s.drop_last(), mn, mx, w, h, pal, pix);
        lemma_pix_index_bounds(s.last(), mn, mx, w, h);
    }
}

impl Framebuffer {
    /// The pixel grid fills exactly `width * height` cells.
    pub open spec fn wf(self) -> bool {
        self.pixels@.len() == (self.width as int) * (self.height as int)
    }

    /// The pixel stored at column `x`, row `y`.
    pub open spec fn spec_pixel(self, x: int, y: int) -> u32 {
        self.pixels@[y * (self.width as int) + x]
    }

    /// A fresh framebuffer with every pixel set to the background color.
    pub fn new(width: u32, height: u32, background: u32) -> (fb: Framebuffer)
        requires
            (width as int) * (height as int) <= usize::MAX as int,
        ensures
            fb.wf(),
            fb.width == width,
            fb.height == height,
            fb.pixels@ == init_pixels(width, height, background),
    {
        let total: usize = (width as usize) * (height as usize);
        let mut pixels: Vec<u32> = Vec::new();
        let mut i: usize = 0;
        while i < total
            invariant
                0 <= i <= total,
                pixels@.len() == i,
                forall|j: int| 0 <= j < i ==> pixels@[j] == background,
            decreases total - i,
        {
            pixels.push(background);
            i = i + 1;
        }
        proof {
            assert(pixels@ =~= init_pixels(width, height, background));
        }
        Framebuffer { width, height, pixels }
    }

    /// Overwrites the pixel at `(x, y)` with `color`, leaving every other
    /// pixel as it was.
    pub fn put_pixel(&mut self, x: u32, y: u32, color: u32)
        requires
            old(self).wf(),
            x < old(self).width,
            y < old(self).height,
        ensures
            final(self).wf(),
            final(self).width == old(self).width,
            final(self).height == old(self).height,
            final(self).pixels@ == old(self).pixels@.update(
                (y as int) * (old(self).width as int) + x as int,
                color,
            ),
            final(self).spec_pixel(x as int, y as int) == color,
    {
        proof {
            assert(0 <= ((y as int) * (self.width as int) + (x as int)) < ((self.width as int) * (
            self.height as int))) by (nonlinear_arith)
                requires
                    0 <= (x as int) < (self.width as int),
                    0 <= (y as int) < (self.height as int),
            {}
        }
        // the vector's length shows that the whole grid, and so the index
        // below, fits in a usize
        let _n: usize = self.pixels.len();
        let idx: usize = (y as usize) * (self.width as usize) + (x as usize);
        self.pixels.set(idx, color);
    }
}

/// Draws every event in order onto a fresh background-filled framebuffer.
/// Succeeds exactly when every event is drawable; otherwise it fails fast
/// with the error of the first event that is not, and no framebuffer is
/// produced.
pub fn rasterize(
    events: &Vec<Event>,
    mn: u64,
    mx: u64,
    width: u32,
    height: u32,
    palette: &Vec<u32>,
    background: u32,
) -> (r: Result<Framebuffer, RasterError>)
    requires
        width >= 1,
        height >= 1,
        (width as int) * (height as int) <= usize::MAX as int,
        palette@.len() == 16,
        forall|i: int| 0 <= i < events@.len() ==> mn <= (#[trigger] events@[i]).timestamp <= mx,
    ensures
        match r {
            Ok(fb) => {
                &&& all_in_bounds(events@, height)
                &&& fb.wf()
                &&& fb.width == width
                &&& fb.height == height
                &&& fb.pixels@ == render(
                    events@,
                    mn,
                    mx,
                    width,
                    palette@,
                    init_pixels(width, height, background),
                )
            },
            Err(err) => {
                &&& !all_in_bounds(events@, height)
                &&& exists|i: int|
                    is_first_bad(events@, height, i) && err == raster_error_for(
                        events@[i],
                        height,
                    )
            },
        },
{
    let mut fb = Framebuffer::new(width, height, background);
    let mut i: usize = 0;
    while i < events.len()
        invariant
            fb.wf(),
            fb.width == width,
            fb.height == height,
            width >= 1,
            height >= 1,
            palette@.len() == 16,
            forall|k: int| 0 <= k < events@.len() ==> mn <= (#[trigger] events@[k]).timestamp <= mx,
            0 <= i <= events@.len(),
            forall|j: int| 0 <= j < i ==> event_in_bounds(#[trigger] events@[j], height),
            fb.pixels@ == render(
                events@.take(i as int),
                mn,
                mx,
                width,
                palette@,
                init_pixels(width, height, background),
            ),
        decreases events@.len() - i,
    {
        let e = events[i];
        if e.channel >= 16 {
            proof {
                assert(is_first_bad(events@, height, i as int));
            }
            return Err(RasterError::ChannelOutOfRange { channel: e.channel });
        }
        if e.note as u32 >= height {
            proof {
                assert(is_first_bad(events@, height, i as int));
            }
            return Err(RasterError::NoteOutOfRange { note: e.note });
        }
        let x = map_x(e.timestamp, mn, mx, width);
        let color = palette[e.channel as usize];
        fb.put_pixel(x, e.note as u32, color);
        proof {
            assert(events@.take(i + 1).drop_last() =~= events@.take(i as int));
            assert(events@.take(i + 1).last() == events@[i as int]);
            assert(pix_index(events@[i as int], mn, mx, width) == (e.note as int) * (
            width as int) + x as int);
        }
        i = i + 1;
    }
    proof {
        assert(events@.take(events@.len() as int) =~= events@);
    }
    Ok(fb)
}

/// Normalizes the timestamp range and rasterizes in one step. `Ok(None)`
/// signals "no data" and comes exactly from an empty event sequence;
/// otherwise the events are drawn over their own timestamp range, succeeding
/// exactly when all of them are drawable.
pub fn rasterize_normalized(
    events: &Vec<Event>,
    width: u32,
    height: u32,
    palette: &Vec<u32>,
    background: u32,
) -> (r: Result<Option<Framebuffer>, RasterError>)
    requires
        width >= 1,
        height >= 1,
        (width as int) * (height as int) <= usize::MAX as int,
        palette@.len() == 16,
    ensures
        match r {
            Ok(opt) => match opt {
                None => events@.len() == 0,
                Some(fb) => {
                    &&& events@.len() > 0
                    &&& all_in_bounds(events@, height)
                    &&& fb.wf()
                    &&& fb.width == width
                    &&& fb.height == height
                    &&& fb.pixels@ == render(
                        events@,
                        crate::range::min_ts(events@),
                        crate::range::max_ts(events@),
                        width,
                        palette@,
                        init_pixels(width, height, background),
                    )
                },
            },
            Err(err) => {
                &&& events@.len() > 0
                &&& !all_in_bounds(events@, height)
                &&& exists|i: int|
                    is_first_bad(events@, height, i) && err == raster_error_for(
                        events@[i],
                        height,
                    )
            },
        },
{
    match crate::range::time_range(events) {
        None => Ok(None),
        Some((mn, mx)) => {
            proof {
                crate::range::lemma_min_max_bounds(events@);
            }
            match rasterize(events, mn, mx, width, height, palette, background) {
                Ok(fb) => Ok(Some(fb)),
                Err(e) => Err(e),
            }
        },
    }
}

/// Last writer wins: when the event at position `j` is the last one of the
/// sequence that addresses its pixel, the rendered framebuffer holds that
/// event's palette color at that pixel, whatever was drawn before.
pub proof fn lemma_last_writer(
    s: Seq<Event>,
    mn: u64,
    mx: u64,
    w: u32,
    h: u32,
    pal: Seq<u32>,
    pix: Seq<u32>,
    j: int,
)
    requires
        w >= 1,
        h >= 1,
        pal.len() == 16,
        pix.len() == (w as int) * (h as int),
        forall|i: int| 0 <= i < s.len() ==> mn <= (#[trigger] s[i]).timestamp <= mx,
        all_in_bounds(s, h),
        0 <= j < s.len(),
        forall|k: int|
            j < k < s.len() ==> !(spec_x((#[trigger] s[k]).timestamp, mn, mx, w) == spec_x(
                s[j].timestamp,
                mn,
                mx,
                w,
            ) && s[k].note == s[j].note),
    ensures
        render(s, mn, mx, w, pal, pix)[pix_index(s[j], mn, mx, w)] == pal[s[j].channel as int],
    decreases s.len(),
{
    let last = s.last();
    let pre = render(s.drop_last(), mn, mx, w, pal, pix);
    assert(forall|i: int| 0 <= i < s.len() - 1 ==> #[trigger] s.drop_last()[i] == s[i]);
    lemma_render_len(s.drop_last(), mn, mx, w, h, pal, pix);
    lemma_pix_index_bounds(s[j], mn, mx, w, h);
    if j == s.len() - 1 {
        assert(render(s, mn, mx, w, pal, pix) == pre.update(
            pix_index(last, mn, mx, w),
            pal[last.channel as int],
        ));
    } else {
        assert(forall|i: int| 0 <= i < s.len() - 1 ==> #[trigger] s.drop_last()[i] == s[i]);
        lemma_pix_index_bounds(last, mn, mx, w, h);
        lemma_pix_index_injective(last, s[j], mn, mx, w);
        lemma_last_writer(s.drop_last(), mn, mx, w, h, pal, pix, j);
    }
}

} // verus!

