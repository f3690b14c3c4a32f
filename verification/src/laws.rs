//! What holds of the raster and of the refresh across calls.

use vstd::prelude::*;
use vstd::arithmetic::div_mod::{lemma_fundamental_div_mod, lemma_mod_bound};
use crate::display::{transfer, transfers, window_at, window_frames, MEMORY_WRITE};
use crate::framebuffer::{
    inside, lemma_rows_of_at, lemma_rows_of_len, lemma_slot_in_range, lemma_slots_apart, put,
    slot, FrameBuffer,
};
use crate::pixel::{solid, stored_byte, ByteOrder};
use crate::region::{lemma_clamp_keeps_fitting, Region};

verus! {

/// A colour written inside the raster is the colour read back at the same
/// coordinate, in either byte order.
pub proof fn lemma_write_then_read(
    before: FrameBuffer,
    after: FrameBuffer,
    x: int,
    y: int,
    color: u16,
)
    requires
        before.wf(),
        before.contains(x, y),
        after.same_shape(&before),
        after.bytes() == put(
            before.bytes(),
            before.cols(),
            before.rows(),
            before.order(),
            x,
            y,
            color,
        ),
    ensures
        after.wf(),
        after.pixel(x, y) == color,
        after.byte(x, y, 0) == stored_byte(before.order(), color, 0),
        after.byte(x, y, 1) == stored_byte(before.order(), color, 1),
{
    lemma_slot_in_range(before.cols(), before.rows(), x, y);
}

/// A write inside the raster leaves every other pixel as it was.
pub proof fn lemma_write_keeps_others(
    before: FrameBuffer,
    after: FrameBuffer,
    x: int,
    y: int,
    color: u16,
    ox: int,
    oy: int,
)
    requires
        before.wf(),
        before.contains(ox, oy),
        ox != x || oy != y,
        after.same_shape(&before),
        after.bytes() == put(
            before.bytes(),
            before.cols(),
            before.rows(),
            before.order(),
            x,
            y,
            color,
        ),
    ensures
        after.pixel(ox, oy) == before.pixel(ox, oy),
{
    lemma_slot_in_range(before.cols(), before.rows(), ox, oy);
    if before.contains(x, y) {
        lemma_slot_in_range(before.cols(), before.rows(), x, y);
        lemma_slots_apart(before.cols(), x, y, ox, oy);
    }
}

/// A write outside the raster changes no byte of it.
pub proof fn lemma_write_outside_is_dropped(
    bytes: Seq<u8>,
    cols: int,
    rows: int,
    order: ByteOrder,
    x: int,
    y: int,
    color: u16,
)
    requires
        !inside(cols, rows, x, y),
    ensures
        put(bytes, cols, rows, order, x, y, color) == bytes,
{
}

/// After the raster was cleared to a colour, every pixel of it reads as that
/// colour.
pub proof fn lemma_clear_then_read(fb: FrameBuffer, color: u16, x: int, y: int)
    requires
        fb.wf(),
        fb.contains(x, y),
        forall|i: int|
            0 <= i < fb.bytes().len() ==> #[trigger] fb.bytes()[i] == stored_byte(
                fb.order(),
                color,
                i % 2,
            ),
    ensures
        fb.pixel(x, y) == color,
{
    lemma_slot_in_range(fb.cols(), fb.rows(), x, y);
    let at = slot(fb.cols(), x, y);
    assert(at % 2 == 0);
    assert((at + 1) % 2 == 1);
    assert(fb.bytes()[at] == stored_byte(fb.order(), color, 0));
    assert(fb.bytes()[at + 1] == stored_byte(fb.order(), color, 1));
}

/// Filling a rectangle that lies in the raster and then showing that
/// rectangle sends one address window, from the rectangle's first column and
/// row to its last, and one memory write of exactly width times height
/// pixels, each of them the fill colour.
pub proof fn lemma_fill_then_show(
    fb: FrameBuffer,
    region: Region,
    color: u16,
    dx: int,
    dy: int,
    r: int,
    c: int,
    k: int,
)
    requires
        fb.wf(),
        region.fits(fb.cols(), fb.rows()),
        !region.is_empty(),
        forall|x: int, y: int, k: int|
            fb.contains(x, y) && 0 <= k < 2 && region.covers(x, y) ==> #[trigger] fb.byte(x, y, k)
                == stored_byte(fb.order(), color, k),
        0 <= r < region.height,
        0 <= c < region.width,
        0 <= k < 2,
    ensures
        transfer(fb.bytes(), fb.cols(), fb.rows(), dx, dy, region).len() == 3,
        transfer(fb.bytes(), fb.cols(), fb.rows(), dx, dy, region).take(2) == window_frames(
            window_at(region, dx, dy),
        ),
        transfer(fb.bytes(), fb.cols(), fb.rows(), dx, dy, region)[2].0 == MEMORY_WRITE,
        transfer(fb.bytes(), fb.cols(), fb.rows(), dx, dy, region)[2].1.len() == region.width
            * region.height * 2,
        0 <= (r * region.width + c) * 2 + k < region.width * region.height * 2,
        transfer(fb.bytes(), fb.cols(), fb.rows(), dx, dy, region)[2].1[(r * region.width + c)
            * 2 + k] == stored_byte(fb.order(), color, k),
{
    lemma_clamp_keeps_fitting(region, fb.cols(), fb.rows());
    lemma_show_of_fitting(fb.bytes(), fb.cols(), fb.rows(), dx, dy, region);
    lemma_rows_of_len(fb.bytes(), fb.cols(), fb.rows(), region, region.height as int);
    lemma_rows_of_at(fb.bytes(), fb.cols(), fb.rows(), region, region.height as int, r, c, k);
    assert(region.height * region.width * 2 == region.width * region.height * 2)
        by (nonlinear_arith);
    assert(fb.contains(region.x + c, region.y + r));
    assert(region.covers(region.x + c, region.y + r));
    assert(fb.byte(region.x + c, region.y + r, k) == stored_byte(fb.order(), color, k));
}

/// Filling a rectangle that lies in the raster and then showing it sends
/// exactly its address window followed by one memory write that holds the
/// fill colour width times height times, and nothing else.
pub proof fn lemma_fill_then_show_all(
    fb: FrameBuffer,
    region: Region,
    color: u16,
    dx: int,
    dy: int,
)
    requires
        fb.wf(),
        region.fits(fb.cols(), fb.rows()),
        !region.is_empty(),
        forall|x: int, y: int, k: int|
            fb.contains(x, y) && 0 <= k < 2 && region.covers(x, y) ==> #[trigger] fb.byte(x, y, k)
                == stored_byte(fb.order(), color, k),
    ensures
        transfer(fb.bytes(), fb.cols(), fb.rows(), dx, dy, region) == window_frames(
            window_at(region, dx, dy),
        ).push((MEMORY_WRITE, solid(region.width * region.height, fb.order(), color))),
{
    let w = region.width as int;
    let h = region.height as int;
    lemma_clamp_keeps_fitting(region, fb.cols(), fb.rows());
    lemma_show_of_fitting(fb.bytes(), fb.cols(), fb.rows(), dx, dy, region);
    let data = transfer(fb.bytes(), fb.cols(), fb.rows(), dx, dy, region)[2].1;
    let all = solid(w * h, fb.order(), color);
    assert(0 <= w * h) by (nonlinear_arith)
        requires
            0 <= w,
            0 <= h,
    ;
    assert(data.len() == all.len());
    assert forall|i: int| 0 <= i < data.len() implies data[i] == all[i] by {
        let p = i / 2;
        let k = i % 2;
        let r = p / w;
        let c = p % w;
        lemma_fundamental_div_mod(p, w);
        lemma_mod_bound(p, w);
        assert(p < w * h);
        assert(0 <= r < h) by (nonlinear_arith)
            requires
                p == w * r + c,
                0 <= c < w,
                0 <= p < w * h,
                0 < w,
        ;
        assert((r * w + c) * 2 + k == i) by (nonlinear_arith)
            requires
                p == w * r + c,
                i == 2 * p + k,
        ;
        lemma_fill_then_show(fb, region, color, dx, dy, r, c, k);
    }
    assert(data =~= all);
    assert(transfer(fb.bytes(), fb.cols(), fb.rows(), dx, dy, region) =~= window_frames(
        window_at(region, dx, dy),
    ).push((MEMORY_WRITE, all)));
}

/// A rectangle that lies in the raster is shown as three frames: the two of
/// its address window and one memory write of width times height pixels.
pub proof fn lemma_show_of_fitting(
    bytes: Seq<u8>,
    cols: int,
    rows: int,
    dx: int,
    dy: int,
    region: Region,
)
    requires
        bytes.len() == cols * rows * 2,
        region.fits(cols, rows),
        !region.is_empty(),
    ensures
        transfer(bytes, cols, rows, dx, dy, region).len() == 3,
        transfer(bytes, cols, rows, dx, dy, region).take(2) == window_frames(
            window_at(region, dx, dy),
        ),
        transfer(bytes, cols, rows, dx, dy, region)[2].0 == MEMORY_WRITE,
        transfer(bytes, cols, rows, dx, dy, region)[2].1.len() == region.width * region.height
            * 2,
{
    lemma_clamp_keeps_fitting(region, cols, rows);
    let sent = transfer(bytes, cols, rows, dx, dy, region);
    assert(sent.take(2) =~= window_frames(window_at(region, dx, dy)));
    lemma_rows_of_len(bytes, cols, rows, region, region.height as int);
    assert(region.height * region.width * 2 == region.width * region.height * 2)
        by (nonlinear_arith);
}

/// A refresh of rectangles that all lie in the raster sends three frames for
/// each of them, in the order in which they were noted: frames `3 * k` to
/// `3 * k + 2` are those of rectangle `k`, whether or not it overlaps
/// another.
pub proof fn lemma_refresh_of_fitting(
    bytes: Seq<u8>,
    cols: int,
    rows: int,
    dx: int,
    dy: int,
    regions: Seq<Region>,
    k: int,
)
    requires
        bytes.len() == cols * rows * 2,
        forall|i: int|
            0 <= i < regions.len() ==> (#[trigger] regions[i]).fits(cols, rows)
                && !regions[i].is_empty(),
        0 <= k < regions.len(),
    ensures
        transfers(bytes, cols, rows, dx, dy, regions).len() == 3 * regions.len(),
        transfers(bytes, cols, rows, dx, dy, regions).subrange(3 * k, 3 * k + 3) == transfer(
            bytes,
            cols,
            rows,
            dx,
            dy,
            regions[k],
        ),
    decreases regions.len(),
{
    let all = transfers(bytes, cols, rows, dx, dy, regions);
    let head = transfers(bytes, cols, rows, dx, dy, regions.drop_last());
    let tail = transfer(bytes, cols, rows, dx, dy, regions.last());
    lemma_show_of_fitting(bytes, cols, rows, dx, dy, regions.last());
    assert(all == head + tail);
    if regions.len() == 1 {
        assert(head.len() == 0);
        assert(all.subrange(0, 3) =~= tail);
    } else {
        let j = if k < regions.len() - 1 {
            k
        } else {
            0
        };
        lemma_refresh_of_fitting(bytes, cols, rows, dx, dy, regions.drop_last(), j);
        if k < regions.len() - 1 {
            assert(all.subrange(3 * k, 3 * k + 3) =~= head.subrange(3 * k, 3 * k + 3));
        } else {
            assert(all.subrange(3 * k, 3 * k + 3) =~= tail);
        }
    }
}

/// Restoring a rectangle from a background of the same byte order makes
/// every pixel in it read as the background does.
pub proof fn lemma_restored_pixel(
    front: FrameBuffer,
    background: FrameBuffer,
    region: Region,
    x: int,
    y: int,
)
    requires
        front.wf(),
        front.same_shape(&background),
        front.contains(x, y),
        region.covers(x, y),
        forall|px: int, py: int, k: int|
            front.contains(px, py) && 0 <= k < 2 && region.covers(px, py) ==> #[trigger] front.byte(
                px,
                py,
                k,
            ) == background.byte(px, py, k),
    ensures
        front.pixel(x, y) == background.pixel(x, y),
{
    assert(front.byte(x, y, 0) == background.byte(x, y, 0));
    assert(front.byte(x, y, 1) == background.byte(x, y, 1));
}

} // verus!
