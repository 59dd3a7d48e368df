//! The frame that the renderer draws into: its size and how pixels are laid out in
//! the depth buffer and in the RGB image.
use vstd::prelude::*;

verus! {

/// Width of the frame, in pixels.
pub const WIDTH: u32 = 640 * 2;

/// Height of the frame, in pixels.
pub const HEIGHT: u32 = 480 * 2;

/// Pixel `(i, j)` lies in the frame.
pub open spec fn in_frame(i: int, j: int) -> bool {
    0 <= i < WIDTH && 0 <= j < HEIGHT
}

/// The slot of pixel `(i, j)`: rows of `WIDTH` pixels, one after the other.
pub open spec fn slot(i: int, j: int) -> int {
    j * WIDTH + i
}

/// The depth-buffer slot of pixel `(i, j)` (its colour takes the three bytes from
/// `3 * slot` in the image), or `None` when the pixel lies outside the frame.
pub fn pixel_index(i: i32, j: i32) -> (r: Option<usize>)
    ensures
        r == (if in_frame(i as int, j as int) {
            Some(slot(i as int, j as int) as usize)
        } else {
            None
        }),
{
    if i < 0 || i >= WIDTH as i32 {
        return None;
    }
    if j < 0 || j >= HEIGHT as i32 {
        return None;
    }
    Some((j * WIDTH as i32 + i) as usize)
}

/// Paints every pixel of the RGB image black: bytes `0 .. 3 * WIDTH * HEIGHT` become
/// zero, the bytes after them are kept.
pub fn clear_image(image: &mut Vec<u8>)
    requires
        old(image)@.len() >= 3 * WIDTH * HEIGHT,
    ensures
        final(image)@.len() == old(image)@.len(),
        forall|k: int| 0 <= k < 3 * WIDTH * HEIGHT ==> #[trigger] final(image)@[k] == 0,
        forall|k: int| 3 * WIDTH * HEIGHT <= k < old(image)@.len() ==> #[trigger] final(image)@[k] == old(image)@[k],
{
    let n: usize = (WIDTH * HEIGHT) as usize;
    assert(WIDTH == 1280);
    assert(HEIGHT == 960);
    assert(WIDTH * HEIGHT == 1228800);
    assert(n == 1228800);
    assert(3 * WIDTH * HEIGHT == 3 * n);
    let mut i: usize = 0;
    while i < n
        invariant
            n == 1228800,
            3 * WIDTH * HEIGHT == 3 * n,
            i <= n,
            image@.len() == old(image)@.len(),
            image@.len() >= 3 * n,
            forall|k: int| 0 <= k < 3 * i ==> #[trigger] image@[k] == 0,
            forall|k: int| 3 * i <= k < old(image)@.len() ==> #[trigger] image@[k] == old(image)@[k],
        decreases n - i,
    {
        assert(3 * i + 2 < image.len());
        image.set(3 * i + 0, 0);
        image.set(3 * i + 1, 0);
        image.set(3 * i + 2, 0);
        i += 1;
    }
}

/// Writes the colour `(r, g, b)` into the three bytes of depth slot `slot`.
pub fn put_color(image: &mut Vec<u8>, slot: usize, r: u8, g: u8, b: u8)
    requires
        3 * slot + 2 < old(image)@.len(),
    ensures
        final(image)@ == old(image)@.update(3 * slot as int, r).update(3 * slot + 1, g).update(
            3 * slot + 2,
            b,
        ),
{
    assert(3 * slot + 2 < image.len());
    image.set(3 * slot + 0, r);
    image.set(3 * slot + 1, g);
    image.set(3 * slot + 2, b);
}

/// Every pixel of the frame has its own depth slot, inside the depth buffer of
/// `WIDTH * HEIGHT` entries, and its three colour bytes lie inside the image of
/// `4 * WIDTH * HEIGHT` bytes.
pub proof fn lemma_slots_fit_and_differ(i1: int, j1: int, i2: int, j2: int)
    requires
        in_frame(i1, j1),
        in_frame(i2, j2),
    ensures
        0 <= slot(i1, j1) < WIDTH * HEIGHT,
        3 * slot(i1, j1) + 2 < 4 * WIDTH * HEIGHT,
        slot(i1, j1) == slot(i2, j2) ==> i1 == i2 && j1 == j2,
{
    assert(0 <= slot(i1, j1) < WIDTH * HEIGHT) by (nonlinear_arith)
        requires
            0 <= i1 < WIDTH,
            0 <= j1 < HEIGHT,
            WIDTH == 1280,
            HEIGHT == 960,
    ;
    assert(slot(i1, j1) == slot(i2, j2) ==> i1 == i2 && j1 == j2) by (nonlinear_arith)
        requires
            0 <= i1 < WIDTH,
            0 <= j1 < HEIGHT,
            0 <= i2 < WIDTH,
            0 <= j2 < HEIGHT,
            WIDTH == 1280,
    ;
}

} // verus!
