//! The tray icon: a 32 by 32 owl, as RGBA bytes row by row.
use vstd::prelude::*;

verus! {

pub const ICON_SIDE: u32 = 32;

pub open spec fn in_body(x: int, y: int) -> bool {
    (x - 16) * (x - 16) + (y - 16) * (y - 16) < 13 * 13
}

pub open spec fn in_eye(x: int, y: int) -> bool {
    ||| (x - 11) * (x - 11) + (y - 13) * (y - 13) < 10
    ||| (x - 21) * (x - 21) + (y - 13) * (y - 13) < 10
}

pub open spec fn in_beak(x: int, y: int) -> bool {
    ||| x == 16 && 16 <= y < 23
    ||| y == 20 && 13 <= x < 20
}

/// The colour of the pixel at column `x`, row `y`: the beak is drawn over the eyes,
/// the eyes over the body, and the rest is transparent.
pub open spec fn owl_pixel(x: int, y: int) -> Seq<u8> {
    if in_beak(x, y) {
        seq![235u8, 170, 55, 255]
    } else if in_eye(x, y) {
        seq![235u8, 240, 245, 255]
    } else if in_body(x, y) {
        seq![50u8, 70, 95, 255]
    } else {
        seq![0u8, 0, 0, 0]
    }
}

/// The four bytes of the pixel at column `x`, row `y`.
pub open spec fn pixel_at(rgba: Seq<u8>, x: int, y: int) -> Seq<u8> {
    rgba.subrange((y * 32 + x) * 4, (y * 32 + x) * 4 + 4)
}

fn square(d: i32) -> (s: i32)
    requires
        -32 <= d <= 32,
    ensures
        s == d * d,
        0 <= s <= 1024,
{
    proof {
        assert(0 <= d * d <= 1024) by (nonlinear_arith)
            requires
                -32 <= d <= 32,
        ;
    }
    d * d
}

fn pixel(x: u32, y: u32) -> (c: [u8; 4])
    requires
        x < 32,
        y < 32,
    ensures
        c@ == owl_pixel(x as int, y as int),
{
    let xi = x as i32;
    let yi = y as i32;
    let body = square(xi - 16) + square(yi - 16) < 13 * 13;
    let eye = square(xi - 11) + square(yi - 13) < 10 || square(xi - 21) + square(yi - 13) < 10;
    let beak = (x == 16 && 16 <= y && y < 23) || (y == 20 && 13 <= x && x < 20);
    let c: [u8; 4] = if beak {
        [235, 170, 55, 255]
    } else if eye {
        [235, 240, 245, 255]
    } else if body {
        [50, 70, 95, 255]
    } else {
        [0, 0, 0, 0]
    };
    assert(c@ =~= owl_pixel(x as int, y as int));
    c
}

/// The RGBA bytes of the tray icon.
pub fn owl_icon_rgba() -> (rgba: Vec<u8>)
    ensures
        rgba@.len() == 32 * 32 * 4,
        forall|x: int, y: int|
            0 <= x < 32 && 0 <= y < 32 ==> #[trigger] pixel_at(rgba@, x, y) == owl_pixel(x, y),
{
    let mut rgba: Vec<u8> = Vec::new();
    let mut y: u32 = 0;
    while y < 32
        invariant
            y <= 32,
            rgba@.len() == y * 32 * 4,
            forall|xx: int, yy: int|
                0 <= xx < 32 && 0 <= yy < y ==> #[trigger] pixel_at(rgba@, xx, yy) == owl_pixel(xx, yy),
        decreases 32 - y,
    {
        let mut x: u32 = 0;
        while x < 32
            invariant
                y < 32,
                x <= 32,
                rgba@.len() == (y * 32 + x) * 4,
                forall|xx: int, yy: int|
                    0 <= xx < 32 && 0 <= yy < y ==> #[trigger] pixel_at(rgba@, xx, yy) == owl_pixel(
                        xx,
                        yy,
                    ),
                forall|xx: int|
                    0 <= xx < x ==> #[trigger] pixel_at(rgba@, xx, y as int) == owl_pixel(xx, y as int),
            decreases 32 - x,
        {
            let c = pixel(x, y);
            let ghost prev = rgba@;
            rgba.push(c[0]);
            rgba.push(c[1]);
            rgba.push(c[2]);
            rgba.push(c[3]);
            proof {
                assert(rgba@.subrange(0, prev.len() as int) =~= prev);
                assert forall|xx: int, yy: int|
                    0 <= xx < 32 && 0 <= yy < y implies #[trigger] pixel_at(rgba@, xx, yy) == owl_pixel(
                        xx,
                        yy,
                    ) by {
                    assert(pixel_at(rgba@, xx, yy) =~= pixel_at(prev, xx, yy));
                }
                assert forall|xx: int| 0 <= xx < x + 1 implies #[trigger] pixel_at(rgba@, xx, y as int)
                    == owl_pixel(xx, y as int) by {
                    if xx < x {
                        assert(pixel_at(rgba@, xx, y as int) =~= pixel_at(prev, xx, y as int));
                    } else {
                        assert(pixel_at(rgba@, xx, y as int) =~= c@);
                    }
                }
            }
            x = x + 1;
        }
        y = y + 1;
    }
    rgba
}

} // verus!
