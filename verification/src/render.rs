//! Pixel-buffer drawing: packed colours, single pixels, filled discs and
//! thick line segments walked with an integer error term.
//!
//! A frame is a `Vec<u32>` of exactly `WIDTH * HEIGHT` packed colours,
//! row-major: the pixel at column `x` and row `y` sits at `y * WIDTH + x`.

use vstd::prelude::*;

verus! {

/// Width of the frame, in pixels.
pub const WIDTH: usize = 1024;

/// Height of the frame, in pixels.
pub const HEIGHT: usize = 768;

/// True when column `x`, row `y` is inside the frame.
pub open spec fn in_frame(x: int, y: int) -> bool {
    0 <= x < WIDTH as int && 0 <= y < HEIGHT as int
}

/// Index of the pixel at column `x`, row `y` in the row-major buffer.
pub open spec fn pixel_index(x: int, y: int) -> int {
    y * (WIDTH as int) + x
}

/// Within the frame, distinct pixel coordinates have distinct buffer indices.
proof fn lemma_pixel_index_injective(x1: int, y1: int, x2: int, y2: int)
    requires
        in_frame(x1, y1),
        in_frame(x2, y2),
        pixel_index(x1, y1) == pixel_index(x2, y2),
    ensures
        x1 == x2 && y1 == y2,
{
}

/// Every in-frame coordinate indexes into a full frame buffer.
proof fn lemma_pixel_index_bounds(x: int, y: int)
    requires
        in_frame(x, y),
    ensures
        0 <= pixel_index(x, y) < WIDTH * HEIGHT,
{
}

/// Pack 8-bit red, green and blue channels into one `0x00RRGGBB` word.
pub fn rgb(r: u8, g: u8, b: u8) -> (color: u32)
    ensures
        color == (r as u32) * 0x1_0000 + (g as u32) * 0x100 + (b as u32),
{
    let color: u32 = ((r as u32) << 16u32) | ((g as u32) << 8u32) | (b as u32);
    proof {
        assert(color == (r as u32) * 0x1_0000 + (g as u32) * 0x100 + (b as u32)) by (bit_vector)
            requires
                color == ((r as u32) << 16u32) | ((g as u32) << 8u32) | (b as u32),
        ;
    }
    color
}

/// Colour the pixel at column `x`, row `y`; coordinates outside the frame
/// are ignored, so callers may pass clipped geometry freely.
pub fn set_pixel(buffer: &mut Vec<u32>, x: i32, y: i32, color: u32)
    requires
        old(buffer).len() == WIDTH * HEIGHT,
    ensures
        final(buffer).len() == old(buffer).len(),
        in_frame(x as int, y as int) ==> final(buffer)@ == old(buffer)@.update(
            pixel_index(x as int, y as int),
            color,
        ),
        !in_frame(x as int, y as int) ==> final(buffer)@ == old(buffer)@,
        forall|i: int, j: int|
            in_frame(i, j) ==> (#[trigger] final(buffer)@[pixel_index(i, j)]) == (if i == x
                as int && j == y as int {
                color
            } else {
                old(buffer)@[pixel_index(i, j)]
            }),
{
    if x >= 0 && x < WIDTH as i32 && y >= 0 && y < HEIGHT as i32 {
        let idx: usize = (y as usize) * WIDTH + (x as usize);
        buffer[idx] = color;
    }
    proof {
        assert forall|i: int, j: int| in_frame(i, j) implies buffer@[pixel_index(i, j)] == (if i
            == x as int && j == y as int {
            color
        } else {
            old(buffer)@[pixel_index(i, j)]
        }) by {
            lemma_pixel_index_bounds(i, j);
            if in_frame(x as int, y as int) && pixel_index(i, j) == pixel_index(
                x as int,
                y as int,
            ) {
                lemma_pixel_index_injective(i, j, x as int, y as int);
            }
        }
    }
}

/// True when column `x`, row `y` lies in the filled disc of radius
/// `radius` around `(cx, cy)`.
pub open spec fn in_disc(cx: int, cy: int, radius: int, x: int, y: int) -> bool {
    (x - cx) * (x - cx) + (y - cy) * (y - cy) <= radius * radius
}

/// A point of the disc lies within `radius` of the centre on each axis.
proof fn lemma_disc_axis_bound(cx: int, cy: int, radius: int, x: int, y: int)
    by (nonlinear_arith)
    requires
        radius >= 0,
        in_disc(cx, cy, radius, x, y),
    ensures
        -radius <= x - cx <= radius,
        -radius <= y - cy <= radius,
{
}

/// Fill the disc of radius `radius` around `(cx, cy)`, clipped to the
/// frame; every pixel outside the disc keeps its colour.
#[verifier::loop_isolation(false)]
pub fn draw_circle(buffer: &mut Vec<u32>, cx: i32, cy: i32, radius: i32, color: u32)
    requires
        old(buffer).len() == WIDTH * HEIGHT,
        0 <= radius <= 0x7fff,
        i32::MIN <= cx - radius,
        cx + radius <= i32::MAX,
        i32::MIN <= cy - radius,
        cy + radius <= i32::MAX,
    ensures
        final(buffer).len() == old(buffer).len(),
        forall|i: int, j: int|
            in_frame(i, j) ==> (#[trigger] final(buffer)@[pixel_index(i, j)]) == (if in_disc(
                cx as int,
                cy as int,
                radius as int,
                i,
                j,
            ) {
                color
            } else {
                old(buffer)@[pixel_index(i, j)]
            }),
{
    proof {
        assert forall|i: int, j: int|
            in_disc(cx as int, cy as int, radius as int, i, j) implies -radius <= i - cx <= radius
            && -radius <= j - cy <= radius by {
            lemma_disc_axis_bound(cx as int, cy as int, radius as int, i, j);
        }
    }
    let mut dy: i32 = -radius;
    while dy <= radius
        invariant
            buffer.len() == WIDTH * HEIGHT,
            -radius <= dy <= radius + 1,
            forall|i: int, j: int|
                in_frame(i, j) ==> buffer@[pixel_index(i, j)] == (if in_disc(
                    cx as int,
                    cy as int,
                    radius as int,
                    i,
                    j,
                ) && j - cy < dy {
                    color
                } else {
                    old(buffer)@[pixel_index(i, j)]
                }),
        decreases radius + 1 - dy,
    {
        let mut dx: i32 = -radius;
        while dx <= radius
            invariant
                buffer.len() == WIDTH * HEIGHT,
                -radius <= dy <= radius,
                -radius <= dx <= radius + 1,
                forall|i: int, j: int|
                    in_frame(i, j) ==> buffer@[pixel_index(i, j)] == (if in_disc(
                        cx as int,
                        cy as int,
                        radius as int,
                        i,
                        j,
                    ) && (j - cy < dy || (j - cy == dy && i - cx < dx)) {
                        color
                    } else {
                        old(buffer)@[pixel_index(i, j)]
                    }),
            decreases radius + 1 - dx,
        {
            proof {
                assert(0 <= dx * dx <= 0x7fff * 0x7fff && 0 <= dy * dy <= 0x7fff * 0x7fff && 0
                    <= radius * radius <= 0x7fff * 0x7fff) by (nonlinear_arith)
                    requires
                        -0x7fff <= dx <= 0x7fff,
                        -0x7fff <= dy <= 0x7fff,
                        0 <= radius <= 0x7fff,
                ;
            }
            if dx * dx + dy * dy <= radius * radius {
                set_pixel(buffer, cx + dx, cy + dy, color);
            }
            dx = dx + 1;
        }
        dy = dy + 1;
    }
    proof {
        assert forall|i: int, j: int| in_frame(i, j) implies buffer@[pixel_index(i, j)] == (
        if in_disc(cx as int, cy as int, radius as int, i, j) {
            color
        } else {
            old(buffer)@[pixel_index(i, j)]
        }) by {
            if in_disc(cx as int, cy as int, radius as int, i, j) {
                lemma_disc_axis_bound(cx as int, cy as int, radius as int, i, j);
            }
        }
    }
}

/// Horizontal span of a line: `|x1 - x0|`.
pub open spec fn line_dx(x0: int, x1: int) -> int {
    if x1 >= x0 {
        x1 - x0
    } else {
        x0 - x1
    }
}

/// Negated vertical span of a line: `-|y1 - y0|`.
pub open spec fn line_dy(y0: int, y1: int) -> int {
    if y1 >= y0 {
        y0 - y1
    } else {
        y1 - y0
    }
}

/// Direction of travel along the x axis.
pub open spec fn line_sx(x0: int, x1: int) -> int {
    if x0 < x1 {
        1
    } else {
        -1
    }
}

/// Direction of travel along the y axis.
pub open spec fn line_sy(y0: int, y1: int) -> int {
    if y0 < y1 {
        1
    } else {
        -1
    }
}

/// The points visited by the error-term line walk, starting at `(x, y)`
/// with error value `err` and heading for `(x1, y1)`. Each step moves one
/// column toward `x1`, one row toward `y1`, or both, as the doubled error
/// term directs; `fuel` bounds the recursion and is never exhausted when
/// the walk starts from its initial state (the walk needs at most one
/// step per remaining column plus one per remaining row).
pub open spec fn walk_points(
    x: int,
    y: int,
    err: int,
    x1: int,
    y1: int,
    dx: int,
    dy: int,
    sx: int,
    sy: int,
    fuel: nat,
) -> Seq<(int, int)>
    decreases fuel,
{
    if (x == x1 && y == y1) || fuel == 0 {
        seq![(x, y)]
    } else {
        let e2 = 2 * err;
        let xn = if e2 >= dy {
            x + sx
        } else {
            x
        };
        let en = if e2 >= dy {
            err + dy
        } else {
            err
        };
        let yn = if e2 <= dx {
            y + sy
        } else {
            y
        };
        let en2 = if e2 <= dx {
            en + dx
        } else {
            en
        };
        seq![(x, y)] + walk_points(xn, yn, en2, x1, y1, dx, dy, sx, sy, (fuel - 1) as nat)
    }
}

/// The points of the line from `(x0, y0)` to `(x1, y1)`, in visiting order.
pub open spec fn line_points(x0: int, y0: int, x1: int, y1: int) -> Seq<(int, int)> {
    let dx = line_dx(x0, x1);
    let dy = line_dy(y0, y1);
    walk_points(
        x0,
        y0,
        dx + dy,
        x1,
        y1,
        dx,
        dy,
        line_sx(x0, x1),
        line_sy(y0, y1),
        (dx - dy) as nat,
    )
}

/// True when `(i, j)` lies in the three-by-three block around `p`: the
/// line is drawn three pixels thick.
pub open spec fn point_covers(p: (int, int), i: int, j: int) -> bool {
    p.0 - 1 <= i <= p.0 + 1 && p.1 - 1 <= j <= p.1 + 1
}

/// True when some visited point's thick block reaches `(i, j)`.
pub open spec fn covers(points: Seq<(int, int)>, i: int, j: int) -> bool {
    exists|m: int| 0 <= m < points.len() && #[trigger] point_covers(points[m], i, j)
}

/// A walk's point sequence is never empty and starts at the walk's start.
proof fn lemma_walk_head(
    x: int,
    y: int,
    err: int,
    x1: int,
    y1: int,
    dx: int,
    dy: int,
    sx: int,
    sy: int,
    fuel: nat,
)
    ensures
        walk_points(x, y, err, x1, y1, dx, dy, sx, sy, fuel).len() >= 1,
        walk_points(x, y, err, x1, y1, dx, dy, sx, sy, fuel)[0] == (x, y),
{
}

/// While the walk is short of its endpoint, the doubled error term sends
/// it toward the endpoint, never past it, and always sends it somewhere:
/// a step along an axis is only directed while that axis is short of its
/// span, and at least one axis is stepped.
proof fn lemma_step_conditions(dx: int, dy: int, u: int, v: int, err: int, e2: int)
    by (nonlinear_arith)
    requires
        dx >= 0,
        dy <= 0,
        0 <= u <= dx,
        0 <= v <= -dy,
        !(u == dx && v == -dy),
        err == dx + dy + u * dy + v * dx,
        e2 == 2 * err,
    ensures
        e2 >= dy ==> u < dx,
        e2 <= dx ==> v < -dy,
        e2 >= dy || e2 <= dx,
{
}

/// The error term stays well inside `i32` range throughout the walk.
proof fn lemma_err_bounds(dx: int, dy: int, u: int, v: int, err: int)
    by (nonlinear_arith)
    requires
        0 <= dx <= 0x4000,
        -0x4000 <= dy <= 0,
        0 <= u <= dx,
        0 <= v <= -dy,
        err == dx + dy + u * dy + v * dx,
    ensures
        -0x2000_8000 <= err <= 0x2000_8000,
{
}

/// From any mid-walk state whose error term and step counts are in their
/// lawful relation, the walk ends exactly on the endpoint.
proof fn lemma_walk_reaches(
    x: int,
    y: int,
    err: int,
    x1: int,
    y1: int,
    dx: int,
    dy: int,
    sx: int,
    sy: int,
    u: int,
    v: int,
    fuel: nat,
)
    requires
        dx >= 0,
        dy <= 0,
        0 <= u <= dx,
        0 <= v <= -dy,
        err == dx + dy + u * dy + v * dx,
        sx == 1 || sx == -1,
        sy == 1 || sy == -1,
        sx == 1 ==> x1 == x + (dx - u),
        sx == -1 ==> x1 == x - (dx - u),
        sy == 1 ==> y1 == y + (-dy - v),
        sy == -1 ==> y1 == y - (-dy - v),
        fuel >= (dx - u) + (-dy - v),
    ensures
        walk_points(x, y, err, x1, y1, dx, dy, sx, sy, fuel).last() == (x1, y1),
    decreases fuel,
{
    if x == x1 && y == y1 {
    } else {
        let e2 = 2 * err;
        lemma_step_conditions(dx, dy, u, v, err, e2);
        let xn = if e2 >= dy {
            x + sx
        } else {
            x
        };
        let en = if e2 >= dy {
            err + dy
        } else {
            err
        };
        let yn = if e2 <= dx {
            y + sy
        } else {
            y
        };
        let en2 = if e2 <= dx {
            en + dx
        } else {
            en
        };
        let un = if e2 >= dy {
            u + 1
        } else {
            u
        };
        let vn = if e2 <= dx {
            v + 1
        } else {
            v
        };
        if e2 >= dy && e2 <= dx {
            assert(en2 == dx + dy + un * dy + vn * dx) by (nonlinear_arith)
                requires
                    en2 == (dx + dy + u * dy + v * dx) + dy + dx,
                    un == u + 1,
                    vn == v + 1,
            ;
        } else if e2 >= dy {
            assert(en2 == dx + dy + un * dy + vn * dx) by (nonlinear_arith)
                requires
                    en2 == (dx + dy + u * dy + v * dx) + dy,
                    un == u + 1,
                    vn == v,
            ;
        } else {
            assert(en2 == dx + dy + un * dy + vn * dx) by (nonlinear_arith)
                requires
                    en2 == (dx + dy + u * dy + v * dx) + dx,
                    un == u,
                    vn == v + 1,
            ;
        }
        lemma_walk_reaches(xn, yn, en2, x1, y1, dx, dy, sx, sy, un, vn, (fuel - 1) as nat);
        lemma_walk_head(xn, yn, en2, x1, y1, dx, dy, sx, sy, (fuel - 1) as nat);
        assert(walk_points(x, y, err, x1, y1, dx, dy, sx, sy, fuel) == seq![(x, y)] + walk_points(
            xn,
            yn,
            en2,
            x1,
            y1,
            dx,
            dy,
            sx,
            sy,
            (fuel - 1) as nat,
        ));
    }
}

/// The line walk visits its two endpoints: its point sequence starts at
/// `(x0, y0)` and ends at `(x1, y1)`, so a drawn line always reaches both.
pub proof fn lemma_line_points_endpoints(x0: int, y0: int, x1: int, y1: int)
    ensures
        line_points(x0, y0, x1, y1).len() >= 1,
        line_points(x0, y0, x1, y1)[0] == (x0, y0),
        line_points(x0, y0, x1, y1).last() == (x1, y1),
{
    let dx = line_dx(x0, x1);
    let dy = line_dy(y0, y1);
    let sx = line_sx(x0, x1);
    let sy = line_sy(y0, y1);
    lemma_walk_head(x0, y0, dx + dy, x1, y1, dx, dy, sx, sy, (dx - dy) as nat);
    lemma_walk_reaches(x0, y0, dx + dy, x1, y1, dx, dy, sx, sy, 0, 0, (dx - dy) as nat);
}

/// Stamping the block around one more visited point extends a partial
/// rendering of the walk by exactly that point's block.
proof fn lemma_paint_extend(
    buf0: Seq<u32>,
    pre: Seq<u32>,
    post: Seq<u32>,
    pts: Seq<(int, int)>,
    k: int,
    p: (int, int),
    color: u32,
)
    requires
        0 <= k < pts.len(),
        pts[k] == p,
        forall|i: int, j: int|
            in_frame(i, j) ==> pre[pixel_index(i, j)] == (if covers(pts.take(k), i, j) {
                color
            } else {
                buf0[pixel_index(i, j)]
            }),
        forall|i: int, j: int|
            in_frame(i, j) ==> post[pixel_index(i, j)] == (if point_covers(p, i, j) {
                color
            } else {
                pre[pixel_index(i, j)]
            }),
    ensures
        forall|i: int, j: int|
            in_frame(i, j) ==> post[pixel_index(i, j)] == (if covers(pts.take(k + 1), i, j) {
                color
            } else {
                buf0[pixel_index(i, j)]
            }),
{
    assert forall|i: int, j: int| in_frame(i, j) implies post[pixel_index(i, j)] == (if covers(
        pts.take(k + 1),
        i,
        j,
    ) {
        color
    } else {
        buf0[pixel_index(i, j)]
    }) by {
        if covers(pts.take(k + 1), i, j) {
            let m = choose|m: int|
                0 <= m < pts.take(k + 1).len() && #[trigger] point_covers(pts.take(k + 1)[m], i, j);
            if m < k {
                assert(point_covers(pts.take(k)[m], i, j));
                assert(covers(pts.take(k), i, j));
            } else {
                assert(point_covers(p, i, j));
            }
        } else {
            assert(!point_covers(pts.take(k + 1)[k], i, j));
            assert(!point_covers(p, i, j));
            assert forall|m: int| 0 <= m < pts.take(k).len() implies !point_covers(
                pts.take(k)[m],
                i,
                j,
            ) by {
                assert(pts.take(k)[m] == pts.take(k + 1)[m]);
                assert(!point_covers(pts.take(k + 1)[m], i, j));
            }
            assert(!covers(pts.take(k), i, j));
        }
    }
}

/// Colour the three-by-three block of pixels around `(x, y)`, clipped to
/// the frame.
fn stamp(buffer: &mut Vec<u32>, x: i32, y: i32, color: u32)
    requires
        old(buffer).len() == WIDTH * HEIGHT,
        -0x7fff_fffe <= x <= 0x7fff_fffe,
        -0x7fff_fffe <= y <= 0x7fff_fffe,
    ensures
        final(buffer).len() == old(buffer).len(),
        forall|i: int, j: int|
            in_frame(i, j) ==> (#[trigger] final(buffer)@[pixel_index(i, j)]) == (if point_covers(
                (x as int, y as int),
                i,
                j,
            ) {
                color
            } else {
                old(buffer)@[pixel_index(i, j)]
            }),
{
    set_pixel(buffer, x - 1, y - 1, color);
    set_pixel(buffer, x, y - 1, color);
    set_pixel(buffer, x + 1, y - 1, color);
    set_pixel(buffer, x - 1, y, color);
    set_pixel(buffer, x, y, color);
    set_pixel(buffer, x + 1, y, color);
    set_pixel(buffer, x - 1, y + 1, color);
    set_pixel(buffer, x, y + 1, color);
    set_pixel(buffer, x + 1, y + 1, color);
}

/// Draw the line from `(x0, y0)` to `(x1, y1)`, three pixels thick and
/// clipped to the frame: exactly the pixels within one column and one row
/// of a visited point of `line_points` are coloured.
#[verifier::loop_isolation(false)]
pub fn draw_line(buffer: &mut Vec<u32>, x0: i32, y0: i32, x1: i32, y1: i32, color: u32)
    requires
        old(buffer).len() == WIDTH * HEIGHT,
        -0x2000 <= x0 <= 0x2000,
        -0x2000 <= y0 <= 0x2000,
        -0x2000 <= x1 <= 0x2000,
        -0x2000 <= y1 <= 0x2000,
    ensures
        final(buffer).len() == old(buffer).len(),
        forall|i: int, j: int|
            in_frame(i, j) ==> (#[trigger] final(buffer)@[pixel_index(i, j)]) == (if covers(
                line_points(x0 as int, y0 as int, x1 as int, y1 as int),
                i,
                j,
            ) {
                color
            } else {
                old(buffer)@[pixel_index(i, j)]
            }),
{
    let dx: i32 = if x1 >= x0 {
        x1 - x0
    } else {
        x0 - x1
    };
    let dy: i32 = if y1 >= y0 {
        y0 - y1
    } else {
        y1 - y0
    };
    let sx: i32 = if x0 < x1 {
        1
    } else {
        -1
    };
    let sy: i32 = if y0 < y1 {
        1
    } else {
        -1
    };
    let mut err: i32 = dx + dy;
    let mut x: i32 = x0;
    let mut y: i32 = y0;

    let ghost pts = line_points(x0 as int, y0 as int, x1 as int, y1 as int);
    let ghost buf0 = buffer@;
    let ghost fuel0: int = dx as int - dy as int;
    let ghost mut k: int = 0;
    let ghost mut u: int = 0;
    let ghost mut v: int = 0;

    proof {
        assert(pts.skip(0) =~= pts);
        lemma_walk_head(
            x0 as int,
            y0 as int,
            err as int,
            x1 as int,
            y1 as int,
            dx as int,
            dy as int,
            sx as int,
            sy as int,
            fuel0 as nat,
        );
    }

    while !(x == x1 && y == y1)
        invariant
            buffer.len() == WIDTH * HEIGHT,
            0 <= k < pts.len(),
            0 <= u <= dx as int,
            0 <= v <= -(dy as int),
            x0 < x1 ==> x as int == x0 as int + u,
            x0 >= x1 ==> x as int == x0 as int - u,
            y0 < y1 ==> y as int == y0 as int + v,
            y0 >= y1 ==> y as int == y0 as int - v,
            err as int == dx as int + dy as int + u * (dy as int) + v * (dx as int),
            (dx as int - u) + (-(dy as int) - v) <= fuel0 - k,
            pts[k] == (x as int, y as int),
            pts.skip(k) == walk_points(
                x as int,
                y as int,
                err as int,
                x1 as int,
                y1 as int,
                dx as int,
                dy as int,
                sx as int,
                sy as int,
                (fuel0 - k) as nat,
            ),
            forall|i: int, j: int|
                in_frame(i, j) ==> buffer@[pixel_index(i, j)] == (if covers(pts.take(k), i, j) {
                    color
                } else {
                    buf0[pixel_index(i, j)]
                }),
        decreases pts.len() - k,
    {
        let ghost pre = buffer@;
        stamp(buffer, x, y, color);
        proof {
            lemma_paint_extend(buf0, pre, buffer@, pts, k, (x as int, y as int), color);
        }
        proof {
            lemma_err_bounds(dx as int, dy as int, u, v, err as int);
        }
        let e2: i32 = 2 * err;
        proof {
            lemma_step_conditions(dx as int, dy as int, u, v, err as int, e2 as int);
        }
        let ghost xp = x as int;
        let ghost yp = y as int;
        let ghost errp = err as int;
        if e2 >= dy {
            err = err + dy;
            x = x + sx;
            proof {
                u = u + 1;
                assert(err as int == dx as int + dy as int + u * (dy as int) + v * (dx as int))
                    by (nonlinear_arith)
                    requires
                        err as int == (dx as int + dy as int + (u - 1) * (dy as int) + v * (dx
                            as int)) + dy as int,
                ;
            }
        }
        if e2 <= dx {
            err = err + dx;
            y = y + sy;
            proof {
                v = v + 1;
                assert(err as int == dx as int + dy as int + u * (dy as int) + v * (dx as int))
                    by (nonlinear_arith)
                    requires
                        err as int == (dx as int + dy as int + u * (dy as int) + (v - 1) * (dx
                            as int)) + dx as int,
                ;
            }
        }
        proof {
            let fl = (fuel0 - k) as nat;
            assert(fl >= 1);
            assert(walk_points(
                xp,
                yp,
                errp,
                x1 as int,
                y1 as int,
                dx as int,
                dy as int,
                sx as int,
                sy as int,
                fl,
            ) == seq![(xp, yp)] + walk_points(
                x as int,
                y as int,
                err as int,
                x1 as int,
                y1 as int,
                dx as int,
                dy as int,
                sx as int,
                sy as int,
                (fl - 1) as nat,
            ));
            assert(pts.len() - k == 1 + walk_points(
                x as int,
                y as int,
                err as int,
                x1 as int,
                y1 as int,
                dx as int,
                dy as int,
                sx as int,
                sy as int,
                (fl - 1) as nat,
            ).len());
            assert(pts.skip(k + 1) =~= walk_points(
                x as int,
                y as int,
                err as int,
                x1 as int,
                y1 as int,
                dx as int,
                dy as int,
                sx as int,
                sy as int,
                (fuel0 - (k + 1)) as nat,
            )) by {
                let rest = walk_points(
                    x as int,
                    y as int,
                    err as int,
                    x1 as int,
                    y1 as int,
                    dx as int,
                    dy as int,
                    sx as int,
                    sy as int,
                    (fuel0 - (k + 1)) as nat,
                );
                assert forall|n: int| 0 <= n < pts.len() - k - 1 implies pts.skip(k + 1)[n]
                    == rest[n] by {
                    assert(pts.skip(k + 1)[n] == pts[k + 1 + n]);
                    assert(pts.skip(k)[n + 1] == pts[k + 1 + n]);
                    assert((seq![(xp, yp)] + rest)[n + 1] == rest[n]);
                }
            }
            k = k + 1;
            lemma_walk_head(
                x as int,
                y as int,
                err as int,
                x1 as int,
                y1 as int,
                dx as int,
                dy as int,
                sx as int,
                sy as int,
                (fuel0 - k) as nat,
            );
            assert(pts[k] == pts.skip(k)[0]);
        }
    }
    let ghost pre = buffer@;
    stamp(buffer, x, y, color);
    proof {
        lemma_paint_extend(buf0, pre, buffer@, pts, k, (x as int, y as int), color);
        assert(pts.skip(k).len() == 1);
        assert(pts.take(k + 1) =~= pts);
    }
}

} // verus!
