//! Grayscale pictures of a Life grid: one pixel per square of cells, black
//! where the square holds an alive cell.

use vstd::prelude::*;

use crate::life::Life;
use crate::node::two_pow;
use crate::{BoundingBox, Position};

verus! {

/// The quotient of `d` by `z`, rounded up.
pub open spec fn ceil_quotient(d: int, z: int) -> int {
    if d % z == 0 {
        d / z
    } else {
        d / z + 1
    }
}

/// The pixel for the square of side `z` at `(x0, y0)`: 0 where it holds an
/// alive cell, 255 where it does not.
pub open spec fn pixel_of(life: Life, x0: int, y0: int, z: int) -> u8 {
    if exists|x: int, y: int| x0 <= x <= x0 + z - 1 && y0 <= y <= y0 + z - 1 && #[trigger] life.alive(x, y) {
        0
    } else {
        255
    }
}

/// What a picture of a box needs to fit in an `i64`: the box's extent, and
/// the squares that cover it.
pub open spec fn picture_fits(bounding_box: BoundingBox, zoom: u8) -> bool {
    let z = two_pow(zoom as nat);
    let ul = bounding_box.spec_upper_left();
    let lr = bounding_box.spec_lower_right();
    &&& zoom <= 62
    &&& lr.x - ul.x <= i64::MAX
    &&& lr.y - ul.y <= i64::MAX
    &&& ceil_quotient(lr.x - ul.x, z) * z - 1 <= i64::MAX
    &&& ceil_quotient(lr.y - ul.y, z) * z - 1 <= i64::MAX
    &&& ul.x + ceil_quotient(lr.x - ul.x, z) * z - 1 <= i64::MAX
    &&& ul.y + ceil_quotient(lr.y - ul.y, z) * z - 1 <= i64::MAX
}

/// The rounded-up quotient of a number that fits by a power of two fits.
proof fn lemma_quotient_room(d: int, z: int)
    requires
        0 <= d <= i64::MAX,
        z >= 1,
    ensures
        d / z <= d,
        d % z != 0 ==> d / z + 1 <= i64::MAX,
        0 <= d / z,
{
    assert(d / z <= d && 0 <= d / z) by (nonlinear_arith)
        requires
            0 <= d,
            z >= 1,
    ;
    if d % z != 0 {
        assert(z >= 2);
        assert(d / z <= d / 2) by (nonlinear_arith)
            requires
                0 <= d,
                z >= 2,
        ;
    }
}

impl Life {
    /// The rows of a picture of the box at `2^zoom` cells a pixel: as many
    /// columns as the box's width over the pixel side, rounded up, and as
    /// many rows as its height over it; each pixel 0 where its square,
    /// counted from the upper left corner, holds an alive cell, else 255.
    pub fn picture(&self, bounding_box: BoundingBox, zoom: u8) -> (rows: Vec<Vec<u8>>)
        requires
            self.wf(),
            bounding_box.wf(),
            picture_fits(bounding_box, zoom),
        ensures
            ({
                let z = two_pow(zoom as nat);
                let ul = bounding_box.spec_upper_left();
                let lr = bounding_box.spec_lower_right();
                let width = ceil_quotient(lr.x - ul.x, z);
                let height = ceil_quotient(lr.y - ul.y, z);
                &&& rows@.len() == height
                &&& forall|y: int| 0 <= y < height ==> #[trigger] rows@[y]@.len() == width
                &&& forall|y: int, x: int|
                    0 <= y < height && 0 <= x < width ==> #[trigger] rows@[y]@[x] == pixel_of(
                        *self,
                        ul.x + x * z,
                        ul.y + y * z,
                        z,
                    )
            }),
    {
        proof {
            crate::node::lemma_two_pow_u64(zoom as nat);
            crate::node::cells::lemma_two_pow_62();
            crate::node::lemma_two_pow_monotonic(zoom as nat, 62);
            crate::node::lemma_two_pow_pos(zoom as nat);
        }
        let zoom_factor: i64 = (1u64 << zoom as u64) as i64;
        let ghost z = two_pow(zoom as nat);
        let ul = bounding_box.upper_left();
        let lr = bounding_box.lower_right();
        let dx = lr.x - ul.x;
        let dy = lr.y - ul.y;
        proof {
            lemma_quotient_room(dx as int, z);
            lemma_quotient_room(dy as int, z);
        }
        let width = if dx % zoom_factor == 0 {
            dx / zoom_factor
        } else {
            dx / zoom_factor + 1
        };
        let height = if dy % zoom_factor == 0 {
            dy / zoom_factor
        } else {
            dy / zoom_factor + 1
        };
        assert(width == ceil_quotient(lr.x - ul.x, z));
        assert(height == ceil_quotient(lr.y - ul.y, z));
        let mut rows: Vec<Vec<u8>> = Vec::new();
        let mut img_y: i64 = 0;
        while img_y < height
            invariant
                self.wf(),
                zoom_factor == z,
                1 <= z,
                0 <= img_y <= height,
                0 <= width,
                rows@.len() == img_y,
                z == two_pow(zoom as nat),
                ul == bounding_box.spec_upper_left(),
                lr == bounding_box.spec_lower_right(),
                width == ceil_quotient(lr.x - ul.x, z),
                height == ceil_quotient(lr.y - ul.y, z),
                width * z - 1 <= i64::MAX,
                height * z - 1 <= i64::MAX,
                ul.x + width * z - 1 <= i64::MAX,
                ul.y + height * z - 1 <= i64::MAX,
                i64::MIN <= ul.x,
                i64::MIN <= ul.y,
                forall|y: int| 0 <= y < img_y ==> #[trigger] rows@[y]@.len() == width,
                forall|y: int, x: int|
                    0 <= y < img_y && 0 <= x < width ==> #[trigger] rows@[y]@[x] == pixel_of(
                        *self,
                        ul.x + x * z,
                        ul.y + y * z,
                        z,
                    ),
            decreases height - img_y,
        {
            let mut row: Vec<u8> = Vec::new();
            let mut img_x: i64 = 0;
            proof {
                assert(img_y * z + z <= height * z) by (nonlinear_arith)
                    requires
                        img_y < height,
                        z >= 1,
                ;
                assert(0 <= img_y * z) by (nonlinear_arith)
                    requires
                        img_y >= 0,
                        z >= 1,
                ;
            }
            let top = ul.y + img_y * zoom_factor;
            while img_x < width
                invariant
                    self.wf(),
                    zoom_factor == z,
                    1 <= z,
                    0 <= img_x <= width,
                    row@.len() == img_x,
                    top == ul.y + img_y * z,
                    top + z - 1 <= i64::MAX,
                    width * z - 1 <= i64::MAX,
                    ul.x + width * z - 1 <= i64::MAX,
                    i64::MIN <= ul.x,
                    forall|x: int| 0 <= x < img_x ==> #[trigger] row@[x] == pixel_of(*self, ul.x + x * z, top as int, z),
                decreases width - img_x,
            {
                proof {
                    assert(img_x * z + z <= width * z) by (nonlinear_arith)
                        requires
                            img_x < width,
                            z >= 1,
                    ;
                    assert(0 <= img_x * z) by (nonlinear_arith)
                        requires
                            img_x >= 0,
                            z >= 1,
                    ;
                }
                let left = ul.x + img_x * zoom_factor;
                let square = BoundingBox::new(
                    Position::new(left, top),
                    Position::new(left + (zoom_factor - 1), top + (zoom_factor - 1)),
                );
                if self.contains_alive_cells(square) {
                    row.push(0);
                } else {
                    row.push(255);
                }
                img_x = img_x + 1;
            }
            rows.push(row);
            img_y = img_y + 1;
        }
        rows
    }
}

} // verus!
