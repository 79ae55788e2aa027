//! Which point each pixel of a rendered image is shaded at.
use vstd::prelude::*;

verus! {

/// For each pixel `x` of row `y` (counted from the top) of an image `height`
/// rows high, the point the shader is asked for: the same column and the
/// row counted from the bottom.
pub fn row_points(width: u32, y: u32, height: u32) -> (points: Vec<(u32, u32)>)
    requires
        y < height,
    ensures
        points.len() == width,
        forall|x: int| 0 <= x < width ==> #[trigger] points@[x] == (x as u32, (height - y) as u32),
{
    let mut points: Vec<(u32, u32)> = Vec::new();
    for x in 0..width
        invariant
            y < height,
            points.len() == x,
            forall|k: int| 0 <= k < x ==> #[trigger] points@[k] == (k as u32, (height - y) as u32),
    {
        points.push((x, height - y));
    }
    points
}

} // verus!
