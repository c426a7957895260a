use vstd::prelude::*;

verus! {

/// A table of `height` rows of `width` entries, all equal to `fill`.
pub fn filled<T: Copy>(width: usize, height: usize, fill: T) -> (t: Vec<Vec<T>>)
    ensures
        t@.len() == height,
        forall|y: int| 0 <= y < height ==> (#[trigger] t@[y])@.len() == width,
        forall|y: int, x: int| 0 <= y < height && 0 <= x < width ==> (#[trigger] t@[y]@[x]) == fill,
{
    let mut t: Vec<Vec<T>> = Vec::new();
    let mut y: usize = 0;
    while y < height
        invariant
            y <= height,
            t@.len() == y,
            forall|j: int| 0 <= j < y ==> (#[trigger] t@[j])@.len() == width,
            forall|j: int, x: int| 0 <= j < y && 0 <= x < width ==> (#[trigger] t@[j]@[x]) == fill,
        decreases height - y,
    {
        let mut row: Vec<T> = Vec::new();
        let mut x: usize = 0;
        while x < width
            invariant
                x <= width,
                row@.len() == x,
                forall|i: int| 0 <= i < x ==> (#[trigger] row@[i]) == fill,
            decreases width - x,
        {
            row.push(fill);
            x += 1;
        }
        t.push(row);
        y += 1;
    }
    t
}

} // verus!
