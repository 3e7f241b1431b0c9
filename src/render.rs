use vstd::prelude::*;

verus! {

/// The pixel at linear index `i` of an image `width` pixels wide: column `i % width`, row `i / width`.
pub fn pixel_coords(i: usize, width: usize) -> (r: (usize, usize))
    requires
        width > 0,
    ensures
        r.0 == i % width,
        r.1 == i / width,
        r.1 * width + r.0 == i,
{
    let x = i % width;
    let y = i / width;
    proof {
        vstd::arithmetic::div_mod::lemma_fundamental_div_mod(i as int, width as int);
    }
    (x, y)
}

/// The image with its rows in reverse order: row `r` of the result is row
/// `height - 1 - r` of `buf`. Pixels are stored row after row.
pub fn flip_rows<T: Copy>(buf: &Vec<T>, width: usize, height: usize) -> (out: Vec<T>)
    requires
        buf.len() == width * height,
    ensures
        out.len() == buf.len(),
        forall|r: int, c: int| 0 <= r < height && 0 <= c < width ==> #[trigger] out@[r * width + c] == buf@[(height - 1 - r) * width + c],
{
    let mut out: Vec<T> = Vec::new();
    let mut row: usize = 0;
    while row < height
        invariant
            0 <= row <= height,
            buf.len() == width * height,
            out.len() == row * width,
            forall|r: int, c: int| 0 <= r < row && 0 <= c < width ==> #[trigger] out@[r * width + c] == buf@[(height - 1 - r) * width + c],
        decreases height - row,
    {
        let src_row = height - 1 - row;
        proof {
            vstd::arithmetic::mul::lemma_mul_inequality(src_row as int + 1, height as int, width as int);
            vstd::arithmetic::mul::lemma_mul_is_distributive_add_other_way(width as int, src_row as int, 1);
            vstd::arithmetic::mul::lemma_mul_is_distributive_add_other_way(width as int, row as int, 1);
        }
        let start = src_row * width;
        let mut c: usize = 0;
        while c < width
            invariant
                0 <= c <= width,
                row < height,
                src_row == height - 1 - row,
                start == src_row * width,
                start + width <= buf.len(),
                buf.len() == width * height,
                out.len() == row * width + c,
                forall|r: int, cc: int| 0 <= r < row && 0 <= cc < width ==> #[trigger] out@[r * width + cc] == buf@[(height - 1 - r) * width + cc],
                forall|cc: int| 0 <= cc < c ==> out@[row * width + cc] == #[trigger] buf@[start + cc],
            decreases width - c,
        {
            let ghost before = out@;
            out.push(buf[start + c]);
            proof {
                assert forall|r: int, cc: int| 0 <= r < row && 0 <= cc < width implies #[trigger] out@[r * width + cc] == buf@[(height - 1 - r) * width + cc] by {
                    vstd::arithmetic::mul::lemma_mul_inequality(r + 1, row as int, width as int);
                    vstd::arithmetic::mul::lemma_mul_is_distributive_add_other_way(width as int, r, 1);
                    assert(out@[r * width + cc] == before[r * width + cc]);
                }
            }
            c = c + 1;
        }
        proof {
            assert forall|r: int, cc: int| 0 <= r < row + 1 && 0 <= cc < width implies #[trigger] out@[r * width + cc] == buf@[(height - 1 - r) * width + cc] by {
                if r == row {
                    assert(out@[row * width + cc] == buf@[start + cc]);
                }
            }
        }
        row = row + 1;
    }
    proof {
        vstd::arithmetic::mul::lemma_mul_is_commutative(width as int, height as int);
    }
    out
}

} // verus!
