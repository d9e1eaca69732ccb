//! Flat row-major addressing for 3D cubes stored as one linear buffer.
//!
//! The accessors are bounds-checked against the buffer length and report
//! absence or failure instead of reading or writing out of range; an index
//! whose mathematical value does not even fit the address space is out of
//! range for every buffer.

use vstd::prelude::*;

verus! {

broadcast use vstd::std_specs::vec::axiom_spec_len;

/// The flat index of cell (x, y, z) in a cube of the given width and height:
/// `x + y*width + z*width*height`. The x axis varies fastest.
pub open spec fn spec_3d_index(x: int, y: int, z: int, width: int, height: int) -> int {
    x + y * width + z * width * height
}

/// Computes the flat index of cell (x, y, z). The two preconditions are
/// machine limits: the index itself and the intermediate product `z * width`
/// must fit a `usize`.
pub fn get_3d_index(x: usize, y: usize, z: usize, width: usize, height: usize) -> (i: usize)
    requires
        z * width <= usize::MAX,
        spec_3d_index(x as int, y as int, z as int, width as int, height as int) <= usize::MAX,
    ensures
        i as int == spec_3d_index(x as int, y as int, z as int, width as int, height as int),
{
    x + y * width + z * width * height
}

/// Reads the cell at (x, y, z), returning `None` whenever the flat index
/// falls outside the buffer, including when it does not fit a `usize` at all.
pub fn get_3d_value<T: Copy>(
    vec: &[T],
    x: usize,
    y: usize,
    z: usize,
    width: usize,
    height: usize,
) -> (r: Option<T>)
    ensures
        ({
            let i = spec_3d_index(x as int, y as int, z as int, width as int, height as int);
            r == if i < vec@.len() {
                Some(vec@[i])
            } else {
                None::<T>
            }
        }),
{
    proof {
        vstd::slice::axiom_spec_len::<T>(vec);
        vstd::arithmetic::mul::lemma_mul_nonnegative(y as int, width as int);
        vstd::arithmetic::mul::lemma_mul_nonnegative(z as int, width as int);
        vstd::arithmetic::mul::lemma_mul_nonnegative((z as int) * (width as int), height as int);
    }
    let yw = match y.checked_mul(width) {
        Some(v) => v,
        None => {
            return None;
        },
    };
    let zwh: usize = if height == 0 {
        0
    } else {
        let zw = match z.checked_mul(width) {
            Some(v) => v,
            None => {
                proof {
                    assert((z * width) * height >= z * width) by (nonlinear_arith)
                        requires
                            z * width >= 0,
                            height >= 1,
                    ;
                }
                return None;
            },
        };
        match zw.checked_mul(height) {
            Some(v) => v,
            None => {
                return None;
            },
        }
    };
    let xyw = match x.checked_add(yw) {
        Some(v) => v,
        None => {
            return None;
        },
    };
    let index = match xyw.checked_add(zwh) {
        Some(v) => v,
        None => {
            return None;
        },
    };
    if index < vec.len() {
        Some(vec[index])
    } else {
        None
    }
}

/// Writes `value` to the cell at (x, y, z). Returns `Ok` and updates exactly
/// that cell when the flat index is inside the buffer; otherwise leaves the
/// buffer unchanged and reports the failure.
pub fn insert_3d_value<T: Copy>(
    vec: &mut Vec<T>,
    x: usize,
    y: usize,
    z: usize,
    width: usize,
    height: usize,
    value: T,
) -> (r: Result<(), &'static str>)
    ensures
        ({
            let i = spec_3d_index(x as int, y as int, z as int, width as int, height as int);
            if i < old(vec)@.len() {
                r is Ok && final(vec)@ == old(vec)@.update(i, value)
            } else {
                r is Err && final(vec)@ == old(vec)@
            }
        }),
{
    proof {
        vstd::std_specs::vec::axiom_spec_len(old(vec));
        vstd::arithmetic::mul::lemma_mul_nonnegative(y as int, width as int);
        vstd::arithmetic::mul::lemma_mul_nonnegative(z as int, width as int);
        vstd::arithmetic::mul::lemma_mul_nonnegative((z as int) * (width as int), height as int);
    }
    let yw = match y.checked_mul(width) {
        Some(v) => v,
        None => {
            return Err("Index out of bounds");
        },
    };
    let zwh: usize = if height == 0 {
        0
    } else {
        let zw = match z.checked_mul(width) {
            Some(v) => v,
            None => {
                proof {
                    assert((z * width) * height >= z * width) by (nonlinear_arith)
                        requires
                            z * width >= 0,
                            height >= 1,
                    ;
                }
                return Err("Index out of bounds");
            },
        };
        match zw.checked_mul(height) {
            Some(v) => v,
            None => {
                return Err("Index out of bounds");
            },
        }
    };
    let xyw = match x.checked_add(yw) {
        Some(v) => v,
        None => {
            return Err("Index out of bounds");
        },
    };
    let index = match xyw.checked_add(zwh) {
        Some(v) => v,
        None => {
            return Err("Index out of bounds");
        },
    };
    if index < vec.len() {
        vec.set(index, value);
        Ok(())
    } else {
        Err("Index out of bounds")
    }
}

} // verus!
