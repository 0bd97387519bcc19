//! Grid sizing: the cell sizes that divide an image dimension, stepping
//! between them, and the shape of a grid.

use vstd::prelude::*;
use crate::text::{chars_eq, chars_of, string_from};

verus! {

/// A cell size the grid accepts for a dimension: at least 8 and a divisor.
pub open spec fn is_valid_size(s: int, dim: int) -> bool {
    8 <= s <= dim && dim % s == 0
}

/// Strictly increasing.
pub open spec fn strictly_increasing(v: Seq<u32>) -> bool {
    forall|i: int, j: int| 0 <= i < j < v.len() ==> v[i] < v[j]
}

/// The last of the first `n` sizes that is below `current`.
pub open spec fn last_below(valid: Seq<u32>, current: u32, n: int) -> Option<u32>
    decreases n,
{
    if n <= 0 || n > valid.len() {
        None
    } else if valid[n - 1] < current {
        Some(valid[n - 1])
    } else {
        last_below(valid, current, n - 1)
    }
}

/// The first size from index `i` on that is above `current`.
pub open spec fn first_above(valid: Seq<u32>, current: u32, i: int) -> Option<u32>
    decreases valid.len() - i,
{
    if i < 0 || i >= valid.len() {
        None
    } else if valid[i] > current {
        Some(valid[i])
    } else {
        first_above(valid, current, i + 1)
    }
}

/// The largest `d` with `8 <= d <= top` that divides `dim`.
pub open spec fn divisor_at_or_below(dim: u32, top: int) -> Option<u32>
    decreases top,
{
    if top < 8 {
        None
    } else if dim % (top as u32) == 0 {
        Some(top as u32)
    } else {
        divisor_at_or_below(dim, top - 1)
    }
}

/// The smallest `d` with `from <= d <= dim`, `d >= 8`, that divides `dim`.
pub open spec fn divisor_at_or_above(dim: u32, from: int) -> Option<u32>
    decreases dim + 1 - from,
{
    if from > dim {
        None
    } else if from >= 8 && dim % (from as u32) == 0 {
        Some(from as u32)
    } else {
        divisor_at_or_above(dim, from + 1)
    }
}

/// The value of an option, or a default.
pub open spec fn or_default(o: Option<u32>, d: u32) -> u32 {
    match o {
        Some(x) => x,
        None => d,
    }
}

/// The size one step down from `current`.
pub open spec fn prev_spec(valid: Seq<u32>, current: u32, dim: u32) -> u32 {
    if valid.len() == 0 {
        or_default(divisor_at_or_below(dim, current - 1), current)
    } else {
        or_default(last_below(valid, current, valid.len() as int), current)
    }
}

/// The size one step up from `current`.
pub open spec fn next_spec(valid: Seq<u32>, current: u32, dim: u32) -> u32 {
    if valid.len() == 0 {
        or_default(divisor_at_or_above(dim, current + 1), current)
    } else {
        or_default(first_above(valid, current, 0), current)
    }
}

/// All divisors of `dim` that are >= 8, in increasing order.
pub fn valid_cell_sizes(dim: u32) -> (v: Vec<u32>)
    ensures
        is_size_list(v@, dim),
        v@ == size_list_of(dim),
{
    let mut v: Vec<u32> = Vec::new();
    let mut s: u64 = 8;
    while s <= dim as u64
        invariant
            8 <= s <= dim as u64 + 1 || (s == 8 && dim < 8),
            strictly_increasing(v@),
            forall|i: int| 0 <= i < v@.len() ==> is_valid_size(#[trigger] v@[i] as int, dim as int),
            forall|i: int| 0 <= i < v@.len() ==> (#[trigger] v@[i]) < s,
            forall|x: u32| is_valid_size(x as int, dim as int) && x < s ==> #[trigger] v@.contains(x),
        decreases dim as u64 + 1 - s,
    {
        let d = s as u32;
        if dim % d == 0 {
            let ghost before = v@;
            v.push(d);
            assert forall|x: u32| is_valid_size(x as int, dim as int) && x < s + 1 implies #[trigger] v@.contains(
                x,
            ) by {
                if x < s {
                    assert(before.contains(x));
                    let k = choose|k: int| 0 <= k < before.len() && before[k] == x;
                    assert(v@[k] == x);
                } else {
                    assert(v@[v@.len() - 1] == x);
                }
            }
        } else {
            assert forall|x: u32| is_valid_size(x as int, dim as int) && x < s + 1 implies #[trigger] v@.contains(
                x,
            ) by {
                if x == s {
                    assert(dim % d != 0);
                }
            }
        }
        s += 1;
    }
    proof {
        lemma_size_list_of(v@, dim);
    }
    v
}

/// The size one step down from `current`: the last listed size below it, or
/// with no list the largest divisor of `dim` (>= 8) below it; `current`
/// when there is none.
pub fn prev_valid_size(valid: &[u32], current: u32, dim: u32) -> (r: u32)
    ensures
        r == prev_spec(valid@, current, dim),
{
    if valid.len() == 0 {
        if current < 9 {
            return current;
        }
        let mut d = current - 1;
        while d >= 8
            invariant
                valid@.len() == 0,
                d < current,
                divisor_at_or_below(dim, current - 1) == divisor_at_or_below(dim, d as int),
            decreases d,
        {
            if dim % d == 0 {
                return d;
            }
            d -= 1;
        }
        return current;
    }
    let mut n = valid.len();
    while n > 0
        invariant
            n <= valid.len(),
            last_below(valid@, current, valid@.len() as int) == last_below(valid@, current, n as int),
        decreases n,
    {
        if valid[n - 1] < current {
            return valid[n - 1];
        }
        n -= 1;
    }
    current
}

/// The size one step up from `current`: the first listed size above it, or
/// with no list the smallest divisor of `dim` (>= 8) above it; `current`
/// when there is none.
pub fn next_valid_size(valid: &[u32], current: u32, dim: u32) -> (r: u32)
    requires
        valid@.len() > 0 || current < u32::MAX,
    ensures
        r == next_spec(valid@, current, dim),
{
    if valid.len() == 0 {
        let mut d: u64 = current as u64 + 1;
        while d <= dim as u64
            invariant
                valid@.len() == 0,
                current < d,
                divisor_at_or_above(dim, current + 1) == divisor_at_or_above(dim, d as int),
            decreases dim as u64 + 1 - d,
        {
            if d >= 8 && dim % (d as u32) == 0 {
                return d as u32;
            }
            d += 1;
        }
        return current;
    }
    let mut i: usize = 0;
    while i < valid.len()
        invariant
            i <= valid.len(),
            first_above(valid@, current, 0) == first_above(valid@, current, i as int),
        decreases valid.len() - i,
    {
        if valid[i] > current {
            return valid[i];
        }
        i += 1;
    }
    current
}

/// What `last_below` finds: the last of the first `n` sizes below `current`.
proof fn lemma_last_below(valid: Seq<u32>, current: u32, n: int)
    requires
        0 <= n <= valid.len(),
    ensures
        last_below(valid, current, n) matches Some(x) ==> exists|k: int|
            0 <= k < n && valid[k] == x && x < current && forall|m: int|
                k < m < n ==> valid[m] >= current,
        last_below(valid, current, n) is None ==> forall|m: int| 0 <= m < n ==> valid[m] >= current,
    decreases n,
{
    if n > 0 && valid[n - 1] >= current {
        lemma_last_below(valid, current, n - 1);
    }
}

/// What `first_above` finds: the first size from `i` on above `current`.
proof fn lemma_first_above(valid: Seq<u32>, current: u32, i: int)
    requires
        0 <= i <= valid.len(),
    ensures
        first_above(valid, current, i) matches Some(x) ==> exists|k: int|
            i <= k < valid.len() && valid[k] == x && x > current && forall|m: int|
                i <= m < k ==> valid[m] <= current,
        first_above(valid, current, i) is None ==> forall|m: int|
            i <= m < valid.len() ==> valid[m] <= current,
    decreases valid.len() - i,
{
    if i < valid.len() && valid[i] <= current {
        lemma_first_above(valid, current, i + 1);
    }
}

/// Law: on a strictly increasing list, stepping down from a listed size
/// gives the size before it and stepping up gives the size after it (each
/// staying put at the ends).
pub proof fn lemma_step_neighbours(valid: Seq<u32>, i: int, dim: u32)
    requires
        strictly_increasing(valid),
        0 <= i < valid.len(),
    ensures
        prev_spec(valid, valid[i], dim) == (if i > 0 {
            valid[i - 1]
        } else {
            valid[i]
        }),
        next_spec(valid, valid[i], dim) == (if i + 1 < valid.len() {
            valid[i + 1]
        } else {
            valid[i]
        }),
{
    let c = valid[i];
    lemma_last_below(valid, c, valid.len() as int);
    lemma_first_above(valid, c, 0);
    if let Some(x) = last_below(valid, c, valid.len() as int) {
        let k = choose|k: int|
            0 <= k < valid.len() && valid[k] == x && x < c && forall|m: int|
                k < m < valid.len() ==> valid[m] >= c;
        assert(k < i);
        if k < i - 1 {
            assert(valid[i - 1] < c);
        }
    } else {
        if i > 0 {
            assert(valid[0] >= c);
        }
    }
    if let Some(x) = first_above(valid, c, 0) {
        let k = choose|k: int|
            0 <= k < valid.len() && valid[k] == x && x > c && forall|m: int|
                0 <= m < k ==> valid[m] <= c;
        assert(k > i);
        if k > i + 1 {
            assert(valid[i + 1] > c);
        }
    } else {
        if i + 1 < valid.len() {
            assert(valid[i + 1] <= c);
        }
    }
}

/// Law: on a strictly increasing list, stepping down then up from a listed
/// size that is not the first returns to it, and stepping up then down from
/// one that is not the last returns to it.
pub proof fn lemma_step_round_trip(valid: Seq<u32>, i: int, dim: u32)
    requires
        strictly_increasing(valid),
        0 <= i < valid.len(),
    ensures
        i > 0 ==> next_spec(valid, prev_spec(valid, valid[i], dim), dim) == valid[i],
        i + 1 < valid.len() ==> prev_spec(valid, next_spec(valid, valid[i], dim), dim) == valid[i],
{
    lemma_step_neighbours(valid, i, dim);
    if i > 0 {
        lemma_step_neighbours(valid, i - 1, dim);
    }
    if i + 1 < valid.len() {
        lemma_step_neighbours(valid, i + 1, dim);
    }
}

/// The list `valid_cell_sizes` returns for `dim`.
pub open spec fn is_size_list(valid: Seq<u32>, dim: u32) -> bool {
    &&& strictly_increasing(valid)
    &&& forall|i: int| 0 <= i < valid.len() ==> is_valid_size(#[trigger] valid[i] as int, dim as int)
    &&& forall|s: u32| is_valid_size(s as int, dim as int) ==> #[trigger] valid.contains(s)
}

/// Law: stepping through the valid sizes of `dim` never skips one: a step
/// down from `current` lands on `current` itself or on a valid size below it
/// with no valid size in between, and a step up likewise above it.
pub proof fn lemma_step_no_skip(valid: Seq<u32>, current: u32, dim: u32)
    requires
        is_size_list(valid, dim),
        valid.len() > 0,
    ensures
        prev_spec(valid, current, dim) == current || (is_valid_size(
            prev_spec(valid, current, dim) as int,
            dim as int,
        ) && prev_spec(valid, current, dim) < current && forall|s: u32|
            is_valid_size(s as int, dim as int) && prev_spec(valid, current, dim) < s
                ==> s >= current),
        next_spec(valid, current, dim) == current || (is_valid_size(
            next_spec(valid, current, dim) as int,
            dim as int,
        ) && next_spec(valid, current, dim) > current && forall|s: u32|
            is_valid_size(s as int, dim as int) && s < next_spec(valid, current, dim)
                ==> s <= current),
{
    lemma_last_below(valid, current, valid.len() as int);
    lemma_first_above(valid, current, 0);
    if let Some(x) = last_below(valid, current, valid.len() as int) {
        let k = choose|k: int|
            0 <= k < valid.len() && valid[k] == x && x < current && forall|m: int|
                k < m < valid.len() ==> valid[m] >= current;
        assert(is_valid_size(valid[k] as int, dim as int));
        assert forall|s: u32| is_valid_size(s as int, dim as int) && x < s implies s >= current by {
            assert(valid.contains(s));
            let m = choose|m: int| 0 <= m < valid.len() && valid[m] == s;
            if m <= k {
                if m < k {
                    assert(valid[m] < valid[k]);
                }
            }
        }
    }
    if let Some(x) = first_above(valid, current, 0) {
        let k = choose|k: int|
            0 <= k < valid.len() && valid[k] == x && x > current && forall|m: int|
                0 <= m < k ==> valid[m] <= current;
        assert(is_valid_size(valid[k] as int, dim as int));
        assert forall|s: u32| is_valid_size(s as int, dim as int) && s < x implies s <= current by {
            assert(valid.contains(s));
            let m = choose|m: int| 0 <= m < valid.len() && valid[m] == s;
            if m >= k {
                if m > k {
                    assert(valid[k] < valid[m]);
                }
            }
        }
    }
}

/// Whether a grid is a valid 4-direction walk grid: columns a multiple of
/// 3, rows a multiple of 4.
pub fn is_valid_grid(grid_cols: u32, grid_rows: u32) -> (r: bool)
    ensures
        r == (grid_cols >= 3 && grid_rows >= 4 && grid_cols % 3 == 0 && grid_rows % 4 == 0),
{
    grid_cols >= 3 && grid_rows >= 4 && grid_cols % 3 == 0 && grid_rows % 4 == 0
}

/// The cell size used for a dimension: a size of 0 (none chosen yet)
/// stands for the whole dimension.
pub fn cell_size_or_full(cell: u32, dim: u32) -> (r: u32)
    ensures
        r == (if cell == 0 {
            dim
        } else {
            cell
        }),
{
    if cell == 0 {
        dim
    } else {
        cell
    }
}

/// Columns and rows of a grid over an image, when the cells tile it exactly.
pub fn grid_dimensions(width: u32, height: u32, cell_w: u32, cell_h: u32) -> (r: Option<(u32, u32)>)
    ensures
        r is Some <==> (cell_w > 0 && cell_h > 0 && width % cell_w == 0 && height % cell_h == 0),
        r matches Some((c, w)) ==> c == width / cell_w && w == height / cell_h,
{
    if cell_w > 0 && cell_h > 0 && width % cell_w == 0 && height % cell_h == 0 {
        Some((width / cell_w, height / cell_h))
    } else {
        None
    }
}

/// The size list of `dim`: the one list that `is_size_list` admits.
pub open spec fn size_list_of(dim: u32) -> Seq<u32> {
    choose|v: Seq<u32>| is_size_list(v, dim)
}

/// The size list of a dimension is the one list that `is_size_list` admits.
pub proof fn lemma_size_list_of(v: Seq<u32>, dim: u32)
    requires
        is_size_list(v, dim),
    ensures
        size_list_of(dim) == v,
{
    let w = size_list_of(dim);
    assert(is_size_list(w, dim));
    lemma_size_lists_agree(v, w, dim);
}

/// Two size lists of the same dimension are equal.
proof fn lemma_size_lists_agree(a: Seq<u32>, b: Seq<u32>, dim: u32)
    requires
        is_size_list(a, dim),
        is_size_list(b, dim),
    ensures
        a == b,
{
    assert forall|i: int| 0 <= i < a.len() && 0 <= i < b.len() implies a[i] == b[i] by {
        lemma_size_list_prefix(a, b, dim, i);
    }
    if a.len() > b.len() {
        let n = b.len() as int;
        assert(is_valid_size(a[n] as int, dim as int));
        assert(b.contains(a[n]));
        let j = choose|j: int| 0 <= j < b.len() && b[j] == a[n];
        lemma_size_list_prefix(a, b, dim, j);
    }
    if b.len() > a.len() {
        let n = a.len() as int;
        assert(is_valid_size(b[n] as int, dim as int));
        assert(a.contains(b[n]));
        let j = choose|j: int| 0 <= j < a.len() && a[j] == b[n];
        lemma_size_list_prefix(a, b, dim, j);
    }
    assert(a =~= b);
}

/// Two size lists of the same dimension agree up to index `i`.
proof fn lemma_size_list_prefix(a: Seq<u32>, b: Seq<u32>, dim: u32, i: int)
    requires
        is_size_list(a, dim),
        is_size_list(b, dim),
        0 <= i < a.len(),
        0 <= i < b.len(),
    ensures
        forall|k: int| 0 <= k <= i ==> a[k] == b[k],
    decreases i,
{
    if i > 0 {
        lemma_size_list_prefix(a, b, dim, i - 1);
    }
    assert(is_valid_size(a[i] as int, dim as int));
    assert(b.contains(a[i]));
    let j = choose|j: int| 0 <= j < b.len() && b[j] == a[i];
    assert(is_valid_size(b[i] as int, dim as int));
    assert(a.contains(b[i]));
    let jj = choose|jj: int| 0 <= jj < a.len() && a[jj] == b[i];
    if j < i {
        assert(a[j] == b[j]);
    }
    if jj < i {
        assert(a[jj] == b[jj]);
    }
}

/// The keys that act on the grid in one frame.
#[derive(Debug, Clone, Copy, PartialEq, Eq, Structural)]
pub struct GridKeys {
    /// A minus key was pressed.
    pub minus: bool,
    /// A plus (equals) key was pressed.
    pub plus: bool,
    /// A shift key is held.
    pub shift: bool,
    /// A control key is held.
    pub ctrl: bool,
}

/// The cell sizes after the grid keys act on an image of the given size:
/// an unset size starts as the whole dimension; without modifiers both
/// sizes step, shift steps only the height and control only the width;
/// minus steps down, then plus steps up.
pub open spec fn grid_key_spec(width: u32, height: u32, cell_w: u32, cell_h: u32, keys: GridKeys) -> (
    u32,
    u32,
) {
    if width == 0 || height == 0 {
        (cell_w, cell_h)
    } else {
        let w0 = if cell_w == 0 {
            width
        } else {
            cell_w
        };
        let h0 = if cell_h == 0 {
            height
        } else {
            cell_h
        };
        let adjust_w = keys.ctrl || !keys.shift;
        let adjust_h = keys.shift || !keys.ctrl;
        let w1 = if keys.minus && adjust_w {
            prev_spec(size_list_of(width), w0, width)
        } else {
            w0
        };
        let h1 = if keys.minus && adjust_h {
            prev_spec(size_list_of(height), h0, height)
        } else {
            h0
        };
        let w2 = if keys.plus && adjust_w {
            next_spec(size_list_of(width), w1, width)
        } else {
            w1
        };
        let h2 = if keys.plus && adjust_h {
            next_spec(size_list_of(height), h1, height)
        } else {
            h1
        };
        (w2, h2)
    }
}

/// Stepping down never raises a size.
proof fn lemma_prev_not_above(valid: Seq<u32>, current: u32, dim: u32)
    ensures
        prev_spec(valid, current, dim) <= current,
{
    if valid.len() == 0 {
        lemma_divisor_below(dim, current - 1);
    } else {
        lemma_last_below(valid, current, valid.len() as int);
    }
}

/// What `divisor_at_or_below` finds lies at or below its bound.
proof fn lemma_divisor_below(dim: u32, top: int)
    ensures
        divisor_at_or_below(dim, top) matches Some(d) ==> d <= top,
    decreases top,
{
    if top >= 8 && dim % (top as u32) != 0 {
        lemma_divisor_below(dim, top - 1);
    }
}

/// Law: the same modifier rule governs both keys. Whichever of minus and
/// plus is pressed, with Ctrl held and Shift not the cell height stays as
/// it was (an unset height read as the whole height), and with Shift held
/// and Ctrl not the cell width stays likewise; with neither key pressed
/// neither size changes; and with no modifier one key alone steps both
/// sizes one valid size down (minus) or up (plus).
pub proof fn lemma_grid_keys_modifiers(width: u32, height: u32, cell_w: u32, cell_h: u32, keys: GridKeys)
    requires
        width > 0,
        height > 0,
    ensures
        keys.ctrl && !keys.shift ==> grid_key_spec(width, height, cell_w, cell_h, keys).1 == (if cell_h
            == 0 {
            height
        } else {
            cell_h
        }),
        keys.shift && !keys.ctrl ==> grid_key_spec(width, height, cell_w, cell_h, keys).0 == (if cell_w
            == 0 {
            width
        } else {
            cell_w
        }),
        !keys.minus && !keys.plus ==> grid_key_spec(width, height, cell_w, cell_h, keys) == (
            (if cell_w == 0 {
                width
            } else {
                cell_w
            }),
            (if cell_h == 0 {
                height
            } else {
                cell_h
            }),
        ),
        keys.plus && !keys.minus && !keys.shift && !keys.ctrl ==> grid_key_spec(
            width,
            height,
            cell_w,
            cell_h,
            keys,
        ) == (next_spec(size_list_of(width), if cell_w == 0 {
            width
        } else {
            cell_w
        }, width), next_spec(size_list_of(height), if cell_h == 0 {
            height
        } else {
            cell_h
        }, height)),
        keys.minus && !keys.plus && !keys.shift && !keys.ctrl ==> grid_key_spec(
            width,
            height,
            cell_w,
            cell_h,
            keys,
        ) == (prev_spec(size_list_of(width), if cell_w == 0 {
            width
        } else {
            cell_w
        }, width), prev_spec(size_list_of(height), if cell_h == 0 {
            height
        } else {
            cell_h
        }, height)),
{
}

/// The cell sizes after the grid keys of one frame.
pub fn grid_key_step(width: u32, height: u32, cell_w: u32, cell_h: u32, keys: GridKeys) -> (r: (u32, u32))
    requires
        keys.plus && width > 0 && height > 0 ==> ((keys.ctrl || !keys.shift) ==> (width >= 8
            || cell_w < u32::MAX)) && ((keys.shift || !keys.ctrl) ==> (height >= 8 || cell_h
            < u32::MAX)),
    ensures
        r == grid_key_spec(width, height, cell_w, cell_h, keys),
{
    if width == 0 || height == 0 {
        return (cell_w, cell_h);
    }
    let mut w = if cell_w == 0 {
        width
    } else {
        cell_w
    };
    let mut h = if cell_h == 0 {
        height
    } else {
        cell_h
    };
    let valid_w = valid_cell_sizes(width);
    let valid_h = valid_cell_sizes(height);
    let adjust_w = keys.ctrl || !keys.shift;
    let adjust_h = keys.shift || !keys.ctrl;
    proof {
        if width >= 8 {
            assert(valid_w@.contains(width));
        }
        if height >= 8 {
            assert(valid_h@.contains(height));
        }
    }
    if keys.minus {
        if adjust_w {
            proof {
                lemma_prev_not_above(valid_w@, w, width);
            }
            w = prev_valid_size(valid_w.as_slice(), w, width);
        }
        if adjust_h {
            proof {
                lemma_prev_not_above(valid_h@, h, height);
            }
            h = prev_valid_size(valid_h.as_slice(), h, height);
        }
    }
    if keys.plus {
        if adjust_w {
            w = next_valid_size(valid_w.as_slice(), w, width);
        }
        if adjust_h {
            h = next_valid_size(valid_h.as_slice(), h, height);
        }
    }
    (w, h)
}

/// The walk cycle: the frame shown at each step, as a column of a
/// three-column block (idle, first step, idle, second step).
pub open spec fn walk_column(step: nat) -> u32 {
    if step % 4 == 1 {
        0
    } else if step % 4 == 3 {
        2
    } else {
        1
    }
}

/// The column of the block shown at step `cycle_pos` of the walk cycle.
pub fn walk_frame_column(cycle_pos: usize) -> (r: u32)
    ensures
        r == walk_column(cycle_pos as nat),
        r < 3,
{
    let walk_cycle: [usize; 4] = [1, 0, 1, 2];
    let frame_cols: [u32; 3] = [0, 1, 2];
    let frame = walk_cycle[cycle_pos % 4];
    frame_cols[frame]
}

/// The step after `cycle_pos` in the four-step walk cycle.
pub fn next_walk_step(cycle_pos: usize) -> (r: usize)
    ensures
        r == (cycle_pos as nat + 1) % 4,
{
    (cycle_pos % 4 + 1) % 4
}

/// Whether the walk preview can play: the cells split the width into at
/// least three columns, a multiple of three.
pub fn walk_preview_fits(width: u32, cell_w: u32) -> (r: bool)
    ensures
        r == (cell_w > 0 && width / cell_w >= 3 && (width / cell_w) % 3 == 0),
{
    cell_w > 0 && width / cell_w >= 3 && (width / cell_w) % 3 == 0
}

/// The selected grid cell and the file it belongs to.
pub struct CellSelection {
    /// The selected cell as (column, row), if any.
    pub selected: Option<(u32, u32)>,
    /// The key of the file the selection belongs to.
    pub file_key: String,
}

impl CellSelection {
    /// No cell selected, belonging to no file.
    pub fn new() -> (r: CellSelection)
        ensures
            r.selected is None,
            r.file_key@ == Seq::<char>::empty(),
    {
        CellSelection { selected: None, file_key: String::new() }
    }

    /// Follow the selected file, keyed `key` (empty when none): when it
    /// changed, the cell selection is dropped and the new key remembered.
    /// Returns whether it changed (the walk preview then stops).
    pub fn follow_file(&mut self, key: &str) -> (changed: bool)
        ensures
            changed == (key@ != old(self).file_key@),
            changed ==> final(self).file_key@ == key@ && final(self).selected is None,
            !changed ==> final(self).file_key@ == old(self).file_key@ && final(self).selected
                == old(self).selected,
    {
        let same = chars_eq(chars_of(key).as_slice(), chars_of(self.file_key.as_str()).as_slice());
        if !same {
            self.file_key = string_from(chars_of(key).as_slice());
            self.selected = None;
        }
        !same
    }
}

} // verus!
