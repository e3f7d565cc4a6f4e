//! Line-level and character-level diff with the Myers O(ND) algorithm, hunk
//! grouping, side-by-side layout and patch generation.

use vstd::prelude::*;
use vstd::string::StringSliceAdditionalSpecFns;
use vstd::utf8::*;
use crate::textpatch::{
    assemble, is_patch_order, key_lt, lemma_order_unique, patch_order, patch_views, spec_apply,
    spec_validate, validate_from, PatchView, TextPatch, TextPatchError,
};
use crate::strutil::{
    lemma_ascii_boundary,
    lemma_take_bytes, utf8_len, bytes_eq, bytes_of, lemma_boundary_from_suffix, lemma_bytes_determine_chars, lemma_str_valid,
    substr,
};

verus! {

/// Diff operation kind.
#[derive(Debug, Clone, Copy, PartialEq, Eq, Hash, Structural)]
pub enum DiffOp {
    Equal,
    Insert,
    Delete,
}

// ---------------------------------------------------------------------------
// Edit scripts
// ---------------------------------------------------------------------------

/// `ops` turns `a` into `b`: an equal step pairs equal items of both, a delete
/// step consumes an item of `a`, an insert step one of `b`.
pub open spec fn script_ok<A>(ops: Seq<DiffOp>, a: Seq<A>, b: Seq<A>) -> bool
    decreases ops.len(),
{
    if ops.len() == 0 {
        a.len() == 0 && b.len() == 0
    } else {
        match ops.last() {
            DiffOp::Equal => a.len() > 0 && b.len() > 0 && a.last() == b.last() && script_ok(
                ops.drop_last(),
                a.drop_last(),
                b.drop_last(),
            ),
            DiffOp::Delete => a.len() > 0 && script_ok(ops.drop_last(), a.drop_last(), b),
            DiffOp::Insert => b.len() > 0 && script_ok(ops.drop_last(), a, b.drop_last()),
        }
    }
}

/// No insert step is directly followed by a delete step.
pub open spec fn no_insert_before_delete(ops: Seq<DiffOp>) -> bool {
    forall|i: int, j: int|
        #![trigger ops[i], ops[j]]
        0 <= i && j == i + 1 && j < ops.len() ==> !(ops[i] == DiffOp::Insert && ops[j]
            == DiffOp::Delete)
}

/// `c` equal steps.
pub open spec fn equals(c: int) -> Seq<DiffOp> {
    Seq::new(if c > 0 { c as nat } else { 0 }, |i: int| DiffOp::Equal)
}

/// `c` steps of `op`.
pub open spec fn repeat_op(op: DiffOp, c: int) -> Seq<DiffOp> {
    Seq::new(if c > 0 { c as nat } else { 0 }, |i: int| op)
}

// ---------------------------------------------------------------------------
// The Myers search, as a specification
// ---------------------------------------------------------------------------

/// From `x` on diagonal `k` (where `y = x - k`), the end of the run of equal
/// item pairs.
pub open spec fn snake<A>(a: Seq<A>, b: Seq<A>, x: int, k: int) -> int
    decreases a.len() - x,
{
    if 0 <= x < a.len() && 0 <= x - k < b.len() && a[x] == b[x - k] {
        snake(a, b, x + 1, k)
    } else {
        x
    }
}

/// Where step `d` starts on diagonal `k`, from the furthest points `left` on
/// diagonal `k - 1` and `right` on diagonal `k + 1` of step `d - 1`: down from
/// `k + 1` (an insert) or right from `k - 1` (a delete), whichever reaches further.
pub open spec fn step_start(left: int, right: int, d: int, k: int) -> int {
    if k == -d {
        right
    } else if k == d {
        left + 1
    } else if left < right {
        right
    } else {
        left + 1
    }
}

/// The furthest `x` reached on diagonal `k` after `d` edits.
pub open spec fn furthest<A>(a: Seq<A>, b: Seq<A>, d: int, k: int) -> int
    decreases d,
{
    if d <= 0 {
        snake(a, b, 0, 0)
    } else {
        snake(
            a,
            b,
            step_start(furthest(a, b, d - 1, k - 1), furthest(a, b, d - 1, k + 1), d, k),
            k,
        )
    }
}

/// Diagonal `k` is explored at step `d`.
pub open spec fn explored(d: int, k: int) -> bool {
    0 <= d && -d <= k <= d && (k + d) % 2 == 0
}

/// Step `d` reaches the end on diagonal `k`.
pub open spec fn reaches_end<A>(a: Seq<A>, b: Seq<A>, d: int, k: int) -> bool {
    furthest(a, b, d, k) >= a.len() && furthest(a, b, d, k) - k >= b.len()
}

/// Some explored diagonal of step `d` reaches the end.
pub open spec fn step_reaches_end<A>(a: Seq<A>, b: Seq<A>, d: int) -> bool {
    exists|k: int| explored(d, k) && #[trigger] reaches_end(a, b, d, k)
}

/// The first step that reaches the end.
pub open spec fn edit_steps<A>(a: Seq<A>, b: Seq<A>) -> int {
    choose|d: int|
        0 <= d && step_reaches_end(a, b, d) && forall|t: int|
            0 <= t < d ==> !#[trigger] step_reaches_end(a, b, t)
}

/// The diagonal step `d` came from when it ended on diagonal `k`.
pub open spec fn came_from<A>(a: Seq<A>, b: Seq<A>, d: int, k: int) -> int {
    if k == -d || (k != d && furthest(a, b, d - 1, k - 1) < furthest(a, b, d - 1, k + 1)) {
        k + 1
    } else {
        k - 1
    }
}

/// The edit script of the path found to the furthest point of diagonal `k`
/// after `d` edits: the path to the point it came from, the edit, and the run
/// of equal pairs after it.
pub open spec fn path_ops<A>(a: Seq<A>, b: Seq<A>, d: int, k: int) -> Seq<DiffOp>
    decreases d,
{
    if d <= 0 {
        equals(furthest(a, b, 0, 0))
    } else {
        let pk = came_from(a, b, d, k);
        let px = furthest(a, b, d - 1, pk);
        let sx = if pk == k + 1 {
            px
        } else {
            px + 1
        };
        path_ops(a, b, d - 1, pk) + seq![
            if pk == k + 1 {
                DiffOp::Insert
            } else {
                DiffOp::Delete
            },
        ] + equals(furthest(a, b, d, k) - sx)
    }
}

/// The edit script Myers' algorithm finds between `a` and `b`.
pub open spec fn myers_ops<A>(a: Seq<A>, b: Seq<A>) -> Seq<DiffOp> {
    if a.len() == 0 && b.len() == 0 {
        Seq::empty()
    } else if a.len() == 0 {
        repeat_op(DiffOp::Insert, b.len() as int)
    } else if b.len() == 0 {
        repeat_op(DiffOp::Delete, a.len() as int)
    } else {
        path_ops(a, b, edit_steps(a, b), a.len() - b.len())
    }
}

// ---------------------------------------------------------------------------
// Facts about the search
// ---------------------------------------------------------------------------

proof fn lemma_snake<A>(a: Seq<A>, b: Seq<A>, x: int, k: int)
    ensures
        snake(a, b, x, k) >= x,
        forall|t: int|
            x <= t < snake(a, b, x, k) ==> 0 <= t < a.len() && 0 <= t - k < b.len() && a[t] == b[t
                - k],
        x <= a.len() && x - k <= b.len() ==> snake(a, b, x, k) <= a.len() && snake(a, b, x, k) - k
            <= b.len(),
        x > a.len() || x - k > b.len() || x < 0 || x - k < 0 ==> snake(a, b, x, k) == x,
        snake(a, b, x, k) <= if x > a.len() {
            x
        } else {
            a.len() as int
        },
        snake(a, b, x, k) - k <= if x - k > b.len() {
            x - k
        } else {
            b.len() as int
        },
    decreases a.len() - x,
{
    if 0 <= x < a.len() && 0 <= x - k < b.len() && a[x] == b[x - k] {
        lemma_snake(a, b, x + 1, k);
    }
}

/// Points reached stay in the quadrant and move at most one column or row per edit.
proof fn lemma_furthest_bounds<A>(a: Seq<A>, b: Seq<A>, d: int, k: int)
    requires
        explored(d, k),
    ensures
        furthest(a, b, d, k) >= 0,
        furthest(a, b, d, k) - k >= 0,
        furthest(a, b, d, k) <= a.len() + d,
        furthest(a, b, d, k) - k <= b.len() + d,
    decreases d,
{
    if d == 0 {
        lemma_snake(a, b, 0, 0);
    } else {
        if k != -d {
            lemma_furthest_bounds(a, b, d - 1, k - 1);
        }
        if k != d {
            lemma_furthest_bounds(a, b, d - 1, k + 1);
        }
        let s = step_start(furthest(a, b, d - 1, k - 1), furthest(a, b, d - 1, k + 1), d, k);
        lemma_snake(a, b, s, k);
    }
}

/// The furthest point is at least where the step starts, which is at least one
/// column right of the left neighbour and at least as far as the right neighbour.
proof fn lemma_furthest_step<A>(a: Seq<A>, b: Seq<A>, d: int, k: int)
    requires
        explored(d, k),
        d > 0,
    ensures
        k != -d ==> furthest(a, b, d, k) >= furthest(a, b, d - 1, k - 1) + 1,
        k != d ==> furthest(a, b, d, k) >= furthest(a, b, d - 1, k + 1),
{
    let s = step_start(furthest(a, b, d - 1, k - 1), furthest(a, b, d - 1, k + 1), d, k);
    lemma_snake(a, b, s, k);
}

/// Walking from a point in the grid: `r` steps right and then `s` steps down
/// from the furthest point of diagonal `k` at step `j`, the search is at least
/// as far along.
proof fn lemma_walk<A>(a: Seq<A>, b: Seq<A>, j: int, k: int, r: int, s: int)
    requires
        explored(j, k),
        r >= 0,
        s >= 0,
    ensures
        explored(j + r + s, k + r - s),
        furthest(a, b, j + r + s, k + r - s) >= furthest(a, b, j, k) + r,
    decreases r + s,
{
    if s > 0 {
        lemma_walk(a, b, j, k, r, s - 1);
        lemma_furthest_step(a, b, j + r + s, k + r - s);
    } else if r > 0 {
        lemma_walk(a, b, j, k, r - 1, 0);
        lemma_furthest_step(a, b, j + r, k + r);
    }
}

/// From a point of the grid, the search reaches the end within as many more
/// steps as the point is far from the end.
proof fn lemma_reaches_end_from<A>(a: Seq<A>, b: Seq<A>, j: int, k: int)
    requires
        explored(j, k),
        0 <= furthest(a, b, j, k) <= a.len(),
        0 <= furthest(a, b, j, k) - k <= b.len(),
    ensures
        step_reaches_end(
            a,
            b,
            j + (a.len() - furthest(a, b, j, k)) + (b.len() - (furthest(a, b, j, k) - k)),
        ),
{
    let x = furthest(a, b, j, k);
    let y = x - k;
    let r = a.len() - x;
    let s = b.len() - y;
    lemma_walk(a, b, j, k, r, s);
    let t = j + r + s;
    let kk = k + r - s;
    assert(reaches_end(a, b, t, kk));
}

/// Distance of a point from the end when it lies outside the grid, and its
/// overall distance from the end.
spec fn overshoot(x: int, y: int, n: int, m: int) -> int {
    (if x > n {
        x - n
    } else {
        0
    }) + (if y > m {
        y - m
    } else {
        0
    })
}

spec fn distance(x: int, y: int, n: int, m: int) -> int {
    (if x > n {
        x - n
    } else {
        n - x
    }) + (if y > m {
        y - m
    } else {
        m - y
    })
}

/// Every point of the search is backed by a point in the grid found no later,
/// no further from the end once the overshoot is paid back.
#[verifier::spinoff_prover]
proof fn lemma_anchor<A>(a: Seq<A>, b: Seq<A>, d: int, k: int) -> (r: (int, int))
    requires
        explored(d, k),
    ensures
        explored(r.0, r.1),
        r.0 <= d,
        0 <= furthest(a, b, r.0, r.1) <= a.len(),
        0 <= furthest(a, b, r.0, r.1) - r.1 <= b.len(),
        r.0 + distance(furthest(a, b, r.0, r.1), furthest(a, b, r.0, r.1) - r.1, a.len() as int, b.len() as int)
            <= d + distance(furthest(a, b, d, k), furthest(a, b, d, k) - k, a.len() as int, b.len() as int)
            - 2 * overshoot(furthest(a, b, d, k), furthest(a, b, d, k) - k, a.len() as int, b.len() as int),
    decreases d,
{
    let n = a.len() as int;
    let m = b.len() as int;
    lemma_furthest_bounds(a, b, d, k);
    let x = furthest(a, b, d, k);
    if x <= n && x - k <= m {
        (d, k)
    } else {
        assert(d > 0) by {
            if d == 0 {
                lemma_snake(a, b, 0, 0);
            }
        }
        let left = furthest(a, b, d - 1, k - 1);
        let right = furthest(a, b, d - 1, k + 1);
        let s = step_start(left, right, d, k);
        lemma_snake(a, b, s, k);
        assert(x == s);
        if s == right && k != d {
            lemma_furthest_bounds(a, b, d - 1, k + 1);
            lemma_anchor(a, b, d - 1, k + 1)
        } else {
            lemma_furthest_bounds(a, b, d - 1, k - 1);
            lemma_anchor(a, b, d - 1, k - 1)
        }
    }
}

/// The search ends, at the latest after `a.len() + b.len()` steps.
proof fn lemma_search_ends<A>(a: Seq<A>, b: Seq<A>)
    ensures
        step_reaches_end(a, b, a.len() + b.len() - 2 * snake(a, b, 0, 0)),
{
    lemma_snake(a, b, 0, 0);
    lemma_reaches_end_from(a, b, 0, 0);
}

/// The first step that reaches the end reaches it exactly at the end point.
proof fn lemma_first_end<A>(a: Seq<A>, b: Seq<A>, d: int, k: int)
    requires
        explored(d, k),
        reaches_end(a, b, d, k),
        forall|t: int| 0 <= t < d ==> !#[trigger] step_reaches_end(a, b, t),
    ensures
        furthest(a, b, d, k) == a.len(),
        k == a.len() - b.len(),
{
    let n = a.len() as int;
    let m = b.len() as int;
    let x = furthest(a, b, d, k);
    if x > n || x - k > m {
        let q = lemma_anchor(a, b, d, k);
        let qx = furthest(a, b, q.0, q.1);
        lemma_reaches_end_from(a, b, q.0, q.1);
        let t = q.0 + (n - qx) + (m - (qx - q.1));
        assert(t < d);
        assert(step_reaches_end(a, b, t));
    }
}

proof fn lemma_equals_extend<A>(ops: Seq<DiffOp>, a: Seq<A>, b: Seq<A>, i: int, j: int, c: int)
    requires
        0 <= i,
        0 <= j,
        0 <= c,
        i + c <= a.len(),
        j + c <= b.len(),
        script_ok(ops, a.take(i), b.take(j)),
        forall|t: int| #![trigger a[t]] i <= t < i + c ==> a[t] == b[t - i + j],
    ensures
        script_ok(ops + equals(c), a.take(i + c), b.take(j + c)),
    decreases c,
{
    if c == 0 {
        assert(ops + equals(0) =~= ops);
    } else {
        lemma_equals_extend(ops, a, b, i, j, c - 1);
        let s = ops + equals(c);
        assert(s.drop_last() =~= ops + equals(c - 1));
        assert(a.take(i + c).drop_last() =~= a.take(i + c - 1));
        assert(b.take(j + c).drop_last() =~= b.take(j + c - 1));
        assert(a[i + c - 1] == b[(i + c - 1) - i + j]);
    }
}

/// The path found to the furthest point of an explored diagonal, when that
/// point lies in the grid, is an edit script from the prefix of `a` to the
/// prefix of `b` that end there.
#[verifier::spinoff_prover]
proof fn lemma_path_valid<A>(a: Seq<A>, b: Seq<A>, d: int, k: int)
    requires
        explored(d, k),
        furthest(a, b, d, k) <= a.len(),
        furthest(a, b, d, k) - k <= b.len(),
    ensures
        script_ok(
            path_ops(a, b, d, k),
            a.take(furthest(a, b, d, k)),
            b.take(furthest(a, b, d, k) - k),
        ),
    decreases d,
{
    let x = furthest(a, b, d, k);
    lemma_furthest_bounds(a, b, d, k);
    if d == 0 {
        lemma_snake(a, b, 0, 0);
        assert(a.take(0) =~= Seq::<A>::empty());
        assert(b.take(0) =~= Seq::<A>::empty());
        assert(Seq::<DiffOp>::empty() + equals(x) =~= equals(x));
        lemma_equals_extend(Seq::<DiffOp>::empty(), a, b, 0, 0, x);
    } else {
        let pk = came_from(a, b, d, k);
        let px = furthest(a, b, d - 1, pk);
        let py = px - pk;
        lemma_furthest_bounds(a, b, d - 1, pk);
        let sx = if pk == k + 1 {
            px
        } else {
            px + 1
        };
        let left = furthest(a, b, d - 1, k - 1);
        let right = furthest(a, b, d - 1, k + 1);
        assert(step_start(left, right, d, k) == sx);
        lemma_snake(a, b, sx, k);
        lemma_path_valid(a, b, d - 1, pk);
        let p = path_ops(a, b, d - 1, pk);
        if pk == k + 1 {
            let q = p.push(DiffOp::Insert);
            assert(q.drop_last() =~= p);
            assert(b.take(py + 1).drop_last() =~= b.take(py));
            assert(script_ok(q, a.take(px), b.take(py + 1)));
            assert forall|t: int| #![trigger a[t]] px <= t < px + (x - sx) implies a[t] == b[t - px + (py + 1)] by {
                assert(a[t] == b[t - k]);
            }
            lemma_equals_extend(q, a, b, px, py + 1, x - sx);
            assert(p + seq![DiffOp::Insert] =~= q);
        } else {
            let q = p.push(DiffOp::Delete);
            assert(q.drop_last() =~= p);
            assert(a.take(px + 1).drop_last() =~= a.take(px));
            assert(script_ok(q, a.take(px + 1), b.take(py)));
            assert forall|t: int| #![trigger a[t]] px + 1 <= t < px + 1 + (x - sx) implies a[t] == b[t - (px + 1) + py] by {
                assert(a[t] == b[t - k]);
            }
            lemma_equals_extend(q, a, b, px + 1, py, x - sx);
            assert(p + seq![DiffOp::Delete] =~= q);
        }
    }
}

/// The path to the furthest point of a diagonal ends with an insert exactly
/// when its last edit is an insert with no equal pairs after it.
proof fn lemma_path_last<A>(a: Seq<A>, b: Seq<A>, d: int, k: int)
    requires
        explored(d, k),
    ensures
        (path_ops(a, b, d, k).len() > 0 && path_ops(a, b, d, k).last() == DiffOp::Insert) ==> (d
            > 0 && came_from(a, b, d, k) == k + 1 && furthest(a, b, d, k) == furthest(
            a,
            b,
            d - 1,
            k + 1,
        )),
{
    if d > 0 {
        let pk = came_from(a, b, d, k);
        let px = furthest(a, b, d - 1, pk);
        let sx = if pk == k + 1 {
            px
        } else {
            px + 1
        };
        let left = furthest(a, b, d - 1, k - 1);
        let right = furthest(a, b, d - 1, k + 1);
        assert(step_start(left, right, d, k) == sx);
        lemma_snake(a, b, sx, k);
        let p = path_ops(a, b, d - 1, pk);
        let e = if pk == k + 1 {
            DiffOp::Insert
        } else {
            DiffOp::Delete
        };
        let c = furthest(a, b, d, k) - sx;
        if c > 0 {
            assert((p + seq![e] + equals(c)).last() == DiffOp::Equal);
        } else {
            assert(p + seq![e] + equals(c) =~= p.push(e));
        }
    } else {
        lemma_snake(a, b, 0, 0);
    }
}

/// Paths found by the search never put an insert directly before a delete.
#[verifier::spinoff_prover]
proof fn lemma_path_no_insert_before_delete<A>(a: Seq<A>, b: Seq<A>, d: int, k: int)
    requires
        explored(d, k),
    ensures
        no_insert_before_delete(path_ops(a, b, d, k)),
    decreases d,
{
    if d == 0 {
        let s = path_ops(a, b, d, k);
        assert forall|i: int, j: int| #![trigger s[i], s[j]] 0 <= i && j == i + 1 && j < s.len() implies !(s[i] == DiffOp::Insert
            && s[j] == DiffOp::Delete) by {
            assert(s[i] == DiffOp::Equal);
        }
    } else {
        let pk = came_from(a, b, d, k);
        let px = furthest(a, b, d - 1, pk);
        let sx = if pk == k + 1 {
            px
        } else {
            px + 1
        };
        let p = path_ops(a, b, d - 1, pk);
        let e = if pk == k + 1 {
            DiffOp::Insert
        } else {
            DiffOp::Delete
        };
        let c = furthest(a, b, d, k) - sx;
        lemma_path_no_insert_before_delete(a, b, d - 1, pk);
        lemma_path_last(a, b, d - 1, pk);
        if e == DiffOp::Delete && p.len() > 0 && p.last() == DiffOp::Insert {
            // p ends with an insert from diagonal k at step d - 2
            assert(pk == k - 1);
            assert(d - 1 > 0);
            assert(came_from(a, b, d - 1, pk) == k);
            if k == d {
                assert(false);
            } else {
                lemma_furthest_step(a, b, d - 1, k + 1);
                assert(false);
            }
        }
        let s = p + seq![e] + equals(c);
        assert forall|i: int, j: int| #![trigger s[i], s[j]] 0 <= i && j == i + 1 && j < s.len() implies !(s[i] == DiffOp::Insert
            && s[j] == DiffOp::Delete) by {
            if j < p.len() {
                assert(s[i] == p[i] && s[j] == p[j]);
            } else if j == p.len() {
                assert(s[i] == p.last());
            } else {
                assert(s[j] == DiffOp::Equal);
            }
        }
    }
}

/// Myers' script turns `a` into `b` and never puts an insert directly before a delete.
pub proof fn lemma_myers_ops<A>(a: Seq<A>, b: Seq<A>)
    ensures
        script_ok(myers_ops(a, b), a, b),
        no_insert_before_delete(myers_ops(a, b)),
{
    let ops = myers_ops(a, b);
    if a.len() == 0 && b.len() == 0 {
    } else if a.len() == 0 {
        lemma_repeat_ok(DiffOp::Insert, a, b, b.len() as int);
        assert(b.take(b.len() as int) =~= b);
        assert forall|i: int, j: int| #![trigger ops[i], ops[j]] 0 <= i && j == i + 1 && j < ops.len() implies !(ops[i]
            == DiffOp::Insert && ops[j] == DiffOp::Delete) by {
            assert(ops[j] == DiffOp::Insert);
        }
    } else if b.len() == 0 {
        lemma_repeat_ok(DiffOp::Delete, a, b, a.len() as int);
        assert(a.take(a.len() as int) =~= a);
        assert forall|i: int, j: int| #![trigger ops[i], ops[j]] 0 <= i && j == i + 1 && j < ops.len() implies !(ops[i]
            == DiffOp::Insert && ops[j] == DiffOp::Delete) by {
            assert(ops[i] == DiffOp::Delete);
        }
    } else {
        lemma_search_ends(a, b);
        lemma_edit_steps(a, b);
        let d = edit_steps(a, b);
        let k = choose|k: int| explored(d, k) && #[trigger] reaches_end(a, b, d, k);
        lemma_first_end(a, b, d, k);
        lemma_path_valid(a, b, d, k);
        assert(a.take(a.len() as int) =~= a);
        assert(b.take(b.len() as int) =~= b);
        lemma_path_no_insert_before_delete(a, b, d, k);
    }
}

/// The first step that reaches the end exists and is the least such step.
proof fn lemma_edit_steps<A>(a: Seq<A>, b: Seq<A>)
    requires
        a.len() > 0 || b.len() > 0,
    ensures
        0 <= edit_steps(a, b),
        step_reaches_end(a, b, edit_steps(a, b)),
        forall|t: int| 0 <= t < edit_steps(a, b) ==> !#[trigger] step_reaches_end(a, b, t),
{
    lemma_search_ends(a, b);
    lemma_snake(a, b, 0, 0);
    let bound = a.len() + b.len() - 2 * snake(a, b, 0, 0);
    lemma_least_step(a, b, bound, 0);
}

proof fn lemma_least_step<A>(a: Seq<A>, b: Seq<A>, bound: int, t: int)
    requires
        0 <= t <= bound,
        step_reaches_end(a, b, bound),
        forall|u: int| 0 <= u < t ==> !#[trigger] step_reaches_end(a, b, u),
    ensures
        exists|d: int|
            0 <= d && step_reaches_end(a, b, d) && forall|u: int|
                0 <= u < d ==> !#[trigger] step_reaches_end(a, b, u),
    decreases bound - t,
{
    if step_reaches_end(a, b, t) {
        assert(0 <= t && step_reaches_end(a, b, t) && forall|u: int|
            0 <= u < t ==> !#[trigger] step_reaches_end(a, b, u));
    } else {
        lemma_least_step(a, b, bound, t + 1);
    }
}

proof fn lemma_repeat_ok<A>(op: DiffOp, a: Seq<A>, b: Seq<A>, c: int)
    requires
        op == DiffOp::Insert ==> a.len() == 0 && 0 <= c <= b.len(),
        op == DiffOp::Delete ==> b.len() == 0 && 0 <= c <= a.len(),
        op != DiffOp::Equal,
    ensures
        op == DiffOp::Insert ==> script_ok(repeat_op(op, c), a, b.take(c)),
        op == DiffOp::Delete ==> script_ok(repeat_op(op, c), a.take(c), b),
    decreases c,
{
    if c > 0 {
        lemma_repeat_ok(op, a, b, c - 1);
        assert(repeat_op(op, c).drop_last() =~= repeat_op(op, c - 1));
        if op == DiffOp::Insert {
            assert(b.take(c).drop_last() =~= b.take(c - 1));
        } else {
            assert(a.take(c).drop_last() =~= a.take(c - 1));
        }
    } else {
        assert(b.take(0) =~= Seq::<A>::empty());
        assert(a.take(0) =~= Seq::<A>::empty());
    }
}

// ---------------------------------------------------------------------------
// The Myers search, as code
// ---------------------------------------------------------------------------

/// Items a diff compares: equal when their abstract values are equal.
trait DiffItem {
    type Item;

    spec fn item(&self) -> Self::Item;

    fn same(&self, other: &Self) -> (r: bool)
        ensures
            r == (self.item() == other.item()),
    ;
}

impl<'a> DiffItem for &'a str {
    type Item = Seq<char>;

    spec fn item(&self) -> Seq<char> {
        (*self)@
    }

    fn same(&self, other: &Self) -> (r: bool) {
        let r = bytes_eq(self.as_bytes(), other.as_bytes());
        proof {
            if r {
                lemma_bytes_determine_chars(*self, *other);
            }
        }
        r
    }
}

impl DiffItem for char {
    type Item = char;

    spec fn item(&self) -> char {
        *self
    }

    fn same(&self, other: &Self) -> (r: bool) {
        *self == *other
    }
}

/// The abstract values of a slice of items.
spec fn items<T: DiffItem>(s: Seq<T>) -> Seq<T::Item> {
    s.map_values(|t: T| t.item())
}

/// The steps of a run-length encoded script.
pub open spec fn expand(runs: Seq<(DiffOp, usize)>) -> Seq<DiffOp>
    decreases runs.len(),
{
    if runs.len() == 0 {
        Seq::empty()
    } else {
        expand(runs.drop_last()) + repeat_op(runs.last().0, runs.last().1 as int)
    }
}

/// Runs are non-empty and neighbouring runs differ in their operation.
pub open spec fn runs_ok(runs: Seq<(DiffOp, usize)>) -> bool {
    &&& forall|i: int| 0 <= i < runs.len() ==> #[trigger] runs[i].1 >= 1
    &&& forall|i: int, j: int|
        #![trigger runs[i], runs[j]]
        0 <= i && j == i + 1 && j < runs.len() ==> runs[i].0 != runs[j].0
}

proof fn lemma_edit_steps_unique<A>(a: Seq<A>, b: Seq<A>, d: int)
    requires
        a.len() > 0 || b.len() > 0,
        0 <= d,
        step_reaches_end(a, b, d),
        forall|t: int| 0 <= t < d ==> !#[trigger] step_reaches_end(a, b, t),
    ensures
        edit_steps(a, b) == d,
{
    lemma_edit_steps(a, b);
    let e = edit_steps(a, b);
    if e < d {
        assert(!step_reaches_end(a, b, e));
    } else if e > d {
        assert(!step_reaches_end(a, b, d));
    }
}

/// Run-length encode a script.
#[verifier::spinoff_prover]
fn run_lengths(ops: &Vec<DiffOp>) -> (r: Vec<(DiffOp, usize)>)
    ensures
        expand(r@) == ops@,
        runs_ok(r@),
{
    let mut result: Vec<(DiffOp, usize)> = Vec::new();
    let mut i: usize = 0;
    assert(ops@.take(0) =~= Seq::<DiffOp>::empty());
    while i < ops.len()
        invariant
            0 <= i <= ops@.len(),
            expand(result@) == ops@.take(i as int),
            runs_ok(result@),
            result@.len() > 0 ==> result@.last().1 <= i,
        decreases ops@.len() - i,
    {
        let op = ops[i];
        let len = result.len();
        let ghost prev = result@;
        if len > 0 && result[len - 1].0 == op {
            let count = result[len - 1].1;
            result.set(len - 1, (op, count + 1));
            assert(result@.drop_last() =~= prev.drop_last());
            assert(repeat_op(op, count + 1) =~= repeat_op(op, count as int).push(op));
        } else {
            result.push((op, 1));
            assert(result@.drop_last() =~= prev);
            assert(repeat_op(op, 1) =~= seq![op]);
        }
        assert(ops@.take(i + 1) =~= ops@.take(i as int).push(op));
        assert(expand(result@) =~= ops@.take(i + 1));
        i = i + 1;
    }
    assert(ops@.take(i as int) =~= ops@);
    result
}

/// Follow the run of equal pairs from `x` on diagonal `k`.
#[verifier::spinoff_prover]
fn follow_snake<T: DiffItem>(old: &[T], new: &[T], x: usize, k: isize) -> (r: usize)
    requires
        0 <= x - k <= 2 * (old@.len() + new@.len()),
        x <= 2 * (old@.len() + new@.len()),
        2 * (old@.len() + new@.len()) + 1 <= isize::MAX,
    ensures
        r == snake(items(old@), items(new@), x as int, k as int),
{
    let ghost a = items(old@);
    let ghost b = items(new@);
    let ghost start = x as int;
    let n = old.len();
    let m = new.len();
    let mut x = x;
    let mut y: usize = (x as isize - k) as usize;
    proof {
        lemma_snake(a, b, start, k as int);
    }
    loop
        invariant
            n == old@.len(),
            m == new@.len(),
            a == items(old@),
            b == items(new@),
            y == x - k,
            start <= x,
            snake(a, b, x as int, k as int) == snake(a, b, start, k as int),
            x <= 2 * (n + m),
        ensures
            snake(a, b, start, k as int) == x,
        decreases 2 * (n + m) - x,
    {
        if x < n && y < m {
            assert(a[x as int] == old@[x as int].item());
            assert(b[y as int] == new@[y as int].item());
            if old[x].same(&new[y]) {
                x = x + 1;
                y = y + 1;
            } else {
                break;
            }
        } else {
            break;
        }
    }
    x
}

/// Whether step `d` on diagonal `k` comes down from diagonal `k + 1` (rather
/// than right from `k - 1`), judged on the furthest points `v` of step `d - 1`.
fn comes_down(v: &Vec<usize>, k: isize, di: isize, offs: isize) -> (r: bool)
    requires
        -di <= k <= di,
        0 <= di <= offs,
        2 * offs + 1 == v@.len(),
        2 * offs + 1 <= isize::MAX,
    ensures
        r == (k == -di || (k != di && v@[(k - 1 + offs) as int] < v@[(k + 1 + offs) as int])),
{
    k == -di || (k != di && v[(k - 1 + offs) as usize] < v[(k + 1 + offs) as usize])
}

/// Step back along the diagonal while both coordinates stay above `(px, py)`,
/// recording one equal step per move.
#[verifier::spinoff_prover]
fn retreat_diagonal(x: &mut usize, y: &mut usize, px: usize, py: usize, edits: &mut Vec<DiffOp>)
    ensures
        *final(x) - *final(y) == *old(x) - *old(y),
        *final(x) <= *old(x),
        *final(x) <= px || *final(y) <= py,
        *old(x) > px && *old(y) > py ==> *final(x) >= px && *final(y) >= py,
        *old(x) <= px || *old(y) <= py ==> *final(x) == *old(x),
        final(edits)@.reverse() == equals(*old(x) - *final(x)) + old(edits)@.reverse(),
{
    let ghost x0 = *x as int;
    let ghost rev0 = edits@.reverse();
    assert(equals(0) + rev0 =~= rev0);
    while *x > px && *y > py
        invariant
            *x - *y == x0 - *old(y),
            *x <= x0,
            x0 == *old(x),
            *old(x) > px && *old(y) > py ==> *x >= px && *y >= py,
            *old(x) <= px || *old(y) <= py ==> *x == x0,
            edits@.reverse() == equals(x0 - *x) + rev0,
        decreases *x,
    {
        let ghost before = edits@;
        *x = *x - 1;
        *y = *y - 1;
        edits.push(DiffOp::Equal);
        assert(edits@.reverse() =~= seq![DiffOp::Equal] + before.reverse());
        assert(equals(x0 - *x) =~= equals(x0 - *x - 1) + seq![DiffOp::Equal]);
    }
}

/// One step of the backtrack: from the furthest point of diagonal `x - y` at
/// step `d`, back to the point of step `d - 1` it came from, recording (in
/// reverse) the equal pairs and the edit in between.
#[verifier::spinoff_prover]
#[verifier::rlimit(40)]
fn back_step<T: DiffItem>(
    xs: &[T],
    ys: &[T],
    v_prev: &Vec<usize>,
    d: usize,
    x: &mut usize,
    y: &mut usize,
    edits: &mut Vec<DiffOp>,
)
    requires
        d > 0,
        d <= xs@.len() + ys@.len(),
        2 * (xs@.len() + ys@.len()) + 1 <= isize::MAX,
        v_prev@.len() == 2 * (xs@.len() + ys@.len()) + 1,
        forall|i: int|
            0 <= i < 2 * (xs@.len() + ys@.len()) + 1 && explored(d - 1, i - (xs@.len() + ys@.len()))
                ==> #[trigger] v_prev@[i] == furthest(
                items(xs@),
                items(ys@),
                d - 1,
                i - (xs@.len() + ys@.len()),
            ),
        explored(d as int, *old(x) - *old(y)),
        *old(x) == furthest(items(xs@), items(ys@), d as int, *old(x) - *old(y)),
        *old(x) <= xs@.len(),
        *old(y) <= ys@.len(),
    ensures
        explored(d - 1, *final(x) - *final(y)),
        *final(x) == furthest(items(xs@), items(ys@), d - 1, *final(x) - *final(y)),
        *final(x) <= xs@.len(),
        *final(y) <= ys@.len(),
        path_ops(items(xs@), items(ys@), d as int, *old(x) - *old(y)) + old(edits)@.reverse()
            == path_ops(items(xs@), items(ys@), d - 1, *final(x) - *final(y))
            + final(edits)@.reverse(),
{
    let ghost a = items(xs@);
    let ghost b = items(ys@);
    let ghost k0 = *x - *y;
    let ghost rev0 = edits@.reverse();
    let off = xs.len() + ys.len();
    proof {
        lemma_furthest_bounds(a, b, d as int, k0);
    }
    let di = d as isize;
    let offs = off as isize;
    let k = *x as isize - *y as isize;
    proof {
        if k != -di {
            lemma_furthest_bounds(a, b, d - 1, k - 1);
            assert(v_prev@[(k - 1 + offs) as int] == furthest(a, b, d - 1, k - 1));
        }
        if k != di {
            lemma_furthest_bounds(a, b, d - 1, k + 1);
            assert(v_prev@[(k + 1 + offs) as int] == furthest(a, b, d - 1, k + 1));
        }
    }
    let prev_k: isize = if comes_down(v_prev, k, di, offs) {
        k + 1
    } else {
        k - 1
    };
    assert(prev_k == came_from(a, b, d as int, k as int));
    let prev_x = v_prev[(prev_k + offs) as usize];
    assert(prev_x == furthest(a, b, d - 1, prev_k as int));
    proof {
        lemma_furthest_bounds(a, b, d - 1, prev_k as int);
    }
    let prev_y = (prev_x as isize - prev_k) as usize;
    let ghost sx: int = if prev_k == k + 1 {
        prev_x as int
    } else {
        prev_x + 1
    };
    proof {
        let left = furthest(a, b, d - 1, k - 1);
        let right = furthest(a, b, d - 1, k + 1);
        assert(step_start(left, right, d as int, k as int) == sx);
        lemma_snake(a, b, sx, k as int);
    }
    let ghost c = *x - sx;
    retreat_diagonal(x, y, prev_x, prev_y, edits);
    assert(*x == sx);
    let ghost before = edits@;
    if prev_k == k + 1 {
        *y = *y - 1;
        edits.push(DiffOp::Insert);
        assert(edits@.reverse() =~= seq![DiffOp::Insert] + before.reverse());
    } else {
        *x = *x - 1;
        edits.push(DiffOp::Delete);
        assert(edits@.reverse() =~= seq![DiffOp::Delete] + before.reverse());
    }
    assert(*x == prev_x && *y == prev_y);
    assert(path_ops(a, b, d as int, k0) =~= path_ops(a, b, d - 1, prev_k as int) + seq![
        if prev_k == k + 1 {
            DiffOp::Insert
        } else {
            DiffOp::Delete
        },
    ] + equals(c));
    assert(path_ops(a, b, d as int, k0) + rev0 =~= path_ops(a, b, d - 1, prev_k as int)
        + edits@.reverse());
}

/// Explore diagonal `k` at step `d`: from where the step starts, follow the
/// run of equal pairs, and record the furthest point reached.
#[verifier::spinoff_prover]
fn explore_diagonal<T: DiffItem>(xs: &[T], ys: &[T], v: &mut Vec<usize>, d: usize, k: isize) -> (r: usize)
    requires
        xs@.len() > 0,
        ys@.len() > 0,
        d <= xs@.len() + ys@.len(),
        -(d as int) <= k <= d,
        (k + d) % 2 == 0,
        2 * (xs@.len() + ys@.len()) + 1 <= isize::MAX,
        old(v)@.len() == 2 * (xs@.len() + ys@.len()) + 1,
        d == 0 ==> old(v)@[xs@.len() + ys@.len() + 1int] == 0,
        d > 0 ==> forall|i: int|
            0 <= i < 2 * (xs@.len() + ys@.len()) + 1 && explored(d - 1, i - (xs@.len() + ys@.len()))
                ==> #[trigger] old(v)@[i] == furthest(
                items(xs@),
                items(ys@),
                d - 1,
                i - (xs@.len() + ys@.len()),
            ),
    ensures
        r == furthest(items(xs@), items(ys@), d as int, k as int),
        0 <= r - k,
        r <= xs@.len() + d,
        r - k <= ys@.len() + d,
        final(v)@ == old(v)@.update(k + (xs@.len() + ys@.len()) as int, r),
{
    let ghost a = items(xs@);
    let ghost b = items(ys@);
    let off = xs.len() + ys.len();
    let di = d as isize;
    let offs = off as isize;
    let ki = (k + offs) as usize;
    proof {
        if d > 0 {
            if k != -di {
                lemma_furthest_bounds(a, b, d - 1, k - 1);
            }
            if k != di {
                lemma_furthest_bounds(a, b, d - 1, k + 1);
            }
        }
        lemma_furthest_bounds(a, b, d as int, k as int);
    }
    let down = comes_down(v, k, di, offs);
    let start: usize = if down {
        v[(k + 1 + offs) as usize]
    } else {
        v[(k - 1 + offs) as usize] + 1
    };
    proof {
        if d > 0 {
            assert(start == step_start(
                furthest(a, b, d - 1, k - 1),
                furthest(a, b, d - 1, k + 1),
                d as int,
                k as int,
            ));
        } else {
            assert(k == 0 && start == 0);
        }
        lemma_snake(a, b, start as int, k as int);
    }
    let x = follow_snake(xs, ys, start, k);
    v.set(ki, x);
    x
}

/// The forward search: the first step that reaches the end, with the furthest
/// points of every earlier step (entry `t` holds those of step `t - 1`).
#[verifier::spinoff_prover]
fn myers_search<T: DiffItem>(old: &[T], new: &[T]) -> (r: (usize, Vec<Vec<usize>>))
    requires
        old@.len() > 0,
        new@.len() > 0,
        2 * (old@.len() + new@.len()) + 1 <= isize::MAX,
    ensures
        r.0 == edit_steps(items(old@), items(new@)),
        r.0 <= old@.len() + new@.len(),
        r.0 < r.1@.len(),
        forall|t: int, i: int|
            0 < t < r.1@.len() && 0 <= i < 2 * (old@.len() + new@.len()) + 1 && explored(
                t - 1,
                i - (old@.len() + new@.len()),
            ) ==> #[trigger] r.1@[t]@[i] == furthest(
                items(old@),
                items(new@),
                t - 1,
                i - (old@.len() + new@.len()),
            ),
        forall|t: int|
            0 <= t < r.1@.len() ==> (#[trigger] r.1@[t])@.len() == 2 * (old@.len() + new@.len())
                + 1,
{
    let n = old.len();
    let m = new.len();
    let ghost a = items(old@);
    let ghost b = items(new@);
    let max = n + m;
    let size = 2 * max + 1;
    let mut v: Vec<usize> = vec![0; size];
    let off = max;
    let ghost offi = off as int;
    let mut trace: Vec<Vec<usize>> = Vec::new();
    let mut found_d: usize = 0;
    let mut found = false;
    let mut d: usize = 0;
    assert(v@[offi + 1] == 0);
    while d <= max && !found
        invariant
            n == old@.len(),
            m == new@.len(),
            a == items(old@),
            b == items(new@),
            n > 0,
            m > 0,
            max == n + m,
            size == 2 * max + 1,
            off == max,
            offi == off,
            2 * (n + m) + 1 <= isize::MAX,
            v@.len() == size,
            !found ==> trace@.len() == d,
            found ==> trace@.len() == found_d + 1 && found_d < d,
            found ==> step_reaches_end(a, b, found_d as int),
            found ==> forall|t: int| 0 <= t < found_d ==> !#[trigger] step_reaches_end(a, b, t),
            !found ==> forall|t: int| 0 <= t < d ==> !#[trigger] step_reaches_end(a, b, t),
            !found && d == 0 ==> v@[offi + 1] == 0,
            !found && d > 0 ==> forall|i: int|
                0 <= i < size && explored(d - 1, i - offi) ==> #[trigger] v@[i] == furthest(
                    a,
                    b,
                    d - 1,
                    i - offi,
                ),
            forall|t: int, i: int|
                0 < t < trace@.len() && 0 <= i < size && explored(t - 1, i - offi)
                    ==> #[trigger] trace@[t]@[i] == furthest(a, b, t - 1, i - offi),
            forall|t: int| 0 <= t < trace@.len() ==> (#[trigger] trace@[t])@.len() == size,
            d <= max + 1,
        decreases max + 1 - d,
    {
        let snapshot = v.clone();
        assert(snapshot@ =~= v@);
        trace.push(snapshot);
        let di = d as isize;
        let offs = off as isize;
        let mut k: isize = -di;
        while k <= di && !found
            invariant
                n == old@.len(),
                m == new@.len(),
                a == items(old@),
                b == items(new@),
                n > 0,
                m > 0,
                max == n + m,
                size == 2 * max + 1,
                off == max,
                offi == off,
                offs == off,
                di == d,
                d <= max,
                2 * (n + m) + 1 <= isize::MAX,
                v@.len() == size,
                trace@.len() == d + 1,
                -di <= k <= di + 2,
                (k + di) % 2 == 0,
                d == 0 ==> v@[offi + 1] == 0,
                d > 0 ==> forall|i: int|
                    0 <= i < size && explored(d - 1, i - offi) ==> #[trigger] v@[i] == furthest(
                        a,
                        b,
                        d - 1,
                        i - offi,
                    ),
                forall|i: int|
                    0 <= i < size && explored(d as int, i - offi) && i - offi < k
                        ==> #[trigger] v@[i] == furthest(a, b, d as int, i - offi),
                !found ==> forall|j: int|
                    explored(d as int, j) && j < k ==> !#[trigger] reaches_end(a, b, d as int, j),
                found ==> found_d == d && step_reaches_end(a, b, d as int),
                forall|t: int, i: int|
                    0 < t < trace@.len() && 0 <= i < size && explored(t - 1, i - offi)
                        ==> #[trigger] trace@[t]@[i] == furthest(a, b, t - 1, i - offi),
                forall|t: int| 0 <= t < trace@.len() ==> (#[trigger] trace@[t])@.len() == size,
            decreases di + 2 - k,
        {
            let x = explore_diagonal(old, new, &mut v, d, k);
            let y = (x as isize - k) as usize;
            if x >= n && y >= m {
                found_d = d;
                found = true;
                assert(reaches_end(a, b, d as int, k as int));
            }
            k = k + 2;
        }
        d = d + 1;
    }
    proof {
        if !found {
            lemma_search_ends(a, b);
            lemma_snake(a, b, 0, 0);
            let bound = a.len() + b.len() - 2 * snake(a, b, 0, 0);
            assert(!step_reaches_end(a, b, bound));
            assert(false);
        }
        lemma_edit_steps_unique(a, b, found_d as int);
    }
    (found_d, trace)
}

/// Myers' O(ND) diff of two item sequences, as a run-length encoded edit script.
#[verifier::spinoff_prover]
fn myers_diff<T: DiffItem>(old: &[T], new: &[T]) -> (r: Vec<(DiffOp, usize)>)
    requires
        2 * (old@.len() + new@.len()) + 1 <= isize::MAX,
    ensures
        expand(r@) == myers_ops(items(old@), items(new@)),
        runs_ok(r@),
{
    let n = old.len();
    let m = new.len();
    let ghost a = items(old@);
    let ghost b = items(new@);
    if n == 0 && m == 0 {
        let r: Vec<(DiffOp, usize)> = Vec::new();
        assert(expand(r@) =~= Seq::<DiffOp>::empty());
        return r;
    }
    if n == 0 {
        let r = vec![(DiffOp::Insert, m)];
        assert(r@.drop_last() =~= Seq::<(DiffOp, usize)>::empty());
        assert(expand(r@.drop_last()) =~= Seq::<DiffOp>::empty());
        assert(expand(r@) =~= repeat_op(DiffOp::Insert, m as int));
        return r;
    }
    if m == 0 {
        let r = vec![(DiffOp::Delete, n)];
        assert(r@.drop_last() =~= Seq::<(DiffOp, usize)>::empty());
        assert(expand(r@.drop_last()) =~= Seq::<DiffOp>::empty());
        assert(expand(r@) =~= repeat_op(DiffOp::Delete, n as int));
        return r;
    }
    let (found_d, trace) = myers_search(old, new);
    let off = n + m;
    let ghost offi = off as int;
    let ghost dd = found_d as int;
    let ghost k_end = n - m;
    proof {
        lemma_edit_steps(a, b);
        let kk = choose|k: int| explored(dd, k) && #[trigger] reaches_end(a, b, dd, k);
        lemma_first_end(a, b, dd, kk);
    }
    // Backtrack from the end point, collecting the script in reverse.
    let mut x: usize = n;
    let mut y: usize = m;
    let mut edits: Vec<DiffOp> = Vec::new();
    let mut d: usize = found_d;
    assert(edits@.reverse() =~= Seq::<DiffOp>::empty());
    assert(path_ops(a, b, dd, k_end) =~= path_ops(a, b, d as int, x - y) + edits@.reverse());
    while d > 0
        invariant
            n == old@.len(),
            m == new@.len(),
            a == items(old@),
            b == items(new@),
            off == n + m,
            offi == off,
            2 * (n + m) + 1 <= isize::MAX,
            d <= dd,
            dd <= n + m,
            dd < trace@.len(),
            forall|t: int, i: int|
                0 < t < trace@.len() && 0 <= i < 2 * (n + m) + 1 && explored(t - 1, i - offi)
                    ==> #[trigger] trace@[t]@[i] == furthest(a, b, t - 1, i - offi),
            forall|t: int| 0 <= t < trace@.len() ==> (#[trigger] trace@[t])@.len() == 2 * (n + m) + 1,
            explored(d as int, x - y),
            x == furthest(a, b, d as int, x - y),
            x <= n,
            y <= m,
            path_ops(a, b, dd, k_end) == path_ops(a, b, d as int, x - y) + edits@.reverse(),
        decreases d,
    {
        back_step(old, new, &trace[d], d, &mut x, &mut y, &mut edits);
        d = d - 1;
    }
    proof {
        lemma_snake(a, b, 0, 0);
    }
    let ghost c = x as int;
    let ghost rev0 = edits@.reverse();
    retreat_diagonal(&mut x, &mut y, 0, 0, &mut edits);
    assert(path_ops(a, b, 0, c - y) =~= equals(c));
    assert(path_ops(a, b, dd, k_end) =~= edits@.reverse());
    // Put the script in order.
    let mut ops: Vec<DiffOp> = Vec::new();
    let mut i: usize = edits.len();
    while i > 0
        invariant
            i <= edits@.len(),
            ops@ == edits@.reverse().take(edits@.len() - i),
        decreases i,
    {
        i = i - 1;
        ops.push(edits[i]);
        assert(ops@ =~= edits@.reverse().take(edits@.len() - i));
    }
    assert(ops@ =~= edits@.reverse());
    assert(myers_ops(a, b) == path_ops(a, b, dd, k_end));
    run_lengths(&ops)
}

// ---------------------------------------------------------------------------
// Results
// ---------------------------------------------------------------------------

/// Byte range reference into an original or new text.
#[derive(Debug, Clone, Copy, PartialEq, Eq, Hash, Structural)]
pub struct ByteRange {
    start: usize,
    end: usize,
}

impl View for ByteRange {
    type V = (int, int);

    closed spec fn view(&self) -> (int, int) {
        (self.start as int, self.end as int)
    }
}

impl ByteRange {
    pub fn new(start: usize, end: usize) -> (r: Self)
        ensures
            r@ == (start as int, end as int),
    {
        ByteRange { start, end }
    }

    pub fn start(&self) -> (r: usize)
        ensures
            r == self@.0,
    {
        self.start
    }

    pub fn end(&self) -> (r: usize)
        ensures
            r == self@.1,
    {
        self.end
    }

    /// Byte length; the start must not lie after the end.
    pub fn len(&self) -> (r: usize)
        requires
            self@.0 <= self@.1,
        ensures
            r == self@.1 - self@.0,
    {
        self.end - self.start
    }

    pub fn is_empty(&self) -> (r: bool)
        ensures
            r == (self@.0 == self@.1),
    {
        self.start == self.end
    }
}

/// The abstract value of an optional range.
pub open spec fn range_view(r: Option<ByteRange>) -> Option<(int, int)> {
    match r {
        Some(b) => Some(b@),
        None => None,
    }
}

/// Abstract value of a diff line.
pub struct LineView {
    pub op: DiffOp,
    pub old_line: Option<u32>,
    pub new_line: Option<u32>,
    pub old_range: Option<(int, int)>,
    pub new_range: Option<(int, int)>,
}

/// One line in a diff result with its operation and source ranges.
#[derive(Debug, Clone, PartialEq, Eq, Structural)]
pub struct DiffLine {
    op: DiffOp,
    old_line: Option<u32>,
    new_line: Option<u32>,
    old_range: Option<ByteRange>,
    new_range: Option<ByteRange>,
}

impl View for DiffLine {
    type V = LineView;

    closed spec fn view(&self) -> LineView {
        LineView {
            op: self.op,
            old_line: self.old_line,
            new_line: self.new_line,
            old_range: range_view(self.old_range),
            new_range: range_view(self.new_range),
        }
    }
}

impl DiffLine {
    pub fn op(&self) -> (r: DiffOp)
        ensures
            r == self@.op,
    {
        self.op
    }

    pub fn old_line(&self) -> (r: Option<u32>)
        ensures
            r == self@.old_line,
    {
        self.old_line
    }

    pub fn new_line(&self) -> (r: Option<u32>)
        ensures
            r == self@.new_line,
    {
        self.new_line
    }

    pub fn old_range(&self) -> (r: Option<ByteRange>)
        ensures
            range_view(r) == self@.old_range,
    {
        self.old_range
    }

    pub fn new_range(&self) -> (r: Option<ByteRange>)
        ensures
            range_view(r) == self@.new_range,
    {
        self.new_range
    }
}

/// The abstract values of diff lines.
pub open spec fn lines_view(ls: Seq<DiffLine>) -> Seq<LineView> {
    ls.map_values(|l: DiffLine| l@)
}

/// Each line carries the sides its operation touches: both for an equal
/// line, the old side for a delete, the new side for an insert.
pub open spec fn line_shape_ok(l: LineView) -> bool {
    match l.op {
        DiffOp::Equal => l.old_line is Some && l.new_line is Some && l.old_range is Some
            && l.new_range is Some,
        DiffOp::Delete => l.old_line is Some && l.new_line is None && l.old_range is Some
            && l.new_range is None,
        DiffOp::Insert => l.old_line is None && l.new_line is Some && l.old_range is None
            && l.new_range is Some,
    }
}

// ---------------------------------------------------------------------------
// Lines of a text
// ---------------------------------------------------------------------------

/// The first newline byte at or after `i`.
pub open spec fn newline_from(b: Seq<u8>, i: int) -> Option<int>
    decreases b.len() - i,
{
    if i < 0 || i >= b.len() {
        None
    } else if b[i] == 10u8 {
        Some(i)
    } else {
        newline_from(b, i + 1)
    }
}

/// The byte ranges of the lines starting at `i`: each runs through its
/// newline, the last to the end of the text.
pub open spec fn spans_from(b: Seq<u8>, i: int) -> Seq<(int, int)>
    decreases b.len() - i,
{
    if i < 0 || i >= b.len() {
        Seq::empty()
    } else {
        proof {
            lemma_newline_from(b, i);
        }
        match newline_from(b, i) {
            Some(e) => seq![(i, e + 1)] + spans_from(b, e + 1),
            None => seq![(i, b.len() as int)],
        }
    }
}

/// The byte ranges of the lines of a text.
pub open spec fn line_spans(text: Seq<char>) -> Seq<(int, int)> {
    spans_from(bytes_of(text), 0)
}

/// The lines of a text.
pub open spec fn line_texts(text: Seq<char>) -> Seq<Seq<char>> {
    Seq::new(
        line_spans(text).len(),
        |i: int| decode_utf8(bytes_of(text).subrange(line_spans(text)[i].0, line_spans(text)[i].1)),
    )
}

/// The first newline at or after `i` is a newline, with none before it.
pub proof fn lemma_newline_from(b: Seq<u8>, i: int)
    requires
        0 <= i,
    ensures
        newline_from(b, i) matches Some(e) ==> i <= e < b.len() && b[e] == 10u8 && forall|t: int|
            i <= t < e ==> #[trigger] b[t] != 10u8,
        newline_from(b, i) is None ==> forall|t: int| i <= t < b.len() ==> #[trigger] b[t] != 10u8,
    decreases b.len() - i,
{
    if 0 <= i < b.len() && b[i] != 10u8 {
        lemma_newline_from(b, i + 1);
    }
}

/// Line spans are non-empty, start where the previous one ended, end at the
/// end of the text, and lie on character boundaries.
#[verifier::spinoff_prover]
pub proof fn lemma_spans_from(b: Seq<u8>, i: int)
    requires
        valid_utf8(b),
        0 <= i <= b.len(),
        is_char_boundary(b, i),
    ensures
        forall|j: int| 0 <= j < spans_from(b, i).len() ==> #[trigger] spans_from(b, i)[j].0 < spans_from(b, i)[j].1,
        forall|j: int|
            0 <= j < spans_from(b, i).len() ==> is_char_boundary(b, #[trigger] spans_from(b, i)[j].1),
        forall|j: int|
            0 <= j < spans_from(b, i).len() ==> is_char_boundary(b, #[trigger] spans_from(b, i)[j].0),
        forall|j: int|
            0 < j < spans_from(b, i).len() ==> #[trigger] spans_from(b, i)[j].0 == spans_from(b, i)[j - 1].1,
        spans_from(b, i).len() > 0 ==> spans_from(b, i)[0].0 == i,
        spans_from(b, i).len() > 0 ==> spans_from(b, i).last().1 == b.len(),
        spans_from(b, i).len() == 0 <==> i == b.len(),
        spans_from(b, i).len() <= b.len() - i,
    decreases b.len() - i,
{
    if i < b.len() {
        lemma_newline_from(b, i);
        match newline_from(b, i) {
            Some(e) => {
                assert(is_char_boundary(b, e + 1)) by {
                    lemma_ascii_boundary(b, e);
                }
                lemma_spans_from(b, e + 1);
                let rest = spans_from(b, e + 1);
                let all = seq![(i, e + 1)] + rest;
                assert forall|j: int| 0 < j < all.len() implies #[trigger] all[j].0 == all[j - 1].1 by {
                    if j > 1 {
                        assert(all[j] == rest[j - 1] && all[j - 1] == rest[j - 2]);
                    }
                }
                assert forall|j: int| 0 <= j < all.len() implies #[trigger] all[j].0 < all[j].1 by {
                    if j > 0 {
                        assert(all[j] == rest[j - 1]);
                    }
                }
                assert forall|j: int| 0 <= j < all.len() implies is_char_boundary(b, #[trigger] all[j].1) by {
                    if j > 0 {
                        assert(all[j] == rest[j - 1]);
                    }
                }
                assert forall|j: int| 0 <= j < all.len() implies is_char_boundary(b, #[trigger] all[j].0) by {
                    if j > 0 {
                        assert(all[j] == rest[j - 1]);
                    }
                }
                if rest.len() > 0 {
                    assert(all.last() == rest.last());
                }
            },
            None => {
                is_char_boundary_start_end_of_seq(b);
            },
        }
    }
}

/// The byte ranges of the lines of `text`: each runs through its newline,
/// the last to the end of the text.
#[verifier::spinoff_prover]
fn split_lines(text: &str) -> (r: Vec<(usize, usize)>)
    ensures
        r@.map_values(|p: (usize, usize)| (p.0 as int, p.1 as int)) == line_spans(text@),
{
    let b = text.as_bytes();
    let ghost bs = b@;
    proof {
        lemma_str_valid(text);
    }
    let mut lines: Vec<(usize, usize)> = Vec::new();
    let mut start: usize = 0;
    let mut i: usize = 0;
    assert(lines@.map_values(|p: (usize, usize)| (p.0 as int, p.1 as int)) + spans_from(bs, 0)
        =~= spans_from(bs, 0));
    while i < b.len()
        invariant
            bs == b@,
            bs == bytes_of(text@),
            0 <= start <= i <= bs.len(),
            forall|t: int| start <= t < i ==> #[trigger] bs[t] != 10u8,
            newline_from(bs, start as int) == newline_from(bs, i as int),
            lines@.map_values(|p: (usize, usize)| (p.0 as int, p.1 as int)) + spans_from(bs, start as int)
                == spans_from(bs, 0),
        decreases bs.len() - i,
    {
        if b[i] == 10u8 {
            let ghost before = lines@.map_values(|p: (usize, usize)| (p.0 as int, p.1 as int));
            lines.push((start, i + 1));
            assert(spans_from(bs, start as int) == seq![(start as int, i + 1)] + spans_from(bs, i + 1));
            assert(lines@.map_values(|p: (usize, usize)| (p.0 as int, p.1 as int)) =~= before.push((start as int, i + 1)));
            assert(before.push((start as int, i + 1)) + spans_from(bs, i + 1) =~= before + spans_from(bs, start as int));
            start = i + 1;
        }
        i = i + 1;
    }
    if start < b.len() {
        let ghost before = lines@.map_values(|p: (usize, usize)| (p.0 as int, p.1 as int));
        lines.push((start, b.len()));
        assert(newline_from(bs, start as int) is None);
        assert(lines@.map_values(|p: (usize, usize)| (p.0 as int, p.1 as int)) =~= before + spans_from(bs, start as int));
    } else {
        assert(lines@.map_values(|p: (usize, usize)| (p.0 as int, p.1 as int)) =~= lines@.map_values(|p: (usize, usize)| (p.0 as int, p.1 as int)) + spans_from(bs, start as int));
    }
    lines
}

// ---------------------------------------------------------------------------
// Line diff
// ---------------------------------------------------------------------------

/// Items of the old side consumed by a script.
pub open spec fn old_consumed(ops: Seq<DiffOp>) -> int
    decreases ops.len(),
{
    if ops.len() == 0 {
        0
    } else {
        old_consumed(ops.drop_last()) + if ops.last() != DiffOp::Insert {
            1int
        } else {
            0int
        }
    }
}

/// Items of the new side consumed by a script.
pub open spec fn new_consumed(ops: Seq<DiffOp>) -> int
    decreases ops.len(),
{
    if ops.len() == 0 {
        0
    } else {
        new_consumed(ops.drop_last()) + if ops.last() != DiffOp::Delete {
            1int
        } else {
            0int
        }
    }
}

/// Diff line `i` of script `ops` over the line ranges `os` and `ns`: it
/// refers to the next old and new lines its operation touches.
pub open spec fn line_at(
    ops: Seq<DiffOp>,
    i: int,
    os: Seq<(int, int)>,
    ns: Seq<(int, int)>,
) -> LineView {
    let oc = old_consumed(ops.take(i));
    let nc = new_consumed(ops.take(i));
    match ops[i] {
        DiffOp::Equal => LineView {
            op: DiffOp::Equal,
            old_line: Some(oc as u32),
            new_line: Some(nc as u32),
            old_range: Some(os[oc]),
            new_range: Some(ns[nc]),
        },
        DiffOp::Delete => LineView {
            op: DiffOp::Delete,
            old_line: Some(oc as u32),
            new_line: None,
            old_range: Some(os[oc]),
            new_range: None,
        },
        DiffOp::Insert => LineView {
            op: DiffOp::Insert,
            old_line: None,
            new_line: Some(nc as u32),
            old_range: None,
            new_range: Some(ns[nc]),
        },
    }
}

/// The diff lines of a script.
pub open spec fn diff_lines(ops: Seq<DiffOp>, os: Seq<(int, int)>, ns: Seq<(int, int)>) -> Seq<LineView> {
    Seq::new(ops.len(), |i: int| line_at(ops, i, os, ns))
}

/// The line diff of two texts: Myers' script over their lines.
pub open spec fn spec_diff(old: Seq<char>, new: Seq<char>) -> Seq<LineView> {
    diff_lines(
        myers_ops(line_texts(old), line_texts(new)),
        line_spans(old),
        line_spans(new),
    )
}

/// Line numbers fit in `u32`, and the search fits in memory indices.
pub open spec fn diff_fits(old: Seq<char>, new: Seq<char>) -> bool {
    let n = line_spans(old).len();
    let m = line_spans(new).len();
    n <= u32::MAX + 1 && m <= u32::MAX + 1 && 2 * (n + m) + 1 <= isize::MAX
}

proof fn lemma_consumed_step(ops: Seq<DiffOp>, i: int)
    requires
        0 <= i < ops.len(),
    ensures
        old_consumed(ops.take(i + 1)) == old_consumed(ops.take(i)) + if ops[i] != DiffOp::Insert {
            1int
        } else {
            0int
        },
        new_consumed(ops.take(i + 1)) == new_consumed(ops.take(i)) + if ops[i] != DiffOp::Delete {
            1int
        } else {
            0int
        },
{
    assert(ops.take(i + 1).drop_last() =~= ops.take(i));
}

proof fn lemma_consumed_nonneg(ops: Seq<DiffOp>)
    ensures
        0 <= old_consumed(ops),
        0 <= new_consumed(ops),
    decreases ops.len(),
{
    if ops.len() > 0 {
        lemma_consumed_nonneg(ops.drop_last());
    }
}

proof fn lemma_consumed_mono(ops: Seq<DiffOp>, i: int, j: int)
    requires
        0 <= i <= j <= ops.len(),
    ensures
        old_consumed(ops.take(i)) <= old_consumed(ops.take(j)),
        new_consumed(ops.take(i)) <= new_consumed(ops.take(j)),
        0 <= old_consumed(ops.take(i)),
        0 <= new_consumed(ops.take(i)),
    decreases j - i,
{
    lemma_consumed_nonneg(ops.take(i));
    if i < j {
        lemma_consumed_step(ops, j - 1);
        lemma_consumed_mono(ops, i, j - 1);
    }
}

/// A valid script consumes both sides exactly.
proof fn lemma_script_consumes<A>(ops: Seq<DiffOp>, a: Seq<A>, b: Seq<A>)
    requires
        script_ok(ops, a, b),
    ensures
        old_consumed(ops) == a.len(),
        new_consumed(ops) == b.len(),
    decreases ops.len(),
{
    if ops.len() > 0 {
        match ops.last() {
            DiffOp::Equal => lemma_script_consumes(ops.drop_last(), a.drop_last(), b.drop_last()),
            DiffOp::Delete => lemma_script_consumes(ops.drop_last(), a.drop_last(), b),
            DiffOp::Insert => lemma_script_consumes(ops.drop_last(), a, b.drop_last()),
        }
    }
}

/// Result of a line-level diff computation.
#[derive(Debug, PartialEq, Eq)]
pub struct DiffResult {
    lines: Vec<DiffLine>,
}

impl View for DiffResult {
    type V = Seq<LineView>;

    closed spec fn view(&self) -> Seq<LineView> {
        lines_view(self.lines@)
    }
}

/// Every line carries the sides its operation touches.
pub open spec fn lines_shape_ok(ls: Seq<LineView>) -> bool {
    forall|i: int| 0 <= i < ls.len() ==> #[trigger] line_shape_ok(ls[i])
}

/// The old ranges are non-empty and in order, and so are the new ranges.
pub open spec fn ranges_ordered(ls: Seq<LineView>) -> bool {
    &&& forall|i: int| 0 <= i < ls.len() && ls[i].old_range is Some ==> 0 <= (#[trigger] ls[i]).old_range.unwrap().0
        < ls[i].old_range.unwrap().1
    &&& forall|i: int| 0 <= i < ls.len() && ls[i].new_range is Some ==> 0 <= (#[trigger] ls[i]).new_range.unwrap().0
        < ls[i].new_range.unwrap().1
    &&& forall|i: int, j: int|
        #![trigger ls[i], ls[j]]
        0 <= i < j < ls.len() && ls[i].old_range is Some && ls[j].old_range is Some
            ==> ls[i].old_range.unwrap().1 <= ls[j].old_range.unwrap().0
    &&& forall|i: int, j: int|
        #![trigger ls[i], ls[j]]
        0 <= i < j < ls.len() && ls[i].new_range is Some && ls[j].new_range is Some
            ==> ls[i].new_range.unwrap().1 <= ls[j].new_range.unwrap().0
}

fn copy_line(l: &DiffLine) -> (r: DiffLine)
    ensures
        r@ == l@,
{
    DiffLine {
        op: l.op,
        old_line: l.old_line,
        new_line: l.new_line,
        old_range: l.old_range,
        new_range: l.new_range,
    }
}

impl DiffResult {
    #[verifier::type_invariant]
    spec fn shape_ok(self) -> bool {
        lines_shape_ok(lines_view(self.lines@)) && ranges_ordered(lines_view(self.lines@))
    }

    /// The lines of the diff.
    pub fn lines(&self) -> (r: &[DiffLine])
        ensures
            lines_view(r@) == self@,
            lines_shape_ok(self@),
            ranges_ordered(self@),
    {
        proof {
            use_type_invariant(self);
        }
        self.lines.as_slice()
    }
}

impl Clone for DiffResult {
    fn clone(&self) -> (r: Self)
        ensures
            r@ == self@,
    {
        proof {
            use_type_invariant(self);
        }
        let mut lines: Vec<DiffLine> = Vec::new();
        let mut i: usize = 0;
        while i < self.lines.len()
            invariant
                0 <= i <= self.lines@.len(),
                lines_view(lines@) == lines_view(self.lines@).take(i as int),
            decreases self.lines@.len() - i,
        {
            let ghost before = lines_view(lines@);
            let l = copy_line(&self.lines[i]);
            lines.push(l);
            assert(lines_view(lines@) =~= before.push(self.lines@[i as int]@));
            assert(lines_view(self.lines@).take(i + 1) =~= lines_view(self.lines@).take(i as int).push(self.lines@[i as int]@));
            i = i + 1;
        }
        assert(lines_view(self.lines@).take(i as int) =~= lines_view(self.lines@));
        DiffResult { lines }
    }
}

/// The text of each line.
#[verifier::spinoff_prover]
fn line_slices<'a>(text: &'a str, spans: &Vec<(usize, usize)>) -> (r: Vec<&'a str>)
    requires
        spans@.map_values(|p: (usize, usize)| (p.0 as int, p.1 as int)) == line_spans(text@),
    ensures
        items(r@) == line_texts(text@),
{
    let ghost sp = line_spans(text@);
    proof {
        lemma_str_valid(text);
        lemma_spans_from(bytes_of(text@), 0);
    }
    let mut out: Vec<&'a str> = Vec::new();
    let mut i: usize = 0;
    while i < spans.len()
        invariant
            0 <= i <= spans@.len(),
            sp == line_spans(text@),
            sp.len() == spans@.len(),
            forall|j: int| 0 <= j < spans@.len() ==> (#[trigger] spans@[j]).0 == sp[j].0 && spans@[j].1 == sp[j].1,
            valid_utf8(bytes_of(text@)),
            forall|j: int| 0 <= j < sp.len() ==> #[trigger] sp[j].0 < sp[j].1,
            forall|j: int| 0 <= j < sp.len() ==> is_char_boundary(bytes_of(text@), #[trigger] sp[j].1),
            forall|j: int| 0 <= j < sp.len() ==> is_char_boundary(bytes_of(text@), #[trigger] sp[j].0),
            sp.len() > 0 ==> sp.last().1 == bytes_of(text@).len(),
            forall|j: int| 0 < j < sp.len() ==> #[trigger] sp[j].0 == sp[j - 1].1,
            out@.len() == i,
            forall|j: int| 0 <= j < i ==> (#[trigger] out@[j])@ == line_texts(text@)[j],
        decreases spans@.len() - i,
    {
        let (s, e) = spans[i];
        assert(spans@[i as int] == (s, e));
        proof {
            assert(sp[i as int] == (s as int, e as int));
            lemma_span_in_text(sp, i as int, bytes_of(text@).len() as int);
        }
        let piece = substr(text, s, e);
        proof {
            vstd::utf8::encode_utf8_decode_utf8(piece@);
        }
        out.push(piece);
        i = i + 1;
    }
    assert(items(out@) =~= line_texts(text@));
    out
}

proof fn lemma_span_in_text(sp: Seq<(int, int)>, i: int, len: int)
    requires
        0 <= i < sp.len(),
        forall|j: int| 0 <= j < sp.len() ==> #[trigger] sp[j].0 < sp[j].1,
        forall|j: int| 0 < j < sp.len() ==> #[trigger] sp[j].0 == sp[j - 1].1,
        sp.last().1 == len,
    ensures
        sp[i].1 <= len,
    decreases sp.len() - i,
{
    if i < sp.len() - 1 {
        assert(sp[i + 1].0 == sp[i].1);
        lemma_span_in_text(sp, i + 1, len);
    }
}

/// Compute a line-level diff between two texts using the Myers O(ND)
/// algorithm: one line per step of the script, with the old and new line
/// numbers and byte ranges it touches.
#[verifier::spinoff_prover]
#[verifier::rlimit(60)]
pub fn diff(old: &str, new: &str) -> (r: DiffResult)
    requires
        diff_fits(old@, new@),
    ensures
        r@ == spec_diff(old@, new@),
{
    let old_lines = split_lines(old);
    let new_lines = split_lines(new);
    let old_strs = line_slices(old, &old_lines);
    let new_strs = line_slices(new, &new_lines);
    let ghost os = line_spans(old@);
    let ghost ns = line_spans(new@);
    let ghost a = line_texts(old@);
    let ghost b = line_texts(new@);
    assert(items(old_strs@).len() == old_strs@.len() && items(new_strs@).len() == new_strs@.len());
    assert(old_strs@.len() == os.len() && new_strs@.len() == ns.len());
    let ops = myers_diff(old_strs.as_slice(), new_strs.as_slice());
    let ghost full = myers_ops(a, b);
    proof {
        lemma_myers_ops(a, b);
        lemma_script_consumes(full, a, b);
        assert(full.take(full.len() as int) =~= full);
    }
    let mut result_lines: Vec<DiffLine> = Vec::new();
    let mut old_idx: usize = 0;
    let mut new_idx: usize = 0;
    let mut r: usize = 0;
    let ghost mut done: Seq<DiffOp> = Seq::empty();
    assert(lines_view(result_lines@) =~= diff_lines(done, os, ns));
    assert(ops@.take(0) =~= Seq::<(DiffOp, usize)>::empty());
    while r < ops.len()
        invariant
            os == line_spans(old@),
            ns == line_spans(new@),
            os.len() == old_lines@.len(),
            ns.len() == new_lines@.len(),
            forall|j: int| 0 <= j < old_lines@.len() ==> (#[trigger] old_lines@[j]).0 == os[j].0 && old_lines@[j].1 == os[j].1,
            forall|j: int| 0 <= j < new_lines@.len() ==> (#[trigger] new_lines@[j]).0 == ns[j].0 && new_lines@[j].1 == ns[j].1,
            diff_fits(old@, new@),
            full == myers_ops(a, b),
            expand(ops@) == full,
            old_consumed(full) == os.len(),
            new_consumed(full) == ns.len(),
            0 <= r <= ops@.len(),
            done == expand(ops@.take(r as int)),
            full.take(done.len() as int) == done,
            done.len() <= full.len(),
            old_idx == old_consumed(done),
            new_idx == new_consumed(done),
            lines_view(result_lines@) == diff_lines(done, os, ns),
        decreases ops@.len() - r,
    {
        let (op, count) = ops[r];
        proof {
            assert(ops@.take(r + 1).drop_last() =~= ops@.take(r as int));
            lemma_expand_prefix(ops@, r as int);
            lemma_expand_take(ops@, r + 1);
            let nxt = expand(ops@.take(r + 1));
            assert forall|t: int| done.len() <= t < done.len() + count implies #[trigger] full[t] == op by {
                assert(nxt[t] == repeat_op(op, count as int)[t - done.len()]);
                assert(full[t] == nxt[t]);
            }
            assert(done + repeat_op(op, 0) =~= done);
        }
        let mut c: usize = 0;
        while c < count
            invariant
                os == line_spans(old@),
                ns == line_spans(new@),
                os.len() == old_lines@.len(),
                ns.len() == new_lines@.len(),
                forall|j: int| 0 <= j < old_lines@.len() ==> (#[trigger] old_lines@[j]).0 == os[j].0 && old_lines@[j].1 == os[j].1,
                forall|j: int| 0 <= j < new_lines@.len() ==> (#[trigger] new_lines@[j]).0 == ns[j].0 && new_lines@[j].1 == ns[j].1,
                diff_fits(old@, new@),
                old_consumed(full) == os.len(),
                new_consumed(full) == ns.len(),
                0 <= c <= count,
                full.take(done.len() as int) == done,
                done.len() + (count - c) <= full.len(),
                forall|t: int| done.len() <= t < done.len() + (count - c) ==> #[trigger] full[t] == op,
                old_idx == old_consumed(done),
                new_idx == new_consumed(done),
                lines_view(result_lines@) == diff_lines(done, os, ns),
                done == expand(ops@.take(r as int)) + repeat_op(op, c as int),
            decreases count - c,
        {
            let ghost p = done.len() as int;
            proof {
                assert(full[p] == op);
                lemma_consumed_step(full, p);
                lemma_consumed_mono(full, p + 1, full.len() as int);
                assert(full.take(full.len() as int) =~= full);
                assert(full.take(p) == done);
            }
            let line = make_line(op, old_idx, new_idx, &old_lines, &new_lines);
            let ghost before = lines_view(result_lines@);
            result_lines.push(line);
            proof {
                let nd = done.push(op);
                assert(full.take(p + 1) =~= nd);
                lemma_diff_lines_push(done, op, os, ns);
                assert(line@ == line_at(nd, p, os, ns));
                assert(lines_view(result_lines@) =~= before.push(line@));
                assert(repeat_op(op, c + 1) =~= repeat_op(op, c as int).push(op));
                done = nd;
            }
            if op != DiffOp::Insert {
                old_idx = old_idx + 1;
            }
            if op != DiffOp::Delete {
                new_idx = new_idx + 1;
            }
            c = c + 1;
        }
        r = r + 1;
    }
    proof {
        assert(ops@.take(r as int) =~= ops@);
        assert(done =~= full);
        assert forall|i: int| 0 <= i < lines_view(result_lines@).len() implies #[trigger] line_shape_ok(
            lines_view(result_lines@)[i],
        ) by {
            assert(lines_view(result_lines@)[i] == line_at(full, i, os, ns));
        }
        lemma_str_valid(old);
        lemma_str_valid(new);
        lemma_spans_from(bytes_of(old@), 0);
        lemma_spans_from(bytes_of(new@), 0);
        lemma_diff_lines_ordered(full, a, b, os, ns);
    }
    DiffResult { lines: result_lines }
}

/// A diff line built from the next old and new line ranges.
fn make_line(
    op: DiffOp,
    old_idx: usize,
    new_idx: usize,
    old_lines: &Vec<(usize, usize)>,
    new_lines: &Vec<(usize, usize)>,
) -> (r: DiffLine)
    requires
        op != DiffOp::Insert ==> old_idx < old_lines@.len(),
        op != DiffOp::Delete ==> new_idx < new_lines@.len(),
        op != DiffOp::Insert ==> old_idx <= u32::MAX,
        op != DiffOp::Delete ==> new_idx <= u32::MAX,
    ensures
        r@ == (match op {
            DiffOp::Equal => LineView {
                op: DiffOp::Equal,
                old_line: Some(old_idx as u32),
                new_line: Some(new_idx as u32),
                old_range: Some((old_lines@[old_idx as int].0 as int, old_lines@[old_idx as int].1 as int)),
                new_range: Some((new_lines@[new_idx as int].0 as int, new_lines@[new_idx as int].1 as int)),
            },
            DiffOp::Delete => LineView {
                op: DiffOp::Delete,
                old_line: Some(old_idx as u32),
                new_line: None,
                old_range: Some((old_lines@[old_idx as int].0 as int, old_lines@[old_idx as int].1 as int)),
                new_range: None,
            },
            DiffOp::Insert => LineView {
                op: DiffOp::Insert,
                old_line: None,
                new_line: Some(new_idx as u32),
                old_range: None,
                new_range: Some((new_lines@[new_idx as int].0 as int, new_lines@[new_idx as int].1 as int)),
            },
        }),
{
    match op {
        DiffOp::Equal => {
            let ol = old_lines[old_idx];
            let nl = new_lines[new_idx];
            DiffLine {
                op: DiffOp::Equal,
                old_line: Some(old_idx as u32),
                new_line: Some(new_idx as u32),
                old_range: Some(ByteRange::new(ol.0, ol.1)),
                new_range: Some(ByteRange::new(nl.0, nl.1)),
            }
        },
        DiffOp::Delete => {
            let ol = old_lines[old_idx];
            DiffLine {
                op: DiffOp::Delete,
                old_line: Some(old_idx as u32),
                new_line: None,
                old_range: Some(ByteRange::new(ol.0, ol.1)),
                new_range: None,
            }
        },
        DiffOp::Insert => {
            let nl = new_lines[new_idx];
            DiffLine {
                op: DiffOp::Insert,
                old_line: None,
                new_line: Some(new_idx as u32),
                old_range: None,
                new_range: Some(ByteRange::new(nl.0, nl.1)),
            }
        },
    }
}

proof fn lemma_diff_lines_push(done: Seq<DiffOp>, op: DiffOp, os: Seq<(int, int)>, ns: Seq<(int, int)>)
    ensures
        diff_lines(done.push(op), os, ns) == diff_lines(done, os, ns).push(
            line_at(done.push(op), done.len() as int, os, ns),
        ),
        old_consumed(done.push(op).take(done.len() as int)) == old_consumed(done),
        new_consumed(done.push(op).take(done.len() as int)) == new_consumed(done),
{
    let nd = done.push(op);
    assert(nd.take(done.len() as int) =~= done);
    assert forall|t: int| 0 <= t < done.len() implies line_at(nd, t, os, ns) == line_at(done, t, os, ns) by {
        assert(nd.take(t) =~= done.take(t));
    }
    assert(diff_lines(nd, os, ns) =~= diff_lines(done, os, ns).push(line_at(nd, done.len() as int, os, ns)));
}

proof fn lemma_expand_take(runs: Seq<(DiffOp, usize)>, r: int)
    requires
        0 <= r <= runs.len(),
    ensures
        expand(runs.take(r)).len() <= expand(runs).len(),
        forall|t: int| 0 <= t < expand(runs.take(r)).len() ==> #[trigger] expand(runs)[t] == expand(runs.take(r))[t],
    decreases runs.len(),
{
    if r == runs.len() {
        assert(runs.take(r) =~= runs);
    } else {
        lemma_expand_take(runs.drop_last(), r);
        assert(runs.drop_last().take(r) =~= runs.take(r));
        let e = expand(runs.drop_last());
        assert forall|t: int| 0 <= t < expand(runs.take(r)).len() implies #[trigger] expand(runs)[t] == expand(runs.take(r))[t] by {
            assert(expand(runs)[t] == e[t]);
        }
    }
}

proof fn lemma_expand_prefix(runs: Seq<(DiffOp, usize)>, r: int)
    requires
        0 <= r < runs.len(),
    ensures
        expand(runs.take(r + 1)) == expand(runs.take(r)) + repeat_op(runs[r].0, runs[r].1 as int),
        expand(runs.take(r)) + repeat_op(runs[r].0, runs[r].1 as int) == expand(runs.take(r + 1)),
{
    assert(runs.take(r + 1).drop_last() =~= runs.take(r));
}

/// Spans that are non-empty and contiguous are in order.
proof fn lemma_spans_ordered(sp: Seq<(int, int)>, p: int, q: int)
    requires
        0 <= p < q < sp.len(),
        forall|j: int| 0 <= j < sp.len() ==> #[trigger] sp[j].0 < sp[j].1,
        forall|j: int| 0 < j < sp.len() ==> #[trigger] sp[j].0 == sp[j - 1].1,
    ensures
        sp[p].1 <= sp[q].0,
    decreases q - p,
{
    if q > p + 1 {
        lemma_spans_ordered(sp, p, q - 1);
        assert(sp[q].0 == sp[q - 1].1);
    }
}

/// The lines of a valid script over contiguous non-empty spans have ordered ranges.
#[verifier::spinoff_prover]
proof fn lemma_diff_lines_ordered<A>(
    ops: Seq<DiffOp>,
    a: Seq<A>,
    b: Seq<A>,
    os: Seq<(int, int)>,
    ns: Seq<(int, int)>,
)
    requires
        script_ok(ops, a, b),
        a.len() == os.len(),
        b.len() == ns.len(),
        forall|j: int| 0 <= j < os.len() ==> #[trigger] os[j].0 < os[j].1,
        forall|j: int| 0 < j < os.len() ==> #[trigger] os[j].0 == os[j - 1].1,
        os.len() > 0 ==> os[0].0 == 0,
        forall|j: int| 0 <= j < ns.len() ==> #[trigger] ns[j].0 < ns[j].1,
        forall|j: int| 0 < j < ns.len() ==> #[trigger] ns[j].0 == ns[j - 1].1,
        ns.len() > 0 ==> ns[0].0 == 0,
    ensures
        ranges_ordered(diff_lines(ops, os, ns)),
{
    let ls = diff_lines(ops, os, ns);
    lemma_script_consumes(ops, a, b);
    assert(ops.take(ops.len() as int) =~= ops);
    assert forall|i: int| 0 <= i < ls.len() && ls[i].old_range is Some implies 0 <= (#[trigger] ls[i]).old_range.unwrap().0
        < ls[i].old_range.unwrap().1 by {
        assert(ls[i] == line_at(ops, i, os, ns));
        lemma_consumed_step(ops, i);
        lemma_consumed_mono(ops, i + 1, ops.len() as int);
        lemma_consumed_nonneg(ops.take(i));
        let oc = old_consumed(ops.take(i));
        assert(0 <= oc < os.len());
        if oc > 0 {
            lemma_spans_ordered(os, 0, oc);
        }
    }
    assert forall|i: int| 0 <= i < ls.len() && ls[i].new_range is Some implies 0 <= (#[trigger] ls[i]).new_range.unwrap().0
        < ls[i].new_range.unwrap().1 by {
        assert(ls[i] == line_at(ops, i, os, ns));
        lemma_consumed_step(ops, i);
        lemma_consumed_mono(ops, i + 1, ops.len() as int);
        lemma_consumed_nonneg(ops.take(i));
        let nc = new_consumed(ops.take(i));
        assert(0 <= nc < ns.len());
        if nc > 0 {
            lemma_spans_ordered(ns, 0, nc);
        }
    }
    assert forall|i: int, j: int|
        #![trigger ls[i], ls[j]]
        0 <= i < j < ls.len() && ls[i].old_range is Some && ls[j].old_range is Some
            implies ls[i].old_range.unwrap().1 <= ls[j].old_range.unwrap().0 by {
        assert(ls[i] == line_at(ops, i, os, ns));
        assert(ls[j] == line_at(ops, j, os, ns));
        lemma_consumed_step(ops, i);
        lemma_consumed_mono(ops, i + 1, j);
        lemma_consumed_step(ops, j);
        lemma_consumed_mono(ops, j + 1, ops.len() as int);
        lemma_consumed_nonneg(ops.take(i));
        let p = old_consumed(ops.take(i));
        let q = old_consumed(ops.take(j));
        lemma_spans_ordered(os, p, q);
    }
    assert forall|i: int, j: int|
        #![trigger ls[i], ls[j]]
        0 <= i < j < ls.len() && ls[i].new_range is Some && ls[j].new_range is Some
            implies ls[i].new_range.unwrap().1 <= ls[j].new_range.unwrap().0 by {
        assert(ls[i] == line_at(ops, i, os, ns));
        assert(ls[j] == line_at(ops, j, os, ns));
        lemma_consumed_step(ops, i);
        lemma_consumed_mono(ops, i + 1, j);
        lemma_consumed_step(ops, j);
        lemma_consumed_mono(ops, j + 1, ops.len() as int);
        lemma_consumed_nonneg(ops.take(i));
        let p = new_consumed(ops.take(i));
        let q = new_consumed(ops.take(j));
        lemma_spans_ordered(ns, p, q);
    }
}

// ---------------------------------------------------------------------------
// Patches
// ---------------------------------------------------------------------------

/// The end of the run of `op` lines starting at `i`.
pub open spec fn run_end(ls: Seq<LineView>, i: int, op: DiffOp) -> int
    decreases ls.len() - i,
{
    if 0 <= i < ls.len() && ls[i].op == op {
        run_end(ls, i + 1, op)
    } else {
        i
    }
}

/// The characters of `text` whose bytes lie in `[start, end)`.
pub open spec fn text_between(text: Seq<char>, start: int, end: int) -> Seq<char> {
    decode_utf8(bytes_of(text).subrange(start, end))
}

/// The patches for the lines from `i` on: a run of deletes, with the run of
/// inserts right after it, replaces the deleted old bytes by the inserted new
/// bytes; a run of inserts on its own goes in at the old end of the line
/// before it (or at 0).
pub open spec fn patches_from(ls: Seq<LineView>, new: Seq<char>, i: int) -> Seq<PatchView>
    decreases ls.len() - i, 0int,
{
    if i < 0 || i >= ls.len() {
        Seq::empty()
    } else {
        match ls[i].op {
            DiffOp::Equal => patches_from(ls, new, i + 1),
            DiffOp::Delete => {
                let de = run_end(ls, i, DiffOp::Delete);
                let ie = run_end(ls, de, DiffOp::Insert);
                proof {
                    lemma_run_end(ls, i, DiffOp::Delete);
                    lemma_run_end(ls, de, DiffOp::Insert);
                }
                let replacement = if de < ie {
                    text_between(new, ls[de].new_range.unwrap().0, ls[ie - 1].new_range.unwrap().1)
                } else {
                    Seq::empty()
                };
                seq![
                    PatchView {
                        start: ls[i].old_range.unwrap().0 as usize,
                        end: ls[de - 1].old_range.unwrap().1 as usize,
                        replacement,
                    },
                ] + patches_from(ls, new, ie)
            },
            DiffOp::Insert => {
                let ie = run_end(ls, i, DiffOp::Insert);
                proof {
                    lemma_run_end(ls, i, DiffOp::Insert);
                }
                let offset = if i > 0 {
                    match ls[i - 1].old_range {
                        Some(r) => r.1,
                        None => 0,
                    }
                } else {
                    0
                };
                seq![
                    PatchView {
                        start: offset as usize,
                        end: offset as usize,
                        replacement: text_between(
                            new,
                            ls[i].new_range.unwrap().0,
                            ls[ie - 1].new_range.unwrap().1,
                        ),
                    },
                ] + patches_from(ls, new, ie)
            },
        }
    }
}

/// A run ends no earlier than it starts, within the lines, and covers only
/// lines of its operation.
pub proof fn lemma_run_end(ls: Seq<LineView>, i: int, op: DiffOp)
    requires
        0 <= i,
    ensures
        i <= run_end(ls, i, op),
        run_end(ls, i, op) <= ls.len() || run_end(ls, i, op) == i,
        forall|t: int| i <= t < run_end(ls, i, op) ==> #[trigger] ls[t].op == op,
        0 <= run_end(ls, i, op) < ls.len() ==> ls[run_end(ls, i, op)].op != op,
        i < ls.len() && ls[i].op == op ==> i < run_end(ls, i, op) <= ls.len(),
    decreases ls.len() - i,
{
    if 0 <= i < ls.len() && ls[i].op == op {
        lemma_run_end(ls, i + 1, op);
    }
}

/// Every insert line's new range lies within `new`, on character boundaries.
pub open spec fn inserts_fit(ls: Seq<LineView>, new: Seq<char>) -> bool {
    forall|i: int|
        0 <= i < ls.len() && ls[i].op == DiffOp::Insert ==> {
            let r = (#[trigger] ls[i]).new_range.unwrap();
            &&& r.1 <= bytes_of(new).len()
            &&& is_char_boundary(bytes_of(new), r.0)
            &&& is_char_boundary(bytes_of(new), r.1)
        }
}

/// Scan to the end of the run of `op` lines starting at `i`.
fn skip_run(lines: &[DiffLine], i: usize, op: DiffOp) -> (r: usize)
    ensures
        r == run_end(lines_view(lines@), i as int, op),
{
    let mut j = i;
    proof {
        lemma_run_end(lines_view(lines@), i as int, op);
    }
    while j < lines.len() && lines[j].op == op
        invariant
            i <= j <= lines@.len() || j == i,
            run_end(lines_view(lines@), i as int, op) == run_end(lines_view(lines@), j as int, op),
        decreases lines@.len() - j,
    {
        assert(lines_view(lines@)[j as int] == lines@[j as int]@);
        j = j + 1;
    }
    proof {
        if j < lines@.len() {
            assert(lines_view(lines@)[j as int] == lines@[j as int]@);
        }
    }
    j
}

/// Convert a diff result to patches that turn the old text into `new`.
#[verifier::spinoff_prover]
#[verifier::rlimit(60)]
pub fn diff_to_patches(new: &str, result: &DiffResult) -> (r: Result<Vec<TextPatch>, TextPatchError>)
    requires
        inserts_fit(result@, new@),
    ensures
        r matches Ok(ps) && patch_views(ps@) == patches_from(result@, new@, 0),
{
    let mut patches: Vec<TextPatch> = Vec::new();
    let lines = result.lines();
    let ghost ls = result@;
    let mut i: usize = 0;
    proof {
        lemma_str_valid(new);
    }
    assert(patch_views(patches@) + patches_from(ls, new@, 0) =~= patches_from(ls, new@, 0));
    while i < lines.len()
        invariant
            ls == result@,
            lines_view(lines@) == ls,
            lines_shape_ok(ls),
            ranges_ordered(ls),
            inserts_fit(ls, new@),
            valid_utf8(bytes_of(new@)),
            0 <= i <= lines@.len(),
            patch_views(patches@) + patches_from(ls, new@, i as int) == patches_from(ls, new@, 0),
        decreases lines@.len() - i,
    {
        let ghost start_i = i as int;
        let ghost before = patch_views(patches@);
        assert(ls[start_i] == lines@[start_i]@);
        assert(line_shape_ok(ls[start_i]));
        match lines[i].op {
            DiffOp::Equal => {
                i = i + 1;
            },
            DiffOp::Delete => {
                let delete_start = i;
                let delete_end = skip_run(lines, i, DiffOp::Delete);
                let insert_start = delete_end;
                let insert_end = skip_run(lines, delete_end, DiffOp::Insert);
                proof {
                    lemma_run_end(ls, start_i, DiffOp::Delete);
                    lemma_run_end(ls, delete_end as int, DiffOp::Insert);
                }
                i = insert_end;
                let first_del = &lines[delete_start];
                let last_del = &lines[delete_end - 1];
                assert(ls[delete_end - 1] == lines@[delete_end - 1]@);
                assert(line_shape_ok(ls[delete_end - 1]));
                let del_byte_start = match first_del.old_range {
                    Some(r) => r.start,
                    None => 0,
                };
                let del_byte_end = match last_del.old_range {
                    Some(r) => r.end,
                    None => 0,
                };
                proof {
                    if delete_end - 1 > start_i {
                        assert(ls[start_i].old_range.unwrap().1 <= ls[delete_end - 1].old_range.unwrap().0);
                    }
                }
                let patch = if insert_start < insert_end {
                    let first_ins = &lines[insert_start];
                    let last_ins = &lines[insert_end - 1];
                    assert(ls[insert_start as int] == lines@[insert_start as int]@);
                    assert(ls[insert_end - 1] == lines@[insert_end - 1]@);
                    assert(line_shape_ok(ls[insert_start as int]));
                    assert(line_shape_ok(ls[insert_end - 1]));
                    let ins_byte_start = match first_ins.new_range {
                        Some(r) => r.start,
                        None => 0,
                    };
                    let ins_byte_end = match last_ins.new_range {
                        Some(r) => r.end,
                        None => 0,
                    };
                    proof {
                        if insert_end - 1 > insert_start {
                            assert(ls[insert_start as int].new_range.unwrap().1 <= ls[insert_end - 1].new_range.unwrap().0);
                        }
                    }
                    let replacement = substr(new, ins_byte_start, ins_byte_end);
                    proof {
                        vstd::utf8::encode_utf8_decode_utf8(replacement@);
                    }
                    TextPatch::replace(del_byte_start, del_byte_end, replacement)?
                } else {
                    TextPatch::delete(del_byte_start, del_byte_end)?
                };
                patches.push(patch);
                proof {
                    if insert_start < insert_end {
                        let rs = ls[insert_start as int].new_range.unwrap().0;
                        let re = ls[insert_end - 1].new_range.unwrap().1;
                        assert(patch@.replacement == text_between(new@, rs, re));
                    }
                    assert(patch_views(patches@) =~= before.push(patch@));
                    assert(patches_from(ls, new@, start_i) == seq![patch@] + patches_from(ls, new@, i as int));
                    assert(before.push(patch@) + patches_from(ls, new@, i as int) =~= before + patches_from(ls, new@, start_i));
                }
            },
            DiffOp::Insert => {
                let insert_start = i;
                let insert_end = skip_run(lines, i, DiffOp::Insert);
                proof {
                    lemma_run_end(ls, start_i, DiffOp::Insert);
                }
                i = insert_end;
                let first_ins = &lines[insert_start];
                let last_ins = &lines[insert_end - 1];
                assert(ls[insert_end - 1] == lines@[insert_end - 1]@);
                assert(line_shape_ok(ls[insert_end - 1]));
                let ins_byte_start = match first_ins.new_range {
                    Some(r) => r.start,
                    None => 0,
                };
                let ins_byte_end = match last_ins.new_range {
                    Some(r) => r.end,
                    None => 0,
                };
                proof {
                    if insert_end - 1 > insert_start {
                        assert(ls[insert_start as int].new_range.unwrap().1 <= ls[insert_end - 1].new_range.unwrap().0);
                    }
                }
                let replacement = substr(new, ins_byte_start, ins_byte_end);
                proof {
                    vstd::utf8::encode_utf8_decode_utf8(replacement@);
                }
                let offset = if insert_start > 0 {
                    let prev = &lines[insert_start - 1];
                    assert(ls[insert_start - 1] == lines@[insert_start - 1]@);
                    match prev.old_range {
                        Some(r) => r.end,
                        None => 0,
                    }
                } else {
                    0
                };
                let patch = TextPatch::insert(offset, replacement);
                patches.push(patch);
                proof {
                    assert(patch_views(patches@) =~= before.push(patch@));
                    assert(patches_from(ls, new@, start_i) == seq![patch@] + patches_from(ls, new@, i as int));
                    assert(before.push(patch@) + patches_from(ls, new@, i as int) =~= before + patches_from(ls, new@, start_i));
                }
            },
        }
    }
    assert(patches_from(ls, new@, i as int) =~= Seq::<PatchView>::empty());
    assert(patch_views(patches@) =~= patches_from(ls, new@, 0));
    Ok(patches)
}

// ---------------------------------------------------------------------------
// Applying the patches of a diff gives the new text
// ---------------------------------------------------------------------------

/// Where item `c` of a side starts, or the end of the text after the last item.
spec fn pos_of(sp: Seq<(int, int)>, len: int, c: int) -> int {
    if 0 <= c < sp.len() {
        sp[c].0
    } else {
        len
    }
}

/// The line spans of a text of bytes `bs` are contiguous, non-empty, on
/// character boundaries, and cover it.
spec fn spans_ok(sp: Seq<(int, int)>, bs: Seq<u8>) -> bool {
    &&& valid_utf8(bs)
    &&& forall|j: int| 0 <= j < sp.len() ==> #[trigger] sp[j].0 < sp[j].1
    &&& forall|j: int| 0 < j < sp.len() ==> #[trigger] sp[j].0 == sp[j - 1].1
    &&& forall|j: int| 0 <= j < sp.len() ==> is_char_boundary(bs, #[trigger] sp[j].0)
    &&& forall|j: int| 0 <= j < sp.len() ==> is_char_boundary(bs, #[trigger] sp[j].1)
    &&& sp.len() > 0 ==> sp[0].0 == 0
    &&& sp.len() > 0 ==> sp.last().1 == bs.len()
    &&& sp.len() == 0 ==> bs.len() == 0
}

proof fn lemma_line_spans_ok(text: Seq<char>)
    ensures
        spans_ok(line_spans(text), bytes_of(text)),
{
    let bs = bytes_of(text);
    encode_utf8_valid_utf8(text);
    is_char_boundary_start_end_of_seq(bs);
    lemma_spans_from(bs, 0);
}

proof fn lemma_pos_facts(sp: Seq<(int, int)>, bs: Seq<u8>, c: int)
    requires
        spans_ok(sp, bs),
        0 <= c <= sp.len(),
    ensures
        c < sp.len() ==> sp[c].0 == pos_of(sp, bs.len() as int, c) && sp[c].1 == pos_of(
            sp,
            bs.len() as int,
            c + 1,
        ),
        0 <= pos_of(sp, bs.len() as int, c) <= bs.len(),
        is_char_boundary(bs, pos_of(sp, bs.len() as int, c)),
        pos_of(sp, bs.len() as int, 0) == 0,
        c < sp.len() ==> pos_of(sp, bs.len() as int, c) < pos_of(sp, bs.len() as int, c + 1),
{
    is_char_boundary_start_end_of_seq(bs);
    if c < sp.len() {
        if c > 0 {
            lemma_spans_ordered(sp, 0, c);
        }
        if c + 1 < sp.len() {
            assert(sp[c + 1].0 == sp[c].1);
        }
    }
    if c + 1 < sp.len() && c > 0 {
        lemma_spans_ordered(sp, c, sp.len() - 1);
    }
    if c < sp.len() {
        if c < sp.len() - 1 {
            lemma_spans_ordered(sp, c, sp.len() - 1);
        }
    }
}

/// Applying patches, given in order, by copying the source between them.
spec fn lin(src: Seq<u8>, ps: Seq<PatchView>, c: int) -> Seq<u8>
    decreases ps.len(),
{
    if ps.len() == 0 {
        src.subrange(c, src.len() as int)
    } else {
        src.subrange(c, ps[0].start as int) + ps[0].replacement_bytes() + lin(
            src,
            ps.drop_first(),
            ps[0].end as int,
        )
    }
}

proof fn lemma_lin_skip(src: Seq<u8>, ps: Seq<PatchView>, c: int, c2: int)
    requires
        0 <= c <= c2 <= src.len(),
        ps.len() > 0 ==> c2 <= ps[0].start,
        ps.len() > 0 ==> ps[0].start <= src.len(),
    ensures
        lin(src, ps, c) == src.subrange(c, c2) + lin(src, ps, c2),
{
    if ps.len() == 0 {
        assert(src.subrange(c, src.len() as int) =~= src.subrange(c, c2) + src.subrange(c2, src.len() as int));
    } else {
        let s0 = ps[0].start as int;
        assert(src.subrange(c, s0) =~= src.subrange(c, c2) + src.subrange(c2, s0));
    }
}

/// The patches, in the order given, start after the previous one ends, lie
/// within `src` on character boundaries, and have strictly increasing starts.
spec fn sorted_from(src: Seq<u8>, ps: Seq<PatchView>, c: int) -> bool {
    &&& forall|x: int| 0 <= x < ps.len() ==> (#[trigger] ps[x]).start <= ps[x].end <= src.len()
    &&& forall|x: int| 0 <= x < ps.len() ==> is_char_boundary(src, (#[trigger] ps[x]).start as int)
    &&& forall|x: int| 0 <= x < ps.len() ==> is_char_boundary(src, (#[trigger] ps[x]).end as int)
    &&& ps.len() > 0 ==> ps[0].start >= c
    &&& forall|x: int| 0 < x < ps.len() ==> (#[trigger] ps[x]).start >= ps[x - 1].end && ps[x].start
        > ps[x - 1].start
}

/// The setting of the round trip: the script, the spans, and the diff lines.
spec fn roundtrip_setting(old: Seq<char>, new: Seq<char>, ops: Seq<DiffOp>, ls: Seq<LineView>) -> bool {
    &&& ops == myers_ops(line_texts(old), line_texts(new))
    &&& ls == diff_lines(ops, line_spans(old), line_spans(new))
    &&& script_ok(ops, line_texts(old), line_texts(new))
    &&& no_insert_before_delete(ops)
    &&& spans_ok(line_spans(old), bytes_of(old))
    &&& spans_ok(line_spans(new), bytes_of(new))
    &&& old_consumed(ops) == line_spans(old).len()
    &&& new_consumed(ops) == line_spans(new).len()
    &&& bytes_of(old).len() <= usize::MAX
    &&& bytes_of(new).len() <= usize::MAX
}

spec fn opos(old: Seq<char>, ops: Seq<DiffOp>, i: int) -> int {
    pos_of(line_spans(old), bytes_of(old).len() as int, old_consumed(ops.take(i)))
}

spec fn npos(new: Seq<char>, ops: Seq<DiffOp>, i: int) -> int {
    pos_of(line_spans(new), bytes_of(new).len() as int, new_consumed(ops.take(i)))
}

/// What line `i` says about the positions on both sides.
proof fn lemma_line_positions(old: Seq<char>, new: Seq<char>, ops: Seq<DiffOp>, ls: Seq<LineView>, i: int)
    requires
        roundtrip_setting(old, new, ops, ls),
        0 <= i < ops.len(),
    ensures
        ls[i].op == ops[i],
        line_shape_ok(ls[i]),
        ops[i] != DiffOp::Insert ==> ls[i].old_range == Some((opos(old, ops, i), opos(old, ops, i + 1))),
        ops[i] != DiffOp::Delete ==> ls[i].new_range == Some((npos(new, ops, i), npos(new, ops, i + 1))),
        ops[i] == DiffOp::Insert ==> opos(old, ops, i + 1) == opos(old, ops, i),
        ops[i] == DiffOp::Delete ==> npos(new, ops, i + 1) == npos(new, ops, i),
        ops[i] != DiffOp::Insert ==> opos(old, ops, i) < opos(old, ops, i + 1),
        ops[i] != DiffOp::Delete ==> npos(new, ops, i) < npos(new, ops, i + 1),
{
    let os = line_spans(old);
    let ns = line_spans(new);
    assert(ls[i] == line_at(ops, i, os, ns));
    lemma_consumed_step(ops, i);
    lemma_consumed_mono(ops, i + 1, ops.len() as int);
    lemma_consumed_nonneg(ops.take(i));
    assert(ops.take(ops.len() as int) =~= ops);
    let oc = old_consumed(ops.take(i));
    let nc = new_consumed(ops.take(i));
    if ops[i] != DiffOp::Insert {
        lemma_pos_facts(os, bytes_of(old), oc);
    }
    if ops[i] != DiffOp::Delete {
        lemma_pos_facts(ns, bytes_of(new), nc);
    }
}

/// Positions stay within their texts, on character boundaries, and never go back.
proof fn lemma_positions_bounded(old: Seq<char>, new: Seq<char>, ops: Seq<DiffOp>, ls: Seq<LineView>, i: int)
    requires
        roundtrip_setting(old, new, ops, ls),
        0 <= i <= ops.len(),
    ensures
        0 <= opos(old, ops, i) <= bytes_of(old).len(),
        0 <= npos(new, ops, i) <= bytes_of(new).len(),
        is_char_boundary(bytes_of(old), opos(old, ops, i)),
        is_char_boundary(bytes_of(new), npos(new, ops, i)),
        opos(old, ops, 0) == 0,
        npos(new, ops, 0) == 0,
        opos(old, ops, ops.len() as int) == bytes_of(old).len(),
        npos(new, ops, ops.len() as int) == bytes_of(new).len(),
{
    lemma_consumed_mono(ops, i, ops.len() as int);
    assert(ops.take(ops.len() as int) =~= ops);
    lemma_pos_facts(line_spans(old), bytes_of(old), old_consumed(ops.take(i)));
    lemma_pos_facts(line_spans(new), bytes_of(new), new_consumed(ops.take(i)));
    assert(ops.take(0) =~= Seq::<DiffOp>::empty());
}

proof fn lemma_positions_mono(old: Seq<char>, new: Seq<char>, ops: Seq<DiffOp>, ls: Seq<LineView>, i: int, j: int)
    requires
        roundtrip_setting(old, new, ops, ls),
        0 <= i <= j <= ops.len(),
    ensures
        opos(old, ops, i) <= opos(old, ops, j),
        npos(new, ops, i) <= npos(new, ops, j),
    decreases j - i,
{
    if i < j {
        lemma_positions_mono(old, new, ops, ls, i, j - 1);
        lemma_line_positions(old, new, ops, ls, j - 1);
    }
}

/// An equal line has the same bytes on both sides.
proof fn lemma_equal_line_bytes(old: Seq<char>, new: Seq<char>, ops: Seq<DiffOp>, ls: Seq<LineView>, i: int)
    requires
        roundtrip_setting(old, new, ops, ls),
        0 <= i < ops.len(),
        ops[i] == DiffOp::Equal,
    ensures
        bytes_of(old).subrange(opos(old, ops, i), opos(old, ops, i + 1)) == bytes_of(new).subrange(
            npos(new, ops, i),
            npos(new, ops, i + 1),
        ),
{
    let a = line_texts(old);
    let b = line_texts(new);
    let os = line_spans(old);
    let ns = line_spans(new);
    lemma_line_positions(old, new, ops, ls, i);
    lemma_script_equal_at(ops, a, b, i);
    let oc = old_consumed(ops.take(i));
    let nc = new_consumed(ops.take(i));
    lemma_consumed_step(ops, i);
    lemma_consumed_mono(ops, i + 1, ops.len() as int);
    lemma_consumed_nonneg(ops.take(i));
    assert(ops.take(ops.len() as int) =~= ops);
    let ob = bytes_of(old).subrange(os[oc].0, os[oc].1);
    let nb = bytes_of(new).subrange(ns[nc].0, ns[nc].1);
    lemma_between_valid(bytes_of(old), os[oc].0, os[oc].1);
    lemma_between_valid(bytes_of(new), ns[nc].0, ns[nc].1);
    assert(a[oc] == decode_utf8(ob));
    assert(b[nc] == decode_utf8(nb));
    decode_utf8_encode_utf8(ob);
    decode_utf8_encode_utf8(nb);
}

/// The bytes between two boundaries of a valid encoding are valid.
proof fn lemma_between_valid(bs: Seq<u8>, s: int, e: int)
    requires
        valid_utf8(bs),
        0 <= s <= e <= bs.len(),
        is_char_boundary(bs, s),
        is_char_boundary(bs, e),
    ensures
        valid_utf8(bs.subrange(s, e)),
{
    crate::strutil::lemma_boundary_in_prefix(bs, e, s);
    let pre = bs.subrange(0, e);
    valid_utf8_split(pre, s);
    assert(pre.subrange(s, pre.len() as int) =~= bs.subrange(s, e));
}

/// In a valid script, an equal step pairs equal items.
proof fn lemma_script_equal_at<A>(ops: Seq<DiffOp>, a: Seq<A>, b: Seq<A>, i: int)
    requires
        script_ok(ops, a, b),
        0 <= i < ops.len(),
        ops[i] == DiffOp::Equal,
    ensures
        0 <= old_consumed(ops.take(i)) < a.len(),
        0 <= new_consumed(ops.take(i)) < b.len(),
        a[old_consumed(ops.take(i))] == b[new_consumed(ops.take(i))],
    decreases ops.len(),
{
    lemma_consumed_nonneg(ops.take(i));
    if i == ops.len() - 1 {
        assert(ops.take(i) =~= ops.drop_last());
        lemma_script_consumes(ops.drop_last(), a.drop_last(), b.drop_last());
    } else {
        assert(ops.drop_last().take(i) =~= ops.take(i));
        match ops.last() {
            DiffOp::Equal => lemma_script_equal_at(ops.drop_last(), a.drop_last(), b.drop_last(), i),
            DiffOp::Delete => lemma_script_equal_at(ops.drop_last(), a.drop_last(), b, i),
            DiffOp::Insert => lemma_script_equal_at(ops.drop_last(), a, b.drop_last(), i),
        }
    }
}

proof fn lemma_run_positions(
    old: Seq<char>,
    new: Seq<char>,
    ops: Seq<DiffOp>,
    ls: Seq<LineView>,
    i: int,
    j: int,
    op: DiffOp,
)
    requires
        roundtrip_setting(old, new, ops, ls),
        0 <= i <= j <= ops.len(),
        op != DiffOp::Equal,
        forall|t: int| i <= t < j ==> #[trigger] ops[t] == op,
    ensures
        op == DiffOp::Delete ==> npos(new, ops, j) == npos(new, ops, i),
        op == DiffOp::Insert ==> opos(old, ops, j) == opos(old, ops, i),
        op == DiffOp::Delete && i < j ==> opos(old, ops, i) < opos(old, ops, j),
        op == DiffOp::Insert && i < j ==> npos(new, ops, i) < npos(new, ops, j),
    decreases j - i,
{
    if i < j {
        lemma_run_positions(old, new, ops, ls, i, j - 1, op);
        lemma_line_positions(old, new, ops, ls, j - 1);
        lemma_positions_mono(old, new, ops, ls, i, j - 1);
    }
}

/// Applying the patches for the lines from `i` on, in order, to the old text
/// from the old position of line `i` gives the new text from the new position
/// of line `i`; and those patches are sorted and disjoint.
spec fn apply_ok(old: Seq<char>, new: Seq<char>, ops: Seq<DiffOp>, ls: Seq<LineView>, i: int) -> bool {
    &&& lin(bytes_of(old), patches_from(ls, new, i), opos(old, ops, i)) == bytes_of(new).subrange(
        npos(new, ops, i),
        bytes_of(new).len() as int,
    )
    &&& sorted_from(bytes_of(old), patches_from(ls, new, i), opos(old, ops, i))
    &&& i < ops.len() && ops[i] == DiffOp::Equal && patches_from(ls, new, i).len() > 0
        ==> patches_from(ls, new, i)[0].start > opos(old, ops, i)
}

#[verifier::spinoff_prover]
proof fn lemma_apply_equal(old: Seq<char>, new: Seq<char>, ops: Seq<DiffOp>, ls: Seq<LineView>, i: int)
    requires
        roundtrip_setting(old, new, ops, ls),
        0 <= i < ops.len(),
        !(0 < i < ops.len() && ops[i - 1] == DiffOp::Insert && ops[i] == DiffOp::Insert),
        ops[i] == DiffOp::Equal,
        apply_ok(old, new, ops, ls, i + 1),
    ensures
        apply_ok(old, new, ops, ls, i),
{
    let bo = bytes_of(old);
    let bn = bytes_of(new);
    assert(ls.len() == ops.len());
    lemma_positions_bounded(old, new, ops, ls, i);
    lemma_line_positions(old, new, ops, ls, i);
    lemma_positions_bounded(old, new, ops, ls, i + 1);
        let ps = patches_from(ls, new, i + 1);
        assert(patches_from(ls, new, i) == ps);
        lemma_equal_line_bytes(old, new, ops, ls, i);
        if ps.len() > 0 {
            assert(ps[0].start <= bo.len());
        }
        lemma_lin_skip(bo, ps, opos(old, ops, i), opos(old, ops, i + 1));
        assert(bn.subrange(npos(new, ops, i), bn.len() as int) =~= bn.subrange(
            npos(new, ops, i),
            npos(new, ops, i + 1),
        ) + bn.subrange(npos(new, ops, i + 1), bn.len() as int));
}

#[verifier::spinoff_prover]
proof fn lemma_apply_delete(old: Seq<char>, new: Seq<char>, ops: Seq<DiffOp>, ls: Seq<LineView>, i: int)
    requires
        roundtrip_setting(old, new, ops, ls),
        0 <= i < ops.len(),
        !(0 < i < ops.len() && ops[i - 1] == DiffOp::Insert && ops[i] == DiffOp::Insert),
        ops[i] == DiffOp::Delete,
        run_end(ls, run_end(ls, i, DiffOp::Delete), DiffOp::Insert) <= ops.len(),
        apply_ok(old, new, ops, ls, run_end(ls, run_end(ls, i, DiffOp::Delete), DiffOp::Insert)),
    ensures
        apply_ok(old, new, ops, ls, i),
{
    let bo = bytes_of(old);
    let bn = bytes_of(new);
    assert(ls.len() == ops.len());
    lemma_positions_bounded(old, new, ops, ls, i);
    lemma_line_positions(old, new, ops, ls, i);
    lemma_positions_bounded(old, new, ops, ls, i + 1);
        let de = run_end(ls, i, DiffOp::Delete);
        let ie = run_end(ls, de, DiffOp::Insert);
        lemma_run_end(ls, i, DiffOp::Delete);
        lemma_run_end(ls, de, DiffOp::Insert);
        assert forall|t: int| i <= t < de implies #[trigger] ops[t] == DiffOp::Delete by {
            lemma_line_positions(old, new, ops, ls, t);
        }
        assert forall|t: int| de <= t < ie implies #[trigger] ops[t] == DiffOp::Insert by {
            lemma_line_positions(old, new, ops, ls, t);
        }
        lemma_run_positions(old, new, ops, ls, i, de, DiffOp::Delete);
        lemma_run_positions(old, new, ops, ls, de, ie, DiffOp::Insert);
        lemma_line_positions(old, new, ops, ls, de - 1);
        lemma_positions_bounded(old, new, ops, ls, de);
        lemma_positions_bounded(old, new, ops, ls, ie);
        if ie < ops.len() {
            lemma_line_positions(old, new, ops, ls, ie);
        }
        let rest = patches_from(ls, new, ie);
        let rb = bn.subrange(npos(new, ops, de), npos(new, ops, ie));
        let replacement = if de < ie {
            lemma_line_positions(old, new, ops, ls, de);
            lemma_line_positions(old, new, ops, ls, ie - 1);
            text_between(new, ls[de].new_range.unwrap().0, ls[ie - 1].new_range.unwrap().1)
        } else {
            Seq::empty()
        };
        let p = PatchView {
            start: ls[i].old_range.unwrap().0 as usize,
            end: ls[de - 1].old_range.unwrap().1 as usize,
            replacement,
        };
        assert(patches_from(ls, new, i) == seq![p] + rest);
        assert(p.start == opos(old, ops, i));
        assert(p.end == opos(old, ops, de));
        lemma_between_valid(bn, npos(new, ops, de), npos(new, ops, ie));
        decode_utf8_encode_utf8(rb);
        if de == ie {
            assert(rb =~= Seq::<u8>::empty());
            assert(encode_utf8(Seq::<char>::empty()) =~= Seq::<u8>::empty());
        }
        assert(p.replacement_bytes() == rb);
        let all = seq![p] + rest;
        assert(all[0] == p);
        assert(all.drop_first() =~= rest);
        assert(bo.subrange(opos(old, ops, i), opos(old, ops, i)) =~= Seq::<u8>::empty());
        assert(bn.subrange(npos(new, ops, i), bn.len() as int) =~= rb + bn.subrange(
            npos(new, ops, ie),
            bn.len() as int,
        ));
        assert(lin(bo, all, opos(old, ops, i)) =~= rb + lin(bo, rest, opos(old, ops, ie)));
        assert forall|x: int| 0 < x < all.len() implies (#[trigger] all[x]).start >= all[x - 1].end
            && all[x].start > all[x - 1].start by {
            assert(all[x] == rest[x - 1]);
            if x > 1 {
                assert(all[x - 1] == rest[x - 2]);
            }
        }
        assert forall|x: int| 0 <= x < all.len() implies (#[trigger] all[x]).start <= all[x].end <= bo.len() by {
            if x > 0 {
                assert(all[x] == rest[x - 1]);
            }
        }
        assert forall|x: int| 0 <= x < all.len() implies is_char_boundary(bo, (#[trigger] all[x]).start as int) by {
            if x > 0 {
                assert(all[x] == rest[x - 1]);
            }
        }
        assert forall|x: int| 0 <= x < all.len() implies is_char_boundary(bo, (#[trigger] all[x]).end as int) by {
            if x > 0 {
                assert(all[x] == rest[x - 1]);
            }
        }
}

#[verifier::spinoff_prover]
proof fn lemma_apply_insert(old: Seq<char>, new: Seq<char>, ops: Seq<DiffOp>, ls: Seq<LineView>, i: int)
    requires
        roundtrip_setting(old, new, ops, ls),
        0 <= i < ops.len(),
        !(0 < i < ops.len() && ops[i - 1] == DiffOp::Insert && ops[i] == DiffOp::Insert),
        ops[i] == DiffOp::Insert,
        run_end(ls, i, DiffOp::Insert) <= ops.len(),
        apply_ok(old, new, ops, ls, run_end(ls, i, DiffOp::Insert)),
    ensures
        apply_ok(old, new, ops, ls, i),
{
    let bo = bytes_of(old);
    let bn = bytes_of(new);
    assert(ls.len() == ops.len());
    lemma_positions_bounded(old, new, ops, ls, i);
    lemma_line_positions(old, new, ops, ls, i);
    lemma_positions_bounded(old, new, ops, ls, i + 1);
        let ie = run_end(ls, i, DiffOp::Insert);
        lemma_run_end(ls, i, DiffOp::Insert);
        assert forall|t: int| i <= t < ie implies #[trigger] ops[t] == DiffOp::Insert by {
            lemma_line_positions(old, new, ops, ls, t);
        }
        lemma_run_positions(old, new, ops, ls, i, ie, DiffOp::Insert);
        lemma_line_positions(old, new, ops, ls, ie - 1);
        lemma_positions_bounded(old, new, ops, ls, ie);
        if ie < ops.len() {
            lemma_line_positions(old, new, ops, ls, ie);
            if ops[ie] == DiffOp::Delete {
                assert(ops[ie - 1] == DiffOp::Insert);
                assert(false);
            }
        }
        let rest = patches_from(ls, new, ie);
        let offset = if i > 0 {
            match ls[i - 1].old_range {
                Some(r) => r.1,
                None => 0,
            }
        } else {
            0
        };
        if i > 0 {
            lemma_line_positions(old, new, ops, ls, i - 1);
        }
        assert(offset == opos(old, ops, i));
        let rb = bn.subrange(npos(new, ops, i), npos(new, ops, ie));
        let p = PatchView {
            start: offset as usize,
            end: offset as usize,
            replacement: text_between(
                new,
                ls[i].new_range.unwrap().0,
                ls[ie - 1].new_range.unwrap().1,
            ),
        };
        assert(patches_from(ls, new, i) == seq![p] + rest);
        lemma_between_valid(bn, npos(new, ops, i), npos(new, ops, ie));
        decode_utf8_encode_utf8(rb);
        assert(p.replacement_bytes() == rb);
        let all = seq![p] + rest;
        assert(all[0] == p);
        assert(all.drop_first() =~= rest);
        assert(bo.subrange(opos(old, ops, i), opos(old, ops, i)) =~= Seq::<u8>::empty());
        assert(bn.subrange(npos(new, ops, i), bn.len() as int) =~= rb + bn.subrange(
            npos(new, ops, ie),
            bn.len() as int,
        ));
        assert(lin(bo, all, opos(old, ops, i)) =~= rb + lin(bo, rest, opos(old, ops, ie)));
        assert forall|x: int| 0 < x < all.len() implies (#[trigger] all[x]).start >= all[x - 1].end
            && all[x].start > all[x - 1].start by {
            assert(all[x] == rest[x - 1]);
            if x > 1 {
                assert(all[x - 1] == rest[x - 2]);
            }
        }
        assert forall|x: int| 0 <= x < all.len() implies (#[trigger] all[x]).start <= all[x].end <= bo.len() by {
            if x > 0 {
                assert(all[x] == rest[x - 1]);
            }
        }
        assert forall|x: int| 0 <= x < all.len() implies is_char_boundary(bo, (#[trigger] all[x]).start as int) by {
            if x > 0 {
                assert(all[x] == rest[x - 1]);
            }
        }
        assert forall|x: int| 0 <= x < all.len() implies is_char_boundary(bo, (#[trigger] all[x]).end as int) by {
            if x > 0 {
                assert(all[x] == rest[x - 1]);
            }
        }
}

proof fn lemma_patches_apply(old: Seq<char>, new: Seq<char>, ops: Seq<DiffOp>, ls: Seq<LineView>, i: int)
    requires
        roundtrip_setting(old, new, ops, ls),
        0 <= i <= ops.len(),
        !(0 < i < ops.len() && ops[i - 1] == DiffOp::Insert && ops[i] == DiffOp::Insert),
    ensures
        apply_ok(old, new, ops, ls, i),
    decreases ops.len() - i,
{
    let bo = bytes_of(old);
    let bn = bytes_of(new);
    assert(ls.len() == ops.len());
    lemma_positions_bounded(old, new, ops, ls, i);
    if i == ops.len() {
        assert(bo.subrange(opos(old, ops, i), bo.len() as int) =~= Seq::<u8>::empty());
        assert(bn.subrange(npos(new, ops, i), bn.len() as int) =~= Seq::<u8>::empty());
    } else {
        lemma_line_positions(old, new, ops, ls, i);
        match ops[i] {
            DiffOp::Equal => {
                lemma_patches_apply(old, new, ops, ls, i + 1);
                lemma_apply_equal(old, new, ops, ls, i);
            },
            DiffOp::Delete => {
                let de = run_end(ls, i, DiffOp::Delete);
                let ie = run_end(ls, de, DiffOp::Insert);
                lemma_run_end(ls, i, DiffOp::Delete);
                lemma_run_end(ls, de, DiffOp::Insert);
                if ie < ops.len() {
                    lemma_line_positions(old, new, ops, ls, ie);
                }
                lemma_patches_apply(old, new, ops, ls, ie);
                lemma_apply_delete(old, new, ops, ls, i);
            },
            DiffOp::Insert => {
                let ie = run_end(ls, i, DiffOp::Insert);
                lemma_run_end(ls, i, DiffOp::Insert);
                if ie < ops.len() {
                    lemma_line_positions(old, new, ops, ls, ie);
                }
                lemma_patches_apply(old, new, ops, ls, ie);
                lemma_apply_insert(old, new, ops, ls, i);
            },
        }
    }
}

proof fn lemma_sorted_increasing(src: Seq<u8>, ps: Seq<PatchView>, c: int, x: int, y: int)
    requires
        sorted_from(src, ps, c),
        0 <= x < y < ps.len(),
    ensures
        ps[x].start < ps[y].start,
        ps[x].end <= ps[y].start,
    decreases y - x,
{
    if y > x + 1 {
        lemma_sorted_increasing(src, ps, c, x, y - 1);
    }
    assert(ps[y].start >= ps[y - 1].end && ps[y].start > ps[y - 1].start);
}

proof fn lemma_identity_order(src: Seq<u8>, ps: Seq<PatchView>, c: int)
    requires
        sorted_from(src, ps, c),
    ensures
        patch_order(ps) == Seq::new(ps.len(), |x: int| x),
{
    let o = Seq::new(ps.len(), |x: int| x);
    assert forall|i: int| 0 <= i < ps.len() implies #[trigger] o.contains(i) by {
        assert(o[i] == i);
    }
    assert forall|x: int, y: int| 0 <= x < y < o.len() implies key_lt(ps, #[trigger] o[x], #[trigger] o[y]) by {
        lemma_sorted_increasing(src, ps, c, x, y);
    }
    assert(is_patch_order(ps, o));
    let chosen = patch_order(ps);
    assert(is_patch_order(ps, chosen));
    lemma_order_unique(ps, chosen, o);
}

proof fn lemma_sorted_validate(src: Seq<u8>, ps: Seq<PatchView>, c: int, k: int, prev: Option<int>)
    requires
        sorted_from(src, ps, c),
        0 <= k <= ps.len(),
        prev matches Some(q) ==> 0 <= q < k && (k < ps.len() ==> ps[q].end <= ps[k].start),
    ensures
        validate_from(src, ps, Seq::new(ps.len(), |x: int| x), k, prev) is Ok,
    decreases ps.len() - k,
{
    let o = Seq::new(ps.len(), |x: int| x);
    if k < ps.len() {
        assert(o[k] == k);
        let p = ps[k];
        let next = if p.is_insert() {
            prev
        } else {
            Some(k)
        };
        if k + 1 < ps.len() {
            assert(ps[k + 1].start >= ps[k].end);
        }
        lemma_sorted_validate(src, ps, c, k + 1, next);
    }
}

proof fn lemma_assemble_lin(src: Seq<u8>, ps: Seq<PatchView>, k: int, c: int)
    requires
        0 <= k <= ps.len(),
    ensures
        assemble(src, ps, Seq::new(ps.len(), |x: int| x), k, c) == lin(src, ps.skip(k), c),
    decreases ps.len() - k,
{
    let o = Seq::new(ps.len(), |x: int| x);
    if k == ps.len() {
        assert(ps.skip(k) =~= Seq::<PatchView>::empty());
    } else {
        assert(o[k] == k);
        lemma_assemble_lin(src, ps, k + 1, ps[k].end as int);
        assert(ps.skip(k)[0] == ps[k]);
        assert(ps.skip(k).drop_first() =~= ps.skip(k + 1));
    }
}

/// Diff, then patch: for every pair of texts, the patches made from their
/// line diff lie in the old text on character boundaries without overlapping,
/// and applying them to the old text gives exactly the new text.
pub proof fn lemma_diff_patch_roundtrip(old: Seq<char>, new: Seq<char>)
    requires
        bytes_of(old).len() <= usize::MAX,
        bytes_of(new).len() <= usize::MAX,
    ensures
        inserts_fit(spec_diff(old, new), new),
        spec_validate(bytes_of(old), patches_from(spec_diff(old, new), new, 0)) is Ok,
        spec_apply(bytes_of(old), patches_from(spec_diff(old, new), new, 0)) == bytes_of(new),
{
    let a = line_texts(old);
    let b = line_texts(new);
    let ops = myers_ops(a, b);
    let ls = spec_diff(old, new);
    lemma_myers_ops(a, b);
    lemma_script_consumes(ops, a, b);
    lemma_line_spans_ok(old);
    lemma_line_spans_ok(new);
    assert(roundtrip_setting(old, new, ops, ls));
    assert forall|i: int| 0 <= i < ls.len() && ls[i].op == DiffOp::Insert implies {
        let r = (#[trigger] ls[i]).new_range.unwrap();
        &&& r.1 <= bytes_of(new).len()
        &&& is_char_boundary(bytes_of(new), r.0)
        &&& is_char_boundary(bytes_of(new), r.1)
    } by {
        lemma_line_positions(old, new, ops, ls, i);
        lemma_positions_bounded(old, new, ops, ls, i);
        lemma_positions_bounded(old, new, ops, ls, i + 1);
    }
    lemma_patches_apply(old, new, ops, ls, 0);
    lemma_positions_bounded(old, new, ops, ls, 0);
    let ps = patches_from(ls, new, 0);
    lemma_identity_order(bytes_of(old), ps, 0);
    lemma_sorted_validate(bytes_of(old), ps, 0, 0, None);
    lemma_assemble_lin(bytes_of(old), ps, 0, 0);
    assert(ps.skip(0) =~= ps);
    assert(bytes_of(new).subrange(0, bytes_of(new).len() as int) =~= bytes_of(new));
}

// ---------------------------------------------------------------------------
// Side-by-side layout
// ---------------------------------------------------------------------------

/// Abstract value of one side of a side-by-side row.
pub struct SideView {
    pub line: u32,
    pub op: DiffOp,
    pub range: (int, int),
}

/// One side of a side-by-side diff row.
#[derive(Debug, Clone, PartialEq, Eq)]
pub struct SideLine {
    line: u32,
    op: DiffOp,
    range: ByteRange,
}

impl View for SideLine {
    type V = SideView;

    closed spec fn view(&self) -> SideView {
        SideView { line: self.line, op: self.op, range: self.range@ }
    }
}

impl SideLine {
    pub fn new(line: u32, op: DiffOp, range: ByteRange) -> (r: Self)
        ensures
            r@ == (SideView { line, op, range: range@ }),
    {
        SideLine { line, op, range }
    }

    pub fn line(&self) -> (r: u32)
        ensures
            r == self@.line,
    {
        self.line
    }

    pub fn op(&self) -> (r: DiffOp)
        ensures
            r == self@.op,
    {
        self.op
    }

    pub fn range(&self) -> (r: ByteRange)
        ensures
            r@ == self@.range,
    {
        self.range
    }
}

/// The abstract value of an optional side.
pub open spec fn side_view(s: Option<SideLine>) -> Option<SideView> {
    match s {
        Some(l) => Some(l@),
        None => None,
    }
}

/// Side-by-side diff row pairing left and right lines.
#[derive(Debug, Clone, PartialEq, Eq)]
pub struct SideBySideLine {
    left: Option<SideLine>,
    right: Option<SideLine>,
}

impl View for SideBySideLine {
    type V = (Option<SideView>, Option<SideView>);

    closed spec fn view(&self) -> (Option<SideView>, Option<SideView>) {
        (side_view(self.left), side_view(self.right))
    }
}

impl SideBySideLine {
    pub fn new(left: Option<SideLine>, right: Option<SideLine>) -> (r: Self)
        ensures
            r@ == (side_view(left), side_view(right)),
    {
        SideBySideLine { left, right }
    }

    pub fn left(&self) -> (r: Option<&SideLine>)
        ensures
            match r {
                Some(l) => self@.0 == Some(l@),
                None => self@.0 is None,
            },
    {
        self.left.as_ref()
    }

    pub fn right(&self) -> (r: Option<&SideLine>)
        ensures
            match r {
                Some(l) => self@.1 == Some(l@),
                None => self@.1 is None,
            },
    {
        self.right.as_ref()
    }
}

/// The old side of a line.
pub open spec fn old_side(l: LineView, op: DiffOp) -> SideView {
    SideView { line: l.old_line.unwrap(), op, range: l.old_range.unwrap() }
}

/// The new side of a line.
pub open spec fn new_side(l: LineView, op: DiffOp) -> SideView {
    SideView { line: l.new_line.unwrap(), op, range: l.new_range.unwrap() }
}

/// The side-by-side rows of the lines from `i` on: an equal line shows on
/// both sides; a run of deletes is paired row by row with the run of inserts
/// right after it, the shorter side left empty; a lone insert shows on the right.
pub open spec fn rows_from(ls: Seq<LineView>, i: int) -> Seq<(Option<SideView>, Option<SideView>)>
    decreases ls.len() - i, 0int,
{
    if i < 0 || i >= ls.len() {
        Seq::empty()
    } else {
        match ls[i].op {
            DiffOp::Equal => seq![
                (Some(old_side(ls[i], DiffOp::Equal)), Some(new_side(ls[i], DiffOp::Equal))),
            ] + rows_from(ls, i + 1),
            DiffOp::Delete => {
                let de = run_end(ls, i, DiffOp::Delete);
                let ie = run_end(ls, de, DiffOp::Insert);
                proof {
                    lemma_run_end(ls, i, DiffOp::Delete);
                    lemma_run_end(ls, de, DiffOp::Insert);
                }
                let nd = de - i;
                let ni = ie - de;
                Seq::new(
                    (if nd > ni {
                        nd
                    } else {
                        ni
                    }) as nat,
                    |j: int|
                        (if j < nd {
                            Some(old_side(ls[i + j], DiffOp::Delete))
                        } else {
                            None
                        }, if j < ni {
                            Some(new_side(ls[de + j], DiffOp::Insert))
                        } else {
                            None
                        }),
                ) + rows_from(ls, ie)
            },
            DiffOp::Insert => seq![(None, Some(new_side(ls[i], DiffOp::Insert)))] + rows_from(ls, i + 1),
        }
    }
}

spec fn rows_view(rs: Seq<SideBySideLine>) -> Seq<(Option<SideView>, Option<SideView>)> {
    rs.map_values(|r: SideBySideLine| r@)
}

/// Convert a diff result to side-by-side display rows (see `rows_from`).
#[verifier::spinoff_prover]
pub fn to_side_by_side(result: &DiffResult) -> (r: Vec<SideBySideLine>)
    ensures
        r@.map_values(|x: SideBySideLine| x@) == rows_from(result@, 0),
{
    let lines = result.lines();
    let ghost ls = result@;
    let mut output: Vec<SideBySideLine> = Vec::new();
    let mut i: usize = 0;
    assert(rows_view(output@) + rows_from(ls, 0) =~= rows_from(ls, 0));
    while i < lines.len()
        invariant
            ls == result@,
            lines_view(lines@) == ls,
            lines_shape_ok(ls),
            0 <= i <= lines@.len(),
            rows_view(output@) + rows_from(ls, i as int) == rows_from(ls, 0),
        decreases lines@.len() - i,
    {
        let ghost start_i = i as int;
        let ghost before = rows_view(output@);
        assert(ls[start_i] == lines@[start_i]@);
        assert(line_shape_ok(ls[start_i]));
        match lines[i].op {
            DiffOp::Equal => {
                let l = &lines[i];
                let (ol, or, nl, nr) = match (l.old_line, l.old_range, l.new_line, l.new_range) {
                    (Some(a), Some(b), Some(c), Some(d)) => (a, b, c, d),
                    _ => {
                        assert(false);
                        (0, ByteRange::new(0, 0), 0, ByteRange::new(0, 0))
                    },
                };
                let row = SideBySideLine::new(
                    Some(SideLine::new(ol, DiffOp::Equal, or)),
                    Some(SideLine::new(nl, DiffOp::Equal, nr)),
                );
                output.push(row);
                i = i + 1;
                assert(rows_view(output@) =~= before.push(row@));
                assert(rows_from(ls, start_i) =~= seq![row@] + rows_from(ls, i as int));
                assert(before.push(row@) + rows_from(ls, i as int) =~= before + rows_from(ls, start_i));
            },
            DiffOp::Delete => {
                let delete_start = i;
                let delete_end = skip_run(lines, i, DiffOp::Delete);
                let insert_end = skip_run(lines, delete_end, DiffOp::Insert);
                proof {
                    lemma_run_end(ls, start_i, DiffOp::Delete);
                    lemma_run_end(ls, delete_end as int, DiffOp::Insert);
                }
                let nd = delete_end - delete_start;
                let ni = insert_end - delete_end;
                let max_len = if nd > ni {
                    nd
                } else {
                    ni
                };
                let ghost block = Seq::new(
                    max_len as nat,
                    |j: int|
                        (if j < nd {
                            Some(old_side(ls[start_i + j], DiffOp::Delete))
                        } else {
                            None
                        }, if j < ni {
                            Some(new_side(ls[delete_end + j], DiffOp::Insert))
                        } else {
                            None
                        }),
                );
                let mut j: usize = 0;
                while j < max_len
                    invariant
                        ls == result@,
                        lines_view(lines@) == ls,
                        lines_shape_ok(ls),
                        delete_start == start_i,
                        start_i + nd == delete_end,
                        delete_end + ni == insert_end,
                        insert_end <= lines@.len(),
                        forall|t: int| start_i <= t < delete_end ==> #[trigger] ls[t].op == DiffOp::Delete,
                        forall|t: int| delete_end <= t < insert_end ==> #[trigger] ls[t].op == DiffOp::Insert,
                        max_len == (if nd > ni {
                            nd
                        } else {
                            ni
                        }),
                        block == Seq::new(
                            max_len as nat,
                            |j: int|
                                (if j < nd {
                                    Some(old_side(ls[start_i + j], DiffOp::Delete))
                                } else {
                                    None
                                }, if j < ni {
                                    Some(new_side(ls[delete_end + j], DiffOp::Insert))
                                } else {
                                    None
                                }),
                        ),
                        0 <= j <= max_len,
                        rows_view(output@) == before + block.take(j as int),
                    decreases max_len - j,
                {
                    let left = if j < nd {
                        let d = &lines[delete_start + j];
                        assert(ls[start_i + j] == lines@[start_i + j]@);
                        assert(line_shape_ok(ls[start_i + j]));
                        match (d.old_line, d.old_range) {
                            (Some(a), Some(b)) => Some(SideLine::new(a, DiffOp::Delete, b)),
                            _ => {
                                assert(false);
                                None
                            },
                        }
                    } else {
                        None
                    };
                    let right = if j < ni {
                        let ins = &lines[delete_end + j];
                        assert(ls[delete_end + j] == lines@[delete_end + j]@);
                        assert(line_shape_ok(ls[delete_end + j]));
                        match (ins.new_line, ins.new_range) {
                            (Some(a), Some(b)) => Some(SideLine::new(a, DiffOp::Insert, b)),
                            _ => {
                                assert(false);
                                None
                            },
                        }
                    } else {
                        None
                    };
                    let row = SideBySideLine::new(left, right);
                    let ghost prev = rows_view(output@);
                    output.push(row);
                    assert(row@ == block[j as int]);
                    assert(rows_view(output@) =~= prev.push(row@));
                    assert(block.take(j + 1) =~= block.take(j as int).push(block[j as int]));
                    j = j + 1;
                }
                i = insert_end;
                assert(block.take(j as int) =~= block);
                assert(rows_from(ls, start_i) == block + rows_from(ls, i as int));
                assert(before + block + rows_from(ls, i as int) =~= before + rows_from(ls, start_i));
            },
            DiffOp::Insert => {
                let l = &lines[i];
                let (nl, nr) = match (l.new_line, l.new_range) {
                    (Some(c), Some(d)) => (c, d),
                    _ => {
                        assert(false);
                        (0, ByteRange::new(0, 0))
                    },
                };
                let row = SideBySideLine::new(None, Some(SideLine::new(nl, DiffOp::Insert, nr)));
                output.push(row);
                i = i + 1;
                assert(rows_view(output@) =~= before.push(row@));
                assert(rows_from(ls, start_i) =~= seq![row@] + rows_from(ls, i as int));
                assert(before.push(row@) + rows_from(ls, i as int) =~= before + rows_from(ls, start_i));
            },
        }
    }
    assert(rows_from(ls, i as int) =~= Seq::<(Option<SideView>, Option<SideView>)>::empty());
    assert(rows_view(output@) =~= rows_from(ls, 0));
    output
}

// ---------------------------------------------------------------------------
// Intra-line diff
// ---------------------------------------------------------------------------

/// Character-level diff range within a single line.
#[derive(Debug, Clone, Copy, PartialEq, Eq, Structural)]
pub struct IntraLineRange {
    start: usize,
    end: usize,
    op: DiffOp,
}

impl View for IntraLineRange {
    type V = (int, int, DiffOp);

    closed spec fn view(&self) -> (int, int, DiffOp) {
        (self.start as int, self.end as int, self.op)
    }
}

impl IntraLineRange {
    pub fn new(start: usize, end: usize, op: DiffOp) -> (r: Self)
        ensures
            r@ == (start as int, end as int, op),
    {
        IntraLineRange { start, end, op }
    }

    pub fn start(&self) -> (r: usize)
        ensures
            r == self@.0,
    {
        self.start
    }

    pub fn end(&self) -> (r: usize)
        ensures
            r == self@.1,
    {
        self.end
    }

    pub fn op(&self) -> (r: DiffOp)
        ensures
            r == self@.2,
    {
        self.op
    }
}

/// Character-level diff result for one line pair.
#[derive(Debug, Clone, PartialEq, Eq)]
pub struct IntraLineDiff {
    ranges: Vec<IntraLineRange>,
}

impl View for IntraLineDiff {
    type V = Seq<(int, int, DiffOp)>;

    closed spec fn view(&self) -> Seq<(int, int, DiffOp)> {
        self.ranges@.map_values(|r: IntraLineRange| r@)
    }
}

impl IntraLineDiff {
    pub fn ranges(&self) -> (r: &[IntraLineRange])
        ensures
            r@.map_values(|x: IntraLineRange| x@) == self@,
    {
        self.ranges.as_slice()
    }
}

/// The end of the block of equal operations starting at `i`.
pub open spec fn block_end(ops: Seq<DiffOp>, i: int) -> int
    decreases ops.len() - i,
{
    if 0 <= i && i + 1 < ops.len() && ops[i + 1] == ops[i] {
        block_end(ops, i + 1)
    } else {
        i + 1
    }
}

/// A block covers the operations equal to its first, and the next differs.
pub proof fn lemma_block_end(ops: Seq<DiffOp>, i: int)
    requires
        0 <= i < ops.len(),
    ensures
        i < block_end(ops, i) <= ops.len(),
        forall|t: int| i <= t < block_end(ops, i) ==> #[trigger] ops[t] == ops[i],
        block_end(ops, i) < ops.len() ==> ops[block_end(ops, i)] != ops[i],
    decreases ops.len() - i,
{
    if i + 1 < ops.len() && ops[i + 1] == ops[i] {
        lemma_block_end(ops, i + 1);
    }
}

/// Byte offset in `a` after the items a script prefix of `i` steps consumed.
pub open spec fn old_byte_at(a: Seq<char>, ops: Seq<DiffOp>, i: int) -> int {
    bytes_of(a.take(old_consumed(ops.take(i)))).len() as int
}

/// Byte offset in `b` after the items a script prefix of `i` steps consumed.
pub open spec fn new_byte_at(b: Seq<char>, ops: Seq<DiffOp>, i: int) -> int {
    bytes_of(b.take(new_consumed(ops.take(i)))).len() as int
}

/// The changed byte ranges of the blocks from step `i` on: each block of
/// deletes is a range of old bytes, each block of inserts a range of new bytes.
pub open spec fn intra_from(a: Seq<char>, b: Seq<char>, ops: Seq<DiffOp>, i: int) -> Seq<(int, int, DiffOp)>
    decreases ops.len() - i,
{
    if i < 0 || i >= ops.len() {
        Seq::empty()
    } else {
        let e = block_end(ops, i);
        proof {
            lemma_block_end(ops, i);
        }
        match ops[i] {
            DiffOp::Equal => intra_from(a, b, ops, e),
            DiffOp::Delete => seq![(old_byte_at(a, ops, i), old_byte_at(a, ops, e), DiffOp::Delete)]
                + intra_from(a, b, ops, e),
            DiffOp::Insert => seq![(new_byte_at(b, ops, i), new_byte_at(b, ops, e), DiffOp::Insert)]
                + intra_from(a, b, ops, e),
        }
    }
}

/// The character-level diff of two lines: Myers' script over their characters,
/// as byte ranges of its blocks of deletes and inserts.
pub open spec fn spec_intra(old: Seq<char>, new: Seq<char>) -> Seq<(int, int, DiffOp)> {
    intra_from(old, new, myers_ops(old, new), 0)
}

/// The characters of a string, in a vector.
#[verifier::spinoff_prover]
fn chars_vec(s: &str) -> (r: Vec<char>)
    ensures
        r@ == s@,
{
    let ghost cs = s@;
    let mut out: Vec<char> = Vec::new();
    let mut it = s.chars();
    let ghost mut i: int = 0;
    loop
        invariant
            0 <= i <= cs.len(),
            vstd::std_specs::iter::IteratorSpec::remaining(&it) == cs.skip(i),
            out@ == cs.take(i),
        ensures
            out@ == cs,
        decreases cs.len() - i,
    {
        match it.next() {
            Some(c) => {
                proof {
                    assert(cs.skip(i)[0] == cs[i]);
                    assert(cs.skip(i).drop_first() =~= cs.skip(i + 1));
                    assert(cs.take(i + 1) =~= cs.take(i).push(cs[i]));
                    i = i + 1;
                }
                out.push(c);
            },
            None => {
                assert(cs.take(i) =~= cs);
                break;
            },
        }
    }
    out
}

proof fn lemma_items_chars(v: Seq<char>)
    ensures
        items(v) == v,
{
    assert(items(v) =~= v);
}

/// Run boundaries are block boundaries.
#[verifier::spinoff_prover]
proof fn lemma_run_block(runs: Seq<(DiffOp, usize)>, r: int)
    requires
        runs_ok(runs),
        0 <= r < runs.len(),
    ensures
        block_end(expand(runs), expand(runs.take(r)).len() as int) == expand(runs.take(r + 1)).len(),
        expand(runs.take(r + 1)).len() == expand(runs.take(r)).len() + runs[r].1,
        forall|t: int|
            expand(runs.take(r)).len() <= t < expand(runs.take(r + 1)).len() ==> #[trigger] expand(runs)[t]
                == runs[r].0,
{
    let ops = expand(runs);
    let p = expand(runs.take(r)).len() as int;
    lemma_expand_prefix(runs, r);
    lemma_expand_take(runs, r + 1);
    let q = expand(runs.take(r + 1)).len() as int;
    assert forall|t: int| p <= t < q implies #[trigger] ops[t] == runs[r].0 by {
        assert(expand(runs.take(r + 1))[t] == repeat_op(runs[r].0, runs[r].1 as int)[t - p]);
    }
    assert(runs[r].1 >= 1);
    if q < ops.len() {
        assert(r + 1 < runs.len()) by {
            if r + 1 >= runs.len() {
                assert(runs.take(r + 1) =~= runs);
            }
        }
        lemma_expand_prefix(runs, r + 1);
        lemma_expand_take(runs, r + 2);
        assert(runs[r + 1].1 >= 1);
        assert(expand(runs.take(r + 2))[q] == repeat_op(runs[r + 1].0, runs[r + 1].1 as int)[0]);
        assert(runs[r].0 != runs[r + 1].0);
    } else {
        lemma_expand_take(runs, r + 1);
    }
    lemma_block_end(ops, p);
    let e = block_end(ops, p);
    if e < q {
        assert(ops[e] == runs[r].0);
        assert(ops[p] == runs[r].0);
    }
    if e > q {
        assert(ops[q] == ops[p]);
    }
}

/// Compute a character-level diff between two lines (see `spec_intra`).
#[verifier::spinoff_prover]
#[verifier::rlimit(60)]
pub fn diff_intra_line(old_line: &str, new_line: &str) -> (r: IntraLineDiff)
    requires
        2 * (old_line@.len() + new_line@.len()) + 1 <= isize::MAX,
    ensures
        r@ == spec_intra(old_line@, new_line@),
{
    let old_chars = chars_vec(old_line);
    let new_chars = chars_vec(new_line);
    let ghost a = old_line@;
    let ghost b = new_line@;
    proof {
        lemma_items_chars(old_chars@);
        lemma_items_chars(new_chars@);
    }
    let ops = myers_diff(old_chars.as_slice(), new_chars.as_slice());
    let ghost full = myers_ops(a, b);
    proof {
        lemma_myers_ops(a, b);
        lemma_script_consumes(full, a, b);
        assert(full.take(full.len() as int) =~= full);
        lemma_take_bytes(a, a.len() as int);
        lemma_take_bytes(b, b.len() as int);
        assert(a.take(a.len() as int) =~= a);
        assert(b.take(b.len() as int) =~= b);
    }
    let old_total = old_line.as_bytes().len();
    let new_total = new_line.as_bytes().len();
    let old_count = old_chars.len();
    let new_count = new_chars.len();
    let mut ranges: Vec<IntraLineRange> = Vec::new();
    let mut old_byte: usize = 0;
    let mut new_byte: usize = 0;
    let mut old_ci: usize = 0;
    let mut new_ci: usize = 0;
    let mut r: usize = 0;
    proof {
        assert(ops@.take(0) =~= Seq::<(DiffOp, usize)>::empty());
        assert(full.take(0) =~= Seq::<DiffOp>::empty());
        assert(a.take(0) =~= Seq::<char>::empty());
        assert(b.take(0) =~= Seq::<char>::empty());
        assert(bytes_of(Seq::<char>::empty()) =~= Seq::<u8>::empty());
        assert(ranges@.map_values(|x: IntraLineRange| x@) + intra_from(a, b, full, 0) =~= intra_from(a, b, full, 0));
    }
    while r < ops.len()
        invariant
            a == old_line@,
            b == new_line@,
            old_chars@ == a,
            new_chars@ == b,
            full == myers_ops(a, b),
            expand(ops@) == full,
            runs_ok(ops@),
            old_consumed(full) == a.len(),
            new_consumed(full) == b.len(),
            old_total == bytes_of(a).len(),
            new_total == bytes_of(b).len(),
            old_count == a.len(),
            new_count == b.len(),
            0 <= r <= ops@.len(),
            old_ci == old_consumed(full.take(expand(ops@.take(r as int)).len() as int)),
            new_ci == new_consumed(full.take(expand(ops@.take(r as int)).len() as int)),
            old_byte == old_byte_at(a, full, expand(ops@.take(r as int)).len() as int),
            new_byte == new_byte_at(b, full, expand(ops@.take(r as int)).len() as int),
            expand(ops@.take(r as int)).len() <= full.len(),
            ranges@.map_values(|x: IntraLineRange| x@) + intra_from(a, b, full, expand(ops@.take(r as int)).len() as int)
                == intra_from(a, b, full, 0),
        decreases ops@.len() - r,
    {
        let (op, count) = ops[r];
        let ghost p = expand(ops@.take(r as int)).len() as int;
        let ghost q = expand(ops@.take(r + 1)).len() as int;
        proof {
            lemma_run_block(ops@, r as int);
            lemma_expand_take(ops@, r + 1);
        }
        let start_old = old_byte;
        let start_new = new_byte;
        let mut c: usize = 0;
        while c < count
            invariant
                a == old_line@,
                b == new_line@,
                old_chars@ == a,
                new_chars@ == b,
                full == myers_ops(a, b),
                old_consumed(full) == a.len(),
                new_consumed(full) == b.len(),
                old_total == bytes_of(a).len(),
                new_total == bytes_of(b).len(),
                old_count == a.len(),
                new_count == b.len(),
                0 <= p,
                p + count == q,
                q <= full.len(),
                forall|t: int| p <= t < q ==> #[trigger] full[t] == op,
                0 <= c <= count,
                old_ci == old_consumed(full.take(p + c)),
                new_ci == new_consumed(full.take(p + c)),
                old_byte == old_byte_at(a, full, p + c),
                new_byte == new_byte_at(b, full, p + c),
            decreases count - c,
        {
            proof {
                assert(full[p + c] == op);
                lemma_consumed_step(full, p + c);
                lemma_consumed_mono(full, p + c + 1, full.len() as int);
                assert(full.take(full.len() as int) =~= full);
                lemma_consumed_nonneg(full.take(p + c));
            }
            if op != DiffOp::Insert {
                proof {
                    lemma_take_bytes(a, old_ci as int);
                    lemma_take_bytes(a, old_ci + 1);
                }
                old_byte = old_byte + utf8_len(old_chars[old_ci]);
                old_ci = old_ci + 1;
            }
            if op != DiffOp::Delete {
                proof {
                    lemma_take_bytes(b, new_ci as int);
                    lemma_take_bytes(b, new_ci + 1);
                }
                new_byte = new_byte + utf8_len(new_chars[new_ci]);
                new_ci = new_ci + 1;
            }
            c = c + 1;
        }
        let ghost before = ranges@.map_values(|x: IntraLineRange| x@);
        proof {
            lemma_block_end(full, p);
        }
        if op == DiffOp::Delete {
            ranges.push(IntraLineRange::new(start_old, old_byte, DiffOp::Delete));
            assert(ranges@.map_values(|x: IntraLineRange| x@) =~= before.push((start_old as int, old_byte as int, DiffOp::Delete)));
        } else if op == DiffOp::Insert {
            ranges.push(IntraLineRange::new(start_new, new_byte, DiffOp::Insert));
            assert(ranges@.map_values(|x: IntraLineRange| x@) =~= before.push((start_new as int, new_byte as int, DiffOp::Insert)));
        }
        proof {
            assert(intra_from(a, b, full, p) == intra_from(a, b, full, p).take(intra_from(a, b, full, p).len() as int));
            if op == DiffOp::Equal {
                assert(intra_from(a, b, full, p) == intra_from(a, b, full, q));
            } else if op == DiffOp::Delete {
                assert(intra_from(a, b, full, p) == seq![(start_old as int, old_byte as int, DiffOp::Delete)] + intra_from(a, b, full, q));
                assert(before.push((start_old as int, old_byte as int, DiffOp::Delete)) + intra_from(a, b, full, q) =~= before + intra_from(a, b, full, p));
            } else {
                assert(intra_from(a, b, full, p) == seq![(start_new as int, new_byte as int, DiffOp::Insert)] + intra_from(a, b, full, q));
                assert(before.push((start_new as int, new_byte as int, DiffOp::Insert)) + intra_from(a, b, full, q) =~= before + intra_from(a, b, full, p));
            }
        }
        r = r + 1;
    }
    proof {
        assert(ops@.take(r as int) =~= ops@);
        assert(intra_from(a, b, full, full.len() as int) =~= Seq::<(int, int, DiffOp)>::empty());
        assert(ranges@.map_values(|x: IntraLineRange| x@) =~= intra_from(a, b, full, 0));
    }
    IntraLineDiff { ranges }
}

// ---------------------------------------------------------------------------
// Hunks
// ---------------------------------------------------------------------------

/// Abstract value of a hunk.
pub struct HunkView {
    pub old_start: u32,
    pub old_count: u32,
    pub new_start: u32,
    pub new_count: u32,
    pub lines: Seq<LineView>,
}

/// Group of contiguous changes with surrounding context lines.
#[derive(Debug, Clone, PartialEq, Eq)]
pub struct DiffHunk {
    old_start: u32,
    old_count: u32,
    new_start: u32,
    new_count: u32,
    lines: Vec<DiffLine>,
}

impl View for DiffHunk {
    type V = HunkView;

    closed spec fn view(&self) -> HunkView {
        HunkView {
            old_start: self.old_start,
            old_count: self.old_count,
            new_start: self.new_start,
            new_count: self.new_count,
            lines: lines_view(self.lines@),
        }
    }
}

impl DiffHunk {
    pub fn old_start(&self) -> (r: u32)
        ensures
            r == self@.old_start,
    {
        self.old_start
    }

    pub fn old_count(&self) -> (r: u32)
        ensures
            r == self@.old_count,
    {
        self.old_count
    }

    pub fn new_start(&self) -> (r: u32)
        ensures
            r == self@.new_start,
    {
        self.new_start
    }

    pub fn new_count(&self) -> (r: u32)
        ensures
            r == self@.new_count,
    {
        self.new_count
    }

    pub fn lines(&self) -> (r: &[DiffLine])
        ensures
            lines_view(r@) == self@.lines,
    {
        self.lines.as_slice()
    }
}

/// Indices, below `k`, of the changed (non-equal) lines.
pub open spec fn changes_below(ls: Seq<LineView>, k: int) -> Seq<int>
    decreases k,
{
    if k <= 0 {
        Seq::empty()
    } else if ls[k - 1].op != DiffOp::Equal {
        changes_below(ls, k - 1).push(k - 1)
    } else {
        changes_below(ls, k - 1)
    }
}

/// First context line of a change at `ci`.
pub open spec fn context_lo(ci: int, ctx: int) -> int {
    if ci >= ctx {
        ci - ctx
    } else {
        0
    }
}

/// Last context line of a change at `ci` among `n` lines.
pub open spec fn context_hi(ci: int, ctx: int, n: int) -> int {
    if ci + ctx < n - 1 {
        ci + ctx
    } else {
        n - 1
    }
}

/// After the first `j` changes: the closed groups, and the open group's first
/// and last line. A change whose context starts at most one line after the
/// open group extends it; otherwise the open group closes and a new one opens.
pub open spec fn group_fold(cs: Seq<int>, ctx: int, n: int, j: int) -> (Seq<(int, int)>, int, int)
    decreases j,
{
    if j <= 1 {
        (Seq::empty(), context_lo(cs[0], ctx), context_hi(cs[0], ctx, n))
    } else {
        let prev = group_fold(cs, ctx, n, j - 1);
        let ci = cs[j - 1];
        if context_lo(ci, ctx) <= prev.2 + 1 {
            (prev.0, prev.1, context_hi(ci, ctx, n))
        } else {
            (prev.0.push((prev.1, prev.2)), context_lo(ci, ctx), context_hi(ci, ctx, n))
        }
    }
}

/// Smallest old line number among `ls`, or `u32::MAX` when none has one.
pub open spec fn min_old_line(ls: Seq<LineView>) -> u32
    decreases ls.len(),
{
    if ls.len() == 0 {
        u32::MAX
    } else {
        let m = min_old_line(ls.drop_last());
        match ls.last().old_line {
            Some(ol) => if ol < m {
                ol
            } else {
                m
            },
            None => m,
        }
    }
}

/// Smallest new line number among `ls`, or `u32::MAX` when none has one.
pub open spec fn min_new_line(ls: Seq<LineView>) -> u32
    decreases ls.len(),
{
    if ls.len() == 0 {
        u32::MAX
    } else {
        let m = min_new_line(ls.drop_last());
        match ls.last().new_line {
            Some(nl) => if nl < m {
                nl
            } else {
                m
            },
            None => m,
        }
    }
}

/// Number of lines of `ls` with an old line number.
pub open spec fn old_lines_in(ls: Seq<LineView>) -> int
    decreases ls.len(),
{
    if ls.len() == 0 {
        0
    } else {
        old_lines_in(ls.drop_last()) + if ls.last().old_line is Some {
            1int
        } else {
            0int
        }
    }
}

/// Number of lines of `ls` with a new line number.
pub open spec fn new_lines_in(ls: Seq<LineView>) -> int
    decreases ls.len(),
{
    if ls.len() == 0 {
        0
    } else {
        new_lines_in(ls.drop_last()) + if ls.last().new_line is Some {
            1int
        } else {
            0int
        }
    }
}

/// The hunk of lines `g.0 ..= g.1`: its lines, the smallest old and new line
/// numbers in it (0 when there is none) and how many lines have each.
pub open spec fn hunk_of(ls: Seq<LineView>, g: (int, int)) -> HunkView {
    let hl = ls.subrange(g.0, g.1 + 1);
    HunkView {
        old_start: if min_old_line(hl) == u32::MAX {
            0
        } else {
            min_old_line(hl)
        },
        old_count: old_lines_in(hl) as u32,
        new_start: if min_new_line(hl) == u32::MAX {
            0
        } else {
            min_new_line(hl)
        },
        new_count: new_lines_in(hl) as u32,
        lines: hl,
    }
}

/// The hunks of a diff with `ctx` lines of context: the groups of changes
/// whose context windows touch or overlap.
pub open spec fn spec_hunks(ls: Seq<LineView>, ctx: int) -> Seq<HunkView> {
    let cs = changes_below(ls, ls.len() as int);
    if cs.len() == 0 {
        Seq::empty()
    } else {
        let f = group_fold(cs, ctx, ls.len() as int, cs.len() as int);
        let gs = f.0.push((f.1, f.2));
        Seq::new(gs.len(), |k: int| hunk_of(ls, gs[k]))
    }
}

proof fn lemma_changes_below(ls: Seq<LineView>, k: int)
    requires
        0 <= k <= ls.len(),
    ensures
        forall|x: int| 0 <= x < changes_below(ls, k).len() ==> 0 <= #[trigger] changes_below(ls, k)[x] < k,
        forall|x: int, y: int|
            #![trigger changes_below(ls, k)[x], changes_below(ls, k)[y]]
            0 <= x < y < changes_below(ls, k).len() ==> changes_below(ls, k)[x] < changes_below(ls, k)[y],
        changes_below(ls, k).len() <= k,
    decreases k,
{
    if k > 0 {
        lemma_changes_below(ls, k - 1);
    }
}

proof fn lemma_group_fold(cs: Seq<int>, ctx: int, n: int, j: int)
    requires
        1 <= j <= cs.len(),
        forall|x: int| 0 <= x < cs.len() ==> 0 <= #[trigger] cs[x] < n,
        forall|x: int, y: int| #![trigger cs[x], cs[y]] 0 <= x < y < cs.len() ==> cs[x] < cs[y],
        ctx >= 0,
    ensures
        ({
            let f = group_fold(cs, ctx, n, j);
            &&& 0 <= f.1 <= f.2 < n
            &&& forall|x: int| 0 <= x < f.0.len() ==> 0 <= (#[trigger] f.0[x]).0 <= f.0[x].1 < n
            &&& f.2 == context_hi(cs[j - 1], ctx, n)
        }),
    decreases j,
{
    if j > 1 {
        lemma_group_fold(cs, ctx, n, j - 1);
        assert(cs[j - 2] < cs[j - 1]);
    }
}

impl DiffResult {

/// Group the changes of the diff into hunks with `context_lines` lines of
/// context around each (see `spec_hunks`).
#[verifier::spinoff_prover]
#[verifier::rlimit(60)]
pub fn to_hunks(&self, context_lines: u32) -> (r: Vec<DiffHunk>)
    requires
        self@.len() <= u32::MAX,
        self@.len() + context_lines <= usize::MAX,
    ensures
        r@.map_values(|h: DiffHunk| h@) == spec_hunks(self@, context_lines as int),
{
    proof {
        use_type_invariant(self);
    }
    let ctx = context_lines as usize;
    let n = self.lines.len();
    let ghost ls = self@;
    if n == 0 {
        let r: Vec<DiffHunk> = Vec::new();
        assert(changes_below(ls, 0) =~= Seq::<int>::empty());
        assert(r@.map_values(|h: DiffHunk| h@) =~= spec_hunks(ls, context_lines as int));
        return r;
    }
    let mut change_indices: Vec<usize> = Vec::new();
    let mut k: usize = 0;
    while k < n
        invariant
            n == self.lines@.len(),
            ls == self@,
            ls == lines_view(self.lines@),
            0 <= k <= n,
            change_indices@.map_values(|x: usize| x as int) == changes_below(ls, k as int),
        decreases n - k,
    {
        let ghost before = change_indices@.map_values(|x: usize| x as int);
        assert(ls[k as int] == self.lines@[k as int]@);
        if self.lines[k].op != DiffOp::Equal {
            change_indices.push(k);
            assert(change_indices@.map_values(|x: usize| x as int) =~= before.push(k as int));
        }
        k = k + 1;
    }
    let ghost cs = changes_below(ls, n as int);
    proof {
        lemma_changes_below(ls, n as int);
    }
    if change_indices.len() == 0 {
        let r: Vec<DiffHunk> = Vec::new();
        assert(r@.map_values(|h: DiffHunk| h@) =~= spec_hunks(ls, context_lines as int));
        return r;
    }
    assert(cs[0] == change_indices@[0] as int);
    let mut groups: Vec<(usize, usize)> = Vec::new();
    let c0 = change_indices[0];
    let mut group_start: usize = c0.saturating_sub(ctx);
    let mut group_end: usize = if c0 + ctx < n - 1 {
        c0 + ctx
    } else {
        n - 1
    };
    let mut j: usize = 1;
    proof {
        lemma_group_fold(cs, ctx as int, n as int, 1);
    }
    while j < change_indices.len()
        invariant
            n == self.lines@.len(),
            ls == self@,
            cs == changes_below(ls, n as int),
            change_indices@.map_values(|x: usize| x as int) == cs,
            forall|x: int| 0 <= x < cs.len() ==> 0 <= #[trigger] cs[x] < n,
            forall|x: int, y: int| #![trigger cs[x], cs[y]] 0 <= x < y < cs.len() ==> cs[x] < cs[y],
            n + ctx <= usize::MAX,
            ctx == context_lines,
            1 <= j <= cs.len(),
            groups@.map_values(|g: (usize, usize)| (g.0 as int, g.1 as int)) == group_fold(cs, ctx as int, n as int, j as int).0,
            group_start == group_fold(cs, ctx as int, n as int, j as int).1,
            group_end == group_fold(cs, ctx as int, n as int, j as int).2,
        decreases cs.len() - j,
    {
        let ci = change_indices[j];
        assert(cs[j as int] == ci as int);
        proof {
            lemma_group_fold(cs, ctx as int, n as int, j as int);
        }
        let lo = ci.saturating_sub(ctx);
        let hi = if ci + ctx < n - 1 {
            ci + ctx
        } else {
            n - 1
        };
        if lo <= group_end + 1 {
            group_end = hi;
        } else {
            let ghost before = groups@.map_values(|g: (usize, usize)| (g.0 as int, g.1 as int));
            groups.push((group_start, group_end));
            assert(groups@.map_values(|g: (usize, usize)| (g.0 as int, g.1 as int)) =~= before.push(
                (group_start as int, group_end as int),
            ));
            group_start = lo;
            group_end = hi;
        }
        j = j + 1;
    }
    proof {
        lemma_group_fold(cs, ctx as int, n as int, cs.len() as int);
    }
    let ghost before = groups@.map_values(|g: (usize, usize)| (g.0 as int, g.1 as int));
    groups.push((group_start, group_end));
    let ghost gs = groups@.map_values(|g: (usize, usize)| (g.0 as int, g.1 as int));
    assert(gs =~= before.push((group_start as int, group_end as int)));
    let mut hunks: Vec<DiffHunk> = Vec::new();
    let mut g: usize = 0;
    while g < groups.len()
        invariant
            n == self.lines@.len(),
            n <= u32::MAX,
            ls == self@,
            ls == lines_view(self.lines@),
            gs == groups@.map_values(|g: (usize, usize)| (g.0 as int, g.1 as int)),
            forall|x: int| 0 <= x < gs.len() ==> 0 <= (#[trigger] gs[x]).0 <= gs[x].1 < n,
            0 <= g <= gs.len(),
            hunks@.map_values(|h: DiffHunk| h@) == Seq::new(g as nat, |k: int| hunk_of(ls, gs[k])),
        decreases gs.len() - g,
    {
        let (start, end) = groups[g];
        assert(gs[g as int] == (start as int, end as int));
        let hunk = self.make_hunk(start, end);
        let ghost before_h = hunks@.map_values(|h: DiffHunk| h@);
        hunks.push(hunk);
        assert(hunks@.map_values(|h: DiffHunk| h@) =~= before_h.push(hunk@));
        assert(hunk@ == hunk_of(ls, gs[g as int]));
        assert(hunks@.map_values(|h: DiffHunk| h@) =~= Seq::new((g + 1) as nat, |k: int| hunk_of(ls, gs[k])));
        g = g + 1;
    }
    assert(hunks@.map_values(|h: DiffHunk| h@) =~= spec_hunks(ls, context_lines as int));
    hunks
}

/// The hunk of lines `start ..= end`.
#[verifier::spinoff_prover]
fn make_hunk(&self, start: usize, end: usize) -> (r: DiffHunk)
    requires
        start <= end < self@.len(),
        self@.len() <= u32::MAX,
    ensures
        r@ == hunk_of(self@, (start as int, end as int)),
{
    let ghost ls = self@;
    let ghost hl = ls.subrange(start as int, end + 1);
    let mut hunk_lines: Vec<DiffLine> = Vec::new();
    let mut old_start: u32 = u32::MAX;
    let mut old_count: u32 = 0;
    let mut new_start: u32 = u32::MAX;
    let mut new_count: u32 = 0;
    let mut i: usize = start;
    assert(hl.take(0) =~= Seq::<LineView>::empty());
    while i <= end
        invariant
            ls == self@,
            ls == lines_view(self.lines@),
            hl == ls.subrange(start as int, end + 1),
            start <= i <= end + 1,
            end < ls.len(),
            ls.len() <= u32::MAX,
            lines_view(hunk_lines@) == hl.take(i - start),
            old_start == min_old_line(hl.take(i - start)),
            new_start == min_new_line(hl.take(i - start)),
            old_count == old_lines_in(hl.take(i - start)),
            new_count == new_lines_in(hl.take(i - start)),
            old_lines_in(hl.take(i - start)) <= i - start,
            new_lines_in(hl.take(i - start)) <= i - start,
        decreases end + 1 - i,
    {
        let line = copy_line(&self.lines[i]);
        let ghost t = hl.take(i - start + 1);
        assert(ls[i as int] == self.lines@[i as int]@);
        assert(t.drop_last() =~= hl.take(i - start));
        assert(t.last() == line@);
        if let Some(ol) = line.old_line {
            if ol < old_start {
                old_start = ol;
            }
            old_count = old_count + 1;
        }
        if let Some(nl) = line.new_line {
            if nl < new_start {
                new_start = nl;
            }
            new_count = new_count + 1;
        }
        let ghost before = lines_view(hunk_lines@);
        hunk_lines.push(line);
        assert(lines_view(hunk_lines@) =~= before.push(line@));
        i = i + 1;
    }
    assert(hl.take(i - start) =~= hl);
    if old_start == u32::MAX {
        old_start = 0;
    }
    if new_start == u32::MAX {
        new_start = 0;
    }
    DiffHunk { old_start, old_count, new_start, new_count, lines: hunk_lines }
}

}

} // verus!
