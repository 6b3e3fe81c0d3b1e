//! Where the bar sits on a taskbar and where each module sits on the bar.

use vstd::prelude::*;
use crate::taskbar::Rect;

verus! {

/// The smallest of `obstacles` and `cap`.
pub open spec fn min_with(obstacles: Seq<i32>, cap: int) -> int
    decreases obstacles.len(),
{
    if obstacles.len() == 0 {
        cap
    } else {
        let rest = min_with(obstacles.drop_last(), cap);
        if (obstacles.last() as int) < rest {
            obstacles.last() as int
        } else {
            rest
        }
    }
}

/// The right boundary (screen coordinates) the bar must stay left of: the
/// leftmost obstacle, but never further right than the taskbar's right edge
/// minus the reserve.
pub open spec fn boundary(taskbar_left: int, taskbar_width: int, obstacles: Seq<i32>, right_reserve: int) -> int {
    min_with(obstacles, taskbar_left + taskbar_width - right_reserve)
}

/// Taskbar-client x of the bar: `gap` pixels left of the boundary, clamped to 0.
pub open spec fn spec_compute_x(
    taskbar_left: int,
    taskbar_width: int,
    obstacles: Seq<i32>,
    width: int,
    gap: int,
    right_reserve: int,
) -> int {
    let x = boundary(taskbar_left, taskbar_width, obstacles, right_reserve) - taskbar_left - gap - width;
    if x > 0 { x } else { 0 }
}

/// True when every step of the placement arithmetic fits in an `i32`.
pub open spec fn compute_x_fits(
    taskbar_left: int,
    taskbar_width: int,
    obstacles: Seq<i32>,
    width: int,
    gap: int,
    right_reserve: int,
) -> bool {
    let b = boundary(taskbar_left, taskbar_width, obstacles, right_reserve);
    &&& i32::MIN <= taskbar_left + taskbar_width <= i32::MAX
    &&& i32::MIN <= taskbar_left + taskbar_width - right_reserve <= i32::MAX
    &&& i32::MIN <= b - taskbar_left <= i32::MAX
    &&& i32::MIN <= b - taskbar_left - gap <= i32::MAX
    &&& i32::MIN <= b - taskbar_left - gap - width <= i32::MAX
}

proof fn lemma_min_with_bounds(obstacles: Seq<i32>, cap: int)
    ensures
        min_with(obstacles, cap) <= cap,
        forall|k: int| 0 <= k < obstacles.len() ==> min_with(obstacles, cap) <= obstacles[k],
        min_with(obstacles, cap) == cap || exists|k: int|
            0 <= k < obstacles.len() && min_with(obstacles, cap) == obstacles[k],
    decreases obstacles.len(),
{
    if obstacles.len() > 0 {
        lemma_min_with_bounds(obstacles.drop_last(), cap);
        let rest = min_with(obstacles.drop_last(), cap);
        if rest != cap {
            let k = choose|k: int| 0 <= k < obstacles.drop_last().len() && rest == obstacles.drop_last()[k];
            assert(obstacles[k] == obstacles.drop_last()[k]);
        }
        assert forall|k: int| 0 <= k < obstacles.len() implies min_with(obstacles, cap) <= obstacles[k] by {
            if k < obstacles.len() - 1 {
                assert(obstacles[k] == obstacles.drop_last()[k]);
            }
        }
    }
}

/// Compute the child-relative x for the bar window so its right edge sits
/// `gap` pixels to the left of the nearest obstacle (the tray, embedded apps).
///
/// `taskbar_left` is the taskbar's screen left edge; `obstacle_lefts` are the
/// obstacles' screen left edges. `right_reserve` keeps that many pixels free at
/// the taskbar's right edge (the Windows 11 secondary-taskbar clock, which has
/// no window to detect). The result is relative to `taskbar_left` and never
/// negative; with no obstacles the bar parks at the far right.
pub fn compute_x(
    taskbar_left: i32,
    taskbar_width: i32,
    obstacle_lefts: &[i32],
    width: i32,
    gap: i32,
    right_reserve: i32,
) -> (x: i32)
    requires
        compute_x_fits(
            taskbar_left as int,
            taskbar_width as int,
            obstacle_lefts@,
            width as int,
            gap as int,
            right_reserve as int,
        ),
    ensures
        x == spec_compute_x(
            taskbar_left as int,
            taskbar_width as int,
            obstacle_lefts@,
            width as int,
            gap as int,
            right_reserve as int,
        ),
        x >= 0,
{
    let cap = taskbar_left + taskbar_width - right_reserve;
    let mut boundary_screen = cap;
    let mut k: usize = 0;
    while k < obstacle_lefts.len()
        invariant
            k <= obstacle_lefts@.len(),
            boundary_screen as int == min_with(obstacle_lefts@.take(k as int), cap as int),
        decreases obstacle_lefts@.len() - k,
    {
        assert(obstacle_lefts@.take(k + 1).drop_last() =~= obstacle_lefts@.take(k as int));
        if obstacle_lefts[k] < boundary_screen {
            boundary_screen = obstacle_lefts[k];
        }
        k = k + 1;
    }
    assert(obstacle_lefts@.take(k as int) =~= obstacle_lefts@);
    let boundary_client = boundary_screen - taskbar_left;
    let x = boundary_client - gap - width;
    if x > 0 {
        x
    } else {
        0
    }
}

/// The sum of the first `k` widths.
pub open spec fn prefix_sum(widths: Seq<i32>, k: int) -> int
    decreases k,
{
    if k <= 0 {
        0
    } else {
        prefix_sum(widths, k - 1) + widths[k - 1]
    }
}

/// Every running total of `widths` fits in an `i32`.
pub open spec fn prefix_sums_fit(widths: Seq<i32>) -> bool {
    forall|k: int| 0 <= k <= widths.len() ==> i32::MIN <= #[trigger] prefix_sum(widths, k) <= i32::MAX
}

/// Pack module widths left to right with no extra gaps (each width already
/// includes its own padding and margin). Returns each module's left offset
/// within the bar and the total bar width.
pub fn place_modules(widths: &[i32]) -> (placed: (Vec<i32>, i32))
    requires
        prefix_sums_fit(widths@),
    ensures
        placed.0@.len() == widths@.len(),
        forall|k: int| 0 <= k < widths@.len() ==> placed.0@[k] == prefix_sum(widths@, k),
        placed.1 == prefix_sum(widths@, widths@.len() as int),
{
    let mut offsets: Vec<i32> = Vec::new();
    let mut x: i32 = 0;
    let mut k: usize = 0;
    while k < widths.len()
        invariant
            k <= widths@.len(),
            prefix_sums_fit(widths@),
            offsets@.len() == k,
            forall|j: int| 0 <= j < k ==> offsets@[j] == prefix_sum(widths@, j),
            x == prefix_sum(widths@, k as int),
        decreases widths@.len() - k,
    {
        offsets.push(x);
        assert(prefix_sum(widths@, k + 1) == prefix_sum(widths@, k as int) + widths@[k as int]);
        assert(i32::MIN <= prefix_sum(widths@, k + 1) <= i32::MAX);
        x = x + widths[k];
        k = k + 1;
    }
    (offsets, x)
}

/// Unless clamped at the taskbar's left edge, the bar ends exactly `gap`
/// pixels left of its boundary, so it clears every obstacle and the reserved
/// right edge by at least `gap`.
pub proof fn lemma_bar_clears_obstacles(
    taskbar_left: int,
    taskbar_width: int,
    obstacles: Seq<i32>,
    width: int,
    gap: int,
    right_reserve: int,
)
    ensures
        spec_compute_x(taskbar_left, taskbar_width, obstacles, width, gap, right_reserve) >= 0,
        spec_compute_x(taskbar_left, taskbar_width, obstacles, width, gap, right_reserve) > 0 ==> {
            let end = taskbar_left + spec_compute_x(
                taskbar_left,
                taskbar_width,
                obstacles,
                width,
                gap,
                right_reserve,
            ) + width + gap;
            &&& end == boundary(taskbar_left, taskbar_width, obstacles, right_reserve)
            &&& end <= taskbar_left + taskbar_width - right_reserve
            &&& forall|k: int| 0 <= k < obstacles.len() ==> end <= obstacles[k]
        },
{
    lemma_min_with_bounds(obstacles, taskbar_left + taskbar_width - right_reserve);
}

/// Placed modules abut: each starts where the one before it ends, and the bar
/// ends where the last one does.
pub proof fn lemma_modules_abut(widths: Seq<i32>, k: int)
    requires
        0 <= k < widths.len(),
    ensures
        prefix_sum(widths, k + 1) == prefix_sum(widths, k) + widths[k],
{
}

/// Half of `w`, rounded toward zero.
pub open spec fn half(w: int) -> int {
    if w >= 0 {
        w / 2
    } else {
        -((-w) / 2)
    }
}

/// Whether a sibling window blocks the bar: it starts in the taskbar's right
/// half and is narrower than the taskbar (which leaves out the full-width
/// content host).
pub open spec fn is_obstacle(taskbar_left: int, taskbar_width: int, r: Rect) -> bool {
    r.left > taskbar_left + half(taskbar_width) && r.right - r.left < taskbar_width
}

/// The left edges of the obstacles among `siblings`, in order.
pub open spec fn obstacles_of(taskbar_left: int, taskbar_width: int, siblings: Seq<Rect>) -> Seq<i32>
    decreases siblings.len(),
{
    if siblings.len() == 0 {
        seq![]
    } else {
        let rest = obstacles_of(taskbar_left, taskbar_width, siblings.drop_last());
        if is_obstacle(taskbar_left, taskbar_width, siblings.last()) {
            rest.push(siblings.last().left)
        } else {
            rest
        }
    }
}

/// True when the obstacle test's arithmetic fits in an `i32` for every
/// sibling.
pub open spec fn obstacle_test_fits(taskbar_left: int, taskbar_width: int, siblings: Seq<Rect>) -> bool {
    &&& i32::MIN <= taskbar_left + half(taskbar_width) <= i32::MAX
    &&& forall|k: int|
        0 <= k < siblings.len() ==> i32::MIN <= (#[trigger] siblings[k]).right - siblings[k].left
            <= i32::MAX
}

/// The left edges of the windows that keep the bar to their left, among the
/// taskbar's visible sibling windows (the bar itself left out): those that
/// start in the taskbar's right half and are narrower than the taskbar.
pub fn obstacle_lefts(taskbar_left: i32, taskbar_width: i32, siblings: &[Rect]) -> (r: Vec<i32>)
    requires
        obstacle_test_fits(taskbar_left as int, taskbar_width as int, siblings@),
    ensures
        r@ == obstacles_of(taskbar_left as int, taskbar_width as int, siblings@),
{
    let mid = taskbar_left + taskbar_width / 2;
    assert(mid as int == taskbar_left + half(taskbar_width as int));
    let mut r: Vec<i32> = Vec::new();
    let mut k: usize = 0;
    assert(siblings@.take(0) =~= seq![]);
    while k < siblings.len()
        invariant
            k <= siblings@.len(),
            mid as int == taskbar_left + half(taskbar_width as int),
            obstacle_test_fits(taskbar_left as int, taskbar_width as int, siblings@),
            r@ == obstacles_of(taskbar_left as int, taskbar_width as int, siblings@.take(k as int)),
        decreases siblings@.len() - k,
    {
        let s = siblings[k];
        assert(siblings@.take(k + 1).drop_last() =~= siblings@.take(k as int));
        assert(siblings@.take(k + 1).last() == s);
        if s.left > mid && s.right - s.left < taskbar_width {
            r.push(s.left);
        }
        k = k + 1;
    }
    assert(siblings@.take(k as int) =~= siblings@);
    r
}


/// Where the bar should move, if anywhere: its place left of the obstacles
/// among `siblings` (see [`obstacle_lefts`] and [`compute_x`]), at the
/// taskbar's full height; `None` when it already sits at that x (`cur_x`,
/// relative to the taskbar) with that height (`cur_h`).
pub fn bar_target(
    taskbar_left: i32,
    taskbar_width: i32,
    taskbar_height: i32,
    siblings: &[Rect],
    width: i32,
    gap: i32,
    right_reserve: i32,
    cur_x: i32,
    cur_h: i32,
) -> (m: Option<i32>)
    requires
        obstacle_test_fits(taskbar_left as int, taskbar_width as int, siblings@),
        compute_x_fits(
            taskbar_left as int,
            taskbar_width as int,
            obstacles_of(taskbar_left as int, taskbar_width as int, siblings@),
            width as int,
            gap as int,
            right_reserve as int,
        ),
    ensures
        ({
            let x = spec_compute_x(
                taskbar_left as int,
                taskbar_width as int,
                obstacles_of(taskbar_left as int, taskbar_width as int, siblings@),
                width as int,
                gap as int,
                right_reserve as int,
            );
            m == if cur_x != x || cur_h != taskbar_height {
                Some(x as i32)
            } else {
                None::<i32>
            }
        }),
{
    let obstacles = obstacle_lefts(taskbar_left, taskbar_width, siblings);
    let x = compute_x(taskbar_left, taskbar_width, obstacles.as_slice(), width, gap, right_reserve);
    if cur_x != x || cur_h != taskbar_height {
        Some(x)
    } else {
        None
    }
}

} // verus!
