//! The motion watchdog: a sparse pixel-difference scan between two frames.
use vstd::prelude::*;

verus! {

/// Absolute intensity difference above which a sample counts as changed.
pub const DIFF_THRESHOLD: i32 = 30;

/// Number of changed samples that must be exceeded to report motion.
pub const SENSITIVITY: u32 = 50;

/// The bounding box of the changed samples.
#[derive(Debug, Clone, Copy, PartialEq, Eq, Structural)]
pub struct MotionROI {
    pub x: u32,
    pub y: u32,
    pub w: u32,
    pub h: u32,
}

/// The byte offset of the `k`-th sample.
pub open spec fn sample_pos(stride: int, k: int) -> int {
    k * stride
}

/// Number of samples taken from a buffer of `len` bytes.
pub open spec fn sample_count(len: int, stride: int) -> int {
    (len + stride - 1) / stride
}

/// Whether sample `k` differs between the two buffers by more than the threshold.
pub open spec fn is_changed(current: Seq<u8>, reference: Seq<u8>, stride: int, k: int) -> bool {
    let i = sample_pos(stride, k);
    let d = current[i] as int - reference[i] as int;
    d > DIFF_THRESHOLD as int || d < -(DIFF_THRESHOLD as int)
}

/// Column of the pixel that sample `k` lies in.
pub open spec fn sample_x(stride: int, width: int, k: int) -> int {
    (sample_pos(stride, k) / 3) % width
}

/// Row of the pixel that sample `k` lies in.
pub open spec fn sample_y(stride: int, width: int, k: int) -> int {
    (sample_pos(stride, k) / 3) / width
}

/// Number of changed samples among the first `n`.
pub open spec fn changed_count(current: Seq<u8>, reference: Seq<u8>, stride: int, n: int) -> int
    decreases n,
{
    if n <= 0 {
        0
    } else {
        changed_count(current, reference, stride, n - 1) + if is_changed(current, reference, stride, n - 1) {
            1int
        } else {
            0int
        }
    }
}

/// The box `roi` contains every changed sample and each of its four edges
/// is attained by one of them: it is the tight bounding box.
pub open spec fn is_tight_box(
    current: Seq<u8>,
    reference: Seq<u8>,
    stride: int,
    width: int,
    roi: MotionROI,
) -> bool {
    let n = sample_count(current.len() as int, stride);
    &&& forall|k: int|
        0 <= k < n && #[trigger] is_changed(current, reference, stride, k) ==> {
            &&& roi.x <= sample_x(stride, width, k) <= roi.x + roi.w
            &&& roi.y <= sample_y(stride, width, k) <= roi.y + roi.h
        }
    &&& exists|k: int|
        0 <= k < n && #[trigger] is_changed(current, reference, stride, k) && sample_x(stride, width, k) == roi.x
    &&& exists|k: int|
        0 <= k < n && #[trigger] is_changed(current, reference, stride, k) && sample_x(stride, width, k) == roi.x + roi.w
    &&& exists|k: int|
        0 <= k < n && #[trigger] is_changed(current, reference, stride, k) && sample_y(stride, width, k) == roi.y
    &&& exists|k: int|
        0 <= k < n && #[trigger] is_changed(current, reference, stride, k) && sample_y(stride, width, k) == roi.y + roi.h
}

/// The `k`-th sample lies inside a buffer of `len` bytes exactly when `k`
/// is below the number of samples.
pub proof fn lemma_sample_bound(len: int, stride: int, k: int)
    requires
        len >= 0,
        stride > 0,
        k >= 0,
    ensures
        (k < sample_count(len, stride)) == (k * stride < len),
        0 <= sample_count(len, stride) <= len,
{
    if len == 0 {
        assert(sample_count(len, stride) == 0) by (nonlinear_arith)
            requires len == 0, stride > 0;
        assert(k * stride >= 0) by (nonlinear_arith)
            requires k >= 0, stride > 0;
    } else {
        let c = sample_count(len, stride);
        assert(c * stride <= len + stride - 1 < c * stride + stride) by (nonlinear_arith)
            requires c == (len + stride - 1) / stride, stride > 0, len > 0;
        assert(0 <= c <= len) by (nonlinear_arith)
            requires c == (len + stride - 1) / stride, c * stride <= len + stride - 1, stride > 0, len > 0;
        if k < c {
            assert(k * stride <= c * stride - stride) by (nonlinear_arith)
                requires k <= c - 1, stride > 0;
        } else {
            assert(k * stride >= c * stride) by (nonlinear_arith)
                requires k >= c, stride > 0;
        }
    }
}

/// `r` is the watchdog's report on the two buffers: no motion when their
/// lengths differ or at most `SENSITIVITY` samples changed, else the tight
/// box around the changed samples.
pub open spec fn is_motion_report(
    current: Seq<u8>,
    reference: Seq<u8>,
    width: int,
    step: int,
    r: Option<MotionROI>,
) -> bool {
    let stride = 3 * step;
    let n = sample_count(current.len() as int, stride);
    if current.len() != reference.len() {
        r is None
    } else {
        match r {
            None => changed_count(current, reference, stride, n) <= SENSITIVITY,
            Some(roi) => changed_count(current, reference, stride, n) > SENSITIVITY && is_tight_box(
                current,
                reference,
                stride,
                width,
                roi,
            ),
        }
    }
}

/// Scans every `step`-th pixel of the first channel of two frames and
/// reports the bounding box of the changed samples when more than
/// `SENSITIVITY` of them changed. Buffers of unequal length never report motion.
pub fn calculate_motion_bbox(
    current: &[u8],
    reference: &[u8],
    width: usize,
    height: usize,
    step: usize,
) -> (r: Option<MotionROI>)
    requires
        width > 0,
        step > 0,
        step * 3 <= usize::MAX,
        current@.len() <= u32::MAX,
    ensures
        is_motion_report(current@, reference@, width as int, step as int, r),
{
    if current.len() != reference.len() {
        return None;
    }
    let stride: usize = step * 3;
    let limit: usize = current.len();
    let ghost s = stride as int;
    let ghost n = sample_count(limit as int, s);
    proof {
        lemma_sample_bound(limit as int, s, 0);
    }
    let mut diff_count: u32 = 0;
    let mut min_x: usize = width;
    let mut max_x: usize = 0;
    let mut min_y: usize = usize::MAX;
    let mut max_y: usize = 0;
    let mut i: usize = 0;
    let mut k: usize = 0;
    while i < limit
        invariant
            stride == 3 * step,
            s == stride as int,
            stride > 0,
            limit == current@.len(),
            limit == reference@.len(),
            limit <= u32::MAX,
            n == sample_count(limit as int, s),
            n <= limit,
            width > 0,
            k <= n,
            k < n ==> i == k * stride && i < limit,
            k == n ==> i == limit,
            diff_count == changed_count(current@, reference@, s, k as int),
            diff_count <= k,
            diff_count == 0 ==> min_x == width && max_x == 0 && min_y == usize::MAX && max_y == 0,
            diff_count == 0 ==> forall|j: int| 0 <= j < k ==> !#[trigger] is_changed(current@, reference@, s, j),
            diff_count > 0 ==> min_x <= max_x < limit,
            diff_count > 0 ==> min_y <= max_y < limit,
            diff_count > 0 ==> forall|j: int|
                0 <= j < k && #[trigger] is_changed(current@, reference@, s, j) ==> {
                    &&& min_x <= sample_x(s, width as int, j) <= max_x
                    &&& min_y <= sample_y(s, width as int, j) <= max_y
                },
            diff_count > 0 ==> exists|j: int| 0 <= j < k && #[trigger] is_changed(current@, reference@, s, j) && sample_x(s, width as int, j) == min_x,
            diff_count > 0 ==> exists|j: int| 0 <= j < k && #[trigger] is_changed(current@, reference@, s, j) && sample_x(s, width as int, j) == max_x,
            diff_count > 0 ==> exists|j: int| 0 <= j < k && #[trigger] is_changed(current@, reference@, s, j) && sample_y(s, width as int, j) == min_y,
            diff_count > 0 ==> exists|j: int| 0 <= j < k && #[trigger] is_changed(current@, reference@, s, j) && sample_y(s, width as int, j) == max_y,
        decreases limit - i,
    {
        let val_c = current[i] as i32;
        let val_ref = reference[i] as i32;
        let d = val_c - val_ref;
        if d > DIFF_THRESHOLD || d < -DIFF_THRESHOLD {
            let pixel_idx = i / 3;
            let x = pixel_idx % width;
            let y = pixel_idx / width;
            proof {
                assert(sample_x(s, width as int, k as int) == x);
                assert(sample_y(s, width as int, k as int) == y);
                assert(is_changed(current@, reference@, s, k as int));
                assert(x <= pixel_idx && y <= pixel_idx) by (nonlinear_arith)
                    requires x == pixel_idx % width, y == pixel_idx / width, width > 0, pixel_idx >= 0;
            }
            if diff_count == 0 {
                min_x = x;
                max_x = x;
                min_y = y;
                max_y = y;
            } else {
                if x < min_x {
                    min_x = x;
                }
                if x > max_x {
                    max_x = x;
                }
                if y < min_y {
                    min_y = y;
                }
                if y > max_y {
                    max_y = y;
                }
            }
            diff_count = diff_count + 1;
        } else {
            proof {
                assert(!is_changed(current@, reference@, s, k as int));
            }
        }
        proof {
            lemma_sample_bound(limit as int, s, k as int + 1);
            assert((k as int + 1) * s == i + s) by (nonlinear_arith)
                requires i == k * s;
        }
        if stride < limit - i {
            i = i + stride;
        } else {
            i = limit;
        }
        k = k + 1;
    }
    if diff_count > SENSITIVITY {
        Some(MotionROI { x: min_x as u32, y: min_y as u32, w: (max_x - min_x) as u32, h: (max_y - min_y) as u32 })
    } else {
        None
    }
}

/// No sample of a buffer differs from itself.
proof fn lemma_no_change_in_same(frame: Seq<u8>, stride: int, n: int)
    requires
        0 <= n,
    ensures
        changed_count(frame, frame, stride, n) == 0,
    decreases n,
{
    if n > 0 {
        lemma_no_change_in_same(frame, stride, n - 1);
    }
}

/// The watchdog reports no motion on two identical buffers.
pub proof fn lemma_identical_frames_no_motion(frame: Seq<u8>, width: int, step: int, r: Option<MotionROI>)
    requires
        step > 0,
        is_motion_report(frame, frame, width, step, r),
    ensures
        r is None,
{
    lemma_sample_bound(frame.len() as int, 3 * step, 0);
    lemma_no_change_in_same(frame, 3 * step, sample_count(frame.len() as int, 3 * step));
}

} // verus!
