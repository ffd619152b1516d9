//! Tempo bookkeeping: detected tempi are folded by octaves into the
//! library's range, so a half-time or double-time reading of the same
//! groove lands on one value.
//!
//! Tempi are counted in tenths of a BPM (`1200` is 120.0 BPM), the
//! precision the estimator reports.
use vstd::prelude::*;

verus! {

/// Slowest tempo the library shows after folding (65.0 BPM).
pub const MIN_LIBRARY_BPM_TENTHS: u32 = 650;

/// Fastest tempo the library shows after folding (150.0 BPM).
pub const MAX_LIBRARY_BPM_TENTHS: u32 = 1500;

/// Doubles a slow tempo until it reaches the range.
pub open spec fn fold_up(x: nat) -> nat
    decreases (if x < 650 { 650 - x } else { 0 }),
{
    if 0 < x && x < 650 {
        fold_up(2 * x)
    } else {
        x
    }
}

/// Halves (rounding down) a fast tempo until it is within the range.
pub open spec fn fold_down(x: nat) -> nat
    decreases x,
{
    if x > 1500 {
        fold_down(x / 2)
    } else {
        x
    }
}

/// `x` folded by octaves into 65.0–150.0 BPM; no tempo for 0.
pub open spec fn spec_normalize_bpm(x: nat) -> Option<nat> {
    if x == 0 {
        None
    } else if x < 650 {
        Some(fold_up(x))
    } else {
        Some(fold_down(x))
    }
}

/// Folds a detected tempo (tenths of a BPM) by octaves into the library
/// range 65.0–150.0 BPM: slower tempi are doubled, faster ones halved
/// (rounding down to a tenth). `None` for a tempo of 0.
pub fn normalize_bpm(bpm_tenths: u32) -> (r: Option<u32>)
    ensures
        r matches Some(v) ==> spec_normalize_bpm(bpm_tenths as nat) == Some(v as nat),
        r is None <==> spec_normalize_bpm(bpm_tenths as nat) is None,
{
    if bpm_tenths == 0 {
        return None;
    }
    let mut x = bpm_tenths;
    if x < MIN_LIBRARY_BPM_TENTHS {
        while x < MIN_LIBRARY_BPM_TENTHS
            invariant
                0 < x < 1300,
                fold_up(x as nat) == fold_up(bpm_tenths as nat),
            decreases 1300 - x,
        {
            x = 2 * x;
        }
    } else {
        while x > MAX_LIBRARY_BPM_TENTHS
            invariant
                x >= 650,
                fold_down(x as nat) == fold_down(bpm_tenths as nat),
            decreases x,
        {
            x = x / 2;
        }
    }
    Some(x)
}

proof fn lemma_fold_up(x: nat)
    requires
        0 < x < 650,
    ensures
        650 <= fold_up(x) < 1300,
    decreases 650 - x,
{
    if 2 * x < 650 {
        lemma_fold_up(2 * x);
    } else {
        assert(fold_up(2 * x) == 2 * x);
    }
}

proof fn lemma_fold_down(x: nat)
    requires
        x >= 650,
    ensures
        650 <= fold_down(x) <= 1500,
        x <= 1500 ==> fold_down(x) == x,
    decreases x,
{
    if x > 1500 {
        lemma_fold_down(x / 2);
    }
}

/// Every non-zero tempo folds into the library range, and a tempo already
/// in that range is left as it is; folding twice is folding once.
pub proof fn lemma_normalize_bpm_range(x: nat)
    requires
        x > 0,
    ensures
        spec_normalize_bpm(x) matches Some(v) && 650 <= v <= 1500,
        650 <= x <= 1500 ==> spec_normalize_bpm(x) == Some(x),
        spec_normalize_bpm(x) matches Some(v) && spec_normalize_bpm(v) == Some(v),
{
    if x < 650 {
        lemma_fold_up(x);
        lemma_fold_down(fold_up(x));
    } else {
        lemma_fold_down(x);
        lemma_fold_down(fold_down(x));
    }
}

} // verus!
