//! Decisions of the headless receiver: what it scans, and the frame
//! statistics it reports. The capture loop itself runs in the application.
use crate::capture::ScreenRect;
use crate::text::decimal;
use crate::text::push_decimal;
use crate::text::push_str;
use std::path::PathBuf;
use vstd::prelude::*;

verus! {

#[derive(Debug, Default, Clone)]
pub struct Args {
    /// Where received files go; `None` = the user's Downloads folder.
    pub out_dir: Option<PathBuf>,
    /// Scan only this region of `display` (physical pixels, monitor-local).
    pub region: Option<ScreenRect>,
    /// Scan only this display (0-based, as listed by `--check`).
    pub display: Option<usize>,
    /// Exit after the first file is received (scripting/tests).
    pub once: bool,
}

/// What the receiver is scanning, for the banner.
pub open spec fn spec_scan_scope(region: Option<ScreenRect>, display: Option<usize>) -> Seq<char> {
    match region {
        Some(rect) => "display "@ + decimal(
            (match display {
                Some(d) => d as nat,
                None => 0,
            }) + 1,
        ) + " region "@ + decimal(rect.w as nat) + "×"@ + decimal(rect.h as nat) + " at ("@
            + decimal(rect.x as nat) + ", "@ + decimal(rect.y as nat) + ")"@,
        None => match display {
            Some(index) => "display "@ + decimal(index as nat + 1) + " (full screen)"@,
            None => "all displays (full screen)"@,
        },
    }
}

/// What the receiver is scanning, for the banner.
pub fn scan_scope(args: &Args) -> (r: String)
    requires
        args.display != Some(usize::MAX),
    ensures
        r@ == spec_scan_scope(args.region, args.display),
{
    let mut out = String::new();
    match args.region {
        Some(rect) => {
            let shown = match args.display {
                Some(d) => d,
                None => 0,
            };
            push_str(&mut out, "display ");
            push_decimal(&mut out, shown as u64 + 1);
            push_str(&mut out, " region ");
            push_decimal(&mut out, rect.w as u64);
            push_str(&mut out, "×");
            push_decimal(&mut out, rect.h as u64);
            push_str(&mut out, " at (");
            push_decimal(&mut out, rect.x as u64);
            push_str(&mut out, ", ");
            push_decimal(&mut out, rect.y as u64);
            push_str(&mut out, ")");
        },
        None => match args.display {
            Some(index) => {
                push_str(&mut out, "display ");
                push_decimal(&mut out, index as u64 + 1);
                push_str(&mut out, " (full screen)");
            },
            None => {
                push_str(&mut out, "all displays (full screen)");
            },
        },
    }
    out
}

/// Whether display `index` is scanned: with `--display` only that display;
/// with `--region` alone only the first display (the region lives on one
/// display, numbered 1 in the banner); otherwise all of them.
pub open spec fn spec_scans_display(
    region: Option<ScreenRect>,
    display: Option<usize>,
    index: usize,
) -> bool {
    match display {
        Some(wanted) => index == wanted,
        None => region is Some ==> index == 0,
    }
}

pub fn scans_display(args: &Args, index: usize) -> (r: bool)
    ensures
        r == spec_scans_display(args.region, args.display, index),
{
    match args.display {
        Some(wanted) => index == wanted,
        None => match args.region {
            Some(_) => index == 0,
            None => true,
        },
    }
}

/// The part of a `w × h` frame that is decoded: the region clipped to the
/// frame, or the whole frame.
pub fn decode_scope(region: Option<ScreenRect>, w: u32, h: u32) -> (r: ScreenRect)
    requires
        region matches Some(rect) ==> rect.fits(),
    ensures
        r == (match region {
            Some(rect) => rect.spec_intersect(ScreenRect { x: 0, y: 0, w, h }),
            None => ScreenRect { x: 0, y: 0, w, h },
        }),
{
    let full = ScreenRect { x: 0, y: 0, w, h };
    match region {
        Some(rect) => rect.intersect(&full),
        None => full,
    }
}

/// Distance between brightness samples.
pub const SAMPLE_STEP: usize = 97;

/// Sum of the first `k` brightness samples `luma[0]`, `luma[97]`, …
pub open spec fn sampled_sum(luma: Seq<u8>, k: nat) -> int
    decreases k,
{
    if k == 0 {
        0
    } else {
        sampled_sum(luma, (k - 1) as nat) + luma[97 * (k - 1)]
    }
}

/// Number of brightness samples in a frame of `n` luma values.
pub open spec fn sample_count(n: int) -> nat {
    if n <= 0 {
        0
    } else {
        ((n - 1) / 97 + 1) as nat
    }
}

/// Sampled brightness of a luma frame: the sum of every 97th value divided
/// by `len / 97 + 1`. A black frame means the OS is not handing over the
/// screen (missing Screen Recording permission).
pub fn sampled_mean_luma(luma: &[u8]) -> (r: u64)
    requires
        sample_count(luma@.len() as int) * 255 <= u64::MAX,
    ensures
        r == sampled_sum(luma@, sample_count(luma@.len() as int)) / (luma@.len() as int / 97
            + 1),
{
    let n = luma.len();
    let samples = n / SAMPLE_STEP + 1;
    let mut sum: u64 = 0;
    if n > 0 {
        let count = (n - 1) / SAMPLE_STEP + 1;
        let mut k: usize = 0;
        while k < count
            invariant
                n == luma@.len(),
                n > 0,
                count == (n - 1) / 97 + 1,
                k <= count,
                sum == sampled_sum(luma@, k as nat),
                sum <= k * 255,
                count * 255 <= u64::MAX,
            decreases count - k,
        {
            assert(k * 97 <= n - 1) by (nonlinear_arith)
                requires
                    k < count,
                    count == (n - 1) / 97 + 1,
                    n >= 1,
            {
                vstd::arithmetic::div_mod::lemma_fundamental_div_mod((n - 1) as int, 97);
            }
            sum = sum + luma[k * SAMPLE_STEP] as u64;
            k = k + 1;
        }
    }
    sum / samples as u64
}

/// Frame statistics of `--check`: mean luma, and the percentage of pixels
/// brighter than 8.
pub open spec fn luma_sum(luma: Seq<u8>) -> int
    decreases luma.len(),
{
    if luma.len() == 0 {
        0
    } else {
        luma_sum(luma.drop_last()) + luma.last()
    }
}

pub open spec fn bright_count(luma: Seq<u8>) -> int
    decreases luma.len(),
{
    if luma.len() == 0 {
        0
    } else {
        bright_count(luma.drop_last()) + if luma.last() > 8 {
            1int
        } else {
            0int
        }
    }
}

/// Mean luma and percentage of non-black (luma > 8) pixels of a frame.
pub fn frame_stats(luma: &[u8]) -> (r: (u64, usize))
    requires
        luma@.len() * 100 <= usize::MAX,
        luma@.len() * 255 <= u64::MAX,
    ensures
        r.0 == luma_sum(luma@) / (if luma@.len() == 0 {
            1
        } else {
            luma@.len() as int
        }),
        r.1 == bright_count(luma@) * 100 / (if luma@.len() == 0 {
            1
        } else {
            luma@.len() as int
        }),
{
    let n = luma.len();
    let mut sum: u64 = 0;
    let mut bright: usize = 0;
    let mut i: usize = 0;
    while i < n
        invariant
            n == luma@.len(),
            n * 100 <= usize::MAX,
            n * 255 <= u64::MAX,
            i <= n,
            sum == luma_sum(luma@.take(i as int)),
            sum <= i * 255,
            bright == bright_count(luma@.take(i as int)),
            bright <= i,
        decreases n - i,
    {
        proof {
            assert(luma@.take(i + 1).drop_last() =~= luma@.take(i as int));
        }
        sum = sum + luma[i] as u64;
        if luma[i] > 8 {
            bright = bright + 1;
        }
        i = i + 1;
    }
    proof {
        assert(luma@.take(n as int) =~= luma@);
    }
    let denom = if n == 0 {
        1
    } else {
        n
    };
    (sum / denom as u64, bright * 100 / denom)
}

} // verus!
