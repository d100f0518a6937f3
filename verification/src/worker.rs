//! Decisions of the windowed receiver's capture worker and of the state its
//! window shows: which part of each display is decoded, when captured
//! frames count as black, the status lines, and the log of received files.
//! The window itself, its preview and its pointer handling are drawn with
//! floating-point geometry and are not part of the library.
use crate::capture::ScreenRect;
use crate::notify::human_bytes;
use crate::notify::spec_human_bytes;
use crate::text::decimal;
use crate::text::push_decimal;
use crate::text::push_str;
use crate::transfer::TransferProgress;
use vstd::prelude::*;

verus! {

/// The part of display `index` (a `w × h` frame) that is decoded: the
/// region, clipped to the frame, when the region was drawn on this display;
/// otherwise the whole frame.
pub open spec fn spec_region_scope(
    region: Option<(usize, ScreenRect)>,
    index: usize,
    w: u32,
    h: u32,
) -> ScreenRect {
    let full = ScreenRect { x: 0, y: 0, w, h };
    match region {
        Some((display, rect)) => if display == index {
            rect.spec_intersect(full)
        } else {
            full
        },
        None => full,
    }
}

pub fn region_scope(region: Option<(usize, ScreenRect)>, index: usize, w: u32, h: u32) -> (r:
    ScreenRect)
    requires
        region matches Some((d, rect)) ==> rect.fits(),
    ensures
        r == spec_region_scope(region, index, w, h),
{
    let full = ScreenRect { x: 0, y: 0, w, h };
    match region {
        Some((display, rect)) => if display == index {
            rect.intersect(&full)
        } else {
            full
        },
        None => full,
    }
}

/// Decodes in a row with a black frame (sampled brightness below 2) before
/// the window reports that the screen is not being handed over.
pub const BLACK_STREAK: u32 = 6;

/// The black-frame streak after a decode whose sampled brightness is
/// `mean`: one longer for a black frame (it stops growing at `u32::MAX`),
/// back to 0 otherwise.
pub fn next_black_streak(streak: u32, mean: u64) -> (r: u32)
    ensures
        mean < 2 ==> r == (if streak < u32::MAX {
            streak + 1
        } else {
            streak as int
        }),
        mean >= 2 ==> r == 0,
{
    if mean < 2 {
        streak.saturating_add(1)
    } else {
        0
    }
}

/// Whether the captured frames are black (missing screen-recording
/// permission).
pub fn frames_look_black(streak: u32) -> (r: bool)
    ensures
        r == (streak >= BLACK_STREAK),
{
    streak >= BLACK_STREAK
}

/// The display shown in the preview: the wanted one, or the last display
/// when there are fewer (at least one display is assumed).
pub open spec fn spec_preview_index(wanted: usize, display_count: usize) -> usize {
    let count = if display_count == 0 {
        1
    } else {
        display_count
    };
    if wanted < count {
        wanted
    } else {
        (count - 1) as usize
    }
}

pub fn preview_index(wanted: usize, display_count: usize) -> (r: usize)
    ensures
        r == spec_preview_index(wanted, display_count),
{
    let count = if display_count == 0 {
        1
    } else {
        display_count
    };
    if wanted < count {
        wanted
    } else {
        count - 1
    }
}

/// Microseconds between captures at `fps` frames per second.
pub fn capture_period_micros(fps: u32) -> (r: u64)
    requires
        fps > 0,
    ensures
        r == 1_000_000int / (fps as int),
{
    1_000_000u64 / (fps as u64)
}

/// What the worker scans, for the status line.
pub open spec fn spec_scanning_label(
    region: Option<(usize, ScreenRect)>,
    display_count: usize,
    preview: usize,
) -> Seq<char> {
    match region {
        Some((index, rect)) => "display "@ + decimal(index as nat + 1) + "/"@ + decimal(
            display_count as nat,
        ) + " region "@ + decimal(rect.w as nat) + "×"@ + decimal(rect.h as nat),
        None => "all "@ + decimal(display_count as nat) + " display(s), full screen (preview "@
            + decimal(preview as nat + 1) + "/"@ + decimal(display_count as nat) + ")"@,
    }
}

pub fn scanning_label(region: Option<(usize, ScreenRect)>, display_count: usize, preview: usize) -> (r:
    String)
    requires
        preview < usize::MAX,
        region matches Some((index, rect)) ==> index < usize::MAX,
    ensures
        r@ == spec_scanning_label(region, display_count, preview),
{
    let mut out = String::new();
    match region {
        Some((index, rect)) => {
            push_str(&mut out, "display ");
            push_decimal(&mut out, index as u64 + 1);
            push_str(&mut out, "/");
            push_decimal(&mut out, display_count as u64);
            push_str(&mut out, " region ");
            push_decimal(&mut out, rect.w as u64);
            push_str(&mut out, "×");
            push_decimal(&mut out, rect.h as u64);
        },
        None => {
            push_str(&mut out, "all ");
            push_decimal(&mut out, display_count as u64);
            push_str(&mut out, " display(s), full screen (preview ");
            push_decimal(&mut out, preview as u64 + 1);
            push_str(&mut out, "/");
            push_decimal(&mut out, display_count as u64);
            push_str(&mut out, ")");
        },
    }
    out
}

/// The scan-scope chip of the window's header.
pub open spec fn spec_scope_chip(region: Option<(usize, ScreenRect)>, display_count: usize) -> Seq<
    char,
> {
    match region {
        Some((display, rect)) => "显示 "@ + decimal(display as nat + 1) + " · "@ + decimal(
            rect.w as nat,
        ) + "×"@ + decimal(rect.h as nat) + " 区域"@,
        None => "全部 "@ + decimal(
            if display_count == 0 {
                1
            } else {
                display_count as nat
            },
        ) + " 块屏"@,
    }
}

pub fn scope_chip(region: Option<(usize, ScreenRect)>, display_count: usize) -> (r: String)
    requires
        region matches Some((display, rect)) ==> display < usize::MAX,
    ensures
        r@ == spec_scope_chip(region, display_count),
{
    let mut out = String::new();
    match region {
        Some((display, rect)) => {
            push_str(&mut out, "显示 ");
            push_decimal(&mut out, display as u64 + 1);
            push_str(&mut out, " · ");
            push_decimal(&mut out, rect.w as u64);
            push_str(&mut out, "×");
            push_decimal(&mut out, rect.h as u64);
            push_str(&mut out, " 区域");
        },
        None => {
            push_str(&mut out, "全部 ");
            push_decimal(
                &mut out,
                if display_count == 0 {
                    1
                } else {
                    display_count as u64
                },
            );
            push_str(&mut out, " 块屏");
        },
    }
    out
}

/// The status note: the finished transfer still looping on the sender
/// (saved in the directory `saved_dir`), the one being received, or none.
pub open spec fn spec_status_note(status: Option<TransferProgress>, saved_dir: Seq<char>) -> Seq<
    char,
> {
    match status {
        Some(p) => match p.complete {
            Some(done) => "已完成："@ + done.0@ + " ("@ + spec_human_bytes(done.2 as nat)
                + " B) 已保存到 "@ + saved_dir + " — 发送端仍在循环播放"@,
            None => "receiving "@ + decimal(p.key.data_length as nat) + " bytes @ "@ + decimal(
                (p.key.transport_payload_size - 4) as nat,
            ) + " B/symbol"@,
        },
        None => "waiting for QR stream…"@,
    }
}

pub fn status_note(status: &Option<TransferProgress>, saved_dir: &str) -> (r: String)
    requires
        status matches Some(p) ==> (p.complete is None ==> p.key.transport_payload_size >= 4),
    ensures
        r@ == spec_status_note(*status, saved_dir@),
{
    let mut out = String::new();
    match status {
        Some(p) => match &p.complete {
            Some(done) => {
                push_str(&mut out, "已完成：");
                push_str(&mut out, done.0.as_str());
                push_str(&mut out, " (");
                let size = human_bytes(done.2);
                push_str(&mut out, size.as_str());
                push_str(&mut out, " B) 已保存到 ");
                push_str(&mut out, saved_dir);
                push_str(&mut out, " — 发送端仍在循环播放");
            },
            None => {
                push_str(&mut out, "receiving ");
                push_decimal(&mut out, p.key.data_length as u64);
                push_str(&mut out, " bytes @ ");
                push_decimal(&mut out, (p.key.transport_payload_size - 4) as u64);
                push_str(&mut out, " B/symbol");
            },
        },
        None => push_str(&mut out, "waiting for QR stream…"),
    }
    out
}

/// How many received files the window lists.
pub const LOG_LENGTH: usize = 50;

/// Adds a received file to the window's list, dropping the oldest entry
/// once the list is longer than [`LOG_LENGTH`].
pub fn push_transfer_log<T>(log: &mut Vec<T>, item: T)
    ensures
        old(log)@.len() + 1 > LOG_LENGTH ==> final(log)@ == old(log)@.push(item).drop_first(),
        old(log)@.len() + 1 <= LOG_LENGTH ==> final(log)@ == old(log)@.push(item),
{
    log.push(item);
    if log.len() > LOG_LENGTH {
        log.remove(0);
    }
}

} // verus!
