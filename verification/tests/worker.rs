use raptorqr_host::capture::ScreenRect;
use raptorqr_host::fec::SessionKey;
use raptorqr_host::transfer::TransferProgress;
use raptorqr_host::worker::{
    capture_period_micros, frames_look_black, next_black_streak, preview_index, push_transfer_log,
    region_scope, scanning_label, scope_chip, status_note, BLACK_STREAK, LOG_LENGTH,
};
use std::path::PathBuf;

#[test]
fn region_applies_to_its_own_display() {
    let rect = ScreenRect { x: 100, y: 50, w: 400, h: 300 };
    assert_eq!(
        region_scope(Some((1, rect)), 1, 1920, 1080),
        ScreenRect { x: 100, y: 50, w: 400, h: 300 }
    );
    // Another display is decoded whole.
    assert_eq!(
        region_scope(Some((1, rect)), 0, 1920, 1080),
        ScreenRect { x: 0, y: 0, w: 1920, h: 1080 }
    );
    assert_eq!(region_scope(None, 3, 800, 600), ScreenRect { x: 0, y: 0, w: 800, h: 600 });
    // Clipped to the frame; nothing left when it lies outside.
    assert_eq!(
        region_scope(Some((0, rect)), 0, 300, 200),
        ScreenRect { x: 100, y: 50, w: 200, h: 150 }
    );
    assert_eq!(region_scope(Some((0, rect)), 0, 80, 40).w, 0);
}

#[test]
fn black_frames_are_counted_in_a_row() {
    let mut streak = 0;
    for _ in 0..5 {
        streak = next_black_streak(streak, 1);
    }
    assert_eq!(streak, 5);
    assert!(!frames_look_black(streak));
    streak = next_black_streak(streak, 0);
    assert_eq!(streak, BLACK_STREAK);
    assert!(frames_look_black(streak));
    assert_eq!(next_black_streak(streak, 2), 0);
    assert_eq!(next_black_streak(u32::MAX, 0), u32::MAX);
}

#[test]
fn preview_follows_the_available_displays() {
    assert_eq!(preview_index(0, 2), 0);
    assert_eq!(preview_index(1, 2), 1);
    assert_eq!(preview_index(5, 2), 1);
    assert_eq!(preview_index(3, 0), 0);
    assert_eq!(capture_period_micros(8), 125_000);
    assert_eq!(capture_period_micros(3), 333_333);
}

#[test]
fn status_labels() {
    let rect = ScreenRect { x: 0, y: 0, w: 640, h: 480 };
    assert_eq!(scanning_label(Some((1, rect)), 2, 0), "display 2/2 region 640×480");
    assert_eq!(
        scanning_label(None, 3, 1),
        "all 3 display(s), full screen (preview 2/3)"
    );
    assert_eq!(scope_chip(Some((0, rect)), 2), "显示 1 · 640×480 区域");
    assert_eq!(scope_chip(None, 2), "全部 2 块屏");
    assert_eq!(scope_chip(None, 0), "全部 1 块屏");
}

#[test]
fn status_notes() {
    let key = SessionKey { data_length: 5000, transport_payload_size: 504 };
    let receiving = TransferProgress {
        key,
        received: 3,
        total: 10,
        blocks: vec![(0, 3, 10)],
        complete: None,
    };
    assert_eq!(status_note(&Some(receiving), ""), "receiving 5000 bytes @ 500 B/symbol");
    let done = TransferProgress {
        key,
        received: 1,
        total: 1,
        blocks: vec![(0, 10, 10)],
        complete: Some(("a.bin".to_string(), PathBuf::from("/tmp/out/a.bin"), 2048)),
    };
    assert_eq!(
        status_note(&Some(done), "/tmp/out"),
        "已完成：a.bin (2.0 KB B) 已保存到 /tmp/out — 发送端仍在循环播放"
    );
    assert_eq!(status_note(&None, "x"), "waiting for QR stream…");
}

#[test]
fn transfer_log_keeps_the_latest() {
    let mut log: Vec<usize> = Vec::new();
    for i in 0..LOG_LENGTH {
        push_transfer_log(&mut log, i);
    }
    assert_eq!(log.len(), LOG_LENGTH);
    assert_eq!(log[0], 0);
    push_transfer_log(&mut log, 1000);
    assert_eq!(log.len(), LOG_LENGTH);
    assert_eq!(log[0], 1);
    assert_eq!(log[LOG_LENGTH - 1], 1000);
}
