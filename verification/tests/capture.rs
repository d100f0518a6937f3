use rxing::Writer;
use raptorqr_host::capture::{crop, downscale, rgba_to_luma, DisplayInfo, ScreenRect};
use raptorqr_host::console::{decode_scope, frame_stats, sampled_mean_luma, scan_scope, scans_display, Args};
use raptorqr_host::qrscan::{collect_payloads, scan_qrs};

/// A `w × h` RGBA frame whose pixel (x, y) is (x, y, x + y, 255).
fn frame(w: u32, h: u32) -> Vec<u8> {
    let mut v = Vec::new();
    for y in 0..h {
        for x in 0..w {
            v.extend_from_slice(&[x as u8, y as u8, (x + y) as u8, 255]);
        }
    }
    v
}

#[test]
fn rect_contains_area_intersect() {
    let r = ScreenRect { x: 10, y: 20, w: 30, h: 40 };
    assert!(r.contains(10, 20));
    assert!(r.contains(39, 59));
    assert!(!r.contains(40, 20));
    assert!(!r.contains(9, 30));
    assert_eq!(r.area(), 1200);
    let big = ScreenRect { x: 0, y: 0, w: u32::MAX, h: u32::MAX };
    assert_eq!(big.area(), u32::MAX as u64 * u32::MAX as u64);

    let bounds = ScreenRect { x: 0, y: 0, w: 25, h: 100 };
    assert_eq!(r.intersect(&bounds), ScreenRect { x: 10, y: 20, w: 15, h: 40 });
    let apart = ScreenRect { x: 100, y: 100, w: 5, h: 5 };
    let none = r.intersect(&apart);
    assert_eq!(none.area(), 0);
    // A pixel is in the intersection exactly when it is in both.
    for px in 0..60 {
        for py in 0..70 {
            assert_eq!(
                r.intersect(&bounds).contains(px, py),
                r.contains(px, py) && bounds.contains(px, py)
            );
        }
    }
}

#[test]
fn crop_copies_the_window_rows() {
    let f = frame(4, 3);
    let (c, w, h) = crop(&f, 4, 3, &ScreenRect { x: 1, y: 1, w: 2, h: 5 }).unwrap();
    assert_eq!((w, h), (2, 2));
    assert_eq!(
        c,
        vec![1, 1, 2, 255, 2, 1, 3, 255, 1, 2, 3, 255, 2, 2, 4, 255]
    );
    assert!(crop(&f, 4, 3, &ScreenRect { x: 4, y: 0, w: 3, h: 3 }).is_none());
    assert!(crop(&f, 4, 3, &ScreenRect { x: 0, y: 0, w: 0, h: 3 }).is_none());
    let (all, w, h) = crop(&f, 4, 3, &ScreenRect { x: 0, y: 0, w: 100, h: 100 }).unwrap();
    assert_eq!((all, w, h), (f.clone(), 4, 3));
}

#[test]
fn downscale_nearest_neighbor() {
    let f = frame(4, 2);
    // Narrow enough already: unchanged.
    assert_eq!(downscale(&f, 4, 2, 4), (f.clone(), 4, 2));
    // Width 4 → 2: height 2 → 1; pixels (0,0) and (2,0).
    let (d, w, h) = downscale(&f, 4, 2, 2);
    assert_eq!((w, h), (2, 1));
    assert_eq!(d, vec![0, 0, 0, 255, 2, 0, 2, 255]);
    // Height rounds down to zero: empty picture.
    let (d, w, h) = downscale(&frame(10, 1), 10, 1, 5);
    assert_eq!((w, h), (5, 0));
    assert!(d.is_empty());
    // A zero-height frame wider than the limit still comes out at most max_w wide.
    assert_eq!(downscale(&[], 10, 0, 4), (Vec::new(), 4, 0));
    assert_eq!(downscale(&[], 3, 0, 4), (Vec::new(), 3, 0));
}

#[test]
fn luma_is_bt601() {
    let px = [255u8, 255, 255, 255, 0, 0, 0, 0, 255, 0, 0, 9, 0, 255, 0, 9, 0, 0, 255, 9, 7];
    assert_eq!(rgba_to_luma(&px), vec![255, 0, 76, 149, 28]);
    assert!(rgba_to_luma(&[1, 2, 3]).is_empty());
}

#[test]
fn display_info_is_plain_data() {
    let d = DisplayInfo { index: 1, name: "Display 2".into(), logical_w: 1710, logical_h: 1107, primary: false };
    assert_eq!(d.clone(), d);
}

#[test]
fn scan_scope_banner() {
    let mut args = Args::default();
    assert_eq!(scan_scope(&args), "all displays (full screen)");
    args.display = Some(1);
    assert_eq!(scan_scope(&args), "display 2 (full screen)");
    args.region = Some(ScreenRect { x: 300, y: 200, w: 900, h: 700 });
    assert_eq!(scan_scope(&args), "display 2 region 900×700 at (300, 200)");
    args.display = None;
    assert_eq!(scan_scope(&args), "display 1 region 900×700 at (300, 200)");
}

#[test]
fn which_displays_are_scanned() {
    let mut args = Args::default();
    assert!(scans_display(&args, 0) && scans_display(&args, 3));
    args.display = Some(2);
    assert!(scans_display(&args, 2) && !scans_display(&args, 0));
    args.display = None;
    args.region = Some(ScreenRect { x: 0, y: 0, w: 1, h: 1 });
    // A region alone applies to the first display only.
    assert!(scans_display(&args, 0) && !scans_display(&args, 5) && !scans_display(&args, 1));
    args.display = Some(1);
    assert!(scans_display(&args, 1) && !scans_display(&args, 0));
}

#[test]
fn decode_scope_clips_region() {
    assert_eq!(decode_scope(None, 800, 600), ScreenRect { x: 0, y: 0, w: 800, h: 600 });
    assert_eq!(
        decode_scope(Some(ScreenRect { x: 700, y: 500, w: 300, h: 300 }), 800, 600),
        ScreenRect { x: 700, y: 500, w: 100, h: 100 }
    );
}

#[test]
fn brightness_statistics() {
    assert_eq!(sampled_mean_luma(&[]), 0);
    let mut luma = vec![0u8; 200];
    luma[0] = 90;
    luma[97] = 60;
    luma[194] = 30;
    // Samples at 0, 97, 194; divided by 200 / 97 + 1 = 3.
    assert_eq!(sampled_mean_luma(&luma), 60);
    assert_eq!(frame_stats(&[]), (0, 0));
    assert_eq!(frame_stats(&[10, 8, 0, 100]), (29, 50));
}

#[test]
fn scan_finds_nothing_in_blank_frames() {
    assert!(scan_qrs(&[], 0, 0).is_empty());
    assert!(scan_qrs(&[255u8; 64 * 64], 64, 64).is_empty());
    assert!(collect_payloads(None).is_empty());
    assert_eq!(
        collect_payloads(Some(vec![vec![], vec![1, 2], vec![], vec![3]])),
        vec![vec![1, 2], vec![3]]
    );
}

#[test]
fn scan_reads_a_rendered_qr_code() {
    let matrix = rxing::qrcode::QRCodeWriter
        .encode("hello raptorqr", &rxing::BarcodeFormat::QR_CODE, 240, 240)
        .unwrap();
    let (w, h) = (matrix.getWidth(), matrix.getHeight());
    let luma: Vec<u8> = (0..h)
        .flat_map(|y| (0..w).map(move |x| (x, y)))
        .map(|(x, y)| if matrix.get(x, y) { 0 } else { 255 })
        .collect();
    let found = scan_qrs(&luma, w, h);
    assert_eq!(found.len(), 1);
    assert!(!found[0].is_empty());
    assert_ne!(found[0], luma);
    println!("raw bytes: {:?}", found[0]);
}

/// Pseudo-random bytes (a linear congruential generator).
fn noise(n: usize, seed: u32) -> Vec<u8> {
    let mut x = seed;
    (0..n)
        .map(|_| {
            x = x.wrapping_mul(1_664_525).wrapping_add(1_013_904_223);
            (x >> 24) as u8
        })
        .collect()
}

#[test]
fn scanning_arbitrary_frames_finds_nothing_and_returns() {
    let sizes = [(1, 1), (1, 40), (40, 1), (2, 2), (3, 7), (21, 21), (64, 48), (160, 120)];
    for (i, &(w, h)) in sizes.iter().enumerate() {
        let n = (w * h) as usize;
        let frames = [
            vec![0u8; n],
            vec![255u8; n],
            noise(n, i as u32 + 1),
            (0..n).map(|k| if (k % w as usize + k / w as usize) % 2 == 0 { 0 } else { 255 }).collect(),
            (0..n).map(|k| if (k % w as usize) % 3 == 0 { 0 } else { 255 }).collect(),
        ];
        for f in frames.iter() {
            assert!(scan_qrs(f, w, h).is_empty());
        }
    }
}
