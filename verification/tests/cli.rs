use raptorqr_host::capture::ScreenRect;
use raptorqr_host::cli::{flag_value, has_arg, parse_args, parse_display_number, parse_region, ArgError};

fn argv(items: &[&str]) -> Vec<String> {
    items.iter().map(|s| s.to_string()).collect()
}

#[test]
fn region_takes_four_numbers() {
    assert_eq!(parse_region("1,2,3,4"), Some(ScreenRect { x: 1, y: 2, w: 3, h: 4 }));
    assert_eq!(
        parse_region(" 10 , 20,30\t,40 "),
        Some(ScreenRect { x: 10, y: 20, w: 30, h: 40 })
    );
    assert_eq!(parse_region("+5,0,1,1"), Some(ScreenRect { x: 5, y: 0, w: 1, h: 1 }));
    assert_eq!(
        parse_region("0,0,4294967295,7"),
        Some(ScreenRect { x: 0, y: 0, w: 4294967295, h: 7 })
    );
}

#[test]
fn region_skips_pieces_that_do_not_parse() {
    // Pieces that are not numbers are dropped before counting.
    assert_eq!(parse_region("1,2,x,3,4"), Some(ScreenRect { x: 1, y: 2, w: 3, h: 4 }));
    assert_eq!(parse_region("1,,2,3,4"), Some(ScreenRect { x: 1, y: 2, w: 3, h: 4 }));
    assert_eq!(parse_region("1,2,3"), None);
    assert_eq!(parse_region("1,2,3,4,5"), None);
    assert_eq!(parse_region("-1,2,3,4"), None);
    assert_eq!(parse_region("4294967296,1,2,3"), None);
    assert_eq!(parse_region("1 2,3,4,5"), None);
    assert_eq!(parse_region(""), None);
    assert_eq!(parse_region("+,1,2,3"), None);
}

#[test]
fn display_numbers_are_one_based() {
    assert_eq!(parse_display_number("1"), Some(0));
    assert_eq!(parse_display_number("3"), Some(2));
    assert_eq!(parse_display_number("+2"), Some(1));
    assert_eq!(parse_display_number("007"), Some(6));
    assert_eq!(parse_display_number("0"), None);
    assert_eq!(parse_display_number(""), None);
    assert_eq!(parse_display_number(" 2"), None);
    assert_eq!(parse_display_number("two"), None);
    assert_eq!(parse_display_number("-1"), None);
    assert_eq!(parse_display_number("99999999999999999999999"), None);
}

#[test]
fn flag_values_in_both_forms() {
    assert_eq!(flag_value(&argv(&["--out", "dir"]), "--out"), Some("dir".to_string()));
    assert_eq!(flag_value(&argv(&["--once", "--out=a=b"]), "--out"), Some("a=b".to_string()));
    assert_eq!(flag_value(&argv(&["--out="]), "--out"), Some(String::new()));
    assert_eq!(flag_value(&argv(&["--out"]), "--out"), None);
    assert_eq!(flag_value(&argv(&["--output=x", "out"]), "--out"), None);
    assert_eq!(flag_value(&argv(&[]), "--out"), None);
    // The first mention wins; the value after a bare flag is taken as is.
    assert_eq!(
        flag_value(&argv(&["--display", "--once", "--display=2"]), "--display"),
        Some("--once".to_string())
    );
    assert!(has_arg(&argv(&["--out", "x", "--once"]), "--once"));
    assert!(!has_arg(&argv(&["--onceagain"]), "--once"));
}

#[test]
fn parse_args_reads_every_flag() {
    let args = parse_args(&argv(&[
        "--once",
        "--region",
        "0,0,10,20",
        "--display=2",
        "--out",
        "received",
    ]))
    .unwrap();
    assert!(args.once);
    assert_eq!(args.region, Some(ScreenRect { x: 0, y: 0, w: 10, h: 20 }));
    assert_eq!(args.display, Some(1));
    assert_eq!(args.out_dir, Some(std::path::PathBuf::from("received")));

    let none = parse_args(&argv(&[])).unwrap();
    assert!(!none.once);
    assert_eq!(none.region, None);
    assert_eq!(none.display, None);
    assert_eq!(none.out_dir, None);
}

#[test]
fn parse_args_refuses_bad_values() {
    assert_eq!(parse_args(&argv(&["--region=1,2"])).unwrap_err(), ArgError::Region);
    assert_eq!(parse_args(&argv(&["--display", "0"])).unwrap_err(), ArgError::Display);
    // A bad region is reported before a bad display.
    assert_eq!(
        parse_args(&argv(&["--display=x", "--region=1"])).unwrap_err(),
        ArgError::Region
    );
    // A flag without a value is simply absent.
    assert_eq!(parse_args(&argv(&["--display"])).unwrap().display, None);
}

#[test]
fn both_flag_forms_agree() {
    for value in ["dir", "", "a b", "--x", "中文"] {
        let spaced = flag_value(&argv(&["--out", value]), "--out");
        let joined = flag_value(&argv(&[&format!("--out={value}")]), "--out");
        assert_eq!(spaced, Some(value.to_string()));
        assert_eq!(joined, spaced);
    }
}

#[test]
fn region_text_reads_back() {
    for rect in [
        ScreenRect { x: 0, y: 0, w: 0, h: 0 },
        ScreenRect { x: 300, y: 200, w: 900, h: 700 },
        ScreenRect { x: 9, y: 10, w: 99, h: 100 },
        ScreenRect { x: u32::MAX, y: 1, w: u32::MAX, h: 4000000000 },
    ] {
        let text = format!("{},{},{},{}", rect.x, rect.y, rect.w, rect.h);
        assert_eq!(parse_region(&text), Some(rect));
    }
}
