use raptorqr_host::naming::{
    first_name_step, next_name_step, NameStep, candidate_name, fallback_name, numbered_name, numbered_name_from, same_content, LAST_NUMBERED,
};

#[test]
fn numbered_names_keep_the_extension() {
    assert_eq!(numbered_name("report.txt", 1), "report (1).txt");
    assert_eq!(numbered_name("report.txt", 2), "report (2).txt");
    assert_eq!(numbered_name("archive.tar.gz", 3), "archive.tar (3).gz");
    assert_eq!(numbered_name("README", 4), "README (4)");
    assert_eq!(numbered_name(".bashrc", 5), ".bashrc (5)");
    assert_eq!(numbered_name("a.", 6), "a (6).");
    assert_eq!(numbered_name("中文名.txt", 10), "中文名 (10).txt");
}

#[test]
fn numbered_name_from_parts() {
    assert_eq!(numbered_name_from(Some("loop"), Some("bin"), 1), "loop (1).bin");
    assert_eq!(numbered_name_from(Some("loop"), None, 12), "loop (12)");
    assert_eq!(numbered_name_from(None, Some("txt"), 9999), "file (9999).txt");
    assert_eq!(numbered_name_from(None, None, 0), "file (0)");
}

#[test]
fn candidates_start_with_the_name_itself() {
    // The order in which a free name is searched for: the plain name, then
    // "report (1).txt", "report (2).txt", …
    assert_eq!(candidate_name("report.txt", 0), Some("report.txt".to_string()));
    assert_eq!(candidate_name("report.txt", 1), Some("report (1).txt".to_string()));
    assert_eq!(candidate_name("report.txt", 2), Some("report (2).txt".to_string()));
    assert_eq!(
        candidate_name("loop.bin", LAST_NUMBERED),
        Some("loop (9999).bin".to_string())
    );
    assert_eq!(candidate_name("loop.bin", LAST_NUMBERED + 1), None);
    assert_eq!(fallback_name("loop.bin", 4242), "loop-4242.bin");
    assert_eq!(fallback_name("README", 7), "README-7.bin");
}

#[test]
fn identical_content_is_kept() {
    let body = b"the same file over and over".to_vec();
    assert!(same_content(&Some(body.clone()), &body));
    assert!(!same_content(&Some(b"a different file".to_vec()), &body));
    assert!(!same_content(&Some(body[..body.len() - 1].to_vec()), &body));
    assert!(!same_content(&None, &body));
    assert!(same_content(&Some(Vec::new()), &[]));
}

#[test]
fn every_step_tries_another_name() {
    for name in ["report.txt", "a (1).txt", "README", ".bashrc", "x.tar.gz"] {
        let mut seen: Vec<String> = Vec::new();
        for attempt in 0..120 {
            let c = candidate_name(name, attempt).unwrap();
            assert!(!seen.contains(&c), "{name}: step {attempt} repeats {c}");
            seen.push(c);
        }
    }
}

#[test]
fn name_steps_walk_the_candidates_then_fall_back() {
    let mut step = first_name_step("report.txt");
    let mut tried = Vec::new();
    loop {
        match step {
            NameStep::Try { attempt, name } => {
                assert_eq!(Some(name.clone()), candidate_name("report.txt", attempt));
                tried.push(name);
                step = next_name_step("report.txt", attempt);
            }
            NameStep::UseFallback => break,
        }
    }
    assert_eq!(tried.len(), LAST_NUMBERED as usize + 1);
    assert_eq!(tried[0], "report.txt");
    assert_eq!(tried[1], "report (1).txt");
    assert_eq!(tried[2], "report (2).txt");
    assert_eq!(tried[LAST_NUMBERED as usize], "report (9999).txt");
}
