use commentreducr::progress::{fmt_duration, Progress, Redraw};

#[test]
fn duration_format() {
    assert_eq!(fmt_duration(5), "5s");
    assert_eq!(fmt_duration(125), "2m05s");
    assert_eq!(fmt_duration(3660), "1h01m");
    assert_eq!(fmt_duration(59), "59s");
    assert_eq!(fmt_duration(60), "1m00s");
    assert_eq!(fmt_duration(3599), "59m59s");
}

#[test]
fn progress_lines() {
    let mut p = Progress::new(200, 10, false);
    for _ in 0..3 {
        p.file_done();
    }
    assert_eq!(p.line(0, 0, 0), "  0%  0/200 blocks, 3/10 files");
    assert!(p
        .line(50, 25, 10_000_000_000)
        .starts_with(" 25%  50/200 blocks, 3/10 files, ~"));
    // 10 s for 50 blocks: 150 more take 30 s.
    assert_eq!(
        p.line(50, 25, 10_000_000_000),
        " 25%  50/200 blocks, 3/10 files, ~30s left"
    );
    assert_eq!(p.line(200, 100, 5), "100%  200/200 blocks, 3/10 files");
}

#[test]
fn milestones_off_a_terminal() {
    let mut p = Progress::new(20, 1, false);
    assert_eq!(p.tick(), Redraw::Nothing);
    assert_eq!(p.tick(), Redraw::Milestone(2, 10));
    assert_eq!(p.tick(), Redraw::Nothing);
    assert_eq!(p.tick(), Redraw::Milestone(4, 20));
    for _ in 0..20 {
        p.tick();
    }
    assert_eq!(p.tick(), Redraw::Nothing);
    assert!(!p.finish());
}

#[test]
fn redraws_in_place_on_a_terminal_and_silent_runs_say_nothing() {
    let mut p = Progress::new(3, 1, true);
    assert_eq!(p.tick(), Redraw::InPlace(1, 33));
    assert_eq!(p.file_done(), Redraw::InPlace(1, 33));
    assert!(p.finish());
    let mut s = Progress::silent();
    assert_eq!(s.tick(), Redraw::Nothing);
    assert!(!s.finish());
}

#[test]
fn line_and_duration_format() {
    assert_eq!(fmt_duration(5), "5s");
    assert_eq!(fmt_duration(125), "2m05s");
    assert_eq!(fmt_duration(3660), "1h01m");
    let mut p = Progress::new(200, 10, false);
    for _ in 0..3 {
        p.file_done();
    }
    assert_eq!(p.line(0, 0, 0), "  0%  0/200 blocks, 3/10 files");
    assert!(p
        .line(50, 25, 1_000_000_000)
        .starts_with(" 25%  50/200 blocks, 3/10 files, ~"));
    assert_eq!(p.line(200, 100, 1_000_000_000), "100%  200/200 blocks, 3/10 files");
}

#[test]
fn silent_progress_never_asks_to_draw() {
    let mut s = Progress::silent();
    for i in 0..50 {
        let r = if i % 3 == 0 { s.file_done() } else { s.tick() };
        assert_eq!(r, Redraw::Nothing);
    }
    assert!(!s.finish());
    let mut zero_tty = Progress::new(0, 4, true);
    assert_eq!(zero_tty.tick(), Redraw::Nothing);
    assert_eq!(zero_tty.file_done(), Redraw::Nothing);
    assert!(!zero_tty.finish());
}
