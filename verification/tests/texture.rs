use bspedit::blacklist::BlacklistReason;
use bspedit::texture::{
    abgr_to_rgba, contains_bytes, is_texture_name, shown, texture_problem, TextureProblem,
};

#[test]
fn texture_names_end_in_vtf() {
    assert!(is_texture_name(b"materials/a.vtf"));
    assert!(is_texture_name(b".vtf"));
    assert!(!is_texture_name(b"vtf"));
    assert!(!is_texture_name(b"a.vtf "));
    assert!(!is_texture_name(b"a.VTF"));
    assert!(!is_texture_name(b"a.vmt"));
    assert!(!is_texture_name(b""));
}

#[test]
fn pixels_are_reversed_four_by_four() {
    let mut p = vec![1u8, 2, 3, 4, 5, 6, 7, 8];
    abgr_to_rgba(&mut p);
    assert_eq!(p, vec![4, 3, 2, 1, 8, 7, 6, 5]);
}

#[test]
fn bytes_behind_the_last_whole_pixel_stay() {
    let mut p = vec![1u8, 2, 3, 4, 5, 6, 7];
    abgr_to_rgba(&mut p);
    assert_eq!(p, vec![4, 3, 2, 1, 5, 6, 7]);
    let mut q = vec![9u8, 8];
    abgr_to_rgba(&mut q);
    assert_eq!(q, vec![9, 8]);
    let mut e: Vec<u8> = Vec::new();
    abgr_to_rgba(&mut e);
    assert!(e.is_empty());
}

#[test]
fn blacklisted_texture_reports_the_reason_first() {
    let reason = Some(BlacklistReason::Game("x".to_string()));
    match texture_problem(&reason, false, 24) {
        Some(TextureProblem::Blacklist(r)) => assert_eq!(r, BlacklistReason::Game("x".to_string())),
        _ => panic!("the reason was not reported"),
    }
    match texture_problem(&reason, true, 24) {
        Some(TextureProblem::Blacklist(_)) => {},
        _ => panic!("the reason was not reported"),
    }
}

#[test]
fn undecodable_texture_reports_its_format() {
    match texture_problem(&None, false, 24) {
        Some(TextureProblem::UnsupportedImageFormat(f)) => assert_eq!(f, 24),
        _ => panic!("the format was not reported"),
    }
    assert!(texture_problem(&None, true, 24).is_none());
}

#[test]
fn search_finds_text_anywhere_in_the_name() {
    assert!(contains_bytes(b"materials/brick.vtf", b"brick"));
    assert!(contains_bytes(b"materials/brick.vtf", b"materials"));
    assert!(contains_bytes(b"materials/brick.vtf", b".vtf"));
    assert!(contains_bytes(b"abc", b"abc"));
    assert!(contains_bytes(b"abc", b""));
    assert!(contains_bytes(b"", b""));
    assert!(!contains_bytes(b"abc", b"abcd"));
    assert!(!contains_bytes(b"materials/brick.vtf", b"Brick"));
    assert!(!contains_bytes(b"aab", b"aba"));
}

#[test]
fn list_shows_what_passes_both_filters() {
    assert!(shown(b"a.vtf", b"", false, false));
    assert!(shown(b"a.vtf", b"", true, true));
    assert!(!shown(b"a.vtf", b"", true, false));
    assert!(shown(b"a.vtf", b"vt", false, false));
    assert!(!shown(b"a.vtf", b"x", false, true));
    assert!(!shown(b"a.vtf", b"vt", true, false));
    assert!(shown(b"a.vtf", b"vt", true, true));
}
