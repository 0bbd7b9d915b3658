use hvp_archive::{try_detect_game, Game};

#[test]
fn autodetect_invalid() {
    let invalid = try_detect_game(&[0, 0, 0, 0, 0, 0, 0, 0]);
    assert_eq!(invalid, None, "the input should be detected as invalid");
}

#[test]
fn autodetect_obscure1_signature() {
    let mut data = b"HV PackF".to_vec();
    data.extend_from_slice(&[0u8; 24]);
    assert_eq!(try_detect_game(&data), Some(Game::Obscure1));
}

#[test]
fn autodetect_obscure2_signature() {
    assert_eq!(try_detect_game(b"\x00\x00\x04\x00\x00\x00\x00\x00"), Some(Game::Obscure2));
    assert_eq!(try_detect_game(b"\x00\x04\x00\x00\x00\x00\x00\x00"), Some(Game::Obscure2));
}

#[test]
fn autodetect_final_exam_signature() {
    assert_eq!(try_detect_game(b"\x00\x00\x05\x00\x00\x00\x00\x00"), Some(Game::FinalExam));
    assert_eq!(try_detect_game(b"\x00\x05\x00\x00\x00\x00\x00\x00"), Some(Game::FinalExam));
}

#[test]
fn autodetect_needs_eight_bytes() {
    assert_eq!(try_detect_game(b"HV Pack"), None);
    assert_eq!(try_detect_game(&[]), None);
}
