use audio_radar::utils::colorref_from_rgb;

#[test]
fn colorref_packs_red_green_blue() {
    assert_eq!(colorref_from_rgb(0, 0, 0), 0);
    assert_eq!(colorref_from_rgb(255, 0, 0), 0x0000ff);
    assert_eq!(colorref_from_rgb(0, 255, 0), 0x00ff00);
    assert_eq!(colorref_from_rgb(0x12, 0x34, 0x56), 0x563412);
}
