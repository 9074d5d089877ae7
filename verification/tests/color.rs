use ray_tracer_challenge::color::Colors;

#[test]
fn named_colors_are_distinct() {
    assert_ne!(Colors::Red, Colors::Blue);
    assert_ne!(Colors::White, Colors::Black);
    assert_eq!(Colors::Black, Colors::Black);
    assert!(matches!(Colors::White, Colors::White));
}
