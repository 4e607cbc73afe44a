use docsearch::level::{level_from_draw, MAX_LEVEL};

#[test]
fn largest_draw_gives_the_lowest_layer() {
    assert_eq!(level_from_draw(u64::MAX, 4), 0);
    assert_eq!(level_from_draw(u64::MAX, 2), 0);
}

#[test]
fn smallest_draw_gives_the_highest_layer() {
    assert_eq!(level_from_draw(0, 2), 64);
    assert_eq!(level_from_draw(0, 4), 32);
    assert_eq!(level_from_draw(0, 16), 16);
    assert_eq!(level_from_draw(0, u64::MAX), 1);
    assert_eq!(MAX_LEVEL, 64);
}

#[test]
fn layer_changes_at_powers_of_the_base() {
    // A quarter of the draws reach layer one to the base four.
    assert_eq!(level_from_draw((1 << 62) - 1, 4), 1);
    assert_eq!(level_from_draw(1 << 62, 4), 0);
    assert_eq!(level_from_draw((1 << 60) - 1, 4), 2);
    assert_eq!(level_from_draw(1 << 60, 4), 1);
    assert_eq!(level_from_draw((1 << 63) - 1, 2), 1);
    assert_eq!(level_from_draw(1 << 63, 2), 0);
}

#[test]
fn base_below_two_gives_the_lowest_layer() {
    assert_eq!(level_from_draw(0, 0), 0);
    assert_eq!(level_from_draw(0, 1), 0);
    assert_eq!(level_from_draw(12345, 1), 0);
}

#[test]
fn layers_thin_out_by_the_base() {
    let mut draw: u64 = 1;
    let mut counts = [0usize; 4];
    for _ in 0..40_000 {
        draw = draw.wrapping_mul(6364136223846793005).wrapping_add(1442695040888963407);
        let mixed = draw ^ (draw >> 29);
        let level = level_from_draw(mixed.wrapping_mul(0xbf58476d1ce4e5b9), 4);
        if level < 4 {
            counts[level] += 1;
        }
    }
    assert!(counts[0] > 28_000 && counts[0] < 32_000);
    assert!(counts[1] > 6_500 && counts[1] < 8_500);
    assert!(counts[2] > 1_400 && counts[2] < 2_400);
}
