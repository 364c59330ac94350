use command_replay::tick::wrapping_diff;

#[test]
fn diff_of_nearby_ticks_is_plain_subtraction() {
    assert_eq!(wrapping_diff(5, 3), 2);
    assert_eq!(wrapping_diff(3, 5), -2);
    assert_eq!(wrapping_diff(7, 7), 0);
    assert_eq!(wrapping_diff(1000, 0), 1000);
}

#[test]
fn diff_wraps_at_the_boundary() {
    assert_eq!(wrapping_diff(0, 65535), 1);
    assert_eq!(wrapping_diff(65535, 0), -1);
    assert_eq!(wrapping_diff(5, 65530), 11);
    assert_eq!(wrapping_diff(65530, 5), -11);
}

#[test]
fn diff_is_antisymmetric_except_at_half_range() {
    let pairs: [(u16, u16); 6] = [(0, 1), (1, 0), (65535, 0), (12345, 54321), (0, 0), (40000, 7)];
    for (a, b) in pairs {
        let d = wrapping_diff(a, b);
        if d != -32768 {
            assert_eq!(wrapping_diff(b, a), -d);
        }
    }
    // Exactly half the circle apart: both directions give the minimum.
    assert_eq!(wrapping_diff(0, 32768), -32768);
    assert_eq!(wrapping_diff(32768, 0), -32768);
}
