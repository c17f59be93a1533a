use pinned_queue::{outer_index, split_index};

#[test]
fn outer() {
    assert_eq!(0, outer_index(0));
    assert_eq!(1, outer_index(1));
    assert_eq!(1, outer_index(2));
    assert_eq!(2, outer_index(3));
    assert_eq!(16, outer_index(65535));
}

#[test]
fn split() {
    assert_eq!((0, 0), split_index(0, 0));
    assert_eq!((1, 0), split_index(0, 1));
    assert_eq!((1, 1), split_index(0, 2));

    assert_eq!((0, 0), split_index(1, 0));
    assert_eq!((0, 1), split_index(1, 1));
    assert_eq!((1, 0), split_index(1, 2));

    // With head 2 (one slot into level 1), index 15 is absolute position 17:
    // the block three levels up holds level 4, whose positions start at 15,
    // so position 17 sits in its third slot.
    assert_eq!((3, 2), split_index(2, 15));
}

#[test]
fn outer_level_starts() {
    // each level starts at pow2(level) - 1 and ends one position before the
    // next level's start
    for l in 0..16usize {
        let start = (1usize << l) - 1;
        assert_eq!(l, outer_index(start));
        assert_eq!(l, outer_index(2 * start));
        assert_eq!(l + 1, outer_index(2 * start + 1));
    }
}

#[test]
fn split_after_removals() {
    // head 10 sits three slots into level 3 (positions 7..=14); indices are
    // resolved against absolute positions 10, 11, ... 14, 15, ...
    assert_eq!((0, 0), split_index(10, 0));
    assert_eq!((0, 4), split_index(10, 4));
    // absolute position 15 starts level 4
    assert_eq!((1, 0), split_index(10, 5));
    assert_eq!((1, 15), split_index(10, 20));
    // absolute position 31 starts level 5
    assert_eq!((2, 0), split_index(10, 21));
}
