use slicevm::dir::{Dir1, Dir2};
use slicevm::game::Dir;

#[test]
fn dir1_signed_direction() {
    assert_eq!(Dir1 { pos: false, neg: false }.dir(), 0);
    assert_eq!(Dir1 { pos: true, neg: false }.dir(), 1);
    assert_eq!(Dir1 { pos: false, neg: true }.dir(), -1);
    assert_eq!(Dir1 { pos: true, neg: true }.dir(), 0);
}

#[test]
fn dir2_signed_direction() {
    let d = Dir2 {
        x: Dir1 { pos: true, neg: false },
        y: Dir1 { pos: false, neg: true },
    };
    assert_eq!(d.dir(), [1, -1]);
}

#[test]
fn dir1_write_if_eq_writes_matching_side() {
    let keymap = Dir1 { pos: Dir::Right, neg: Dir::Left };
    let mut flags = Dir1 { pos: false, neg: false };
    flags.write_if_eq(&keymap, &Dir::Right, &true);
    assert!(flags.pos);
    assert!(!flags.neg);
    flags.write_if_eq(&keymap, &Dir::Left, &true);
    assert!(flags.pos);
    assert!(flags.neg);
    flags.write_if_eq(&keymap, &Dir::Up, &false);
    assert!(flags.pos);
    assert!(flags.neg);
}

#[test]
fn dir2_write_if_eq_writes_matching_axis() {
    let keymap = Dir2 {
        x: Dir1 { pos: Dir::Right, neg: Dir::Left },
        y: Dir1 { pos: Dir::Down, neg: Dir::Up },
    };
    let mut flags = Dir2 {
        x: Dir1 { pos: false, neg: false },
        y: Dir1 { pos: false, neg: false },
    };
    flags.write_if_eq(&keymap, &Dir::Down, &true);
    assert!(!flags.x.pos);
    assert!(!flags.x.neg);
    assert!(flags.y.pos);
    assert!(!flags.y.neg);
    flags.write_if_eq(&keymap, &Dir::Left, &true);
    assert!(flags.x.neg);
    flags.write_if_eq(&keymap, &Dir::Down, &false);
    assert!(!flags.y.pos);
}

#[test]
fn write_if_eq_writes_both_sides_of_a_doubled_key() {
    // A keymap may bind one key to both sides; both are then written.
    let keymap = Dir1 { pos: Dir::Up, neg: Dir::Up };
    let mut flags = Dir1 { pos: false, neg: false };
    flags.write_if_eq(&keymap, &Dir::Up, &true);
    assert!(flags.pos);
    assert!(flags.neg);
}
