use bittorrent::bitfield::Bitfield;

#[test]
fn one_byte_is_all_false() {
    let vals = Bitfield::create(8);
    assert_eq!(vals.get_value(0), false);
    assert_eq!(vals.get_value(7), false);
}

#[test]
fn one_byte_can_set_values() {
    let mut vals = Bitfield::create(8);
    vals.set_value(2);
    assert_eq!(vals.get_value(2), true);
    vals.unset_value(2);
    assert_eq!(vals.get_value(2), false);
}

#[test]
fn less_than_one_byte_can_set_values() {
    let mut vals = Bitfield::create(3);
    vals.set_value(2);
    assert_eq!(vals.get_value(2), true);
    vals.unset_value(2);
    assert_eq!(vals.get_value(2), false);
}

#[test]
fn multiple_byte_can_set_values() {
    let mut vals = Bitfield::create(64);
    vals.set_value(19);
    assert_eq!(vals.get_value(19), true);
    vals.unset_value(19);
    assert_eq!(vals.get_value(19), false);
    vals.set_value(63);
    assert_eq!(vals.get_value(63), true);
    vals.unset_value(63);
    assert_eq!(vals.get_value(63), false);
}

#[test]
fn setting_a_bit_leaves_the_others() {
    let mut vals = Bitfield::create(16);
    vals.set_value(3);
    vals.set_value(8);
    vals.set_value(15);
    for index in 0..16 {
        assert_eq!(vals.get_value(index), index == 3 || index == 8 || index == 15);
    }
    vals.unset_value(8);
    for index in 0..16 {
        assert_eq!(vals.get_value(index), index == 3 || index == 15);
    }
    vals.unset_value(4);
    vals.set_value(3);
    for index in 0..16 {
        assert_eq!(vals.get_value(index), index == 3 || index == 15);
    }
}

#[test]
fn room_is_rounded_up_to_whole_bytes() {
    let mut vals = Bitfield::create(9);
    assert_eq!(vals.get_value(15), false);
    vals.set_value(15);
    assert_eq!(vals.get_value(15), true);
    assert_eq!(vals.get_value(14), false);
    assert_eq!(vals.get_value(7), false);
}
