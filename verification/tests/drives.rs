use finder::drives::{drive_root, get_available_drive_names, INVALID_DRIVE_LETTER_BITMASK};
use finder::error::Error;

#[test]
fn three_volumes_are_named_in_alphabetical_order() {
    let names = get_available_drive_names(0b1101, 0).unwrap();
    assert_eq!(names, vec!['A', 'C', 'D']);
}

#[test]
fn a_single_low_bit_is_volume_a() {
    assert_eq!(get_available_drive_names(1, 0).unwrap(), vec!['A']);
}

#[test]
fn bit_twenty_five_is_volume_z() {
    assert_eq!(get_available_drive_names(1 << 25, 0).unwrap(), vec!['Z']);
}

#[test]
fn all_twenty_six_letters_come_out_once_each() {
    let names = get_available_drive_names(0x03FF_FFFF, 0).unwrap();
    let expected: Vec<char> = ('A'..='Z').collect();
    assert_eq!(names, expected);
}

#[test]
fn there_are_as_many_names_as_bits_are_set() {
    let masks: [u32; 6] = [1, 0b1010, 0x0155_5555, 0x03FF_FFFF, 0x0200_0001, 0x0000_8000];
    for mask in masks {
        let names = get_available_drive_names(mask, 0).unwrap();
        assert_eq!(names.len() as u32, mask.count_ones());
        for (index, letter) in ('A'..='Z').enumerate() {
            assert_eq!(names.contains(&letter), mask & (1 << index) != 0);
        }
    }
}

#[test]
fn a_zero_bitmask_is_a_failed_query() {
    match get_available_drive_names(0, 5) {
        Err(Error::DrivesApi(code)) => assert_eq!(code, 5),
        other => panic!("unexpected: {:?}", other),
    }
}

#[test]
fn a_bit_beyond_the_letters_is_refused() {
    for bit in 26..32 {
        let mask: u32 = (1 << bit) | 0b101;
        assert!(matches!(
            get_available_drive_names(mask, 0),
            Err(Error::DrivesInvalidNumberOfDrives)
        ));
    }
    assert!(matches!(
        get_available_drive_names(INVALID_DRIVE_LETTER_BITMASK, 7),
        Err(Error::DrivesInvalidNumberOfDrives)
    ));
}

#[test]
fn the_root_of_a_volume_is_letter_colon_backslash() {
    assert_eq!(drive_root('C'), "C:\\");
    assert_eq!(drive_root('Z'), "Z:\\");
}
