use docsis::ethermac::{ether_aton, ether_ntoa};

#[test]
fn accepts_two_digit_groups() {
    assert_eq!(
        ether_aton("00:11:22:33:44:55").unwrap(),
        [0x00, 0x11, 0x22, 0x33, 0x44, 0x55]
    );
    assert_eq!(ether_aton("B4:EE:B4:05:06:07").unwrap()[0], 0xB4);
}

#[test]
fn rejects_malformed_addresses() {
    assert!(ether_aton("00:11:22:33:44").is_none());
    assert!(ether_aton("00:11:22:33:44:55:66").is_none());
    assert!(ether_aton("00:11:22:33:44:zz").is_none());
    assert!(ether_aton("00:11:22:33:44:555").is_none());
}

#[test]
fn prints_lowercase_colon_separated() {
    assert_eq!(ether_ntoa(&[0xb4, 0xee, 0xb4, 5, 6, 7]), "b4:ee:b4:05:06:07");
}

#[test]
fn a_printed_address_reads_back() {
    let mac = [0x00u8, 0x1a, 0xff, 0x80, 0x09, 0xc3];
    assert_eq!(ether_aton(&ether_ntoa(&mac)).unwrap(), mac);
}

#[test]
fn single_digit_groups_are_accepted() {
    assert_eq!(ether_aton("0:1:2:a:b:c").unwrap(), [0, 1, 2, 0xa, 0xb, 0xc]);
    assert!(ether_aton("00::22:33:44:55").is_none());
}
