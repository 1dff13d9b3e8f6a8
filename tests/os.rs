use rrg_codec::os::{installed, kind, kind_of, version, Kind};

#[test]
fn version_not_empty() {
    assert!(!version().unwrap().is_empty());
}

#[test]
fn kernel_names_map_to_kinds() {
    assert_eq!(kind_of("Linux"), Some(Kind::Linux));
    assert_eq!(kind_of("Darwin"), Some(Kind::Macos));
    assert_eq!(kind_of("Windows_NT"), Some(Kind::Windows));
    assert_eq!(kind_of("Plan9"), None);
}

#[test]
fn running_system_has_a_known_kind() {
    assert_eq!(kind(), Some(Kind::Linux));
}

#[test]
fn installation_time_is_the_earliest_timestamp() {
    assert_eq!(installed(&[]), None);
    assert_eq!(installed(&[1_600_000_000]), Some(1_600_000_000));
    assert_eq!(installed(&[1_700_000_000, 1_500_000_000, 1_600_000_000]), Some(1_500_000_000));
    assert_eq!(installed(&[7, 7]), Some(7));
}
