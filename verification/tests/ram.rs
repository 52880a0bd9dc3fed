use dictawav::ram::Ram;
use dictawav::ConfigurationError;

#[test]
fn cumulative_counts_occurrences() {
    let mut ram = Ram::new(4, true);
    assert_eq!(ram.get(3), 0);
    assert!(ram.insert(3).is_ok());
    assert_eq!(ram.get(3), 1);
    assert!(ram.insert(3).is_ok());
    assert_eq!(ram.get(3), 2);
    assert!(ram.remove(3).is_ok());
    assert_eq!(ram.get(3), 1);
    assert_eq!(ram.get(2), 0);
}

#[test]
fn non_cumulative_is_a_flag() {
    let mut ram = Ram::new(4, false);
    assert!(ram.insert(7).is_ok());
    assert!(ram.insert(7).is_ok());
    assert_eq!(ram.get(7), 1);
    assert!(ram.remove(7).is_ok());
    assert_eq!(ram.get(7), 0);
}

#[test]
fn cumulative_remove_on_absent_address_floors_at_zero() {
    let mut ram = Ram::new(4, true);
    assert!(ram.remove(5).is_ok());
    assert_eq!(ram.get(5), 0);
    assert!(ram.remove(5).is_ok());
    assert_eq!(ram.get(5), 0);
}

#[test]
fn address_beyond_the_space_is_rejected() {
    let mut ram = Ram::new(2, false);
    // Valid addresses run from 0 to 2^2 - 1.
    assert!(ram.insert(3).is_ok());
    assert_eq!(ram.insert(4), Err(ConfigurationError::AddressOutOfRange));
    assert_eq!(ram.remove(4), Err(ConfigurationError::AddressOutOfRange));
    assert_eq!(ram.get(4), 0);
}

#[test]
fn widest_table_accepts_the_full_address_space() {
    let mut ram = Ram::new(62, true);
    let last_address = (1u64 << 62) - 1;
    assert!(ram.insert(last_address).is_ok());
    assert_eq!(ram.get(last_address), 1);
    assert_eq!(
        ram.insert(last_address + 1),
        Err(ConfigurationError::AddressOutOfRange)
    );
}

#[test]
fn train_then_forget_restores_cumulative_counts() {
    let mut ram = Ram::new(6, true);
    assert!(ram.insert(33).is_ok());
    assert!(ram.insert(33).is_ok());
    assert!(ram.insert(40).is_ok());
    let before_33 = ram.get(33);
    let before_40 = ram.get(40);
    assert!(ram.insert(33).is_ok());
    assert!(ram.remove(33).is_ok());
    assert_eq!(ram.get(33), before_33);
    assert_eq!(ram.get(40), before_40);
}
