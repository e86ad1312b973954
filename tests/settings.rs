use networking::settings::{keepalive_for, timeout_for};

#[test]
fn zero_keepalive_disables() {
    assert_eq!(keepalive_for(0), None);
    assert_eq!(keepalive_for(60), Some(60));
}

#[test]
fn zero_timeout_disables() {
    assert_eq!(timeout_for(0), None);
    assert_eq!(timeout_for(300), Some(300));
}
