use candlestore::affinity::{core_for, PinCall, Platform};
use candlestore::settings::{env_str, env_usize, metrics_port, number_setting};
use candlestore::shutdown::{after_wait, JoinAction};
use candlestore::{available_cores, pin_to_core};

#[test]
fn numbers_fall_back_to_the_default() {
    assert_eq!(env_usize(Some("42"), 7), 42);
    assert_eq!(env_usize(Some("+42"), 7), 42);
    assert_eq!(env_usize(None, 7), 7);
    assert_eq!(env_usize(Some(""), 7), 7);
    assert_eq!(env_usize(Some(" 42"), 7), 7);
    assert_eq!(env_usize(Some("-1"), 7), 7);
    assert_eq!(env_usize(Some("18446744073709551616"), 7), 7);
    assert_eq!(env_usize(Some("18446744073709551615"), 7), usize::MAX);
    assert_eq!(number_setting(Some("11"), 10, 3), 3);
}

#[test]
fn ports_have_sixteen_bits() {
    assert_eq!(metrics_port(Some("9100"), 9090), 9100);
    assert_eq!(metrics_port(Some("65536"), 9090), 9090);
    assert_eq!(metrics_port(None, 9091), 9091);
}

#[test]
fn texts_are_taken_as_they_are() {
    assert_eq!(env_str(Some(""), "x"), "");
    assert_eq!(env_str(None, "x"), "x");
}

#[test]
fn cores_are_pinned_by_platform() {
    let call = pin_to_core(3, Platform::Linux);
    assert_eq!(call, PinCall::SetAffinity { core_id: 3 });
    assert!(call.succeeded(0));
    assert!(!call.succeeded(-1));
    assert_eq!(pin_to_core(3, Platform::MacOs), PinCall::SetTag { tag: 4 });
    assert_eq!(pin_to_core(1023, Platform::Linux), PinCall::SetAffinity { core_id: 1023 });
    let beyond = pin_to_core(4096, Platform::Linux);
    assert_eq!(beyond, PinCall::Nothing);
    assert!(!beyond.succeeded(0));
    let nothing = pin_to_core(3, Platform::Other);
    assert_eq!(nothing, PinCall::Nothing);
    assert!(!nothing.succeeded(0));
}

#[test]
fn cores_are_counted_round() {
    assert_eq!(available_cores(Some(8)), 8);
    assert_eq!(available_cores(None), 1);
    assert_eq!(core_for(9, 8), 1);
    assert_ne!(core_for(7, 8), core_for(8, 8));
}

#[test]
fn threads_are_waited_for_five_seconds() {
    assert_eq!(after_wait(true, 0), JoinAction::Join);
    assert_eq!(after_wait(true, 9_999), JoinAction::Join);
    assert_eq!(after_wait(false, 0), JoinAction::Sleep);
    assert_eq!(after_wait(false, 4_999), JoinAction::Sleep);
    assert_eq!(after_wait(false, 5_000), JoinAction::Detach);
}
