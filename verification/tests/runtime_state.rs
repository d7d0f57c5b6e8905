use std::time::Duration;

use bee_runtime::runtime::types::ShutdownReasonAtomic;
use bee_runtime::service::names_match;
use bee_runtime::{RuntimeBuilder, ServiceContext, ServiceStartError, ShutdownReason};

#[test]
fn reason_bytes() {
    assert_eq!(ShutdownReason::Requested.as_u8(), 1);
    assert_eq!(ShutdownReason::ServiceFailed.as_u8(), 2);
    assert_eq!(ShutdownReason::Signal.as_u8(), 3);
}

#[test]
fn reason_roundtrip() {
    for r in [ShutdownReason::Requested, ShutdownReason::ServiceFailed, ShutdownReason::Signal] {
        assert_eq!(ShutdownReason::from_u8(r.as_u8()), r);
    }
}

#[test]
fn unknown_reason_byte_reads_as_requested() {
    assert_eq!(ShutdownReason::from_u8(0), ShutdownReason::Requested);
    assert_eq!(ShutdownReason::from_u8(200), ShutdownReason::Requested);
}

#[test]
fn atomic_reason_stores_and_loads() {
    let a = ShutdownReasonAtomic::new(ShutdownReason::Requested);
    assert_eq!(a.load(), ShutdownReason::Requested);
    a.store(ShutdownReason::Signal);
    assert_eq!(a.load(), ShutdownReason::Signal);
    a.store(ShutdownReason::ServiceFailed);
    assert_eq!(a.load(), ShutdownReason::ServiceFailed);
}

#[test]
fn names_match_compares_strings() {
    assert!(names_match("ticker", "ticker"));
    assert!(!names_match("ticker", "printer"));
    assert!(!names_match("tick", "ticker"));
    assert!(names_match("", ""));
    assert!(names_match("größe", "größe"));
}

#[test]
fn builder_rejects_duplicate_names() {
    let b = RuntimeBuilder::<u32>::new();
    let b = b.service0("ticker", 1).unwrap();
    let b = b.service("printer", &["ticker"], 2).unwrap();
    match b.service("ticker", &[], 3) {
        Err(ServiceStartError::Duplicate(name)) => assert_eq!(name, "ticker"),
        _ => panic!("duplicate accepted"),
    }
}

#[test]
fn builder_keeps_registration_order() {
    let rt = RuntimeBuilder::<u32>::default()
        .service0("a", 10)
        .unwrap()
        .service("b", &["a"], 20)
        .unwrap()
        .build();
    assert_eq!(rt.specs().len(), 2);
    assert_eq!(rt.specs()[0].name, "a");
    assert!(rt.specs()[0].deps.is_empty());
    assert_eq!(rt.specs()[0].factory, 10);
    assert_eq!(rt.specs()[1].name, "b");
    assert_eq!(rt.specs()[1].deps, vec!["a"]);
    assert_eq!(rt.specs()[1].factory, 20);
}

#[test]
fn builder_timeout_defaults_to_ten_seconds() {
    let rt = RuntimeBuilder::<()>::new().build();
    assert_eq!(rt.shutdown_timeout(), Duration::from_secs(10));
}

#[test]
fn builder_timeout_can_be_set() {
    let rt = RuntimeBuilder::<()>::new().shutdown_timeout(Duration::from_millis(1500)).build();
    assert_eq!(rt.shutdown_timeout(), Duration::from_millis(1500));
}

#[test]
fn fresh_runtime_is_not_shutting_down() {
    let rt = RuntimeBuilder::<()>::new().build();
    let h = rt.handle();
    assert!(!h.is_shutting_down());
    assert_eq!(h.shutdown_reason(), ShutdownReason::Requested);
    assert!(!h.cancellation_token().is_cancelled());
}

#[test]
fn request_shutdown_records_reason_and_cancels() {
    let rt = RuntimeBuilder::<()>::new().build();
    let h = rt.handle();
    let token = rt.cancellation_token();
    let ctx = ServiceContext { cancel: token.child_token(), runtime: h.clone() };
    let sub = ctx.child_cancel();
    h.request_shutdown(ShutdownReason::Signal);
    assert!(h.is_shutting_down());
    assert_eq!(h.shutdown_reason(), ShutdownReason::Signal);
    assert!(token.is_cancelled());
    assert!(ctx.cancel.is_cancelled());
    assert!(sub.is_cancelled());
    assert!(ctx.runtime.is_shutting_down());
}

#[test]
fn handles_share_the_runtime_state() {
    let rt = RuntimeBuilder::<()>::new().build();
    let h1 = rt.handle();
    let h2 = h1.clone();
    h2.request_shutdown(ShutdownReason::ServiceFailed);
    assert!(h1.is_shutting_down());
    assert_eq!(h1.shutdown_reason(), ShutdownReason::ServiceFailed);
}

#[test]
fn cancellation_tokens_are_the_root_token() {
    let rt = RuntimeBuilder::<()>::new().build();
    let h = rt.handle();
    assert!(h.cancellation_token() == rt.cancellation_token());
    assert!(rt.cancellation_token() == rt.cancellation_token());
    assert!(ServiceContext { cancel: rt.cancellation_token(), runtime: h.clone() }.child_cancel() != rt.cancellation_token());
}

#[test]
fn runtime_debug_text_counts_services() {
    let rt = RuntimeBuilder::<u8>::new().service0("a", 1).unwrap().service("b", &["a"], 2).unwrap().build();
    assert_eq!(rt.debug_string(), "Runtime { specs_len: 2 }");
    let empty = RuntimeBuilder::<u8>::new().build();
    assert_eq!(empty.debug_string(), "Runtime { specs_len: 0 }");
}

#[test]
fn service_spec_debug_text_leaves_out_the_factory() {
    let rt = RuntimeBuilder::<u8>::new()
        .service0("a", 1)
        .unwrap()
        .service("print\"er", &["a", "b"], 2)
        .unwrap()
        .build();
    assert_eq!(rt.specs()[0].debug_string(), "ServiceSpec { name: \"a\", deps: [], .. }");
    assert_eq!(
        rt.specs()[1].debug_string(),
        "ServiceSpec { name: \"print\\\"er\", deps: [\"a\", \"b\"], .. }"
    );
}
