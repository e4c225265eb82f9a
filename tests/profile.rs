use mkey_exporter::profile::{build, ProfilerError};

#[test]
fn message_alone() {
    let e = ProfilerError::msg("not ready");
    assert_eq!("not ready", e.to_string());
    assert!(e.source().is_none());
}

#[test]
fn message_with_cause() {
    let e = ProfilerError::msg_cause("cannot build profiler", "no permission");
    assert_eq!("cannot build profiler: no permission", e.to_string());
    assert_eq!(Some("no permission"), e.source());
}

#[test]
fn no_op_profiler_has_no_profile() {
    let p = build().unwrap();
    let e = p.proto().unwrap_err();
    assert_eq!("not implemented", e.to_string());
}
