use treblo::constants::{ContentType, GroupType, Status};
use treblo::error::{DomainError, ErrorDetail};
use treblo::fs::{FileEntry, LocalFilesystem};
use treblo::id::Id;

#[test]
fn status_and_type_codes() {
    assert_eq!(Status::Disabled.code(), 0);
    assert_eq!(Status::Enabled.code(), 1);
    assert_eq!(GroupType::Local.code(), 0);
    assert_eq!(GroupType::Remote.code(), 1);
    assert_eq!(GroupType::Meta.code(), 2);
    assert_eq!(GroupType::Attr.code(), 3);
    assert_eq!(ContentType::Unknown.code(), 0);
    assert_eq!(ContentType::Json.code(), 1);
    assert_eq!(ContentType::Text.code(), 2);
}

#[test]
fn typed_ids_carry_their_value() {
    struct Marker;
    let id: Id<Marker> = Id::new(42);
    assert_eq!(id.value, 42);
}

#[test]
fn domain_errors_carry_code_and_message() {
    match DomainError::params("bad_name", "name is empty".to_string()) {
        DomainError::Params(ds) => {
            assert_eq!(ds.len(), 1);
            assert_eq!(ds[0].message(), "name is empty");
        }
        _ => panic!("params must build a Params error"),
    }
    match DomainError::internal("oops", "broken".to_string()) {
        DomainError::Internal(d) => assert_eq!(d.message(), "broken"),
        _ => panic!("internal must build an Internal error"),
    }
    let d = ErrorDetail::new("code", "text".to_string());
    assert_eq!(d.message(), "text");
}

#[test]
fn local_filesystem_keeps_its_root() {
    let fs = LocalFilesystem::new("/data".to_string());
    assert_eq!(fs.base_path(), "/data");
    let e = FileEntry { path: "a/x".to_string(), is_dir: false };
    assert!(!e.is_dir);
    assert_eq!(e.path, "a/x");
}

#[test]
fn collaborator_errors_carry_their_text() {
    match DomainError::Others("socket closed".to_string()) {
        DomainError::Others(m) => assert_eq!(m, "socket closed"),
        _ => panic!("a collaborator error stays what it was"),
    }
}
