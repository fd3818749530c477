use kvs::cli::{report_get, report_remove, report_set, Report};
use kvs::KvsError;

#[test]
fn a_set_that_succeeded_prints_nothing() {
    let report = report_set(Ok(()));
    assert_eq!(report.exit_code(), 0);
    assert!(matches!(report, Report::Quiet));
}

#[test]
fn a_get_prints_the_value() {
    let report = report_get(Ok(Some("value1".to_string())));
    assert_eq!(report.exit_code(), 0);
    assert!(matches!(report, Report::Line(line) if line == "value1"));
}

#[test]
fn a_get_that_found_nothing_says_so_and_succeeds() {
    let report = report_get(Ok(None));
    assert_eq!(report.exit_code(), 0);
    assert!(matches!(report, Report::Line(line) if line == "Key not found"));
}

#[test]
fn a_local_rm_of_a_missing_key_is_refused() {
    let report = report_remove(Err(KvsError::KeyNotFound));
    assert_eq!(report.exit_code(), 1);
    assert!(matches!(report, Report::Refusal(line) if line == "Key not found"));
}

#[test]
fn a_remote_rm_that_failed_complains_with_the_server_s_text() {
    let report = report_remove(Err(KvsError::RemoteError("Key not found".to_string())));
    assert_eq!(report.exit_code(), 1);
    assert!(matches!(report, Report::Complaint(line) if line == "Key not found"));
}

#[test]
fn an_rm_that_succeeded_prints_nothing() {
    let report = report_remove(Ok(()));
    assert_eq!(report.exit_code(), 0);
    assert!(matches!(report, Report::Quiet));
}

#[test]
fn other_errors_are_the_program_s_failure() {
    let report = report_set(Err(KvsError::Io("refused".to_string())));
    assert_eq!(report.exit_code(), 1);
    assert!(matches!(report, Report::Fault(KvsError::Io(text)) if text == "refused"));
    assert!(matches!(
        report_get(Err(KvsError::RemoteError("boom".to_string()))),
        Report::Fault(KvsError::RemoteError(text)) if text == "boom"
    ));
    assert!(matches!(
        report_remove(Err(KvsError::Bincode("short".to_string()))),
        Report::Fault(KvsError::Bincode(text)) if text == "short"
    ));
}
