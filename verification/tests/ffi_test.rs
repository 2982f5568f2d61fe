use recoll_next::sdk::ffi::{FfiResult, FfiSearchResult};

#[test]
fn ffi_result_ok_is_success() {
    let r = FfiResult::ok("data".to_string());
    assert!(r.is_ok);
    assert!(r.error_msg.is_empty());
}

#[test]
fn ffi_result_err_has_message() {
    let r = FfiResult::err("failed".to_string());
    assert!(!r.is_ok);
    assert_eq!(r.error_msg, "failed");
}

#[test]
fn ffi_search_result_has_correct_total() {
    let hits = vec!["a".to_string(), "b".to_string(), "c".to_string()];
    let result = FfiSearchResult::new(hits);
    assert_eq!(result.total, 3);
}

#[test]
fn ffi_result_ok_keeps_data_and_err_has_no_data() {
    let ok = FfiResult::ok("payload".to_string());
    assert_eq!(ok.data, "payload");
    let err = FfiResult::err("boom".to_string());
    assert!(err.data.is_empty());
}

#[test]
fn ffi_search_result_hits_are_a_json_array() {
    let hits = vec!["a".to_string(), "b\"c".to_string()];
    let result = FfiSearchResult::new(hits);
    assert_eq!(result.hits_json, "[\"a\",\"b\\\"c\"]");
    let empty = FfiSearchResult::new(Vec::new());
    assert_eq!(empty.total, 0);
    assert_eq!(empty.hits_json, "[]");
}

#[test]
fn search_result_json_escapes_quotes_and_control_characters() {
    let hits = vec!["x\n\u{1}/\u{e9}\t".to_string(), "\\\"".to_string()];
    let result = FfiSearchResult::new(hits);
    assert_eq!(result.total, 2);
    assert_eq!(result.hits_json, "[\"x\\n\\u0001/\u{e9}\\t\",\"\\\\\\\"\"]");
}
