use recoll_next::sdk::request::SearchRequest;

#[test]
fn valid_request_passes_validation() {
    let req = SearchRequest {
        query: "hello".to_string(),
        limit: 20,
        offset: 0,
    };
    assert!(req.validate().is_ok());
}

#[test]
fn empty_query_fails_validation() {
    let req = SearchRequest {
        query: "".to_string(),
        limit: 20,
        offset: 0,
    };
    assert!(req.validate().is_err());
}

#[test]
fn zero_limit_fails_validation() {
    let req = SearchRequest {
        query: "hello".to_string(),
        limit: 0,
        offset: 0,
    };
    assert!(req.validate().is_err());
}

#[test]
fn validation_errors_name_the_problem() {
    let empty = SearchRequest { query: String::new(), limit: 0, offset: 0 };
    assert_eq!(empty.validate(), Err("empty query".to_string()));
    let zero = SearchRequest { query: "x".to_string(), limit: 0, offset: 3 };
    assert_eq!(zero.validate(), Err("invalid limit".to_string()));
}

#[test]
fn new_request_has_defaults_and_validates() {
    let req = SearchRequest::new("rust");
    assert_eq!(req.query, "rust");
    assert_eq!(req.limit, 20);
    assert_eq!(req.offset, 0);
    assert!(req.validate().is_ok());
    assert!(SearchRequest::new("").validate().is_err());
}
