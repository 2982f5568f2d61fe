use recoll_next::sdk::endpoint::{all_endpoints, Method};

#[test]
fn endpoints_contain_required_routes() {
    let endpoints = all_endpoints();
    let paths: Vec<&str> = endpoints.iter().map(|e| e.path.as_str()).collect();
    assert!(paths.contains(&"/api/v1/search"));
    assert!(paths.contains(&"/api/v1/health"));
    assert!(paths.contains(&"/api/v1/stats"));
}

#[test]
fn search_endpoint_is_post() {
    let endpoints = all_endpoints();
    let search = endpoints
        .iter()
        .find(|e| e.path == "/api/v1/search")
        .unwrap();
    assert_eq!(search.method, Method::Post);
}

#[test]
fn health_endpoint_is_get() {
    let endpoints = all_endpoints();
    let health = endpoints
        .iter()
        .find(|e| e.path == "/api/v1/health")
        .unwrap();
    assert_eq!(health.method, Method::Get);
}

#[test]
fn endpoints_are_listed_in_order_with_descriptions() {
    let endpoints = all_endpoints();
    let listed: Vec<(&str, Method, &str)> = endpoints
        .iter()
        .map(|e| (e.path.as_str(), e.method, e.description.as_str()))
        .collect();
    assert_eq!(
        listed,
        vec![
            ("/api/v1/search", Method::Post, "Full-text search"),
            ("/api/v1/health", Method::Get, "Health check"),
            ("/api/v1/stats", Method::Get, "Index statistics"),
            ("/api/v1/index", Method::Post, "Trigger indexing"),
            ("/api/v1/config", Method::Get, "Current configuration"),
        ]
    );
}
