use pink_lady::endpoint::{reply_to, route, Reply, Route, Target};

fn path(path: &str) -> Target {
    Target { absolute: false, path: path.to_string(), query: None }
}

#[test]
fn one_path_serves_the_metrics() {
    assert_eq!(route(&path("/metrics")), Route::Metrics);
}

#[test]
fn every_other_path_is_not_found() {
    for other in ["", "/", "/metrics/", "/Metrics", "metrics", "/metric", "/metricss", " /metrics", "*"] {
        assert_eq!(route(&path(other)), Route::NotFound, "{:?}", other);
    }
}

#[test]
fn a_query_is_asked_of_nothing_that_is_served() {
    let mut target = path("/metrics");
    target.query = Some("x=1".to_string());
    assert_eq!(route(&target), Route::NotFound);
    target.query = Some(String::new());
    assert_eq!(route(&target), Route::Metrics);
    target.path = "/other".to_string();
    assert_eq!(route(&target), Route::NotFound);
}

#[test]
fn an_absolute_target_is_not_found() {
    let mut target = path("/metrics");
    target.absolute = true;
    assert_eq!(route(&target), Route::NotFound);
}

#[test]
fn the_metrics_are_served_as_openmetrics_text() {
    assert_eq!(
        reply_to(Route::Metrics, Some("# EOF\n".to_string())),
        Reply {
            status: 200,
            content_type: Some(
                "application/openmetrics-text; version=1.0.0; charset=utf-8".to_string()
            ),
            body: "# EOF\n".to_string(),
        }
    );
}

#[test]
fn a_failed_encoding_is_a_server_error() {
    assert_eq!(
        reply_to(Route::Metrics, None),
        Reply { status: 500, content_type: None, body: String::new() }
    );
}

#[test]
fn not_found_has_no_body_whatever_was_encoded() {
    let expected = Reply { status: 404, content_type: None, body: String::new() };
    assert_eq!(reply_to(Route::NotFound, None), expected);
    assert_eq!(reply_to(Route::NotFound, Some("metrics".to_string())), expected);
}
