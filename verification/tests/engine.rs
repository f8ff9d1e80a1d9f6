use metrics_proxy::{aggregate, aggregate_grouped, aggregate_ordered, apply_labels, is_meta_line,
    LabelSet, Strategy, TargetText};

const METRICS_1: &str = r#"
# TYPE http_requests_total counter
http_requests_total{method="get",code="200"} 512

# HELP queue_length The number of outstanding jobs in the queue
# TYPE queue_length gauge
queue_length 7

# TYPE process_memory_bytes gauge
process_memory_bytes 1.23e+07

# HELP request_time Request time in seconds
# TYPE request_time histogram
request_time_bucket{le="1"} 5
request_time_bucket{le="+Inf"} 7
    "#;

const METRICS_2: &str = r#"
# HELP queue_length The number of outstanding jobs in the queue
# TYPE queue_length gauge
queue_length 10

# HELP request_time Request time in seconds
# TYPE request_time histogram
request_time_bucket{le="1"} 7
request_time_bucket{le="+Inf"} 10

# TYPE process_memory_bytes gauge
process_memory_bytes 1.23e+07

# TYPE http_requests_total counter
http_requests_total{method="get",code="200"} 1024"#;

const COMBINED_METRICS_WITH_LABELS: &str = r#"# TYPE http_requests_total counter
http_requests_total{method="get",code="200",app_name="a"} 512
http_requests_total{method="get",code="200",app_name="b"} 1024

# TYPE process_memory_bytes gauge
process_memory_bytes{app_name="a"} 1.23e+07
process_memory_bytes{app_name="b"} 1.23e+07

# HELP queue_length The number of outstanding jobs in the queue
# TYPE queue_length gauge
queue_length{app_name="a"} 7
queue_length{app_name="b"} 10

# HELP request_time Request time in seconds
# TYPE request_time histogram
request_time_bucket{le="+Inf",app_name="a"} 7
request_time_bucket{le="+Inf",app_name="b"} 10
request_time_bucket{le="1",app_name="a"} 5
request_time_bucket{le="1",app_name="b"} 7"#;

fn label_set(pairs: &[(&str, &str)]) -> LabelSet {
    let mut ls = LabelSet::new();
    for (k, v) in pairs {
        ls.insert(k.to_string(), v.to_string());
    }
    ls
}

fn target(labels: &[(&str, &str)], body: &str) -> TargetText {
    TargetText { labels: label_set(labels), body: body.to_string() }
}

// It should return the metrics and metadata from both target endpoints:
// - deduped
// - sorted alphabetically
// - same metrics grouped together, separated by newlines
#[test]
fn returns_combines_metrics_with_labels() {
    let inputs = vec![
        target(&[("app_name", "a")], METRICS_1),
        target(&[("app_name", "b")], METRICS_2),
    ];
    let body = aggregate_grouped(&inputs);
    assert_eq!(body, COMBINED_METRICS_WITH_LABELS);
}

#[test]
fn grouped_output_is_order_independent() {
    let forwards = vec![
        target(&[("app_name", "a")], METRICS_1),
        target(&[("app_name", "b")], METRICS_2),
    ];
    let backwards = vec![
        target(&[("app_name", "b")], METRICS_2),
        target(&[("app_name", "a")], METRICS_1),
    ];
    assert_eq!(aggregate_grouped(&forwards), aggregate_grouped(&backwards));
    assert_eq!(aggregate_grouped(&forwards), COMBINED_METRICS_WITH_LABELS);
}

#[test]
fn strategy_dispatch_matches_direct_calls() {
    let inputs = vec![
        target(&[("app_name", "a")], METRICS_1),
        target(&[("app_name", "b")], METRICS_2),
    ];
    assert_eq!(aggregate(&Strategy::GroupedSorted, &inputs), aggregate_grouped(&inputs));
    assert_eq!(aggregate(&Strategy::OrderedDedup, &inputs), aggregate_ordered(&inputs));
}

#[test]
fn apply_labels_injects_into_existing_label_list() {
    let labels = label_set(&[("app_name", "a")]);
    let out = apply_labels(&labels, "http_requests_total{method=\"get\"} 5");
    assert_eq!(out, "http_requests_total{method=\"get\",app_name=\"a\"} 5");
}

#[test]
fn apply_labels_adds_new_label_list() {
    let labels = label_set(&[("app_name", "a")]);
    let out = apply_labels(&labels, "queue_length 7");
    assert_eq!(out, "queue_length{app_name=\"a\"} 7");
}

#[test]
fn apply_labels_leaves_metadata_untouched_but_trimmed() {
    let labels = label_set(&[("app_name", "a")]);
    let out = apply_labels(&labels, "  # HELP queue_length The queue length  \nqueue_length 7");
    assert_eq!(out, "# HELP queue_length The queue length\nqueue_length{app_name=\"a\"} 7");
}

#[test]
fn apply_labels_with_empty_label_set_keeps_sample_lines() {
    let labels = LabelSet::new();
    let out = apply_labels(&labels, "queue_length 7");
    assert_eq!(out, "queue_length 7");
}

#[test]
fn apply_labels_serializes_keys_in_lexicographic_order() {
    let one_way = label_set(&[("zone", "eu"), ("app_name", "a")]);
    let other_way = label_set(&[("app_name", "a"), ("zone", "eu")]);
    let expected = "queue_length{app_name=\"a\",zone=\"eu\"} 7";
    assert_eq!(apply_labels(&one_way, "queue_length 7"), expected);
    assert_eq!(apply_labels(&other_way, "queue_length 7"), expected);
}

#[test]
fn label_insert_replaces_value_under_same_key() {
    let mut labels = LabelSet::new();
    labels.insert("app_name".to_string(), "old".to_string());
    labels.insert("app_name".to_string(), "new".to_string());
    assert_eq!(apply_labels(&labels, "queue_length 7"), "queue_length{app_name=\"new\"} 7");
}

#[test]
fn apply_labels_drops_sample_line_without_value() {
    let labels = label_set(&[("app_name", "a")]);
    let out = apply_labels(&labels, "queue_length 7\nbogusline\nqueue_depth 9");
    assert_eq!(out, "queue_length{app_name=\"a\"} 7\nqueue_depth{app_name=\"a\"} 9");
}

#[test]
fn grouped_drops_unnamed_group_but_keeps_the_rest() {
    let body = "# a stray comment with no name\n\n# TYPE queue_length gauge\nqueue_length 7";
    let inputs = vec![target(&[("app_name", "a")], body)];
    let out = aggregate_grouped(&inputs);
    assert_eq!(out, "# TYPE queue_length gauge\nqueue_length{app_name=\"a\"} 7");
}

#[test]
fn grouped_merges_duplicate_lines_once() {
    let body = "# TYPE queue_length gauge\nqueue_length 7";
    let inputs = vec![
        target(&[("app_name", "a")], body),
        target(&[("app_name", "a")], body),
    ];
    let out = aggregate_grouped(&inputs);
    assert_eq!(out, "# TYPE queue_length gauge\nqueue_length{app_name=\"a\"} 7");
}

#[test]
fn grouped_on_no_targets_is_empty() {
    let inputs: Vec<TargetText> = Vec::new();
    assert_eq!(aggregate_grouped(&inputs), "");
    assert_eq!(aggregate_ordered(&inputs), "");
}

#[test]
fn ordered_keeps_first_seen_order_and_dedups() {
    let inputs = vec![
        target(&[("app_name", "a")], "# TYPE b gauge\nb 1\n# TYPE a gauge\na 2"),
        target(&[("app_name", "a")], "# TYPE a gauge\na 2"),
    ];
    let out = aggregate_ordered(&inputs);
    assert_eq!(
        out,
        "# TYPE b gauge\nb{app_name=\"a\"} 1\n# TYPE a gauge\na{app_name=\"a\"} 2"
    );
}

#[test]
fn ordered_with_only_successful_target_still_serves_its_lines() {
    let inputs = vec![target(&[("app_name", "b")], "queue_length 10\nqueue_length 10")];
    let out = aggregate_ordered(&inputs);
    assert_eq!(out, "queue_length{app_name=\"b\"} 10");
}

#[test]
fn ordered_differs_from_grouped_on_target_order() {
    let one = vec![
        target(&[("app_name", "a")], "z_metric 1"),
        target(&[("app_name", "b")], "a_metric 2"),
    ];
    let out = aggregate_ordered(&one);
    assert_eq!(out, "z_metric{app_name=\"a\"} 1\na_metric{app_name=\"b\"} 2");
    let grouped = aggregate_grouped(&one);
    assert_eq!(grouped, "a_metric{app_name=\"b\"} 2\n\nz_metric{app_name=\"a\"} 1");
}

#[test]
fn colliding_upstream_and_injected_keys_both_appear() {
    let labels = label_set(&[("app_name", "a")]);
    let out = apply_labels(&labels, "foo{app_name=\"x\"} 1");
    assert_eq!(out, "foo{app_name=\"x\",app_name=\"a\"} 1");
}

#[test]
fn crlf_input_is_handled_by_line_trimming() {
    let labels = label_set(&[("app_name", "a")]);
    let out = apply_labels(&labels, "# TYPE queue_length gauge\r\nqueue_length 7\r\n");
    assert_eq!(out, "# TYPE queue_length gauge\nqueue_length{app_name=\"a\"} 7");
}

#[test]
fn metadata_line_detection() {
    assert!(is_meta_line("# HELP queue_length x"));
    assert!(is_meta_line("#"));
    assert!(!is_meta_line("queue_length 7"));
    assert!(!is_meta_line(""));
}

#[test]
fn group_name_falls_back_to_sample_line() {
    let body = "only_samples{x=\"1\"} 4\nonly_samples{x=\"2\"} 5";
    let inputs = vec![target(&[], body)];
    let out = aggregate_grouped(&inputs);
    assert_eq!(out, "only_samples{x=\"1\"} 4\nonly_samples{x=\"2\"} 5");
}
