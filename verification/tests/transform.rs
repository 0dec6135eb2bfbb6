use kubesense_log_pattern::cluster::LogCluster;
use kubesense_log_pattern::similarity::SimThreshold;
use kubesense_log_pattern::transform::{
    default_max_children, default_max_clusters, default_max_node_depth,
    default_similarity_threshold, naming_field, ClusterFields, KubesenseLogPattern, KubesenseLogPatternConfig,
    LogChange, LogFields,
};

fn config(cluster_field: Option<&str>) -> KubesenseLogPatternConfig {
    KubesenseLogPatternConfig {
        max_clusters: default_max_clusters(),
        similarity_threshold: default_similarity_threshold(),
        max_node_depth: default_max_node_depth(),
        max_children: default_max_children(),
        cluster_field: cluster_field.map(|s| s.to_string()),
    }
}

fn event(fields: &[(&str, &str)]) -> LogFields {
    let mut log = LogFields::new();
    for (path, text) in fields {
        log.insert(path.to_string(), text.to_string());
    }
    log
}

fn line_of(cluster_field: Option<&str>, fields: &[(&str, &str)]) -> (Option<String>, Option<String>) {
    KubesenseLogPattern::new(&config(cluster_field)).get_cluster_line(&event(fields), "message")
}

fn some(s: &str) -> Option<String> {
    Some(s.to_string())
}

#[test]
fn defaults() {
    assert_eq!(default_max_clusters(), 1000);
    assert_eq!(default_similarity_threshold(), SimThreshold::from_bits(0.5f64.to_bits()));
    assert_eq!(default_max_node_depth(), 6);
    assert_eq!(default_max_children(), 100);
    let c = KubesenseLogPatternConfig::default();
    assert_eq!((c.max_clusters, c.max_node_depth, c.max_children), (0, 0, 0));
    assert_eq!(c.similarity_threshold.bits, 0.0f64.to_bits());
    assert!(c.cluster_field.is_none());
}

#[test]
fn fields_hold_the_last_text() {
    let log = event(&[("a", "x"), ("b", "y"), ("a", "z")]);
    assert_eq!(log.get("a"), Some(&"z".to_string()));
    assert_eq!(log.get("b"), Some(&"y".to_string()));
    assert_eq!(log.get("c"), None);
}

#[test]
fn the_field_that_is_set_comes_first() {
    let fields = [("body", "l"), ("message.message_key", "other"), ("other", "o"), ("message", "m")];
    assert_eq!(line_of(Some("body"), &fields), (some("body"), some("l")));
    assert_eq!(line_of(Some("absent"), &fields), (some("absent"), None));
}

#[test]
fn then_the_field_that_the_event_names() {
    let fields = [("message.message_key", "other"), ("other", "o"), ("message", "m")];
    assert_eq!(line_of(None, &fields), (some("other"), some("o")));
    let fields = [("message.message_key", "absent"), ("message", "m")];
    assert_eq!(line_of(None, &fields), (some("absent"), None));
}

#[test]
fn then_the_message() {
    assert_eq!(line_of(None, &[("message", "m")]), (some("message"), some("m")));
    assert_eq!(line_of(None, &[("body", "l")]), (None, None));
}

#[test]
fn writes_the_cluster_of_the_line() {
    let mut t = KubesenseLogPattern::new(&config(None));
    let mut last = 0;
    for (i, line) in ["took 12 ms", "took 14 ms", "took 9 ms"].iter().enumerate() {
        match t.transform_log(&event(&[("message", line)]), "message") {
            LogChange::Write(field, fields) => {
                assert_eq!(field, "message");
                assert_eq!(fields.template, "took <*> ms");
                assert_eq!(
                    fields.cluster_id,
                    LogCluster::new(1, true, vec!["took", "1", "ms"]).cluster_id()
                );
                assert_eq!(fields.match_count, i as i64 + 1);
                last = fields.match_count;
            }
            _ => unreachable!(),
        }
    }
    assert_eq!(last, 3);
}

#[test]
fn keeps_events_without_a_line() {
    let mut t = KubesenseLogPattern::new(&config(Some("body")));
    assert!(matches!(t.transform_log(&event(&[("message", "m")]), "message"), LogChange::Keep));
    assert!(matches!(t.transform_log(&event(&[]), "message"), LogChange::Keep));
}

#[test]
fn refuses_a_line_that_there_is_no_room_for() {
    let mut c = config(None);
    c.max_children = 0;
    let mut t = KubesenseLogPattern::new(&c);
    assert!(matches!(t.transform_log(&event(&[("message", "a b")]), "message"), LogChange::Refuse));
    assert!(matches!(t.transform_log(&event(&[("message", "a")]), "message"), LogChange::Write(_, _)));
}

#[test]
fn a_written_event_is_kept() {
    let cases = [
        (None, "message", vec![("message", "took 3 ms")]),
        (Some("body"), "body", vec![("body", "took 3 ms"), ("message", "x")]),
        (None, "body", vec![("message.message_key", "body"), ("body", "took 3 ms")]),
        (None, "message.message_key", vec![("message.message_key", "message.message_key")]),
    ];
    for (cluster_field, name, fields) in cases {
        let mut t = KubesenseLogPattern::new(&config(cluster_field));
        let mut after = LogFields::new();
        for (path, text) in &fields {
            if *path != name {
                after.insert(path.to_string(), text.to_string());
            }
        }
        let Some((field, written)) = written_by(&mut t, &event(&fields)) else {
            panic!("nothing written");
        };
        assert_eq!(field, name);
        assert_eq!(written.match_count, 1);
        after.insert(format!("{name}.cluster_id"), written.cluster_id);
        after.insert(format!("{name}.template"), written.template);
        assert!(matches!(t.transform_log(&after, "message"), LogChange::Keep));
        let Some((_, again)) = written_by(&mut t, &event(&fields)) else {
            panic!("nothing written");
        };
        assert_eq!(again.match_count, 2);
    }
}

fn written_by(t: &mut KubesenseLogPattern, log: &LogFields) -> Option<(String, ClusterFields)> {
    match t.transform_log(log, "message") {
        LogChange::Write(field, fields) => Some((field, fields)),
        _ => None,
    }
}

#[test]
fn a_few_paths_decide() {
    let paths = |cluster_field: Option<&str>, named: Option<&str>| {
        KubesenseLogPattern::new(&config(cluster_field)).paths_to_read("message", named.map(str::to_string))
    };
    assert_eq!(naming_field("message"), "message.message_key");
    assert_eq!(paths(Some("body"), None), vec!["body"]);
    assert_eq!(paths(Some("body"), Some("text")), vec!["body"]);
    assert_eq!(paths(None, Some("text")), vec!["message.message_key", "text"]);
    assert_eq!(paths(None, None), vec!["message.message_key", "message"]);
    let fields = [("message.message_key", "text"), ("text", "a line"), ("message", "x"), ("other", "y")];
    let t = KubesenseLogPattern::new(&config(None));
    let mut read = LogFields::new();
    for path in paths(None, some("text").as_deref()) {
        let (_, text) = fields.iter().find(|f| f.0 == path).unwrap();
        read.insert(path, text.to_string());
    }
    assert_eq!(t.get_cluster_line(&read, "message"), t.get_cluster_line(&event(&fields), "message"));
    assert_eq!(t.get_cluster_line(&read, "message"), (some("text"), some("a line")));
}
