use kubesense_log_pattern::classifier::LogClusterStatus::{ChangedTemplate, Unchanged};
use kubesense_log_pattern::classifier::{LogClusterStatus, LogPatternClassifier};
use kubesense_log_pattern::cluster::LogCluster;
use kubesense_log_pattern::similarity::SimThreshold;
use kubesense_log_pattern::text::tokenize;

fn threshold(t: f64) -> SimThreshold {
    SimThreshold::from_bits(t.to_bits())
}

fn add(c: &mut LogPatternClassifier, line: &str) -> (String, usize, usize, LogClusterStatus) {
    assert!(c.accepts(line));
    let (group, status) = c.add_log_message(line);
    (group.template(), group.cluster_size(), group.local_id(), status)
}

fn took(template: &str, size: usize, id: usize, status: LogClusterStatus) -> (String, usize, usize, LogClusterStatus) {
    (template.to_string(), size, id, status)
}

#[test]
fn numbers_are_parameters() {
    let mut c = LogPatternClassifier::new(10);
    assert_eq!(add(&mut c, "took 12 ms"), took("took <*> ms", 1, 1, ChangedTemplate));
    assert_eq!(add(&mut c, "took 13 ms"), took("took <*> ms", 2, 1, Unchanged));
}

#[test]
fn numbers_are_texts_where_they_are_no_parameters() {
    let mut c = LogPatternClassifier::new(10).parameterize_numeric_tokens(false).max_node_depth(1);
    assert_eq!(add(&mut c, "took 12 ms"), took("took 12 ms", 1, 1, ChangedTemplate));
    assert_eq!(add(&mut c, "took 13 ms"), took("took <*> ms", 2, 1, ChangedTemplate));
    assert_eq!(add(&mut c, "took 14 ms"), took("took <*> ms", 3, 1, Unchanged));
}

#[test]
fn different_first_tokens_lead_to_different_clusters() {
    let mut c = LogPatternClassifier::new(10);
    assert_eq!(add(&mut c, "user alice logged in"), took("user alice logged in", 1, 1, ChangedTemplate));
    assert_eq!(add(&mut c, "user bob logged in"), took("user bob logged in", 1, 2, ChangedTemplate));
    let mut c = LogPatternClassifier::new(10).max_node_depth(2);
    assert_eq!(add(&mut c, "user alice logged in"), took("user alice logged in", 1, 1, ChangedTemplate));
    assert_eq!(add(&mut c, "user bob logged in"), took("user <*> logged in", 2, 1, ChangedTemplate));
    assert_eq!(add(&mut c, "user carol logged in"), took("user <*> logged in", 3, 1, Unchanged));
}

#[test]
fn lines_of_different_lengths_never_meet() {
    let mut c = LogPatternClassifier::new(10).max_node_depth(0).sim_threshold(threshold(0.0));
    assert_eq!(add(&mut c, "a b"), took("a b", 1, 1, ChangedTemplate));
    assert_eq!(add(&mut c, "a b c"), took("a b c", 1, 2, ChangedTemplate));
    assert_eq!(add(&mut c, "a x"), took("a <*>", 2, 1, ChangedTemplate));
}

#[test]
fn empty_lines_share_a_cluster() {
    let mut c = LogPatternClassifier::new(10);
    assert_eq!(add(&mut c, ""), took("", 1, 1, ChangedTemplate));
    assert_eq!(add(&mut c, "  "), took("", 2, 1, Unchanged));
    let mut c = LogPatternClassifier::new(10).sim_threshold(threshold(1.5));
    assert_eq!(add(&mut c, ""), took("", 1, 1, ChangedTemplate));
    assert_eq!(add(&mut c, ""), took("", 1, 2, ChangedTemplate));
}

#[test]
fn the_threshold_decides() {
    for (t, joined) in [(0.5, true), (0.51, false), (f64::NAN, false), (-1.0, true)] {
        let mut c = LogPatternClassifier::new(10).max_node_depth(1).sim_threshold(threshold(t));
        add(&mut c, "a b c d");
        let (_, size, _, _) = add(&mut c, "a b x y");
        assert_eq!(size == 2, joined, "{t}");
    }
}

#[test]
fn a_line_with_nothing_in_common_is_no_match_at_any_threshold() {
    let mut c = LogPatternClassifier::new(10).max_node_depth(1).sim_threshold(threshold(-1.0));
    assert_eq!(add(&mut c, "a b"), took("a b", 1, 1, ChangedTemplate));
    assert_eq!(add(&mut c, "x y"), took("x y", 1, 2, ChangedTemplate));
    assert_eq!(add(&mut c, "a y"), took("a <*>", 2, 1, ChangedTemplate));
}

#[test]
fn lines_of_numbers_alone_do_not_match_their_template() {
    let mut c = LogPatternClassifier::new(10);
    assert_eq!(add(&mut c, "1 2 3"), took("<*> <*> <*>", 1, 1, ChangedTemplate));
    assert_eq!(add(&mut c, "1 2 3"), took("<*> <*> <*>", 1, 2, ChangedTemplate));
    let mut c = LogPatternClassifier::new(10).sim_threshold(threshold(0.0));
    assert_eq!(add(&mut c, "1 2 3"), took("<*> <*> <*>", 1, 1, ChangedTemplate));
    assert_eq!(add(&mut c, "4 5 6"), took("<*> <*> <*>", 2, 1, Unchanged));
}

#[test]
fn the_most_similar_cluster_takes_the_line() {
    let mut c = LogPatternClassifier::new(10).max_node_depth(1).sim_threshold(threshold(0.9));
    add(&mut c, "a b c x");
    add(&mut c, "a b y z");
    let mut c = c.sim_threshold(threshold(0.4));
    assert_eq!(add(&mut c, "a b y w"), took("a b y <*>", 2, 2, ChangedTemplate));
    // Both have two matches now; the second has more open places.
    assert_eq!(add(&mut c, "a b q x"), took("a b <*> x", 2, 1, ChangedTemplate));
    // Three matches beat two.
    assert_eq!(add(&mut c, "a b p x"), took("a b <*> x", 3, 1, Unchanged));
}

#[test]
fn more_open_places_break_a_tie() {
    let mut c = LogPatternClassifier::new(10).max_node_depth(1).sim_threshold(threshold(0.9));
    add(&mut c, "a b c d");
    add(&mut c, "a b 1 e");
    let mut c = c.sim_threshold(threshold(0.4));
    assert_eq!(add(&mut c, "a b x y"), took("a b <*> <*>", 2, 2, ChangedTemplate));
}

#[test]
fn the_first_of_equal_clusters_takes_the_line() {
    let mut c = LogPatternClassifier::new(10).max_node_depth(1).sim_threshold(threshold(0.9));
    add(&mut c, "a b c d");
    add(&mut c, "a b e f");
    let mut c = c.sim_threshold(threshold(0.4));
    assert_eq!(add(&mut c, "a b x y"), took("a b <*> <*>", 2, 1, ChangedTemplate));
}

#[test]
fn a_full_node_sends_new_tokens_to_the_wildcard() {
    let mut c = LogPatternClassifier::new(10).max_children(2).sim_threshold(threshold(0.3));
    assert_eq!(add(&mut c, "a x y"), took("a x y", 1, 1, ChangedTemplate));
    assert_eq!(add(&mut c, "b x y"), took("b x y", 1, 2, ChangedTemplate));
    assert_eq!(add(&mut c, "c x y"), took("<*> x y", 2, 2, ChangedTemplate));
    assert_eq!(add(&mut c, "a x z"), took("a x <*>", 2, 1, ChangedTemplate));
}

#[test]
fn a_node_with_a_wildcard_fills_up_to_the_limit() {
    let mut c = LogPatternClassifier::new(10).max_children(3).sim_threshold(threshold(0.9));
    // The wildcard, and two texts.
    add(&mut c, "1 x");
    add(&mut c, "a x");
    add(&mut c, "b x");
    let mut c = c.sim_threshold(threshold(0.4));
    // "c" goes to the wildcard, where "1 x" is.
    assert_eq!(add(&mut c, "c x"), took("<*> x", 2, 1, Unchanged));
    assert_eq!(add(&mut c, "b y"), took("b <*>", 2, 3, ChangedTemplate));
}

#[test]
fn deeper_nodes_may_have_fewer_children() {
    // At depth two a share of a quarter, two: one text and then the wildcard.
    let mut c = LogPatternClassifier::new(10).max_children(8).sim_threshold(threshold(0.5));
    assert_eq!(add(&mut c, "a b q r"), took("a b q r", 1, 1, ChangedTemplate));
    assert_eq!(add(&mut c, "a c q r"), took("a c q r", 1, 2, ChangedTemplate));
    assert_eq!(add(&mut c, "a d q r"), took("a <*> q r", 2, 2, ChangedTemplate));
}

#[test]
fn no_children_leave_no_room() {
    let mut c = LogPatternClassifier::new(10).max_children(0);
    assert!(!c.accepts("a b"));
    assert!(c.accepts("a"));
    assert!(c.accepts(""));
    assert!(!c.accepts("1 b"));
    assert_eq!(add(&mut c, "a"), took("a", 1, 1, ChangedTemplate));
    assert_eq!(add(&mut c, ""), took("", 1, 2, ChangedTemplate));
    // With a wildcard at the root every token has somewhere to go.
    let mut c = c.max_children(1);
    assert_eq!(add(&mut c, "a b"), took("a b", 1, 3, ChangedTemplate));
    let mut c = c.max_children(0);
    assert_eq!(add(&mut c, "c b"), took("<*> b", 2, 3, ChangedTemplate));
}

#[test]
fn a_filed_token_with_a_number_goes_to_the_wildcard() {
    let mut c = LogPatternClassifier::new(10).max_children(0);
    c.add_seq_to_prefix_tree(&LogCluster::new(9, false, vec!["1", "b"]));
    assert!(c.accepts("a b"));
    assert_eq!(add(&mut c, "a b"), took("a b", 1, 1, ChangedTemplate));
    assert_eq!(add(&mut c, "x b"), took("<*> b", 2, 1, ChangedTemplate));
}

#[test]
fn a_lower_limit_can_leave_no_room() {
    let mut c = LogPatternClassifier::new(10);
    add(&mut c, "a x");
    add(&mut c, "b x");
    let mut c = c.max_children(2);
    assert!(!c.accepts("c x"));
    assert!(c.accepts("a x"));
    let mut c = c.max_children(3);
    assert_eq!(add(&mut c, "c x"), took("c x", 1, 3, ChangedTemplate));
}

#[test]
fn the_cluster_used_longest_ago_is_forgotten() {
    let mut c = LogPatternClassifier::new(2);
    add(&mut c, "a a");
    add(&mut c, "b b");
    assert_eq!(add(&mut c, "a a"), took("a a", 2, 1, Unchanged));
    add(&mut c, "c c");
    assert_eq!(add(&mut c, "a a"), took("a a", 3, 1, Unchanged));
    assert_eq!(add(&mut c, "b b"), took("b b", 1, 4, ChangedTemplate));
    assert_eq!(add(&mut c, "c c"), took("c c", 1, 5, ChangedTemplate));
}

#[test]
fn a_search_uses_all_the_clusters_at_its_node() {
    let mut c = LogPatternClassifier::new(3).max_node_depth(1).sim_threshold(threshold(0.9));
    add(&mut c, "a b");
    add(&mut c, "c d");
    add(&mut c, "x");
    // Both clusters of two tokens have been used since "x" was.
    add(&mut c, "c d");
    add(&mut c, "p q r");
    assert_eq!(add(&mut c, "x"), took("x", 1, 5, ChangedTemplate));
    assert_eq!(add(&mut c, "c d"), took("c d", 3, 2, Unchanged));
}

#[test]
fn forgotten_clusters_leave_their_node() {
    let mut c = LogPatternClassifier::new(1).max_node_depth(1);
    for i in 1..50usize {
        let line = if i % 2 == 0 { "a a a" } else { "b b b" };
        let (_, size, id, _) = add(&mut c, line);
        assert_eq!((size, id), (1, i));
    }
}

#[test]
fn extra_delimiters_separate_tokens() {
    let mut c = LogPatternClassifier::new(10).extra_delimiters(vec!['=', ',']).max_node_depth(1);
    assert_eq!(add(&mut c, "k=v,w"), took("k v w", 1, 1, ChangedTemplate));
    assert_eq!(add(&mut c, "k=x w"), took("k <*> w", 2, 1, ChangedTemplate));
}

#[test]
fn an_added_line_is_found_again() {
    let mut c = LogPatternClassifier::new(10);
    for line in ["alpha beta 7", "x", "alpha gamma", "alpha gamma"] {
        let (template, size, id, _) = add(&mut c, line);
        assert_eq!(add(&mut c, line), took(&template, size + 1, id, Unchanged));
    }
}

#[test]
fn a_search_finds_what_was_filed() {
    let mut c = LogPatternClassifier::new(10);
    assert_eq!(c.tree_search(&vec!["a", "b"]), None);
    add(&mut c, "a b");
    assert_eq!(c.tree_search(&vec!["a", "b"]), Some(1));
    assert_eq!(c.tree_search(&vec!["a", "c"]), Some(1));
    assert_eq!(c.tree_search(&vec!["b", "b"]), None);
    assert_eq!(c.tree_search(&vec!["a"]), None);
}

#[test]
fn a_filed_cluster_is_passed_over_until_it_is_remembered() {
    let mut c = LogPatternClassifier::new(10);
    c.add_seq_to_prefix_tree(&LogCluster::new(9, true, vec!["a", "b"]));
    assert_eq!(c.tree_search(&vec!["a", "b"]), None);
}

#[test]
fn covered_lines_stay_with_their_cluster() {
    let mut c = LogPatternClassifier::new(10).max_node_depth(2);
    assert_eq!(add(&mut c, "open file alpha now"), took("open file alpha now", 1, 1, ChangedTemplate));
    assert_eq!(add(&mut c, "open file beta now"), took("open file <*> now", 2, 1, ChangedTemplate));
    assert_eq!(add(&mut c, "open file gamma later"), took("open file <*> <*>", 3, 1, ChangedTemplate));
    assert_eq!(add(&mut c, "open file alpha now"), took("open file <*> <*>", 4, 1, Unchanged));
    assert_eq!(add(&mut c, "open file beta now"), took("open file <*> <*>", 5, 1, Unchanged));
}

#[test]
fn every_cluster_stays_filed() {
    let mut c = LogPatternClassifier::new(4);
    let lines = ["a x y", "b x y", "c x y z", "d e f"];
    for (i, line) in lines.iter().enumerate() {
        assert_eq!(add(&mut c, line), took(line, 1, i + 1, ChangedTemplate));
    }
    for (i, line) in lines.iter().enumerate() {
        assert_eq!(add(&mut c, line), took(line, 2, i + 1, Unchanged));
    }
}

#[test]
fn a_setting_of_one_leaves_one_child() {
    // All lines of three tokens go to one node, by the wildcards.
    let mut c = LogPatternClassifier::new(10).max_children(1).parameterize_numeric_tokens(false);
    assert_eq!(add(&mut c, "a b x"), took("a b x", 1, 1, ChangedTemplate));
    assert_eq!(add(&mut c, "c d x"), took("c d x", 1, 2, ChangedTemplate));
    assert_eq!(add(&mut c, "c b x"), took("<*> b x", 2, 1, ChangedTemplate));
    let two = LogCluster::new(7, false, vec!["e", "f", "x"]);
    let mut c = LogPatternClassifier::new(10).max_children(1);
    c.add_seq_to_prefix_tree(&two);
    assert_eq!(add(&mut c, "g h x"), took("g h x", 1, 1, ChangedTemplate));
    assert_eq!(add(&mut c, "i h x"), took("<*> h x", 2, 1, ChangedTemplate));
}

#[test]
fn a_setting_of_two_leaves_two_children_at_any_depth() {
    let mut c = LogPatternClassifier::new(10).max_children(2).sim_threshold(threshold(0.6));
    assert_eq!(add(&mut c, "a b x"), took("a b x", 1, 1, ChangedTemplate));
    assert_eq!(add(&mut c, "a c x"), took("a c x", 1, 2, ChangedTemplate));
    assert_eq!(add(&mut c, "a d x"), took("a <*> x", 2, 2, ChangedTemplate));
}

#[test]
fn written_templates_split_back() {
    let mut c = LogPatternClassifier::new(10).extra_delimiters(vec!['<', '=']).max_node_depth(1);
    for line in ["k=v w 12 ms", "k v\u{a0}x 13 s", "k y w 14 ms", "<*>"] {
        let (group, _) = c.add_log_message(line);
        let texts: Vec<&str> = group.template_tokens().iter().map(|t| t.text()).collect();
        assert_eq!(tokenize(&group.template(), &[]), texts);
    }
}

#[test]
fn lines_are_counted() {
    let mut c = LogPatternClassifier::new(3);
    let mut sizes = vec![0; 4];
    for line in ["a x", "b x", "a x", "c x", "b x", "b x"] {
        let (_, size, id, _) = add(&mut c, line);
        sizes[id] = size;
    }
    assert_eq!(sizes, vec![0, 2, 3, 1]);
    assert_eq!(sizes.iter().sum::<usize>(), 6);
    // A fourth cluster is one too many: the first, used longest ago, is made anew.
    assert_eq!(add(&mut c, "d x"), took("d x", 1, 4, ChangedTemplate));
    assert_eq!(add(&mut c, "a x"), took("a x", 1, 5, ChangedTemplate));
}

#[test]
fn a_template_filed_again_makes_no_node() {
    // Besides that of the wildcard the root has room for two nodes. Were a new one made for "a" each
    // time, "b" would share the wildcard's with "c", and their lines would be one cluster.
    let mut c = LogPatternClassifier::new(10).max_children(3).sim_threshold(threshold(0.5));
    for id in 1..4 {
        c.add_seq_to_prefix_tree(&LogCluster::new(id, false, vec!["a", "x"]));
    }
    assert_eq!(add(&mut c, "b y"), took("b y", 1, 1, ChangedTemplate));
    assert_eq!(add(&mut c, "c y"), took("c y", 1, 2, ChangedTemplate));
    assert_eq!(add(&mut c, "b y"), took("b y", 2, 1, Unchanged));
    assert_eq!(add(&mut c, "c y"), took("c y", 2, 2, Unchanged));
}
