use base64::Engine;
use kubesense_log_pattern::cluster::{LogCluster, Similarity};
use kubesense_log_pattern::fingerprint::digest_id;
use kubesense_log_pattern::token::Token;
use xxhash_rust::xxh3::xxh3_64;

fn id_of(bytes: &[u8]) -> String {
    base64::engine::general_purpose::STANDARD_NO_PAD.encode(xxh3_64(bytes).to_be_bytes())
}

#[test]
fn a_new_cluster_opens_places_with_numbers() {
    let c = LogCluster::new(3, true, vec!["took", "12ms", "for", "x9"]);
    assert_eq!(c.template(), "took <*> for <*>");
    assert_eq!(c.cluster_size(), 1);
    assert_eq!(c.local_id(), 3);
    let c = LogCluster::new(3, false, vec!["took", "12ms"]);
    assert_eq!(c.template(), "took 12ms");
}

#[test]
fn a_cluster_without_tokens_has_an_empty_template() {
    let c = LogCluster::new(1, true, vec![]);
    assert_eq!(c.template(), "");
    assert_eq!(c.seq_dist(&vec![]), (Similarity { matched: 1, total: 1 }, 0));
    assert_eq!(c.cluster_id(), id_of(b""));
}

#[test]
fn counts_matches_and_open_places() {
    let c = LogCluster::new(1, true, vec!["a", "b", "1", "d"]);
    assert_eq!(
        c.seq_dist(&vec!["a", "x", "y", "d"]),
        (Similarity { matched: 2, total: 4 }, 1)
    );
    assert_eq!(
        c.seq_dist(&vec!["x", "y", "<*>", "z"]),
        (Similarity { matched: 0, total: 4 }, 1)
    );
}

#[test]
fn a_literal_wildcard_is_a_text() {
    let c = LogCluster::new(1, true, vec!["<*>"]);
    assert_eq!(c.seq_dist(&vec!["<*>"]), (Similarity { matched: 1, total: 1 }, 0));
    assert_eq!(c.template(), "<*>");
    assert_ne!(c.cluster_id(), LogCluster::new(1, true, vec!["1"]).cluster_id());
}

#[test]
fn opens_the_places_that_differ() {
    let mut c = LogCluster::new(1, true, vec!["a", "b", "c"]);
    assert!(!c.update(&vec!["a", "b", "c"]));
    assert_eq!(c.template(), "a b c");
    assert!(c.update(&vec!["a", "x", "c"]));
    assert_eq!(c.template(), "a <*> c");
    assert!(!c.update(&vec!["a", "b", "c"]));
    assert!(!c.update(&vec!["a", "y", "c"]));
    assert_eq!(c.template(), "a <*> c");
    assert_eq!(c.cluster_size(), 1);
}

#[test]
fn absorbs_lines_in_any_order() {
    let mut a = LogCluster::new(1, false, vec!["a", "b", "c"]);
    let mut b = LogCluster::new(1, false, vec!["a", "b", "c"]);
    a.update(&vec!["a", "x", "c"]);
    a.update(&vec!["y", "b", "c"]);
    b.update(&vec!["y", "b", "c"]);
    b.update(&vec!["a", "x", "c"]);
    assert_eq!(a.template(), "<*> <*> c");
    assert_eq!(a.template(), b.template());
    assert_eq!(a.cluster_id(), b.cluster_id());
}

#[test]
fn counts_lines() {
    let mut c = LogCluster::new(1, true, vec!["a"]);
    c.count_line();
    c.count_line();
    assert_eq!(c.cluster_size(), 3);
    assert_eq!(c.template(), "a");
}

#[test]
fn the_identifier_is_the_digest_of_the_tokens() {
    let mut c = LogCluster::new(1, true, vec!["é", "b", "1"]);
    assert_eq!(c.cluster_id(), id_of(b"\x02\xc3\xa9\x02b\x01"));
    assert_eq!(c.cluster_id().len(), 11);
    c.update(&vec!["é", "x", "1"]);
    assert_eq!(c.cluster_id(), id_of(b"\x02\xc3\xa9\x01\x01"));
}

#[test]
fn long_templates_are_digested_in_pieces() {
    let words: Vec<String> = (0..400).map(|i| "word".repeat(i % 7 + 1)).collect();
    let tokens: Vec<&str> = words.iter().map(|w| w.as_str()).collect();
    let mut bytes: Vec<u8> = Vec::new();
    for w in &words {
        bytes.push(2);
        bytes.extend(w.as_bytes());
    }
    assert!(bytes.len() > 2000);
    assert_eq!(LogCluster::new(1, true, tokens).cluster_id(), id_of(&bytes));
}

#[test]
fn digests_are_written_in_base64() {
    assert_eq!(digest_id(0), "AAAAAAAAAAA");
    assert_eq!(digest_id(u64::MAX), "//////////8");
    assert_eq!(digest_id(1), "AAAAAAAAAAE");
    assert_eq!(digest_id(0x0010_8310_5187_2092), "ABCDEFGHIJI");
    assert_ne!(digest_id(16), digest_id(17));
}

#[test]
fn tokens_with_numbers() {
    assert!(Token::Value("x1".to_string()).has_numbers());
    assert!(!Token::Value("x".to_string()).has_numbers());
    assert!(!Token::Wildcard.has_numbers());
    assert_eq!(Token::Wildcard.text(), "<*>");
    assert_eq!(Token::Value("x".to_string()).text(), "x");
}
