//! The classifier against a plain rendering of the same rules with `f64` quotients and owned trees.
use kubesense_log_pattern::classifier::{LogClusterStatus, LogPatternClassifier};
use kubesense_log_pattern::similarity::SimThreshold;
use std::collections::HashMap;

type Key = Option<String>;

#[derive(Default)]
struct Branch {
    next: HashMap<Key, Branch>,
    ids: Vec<usize>,
}

struct Group {
    template: Vec<Key>,
    size: usize,
}

struct Plain {
    roots: HashMap<usize, Branch>,
    /// From the group used longest ago to the one used last.
    groups: Vec<(usize, Group)>,
    made: usize,
    capacity: usize,
    threshold: f64,
    depth: usize,
    children: usize,
    numeric: bool,
}

impl Plain {
    fn use_group(&mut self, id: usize) -> bool {
        match self.groups.iter().position(|g| g.0 == id) {
            Some(i) => {
                let g = self.groups.remove(i);
                self.groups.push(g);
                true
            }
            None => false,
        }
    }

    fn best(&mut self, words: &[String]) -> Option<usize> {
        let mut branch = self.roots.get(&words.len())?;
        for (i, w) in words.iter().enumerate() {
            let depth = i + 1;
            if depth >= self.depth || depth == words.len() {
                break;
            }
            branch = match branch.next.get(&Some(w.clone())) {
                Some(b) => b,
                None => branch.next.get(&None)?,
            };
        }
        let ids = branch.ids.clone();
        let (mut top, mut top_open, mut found) = (0.0, 0, None);
        for id in ids {
            if !self.use_group(id) {
                continue;
            }
            let template = &self.groups.last().unwrap().1.template;
            let open = template.iter().filter(|t| t.is_none()).count();
            let same = template.iter().zip(words).filter(|(t, w)| t.as_ref() == Some(*w)).count();
            let sim = if words.is_empty() { 1.0 } else { same as f64 / words.len() as f64 };
            if sim > top || (sim == top && open > top_open) {
                (top, top_open, found) = (sim, open, Some(id));
            }
        }
        if top >= self.threshold {
            found
        } else {
            None
        }
    }

    /// `None` where there is no room.
    fn add(&mut self, line: &str) -> Option<(String, usize, usize, bool)> {
        let words: Vec<String> = line.split_whitespace().map(|w| w.to_string()).collect();
        let (id, changed) = match self.best(&words) {
            Some(id) => {
                self.use_group(id);
                let group = &mut self.groups.last_mut().unwrap().1;
                group.size += 1;
                let mut changed = false;
                for (t, w) in group.template.iter_mut().zip(&words) {
                    if t.is_some() && t.as_ref() != Some(w) {
                        *t = None;
                        changed = true;
                    }
                }
                (id, changed)
            }
            None => {
                let id = self.made + 1;
                let numeric = self.numeric;
                let template: Vec<Key> = words
                    .iter()
                    .map(|w| if numeric && w.chars().any(char::is_numeric) { None } else { Some(w.clone()) })
                    .collect();
                let mut branch = self.roots.entry(words.len()).or_default();
                for (i, t) in template.iter().enumerate() {
                    let depth = i + 1;
                    if depth >= self.depth || depth >= words.len() {
                        break;
                    }
                    let limit = if depth > 1 { (self.children / (2 * depth)).max(2).min(self.children) } else { self.children };
                    let count = branch.next.len();
                    let key = if branch.next.contains_key(t) {
                        t.clone()
                    } else if branch.next.contains_key(&None) {
                        if count < limit { t.clone() } else { None }
                    } else if count + 1 < limit {
                        t.clone()
                    } else if count + 1 == limit {
                        None
                    } else {
                        return None;
                    };
                    branch = branch.next.entry(key).or_default();
                }
                if !words.is_empty() {
                    let groups = &self.groups;
                    branch.ids.retain(|i| groups.iter().any(|g| g.0 == *i));
                }
                branch.ids.push(id);
                self.made = id;
                if self.groups.len() == self.capacity {
                    self.groups.remove(0);
                }
                self.groups.push((id, Group { template, size: 1 }));
                (id, true)
            }
        };
        let group = &self.groups.last().unwrap().1;
        let text: Vec<&str> = group.template.iter().map(|t| t.as_deref().unwrap_or("<*>")).collect();
        Some((text.join(" "), group.size, id, changed))
    }
}

fn next(seed: &mut u64) -> usize {
    *seed = seed.wrapping_mul(6364136223846793005).wrapping_add(1442695040888963407);
    (*seed >> 33) as usize
}

fn compare(capacity: usize, threshold: f64, depth: usize, children: usize, numeric: bool, seed: u64) {
    let vocabulary = [
        "get", "put", "user", "id=7", "42", "ok", "failed", "é", "日本", "x1", "<*>", "in", "of", "a", "b", "c",
    ];
    let mut c = LogPatternClassifier::new(capacity)
        .sim_threshold(SimThreshold::from_bits(threshold.to_bits()))
        .max_node_depth(depth)
        .max_children(children)
        .parameterize_numeric_tokens(numeric);
    let mut p = Plain {
        roots: HashMap::new(),
        groups: Vec::new(),
        made: 0,
        capacity,
        threshold,
        depth,
        children,
        numeric,
    };
    let mut seed = seed;
    for _ in 0..1500 {
        let length = next(&mut seed) % 6;
        let mut line = String::new();
        for _ in 0..length {
            line.push_str(vocabulary[next(&mut seed) % vocabulary.len()]);
            line.push_str(if next(&mut seed) % 5 == 0 { " \t" } else { " " });
        }
        assert!(c.accepts(&line));
        let (group, status) = c.add_log_message(&line);
        let got = (
            group.template(),
            group.cluster_size(),
            group.local_id(),
            status == LogClusterStatus::ChangedTemplate,
        );
        assert_eq!(Some(got), p.add(&line), "{line:?}");
    }
}

#[test]
fn agrees_with_the_usual_settings() {
    compare(1000, 0.4, 8, 100, true, 1);
    compare(1000, 0.5, 6, 100, true, 2);
}

#[test]
fn agrees_with_a_small_cache() {
    compare(1, 0.4, 8, 100, true, 3);
    compare(3, 0.5, 2, 100, true, 4);
    compare(10, 0.5, 3, 4, true, 5);
    compare(25, 0.34, 4, 6, false, 6);
}

#[test]
fn agrees_with_few_children() {
    for children in 1..8 {
        compare(50, 0.5, 5, children, true, 10 + children as u64);
        compare(50, 0.5, 5, children, false, 20 + children as u64);
    }
}

#[test]
fn agrees_at_every_depth() {
    for depth in 0..8 {
        compare(40, 0.6, depth, 5, true, 30 + depth as u64);
        compare(40, 1.0 / 3.0, depth, 100, false, 40 + depth as u64);
    }
}

#[test]
fn agrees_at_odd_thresholds() {
    for (i, t) in [0.0, -1.0, 1.0, 1.1, 1e-9, 0.2, 0.25, 0.6, 0.75, f64::NAN].iter().enumerate() {
        compare(60, *t, 2, 10, true, 50 + i as u64);
        compare(7, *t, 3, 10, false, 70 + i as u64);
    }
}
