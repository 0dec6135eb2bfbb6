# kubesense_log_pattern

Clusters log lines into patterns. The words of a line lead down a prefix tree of fixed depth to a
node with clusters; the most similar of those takes the line where it is similar enough, and every
place where its template and the line differ becomes a wildcard. Lines that are similar to no
cluster get a new one. The clusters used longest ago are forgotten when there are too many.

The library is written in Rust and verified with Verus.

## Layout

- `src/text.rs`: words of a line.
- `src/token.rs`, `src/cluster.rs`: tokens, templates and clusters.
- `src/similarity.rs`: the similarity threshold, an `f64` held as its bit pattern.
- `src/fingerprint.rs`: the identifier of a template, from `xxhash-rust` and `base64`.
- `src/cache.rs`: the clusters that are remembered, in a cache of `lru`.
- `src/tree.rs`: the prefix tree.
- `src/model.rs`: what a classifier does, over mathematical values.
- `src/classifier.rs`: the classifier, proved to do so.
- `src/laws.rs`: what holds of every classifier.
- `src/transform.rs`: the field of a log event that is clustered on, and what is written to it.
- `app/`: the configuration as it is read from a file, and the transform on streams of events.
- `tests/`: tests on concrete lines.

## What is trusted

The contracts of the calls into `lru`, `xxhash-rust` and `base64`, and of a few functions of the
standard library on characters and strings, are stated where they are made and not proved.
