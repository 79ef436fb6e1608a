use mote::dedupe::{
    edge_digest, edge_plan, edge_survivors, group_by_hash, size_candidates, sort_groups, sort_paths,
    ContentHasher, Edged, Group, Hashed, EDGE,
};
use mote::walk::Entry;

fn entry(path: &str, size: u64) -> Entry {
    Entry { path: path.to_string(), size }
}

#[test]
fn only_shared_non_zero_sizes_are_candidates() {
    let es = vec![entry("a", 5), entry("b", 0), entry("c", 5), entry("d", 0), entry("e", 7)];
    let c = size_candidates(&es);
    let paths: Vec<&str> = c.iter().map(|e| e.path.as_str()).collect();
    assert_eq!(paths, vec!["a", "c"]);
}

#[test]
fn the_edge_hash_reads_both_ends_only_of_long_files() {
    assert_eq!(edge_plan(10), (10, false));
    assert_eq!(edge_plan(EDGE), (EDGE as usize, false));
    assert_eq!(edge_plan(2 * EDGE), (EDGE as usize, false));
    assert_eq!(edge_plan(2 * EDGE + 1), (EDGE as usize, true));
}

#[test]
fn the_edge_hash_is_blake3_of_head_then_tail() {
    let abc = edge_digest(b"abc", None);
    let hex: String = abc.iter().map(|b| format!("{b:02x}")).collect();
    assert_eq!(hex, "6437b3ac38465133ffb63b75273a8db548c558465d79db03fd359c6cd5bd9d85");
    assert_eq!(edge_digest(b"ab", Some(b"c")), abc);
    assert_ne!(edge_digest(b"abd", None), abc);
}

#[test]
fn edge_survivors_share_size_and_hash() {
    let h1 = edge_digest(b"one", None);
    let h2 = edge_digest(b"two", None);
    let xs = vec![
        Edged { entry: entry("a", 3), digest: h1.clone() },
        Edged { entry: entry("b", 3), digest: h2.clone() },
        Edged { entry: entry("c", 3), digest: h1.clone() },
        Edged { entry: entry("d", 4), digest: h2.clone() },
    ];
    let s = edge_survivors(&xs);
    let paths: Vec<&str> = s.iter().map(|e| e.path.as_str()).collect();
    assert_eq!(paths, vec!["a", "c"]);
}

#[test]
fn paths_sort_lexicographically() {
    let v = vec!["b/x".to_string(), "a".to_string(), "b".to_string(), "a".to_string()];
    assert_eq!(sort_paths(v), vec!["a", "a", "b", "b/x"]);
}

fn group(hash: &str, size: u64, n: usize) -> Group {
    Group { hash: hash.to_string(), size, paths: (0..n).map(|i| format!("p{i}")).collect() }
}

#[test]
fn groups_come_largest_waste_first() {
    let v = vec![group("c", 10, 2), group("b", 5, 3), group("a", 10, 2), group("d", 100, 2)];
    let r = sort_groups(v);
    let hashes: Vec<&str> = r.iter().map(|g| g.hash.as_str()).collect();
    assert_eq!(hashes, vec!["d", "a", "b", "c"]);
}

fn hashed(content: &str, path: &str, size: u64) -> Hashed {
    let mut c = ContentHasher::new();
    c.update(content.as_bytes());
    Hashed::new(entry(path, size), &c)
}

fn hex(content: &str) -> String {
    let mut c = ContentHasher::new();
    c.update(content.as_bytes());
    c.hex()
}

#[test]
fn the_content_hash_is_blake3_in_hex_whatever_the_chunks() {
    let mut c = ContentHasher::new();
    c.update(b"a");
    c.update(b"");
    c.update(b"bc");
    assert_eq!(c.hex(), "6437b3ac38465133ffb63b75273a8db548c558465d79db03fd359c6cd5bd9d85");
    let h = hashed("abc", "/x", 3);
    assert_eq!(h.hash(), "6437b3ac38465133ffb63b75273a8db548c558465d79db03fd359c6cd5bd9d85");
    assert_eq!(h.entry().path, "/x");
}

#[test]
fn identical_content_is_grouped() {
    let xs = vec![
        hashed("h1", "/r/z", 4),
        hashed("h2", "/r/lonely", 9),
        hashed("h1", "/r/a", 4),
        hashed("h3", "/r/big2", 100),
        hashed("h3", "/r/big1", 100),
        hashed("h1", "/r/m", 4),
    ];
    let gs = group_by_hash(&xs);
    assert_eq!(gs.len(), 2);
    assert_eq!(gs[0].hash, hex("h3"));
    assert_eq!(gs[0].size, 100);
    assert_eq!(gs[0].paths, vec!["/r/big1", "/r/big2"]);
    assert_eq!(gs[1].hash, hex("h1"));
    assert_eq!(gs[1].size, 4);
    assert_eq!(gs[1].paths, vec!["/r/a", "/r/m", "/r/z"]);
}

#[test]
fn no_shared_hash_means_no_groups() {
    let xs = vec![hashed("h1", "a", 1), hashed("h2", "b", 1)];
    assert!(group_by_hash(&xs).is_empty());
    assert!(group_by_hash(&vec![]).is_empty());
}

#[test]
fn the_report_does_not_depend_on_walk_order() {
    let forward_spec = vec![
        ("h1", "/r/z", 4),
        ("h3", "/r/big2", 100),
        ("h1", "/r/a", 4),
        ("h3", "/r/big1", 100),
        ("h2", "/r/lonely", 9),
    ];
    let forward: Vec<Hashed> = forward_spec.iter().map(|(c, p, n)| hashed(c, p, *n)).collect();
    let mut backward: Vec<Hashed> = forward_spec.iter().map(|(c, p, n)| hashed(c, p, *n)).collect();
    backward.reverse();
    let a = group_by_hash(&forward);
    let b = group_by_hash(&backward);
    assert_eq!(a.len(), b.len());
    for (x, y) in a.iter().zip(b.iter()) {
        assert_eq!(x.hash, y.hash);
        assert_eq!(x.size, y.size);
        assert_eq!(x.paths, y.paths);
    }
    assert_eq!(a[0].paths[0], "/r/big1");
}

#[test]
fn equal_waste_is_ordered_by_hash() {
    let xs = vec![hashed("bb", "/1", 10), hashed("aa", "/2", 10), hashed("bb", "/3", 10), hashed("aa", "/4", 10)];
    let gs = group_by_hash(&xs);
    let hashes: Vec<String> = gs.iter().map(|g| g.hash.clone()).collect();
    let mut want = vec![hex("aa"), hex("bb")];
    want.sort();
    assert_eq!(hashes, want);
}
