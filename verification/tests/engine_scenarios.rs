use dupes::engine::{run_engine, EngineConfig, EngineResult};
use dupes::exclusion::ExclusionIndex;
use dupes::hasher::ContentHasher;
use dupes::hex::toUpperHex;
use dupes::index::{FileEntry, SizeIndex};

fn digest_of(content: &[u8]) -> Vec<u8> {
    let mut h = ContentHasher::new();
    h.update(content);
    h.finalize()
}

fn entry(path: &str, size: u64) -> FileEntry {
    FileEntry { path: path.to_string(), size }
}

fn cfg(
    avoid: Option<u64>,
    min: Option<u64>,
    show_non_duplicates: bool,
    always_hash: bool,
) -> EngineConfig {
    EngineConfig {
        avoid_compare_if_larger_than: avoid,
        ignore_sizes_below: min,
        show_non_duplicates,
        always_hash,
    }
}

/// The three one-byte files of the scenarios: `a` and `b` hold "X",
/// `c` holds "Y"; digests computed for each sorted group member.
fn scenario_inputs() -> (SizeIndex, Vec<Vec<Option<Vec<u8>>>>) {
    let entries = vec![entry("a", 1), entry("b", 1), entry("c", 1)];
    let index = SizeIndex::build(&entries, None);
    assert_eq!(index.groups.len(), 1);
    assert_eq!(index.groups[0].paths, vec!["a", "b", "c"]);
    let mut row: Vec<Option<Vec<u8>>> = Vec::new();
    for p in &index.groups[0].paths {
        let content: &[u8] = if p == "c" { b"Y" } else { b"X" };
        row.push(Some(digest_of(content)));
    }
    (index, vec![row])
}

fn run(index: &SizeIndex, c: EngineConfig, excl: &ExclusionIndex, outs: &Vec<Vec<Option<Vec<u8>>>>) -> EngineResult {
    run_engine(index, c, excl, outs)
}

#[test]
fn scenario_duplicates_only() {
    let (index, outs) = scenario_inputs();
    let excl = ExclusionIndex::new();
    let r = run(&index, cfg(None, None, false, false), &excl, &outs);
    assert_eq!(r.records.len(), 1);
    assert_eq!(r.records[0].size, 1);
    assert_eq!(r.records[0].label, toUpperHex(digest_of(b"X").as_slice()));
    assert_eq!(r.records[0].paths, vec!["a", "b"]);
    for rec in &r.records {
        assert!(!rec.paths.contains(&"c".to_string()));
    }
    assert!(r.errors.is_empty());
}

#[test]
fn scenario_uniques_reported() {
    let (index, outs) = scenario_inputs();
    let excl = ExclusionIndex::new();
    let r = run(&index, cfg(None, None, true, false), &excl, &outs);
    // The duplicate bin {a, b} keeps its digest label; the
    // undifferentiated singleton {c} is additionally reported as a
    // unique entry under the empty label.
    assert_eq!(r.records.len(), 2);
    let dup: Vec<&dupes::engine::Record> =
        r.records.iter().filter(|rec| rec.paths.len() == 2).collect();
    let uni: Vec<&dupes::engine::Record> =
        r.records.iter().filter(|rec| rec.paths.len() == 1).collect();
    assert_eq!(dup.len(), 1);
    assert_eq!(uni.len(), 1);
    assert_eq!(dup[0].paths, vec!["a", "b"]);
    assert_eq!(dup[0].label, toUpperHex(digest_of(b"X").as_slice()));
    assert_eq!(uni[0].paths, vec!["c"]);
    assert_eq!(uni[0].label, "");
    assert_eq!(uni[0].size, 1);
}

#[test]
fn scenario_disambiguation_ceiling() {
    let (index, outs) = scenario_inputs();
    let excl = ExclusionIndex::new();
    // Unlimited ceiling: normal binning.
    let r1 = run(&index, cfg(None, None, false, false), &excl, &outs);
    assert_eq!(r1.records.len(), 1);
    assert_eq!(r1.records[0].paths, vec!["a", "b"]);
    // Ceiling below the file size: the whole group is reported
    // unhashed under an empty label, no bins.
    let r2 = run(&index, cfg(Some(0), None, false, false), &excl, &outs);
    assert_eq!(r2.records.len(), 1);
    assert_eq!(r2.records[0].label, "");
    assert_eq!(r2.records[0].size, 1);
    assert_eq!(r2.records[0].paths, vec!["a", "b", "c"]);
}

#[test]
fn scenario_exclusion() {
    let (index, outs) = scenario_inputs();
    // The negative set holds a file with the same content as `a`:
    // every positive file of that digest and size is dropped, and the
    // surviving singleton {c} is visible because exclusion implies
    // unique-reporting and forced hashing.
    let mut excl = ExclusionIndex::new();
    excl.add(1, digest_of(b"X"));
    let r = run(&index, cfg(None, None, true, true), &excl, &outs);
    assert_eq!(r.records.len(), 1);
    assert_eq!(r.records[0].paths, vec!["c"]);
    assert_eq!(r.records[0].label, toUpperHex(digest_of(b"Y").as_slice()));
    for rec in &r.records {
        assert!(!rec.paths.contains(&"a".to_string()));
        assert!(!rec.paths.contains(&"b".to_string()));
    }
}

#[test]
fn scenario_minimum_size_above_everything() {
    let entries = vec![entry("a", 1), entry("b", 1), entry("c", 1)];
    let index = SizeIndex::build(&entries, Some(100));
    assert_eq!(index.groups.len(), 0);
    let excl = ExclusionIndex::new();
    let outs: Vec<Vec<Option<Vec<u8>>>> = Vec::new();
    let r = run(&index, cfg(None, Some(100), true, true), &excl, &outs);
    assert!(r.records.is_empty());
    assert!(r.errors.is_empty());
}

#[test]
fn synthetic_bins_ordered_by_digest() {
    // Four files of one size with crafted digests: bins come out
    // ascending by digest, paths ascending within a bin.
    let entries = vec![entry("p4", 7), entry("p1", 7), entry("p3", 7), entry("p2", 7)];
    let index = SizeIndex::build(&entries, None);
    assert_eq!(index.groups[0].paths, vec!["p1", "p2", "p3", "p4"]);
    let row: Vec<Option<Vec<u8>>> = vec![
        Some(vec![2u8]),
        Some(vec![1u8]),
        Some(vec![2u8]),
        Some(vec![1u8]),
    ];
    let excl = ExclusionIndex::new();
    let r = run(&index, cfg(None, None, false, false), &excl, &vec![row]);
    assert_eq!(r.records.len(), 2);
    assert_eq!(r.records[0].label, "1");
    assert_eq!(r.records[0].paths, vec!["p2", "p4"]);
    assert_eq!(r.records[1].label, "2");
    assert_eq!(r.records[1].paths, vec!["p1", "p3"]);
}

#[test]
fn read_errors_reported_and_not_binned() {
    let entries = vec![entry("bad", 3), entry("x", 3), entry("y", 3)];
    let index = SizeIndex::build(&entries, None);
    assert_eq!(index.groups[0].paths, vec!["bad", "x", "y"]);
    let row: Vec<Option<Vec<u8>>> = vec![None, Some(vec![9u8]), Some(vec![9u8])];
    let excl = ExclusionIndex::new();
    let r = run(&index, cfg(None, None, true, false), &excl, &vec![row]);
    assert_eq!(r.errors.len(), 1);
    assert_eq!(r.errors[0].size, 3);
    assert_eq!(r.errors[0].path, "bad");
    assert_eq!(r.records.len(), 1);
    assert_eq!(r.records[0].paths, vec!["x", "y"]);
    for rec in &r.records {
        assert!(!rec.paths.contains(&"bad".to_string()));
    }
}

#[test]
fn sizes_reported_ascending() {
    let entries = vec![entry("big1", 9), entry("small1", 2), entry("big2", 9), entry("small2", 2)];
    let index = SizeIndex::build(&entries, None);
    let mut outs: Vec<Vec<Option<Vec<u8>>>> = Vec::new();
    for g in &index.groups {
        let mut row: Vec<Option<Vec<u8>>> = Vec::new();
        for _ in &g.paths {
            row.push(Some(vec![5u8]));
        }
        outs.push(row);
    }
    let excl = ExclusionIndex::new();
    let r = run(&index, cfg(None, None, false, false), &excl, &outs);
    assert_eq!(r.records.len(), 2);
    assert_eq!(r.records[0].size, 2);
    assert_eq!(r.records[0].paths, vec!["small1", "small2"]);
    assert_eq!(r.records[1].size, 9);
    assert_eq!(r.records[1].paths, vec!["big1", "big2"]);
}

#[test]
fn bins_partition_the_survivors() {
    let entries = vec![entry("w1", 6), entry("w2", 6), entry("w3", 6), entry("w4", 6)];
    let index = SizeIndex::build(&entries, None);
    let row: Vec<Option<Vec<u8>>> = vec![
        Some(vec![1u8]),
        Some(vec![1u8]),
        Some(vec![2u8]),
        Some(vec![3u8]),
    ];
    let excl = ExclusionIndex::new();
    let r = run(&index, cfg(None, None, true, false), &excl, &vec![row]);
    // Every member sits in exactly one bin.
    let mut seen: Vec<String> = Vec::new();
    for rec in &r.records {
        for p in &rec.paths {
            assert!(!seen.contains(p));
            seen.push(p.clone());
        }
    }
    seen.sort();
    assert_eq!(seen, vec!["w1", "w2", "w3", "w4"]);
}

#[test]
fn growing_the_exclusion_set_only_shrinks_bins() {
    let entries = vec![entry("v1", 6), entry("v2", 6), entry("v3", 6)];
    let index = SizeIndex::build(&entries, None);
    let row: Vec<Option<Vec<u8>>> = vec![Some(vec![1u8]), Some(vec![1u8]), Some(vec![2u8])];
    let outs = vec![row];
    let c = cfg(None, None, true, true);
    let excl1 = ExclusionIndex::new();
    let r1 = run(&index, c, &excl1, &outs);
    let mut excl2 = ExclusionIndex::new();
    excl2.add(6, vec![1u8]);
    let r2 = run(&index, c, &excl2, &outs);
    // The excluded digest's members are gone; nothing new appeared.
    let labels1: Vec<String> = r1.records.iter().map(|rec| rec.label.clone()).collect();
    for rec in &r2.records {
        assert!(labels1.contains(&rec.label));
        assert!(!rec.paths.contains(&"v1".to_string()));
        assert!(!rec.paths.contains(&"v2".to_string()));
        let old = r1.records.iter().find(|o| o.label == rec.label).unwrap();
        for p in &rec.paths {
            assert!(old.paths.contains(p));
        }
    }
    assert_eq!(r2.records.len(), 1);
    assert_eq!(r2.records[0].paths, vec!["v3"]);
}

#[test]
fn rerun_is_identical() {
    let (index, outs) = scenario_inputs();
    let excl = ExclusionIndex::new();
    let c = cfg(None, None, true, true);
    let r1 = run(&index, c, &excl, &outs);
    let r2 = run(&index, c, &excl, &outs);
    assert_eq!(r1.records.len(), r2.records.len());
    for (x, y) in r1.records.iter().zip(r2.records.iter()) {
        assert_eq!(x.label, y.label);
        assert_eq!(x.size, y.size);
        assert_eq!(x.paths, y.paths);
    }
    assert_eq!(r1.errors.len(), r2.errors.len());
}
