use dupes::engine::{group_needs_hash, EngineConfig};
use dupes::exclusion::ExclusionIndex;
use dupes::filter::PathFilter;
use dupes::hasher::ContentHasher;
use dupes::hex::toUpperHex;
use dupes::index::{FileEntry, SizeIndex};

fn cfg(
    avoid: Option<u64>,
    min: Option<u64>,
    show_non_duplicates: bool,
    always_hash: bool,
) -> EngineConfig {
    EngineConfig {
        avoid_compare_if_larger_than: avoid,
        ignore_sizes_below: min,
        show_non_duplicates,
        always_hash,
    }
}

#[test]
fn hex_has_no_per_byte_padding() {
    assert_eq!(toUpperHex(&[]), "");
    assert_eq!(toUpperHex(&[0x0A]), "A");
    assert_eq!(toUpperHex(&[0xAB]), "AB");
    assert_eq!(toUpperHex(&[0x00, 0x0A, 0xAB]), "0AAB");
    assert_eq!(toUpperHex(&[0xFF, 0x00]), "FF0");
}

#[test]
fn digest_of_empty_stream_is_sha256_of_nothing() {
    let h = ContentHasher::new();
    let d = h.finalize();
    assert_eq!(d.len(), 32);
    assert_eq!(
        toUpperHex(d.as_slice()),
        "E3B0C44298FC1C149AFBF4C8996FB92427AE41E4649B934CA495991B7852B855"
    );
}

#[test]
fn digest_ignores_chunk_boundaries() {
    let mut one = ContentHasher::new();
    one.update(b"XY");
    let mut two = ContentHasher::new();
    two.update(b"X");
    two.update(b"Y");
    assert_eq!(one.finalize(), two.finalize());
    let mut other = ContentHasher::new();
    other.update(b"YX");
    assert_ne!(one.finalize(), other.finalize());
}

#[test]
fn filter_without_pattern_allows_everything() {
    let f = PathFilter::accept_all();
    assert!(f.allows("/any/path/at/all"));
    assert!(f.allows(""));
}

#[test]
fn filter_excludes_matching_paths() {
    let f = PathFilter::from_patterns(&vec!["foo".to_string()]).unwrap();
    assert!(!f.allows("/a/foo/b"));
    assert!(f.allows("/bar"));
}

#[test]
fn filter_joins_patterns_as_alternation() {
    let f = PathFilter::from_patterns(&vec!["foo".to_string(), "bar".to_string()]).unwrap();
    assert!(!f.allows("xfooy"));
    assert!(!f.allows("xbary"));
    assert!(f.allows("baz"));
}

#[test]
fn filter_rejects_invalid_pattern() {
    assert!(PathFilter::from_patterns(&vec!["a(".to_string()]).is_none());
}

#[test]
fn exclusion_membership() {
    let mut e = ExclusionIndex::new();
    assert!(!e.contains(4, &vec![1, 2]));
    e.add(4, vec![1, 2]);
    assert!(e.contains(4, &vec![1, 2]));
    assert!(!e.contains(5, &vec![1, 2]));
    assert!(!e.contains(4, &vec![1, 3]));
}

#[test]
fn index_sorts_and_deduplicates() {
    let entries = vec![
        FileEntry { path: "b".to_string(), size: 5 },
        FileEntry { path: "z".to_string(), size: 3 },
        FileEntry { path: "a".to_string(), size: 5 },
        FileEntry { path: "z".to_string(), size: 3 },
    ];
    let index = SizeIndex::build(&entries, None);
    assert_eq!(index.groups.len(), 2);
    assert_eq!(index.groups[0].size, 3);
    assert_eq!(index.groups[0].paths, vec!["z"]);
    assert_eq!(index.groups[1].size, 5);
    assert_eq!(index.groups[1].paths, vec!["a", "b"]);
}

#[test]
fn index_ignores_enumeration_order() {
    let forward = vec![
        FileEntry { path: "m".to_string(), size: 8 },
        FileEntry { path: "n".to_string(), size: 8 },
        FileEntry { path: "k".to_string(), size: 2 },
    ];
    let backward = vec![
        FileEntry { path: "k".to_string(), size: 2 },
        FileEntry { path: "n".to_string(), size: 8 },
        FileEntry { path: "m".to_string(), size: 8 },
    ];
    let i1 = SizeIndex::build(&forward, None);
    let i2 = SizeIndex::build(&backward, None);
    assert_eq!(i1.groups.len(), i2.groups.len());
    for (g1, g2) in i1.groups.iter().zip(i2.groups.iter()) {
        assert_eq!(g1.size, g2.size);
        assert_eq!(g1.paths, g2.paths);
    }
}

#[test]
fn index_minimum_size_filter() {
    let entries = vec![
        FileEntry { path: "small".to_string(), size: 3 },
        FileEntry { path: "exact".to_string(), size: 4 },
        FileEntry { path: "large".to_string(), size: 5 },
    ];
    let index = SizeIndex::build(&entries, Some(4));
    assert_eq!(index.groups.len(), 2);
    assert_eq!(index.groups[0].paths, vec!["exact"]);
    assert_eq!(index.groups[1].paths, vec!["large"]);
}

#[test]
fn singleton_group_is_never_hashed_unless_forced() {
    let c = cfg(None, None, true, false);
    assert!(!group_needs_hash(c, 10, 1));
    assert!(group_needs_hash(c, 10, 2));
    let forced = cfg(None, None, true, true);
    assert!(group_needs_hash(forced, 10, 1));
    // Above the ceiling nothing is hashed, forced or not.
    let ceiling = cfg(Some(5), None, true, true);
    assert!(!group_needs_hash(ceiling, 10, 2));
    assert!(group_needs_hash(ceiling, 5, 2));
}
