use dupfind::stages::{
    clusters_by_digest, fingerprint, fingerprint_bucket, read_limit, size_buckets, split_exact,
    Cluster, Config, SizeBucket, PREFIX_LEN,
};
use dupfind::walk::{EntryKind, EntryMeta, FoundFile, Visit, Walker};
use std::collections::hash_map::DefaultHasher;
use std::hash::Hasher;

fn file(dev: u64, ino: u64, len: u64) -> Option<EntryMeta> {
    Some(EntryMeta { kind: EntryKind::File, dev, ino, len })
}

fn of_kind(kind: EntryKind) -> Option<EntryMeta> {
    Some(EntryMeta { kind, dev: 1, ino: 99, len: 4096 })
}

fn walk(entries: Vec<(&str, Option<EntryMeta>)>) -> Vec<FoundFile> {
    let mut w = Walker::new();
    for (path, meta) in entries {
        w.visit(path.to_string(), meta);
    }
    w.into_found()
}

fn names(files: &[String]) -> Vec<&str> {
    files.iter().map(|f| f.as_str()).collect()
}

/// Runs the narrowing stages on found files whose contents are given by path.
fn clusters_for(found: &Vec<FoundFile>, content: &dyn Fn(&str) -> Option<Vec<u8>>, config: Config) -> Vec<Cluster> {
    let mut out = Vec::new();
    for bucket in size_buckets(found) {
        let contents: Vec<Option<Vec<u8>>> = bucket.paths.iter().map(|p| content(p)).collect();
        for c in fingerprint_bucket(&bucket, &contents, config.thorough) {
            if config.exhaustive {
                let full: Vec<Option<Vec<u8>>> = c.files.iter().map(|p| content(p)).collect();
                out.extend(split_exact(&c, &full));
            } else {
                out.push(c);
            }
        }
    }
    out
}

const QUICK: Config = Config { thorough: false, exhaustive: false };

#[test]
fn quick_mode_keeps_only_identical_pair() {
    let found = walk(vec![
        ("d/A", file(1, 10, 512)),
        ("d/B", file(1, 11, 512)),
        ("d/C", file(1, 12, 512)),
        ("d/D", file(1, 13, 10)),
    ]);
    let content = |p: &str| -> Option<Vec<u8>> {
        match p {
            "d/A" | "d/B" => Some(vec![b'x'; 512]),
            "d/C" => Some(vec![b'y'; 512]),
            "d/D" => Some(vec![b'z'; 10]),
            _ => None,
        }
    };
    let clusters = clusters_for(&found, &content, QUICK);
    assert_eq!(clusters.len(), 1);
    assert_eq!(names(&clusters[0].files), vec!["d/A", "d/B"]);
    assert_eq!(clusters[0].size, 512);
    assert_eq!(clusters[0].digest, fingerprint(&vec![b'x'; 512], false));
}

#[test]
fn hardlinks_count_once() {
    let found = walk(vec![("E", file(3, 7, 64)), ("F", file(3, 7, 64)), ("G", file(3, 8, 64))]);
    let content = |_: &str| -> Option<Vec<u8>> { Some(vec![5u8; 64]) };
    let clusters = clusters_for(&found, &content, QUICK);
    assert_eq!(clusters.len(), 1);
    assert_eq!(names(&clusters[0].files), vec!["E", "G"]);
}

#[test]
fn second_link_is_reported_seen() {
    let mut w = Walker::new();
    assert_eq!(w.visit("E".to_string(), file(3, 7, 64)), Visit::Recorded);
    assert_eq!(w.visit("F".to_string(), file(3, 7, 64)), Visit::AlreadySeen);
    let found = w.into_found();
    assert_eq!(found.len(), 1);
    assert_eq!(found[0].path, "E");
}

#[test]
fn same_inode_on_other_device_is_distinct() {
    let found = walk(vec![("a", file(1, 7, 8)), ("b", file(2, 7, 8))]);
    assert_eq!(found.len(), 2);
}

#[test]
fn empty_files_never_cluster() {
    let mut w = Walker::new();
    assert_eq!(w.visit("e1".to_string(), file(1, 1, 0)), Visit::SkippedEmpty);
    assert_eq!(w.visit("e2".to_string(), file(1, 2, 0)), Visit::SkippedEmpty);
    let found = w.into_found();
    assert!(found.is_empty());
    assert!(size_buckets(&found).is_empty());
}

#[test]
fn symlinks_are_neither_kept_nor_followed() {
    let mut w = Walker::new();
    assert_eq!(w.visit("link".to_string(), of_kind(EntryKind::Symlink)), Visit::SkippedLink);
    assert_eq!(w.next_dir(), None);
    assert!(w.into_found().is_empty());
}

#[test]
fn directories_are_queued_last_first() {
    let mut w = Walker::new();
    w.push_root("root".to_string());
    assert_eq!(w.next_dir(), Some("root".to_string()));
    assert_eq!(w.visit("root/a".to_string(), of_kind(EntryKind::Directory)), Visit::Queued);
    assert_eq!(w.visit("root/b".to_string(), of_kind(EntryKind::Directory)), Visit::Queued);
    assert_eq!(w.next_dir(), Some("root/b".to_string()));
    assert_eq!(w.next_dir(), Some("root/a".to_string()));
    assert_eq!(w.next_dir(), None);
}

#[test]
fn unreadable_and_special_entries_are_skipped() {
    let mut w = Walker::new();
    assert_eq!(w.visit("bad".to_string(), None), Visit::Unreadable);
    assert_eq!(w.visit("fifo".to_string(), of_kind(EntryKind::Other)), Visit::SkippedOther);
    assert_eq!(w.next_dir(), None);
    assert!(w.into_found().is_empty());
}

#[test]
fn buckets_group_by_size_in_discovery_order() {
    let found = walk(vec![
        ("a", file(1, 1, 7)),
        ("b", file(1, 2, 9)),
        ("c", file(1, 3, 7)),
        ("d", file(1, 4, 5)),
        ("e", file(1, 5, 9)),
        ("f", file(1, 6, 7)),
    ]);
    let buckets = size_buckets(&found);
    assert_eq!(buckets.len(), 2);
    assert_eq!(buckets[0].size, 7);
    assert_eq!(names(&buckets[0].paths), vec!["a", "c", "f"]);
    assert_eq!(buckets[1].size, 9);
    assert_eq!(names(&buckets[1].paths), vec!["b", "e"]);
}

#[test]
fn different_sizes_never_share_a_cluster() {
    let found = walk(vec![("a", file(1, 1, 3)), ("b", file(1, 2, 4))]);
    let content = |_: &str| -> Option<Vec<u8>> { Some(vec![1, 2, 3]) };
    assert!(clusters_for(&found, &content, QUICK).is_empty());
}

#[test]
fn fingerprint_matches_default_hasher() {
    let mut h = DefaultHasher::new();
    h.write(b"abc");
    assert_eq!(fingerprint(b"abc", false), h.finish());
    assert_eq!(fingerprint(b"abc", true), h.finish());
    assert_ne!(fingerprint(b"abc", false), fingerprint(b"abd", false));
}

#[test]
fn quick_fingerprint_covers_prefix_only() {
    let mut a = vec![0u8; 2000];
    let mut b = vec![0u8; 2000];
    a[1500] = 1;
    b[1500] = 2;
    assert_eq!(fingerprint(&a, false), fingerprint(&b, false));
    assert_ne!(fingerprint(&a, true), fingerprint(&b, true));
    let mut h = DefaultHasher::new();
    h.write(&a[..PREFIX_LEN]);
    assert_eq!(fingerprint(&a, false), h.finish());
}

#[test]
fn different_fingerprints_never_share_a_cluster() {
    let bucket = SizeBucket { size: 4, paths: vec!["p".to_string(), "q".to_string(), "r".to_string()] };
    let digests = vec![Some(1u64), Some(2u64), Some(1u64)];
    let clusters = clusters_by_digest(&bucket, &digests);
    assert_eq!(clusters.len(), 1);
    assert_eq!(clusters[0].digest, 1);
    assert_eq!(clusters[0].size, 4);
    assert_eq!(names(&clusters[0].files), vec!["p", "r"]);
}

#[test]
fn unread_files_are_excluded() {
    let bucket = SizeBucket { size: 4, paths: vec!["p".to_string(), "q".to_string(), "r".to_string()] };
    let contents = vec![Some(vec![1u8, 2, 3, 4]), None, Some(vec![1u8, 2, 3, 4])];
    let clusters = fingerprint_bucket(&bucket, &contents, false);
    assert_eq!(clusters.len(), 1);
    assert_eq!(names(&clusters[0].files), vec!["p", "r"]);
    let digests = vec![None, Some(3u64), None];
    assert!(clusters_by_digest(&bucket, &digests).is_empty());
}

#[test]
fn clusters_follow_first_appearance() {
    let paths: Vec<String> = ["a", "b", "c", "d", "e"].iter().map(|s| s.to_string()).collect();
    let bucket = SizeBucket { size: 2, paths };
    let digests = vec![Some(9u64), Some(4u64), Some(4u64), Some(9u64), Some(7u64)];
    let clusters = clusters_by_digest(&bucket, &digests);
    assert_eq!(clusters.len(), 2);
    assert_eq!(clusters[0].digest, 9);
    assert_eq!(names(&clusters[0].files), vec!["a", "d"]);
    assert_eq!(clusters[1].digest, 4);
    assert_eq!(names(&clusters[1].files), vec!["b", "c"]);
}

#[test]
fn exhaustive_splits_same_prefix_different_content() {
    let mut x = vec![7u8; 3000];
    let y = x.clone();
    x[2999] = 8;
    let found = walk(vec![("x", file(1, 1, 3000)), ("y", file(1, 2, 3000))]);
    let content = |p: &str| -> Option<Vec<u8>> { if p == "x" { Some(x.clone()) } else { Some(y.clone()) } };
    let quick = clusters_for(&found, &content, QUICK);
    assert_eq!(quick.len(), 1);
    let exact = clusters_for(&found, &content, Config { thorough: false, exhaustive: true });
    assert!(exact.is_empty());
}

#[test]
fn exhaustive_keeps_identical_members() {
    let cluster = Cluster {
        size: 3,
        digest: 42,
        files: vec!["a".to_string(), "b".to_string(), "c".to_string(), "d".to_string()],
    };
    let contents = vec![Some(vec![1u8, 2, 3]), Some(vec![1u8, 2, 4]), Some(vec![1u8, 2, 3]), None];
    let parts = split_exact(&cluster, &contents);
    assert_eq!(parts.len(), 1);
    assert_eq!(parts[0].size, 3);
    assert_eq!(parts[0].digest, 42);
    assert_eq!(names(&parts[0].files), vec!["a", "c"]);
}

#[test]
fn every_cluster_has_two_members() {
    let paths: Vec<String> = (0..6).map(|i| format!("f{}", i)).collect();
    let bucket = SizeBucket { size: 1, paths };
    let digests = vec![Some(1u64), Some(2u64), Some(3u64), Some(2u64), None, Some(4u64)];
    let clusters = clusters_by_digest(&bucket, &digests);
    assert_eq!(clusters.len(), 1);
    assert!(clusters.iter().all(|c| c.files.len() >= 2));
}

#[test]
fn scanning_twice_gives_the_same_clusters() {
    let entries = || {
        vec![
            ("a", file(1, 1, 4)),
            ("b", file(1, 2, 4)),
            ("c", file(1, 3, 4)),
            ("d", file(1, 4, 4)),
        ]
    };
    let content = |p: &str| -> Option<Vec<u8>> {
        Some(if p == "a" || p == "c" { vec![1, 1, 1, 1] } else { vec![2, 2, 2, 2] })
    };
    let first = clusters_for(&walk(entries()), &content, QUICK);
    let second = clusters_for(&walk(entries()), &content, QUICK);
    assert_eq!(first.len(), 2);
    assert_eq!(first.len(), second.len());
    for (a, b) in first.iter().zip(second.iter()) {
        assert_eq!(a.size, b.size);
        assert_eq!(a.digest, b.digest);
        assert_eq!(a.files, b.files);
    }
}

#[test]
fn read_limit_follows_thoroughness() {
    assert_eq!(read_limit(QUICK), Some(1024));
    assert_eq!(read_limit(Config { thorough: true, exhaustive: false }), None);
}
