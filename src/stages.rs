//! The narrowing of candidates: files grouped by size, then by fingerprint,
//! then, on request, by their full content.
use std::collections::hash_map::DefaultHasher;
use std::hash::Hasher;
use vstd::prelude::*;
use vstd::slice::slice_subrange;
use vstd::std_specs::hash::DefaultHasherAdditionalSpecFns;
use crate::grouping::{
    bytes_equal,
    content_keys,
    group_by_content,
    group_by_u64,
    grouped,
    key_order,
    lemma_positions_hold_key,
    lemma_repeated_have_two,
    positions,
    repeated_keys,
    select_repeated,
};
use crate::walk::{FoundFile, nonempty_files};

verus! {

/// How many leading bytes of a file a quick fingerprint covers.
pub const PREFIX_LEN: usize = 1024;

/// The switches of a scan: `thorough` fingerprints whole files instead of
/// their first `PREFIX_LEN` bytes; `exhaustive` confirms each cluster by
/// comparing full contents.
#[derive(Clone, Copy, PartialEq, Eq, Structural, Debug)]
pub struct Config {
    pub thorough: bool,
    pub exhaustive: bool,
}

/// The files of one size that share it with at least one other file.
#[derive(Debug)]
pub struct SizeBucket {
    pub size: u64,
    pub paths: Vec<String>,
}

/// A reported group of duplicates: their size, the fingerprint they share,
/// and their paths.
#[derive(Debug)]
pub struct Cluster {
    pub size: u64,
    pub digest: u64,
    pub files: Vec<String>,
}

/// The paths at the given positions of `paths`.
pub open spec fn files_at(paths: Seq<String>, idx: Seq<usize>) -> Seq<String> {
    idx.map_values(|p: usize| paths[p as int])
}

/// The sizes of the found files, as grouping keys.
pub open spec fn size_keys(found: Seq<FoundFile>) -> Seq<Option<u64>> {
    found.map_values(|f: FoundFile| Some(f.size))
}

/// The paths of the found files.
pub open spec fn paths_of(found: Seq<FoundFile>) -> Seq<String> {
    found.map_values(|f: FoundFile| f.path)
}

/// The bytes of `data` that its fingerprint covers.
pub open spec fn fingerprint_input(data: Seq<u8>, thorough: bool) -> Seq<u8> {
    if thorough || data.len() <= PREFIX_LEN {
        data
    } else {
        data.take(PREFIX_LEN as int)
    }
}

/// The fingerprint of `data`: the standard library's default 64-bit hasher
/// fed the covered bytes in one write.
pub open spec fn fingerprint_of(data: Seq<u8>, thorough: bool) -> u64 {
    DefaultHasher::spec_finish(seq![fingerprint_input(data, thorough)])
}

/// The fingerprints of a list of contents; an unread content has none.
pub open spec fn fingerprints(contents: Seq<Option<Vec<u8>>>, thorough: bool) -> Seq<Option<u64>> {
    contents.map_values(
        |c: Option<Vec<u8>>|
            match c {
                Some(v) => Some(fingerprint_of(v@, thorough)),
                None => None,
            },
    )
}

/// `buckets` holds, for each size held by two or more found files, in order
/// of first discovery, the paths of those files in order of discovery.
pub open spec fn size_buckets_of(found: Seq<FoundFile>, buckets: Seq<SizeBucket>) -> bool {
    let keys = size_keys(found);
    &&& buckets.len() == repeated_keys(keys).len()
    &&& forall|j: int|
        #![trigger buckets[j]]
        0 <= j < buckets.len() ==> {
            &&& buckets[j].size == repeated_keys(keys)[j]
            &&& buckets[j].paths@ == files_at(paths_of(found), positions(keys, buckets[j].size))
        }
}

/// `clusters` holds, for each key held at two or more positions of `keys`,
/// in order of first appearance, the paths at those positions, in order.
pub open spec fn clusters_of<K>(
    clusters: Seq<Cluster>,
    paths: Seq<String>,
    keys: Seq<Option<K>>,
) -> bool {
    &&& clusters.len() == repeated_keys(keys).len()
    &&& forall|j: int|
        0 <= j < clusters.len() ==> (#[trigger] clusters[j]).files@ == files_at(
            paths,
            positions(keys, repeated_keys(keys)[j]),
        )
}

/// `clusters` is the grouping of the files of `bucket` by the fingerprints
/// `digests`, one per path.
pub open spec fn digest_clusters_of(
    bucket: SizeBucket,
    digests: Seq<Option<u64>>,
    clusters: Seq<Cluster>,
) -> bool {
    &&& clusters_of(clusters, bucket.paths@, digests)
    &&& forall|j: int|
        #![trigger clusters[j]]
        0 <= j < clusters.len() ==> {
            &&& clusters[j].size == bucket.size
            &&& clusters[j].digest == repeated_keys(digests)[j]
        }
}

/// `parts` is the split of `cluster` by the full contents of its files.
pub open spec fn exact_clusters_of(
    cluster: Cluster,
    contents: Seq<Option<Vec<u8>>>,
    parts: Seq<Cluster>,
) -> bool {
    &&& clusters_of(parts, cluster.files@, content_keys(contents))
    &&& forall|j: int|
        #![trigger parts[j]]
        0 <= j < parts.len() ==> {
            &&& parts[j].size == cluster.size
            &&& parts[j].digest == cluster.digest
        }
}

/// How many bytes of each file the fingerprint needs: `None` for all of them.
pub fn read_limit(config: Config) -> (r: Option<usize>)
    ensures
        r == if config.thorough {
            None
        } else {
            Some(PREFIX_LEN)
        },
{
    if config.thorough {
        None
    } else {
        Some(PREFIX_LEN)
    }
}

/// The fingerprint of `data`: a hash of its first `PREFIX_LEN` bytes, or of
/// all of it when `thorough` is set.
pub fn fingerprint(data: &[u8], thorough: bool) -> (r: u64)
    ensures
        r == fingerprint_of(data@, thorough),
{
    let mut hasher = DefaultHasher::new();
    if thorough || data.len() <= PREFIX_LEN {
        hasher.write(data);
    } else {
        hasher.write(slice_subrange(data, 0, PREFIX_LEN));
    }
    assert(hasher@ == seq![fingerprint_input(data@, thorough)]);
    hasher.finish()
}

/// The paths at the positions `idx` of `paths`.
fn pick(paths: &Vec<String>, idx: &Vec<usize>) -> (r: Vec<String>)
    requires
        forall|t: int| 0 <= t < idx.len() ==> #[trigger] idx@[t] < paths.len(),
    ensures
        r@ == files_at(paths@, idx@),
{
    let mut r: Vec<String> = Vec::new();
    let mut t: usize = 0;
    while t < idx.len()
        invariant
            t <= idx.len(),
            forall|t: int| 0 <= t < idx.len() ==> #[trigger] idx@[t] < paths.len(),
            r@ == files_at(paths@, idx@.take(t as int)),
        decreases idx.len() - t,
    {
        r.push(paths[idx[t]].clone());
        assert(files_at(paths@, idx@.take(t + 1)) == files_at(paths@, idx@.take(t as int)).push(
            paths@[idx@[t as int] as int],
        ));
        t += 1;
    }
    assert(idx@.take(idx.len() as int) == idx@);
    r
}

/// Groups the found files by size and keeps the sizes shared by two or more
/// files.
pub fn size_buckets(found: &Vec<FoundFile>) -> (r: Vec<SizeBucket>)
    ensures
        size_buckets_of(found@, r@),
        forall|j: int| 0 <= j < r.len() ==> #[trigger] r@[j].paths@.len() >= 2,
{
    let mut keys: Vec<Option<u64>> = Vec::new();
    let mut paths: Vec<String> = Vec::new();
    let mut i: usize = 0;
    while i < found.len()
        invariant
            i <= found.len(),
            keys@ == size_keys(found@.take(i as int)),
            paths@ == paths_of(found@.take(i as int)),
        decreases found.len() - i,
    {
        keys.push(Some(found[i].size));
        paths.push(found[i].path.clone());
        assert(found@.take(i + 1) == found@.take(i as int).push(found@[i as int]));
        i += 1;
    }
    assert(found@.take(found.len() as int) == found@);
    let ghost k = keys@;
    let (order, members) = group_by_u64(&keys);
    let sel = select_repeated::<u64>(Ghost(k), Ghost(order@), &members);
    let mut r: Vec<SizeBucket> = Vec::new();
    let mut t: usize = 0;
    while t < sel.len()
        invariant
            t <= sel.len(),
            k == size_keys(found@),
            paths@ == paths_of(found@),
            paths@.len() == k.len(),
            k.len() == found.len(),
            grouped(k, order@, members@),
            sel.len() == repeated_keys(k).len(),
            forall|t: int|
                0 <= t < sel.len() ==> #[trigger] sel@[t] < order.len() && order@[sel@[t] as int]
                    == repeated_keys(k)[t],
            r.len() == t,
            forall|x: int|
                #![trigger r@[x]]
                0 <= x < t ==> {
                    &&& r@[x].size == repeated_keys(k)[x]
                    &&& r@[x].paths@ == files_at(paths@, positions(k, r@[x].size))
                    &&& r@[x].paths@.len() >= 2
                },
        decreases sel.len() - t,
    {
        let j = sel[t];
        let size = order[j];
        proof {
            assert(members@[j as int]@ == positions(k, size));
            lemma_positions_hold_key(k, size);
            lemma_repeated_have_two(k, key_order(k));
        }
        let files = pick(&paths, &members[j]);
        r.push(SizeBucket { size, paths: files });
        t += 1;
    }
    r
}

/// Groups the files of `bucket` by their fingerprints, one per path (`None`
/// for a file that could not be read), and keeps the fingerprints shared by
/// two or more files.
pub fn clusters_by_digest(bucket: &SizeBucket, digests: &Vec<Option<u64>>) -> (r: Vec<Cluster>)
    requires
        digests.len() == bucket.paths.len(),
    ensures
        digest_clusters_of(*bucket, digests@, r@),
        forall|j: int| 0 <= j < r.len() ==> #[trigger] r@[j].files@.len() >= 2,
{
    let ghost k = digests@;
    let (order, members) = group_by_u64(digests);
    let sel = select_repeated::<u64>(Ghost(k), Ghost(order@), &members);
    let mut r: Vec<Cluster> = Vec::new();
    let mut t: usize = 0;
    while t < sel.len()
        invariant
            t <= sel.len(),
            k == digests@,
            digests.len() == bucket.paths.len(),
            grouped(k, order@, members@),
            sel.len() == repeated_keys(k).len(),
            forall|t: int|
                0 <= t < sel.len() ==> #[trigger] sel@[t] < order.len() && order@[sel@[t] as int]
                    == repeated_keys(k)[t],
            r.len() == t,
            forall|x: int|
                #![trigger r@[x]]
                0 <= x < t ==> {
                    &&& r@[x].size == bucket.size
                    &&& r@[x].digest == repeated_keys(k)[x]
                    &&& r@[x].files@ == files_at(bucket.paths@, positions(k, repeated_keys(k)[x]))
                    &&& r@[x].files@.len() >= 2
                },
        decreases sel.len() - t,
    {
        let j = sel[t];
        let digest = order[j];
        proof {
            assert(members@[j as int]@ == positions(k, digest));
            lemma_positions_hold_key(k, digest);
            lemma_repeated_have_two(k, key_order(k));
        }
        let files = pick(&bucket.paths, &members[j]);
        r.push(Cluster { size: bucket.size, digest, files });
        t += 1;
    }
    r
}

/// Fingerprints the files of `bucket` from their contents, one per path
/// (`None` for a file that could not be read), and groups them by
/// fingerprint.
pub fn fingerprint_bucket(
    bucket: &SizeBucket,
    contents: &Vec<Option<Vec<u8>>>,
    thorough: bool,
) -> (r: Vec<Cluster>)
    requires
        contents.len() == bucket.paths.len(),
    ensures
        digest_clusters_of(*bucket, fingerprints(contents@, thorough), r@),
        forall|j: int| 0 <= j < r.len() ==> #[trigger] r@[j].files@.len() >= 2,
{
    let mut digests: Vec<Option<u64>> = Vec::new();
    let mut i: usize = 0;
    while i < contents.len()
        invariant
            i <= contents.len(),
            digests@ == fingerprints(contents@.take(i as int), thorough),
        decreases contents.len() - i,
    {
        let d = match &contents[i] {
            Some(data) => Some(fingerprint(data.as_slice(), thorough)),
            None => None,
        };
        digests.push(d);
        assert(contents@.take(i + 1) == contents@.take(i as int).push(contents@[i as int]));
        i += 1;
    }
    assert(contents@.take(contents.len() as int) == contents@);
    clusters_by_digest(bucket, &digests)
}

/// Splits `cluster` by the full contents of its files, one per path (`None`
/// for a file that could not be read), and keeps the contents shared by two
/// or more files.
pub fn split_exact(cluster: &Cluster, contents: &Vec<Option<Vec<u8>>>) -> (r: Vec<Cluster>)
    requires
        contents.len() == cluster.files.len(),
    ensures
        exact_clusters_of(*cluster, contents@, r@),
        forall|j: int| 0 <= j < r.len() ==> #[trigger] r@[j].files@.len() >= 2,
{
    let ghost k = content_keys(contents@);
    let members = group_by_content(contents);
    let ghost order = key_order(k);
    let sel = select_repeated::<Seq<u8>>(Ghost(k), Ghost(order), &members);
    let mut r: Vec<Cluster> = Vec::new();
    let mut t: usize = 0;
    while t < sel.len()
        invariant
            t <= sel.len(),
            k == content_keys(contents@),
            k.len() == cluster.files.len(),
            grouped(k, order, members@),
            sel.len() == repeated_keys(k).len(),
            forall|t: int|
                0 <= t < sel.len() ==> #[trigger] sel@[t] < order.len() && order[sel@[t] as int]
                    == repeated_keys(k)[t],
            r.len() == t,
            forall|x: int|
                #![trigger r@[x]]
                0 <= x < t ==> {
                    &&& r@[x].size == cluster.size
                    &&& r@[x].digest == cluster.digest
                    &&& r@[x].files@ == files_at(cluster.files@, positions(k, repeated_keys(k)[x]))
                    &&& r@[x].files@.len() >= 2
                },
        decreases sel.len() - t,
    {
        let j = sel[t];
        proof {
            assert(members@[j as int]@ == positions(k, order[j as int]));
            lemma_positions_hold_key(k, order[j as int]);
            lemma_repeated_have_two(k, key_order(k));
        }
        let files = pick(&cluster.files, &members[j]);
        r.push(Cluster { size: cluster.size, digest: cluster.digest, files });
        t += 1;
    }
    r
}

/// Every path of a size bucket belongs to a found file of the bucket's size;
/// where no found file is empty, no bucket is of size zero.
pub proof fn lemma_bucket_members_have_size(
    found: Seq<FoundFile>,
    buckets: Seq<SizeBucket>,
    j: int,
    t: int,
)
    requires
        found.len() <= usize::MAX,
        size_buckets_of(found, buckets),
        0 <= j < buckets.len(),
        0 <= t < buckets[j].paths@.len(),
    ensures
        exists|i: int|
            0 <= i < found.len() && found[i].path == buckets[j].paths@[t] && found[i].size
                == buckets[j].size,
        nonempty_files(found) ==> buckets[j].size > 0,
{
    let keys = size_keys(found);
    lemma_positions_hold_key(keys, buckets[j].size);
    let i = positions(keys, buckets[j].size)[t] as int;
    assert(keys[i] == Some(found[i].size));
    assert(found[i].path == buckets[j].paths@[t]);
}

/// Every file of a cluster drawn from a size bucket was found with the
/// cluster's size; where no found file is empty, no cluster holds an empty
/// file.
pub proof fn lemma_cluster_members_have_size(
    found: Seq<FoundFile>,
    buckets: Seq<SizeBucket>,
    j: int,
    digests: Seq<Option<u64>>,
    clusters: Seq<Cluster>,
    c: int,
    t: int,
)
    requires
        found.len() <= usize::MAX,
        size_buckets_of(found, buckets),
        0 <= j < buckets.len(),
        digests.len() <= usize::MAX,
        digests.len() == buckets[j].paths@.len(),
        digest_clusters_of(buckets[j], digests, clusters),
        0 <= c < clusters.len(),
        0 <= t < clusters[c].files@.len(),
    ensures
        exists|i: int|
            0 <= i < found.len() && found[i].path == clusters[c].files@[t] && found[i].size
                == clusters[c].size,
        nonempty_files(found) ==> clusters[c].size > 0,
{
    let keys = size_keys(found);
    lemma_positions_hold_key(keys, buckets[j].size);
    let k = repeated_keys(digests)[c];
    lemma_positions_hold_key(digests, k);
    let p = positions(digests, k)[t] as int;
    assert(clusters[c].files@[t] == buckets[j].paths@[p]);
    lemma_bucket_members_have_size(found, buckets, j, p);
}

/// In a cluster made from fingerprints, every file was read and has the
/// cluster's fingerprint, so two files of different fingerprints never share
/// a cluster.
pub proof fn lemma_cluster_members_share_fingerprint(
    bucket: SizeBucket,
    contents: Seq<Option<Vec<u8>>>,
    thorough: bool,
    clusters: Seq<Cluster>,
    c: int,
    t: int,
)
    requires
        contents.len() <= usize::MAX,
        contents.len() == bucket.paths@.len(),
        digest_clusters_of(bucket, fingerprints(contents, thorough), clusters),
        0 <= c < clusters.len(),
        0 <= t < clusters[c].files@.len(),
    ensures
        exists|p: int|
            0 <= p < contents.len() && bucket.paths@[p] == clusters[c].files@[t]
                && contents[p] is Some && fingerprint_of(contents[p]->Some_0@, thorough)
                == clusters[c].digest,
{
    let digests = fingerprints(contents, thorough);
    let k = repeated_keys(digests)[c];
    lemma_positions_hold_key(digests, k);
    let p = positions(digests, k)[t] as int;
    assert(digests[p] == Some(k));
    assert(contents[p] is Some);
    assert(fingerprint_of(contents[p]->Some_0@, thorough) == k);
    assert(clusters[c].digest == k);
    assert(bucket.paths@[p] == clusters[c].files@[t]);
}

/// Any two files of one cluster of a content split have identical full
/// contents, so files whose contents differ never share such a cluster.
pub proof fn lemma_exact_members_identical(
    cluster: Cluster,
    contents: Seq<Option<Vec<u8>>>,
    parts: Seq<Cluster>,
    x: int,
    t1: int,
    t2: int,
)
    requires
        contents.len() <= usize::MAX,
        contents.len() == cluster.files@.len(),
        exact_clusters_of(cluster, contents, parts),
        0 <= x < parts.len(),
        0 <= t1 < parts[x].files@.len(),
        0 <= t2 < parts[x].files@.len(),
    ensures
        exists|p1: int, p2: int|
            0 <= p1 < contents.len() && 0 <= p2 < contents.len() && cluster.files@[p1]
                == parts[x].files@[t1] && cluster.files@[p2] == parts[x].files@[t2]
                && contents[p1] is Some && contents[p2] is Some && contents[p1]->Some_0@
                == contents[p2]->Some_0@,
{
    let keys = content_keys(contents);
    let k = repeated_keys(keys)[x];
    lemma_positions_hold_key(keys, k);
    let p1 = positions(keys, k)[t1] as int;
    let p2 = positions(keys, k)[t2] as int;
    assert(keys[p1] == Some(k) && keys[p2] == Some(k));
    assert(cluster.files@[p1] == parts[x].files@[t1]);
    assert(cluster.files@[p2] == parts[x].files@[t2]);
}

/// Every file of a part of a content split is a file of the split cluster,
/// with its size and fingerprint.
pub proof fn lemma_exact_members_within(
    cluster: Cluster,
    contents: Seq<Option<Vec<u8>>>,
    parts: Seq<Cluster>,
    x: int,
    t: int,
)
    requires
        contents.len() <= usize::MAX,
        contents.len() == cluster.files@.len(),
        exact_clusters_of(cluster, contents, parts),
        0 <= x < parts.len(),
        0 <= t < parts[x].files@.len(),
    ensures
        exists|p: int| 0 <= p < cluster.files@.len() && cluster.files@[p] == parts[x].files@[t],
        parts[x].size == cluster.size,
        parts[x].digest == cluster.digest,
{
    let keys = content_keys(contents);
    let k = repeated_keys(keys)[x];
    lemma_positions_hold_key(keys, k);
    let p = positions(keys, k)[t] as int;
    assert(cluster.files@[p] == parts[x].files@[t]);
}

/// Size bucketing is a function of the found files: two results for one
/// list of found files are the same buckets.
pub proof fn lemma_size_buckets_unique(
    found: Seq<FoundFile>,
    a: Seq<SizeBucket>,
    b: Seq<SizeBucket>,
)
    requires
        size_buckets_of(found, a),
        size_buckets_of(found, b),
    ensures
        a.len() == b.len(),
        forall|j: int|
            0 <= j < a.len() ==> #[trigger] a[j].size == b[j].size && a[j].paths@ == b[j].paths@,
{
}

/// Grouping by fingerprint is a function of the bucket and the
/// fingerprints: two results for one input are the same clusters.
pub proof fn lemma_digest_clusters_unique(
    bucket: SizeBucket,
    digests: Seq<Option<u64>>,
    a: Seq<Cluster>,
    b: Seq<Cluster>,
)
    requires
        digest_clusters_of(bucket, digests, a),
        digest_clusters_of(bucket, digests, b),
    ensures
        a.len() == b.len(),
        forall|j: int|
            0 <= j < a.len() ==> #[trigger] a[j].size == b[j].size && a[j].digest == b[j].digest
                && a[j].files@ == b[j].files@,
{
}

/// A content split is a function of the cluster and the contents: two
/// results for one input are the same clusters.
pub proof fn lemma_exact_clusters_unique(
    cluster: Cluster,
    contents: Seq<Option<Vec<u8>>>,
    a: Seq<Cluster>,
    b: Seq<Cluster>,
)
    requires
        exact_clusters_of(cluster, contents, a),
        exact_clusters_of(cluster, contents, b),
    ensures
        a.len() == b.len(),
        forall|j: int|
            0 <= j < a.len() ==> #[trigger] a[j].size == b[j].size && a[j].digest == b[j].digest
                && a[j].files@ == b[j].files@,
{
}

} // verus!
