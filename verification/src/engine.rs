//! The duplicate engine: per-group policy, binning and reporting.
//!
//! Size groups are processed ascending by size. A group above the
//! disambiguation ceiling is reported whole, unhashed. A singleton
//! group, unless hashing is forced, is reported (when unique-reporting
//! is on) without a digest. Every other group is hashed member by
//! member: files whose digest appears in the exclusion index under the
//! same size are dropped, files whose read failed are reported as read
//! errors, and the survivors are grouped by digest into bins, digests
//! ascending, paths ascending within a bin.

use vstd::prelude::*;

use crate::exclusion::ExclusionIndex;
use crate::hex::{toUpperHex, upper_hex_of};
use crate::index::{SizeGroup, SizeIndex};
use crate::order::{bytes_lt, chars_lt, digest_eq, digest_lt};

verus! {

/// The fully resolved configuration the caller hands the engine.
#[derive(Clone, Copy)]
pub struct EngineConfig {
    /// Size threshold above which groups are reported without
    /// hashing; `None` means unlimited (the behavior is disabled).
    pub avoid_compare_if_larger_than: Option<u64>,
    /// Files strictly smaller are dropped before grouping.
    pub ignore_sizes_below: Option<u64>,
    /// Report singleton and undifferentiated files, not only
    /// duplicates.
    pub show_non_duplicates: bool,
    /// Hash even singleton size groups.
    pub always_hash: bool,
}

/// One reported triple: a digest label (empty for unhashed and for
/// unique entries), the size, and the member paths.
pub struct Record {
    pub label: String,
    pub size: u64,
    pub paths: Vec<String>,
}

/// One file whose open or read failed during hashing; it contributes
/// to no bin.
pub struct ReadError {
    pub size: u64,
    pub path: String,
}

/// Everything one run reports: the ordered records and the read
/// errors met along the way.
pub struct EngineResult {
    pub records: Vec<Record>,
    pub errors: Vec<ReadError>,
}

/// The mathematical shadow of a record.
#[verifier::ext_equal]
pub ghost struct RecordView {
    pub label: Seq<char>,
    pub size: u64,
    pub paths: Seq<Seq<char>>,
}

/// The mathematical shadow of a read error.
#[verifier::ext_equal]
pub ghost struct ReadErrorView {
    pub size: u64,
    pub path: Seq<char>,
}

/// One bin: the paths sharing one digest within one size group.
#[verifier::ext_equal]
pub ghost struct BinView {
    pub digest: Seq<u8>,
    pub paths: Seq<Seq<char>>,
}

/// The character sequences of a sequence of strings.
pub open spec fn paths_view(ps: Seq<String>) -> Seq<Seq<char>> {
    ps.map_values(|p: String| p@)
}

/// A group's paths as character sequences.
pub open spec fn gpaths(g: SizeGroup) -> Seq<Seq<char>> {
    paths_view(g.paths@)
}

impl View for Record {
    type V = RecordView;

    open spec fn view(&self) -> RecordView {
        RecordView { label: self.label@, size: self.size, paths: paths_view(self.paths@) }
    }
}

impl View for ReadError {
    type V = ReadErrorView;

    open spec fn view(&self) -> ReadErrorView {
        ReadErrorView { size: self.size, path: self.path@ }
    }
}

/// The views of a sequence of records.
pub open spec fn records_view(rs: Seq<Record>) -> Seq<RecordView> {
    rs.map_values(|r: Record| r@)
}

/// The views of a sequence of read errors.
pub open spec fn errors_view(es: Seq<ReadError>) -> Seq<ReadErrorView> {
    es.map_values(|e: ReadError| e@)
}

/// True when the group's size lies above the disambiguation ceiling,
/// so the group is reported without hashing.
pub open spec fn avoided(cfg: EngineConfig, size: u64) -> bool {
    match cfg.avoid_compare_if_larger_than {
        Option::Some(m) => size > m,
        Option::None => false,
    }
}

/// True when a group of this size and member count is hashed: it is
/// not avoided, and it is ambiguous (two or more members) or hashing
/// is forced.
pub open spec fn spec_needs_hash(cfg: EngineConfig, size: u64, members: nat) -> bool {
    !avoided(cfg, size) && (members >= 2 || cfg.always_hash)
}

/// True when the hash outcome survives: the read succeeded and the
/// digest has no counterpart of the same size in the exclusion index.
pub open spec fn survives(excl: ExclusionIndex, size: u64, o: Option<Vec<u8>>) -> bool {
    o is Some && !excl.excludes(size, o->0@)
}

/// Inserts one surviving (digest, path) pair into bins kept ascending
/// by digest; a path joins the bin of its digest at the end.
pub open spec fn bin_insert(bins: Seq<BinView>, d: Seq<u8>, p: Seq<char>) -> Seq<BinView>
    decreases bins.len(),
{
    if bins.len() == 0 {
        seq![BinView { digest: d, paths: seq![p] }]
    } else if bytes_lt(d, bins[0].digest) {
        seq![BinView { digest: d, paths: seq![p] }] + bins
    } else if d == bins[0].digest {
        seq![BinView { digest: d, paths: bins[0].paths.push(p) }] + bins.skip(1)
    } else {
        seq![bins[0]] + bin_insert(bins.skip(1), d, p)
    }
}

/// The bins of one size group after the first `j` members' outcomes
/// have been folded in.
pub open spec fn group_bins(
    size: u64,
    paths: Seq<Seq<char>>,
    outs: Seq<Option<Vec<u8>>>,
    excl: ExclusionIndex,
    j: int,
) -> Seq<BinView>
    decreases j,
{
    if j <= 0 {
        Seq::empty()
    } else {
        let prev = group_bins(size, paths, outs, excl, j - 1);
        if survives(excl, size, outs[j - 1]) {
            bin_insert(prev, outs[j - 1]->0@, paths[j - 1])
        } else {
            prev
        }
    }
}

/// The member paths of the first `j` outcomes that survive with this
/// digest, in member order.
pub open spec fn binned_paths(
    size: u64,
    paths: Seq<Seq<char>>,
    outs: Seq<Option<Vec<u8>>>,
    excl: ExclusionIndex,
    d: Seq<u8>,
    j: int,
) -> Seq<Seq<char>>
    decreases j,
{
    if j <= 0 {
        Seq::empty()
    } else {
        let prev = binned_paths(size, paths, outs, excl, d, j - 1);
        if survives(excl, size, outs[j - 1]) && outs[j - 1]->0@ == d {
            prev.push(paths[j - 1])
        } else {
            prev
        }
    }
}

/// True when some of the first `j` members survives with this digest.
pub open spec fn digest_occurs(
    size: u64,
    outs: Seq<Option<Vec<u8>>>,
    excl: ExclusionIndex,
    d: Seq<u8>,
    j: int,
) -> bool {
    exists|i: int|
        0 <= i < j && survives(excl, size, #[trigger] outs[i]) && outs[i]->0@ == d
}

/// True when some bin carries this digest.
pub open spec fn has_digest(bins: Seq<BinView>, d: Seq<u8>) -> bool {
    exists|k: int| 0 <= k < bins.len() && (#[trigger] bins[k]).digest == d
}

/// The paths of the first bin carrying this digest; empty when none
/// does.
pub open spec fn paths_of(bins: Seq<BinView>, d: Seq<u8>) -> Seq<Seq<char>>
    decreases bins.len(),
{
    if bins.len() == 0 {
        Seq::empty()
    } else if bins[0].digest == d {
        bins[0].paths
    } else {
        paths_of(bins.skip(1), d)
    }
}

/// True when the bins' digests are strictly ascending.
pub open spec fn bins_sorted(bins: Seq<BinView>) -> bool {
    forall|i: int, j: int|
        0 <= i < j < bins.len() ==> bytes_lt(
            (#[trigger] bins[i]).digest,
            (#[trigger] bins[j]).digest,
        )
}

/// True when a bin is reported: it holds two or more members, or
/// singleton reporting is on.
pub open spec fn bin_reported(cfg: EngineConfig, b: BinView) -> bool {
    b.paths.len() >= 2 || cfg.show_non_duplicates
}

/// A reported bin's label. A bin of two or more members is a
/// duplicate entry and carries its digest's upper-case hexadecimal
/// form, as does a singleton bin kept visible by forced hashing (the
/// mode an exclusion set implies). A singleton bin reported only
/// because unique-reporting is on is a unique entry and carries the
/// empty label.
pub open spec fn bin_label(cfg: EngineConfig, b: BinView) -> Seq<char> {
    if b.paths.len() == 1 && !cfg.always_hash {
        Seq::empty()
    } else {
        upper_hex_of(b.digest)
    }
}

/// The records of the first `k` bins of one size group: one per
/// reported bin, under its label.
pub open spec fn bins_records(size: u64, bins: Seq<BinView>, cfg: EngineConfig, k: int) -> Seq<
    RecordView,
>
    decreases k,
{
    if k <= 0 {
        Seq::empty()
    } else {
        let prev = bins_records(size, bins, cfg, k - 1);
        if bin_reported(cfg, bins[k - 1]) {
            prev.push(
                RecordView {
                    label: bin_label(cfg, bins[k - 1]),
                    size,
                    paths: bins[k - 1].paths,
                },
            )
        } else {
            prev
        }
    }
}

/// Everything one size group contributes to the result: the whole
/// group unhashed when avoided, the singleton (if unique-reporting is
/// on) when not hashed, and otherwise its bins' records.
pub open spec fn group_records(
    g: SizeGroup,
    outs: Seq<Option<Vec<u8>>>,
    cfg: EngineConfig,
    excl: ExclusionIndex,
) -> Seq<RecordView> {
    if avoided(cfg, g.size) {
        seq![RecordView { label: Seq::empty(), size: g.size, paths: gpaths(g) }]
    } else if !spec_needs_hash(cfg, g.size, g.paths@.len()) {
        if cfg.show_non_duplicates {
            seq![RecordView { label: Seq::empty(), size: g.size, paths: gpaths(g) }]
        } else {
            Seq::empty()
        }
    } else {
        let bins = group_bins(g.size, gpaths(g), outs, excl, outs.len() as int);
        bins_records(g.size, bins, cfg, bins.len() as int)
    }
}

/// The read errors of one hashed group's first `j` members: one per
/// failed outcome, in member order.
pub open spec fn group_errors(g: SizeGroup, outs: Seq<Option<Vec<u8>>>, j: int) -> Seq<
    ReadErrorView,
>
    decreases j,
{
    if j <= 0 {
        Seq::empty()
    } else {
        let prev = group_errors(g, outs, j - 1);
        if outs[j - 1] is None {
            prev.push(ReadErrorView { size: g.size, path: gpaths(g)[j - 1] })
        } else {
            prev
        }
    }
}

/// The records of the first `i` size groups, sizes ascending.
pub open spec fn engine_records(
    groups: Seq<SizeGroup>,
    outs: Seq<Vec<Option<Vec<u8>>>>,
    cfg: EngineConfig,
    excl: ExclusionIndex,
    i: int,
) -> Seq<RecordView>
    decreases i,
{
    if i <= 0 {
        Seq::empty()
    } else {
        engine_records(groups, outs, cfg, excl, i - 1) + group_records(
            groups[i - 1],
            outs[i - 1]@,
            cfg,
            excl,
        )
    }
}

/// The read errors of the first `i` size groups; only hashed groups
/// contribute.
pub open spec fn engine_errors(
    groups: Seq<SizeGroup>,
    outs: Seq<Vec<Option<Vec<u8>>>>,
    cfg: EngineConfig,
    i: int,
) -> Seq<ReadErrorView>
    decreases i,
{
    if i <= 0 {
        Seq::empty()
    } else {
        engine_errors(groups, outs, cfg, i - 1) + (if spec_needs_hash(
            cfg,
            groups[i - 1].size,
            groups[i - 1].paths@.len(),
        ) {
            group_errors(groups[i - 1], outs[i - 1]@, outs[i - 1]@.len() as int)
        } else {
            Seq::empty()
        })
    }
}

/// A digest no bin carries has no paths.
proof fn lemma_paths_of_absent(bins: Seq<BinView>, d: Seq<u8>)
    requires
        !has_digest(bins, d),
    ensures
        paths_of(bins, d) == Seq::<Seq<char>>::empty(),
    decreases bins.len(),
{
    if bins.len() > 0 {
        assert(bins[0].digest != d);
        assert forall|k: int| 0 <= k < bins.skip(1).len() implies (#[trigger] bins.skip(1)[k]).digest
            != d by {
            assert(bins.skip(1)[k] == bins[k + 1]);
        }
        lemma_paths_of_absent(bins.skip(1), d);
    }
}

/// In sorted bins, the bin at any index is the one `paths_of` finds
/// for its digest.
proof fn lemma_paths_of_index(bins: Seq<BinView>, k: int)
    requires
        bins_sorted(bins),
        0 <= k < bins.len(),
    ensures
        paths_of(bins, bins[k].digest) == bins[k].paths,
    decreases bins.len(),
{
    if k == 0 {
    } else {
        assert(bytes_lt(bins[0].digest, bins[k].digest));
        crate::order::lemma_bytes_lt_asym(bins[0].digest, bins[k].digest);
        assert forall|i: int, j: int| 0 <= i < j < bins.skip(1).len() implies bytes_lt(
            (#[trigger] bins.skip(1)[i]).digest,
            (#[trigger] bins.skip(1)[j]).digest,
        ) by {
            assert(bins.skip(1)[i] == bins[i + 1]);
            assert(bins.skip(1)[j] == bins[j + 1]);
        }
        assert(bins.skip(1)[k - 1] == bins[k]);
        lemma_paths_of_index(bins.skip(1), k - 1);
    }
}

/// What one insertion does: it keeps the bins sorted, adds the digest,
/// appends the path to that digest's bin and no other.
#[verifier::rlimit(100)]
proof fn lemma_bin_insert_effect(bins: Seq<BinView>, d: Seq<u8>, p: Seq<char>)
    requires
        bins_sorted(bins),
        forall|d2: Seq<u8>| !has_digest(bins, d2) ==> paths_of(bins, d2)
            == Seq::<Seq<char>>::empty(),
    ensures
        bins_sorted(bin_insert(bins, d, p)),
        forall|d2: Seq<u8>|
            #![trigger has_digest(bin_insert(bins, d, p), d2)]
            #![trigger has_digest(bins, d2)]
            has_digest(bin_insert(bins, d, p), d2) <==> (has_digest(bins, d2) || d2 == d),
        forall|d2: Seq<u8>|
            #![trigger paths_of(bin_insert(bins, d, p), d2)]
            #![trigger paths_of(bins, d2)]
            paths_of(bin_insert(bins, d, p), d2) == if d2 == d {
                paths_of(bins, d2).push(p)
            } else {
                paths_of(bins, d2)
            },
    decreases bins.len(),
{
    let res = bin_insert(bins, d, p);
    if bins.len() == 0 {
        assert(res == seq![BinView { digest: d, paths: seq![p] }]);
        assert forall|d2: Seq<u8>|
            has_digest(res, d2) <==> (has_digest(bins, d2) || d2 == d) by {
            if has_digest(res, d2) {
                let w = choose|w: int| 0 <= w < res.len() && (#[trigger] res[w]).digest == d2;
                assert(w == 0);
            }
            if d2 == d {
                assert(res[0].digest == d2);
            }
        }
        assert forall|d2: Seq<u8>|
            paths_of(res, d2) == if d2 == d {
                paths_of(bins, d2).push(p)
            } else {
                paths_of(bins, d2)
            } by {
            if d2 == d {
                assert(paths_of(res, d2) == seq![p]);
                assert(paths_of(bins, d2) =~= Seq::<Seq<char>>::empty());
                assert(paths_of(bins, d2).push(p) =~= seq![p]);
                assert(paths_of(res, d2) == paths_of(bins, d2).push(p));
            } else {
                assert(res.skip(1) =~= Seq::<BinView>::empty());
                assert(paths_of(res.skip(1), d2) == Seq::<Seq<char>>::empty());
                assert(paths_of(res, d2) == paths_of(bins, d2));
            }
        }
    } else if bytes_lt(d, bins[0].digest) {
        let nb = BinView { digest: d, paths: seq![p] };
        assert(res == seq![nb] + bins);
        assert(res[0] == nb);
        assert forall|m: int| 0 <= m < bins.len() implies #[trigger] res[m + 1] == bins[m] by {}
        assert forall|i: int, j: int| 0 <= i < j < res.len() implies bytes_lt(
            (#[trigger] res[i]).digest,
            (#[trigger] res[j]).digest,
        ) by {
            if i == 0 {
                assert(res[j] == bins[j - 1]);
                if j > 1 {
                    crate::order::lemma_bytes_lt_trans(d, bins[0].digest, bins[j - 1].digest);
                }
            } else {
                assert(res[i] == bins[i - 1]);
                assert(res[j] == bins[j - 1]);
            }
        }
        assert forall|d2: Seq<u8>|
            has_digest(res, d2) <==> (has_digest(bins, d2) || d2 == d) by {
            if has_digest(res, d2) {
                let w = choose|w: int| 0 <= w < res.len() && (#[trigger] res[w]).digest == d2;
                if w > 0 {
                    assert(bins[w - 1].digest == d2);
                }
            }
            if has_digest(bins, d2) {
                let w = choose|w: int| 0 <= w < bins.len() && (#[trigger] bins[w]).digest == d2;
                assert(res[w + 1].digest == d2);
            }
            if d2 == d {
                assert(res[0].digest == d2);
            }
        }
        assert forall|d2: Seq<u8>|
            paths_of(res, d2) == if d2 == d {
                paths_of(bins, d2).push(p)
            } else {
                paths_of(bins, d2)
            } by {
            assert(res.skip(1) =~= bins);
            if d2 == d {
                crate::order::lemma_bytes_lt_asym(d, bins[0].digest);
                assert(!has_digest(bins, d2)) by {
                    if has_digest(bins, d2) {
                        let w = choose|w: int|
                            0 <= w < bins.len() && (#[trigger] bins[w]).digest == d2;
                        if w > 0 {
                            assert(bytes_lt(bins[0].digest, bins[w].digest));
                            crate::order::lemma_bytes_lt_trans(d, bins[0].digest, bins[w].digest);
                            crate::order::lemma_bytes_lt_asym(d, bins[w].digest);
                        }
                    }
                }
                assert(paths_of(bins, d2) =~= Seq::<Seq<char>>::empty());
                assert(paths_of(res, d2) == seq![p]);
                assert(Seq::<Seq<char>>::empty().push(p) =~= seq![p]);
            }
        }
    } else if d == bins[0].digest {
        let nb = BinView { digest: d, paths: bins[0].paths.push(p) };
        assert(res == seq![nb] + bins.skip(1));
        assert(res[0] == nb);
        assert forall|m: int| 0 <= m < bins.len() - 1 implies #[trigger] res[m + 1] == bins[m
            + 1] by {
            assert(res[m + 1] == bins.skip(1)[m]);
        }
        assert forall|i: int, j: int| 0 <= i < j < res.len() implies bytes_lt(
            (#[trigger] res[i]).digest,
            (#[trigger] res[j]).digest,
        ) by {
            if i == 0 {
                assert(res[j] == bins[j]);
            } else {
                assert(res[i] == bins[i]);
                assert(res[j] == bins[j]);
            }
        }
        assert forall|d2: Seq<u8>|
            has_digest(res, d2) <==> (has_digest(bins, d2) || d2 == d) by {
            if has_digest(res, d2) {
                let w = choose|w: int| 0 <= w < res.len() && (#[trigger] res[w]).digest == d2;
                if w > 0 {
                    assert(bins[w].digest == d2);
                } else {
                    assert(bins[0].digest == d2);
                }
            }
            if has_digest(bins, d2) {
                let w = choose|w: int| 0 <= w < bins.len() && (#[trigger] bins[w]).digest == d2;
                if w == 0 {
                    assert(res[0].digest == d2);
                } else {
                    assert(res[w].digest == d2);
                }
            }
        }
        assert forall|d2: Seq<u8>|
            paths_of(res, d2) == if d2 == d {
                paths_of(bins, d2).push(p)
            } else {
                paths_of(bins, d2)
            } by {
            assert(res.skip(1) =~= bins.skip(1));
            if d2 == d {
                assert(paths_of(bins, d2) == bins[0].paths);
                assert(paths_of(res, d2) == nb.paths);
            }
        }
    } else {
        crate::order::lemma_bytes_lt_total(d, bins[0].digest);
        assert(bytes_lt(bins[0].digest, d));
        let tail = bins.skip(1);
        assert forall|i: int, j: int| 0 <= i < j < tail.len() implies bytes_lt(
            (#[trigger] tail[i]).digest,
            (#[trigger] tail[j]).digest,
        ) by {
            assert(tail[i] == bins[i + 1]);
            assert(tail[j] == bins[j + 1]);
        }
        assert forall|d2: Seq<u8>| !has_digest(tail, d2) implies paths_of(tail, d2)
            == Seq::<Seq<char>>::empty() by {
            if !has_digest(tail, d2) {
                lemma_paths_of_absent(tail, d2);
            }
        }
        lemma_bin_insert_effect(tail, d, p);
        let rtail = bin_insert(tail, d, p);
        assert(res == seq![bins[0]] + rtail);
        assert(res[0] == bins[0]);
        assert forall|m: int| 0 <= m < rtail.len() implies #[trigger] res[m + 1] == rtail[m] by {}
        // every digest in the inserted tail lies above the head digest
        assert forall|m: int| 0 <= m < rtail.len() implies bytes_lt(
            bins[0].digest,
            (#[trigger] rtail[m]).digest,
        ) by {
            assert(has_digest(rtail, rtail[m].digest)) by {
                assert(0 <= m < rtail.len() && rtail[m].digest == rtail[m].digest);
            }
            if rtail[m].digest == d {
            } else {
                assert(has_digest(tail, rtail[m].digest));
                let w = choose|w: int|
                    0 <= w < tail.len() && (#[trigger] tail[w]).digest == rtail[m].digest;
                assert(tail[w] == bins[w + 1]);
                assert(bytes_lt(bins[0].digest, bins[w + 1].digest));
            }
        }
        assert forall|i: int, j: int| 0 <= i < j < res.len() implies bytes_lt(
            (#[trigger] res[i]).digest,
            (#[trigger] res[j]).digest,
        ) by {
            if i == 0 {
                assert(res[j] == rtail[j - 1]);
            } else {
                assert(res[i] == rtail[i - 1]);
                assert(res[j] == rtail[j - 1]);
            }
        }
        assert forall|d2: Seq<u8>|
            has_digest(res, d2) <==> (has_digest(bins, d2) || d2 == d) by {
            if has_digest(res, d2) {
                let w = choose|w: int| 0 <= w < res.len() && (#[trigger] res[w]).digest == d2;
                if w == 0 {
                    assert(bins[0].digest == d2);
                } else {
                    assert(rtail[w - 1].digest == d2);
                    assert(has_digest(rtail, d2));
                    if d2 != d {
                        assert(has_digest(tail, d2));
                        let u = choose|u: int|
                            0 <= u < tail.len() && (#[trigger] tail[u]).digest == d2;
                        assert(bins[u + 1].digest == d2);
                    }
                }
            }
            if has_digest(bins, d2) {
                let w = choose|w: int| 0 <= w < bins.len() && (#[trigger] bins[w]).digest == d2;
                if w == 0 {
                    assert(res[0].digest == d2);
                } else {
                    assert(tail[w - 1].digest == d2);
                    assert(has_digest(tail, d2));
                    assert(has_digest(rtail, d2));
                    let u = choose|u: int|
                        0 <= u < rtail.len() && (#[trigger] rtail[u]).digest == d2;
                    assert(res[u + 1].digest == d2);
                }
            }
            if d2 == d {
                assert(has_digest(rtail, d2));
                let u = choose|u: int| 0 <= u < rtail.len() && (#[trigger] rtail[u]).digest == d2;
                assert(res[u + 1].digest == d2);
            }
        }
        assert forall|d2: Seq<u8>|
            paths_of(res, d2) == if d2 == d {
                paths_of(bins, d2).push(p)
            } else {
                paths_of(bins, d2)
            } by {
            assert(res.skip(1) =~= rtail);
            if d2 == bins[0].digest {
                assert(d2 != d);
                assert(paths_of(res, d2) == bins[0].paths);
                assert(paths_of(bins, d2) == bins[0].paths);
            } else {
                assert(paths_of(res, d2) == paths_of(rtail, d2));
                assert(paths_of(bins, d2) == paths_of(tail, d2));
            }
        }
    }
}

/// The running characterization of a group's bins: sorted by digest,
/// carrying exactly the digests seen among the surviving prefix, each
/// bin holding exactly the surviving member paths of its digest, in
/// member order.
pub proof fn lemma_group_bins_characterize(
    size: u64,
    paths: Seq<Seq<char>>,
    outs: Seq<Option<Vec<u8>>>,
    excl: ExclusionIndex,
    j: int,
)
    requires
        0 <= j <= outs.len(),
    ensures
        bins_sorted(group_bins(size, paths, outs, excl, j)),
        forall|d: Seq<u8>|
            has_digest(group_bins(size, paths, outs, excl, j), d) <==> digest_occurs(
                size,
                outs,
                excl,
                d,
                j,
            ),
        forall|d: Seq<u8>|
            paths_of(group_bins(size, paths, outs, excl, j), d) == binned_paths(
                size,
                paths,
                outs,
                excl,
                d,
                j,
            ),
    decreases j,
{
    let bins = group_bins(size, paths, outs, excl, j);
    if j <= 0 {
        assert forall|d: Seq<u8>|
            paths_of(bins, d) == binned_paths(size, paths, outs, excl, d, j) by {
            assert(paths_of(bins, d) == Seq::<Seq<char>>::empty());
        }
        assert forall|d: Seq<u8>|
            has_digest(bins, d) <==> digest_occurs(size, outs, excl, d, j) by {}
    } else {
        lemma_group_bins_characterize(size, paths, outs, excl, j - 1);
        let prev = group_bins(size, paths, outs, excl, j - 1);
        if survives(excl, size, outs[j - 1]) {
            let d = outs[j - 1]->0@;
            let p = paths[j - 1];
            assert forall|d2: Seq<u8>| !has_digest(prev, d2) implies paths_of(prev, d2)
                == Seq::<Seq<char>>::empty() by {
                if !has_digest(prev, d2) {
                    assert(!digest_occurs(size, outs, excl, d2, j - 1));
                    lemma_paths_of_absent(prev, d2);
                }
            }
            lemma_bin_insert_effect(prev, d, p);
            assert(bins == bin_insert(prev, d, p));
            assert forall|d2: Seq<u8>|
                has_digest(bins, d2) <==> digest_occurs(size, outs, excl, d2, j) by {
                if has_digest(bins, d2) {
                    if d2 == d {
                        assert(survives(excl, size, outs[j - 1]) && outs[j - 1]->0@ == d2);
                    } else {
                        assert(has_digest(prev, d2));
                        assert(digest_occurs(size, outs, excl, d2, j - 1));
                        let w = choose|w: int|
                            0 <= w < j - 1 && survives(excl, size, #[trigger] outs[w])
                                && outs[w]->0@ == d2;
                        assert(0 <= w < j && survives(excl, size, outs[w]) && outs[w]->0@ == d2);
                    }
                }
                if digest_occurs(size, outs, excl, d2, j) {
                    let w = choose|w: int|
                        0 <= w < j && survives(excl, size, #[trigger] outs[w]) && outs[w]->0@
                            == d2;
                    if w < j - 1 {
                        assert(digest_occurs(size, outs, excl, d2, j - 1));
                    } else {
                        assert(d2 == d);
                    }
                }
            }
            assert forall|d2: Seq<u8>|
                paths_of(bins, d2) == binned_paths(size, paths, outs, excl, d2, j) by {
                assert(paths_of(prev, d2) == binned_paths(size, paths, outs, excl, d2, j - 1));
                if d2 == d {
                    assert(paths_of(bins, d2) == paths_of(prev, d2).push(p));
                    assert(binned_paths(size, paths, outs, excl, d2, j) == binned_paths(
                        size,
                        paths,
                        outs,
                        excl,
                        d2,
                        j - 1,
                    ).push(paths[j - 1]));
                } else {
                    assert(paths_of(bins, d2) == paths_of(prev, d2));
                    assert(binned_paths(size, paths, outs, excl, d2, j) == binned_paths(
                        size,
                        paths,
                        outs,
                        excl,
                        d2,
                        j - 1,
                    ));
                }
            }
        } else {
            assert(bins == prev);
            assert forall|d2: Seq<u8>|
                has_digest(bins, d2) <==> digest_occurs(size, outs, excl, d2, j) by {
                if digest_occurs(size, outs, excl, d2, j) {
                    let w = choose|w: int|
                        0 <= w < j && survives(excl, size, #[trigger] outs[w]) && outs[w]->0@
                            == d2;
                    assert(w < j - 1 || w == j - 1);
                    assert(digest_occurs(size, outs, excl, d2, j - 1));
                }
                if digest_occurs(size, outs, excl, d2, j - 1) {
                    let w = choose|w: int|
                        0 <= w < j - 1 && survives(excl, size, #[trigger] outs[w]) && outs[w]->0@
                            == d2;
                    assert(0 <= w < j && survives(excl, size, outs[w]) && outs[w]->0@ == d2);
                }
            }
            assert forall|d2: Seq<u8>|
                paths_of(bins, d2) == binned_paths(size, paths, outs, excl, d2, j) by {
                assert(paths_of(prev, d2) == binned_paths(size, paths, outs, excl, d2, j - 1));
                assert(binned_paths(size, paths, outs, excl, d2, j) == binned_paths(
                    size,
                    paths,
                    outs,
                    excl,
                    d2,
                    j - 1,
                ));
            }
        }
    }
}

/// A path is among a digest's binned paths exactly when some
/// surviving member of the prefix carries that digest and that path.
proof fn lemma_binned_paths_membership(
    size: u64,
    paths: Seq<Seq<char>>,
    outs: Seq<Option<Vec<u8>>>,
    excl: ExclusionIndex,
    d: Seq<u8>,
    j: int,
    q: Seq<char>,
)
    requires
        0 <= j <= outs.len(),
        paths.len() == outs.len(),
    ensures
        binned_paths(size, paths, outs, excl, d, j).contains(q) <==> exists|w: int|
            0 <= w < j && survives(excl, size, #[trigger] outs[w]) && outs[w]->0@ == d && paths[w]
                == q,
    decreases j,
{
    let cur = binned_paths(size, paths, outs, excl, d, j);
    if j <= 0 {
        assert(!cur.contains(q));
    } else {
        lemma_binned_paths_membership(size, paths, outs, excl, d, j - 1, q);
        let prev = binned_paths(size, paths, outs, excl, d, j - 1);
        if survives(excl, size, outs[j - 1]) && outs[j - 1]->0@ == d {
            assert(cur == prev.push(paths[j - 1]));
            assert(cur.contains(q) <==> (prev.contains(q) || q == paths[j - 1])) by {
                if cur.contains(q) {
                    let w = choose|w: int| 0 <= w < cur.len() && cur[w] == q;
                    if w < prev.len() {
                        assert(prev[w] == q);
                        assert(prev.contains(q));
                    }
                }
                if prev.contains(q) {
                    let w = choose|w: int| 0 <= w < prev.len() && prev[w] == q;
                    assert(cur[w] == q);
                }
                if q == paths[j - 1] {
                    assert(cur[cur.len() - 1] == q);
                }
            }
            if cur.contains(q) {
                if prev.contains(q) {
                    let w = choose|w: int|
                        0 <= w < j - 1 && survives(excl, size, #[trigger] outs[w]) && outs[w]->0@
                            == d && paths[w] == q;
                    assert(0 <= w < j && survives(excl, size, outs[w]) && outs[w]->0@ == d
                        && paths[w] == q);
                } else {
                    assert(0 <= j - 1 < j && survives(excl, size, outs[j - 1]) && outs[j - 1]->0@
                        == d && paths[j - 1] == q);
                }
            }
            if exists|w: int|
                0 <= w < j && survives(excl, size, #[trigger] outs[w]) && outs[w]->0@ == d
                    && paths[w] == q {
                let w = choose|w: int|
                    0 <= w < j && survives(excl, size, #[trigger] outs[w]) && outs[w]->0@ == d
                        && paths[w] == q;
                if w < j - 1 {
                    assert(prev.contains(q));
                } else {
                    assert(q == paths[j - 1]);
                }
                assert(cur.contains(q));
            }
        } else {
            assert(cur == prev);
            if exists|w: int|
                0 <= w < j && survives(excl, size, #[trigger] outs[w]) && outs[w]->0@ == d
                    && paths[w] == q {
                let w = choose|w: int|
                    0 <= w < j && survives(excl, size, #[trigger] outs[w]) && outs[w]->0@ == d
                        && paths[w] == q;
                assert(w != j - 1);
                assert(0 <= w < j - 1 && survives(excl, size, outs[w]) && outs[w]->0@ == d
                    && paths[w] == q);
            }
        }
    }
}

/// Law: content decides the bin. Within one hashed size group, two
/// surviving members with the same digest always land in one bin,
/// and two surviving members with different digests (and different
/// paths) never share one.
pub proof fn lemma_digest_decides_bin(
    size: u64,
    paths: Seq<Seq<char>>,
    outs: Seq<Option<Vec<u8>>>,
    excl: ExclusionIndex,
    a: int,
    b: int,
)
    requires
        paths.len() == outs.len(),
        forall|x: int, y: int| 0 <= x < y < paths.len() ==> paths[x] != paths[y],
        0 <= a < outs.len(),
        0 <= b < outs.len(),
        survives(excl, size, outs[a]),
        survives(excl, size, outs[b]),
    ensures
        outs[a]->0@ == outs[b]->0@ ==> exists|k: int|
            0 <= k < group_bins(size, paths, outs, excl, outs.len() as int).len() && (
            #[trigger] group_bins(size, paths, outs, excl, outs.len() as int)[k]).paths.contains(
                paths[a],
            ) && group_bins(size, paths, outs, excl, outs.len() as int)[k].paths.contains(
                paths[b],
            ),
        outs[a]->0@ != outs[b]->0@ ==> forall|k: int|
            0 <= k < group_bins(size, paths, outs, excl, outs.len() as int).len() ==> !((
            #[trigger] group_bins(size, paths, outs, excl, outs.len() as int)[k]).paths.contains(
                paths[a],
            ) && group_bins(size, paths, outs, excl, outs.len() as int)[k].paths.contains(
                paths[b],
            )),
{
    let n = outs.len() as int;
    let bins = group_bins(size, paths, outs, excl, n);
    lemma_group_bins_characterize(size, paths, outs, excl, n);
    assert forall|x: int, y: int|
        0 <= x < paths.len() && 0 <= y < paths.len() && paths[x] == paths[y] implies x == y by {
        if x < y {
            assert(paths[x] != paths[y]);
        }
        if y < x {
            assert(paths[y] != paths[x]);
        }
    }
    if outs[a]->0@ == outs[b]->0@ {
        let d = outs[a]->0@;
        assert(digest_occurs(size, outs, excl, d, n));
        assert(has_digest(bins, d));
        let k = choose|k: int| 0 <= k < bins.len() && (#[trigger] bins[k]).digest == d;
        lemma_paths_of_index(bins, k);
        assert(bins[k].paths == binned_paths(size, paths, outs, excl, d, n));
        lemma_binned_paths_membership(size, paths, outs, excl, d, n, paths[a]);
        lemma_binned_paths_membership(size, paths, outs, excl, d, n, paths[b]);
        assert(bins[k].paths.contains(paths[a]));
        assert(bins[k].paths.contains(paths[b]));
    } else {
        assert forall|k: int|
            0 <= k < bins.len() implies !((#[trigger] bins[k]).paths.contains(paths[a])
            && bins[k].paths.contains(paths[b])) by {
            lemma_paths_of_index(bins, k);
            assert(bins[k].paths == binned_paths(size, paths, outs, excl, bins[k].digest, n));
            lemma_binned_paths_membership(size, paths, outs, excl, bins[k].digest, n, paths[a]);
            lemma_binned_paths_membership(size, paths, outs, excl, bins[k].digest, n, paths[b]);
            if bins[k].paths.contains(paths[a]) && bins[k].paths.contains(paths[b]) {
                let wa = choose|w: int|
                    0 <= w < n && survives(excl, size, #[trigger] outs[w]) && outs[w]->0@
                        == bins[k].digest && paths[w] == paths[a];
                let wb = choose|w: int|
                    0 <= w < n && survives(excl, size, #[trigger] outs[w]) && outs[w]->0@
                        == bins[k].digest && paths[w] == paths[b];
                assert(wa == a);
                assert(wb == b);
                assert(outs[a]->0@ == outs[b]->0@);
            }
        }
    }
}

/// Law: the bins of one hashed group partition its surviving members.
/// The union of the bins' paths is exactly the group minus the
/// excluded members and minus the failed reads, and the bins are
/// pairwise disjoint.
pub proof fn lemma_bins_partition(
    size: u64,
    paths: Seq<Seq<char>>,
    outs: Seq<Option<Vec<u8>>>,
    excl: ExclusionIndex,
)
    requires
        paths.len() == outs.len(),
        forall|x: int, y: int| 0 <= x < y < paths.len() ==> paths[x] != paths[y],
    ensures
        forall|w: int|
            0 <= w < outs.len() && survives(excl, size, #[trigger] outs[w]) ==> exists|k: int|
                0 <= k < group_bins(size, paths, outs, excl, outs.len() as int).len() && (
                #[trigger] group_bins(size, paths, outs, excl, outs.len() as int)[k]).paths.contains(
                    paths[w],
                ),
        forall|w: int, k: int|
            0 <= w < outs.len() && !survives(excl, size, #[trigger] outs[w]) && 0 <= k
                < group_bins(size, paths, outs, excl, outs.len() as int).len() ==> !(
            #[trigger] group_bins(size, paths, outs, excl, outs.len() as int)[k]).paths.contains(
                paths[w],
            ),
        forall|k: int, q: Seq<char>|
            0 <= k < group_bins(size, paths, outs, excl, outs.len() as int).len()
                && #[trigger] group_bins(size, paths, outs, excl, outs.len() as int)[k].paths.contains(
                q,
            ) ==> exists|w: int|
                0 <= w < outs.len() && survives(excl, size, #[trigger] outs[w]) && paths[w] == q,
        forall|k1: int, k2: int, q: Seq<char>|
            0 <= k1 < k2 < group_bins(size, paths, outs, excl, outs.len() as int).len() ==> !(
            #[trigger] group_bins(size, paths, outs, excl, outs.len() as int)[k1].paths.contains(q)
                && #[trigger] group_bins(size, paths, outs, excl, outs.len() as int)[k2].paths.contains(
                q,
            )),
{
    let n = outs.len() as int;
    let bins = group_bins(size, paths, outs, excl, n);
    lemma_group_bins_characterize(size, paths, outs, excl, n);
    assert forall|w: int|
        0 <= w < outs.len() && survives(excl, size, #[trigger] outs[w]) implies exists|k: int|
            0 <= k < bins.len() && (#[trigger] bins[k]).paths.contains(paths[w]) by {
        let d = outs[w]->0@;
        assert(digest_occurs(size, outs, excl, d, n));
        assert(has_digest(bins, d));
        let k = choose|k: int| 0 <= k < bins.len() && (#[trigger] bins[k]).digest == d;
        lemma_paths_of_index(bins, k);
        lemma_binned_paths_membership(size, paths, outs, excl, d, n, paths[w]);
        assert(bins[k].paths.contains(paths[w]));
    }
    assert forall|w: int, k: int|
        0 <= w < outs.len() && !survives(excl, size, #[trigger] outs[w]) && 0 <= k
            < bins.len() implies !(#[trigger] bins[k]).paths.contains(paths[w]) by {
        lemma_paths_of_index(bins, k);
        lemma_binned_paths_membership(size, paths, outs, excl, bins[k].digest, n, paths[w]);
        if bins[k].paths.contains(paths[w]) {
            let u = choose|u: int|
                0 <= u < n && survives(excl, size, #[trigger] outs[u]) && outs[u]->0@
                    == bins[k].digest && paths[u] == paths[w];
            assert(u == w) by {
                if u < w {
                    assert(paths[u] != paths[w]);
                }
                if w < u {
                    assert(paths[w] != paths[u]);
                }
            }
        }
    }
    assert forall|k: int, q: Seq<char>|
        0 <= k < bins.len() && #[trigger] bins[k].paths.contains(q) implies exists|w: int|
            0 <= w < outs.len() && survives(excl, size, #[trigger] outs[w]) && paths[w] == q by {
        lemma_paths_of_index(bins, k);
        lemma_binned_paths_membership(size, paths, outs, excl, bins[k].digest, n, q);
        let w = choose|w: int|
            0 <= w < n && survives(excl, size, #[trigger] outs[w]) && outs[w]->0@
                == bins[k].digest && paths[w] == q;
        assert(0 <= w < outs.len() && survives(excl, size, outs[w]) && paths[w] == q);
    }
    assert forall|k1: int, k2: int, q: Seq<char>|
        0 <= k1 < k2 < bins.len() implies !(#[trigger] bins[k1].paths.contains(q)
        && #[trigger] bins[k2].paths.contains(q)) by {
        if bins[k1].paths.contains(q) && bins[k2].paths.contains(q) {
            lemma_paths_of_index(bins, k1);
            lemma_paths_of_index(bins, k2);
            lemma_binned_paths_membership(size, paths, outs, excl, bins[k1].digest, n, q);
            lemma_binned_paths_membership(size, paths, outs, excl, bins[k2].digest, n, q);
            let w1 = choose|w: int|
                0 <= w < n && survives(excl, size, #[trigger] outs[w]) && outs[w]->0@
                    == bins[k1].digest && paths[w] == q;
            let w2 = choose|w: int|
                0 <= w < n && survives(excl, size, #[trigger] outs[w]) && outs[w]->0@
                    == bins[k2].digest && paths[w] == q;
            assert(w1 == w2) by {
                if w1 < w2 {
                    assert(paths[w1] != paths[w2]);
                }
                if w2 < w1 {
                    assert(paths[w2] != paths[w1]);
                }
            }
            assert(bins[k1].digest == bins[k2].digest);
            assert(bytes_lt(bins[k1].digest, bins[k2].digest));
            crate::order::lemma_bytes_lt_asym(bins[k1].digest, bins[k2].digest);
        }
    }
}

/// The binned paths of one digest are the surviving members in group
/// order: over a strictly sorted group they stay strictly sorted.
proof fn lemma_binned_paths_sorted(
    size: u64,
    paths: Seq<Seq<char>>,
    outs: Seq<Option<Vec<u8>>>,
    excl: ExclusionIndex,
    d: Seq<u8>,
    j: int,
)
    requires
        0 <= j <= outs.len(),
        paths.len() == outs.len(),
        forall|x: int, y: int|
            0 <= x < y < paths.len() ==> chars_lt(#[trigger] paths[x], #[trigger] paths[y]),
    ensures
        forall|x: int, y: int|
            0 <= x < y < binned_paths(size, paths, outs, excl, d, j).len() ==> chars_lt(
                #[trigger] binned_paths(size, paths, outs, excl, d, j)[x],
                #[trigger] binned_paths(size, paths, outs, excl, d, j)[y],
            ),
    decreases j,
{
    if j <= 0 {
        assert(binned_paths(size, paths, outs, excl, d, j).len() == 0);
    } else {
        lemma_binned_paths_sorted(size, paths, outs, excl, d, j - 1);
        let prev = binned_paths(size, paths, outs, excl, d, j - 1);
        let cur = binned_paths(size, paths, outs, excl, d, j);
        if survives(excl, size, outs[j - 1]) && outs[j - 1]->0@ == d {
            assert(cur == prev.push(paths[j - 1]));
            assert forall|x: int, y: int|
                0 <= x < y < binned_paths(size, paths, outs, excl, d, j).len() implies chars_lt(
                #[trigger] binned_paths(size, paths, outs, excl, d, j)[x],
                #[trigger] binned_paths(size, paths, outs, excl, d, j)[y],
            ) by {
                assert(binned_paths(size, paths, outs, excl, d, j) == cur);
                if y < prev.len() {
                    assert(cur[x] == prev[x] && cur[y] == prev[y]);
                    assert(chars_lt(prev[x], prev[y]));
                } else {
                    assert(cur[y] == paths[j - 1]);
                    assert(cur[x] == prev[x]);
                    assert(prev.contains(prev[x])) by {
                        assert(0 <= x < prev.len() && prev[x] == prev[x]);
                    }
                    lemma_binned_paths_membership(size, paths, outs, excl, d, j - 1, prev[x]);
                    let w = choose|w: int|
                        0 <= w < j - 1 && survives(excl, size, #[trigger] outs[w]) && outs[w]->0@
                            == d && paths[w] == prev[x];
                    assert(chars_lt(paths[w], paths[j - 1]));
                }
            }
        } else {
            assert(cur == prev);
            assert forall|x: int, y: int|
                0 <= x < y < binned_paths(size, paths, outs, excl, d, j).len() implies chars_lt(
                #[trigger] binned_paths(size, paths, outs, excl, d, j)[x],
                #[trigger] binned_paths(size, paths, outs, excl, d, j)[y],
            ) by {
                assert(binned_paths(size, paths, outs, excl, d, j) == cur);
                assert(chars_lt(prev[x], prev[y]));
            }
        }
    }
}

/// Law: the report's ordering is canonical. The bins of one hashed
/// group carry strictly ascending digests, and within one bin the
/// member paths stay strictly ascending in the lexicographic order.
pub proof fn lemma_report_ordering(
    size: u64,
    paths: Seq<Seq<char>>,
    outs: Seq<Option<Vec<u8>>>,
    excl: ExclusionIndex,
    k: int,
)
    requires
        paths.len() == outs.len(),
        forall|x: int, y: int|
            0 <= x < y < paths.len() ==> chars_lt(#[trigger] paths[x], #[trigger] paths[y]),
        0 <= k < group_bins(size, paths, outs, excl, outs.len() as int).len(),
    ensures
        bins_sorted(group_bins(size, paths, outs, excl, outs.len() as int)),
        forall|x: int, y: int|
            0 <= x < y < group_bins(size, paths, outs, excl, outs.len() as int)[k].paths.len()
                ==> chars_lt(
                #[trigger] group_bins(size, paths, outs, excl, outs.len() as int)[k].paths[x],
                #[trigger] group_bins(size, paths, outs, excl, outs.len() as int)[k].paths[y],
            ),
{
    let n = outs.len() as int;
    let bins = group_bins(size, paths, outs, excl, n);
    lemma_group_bins_characterize(size, paths, outs, excl, n);
    lemma_paths_of_index(bins, k);
    assert(bins[k].paths == binned_paths(size, paths, outs, excl, bins[k].digest, n));
    lemma_binned_paths_sorted(size, paths, outs, excl, bins[k].digest, n);
}

/// Law: exclusion is monotone. Enlarging the exclusion set only
/// removes members from bins and never creates a bin: every digest
/// binned under the larger set was binned under the smaller one, and
/// every path binned under the larger set sat in the same digest's
/// bin under the smaller one.
pub proof fn lemma_exclusion_monotone(
    size: u64,
    paths: Seq<Seq<char>>,
    outs: Seq<Option<Vec<u8>>>,
    excl1: ExclusionIndex,
    excl2: ExclusionIndex,
)
    requires
        paths.len() == outs.len(),
        forall|s: u64, d: Seq<u8>| excl1.excludes(s, d) ==> excl2.excludes(s, d),
    ensures
        forall|d: Seq<u8>|
            has_digest(group_bins(size, paths, outs, excl2, outs.len() as int), d)
                ==> #[trigger] has_digest(group_bins(size, paths, outs, excl1, outs.len() as int), d),
        forall|d: Seq<u8>, q: Seq<char>|
            paths_of(group_bins(size, paths, outs, excl2, outs.len() as int), d).contains(q)
                ==> #[trigger] paths_of(
                group_bins(size, paths, outs, excl1, outs.len() as int),
                d,
            ).contains(q),
{
    let n = outs.len() as int;
    let bins1 = group_bins(size, paths, outs, excl1, n);
    let bins2 = group_bins(size, paths, outs, excl2, n);
    lemma_group_bins_characterize(size, paths, outs, excl1, n);
    lemma_group_bins_characterize(size, paths, outs, excl2, n);
    assert forall|d: Seq<u8>| has_digest(bins2, d) implies #[trigger] has_digest(bins1, d) by {
        assert(digest_occurs(size, outs, excl2, d, n));
        let w = choose|w: int|
            0 <= w < n && survives(excl2, size, #[trigger] outs[w]) && outs[w]->0@ == d;
        assert(survives(excl1, size, outs[w]));
        assert(digest_occurs(size, outs, excl1, d, n));
    }
    assert forall|d: Seq<u8>, q: Seq<char>|
        paths_of(bins2, d).contains(q) implies #[trigger] paths_of(bins1, d).contains(q) by {
        lemma_binned_paths_membership(size, paths, outs, excl2, d, n, q);
        let w = choose|w: int|
            0 <= w < n && survives(excl2, size, #[trigger] outs[w]) && outs[w]->0@ == d
                && paths[w] == q;
        assert(survives(excl1, size, outs[w]));
        lemma_binned_paths_membership(size, paths, outs, excl1, d, n, q);
    }
}

/// Bins depend on the outcomes only through success and digest bytes.
proof fn lemma_group_bins_congruent(
    size: u64,
    paths: Seq<Seq<char>>,
    outs1: Seq<Option<Vec<u8>>>,
    outs2: Seq<Option<Vec<u8>>>,
    excl: ExclusionIndex,
    j: int,
)
    requires
        outs1.len() == outs2.len(),
        0 <= j <= outs1.len(),
        forall|m: int|
            0 <= m < outs1.len() ==> (((#[trigger] outs1[m]) is Some) == ((
            #[trigger] outs2[m]) is Some) && (outs1[m] is Some ==> outs1[m]->0@
                == outs2[m]->0@)),
    ensures
        group_bins(size, paths, outs1, excl, j) == group_bins(size, paths, outs2, excl, j),
    decreases j,
{
    if j <= 0 {
    } else {
        lemma_group_bins_congruent(size, paths, outs1, outs2, excl, j - 1);
        assert(survives(excl, size, outs1[j - 1]) == survives(excl, size, outs2[j - 1]));
        if survives(excl, size, outs1[j - 1]) {
            assert(outs1[j - 1]->0@ == outs2[j - 1]->0@);
        }
    }
}

/// Read errors depend on the outcomes only through success, and on
/// the group only through size and path texts.
proof fn lemma_group_errors_congruent(
    g1: SizeGroup,
    g2: SizeGroup,
    outs1: Seq<Option<Vec<u8>>>,
    outs2: Seq<Option<Vec<u8>>>,
    j: int,
)
    requires
        g1.size == g2.size,
        gpaths(g1) == gpaths(g2),
        outs1.len() == outs2.len(),
        0 <= j <= outs1.len(),
        forall|m: int|
            0 <= m < outs1.len() ==> (((#[trigger] outs1[m]) is Some) == ((
            #[trigger] outs2[m]) is Some)),
    ensures
        group_errors(g1, outs1, j) == group_errors(g2, outs2, j),
    decreases j,
{
    if j <= 0 {
    } else {
        lemma_group_errors_congruent(g1, g2, outs1, outs2, j - 1);
    }
}

/// One group's records depend on the group only through its size and
/// path texts, and on the outcomes only through success and digest
/// bytes.
proof fn lemma_group_records_congruent(
    g1: SizeGroup,
    g2: SizeGroup,
    outs1: Seq<Option<Vec<u8>>>,
    outs2: Seq<Option<Vec<u8>>>,
    cfg: EngineConfig,
    excl: ExclusionIndex,
)
    requires
        g1.size == g2.size,
        gpaths(g1) == gpaths(g2),
        outs1.len() == outs2.len(),
        forall|m: int|
            0 <= m < outs1.len() ==> (((#[trigger] outs1[m]) is Some) == ((
            #[trigger] outs2[m]) is Some) && (outs1[m] is Some ==> outs1[m]->0@
                == outs2[m]->0@)),
    ensures
        group_records(g1, outs1, cfg, excl) == group_records(g2, outs2, cfg, excl),
{
    assert(g1.paths@.len() == g2.paths@.len()) by {
        assert(gpaths(g1).len() == g1.paths@.len());
        assert(gpaths(g2).len() == g2.paths@.len());
        assert(gpaths(g1).len() == gpaths(g2).len());
    }
    if avoided(cfg, g1.size) {
    } else if !spec_needs_hash(cfg, g1.size, g1.paths@.len()) {
    } else {
        lemma_group_bins_congruent(g1.size, gpaths(g1), outs1, outs2, excl, outs1.len() as int);
    }
}

/// The whole report depends on the groups only through sizes and
/// path texts, and on the outcomes only through success and digest
/// bytes.
proof fn lemma_engine_congruent(
    groups1: Seq<SizeGroup>,
    groups2: Seq<SizeGroup>,
    outs1: Seq<Vec<Option<Vec<u8>>>>,
    outs2: Seq<Vec<Option<Vec<u8>>>>,
    cfg: EngineConfig,
    excl: ExclusionIndex,
    i: int,
)
    requires
        groups1.len() == groups2.len(),
        0 <= i <= groups1.len(),
        forall|m: int|
            0 <= m < groups1.len() ==> ((#[trigger] groups1[m]).size == groups2[m].size
                && gpaths(groups1[m]) == gpaths(groups2[m])),
        outs1.len() == groups1.len(),
        outs2.len() == groups2.len(),
        forall|m: int| 0 <= m < groups1.len() ==> (#[trigger] outs1[m])@.len()
            == outs2[m]@.len(),
        forall|m: int, j: int|
            0 <= m < groups1.len() && 0 <= j < outs1[m]@.len() ==> (((
            #[trigger] outs1[m]@[j]) is Some) == ((#[trigger] outs2[m]@[j]) is Some) && (
            outs1[m]@[j] is Some ==> outs1[m]@[j]->0@ == outs2[m]@[j]->0@)),
    ensures
        engine_records(groups1, outs1, cfg, excl, i) == engine_records(
            groups2,
            outs2,
            cfg,
            excl,
            i,
        ),
        engine_errors(groups1, outs1, cfg, i) == engine_errors(groups2, outs2, cfg, i),
    decreases i,
{
    if i <= 0 {
    } else {
        lemma_engine_congruent(groups1, groups2, outs1, outs2, cfg, excl, i - 1);
        let o1 = outs1[i - 1]@;
        let o2 = outs2[i - 1]@;
        assert forall|m: int|
            0 <= m < o1.len() implies (((#[trigger] o1[m]) is Some) == ((
        #[trigger] o2[m]) is Some) && (o1[m] is Some ==> o1[m]->0@ == o2[m]->0@)) by {
            assert(o1[m] == outs1[i - 1]@[m]);
            assert(o2[m] == outs2[i - 1]@[m]);
        }
        lemma_group_records_congruent(groups1[i - 1], groups2[i - 1], o1, o2, cfg, excl);
        assert(groups1[i - 1].paths@.len() == groups2[i - 1].paths@.len()) by {
            assert(gpaths(groups1[i - 1]).len() == groups1[i - 1].paths@.len());
            assert(gpaths(groups2[i - 1]).len() == groups2[i - 1].paths@.len());
            assert(gpaths(groups1[i - 1]).len() == gpaths(groups2[i - 1]).len());
        }
        if spec_needs_hash(cfg, groups1[i - 1].size, groups1[i - 1].paths@.len()) {
            lemma_group_errors_congruent(
                groups1[i - 1],
                groups2[i - 1],
                o1,
                o2,
                o1.len() as int,
            );
        }
    }
}

/// Law: an unchanged tree gives an unchanged report. Two well-formed
/// indexes holding the same (size, path) entries — however the
/// filesystem enumeration ordered them — with hash outcomes that
/// agree member for member yield identical records and identical
/// errors, in content and in order.
pub proof fn lemma_engine_independent_of_enumeration(
    a: SizeIndex,
    b: SizeIndex,
    outsa: Seq<Vec<Option<Vec<u8>>>>,
    outsb: Seq<Vec<Option<Vec<u8>>>>,
    cfg: EngineConfig,
    excl: ExclusionIndex,
)
    requires
        a.wf(),
        b.wf(),
        forall|s: u64, p: Seq<char>| a.has_entry(s, p) <==> b.has_entry(s, p),
        outsa.len() == a.groups@.len(),
        outsb.len() == b.groups@.len(),
        forall|m: int| 0 <= m < outsa.len() ==> (#[trigger] outsa[m])@.len()
            == outsb[m]@.len(),
        forall|m: int, j: int|
            0 <= m < outsa.len() && 0 <= j < outsa[m]@.len() ==> (((
            #[trigger] outsa[m]@[j]) is Some) == ((#[trigger] outsb[m]@[j]) is Some) && (
            outsa[m]@[j] is Some ==> outsa[m]@[j]->0@ == outsb[m]@[j]->0@)),
    ensures
        engine_records(a.groups@, outsa, cfg, excl, a.groups@.len() as int) == engine_records(
            b.groups@,
            outsb,
            cfg,
            excl,
            b.groups@.len() as int,
        ),
        engine_errors(a.groups@, outsa, cfg, a.groups@.len() as int) == engine_errors(
            b.groups@,
            outsb,
            cfg,
            b.groups@.len() as int,
        ),
{
    crate::index::lemma_index_canonical(a, b);
    assert forall|m: int| 0 <= m < a.groups@.len() implies ((#[trigger] a.groups@[m]).size
        == b.groups@[m].size && gpaths(a.groups@[m]) == gpaths(b.groups@[m])) by {
        assert(gpaths(a.groups@[m]) =~= gpaths(b.groups@[m])) by {
            assert forall|k: int|
                0 <= k < a.groups@[m].paths@.len() implies gpaths(a.groups@[m])[k] == gpaths(
                b.groups@[m],
            )[k] by {
                assert(a.groups@[m].paths@[k]@ == b.groups@[m].paths@[k]@);
            }
        }
    }
    lemma_engine_congruent(
        a.groups@,
        b.groups@,
        outsa,
        outsb,
        cfg,
        excl,
        a.groups@.len() as int,
    );
}

/// Copies a digest byte for byte.
fn clone_digest(v: &Vec<u8>) -> (r: Vec<u8>)
    ensures
        r@ == v@,
{
    let mut r: Vec<u8> = Vec::new();
    let n = v.len();
    let mut i: usize = 0;
    while i < n
        invariant
            n == v@.len(),
            i <= n,
            r@ == v@.take(i as int),
        decreases n - i,
    {
        r.push(v[i]);
        proof {
            assert(v@.take(i as int).push(v@[i as int]) =~= v@.take(i + 1));
        }
        i = i + 1;
    }
    proof {
        assert(v@.take(n as int) =~= v@);
    }
    r
}

/// Copies a path list; the copy reads as the same character
/// sequences.
fn clone_paths(v: &Vec<String>) -> (r: Vec<String>)
    ensures
        paths_view(r@) == paths_view(v@),
{
    let mut r: Vec<String> = Vec::new();
    let n = v.len();
    let mut i: usize = 0;
    while i < n
        invariant
            n == v@.len(),
            i <= n,
            r@.len() == i,
            forall|m: int| 0 <= m < i ==> (#[trigger] r@[m])@ == v@[m]@,
        decreases n - i,
    {
        r.push(v[i].clone());
        i = i + 1;
    }
    proof {
        assert(paths_view(r@) =~= paths_view(v@));
    }
    r
}

/// One bin under construction: the digest and its member paths.
struct Bin {
    digest: Vec<u8>,
    paths: Vec<String>,
}

/// The mathematical shadow of a bin under construction.
spec fn bin_view(b: Bin) -> BinView {
    BinView { digest: b.digest@, paths: paths_view(b.paths@) }
}

/// The views of the bins under construction.
spec fn bins_view(bs: Seq<Bin>) -> Seq<BinView> {
    bs.map_values(|b: Bin| bin_view(b))
}

/// Inserting at the scan position — the first bin whose digest does
/// not sort below the new digest — is what the recursive insertion
/// computes.
proof fn lemma_bin_insert_at(bins: Seq<BinView>, d: Seq<u8>, p: Seq<char>, k: int)
    requires
        0 <= k <= bins.len(),
        forall|m: int| 0 <= m < k ==> bytes_lt((#[trigger] bins[m]).digest, d),
        k < bins.len() ==> !bytes_lt(bins[k].digest, d),
    ensures
        bin_insert(bins, d, p) == if k < bins.len() && bins[k].digest == d {
            bins.update(k, BinView { digest: d, paths: bins[k].paths.push(p) })
        } else {
            bins.insert(k, BinView { digest: d, paths: seq![p] })
        },
    decreases bins.len(),
{
    let res = bin_insert(bins, d, p);
    if bins.len() == 0 {
        assert(res =~= bins.insert(0, BinView { digest: d, paths: seq![p] }));
    } else if k == 0 {
        if bytes_lt(d, bins[0].digest) {
            assert(bins[0].digest != d) by {
                crate::order::lemma_bytes_lt_asym(d, bins[0].digest);
            }
            bins.insert_ensures(0, BinView { digest: d, paths: seq![p] });
            assert(res =~= bins.insert(0, BinView { digest: d, paths: seq![p] }));
        } else if d == bins[0].digest {
            assert(res =~= bins.update(
                0,
                BinView { digest: d, paths: bins[0].paths.push(p) },
            ));
        } else {
            crate::order::lemma_bytes_lt_total(d, bins[0].digest);
            assert(false);
        }
    } else {
        assert(bytes_lt(bins[0].digest, d));
        crate::order::lemma_bytes_lt_asym(bins[0].digest, d);
        let tail = bins.skip(1);
        assert forall|m: int| 0 <= m < k - 1 implies bytes_lt(
            (#[trigger] tail[m]).digest,
            d,
        ) by {
            assert(tail[m] == bins[m + 1]);
        }
        assert(k - 1 < tail.len() ==> !bytes_lt(tail[k - 1].digest, d)) by {
            if k - 1 < tail.len() {
                assert(tail[k - 1] == bins[k]);
            }
        }
        lemma_bin_insert_at(tail, d, p, k - 1);
        assert(res == seq![bins[0]] + bin_insert(tail, d, p));
        if k < bins.len() && bins[k].digest == d {
            let merged = BinView { digest: d, paths: bins[k].paths.push(p) };
            assert(tail[k - 1] == bins[k]);
            assert(bin_insert(tail, d, p) == tail.update(k - 1, merged));
            assert(res =~= bins.update(k, merged));
        } else {
            let nb = BinView { digest: d, paths: seq![p] };
            assert(bin_insert(tail, d, p) == tail.insert(k - 1, nb));
            tail.insert_ensures(k - 1, nb);
            bins.insert_ensures(k, nb);
            assert(res =~= bins.insert(k, nb));
        }
    }
}

/// Places one surviving (digest, path) pair into the bins under
/// construction.
fn bins_add(bins: &mut Vec<Bin>, digest: Vec<u8>, path: String)
    ensures
        bins_view(final(bins)@) == bin_insert(bins_view(old(bins)@), digest@, path@),
{
    let ghost bv = bins_view(old(bins)@);
    let n = bins.len();
    let mut k: usize = 0;
    while k < n && digest_lt(&bins[k].digest, &digest)
        invariant
            *bins == *old(bins),
            n == bins@.len(),
            k <= n,
            forall|m: int| 0 <= m < k ==> bytes_lt((#[trigger] bins@[m]).digest@, digest@),
        decreases n - k,
    {
        k = k + 1;
    }
    proof {
        assert(bv.len() == n);
        assert forall|m: int| 0 <= m < k implies bytes_lt((#[trigger] bv[m]).digest, digest@) by {
            assert(bv[m] == bin_view(bins@[m]));
        }
        if k < n {
            assert(bv[k as int] == bin_view(bins@[k as int]));
        }
        lemma_bin_insert_at(bv, digest@, path@, k as int);
    }
    if k < n && digest_eq(&bins[k].digest, &digest) {
        let mut b = bins.remove(k);
        let ghost bold = b;
        b.paths.push(path);
        let ghost bnew = b;
        bins.insert(k, b);
        proof {
            assert(bins@ =~= old(bins)@.update(k as int, bnew));
            assert(bold == old(bins)@[k as int]);
            assert(bin_view(bnew).digest == digest@);
            assert(bin_view(bnew).paths =~= bin_view(bold).paths.push(path@));
            assert(bins_view(bins@) =~= bv.update(
                k as int,
                BinView { digest: digest@, paths: bv[k as int].paths.push(path@) },
            ));
            assert(bv[k as int].digest == digest@);
            assert(bins_view(bins@) == bin_insert(bv, digest@, path@));
        }
    } else {
        proof {
            if k < n {
                assert(bv[k as int].digest != digest@);
            }
        }
        let mut paths: Vec<String> = Vec::new();
        paths.push(path);
        bins.insert(k, Bin { digest, paths });
        proof {
            let nb = BinView { digest: digest@, paths: seq![path@] };
            old(bins)@.insert_ensures(k as int, bins@[k as int]);
            bv.insert_ensures(k as int, nb);
            assert(bin_view(bins@[k as int]) =~= nb);
            assert(bins_view(bins@) =~= bv.insert(k as int, nb));
            assert(bins_view(bins@) == bin_insert(bv, digest@, path@));
        }
    }
}

/// Pushing a record pushes its view.
proof fn lemma_records_view_push(s: Seq<Record>, x: Record)
    ensures
        records_view(s.push(x)) == records_view(s).push(x@),
{
    assert(records_view(s.push(x)) =~= records_view(s).push(x@));
}

/// Pushing a read error pushes its view.
proof fn lemma_errors_view_push(s: Seq<ReadError>, x: ReadError)
    ensures
        errors_view(s.push(x)) == errors_view(s).push(x@),
{
    assert(errors_view(s.push(x)) =~= errors_view(s).push(x@));
}

/// Decides whether a group of this size and member count is hashed.
/// A singleton group is never hashed unless hashing is forced, and a
/// group above the disambiguation ceiling is never hashed at all.
pub fn group_needs_hash(cfg: EngineConfig, size: u64, members: usize) -> (r: bool)
    ensures
        r == spec_needs_hash(cfg, size, members as nat),
        members == 1 && !cfg.always_hash ==> !r,
        avoided(cfg, size) ==> !r,
{
    let av = match cfg.avoid_compare_if_larger_than {
        Option::Some(m) => size > m,
        Option::None => false,
    };
    !av && (members >= 2 || cfg.always_hash)
}

/// Runs the engine over a built size index: per group ascending by
/// size, either reports the whole group unhashed (above the ceiling),
/// or the singleton (when unique-reporting is on), or bins the
/// members' hash outcomes by digest — dropping excluded digests,
/// reporting failed reads — and emits one record per reported bin.
/// `outcomes[i][j]` is the hash outcome the caller obtained for the
/// `j`-th path of the `i`-th group; only groups the engine hashes
/// (see `group_needs_hash`) need outcomes.
pub fn run_engine(
    index: &SizeIndex,
    cfg: EngineConfig,
    excl: &ExclusionIndex,
    outcomes: &Vec<Vec<Option<Vec<u8>>>>,
) -> (r: EngineResult)
    requires
        outcomes@.len() == index.groups@.len(),
        forall|i: int|
            #![trigger outcomes@[i]]
            0 <= i < index.groups@.len() && spec_needs_hash(
                cfg,
                index.groups@[i].size,
                index.groups@[i].paths@.len(),
            ) ==> outcomes@[i]@.len() == index.groups@[i].paths@.len(),
    ensures
        records_view(r.records@) == engine_records(
            index.groups@,
            outcomes@,
            cfg,
            *excl,
            index.groups@.len() as int,
        ),
        errors_view(r.errors@) == engine_errors(
            index.groups@,
            outcomes@,
            cfg,
            index.groups@.len() as int,
        ),
{
    let ghost groups = index.groups@;
    let mut records: Vec<Record> = Vec::new();
    let mut errors: Vec<ReadError> = Vec::new();
    let n = index.groups.len();
    let mut i: usize = 0;
    while i < n
        invariant
            n == groups.len(),
            groups == index.groups@,
            outcomes@.len() == groups.len(),
            forall|m: int|
                #![trigger outcomes@[m]]
                0 <= m < groups.len() && spec_needs_hash(
                    cfg,
                    groups[m].size,
                    groups[m].paths@.len(),
                ) ==> outcomes@[m]@.len() == groups[m].paths@.len(),
            i <= n,
            records_view(records@) == engine_records(groups, outcomes@, cfg, *excl, i as int),
            errors_view(errors@) == engine_errors(groups, outcomes@, cfg, i as int),
        decreases n - i,
    {
        let ghost recs_before = records_view(records@);
        let ghost errs_before = errors_view(errors@);
        let group = &index.groups[i];
        let glen = group.paths.len();
        let is_avoided = match cfg.avoid_compare_if_larger_than {
            Option::Some(m) => group.size > m,
            Option::None => false,
        };
        if is_avoided {
            let rec = Record {
                label: String::new(),
                size: group.size,
                paths: clone_paths(&group.paths),
            };
            proof {
                assert(rec@ == RecordView {
                    label: Seq::<char>::empty(),
                    size: groups[i as int].size,
                    paths: gpaths(groups[i as int]),
                });
                lemma_records_view_push(records@, rec);
            }
            records.push(rec);
            proof {
                assert(records_view(records@) =~= recs_before + group_records(
                    groups[i as int],
                    outcomes@[i as int]@,
                    cfg,
                    *excl,
                ));
            }
        } else if !group_needs_hash(cfg, group.size, glen) {
            if cfg.show_non_duplicates {
                let rec = Record {
                    label: String::new(),
                    size: group.size,
                    paths: clone_paths(&group.paths),
                };
                proof {
                    assert(rec@ == RecordView {
                        label: Seq::<char>::empty(),
                        size: groups[i as int].size,
                        paths: gpaths(groups[i as int]),
                    });
                    lemma_records_view_push(records@, rec);
                }
                records.push(rec);
                proof {
                    assert(records_view(records@) =~= recs_before + group_records(
                        groups[i as int],
                        outcomes@[i as int]@,
                        cfg,
                        *excl,
                    ));
                }
            } else {
                proof {
                    assert(records_view(records@) =~= recs_before + group_records(
                        groups[i as int],
                        outcomes@[i as int]@,
                        cfg,
                        *excl,
                    ));
                }
            }
        } else {
            // Hash the group: bin the surviving outcomes by digest.
            let outs = &outcomes[i];
            let ghost g = groups[i as int];
            proof {
                assert(spec_needs_hash(cfg, g.size, g.paths@.len()));
                assert(outcomes@[i as int]@.len() == g.paths@.len());
            }
            let mut bins: Vec<Bin> = Vec::new();
            let mut j: usize = 0;
            while j < glen
                invariant
                    groups == index.groups@,
                    g == groups[i as int],
                    *group == g,
                    0 <= i < groups.len(),
                    outcomes@.len() == groups.len(),
                    outs@ == outcomes@[i as int]@,
                    glen == g.paths@.len(),
                    glen == outs@.len(),
                    j <= glen,
                    bins_view(bins@) == group_bins(g.size, gpaths(g), outs@, *excl, j as int),
                    errors_view(errors@) == errs_before + group_errors(g, outs@, j as int),
                decreases glen - j,
            {
                let ghost bins_before = bins_view(bins@);
                match &outs[j] {
                    Option::None => {
                        let e = ReadError { size: group.size, path: group.paths[j].clone() };
                        proof {
                            assert(e@ == ReadErrorView { size: g.size, path: gpaths(g)[j as int] });
                            lemma_errors_view_push(errors@, e);
                        }
                        errors.push(e);
                        proof {
                            assert(errors_view(errors@) =~= errs_before + group_errors(
                                g,
                                outs@,
                                j + 1,
                            ));
                        }
                    },
                    Option::Some(dv) => {
                        if !excl.contains(group.size, dv) {
                            let d = clone_digest(dv);
                            let p = group.paths[j].clone();
                            proof {
                                assert(survives(*excl, g.size, outs@[j as int]));
                                assert(outs@[j as int]->0@ == d@);
                                assert(gpaths(g)[j as int] == p@);
                            }
                            bins_add(&mut bins, d, p);
                            proof {
                                assert(bins_view(bins@) == bin_insert(
                                    bins_before,
                                    outs@[j as int]->0@,
                                    gpaths(g)[j as int],
                                ));
                            }
                        } else {
                            proof {
                                assert(!survives(*excl, g.size, outs@[j as int]));
                            }
                        }
                    },
                }
                j = j + 1;
            }
            // Emit one record per reported bin, digests ascending.
            let ghost bv = bins_view(bins@);
            proof {
                assert(bv == group_bins(g.size, gpaths(g), outs@, *excl, outs@.len() as int));
            }
            let bn = bins.len();
            let mut k: usize = 0;
            while k < bn
                invariant
                    groups == index.groups@,
                    g == groups[i as int],
                    *group == g,
                    0 <= i < groups.len(),
                    bn == bins@.len(),
                    k <= bn,
                    bv == bins_view(bins@),
                    records_view(records@) == recs_before + bins_records(g.size, bv, cfg, k as int),
                decreases bn - k,
            {
                let reported = bins[k].paths.len() >= 2 || cfg.show_non_duplicates;
                proof {
                    assert(bv[k as int] == bin_view(bins@[k as int]));
                    assert(reported == bin_reported(cfg, bv[k as int]));
                }
                if reported {
                    let label = if bins[k].paths.len() == 1 && !cfg.always_hash {
                        String::new()
                    } else {
                        toUpperHex(bins[k].digest.as_slice())
                    };
                    proof {
                        assert(label@ == bin_label(cfg, bv[k as int]));
                    }
                    let rec = Record {
                        label,
                        size: group.size,
                        paths: clone_paths(&bins[k].paths),
                    };
                    proof {
                        assert(rec@ == RecordView {
                            label: bin_label(cfg, bv[k as int]),
                            size: g.size,
                            paths: bv[k as int].paths,
                        });
                        lemma_records_view_push(records@, rec);
                    }
                    records.push(rec);
                    proof {
                        assert(records_view(records@) =~= recs_before + bins_records(
                            g.size,
                            bv,
                            cfg,
                            k + 1,
                        ));
                    }
                }
                k = k + 1;
            }
            proof {
                assert(group_records(g, outs@, cfg, *excl) == bins_records(
                    g.size,
                    bv,
                    cfg,
                    bv.len() as int,
                ));
                assert(records_view(records@) == recs_before + group_records(
                    g,
                    outs@,
                    cfg,
                    *excl,
                ));
            }
        }
        i = i + 1;
        proof {
            let iold = i as int - 1;
            if !spec_needs_hash(cfg, groups[iold].size, groups[iold].paths@.len()) {
                assert(errors_view(errors@) == errs_before);
                assert(errs_before + Seq::<ReadErrorView>::empty() =~= errs_before);
            }
            assert(records_view(records@) == engine_records(
                groups,
                outcomes@,
                cfg,
                *excl,
                i as int,
            ));
            assert(errors_view(errors@) == engine_errors(groups, outcomes@, cfg, i as int));
        }
    }
    EngineResult { records, errors }
}

} // verus!
