//! The size index: the cheap first-pass discriminator.
//!
//! Enumerated files are grouped by exact byte length. Sizes are kept
//! strictly ascending and the paths within one group strictly
//! ascending in the lexicographic character order, so the index — and
//! with it everything reported from it — does not depend on the order
//! in which the filesystem happened to be enumerated.

use vstd::prelude::*;

use crate::order::{
    chars_lt, lemma_chars_lt_asym, lemma_chars_lt_total, lemma_chars_lt_trans, str_lt,
};

verus! {

/// One enumerated file: its path and its byte length at discovery
/// time.
pub struct FileEntry {
    pub path: String,
    pub size: u64,
}

/// All known paths of one exact byte length, strictly sorted.
pub struct SizeGroup {
    pub size: u64,
    pub paths: Vec<String>,
}

/// True when a group is well formed: nonempty, paths strictly
/// ascending (hence distinct).
pub open spec fn group_wf(g: SizeGroup) -> bool {
    g.paths@.len() >= 1 && (forall|i: int, j: int|
        0 <= i < j < g.paths@.len() ==> chars_lt(#[trigger] g.paths@[i]@, #[trigger] g.paths@[j]@))
}

/// True when the group holds the path.
pub open spec fn group_contains(g: SizeGroup, path: Seq<char>) -> bool {
    exists|k: int| 0 <= k < g.paths@.len() && (#[trigger] g.paths@[k])@ == path
}

impl SizeGroup {
    /// Places a path within the group, keeping the paths strictly
    /// sorted; a path the group already holds changes nothing.
    pub fn insert_path(&mut self, path: String)
        requires
            group_wf(*old(self)),
        ensures
            group_wf(*final(self)),
            final(self).size == old(self).size,
            forall|p: Seq<char>|
                group_contains(*final(self), p) <==> (group_contains(*old(self), p) || p
                    == path@),
    {
        let plen = self.paths.len();
        let mut k: usize = 0;
        while k < plen && str_lt(&self.paths[k], &path)
            invariant
                *self == *old(self),
                plen == self.paths@.len(),
                k <= plen,
                forall|m: int| 0 <= m < k ==> chars_lt((#[trigger] self.paths@[m])@, path@),
            decreases plen - k,
        {
            k = k + 1;
        }
        if k < plen && self.paths[k].eq(&path) {
            proof {
                assert(self.paths@[k as int]@ == path@);
                assert(group_contains(*old(self), path@));
            }
            return ;
        }
        proof {
            if k < plen {
                lemma_chars_lt_total(self.paths@[k as int]@, path@);
            }
            assert forall|m: int| k <= m < plen implies chars_lt(
                path@,
                (#[trigger] self.paths@[m])@,
            ) by {
                if m > k {
                    assert(chars_lt(self.paths@[k as int]@, self.paths@[m]@));
                    lemma_chars_lt_trans(path@, self.paths@[k as int]@, self.paths@[m]@);
                }
            }
        }
        self.paths.insert(k, path);
        proof {
            let gp = self.paths@;
            let op = old(self).paths@;
            assert(gp == op.insert(k as int, path));
            op.insert_ensures(k as int, path);
            assert forall|i: int, j: int| 0 <= i < j < gp.len() implies chars_lt(
                #[trigger] gp[i]@,
                #[trigger] gp[j]@,
            ) by {
                if j < k {
                    assert(gp[i] == op[i] && gp[j] == op[j]);
                } else if j == k {
                    assert(gp[i] == op[i] && gp[j] == path);
                } else {
                    assert(gp[j] == op[j - 1]);
                    if i < k {
                        assert(gp[i] == op[i]);
                    } else if i == k {
                        assert(gp[i] == path);
                    } else {
                        assert(gp[i] == op[i - 1]);
                    }
                }
            }
            assert(group_wf(*self));
            assert forall|p: Seq<char>|
                group_contains(*self, p) == (group_contains(*old(self), p) || p == path@) by {
                if group_contains(*self, p) {
                    let w = choose|w: int| 0 <= w < gp.len() && (#[trigger] gp[w])@ == p;
                    if w < k {
                        assert(op[w]@ == p);
                    } else if w > k {
                        assert(op[w - 1]@ == p);
                    }
                }
                if group_contains(*old(self), p) {
                    let w = choose|w: int| 0 <= w < op.len() && (#[trigger] op[w])@ == p;
                    if w < k {
                        assert(gp[w]@ == p);
                    } else {
                        assert(gp[w + 1]@ == p);
                    }
                }
                if p == path@ {
                    assert(gp[k as int]@ == p);
                }
            }
        }
    }
}

/// The size -> path-set mapping, one group per distinct size, sizes
/// strictly ascending.
pub struct SizeIndex {
    pub groups: Vec<SizeGroup>,
}

/// True when a size passes the minimum-size filter: always with no
/// minimum configured, and otherwise exactly when the size is not
/// strictly smaller.
pub open spec fn size_allowed(min_size: Option<u64>, size: u64) -> bool {
    match min_size {
        Option::None => true,
        Option::Some(m) => size >= m,
    }
}

/// True when some entry of the sequence records this size and path.
pub open spec fn entry_occurs(entries: Seq<FileEntry>, size: u64, path: Seq<char>) -> bool {
    exists|k: int|
        0 <= k < entries.len() && (#[trigger] entries[k]).size == size && entries[k].path@ == path
}

impl SizeIndex {
    /// Well-formedness: every group well formed, sizes strictly
    /// ascending (hence one group per distinct size).
    pub open spec fn wf(self) -> bool {
        (forall|i: int| 0 <= i < self.groups@.len() ==> group_wf(#[trigger] self.groups@[i]))
            && (forall|i: int, j: int|
            0 <= i < j < self.groups@.len() ==> (#[trigger] self.groups@[i]).size
                < (#[trigger] self.groups@[j]).size)
    }

    /// True when the index holds the path under the size.
    pub open spec fn has_entry(self, size: u64, path: Seq<char>) -> bool {
        exists|i: int|
            0 <= i < self.groups@.len() && (#[trigger] self.groups@[i]).size == size
                && group_contains(self.groups@[i], path)
    }

    /// An empty index.
    pub fn new() -> (r: SizeIndex)
        ensures
            r.wf(),
            r.groups@.len() == 0,
            forall|s: u64, p: Seq<char>| !r.has_entry(s, p),
    {
        SizeIndex { groups: Vec::new() }
    }

    /// Records one file under its size. Recording a pair the index
    /// already holds changes nothing; everything else stays.
    #[verifier::rlimit(50)]
    pub fn add(&mut self, path: String, size: u64)
        requires
            old(self).wf(),
        ensures
            final(self).wf(),
            forall|s: u64, p: Seq<char>|
                final(self).has_entry(s, p) <==> (old(self).has_entry(s, p) || (s == size && p
                    == path@)),
    {
        let ghost old_index = *old(self);
        let n = self.groups.len();
        let mut g: usize = 0;
        while g < n && self.groups[g].size < size
            invariant
                *self == old_index,
                n == self.groups@.len(),
                g <= n,
                forall|m: int| 0 <= m < g ==> (#[trigger] self.groups@[m]).size < size,
            decreases n - g,
        {
            g = g + 1;
        }
        if g < n && self.groups[g].size == size {
            // The size has a group already: place the path within it.
            let mut group = self.groups.remove(g);
            let ghost old_group = group;
            group.insert_path(path);
            let ghost new_group = group;
            self.groups.insert(g, group);
            proof {
                let gs = self.groups@;
                let os = old_index.groups@;
                assert(gs =~= os.update(g as int, new_group));
                assert(os[g as int] == old_group);
                assert(new_group.size == size);
                assert(old_group.size == size);
                assert forall|i: int| 0 <= i < gs.len() implies group_wf(#[trigger] gs[i]) by {
                    if i != g {
                        assert(gs[i] == os[i]);
                    }
                }
                assert forall|i: int, j: int| 0 <= i < j < gs.len() implies (
                #[trigger] gs[i]).size < (#[trigger] gs[j]).size by {
                    assert(gs[i].size == os[i].size);
                    assert(gs[j].size == os[j].size);
                    assert(os[i].size < os[j].size);
                }
                assert(self.wf());
                assert forall|s: u64, p: Seq<char>|
                    self.has_entry(s, p) == (old_index.has_entry(s, p) || (s == size && p
                        == path@)) by {
                    if self.has_entry(s, p) {
                        let w = choose|w: int|
                            0 <= w < gs.len() && (#[trigger] gs[w]).size == s && group_contains(
                                gs[w],
                                p,
                            );
                        if w != g {
                            assert(os[w] == gs[w]);
                            assert(old_index.has_entry(s, p));
                        } else {
                            if group_contains(old_group, p) {
                                assert(old_index.has_entry(s, p));
                            } else {
                                assert(p == path@ && s == size);
                            }
                        }
                    }
                    if old_index.has_entry(s, p) {
                        let w = choose|w: int|
                            0 <= w < os.len() && (#[trigger] os[w]).size == s && group_contains(
                                os[w],
                                p,
                            );
                        if w != g {
                            assert(gs[w] == os[w]);
                            assert(self.has_entry(s, p));
                        } else {
                            assert(group_contains(new_group, p));
                            assert(gs[w] == new_group);
                            assert(self.has_entry(s, p));
                        }
                    }
                    if s == size && p == path@ {
                        assert(gs[g as int] == new_group);
                        assert(group_contains(new_group, p));
                        assert(self.has_entry(s, p));
                    }
                }
            }
        } else {
            // First file of this size: a fresh singleton group.
            let mut paths: Vec<String> = Vec::new();
            paths.push(path);
            let group = SizeGroup { size, paths };
            let ghost new_group = group;
            self.groups.insert(g, group);
            proof {
                let gs = self.groups@;
                let os = old_index.groups@;
                os.insert_ensures(g as int, new_group);
                assert(gs == os.insert(g as int, new_group));
                assert(new_group.paths@.len() == 1);
                assert(new_group.paths@[0]@ == path@);
                assert(group_wf(new_group));
                assert forall|m: int| g <= m < os.len() implies (#[trigger] os[m]).size
                    > size by {
                    assert(os[g as int].size >= size);
                    assert(os[g as int].size != size);
                    if m > g {
                        assert(os[g as int].size < os[m].size);
                    }
                }
                assert forall|i: int| 0 <= i < gs.len() implies group_wf(#[trigger] gs[i]) by {
                    if i < g {
                        assert(gs[i] == os[i]);
                    } else if i > g {
                        assert(gs[i] == os[i - 1]);
                    }
                }
                assert forall|i: int, j: int| 0 <= i < j < gs.len() implies (
                #[trigger] gs[i]).size < (#[trigger] gs[j]).size by {
                    if j < g {
                        assert(gs[i] == os[i] && gs[j] == os[j]);
                    } else if j == g {
                        assert(gs[i] == os[i]);
                    } else {
                        assert(gs[j] == os[j - 1]);
                        if i < g {
                            assert(gs[i] == os[i]);
                        } else if i > g {
                            assert(gs[i] == os[i - 1]);
                        }
                    }
                }
                assert(self.wf());
                assert forall|s: u64, p: Seq<char>|
                    self.has_entry(s, p) == (old_index.has_entry(s, p) || (s == size && p
                        == path@)) by {
                    if self.has_entry(s, p) {
                        let w = choose|w: int|
                            0 <= w < gs.len() && (#[trigger] gs[w]).size == s && group_contains(
                                gs[w],
                                p,
                            );
                        if w < g {
                            assert(os[w] == gs[w]);
                            assert(old_index.has_entry(s, p));
                        } else if w > g {
                            assert(os[w - 1] == gs[w]);
                            assert(old_index.has_entry(s, p));
                        } else {
                            assert(gs[w] == new_group);
                            let u = choose|u: int|
                                0 <= u < new_group.paths@.len() && (#[trigger] new_group.paths@[u])@
                                    == p;
                            assert(u == 0);
                            assert(p == path@);
                        }
                    }
                    if old_index.has_entry(s, p) {
                        let w = choose|w: int|
                            0 <= w < os.len() && (#[trigger] os[w]).size == s && group_contains(
                                os[w],
                                p,
                            );
                        if w < g {
                            assert(gs[w] == os[w]);
                            assert(self.has_entry(s, p));
                        } else {
                            assert(gs[w + 1] == os[w]);
                            assert(self.has_entry(s, p));
                        }
                    }
                    if s == size && p == path@ {
                        assert(gs[g as int] == new_group);
                        assert(group_contains(new_group, p));
                        assert(self.has_entry(s, p));
                    }
                }
            }
        }
        proof {
            assert(*old(self) == old_index);
            assert forall|s: u64, p: Seq<char>|
                self.has_entry(s, p) == (old(self).has_entry(s, p) || (s == size && p
                    == path@)) by {
                assert(self.has_entry(s, p) == (old_index.has_entry(s, p) || (s == size && p
                    == path@)));
            }
        }
    }

    /// Builds the index from enumerated files, dropping every entry
    /// strictly below the configured minimum size.
    #[verifier::rlimit(50)]
    pub fn build(entries: &Vec<FileEntry>, min_size: Option<u64>) -> (r: SizeIndex)
        ensures
            r.wf(),
            forall|s: u64, p: Seq<char>|
                r.has_entry(s, p) <==> (size_allowed(min_size, s) && entry_occurs(entries@, s, p)),
    {
        let mut r = SizeIndex::new();
        let n = entries.len();
        let mut i: usize = 0;
        while i < n
            invariant
                n == entries@.len(),
                i <= n,
                r.wf(),
                forall|s: u64, p: Seq<char>|
                    r.has_entry(s, p) <==> (size_allowed(min_size, s) && entry_occurs(
                        entries@.take(i as int),
                        s,
                        p,
                    )),
            decreases n - i,
        {
            let ghost prev = r;
            let allowed = match min_size {
                Option::None => true,
                Option::Some(m) => entries[i].size >= m,
            };
            if allowed {
                r.add(entries[i].path.clone(), entries[i].size);
            }
            proof {
                let pre = entries@.take(i as int);
                let post = entries@.take(i + 1);
                assert(post.len() == i + 1);
                assert(post[i as int] == entries@[i as int]);
                assert(forall|m: int| 0 <= m < i ==> post[m] == #[trigger] pre[m]);
                assert forall|s: u64, p: Seq<char>|
                    r.has_entry(s, p) == (size_allowed(min_size, s) && entry_occurs(
                        post,
                        s,
                        p,
                    )) by {
                    if r.has_entry(s, p) {
                        if prev.has_entry(s, p) {
                            let w = choose|w: int|
                                0 <= w < pre.len() && (#[trigger] pre[w]).size == s && pre[w].path@
                                    == p;
                            assert(post[w].size == s && post[w].path@ == p);
                        } else {
                            assert(s == entries@[i as int].size && p == entries@[i as int].path@);
                            assert(post[i as int].size == s && post[i as int].path@ == p);
                        }
                    }
                    if size_allowed(min_size, s) && entry_occurs(post, s, p) {
                        let w = choose|w: int|
                            0 <= w < post.len() && (#[trigger] post[w]).size == s && post[w].path@
                                == p;
                        if w < i {
                            assert(pre[w].size == s && pre[w].path@ == p);
                            assert(prev.has_entry(s, p));
                        } else {
                            assert(post[w] == entries@[i as int]);
                        }
                    }
                }
            }
            i = i + 1;
        }
        proof {
            assert(entries@.take(n as int) =~= entries@);
        }
        r
    }
}

/// True when some group records this size.
pub open spec fn size_occurs(groups: Seq<SizeGroup>, s: u64) -> bool {
    exists|i: int| 0 <= i < groups.len() && (#[trigger] groups[i]).size == s
}

/// True when some path of the list reads as this character sequence.
pub open spec fn path_in(paths: Seq<String>, q: Seq<char>) -> bool {
    exists|k: int| 0 <= k < paths.len() && (#[trigger] paths[k])@ == q
}

/// Two strictly size-sorted group lists over the same size set agree
/// in length and in size, position by position.
proof fn lemma_sorted_sizes_equal(ga: Seq<SizeGroup>, gb: Seq<SizeGroup>)
    requires
        forall|i: int, j: int|
            0 <= i < j < ga.len() ==> (#[trigger] ga[i]).size < (#[trigger] ga[j]).size,
        forall|i: int, j: int|
            0 <= i < j < gb.len() ==> (#[trigger] gb[i]).size < (#[trigger] gb[j]).size,
        forall|s: u64| size_occurs(ga, s) <==> size_occurs(gb, s),
    ensures
        ga.len() == gb.len(),
        forall|i: int| 0 <= i < ga.len() ==> (#[trigger] ga[i]).size == gb[i].size,
    decreases ga.len(),
{
    if ga.len() == 0 {
        if gb.len() > 0 {
            assert(size_occurs(gb, gb[0].size));
            assert(size_occurs(ga, gb[0].size));
            assert(false);
        }
    } else if gb.len() == 0 {
        assert(size_occurs(ga, ga[0].size));
        assert(size_occurs(gb, ga[0].size));
        assert(false);
    } else {
        assert(size_occurs(ga, ga[0].size));
        assert(size_occurs(gb, ga[0].size));
        let j = choose|j: int| 0 <= j < gb.len() && (#[trigger] gb[j]).size == ga[0].size;
        assert(gb[0].size <= ga[0].size) by {
            if j > 0 {
                assert(gb[0].size < gb[j].size);
            }
        }
        assert(size_occurs(gb, gb[0].size));
        assert(size_occurs(ga, gb[0].size));
        let i = choose|i: int| 0 <= i < ga.len() && (#[trigger] ga[i]).size == gb[0].size;
        assert(ga[0].size <= gb[0].size) by {
            if i > 0 {
                assert(ga[0].size < ga[i].size);
            }
        }
        assert(ga[0].size == gb[0].size);
        let ta = ga.skip(1);
        let tb = gb.skip(1);
        assert forall|x: int, y: int|
            0 <= x < y < ta.len() implies (#[trigger] ta[x]).size < (#[trigger] ta[y]).size by {
            assert(ta[x] == ga[x + 1]);
            assert(ta[y] == ga[y + 1]);
        }
        assert forall|x: int, y: int|
            0 <= x < y < tb.len() implies (#[trigger] tb[x]).size < (#[trigger] tb[y]).size by {
            assert(tb[x] == gb[x + 1]);
            assert(tb[y] == gb[y + 1]);
        }
        assert forall|s: u64| size_occurs(ta, s) <==> size_occurs(tb, s) by {
            if size_occurs(ta, s) {
                let w = choose|w: int| 0 <= w < ta.len() && (#[trigger] ta[w]).size == s;
                assert(ta[w] == ga[w + 1]);
                assert(ga[0].size < s);
                assert(size_occurs(ga, s)) by {
                    assert(ga[w + 1].size == s);
                }
                assert(size_occurs(gb, s));
                let u = choose|u: int| 0 <= u < gb.len() && (#[trigger] gb[u]).size == s;
                assert(u > 0);
                assert(tb[u - 1].size == s);
                assert(size_occurs(tb, s));
            }
            if size_occurs(tb, s) {
                let w = choose|w: int| 0 <= w < tb.len() && (#[trigger] tb[w]).size == s;
                assert(tb[w] == gb[w + 1]);
                assert(gb[0].size < s);
                assert(size_occurs(gb, s)) by {
                    assert(gb[w + 1].size == s);
                }
                assert(size_occurs(ga, s));
                let u = choose|u: int| 0 <= u < ga.len() && (#[trigger] ga[u]).size == s;
                assert(u > 0);
                assert(ta[u - 1].size == s);
                assert(size_occurs(ta, s));
            }
        }
        lemma_sorted_sizes_equal(ta, tb);
        assert forall|x: int| 0 <= x < ga.len() implies (#[trigger] ga[x]).size == gb[x].size by {
            if x > 0 {
                assert(ta[x - 1] == ga[x]);
                assert(tb[x - 1] == gb[x]);
                assert(ta[x - 1].size == tb[x - 1].size);
            }
        }
    }
}

/// Two strictly sorted path lists with the same members agree,
/// position by position, as character sequences.
proof fn lemma_sorted_paths_equal(pa: Seq<String>, pb: Seq<String>)
    requires
        forall|i: int, j: int|
            0 <= i < j < pa.len() ==> chars_lt((#[trigger] pa[i])@, (#[trigger] pa[j])@),
        forall|i: int, j: int|
            0 <= i < j < pb.len() ==> chars_lt((#[trigger] pb[i])@, (#[trigger] pb[j])@),
        forall|q: Seq<char>| path_in(pa, q) <==> path_in(pb, q),
    ensures
        pa.len() == pb.len(),
        forall|k: int| 0 <= k < pa.len() ==> (#[trigger] pa[k])@ == pb[k]@,
    decreases pa.len(),
{
    if pa.len() == 0 {
        if pb.len() > 0 {
            assert(path_in(pb, pb[0]@));
            assert(path_in(pa, pb[0]@));
            assert(false);
        }
    } else if pb.len() == 0 {
        assert(path_in(pa, pa[0]@));
        assert(path_in(pb, pa[0]@));
        assert(false);
    } else {
        assert(path_in(pa, pa[0]@));
        assert(path_in(pb, pa[0]@));
        let j = choose|j: int| 0 <= j < pb.len() && (#[trigger] pb[j])@ == pa[0]@;
        assert(path_in(pb, pb[0]@));
        assert(path_in(pa, pb[0]@));
        let i = choose|i: int| 0 <= i < pa.len() && (#[trigger] pa[i])@ == pb[0]@;
        assert(pa[0]@ == pb[0]@) by {
            lemma_chars_lt_total(pa[0]@, pb[0]@);
            if chars_lt(pa[0]@, pb[0]@) {
                // pa[0] sits in pb at j, above pb[0]: contradiction.
                if j > 0 {
                    assert(chars_lt(pb[0]@, pb[j]@));
                    lemma_chars_lt_asym(pa[0]@, pb[0]@);
                    lemma_chars_lt_trans(pa[0]@, pb[0]@, pb[j]@);
                    lemma_chars_lt_asym(pa[0]@, pb[j]@);
                } else {
                    lemma_chars_lt_asym(pa[0]@, pb[0]@);
                }
            }
            if chars_lt(pb[0]@, pa[0]@) {
                if i > 0 {
                    assert(chars_lt(pa[0]@, pa[i]@));
                    lemma_chars_lt_asym(pb[0]@, pa[0]@);
                    lemma_chars_lt_trans(pb[0]@, pa[0]@, pa[i]@);
                    lemma_chars_lt_asym(pb[0]@, pa[i]@);
                } else {
                    lemma_chars_lt_asym(pb[0]@, pa[0]@);
                }
            }
        }
        let ta = pa.skip(1);
        let tb = pb.skip(1);
        assert forall|x: int, y: int|
            0 <= x < y < ta.len() implies chars_lt((#[trigger] ta[x])@, (#[trigger] ta[y])@) by {
            assert(ta[x] == pa[x + 1]);
            assert(ta[y] == pa[y + 1]);
        }
        assert forall|x: int, y: int|
            0 <= x < y < tb.len() implies chars_lt((#[trigger] tb[x])@, (#[trigger] tb[y])@) by {
            assert(tb[x] == pb[x + 1]);
            assert(tb[y] == pb[y + 1]);
        }
        assert forall|q: Seq<char>| path_in(ta, q) <==> path_in(tb, q) by {
            if path_in(ta, q) {
                let w = choose|w: int| 0 <= w < ta.len() && (#[trigger] ta[w])@ == q;
                assert(ta[w] == pa[w + 1]);
                assert(chars_lt(pa[0]@, q));
                assert(path_in(pa, q)) by {
                    assert(pa[w + 1]@ == q);
                }
                assert(path_in(pb, q));
                let u = choose|u: int| 0 <= u < pb.len() && (#[trigger] pb[u])@ == q;
                assert(u > 0) by {
                    if u == 0 {
                        lemma_chars_lt_asym(pa[0]@, q);
                    }
                }
                assert(tb[u - 1]@ == q);
                assert(path_in(tb, q));
            }
            if path_in(tb, q) {
                let w = choose|w: int| 0 <= w < tb.len() && (#[trigger] tb[w])@ == q;
                assert(tb[w] == pb[w + 1]);
                assert(chars_lt(pb[0]@, q));
                assert(path_in(pb, q)) by {
                    assert(pb[w + 1]@ == q);
                }
                assert(path_in(pa, q));
                let u = choose|u: int| 0 <= u < pa.len() && (#[trigger] pa[u])@ == q;
                assert(u > 0) by {
                    if u == 0 {
                        lemma_chars_lt_asym(pb[0]@, q);
                    }
                }
                assert(ta[u - 1]@ == q);
                assert(path_in(ta, q));
            }
        }
        lemma_sorted_paths_equal(ta, tb);
        assert forall|k: int| 0 <= k < pa.len() implies (#[trigger] pa[k])@ == pb[k]@ by {
            if k > 0 {
                assert(ta[k - 1] == pa[k]);
                assert(tb[k - 1] == pb[k]);
                assert(ta[k - 1]@ == tb[k - 1]@);
            }
        }
    }
}

/// The groups of one size hold the same paths in both indexes.
proof fn lemma_group_members_equal(a: SizeIndex, b: SizeIndex, i: int)
    requires
        a.wf(),
        b.wf(),
        forall|s: u64, p: Seq<char>| a.has_entry(s, p) <==> b.has_entry(s, p),
        0 <= i < a.groups@.len(),
        0 <= i < b.groups@.len(),
        a.groups@[i].size == b.groups@[i].size,
    ensures
        a.groups@[i].paths@.len() == b.groups@[i].paths@.len(),
        forall|k: int|
            0 <= k < a.groups@[i].paths@.len() ==> (#[trigger] a.groups@[i].paths@[k])@
                == b.groups@[i].paths@[k]@,
{
    let s = a.groups@[i].size;
    assert forall|q: Seq<char>|
        path_in(a.groups@[i].paths@, q) <==> path_in(b.groups@[i].paths@, q) by {
        if path_in(a.groups@[i].paths@, q) {
            assert(group_contains(a.groups@[i], q));
            assert(a.has_entry(s, q));
            assert(b.has_entry(s, q));
            let w = choose|w: int|
                0 <= w < b.groups@.len() && (#[trigger] b.groups@[w]).size == s && group_contains(
                    b.groups@[w],
                    q,
                );
            assert(w == i) by {
                if w < i {
                    assert(b.groups@[w].size < b.groups@[i].size);
                }
                if i < w {
                    assert(b.groups@[i].size < b.groups@[w].size);
                }
            }
            assert(path_in(b.groups@[i].paths@, q));
        }
        if path_in(b.groups@[i].paths@, q) {
            assert(group_contains(b.groups@[i], q));
            assert(b.has_entry(s, q));
            assert(a.has_entry(s, q));
            let w = choose|w: int|
                0 <= w < a.groups@.len() && (#[trigger] a.groups@[w]).size == s && group_contains(
                    a.groups@[w],
                    q,
                );
            assert(w == i) by {
                if w < i {
                    assert(a.groups@[w].size < a.groups@[i].size);
                }
                if i < w {
                    assert(a.groups@[i].size < a.groups@[w].size);
                }
            }
            assert(path_in(a.groups@[i].paths@, q));
        }
    }
    assert(group_wf(a.groups@[i]));
    assert(group_wf(b.groups@[i]));
    lemma_sorted_paths_equal(a.groups@[i].paths@, b.groups@[i].paths@);
}

/// Law: the index is canonical. Two well-formed indexes that hold
/// exactly the same (size, path) entries agree group for group and
/// path for path — so the index, and with it everything reported
/// from it, does not depend on the order in which the filesystem was
/// enumerated.
pub proof fn lemma_index_canonical(a: SizeIndex, b: SizeIndex)
    requires
        a.wf(),
        b.wf(),
        forall|s: u64, p: Seq<char>| a.has_entry(s, p) <==> b.has_entry(s, p),
    ensures
        a.groups@.len() == b.groups@.len(),
        forall|i: int| 0 <= i < a.groups@.len() ==> (#[trigger] a.groups@[i]).size
            == b.groups@[i].size,
        forall|i: int| 0 <= i < a.groups@.len() ==> (#[trigger] a.groups@[i]).paths@.len()
            == b.groups@[i].paths@.len(),
        forall|i: int, k: int|
            0 <= i < a.groups@.len() && 0 <= k < a.groups@[i].paths@.len() ==> (
            #[trigger] a.groups@[i].paths@[k])@ == b.groups@[i].paths@[k]@,
{
    assert forall|s: u64| size_occurs(a.groups@, s) <==> size_occurs(b.groups@, s) by {
        if size_occurs(a.groups@, s) {
            let i = choose|i: int| 0 <= i < a.groups@.len() && (#[trigger] a.groups@[i]).size == s;
            assert(group_wf(a.groups@[i]));
            let q = a.groups@[i].paths@[0]@;
            assert(group_contains(a.groups@[i], q)) by {
                assert(a.groups@[i].paths@[0]@ == q);
            }
            assert(a.has_entry(s, q));
            assert(b.has_entry(s, q));
            let w = choose|w: int|
                0 <= w < b.groups@.len() && (#[trigger] b.groups@[w]).size == s && group_contains(
                    b.groups@[w],
                    q,
                );
            assert(size_occurs(b.groups@, s));
        }
        if size_occurs(b.groups@, s) {
            let i = choose|i: int| 0 <= i < b.groups@.len() && (#[trigger] b.groups@[i]).size == s;
            assert(group_wf(b.groups@[i]));
            let q = b.groups@[i].paths@[0]@;
            assert(group_contains(b.groups@[i], q)) by {
                assert(b.groups@[i].paths@[0]@ == q);
            }
            assert(b.has_entry(s, q));
            assert(a.has_entry(s, q));
            let w = choose|w: int|
                0 <= w < a.groups@.len() && (#[trigger] a.groups@[w]).size == s && group_contains(
                    a.groups@[w],
                    q,
                );
            assert(size_occurs(a.groups@, s));
        }
    }
    lemma_sorted_sizes_equal(a.groups@, b.groups@);
    assert forall|i: int| 0 <= i < a.groups@.len() implies (#[trigger] a.groups@[i]).paths@.len()
        == b.groups@[i].paths@.len() by {
        lemma_group_members_equal(a, b, i);
    }
    assert forall|i: int, k: int|
        0 <= i < a.groups@.len() && 0 <= k < a.groups@[i].paths@.len() implies (
    #[trigger] a.groups@[i].paths@[k])@ == b.groups@[i].paths@[k]@ by {
        lemma_group_members_equal(a, b, i);
    }
}

} // verus!
