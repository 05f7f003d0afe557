//! The mount table: which device stands behind which part of the path space.
use crate::text::{chars_of, same_text, starts_with};
use vstd::prelude::*;

verus! {

/// A mount: the paths that begin with `prefix` lie on `target`.
pub struct MountEntry {
    pub prefix: String,
    pub target: String,
}

impl MountEntry {
    /// The length of the prefix in bytes.
    pub open spec fn weight(self) -> nat {
        vstd::utf8::encode_utf8(self.prefix@).len()
    }

    /// The mount stands behind the path: its prefix is not empty and begins the path.
    pub open spec fn covers(self, path: Seq<char>) -> bool {
        self.prefix@.len() > 0 && crate::text::starts(path, self.prefix@)
    }

    /// A copy.
    pub fn copy(&self) -> (r: Self)
        ensures
            r == *self,
    {
        MountEntry { prefix: self.prefix.clone(), target: self.target.clone() }
    }
}

/// The mounts, those with longer prefixes first.
pub struct MountTable {
    pub entries: Vec<MountEntry>,
}

/// The entry `i` has the longest prefix among those that stand behind the path, and is
/// the first with that prefix.
pub open spec fn is_best(entries: Seq<MountEntry>, path: Seq<char>, i: int) -> bool {
    &&& 0 <= i < entries.len()
    &&& entries[i].covers(path)
    &&& forall|j: int|
        0 <= j < entries.len() && (#[trigger] entries[j]).covers(path) ==> entries[j].prefix@.len()
            < entries[i].prefix@.len() || (entries[j].prefix@.len() == entries[i].prefix@.len()
            && i <= j)
}

/// Some entry stands behind the path.
pub open spec fn is_covered(entries: Seq<MountEntry>, path: Seq<char>) -> bool {
    exists|j: int| 0 <= j < entries.len() && (#[trigger] entries[j]).covers(path)
}

/// The entry behind the path with the longest prefix, the first of them.
pub open spec fn best(entries: Seq<MountEntry>, path: Seq<char>) -> int {
    choose|i: int| is_best(entries, path, i)
}

/// There is no more than one best entry.
proof fn lemma_best_unique(entries: Seq<MountEntry>, path: Seq<char>, i: int)
    requires
        is_best(entries, path, i),
    ensures
        best(entries, path) == i,
{
    let k = best(entries, path);
    assert(is_best(entries, path, k));
    assert(entries[k].covers(path) && entries[i].covers(path));
}

/// The path with each run of slashes made one.
pub open spec fn canonical(path: Seq<char>) -> Seq<char>
    decreases path.len(),
{
    if path.len() == 0 {
        path
    } else if path.last() == '/' && path.len() > 1 && path[path.len() - 2] == '/' {
        canonical(path.drop_last())
    } else {
        canonical(path.drop_last()).push(path.last())
    }
}

/// Where a path leads: to the device behind it and, after a colon, where the rest of the
/// path leads; a path without a device behind it is made canonical.
pub open spec fn resolved(entries: Seq<MountEntry>, path: Seq<char>) -> Seq<char>
    decreases path.len(),
{
    if is_covered(entries, path) {
        let m = entries[best(entries, path)];
        if m.covers(path) {
            (m.target@ + ":"@) + resolved(entries, path.skip(m.prefix@.len() as int))
        } else {
            path
        }
    } else {
        canonical(path)
    }
}

/// The entries stand in the order of their prefixes' lengths, the longest first.
pub open spec fn by_weight(entries: Seq<MountEntry>) -> bool {
    forall|i: int, j: int|
        0 <= i < j < entries.len() ==> (#[trigger] entries[i]).weight() >= (
        #[trigger] entries[j]).weight()
}

/// The entry is in the table.
pub open spec fn is_bound(entries: Seq<MountEntry>, pfx: Seq<char>, tgt: Seq<char>) -> bool {
    exists|i: int|
        0 <= i < entries.len() && (#[trigger] entries[i]).prefix@ == pfx && entries[i].target@
            == tgt
}

/// `post` are the mounts once `tgt` is mounted at `pfx`: behind the mounts with prefixes as
/// long or longer, unless it was there already.
pub open spec fn bound(
    pre: Seq<MountEntry>,
    pfx: Seq<char>,
    tgt: Seq<char>,
    post: Seq<MountEntry>,
) -> bool {
    if is_bound(pre, pfx, tgt) {
        post == pre
    } else {
        exists|k: int| 0 <= k <= pre.len() && #[trigger] placed(pre, k, pfx, tgt, post)
    }
}

/// The test for mounts with another prefix.
pub open spec fn other_prefix(pfx: Seq<char>) -> spec_fn(MountEntry) -> bool {
    |m: MountEntry| m.prefix@ != pfx
}

impl MountTable {
    /// An empty table.
    pub fn new() -> (r: Self)
        ensures
            r.entries@.len() == 0,
            by_weight(r.entries@),
    {
        MountTable { entries: Vec::new() }
    }

    /// Mounts `tgt` at `pfx`, behind the mounts with prefixes as long or longer, unless
    /// it is mounted there already.
    pub fn bind(&mut self, pfx: &str, tgt: &str)
        requires
            by_weight(old(self).entries@),
        ensures
            by_weight(final(self).entries@),
            bound(old(self).entries@, pfx@, tgt@, final(self).entries@),
    {
        let mut i: usize = 0;
        while i < self.entries.len()
            invariant
                i <= self.entries@.len(),
                *self == *old(self),
                by_weight(self.entries@),
                forall|j: int|
                    0 <= j < i ==> !((#[trigger] self.entries@[j]).prefix@ == pfx@
                        && self.entries@[j].target@ == tgt@),
            decreases self.entries@.len() - i,
        {
            if same_text(self.entries[i].prefix.as_str(), pfx) && same_text(
                self.entries[i].target.as_str(),
                tgt,
            ) {
                return ;
            }
            i = i + 1;
        }
        let m = MountEntry { prefix: pfx.to_owned(), target: tgt.to_owned() };
        let w: usize = m.prefix.as_str().as_bytes().len();
        let mut k: usize = 0;
        while k < self.entries.len() && self.entries[k].prefix.as_str().as_bytes().len() >= w
            invariant
                k <= self.entries@.len(),
                *self == *old(self),
                w == m.weight(),
                forall|j: int| 0 <= j < k ==> (#[trigger] self.entries@[j]).weight() >= w,
            decreases self.entries@.len() - k,
        {
            k = k + 1;
        }
        self.entries.insert(k, m);
        proof {
            let (a, b) = (old(self).entries@, self.entries@);
            assert(by_weight(b)) by {
                assert forall|x: int, y: int| 0 <= x < y < b.len() implies (
                #[trigger] b[x]).weight() >= (#[trigger] b[y]).weight() by {
                    if y < k {
                        assert(a[x].weight() >= a[y].weight());
                    } else if y == k {
                        assert(a[x].weight() >= w);
                    } else if x == k {
                        assert(b[y] == a[y - 1]);
                        assert(a[k as int].weight() < w);
                        if y - 1 > k {
                            assert(a[k as int].weight() >= a[y - 1].weight());
                        }
                    } else if x < k {
                        assert(b[y] == a[y - 1]);
                        assert(a[x].weight() >= a[y - 1].weight());
                    } else {
                        assert(a[x - 1].weight() >= a[y - 1].weight());
                    }
                }
            }
            assert(b.remove(k as int) =~= a);
            assert(placed(a, k as int, pfx@, tgt@, b));
        }
    }

    /// The entry behind the path with the longest prefix.
    fn find_best(&self, path: &Vec<char>) -> (r: Option<usize>)
        ensures
            match r {
                Some(i) => is_best(self.entries@, path@, i as int),
                None => !is_covered(self.entries@, path@),
            },
    {
        let mut found: Option<usize> = None;
        let mut len: usize = 0;
        let mut i: usize = 0;
        while i < self.entries.len()
            invariant
                i <= self.entries@.len(),
                found is None ==> len == 0 && forall|j: int|
                    0 <= j < i ==> !(#[trigger] self.entries@[j]).covers(path@),
                found is Some ==> found->0 < i && len == self.entries@[found->0 as int].prefix@.len()
                    && self.entries@[found->0 as int].covers(path@) && forall|j: int|
                    0 <= j < i && (#[trigger] self.entries@[j]).covers(path@)
                        ==> self.entries@[j].prefix@.len() < len || (self.entries@[j].prefix@.len()
                        == len && found->0 <= j),
            decreases self.entries@.len() - i,
        {
            let p = chars_of(self.entries[i].prefix.as_str());
            if p.len() > len && starts_with(path, &p) {
                len = p.len();
                found = Some(i);
            }
            i = i + 1;
        }
        found
    }

    /// Where a path leads.
    pub fn resolve(&self, path: &str) -> (r: Result<String, &'static str>)
        ensures
            r is Ok,
            r->Ok_0@ == resolved(self.entries@, path@),
    {
        let v = chars_of(path);
        Ok(self.resolve_chars(&v))
    }

    /// Where a path leads.
    fn resolve_chars(&self, path: &Vec<char>) -> (r: String)
        ensures
            r@ == resolved(self.entries@, path@),
        decreases path@.len(),
    {
        match self.find_best(path) {
            Some(i) => {
                proof {
                    lemma_best_unique(self.entries@, path@, i as int);
                    assert(is_covered(self.entries@, path@)) by {
                        assert(self.entries@[i as int].covers(path@));
                    }
                }
                let p = chars_of(self.entries[i].prefix.as_str());
                let mut rest: Vec<char> = Vec::new();
                let mut k: usize = p.len();
                proof {
                    assert(path@.subrange(k as int, k as int) =~= rest@);
                }
                while k < path.len()
                    invariant
                        p@.len() <= k <= path@.len(),
                        rest@ == path@.subrange(p@.len() as int, k as int),
                    decreases path@.len() - k,
                {
                    rest.push(path[k]);
                    proof {
                        assert(path@.subrange(p@.len() as int, k as int).push(path@[k as int])
                            =~= path@.subrange(p@.len() as int, k + 1));
                    }
                    k = k + 1;
                }
                proof {
                    assert(rest@ =~= path@.skip(p@.len() as int));
                }
                let sub = self.resolve_chars(&rest);
                let mut result = self.entries[i].target.clone();
                result.append(":");
                result.append(sub.as_str());
                result
            },
            None => canonical_of(path),
        }
    }

    /// Takes the mounts with the prefix away, and says whether there were any.
    pub fn unmount(&mut self, pfx: &str) -> (r: bool)
        ensures
            final(self).entries@ == old(self).entries@.filter(other_prefix(pfx@)),
            r == exists|i: int|
                0 <= i < old(self).entries@.len() && (#[trigger] old(self).entries@[i]).prefix@
                    == pfx@,
            by_weight(old(self).entries@) ==> by_weight(final(self).entries@),
    {
        let ghost all = self.entries@;
        let ghost keep = other_prefix(pfx@);
        let ghost mut seen: int = 0;
        let mut gone = false;
        let mut i: usize = 0;
        proof {
            assert(all.take(0).filter(keep) =~= Seq::empty()) by {
                reveal(Seq::filter);
            }
            assert(all =~= all.take(0).filter(keep) + all.skip(0));
        }
        while i < self.entries.len()
            invariant
                keep == other_prefix(pfx@),
                0 <= seen <= all.len(),
                i == all.take(seen).filter(keep).len(),
                self.entries@ == all.take(seen).filter(keep) + all.skip(seen),
                gone == exists|j: int| 0 <= j < seen && (#[trigger] all[j]).prefix@ == pfx@,
            decreases all.len() - seen,
        {
            proof {
                crate::tables::lemma_filter_take(all, seen, keep);
                crate::tables::lemma_shift(all.take(seen).filter(keep), all, seen);
            }
            if same_text(self.entries[i].prefix.as_str(), pfx) {
                proof {
                    assert(all[seen].prefix@ == pfx@);
                }
                let _ = self.entries.remove(i);
                gone = true;
            } else {
                i = i + 1;
            }
            proof {
                seen = seen + 1;
            }
        }
        proof {
            assert(all.take(seen) =~= all);
            assert(self.entries@ =~= all.filter(keep));
            if by_weight(all) {
                lemma_filter_by_weight(all, keep);
            }
        }
        gone
    }

    /// The mounts, each with its prefix and its target.
    pub fn list_mounts(&self) -> (r: Vec<(String, String)>)
        ensures
            r@.len() == self.entries@.len(),
            forall|i: int|
                0 <= i < r@.len() ==> (#[trigger] r@[i]).0 == self.entries@[i].prefix && r@[i].1
                    == self.entries@[i].target,
    {
        let mut r: Vec<(String, String)> = Vec::new();
        let mut i: usize = 0;
        while i < self.entries.len()
            invariant
                i <= self.entries@.len(),
                r@.len() == i,
                forall|j: int|
                    0 <= j < i ==> (#[trigger] r@[j]).0 == self.entries@[j].prefix && r@[j].1
                        == self.entries@[j].target,
            decreases self.entries@.len() - i,
        {
            r.push((self.entries[i].prefix.clone(), self.entries[i].target.clone()));
            i = i + 1;
        }
        r
    }

    /// The mount behind the path with the longest prefix.
    pub fn find_mount(&self, path: &str) -> (r: Option<MountEntry>)
        ensures
            match r {
                Some(m) => is_covered(self.entries@, path@) && m == self.entries@[best(
                    self.entries@,
                    path@,
                )],
                None => !is_covered(self.entries@, path@),
            },
    {
        let v = chars_of(path);
        match self.find_best(&v) {
            None => None,
            Some(i) => {
                proof {
                    lemma_best_unique(self.entries@, path@, i as int);
                    assert(self.entries@[i as int].covers(path@));
                }
                Some(self.entries[i].copy())
            },
        }
    }

    /// The number of mounts.
    pub fn mount_count(&self) -> (r: usize)
        ensures
            r == self.entries@.len(),
    {
        self.entries.len()
    }

    /// Whether something is mounted at the prefix.
    pub fn has_prefix(&self, pfx: &str) -> (r: bool)
        ensures
            r == exists|i: int|
                0 <= i < self.entries@.len() && (#[trigger] self.entries@[i]).prefix@ == pfx@,
    {
        let mut i: usize = 0;
        while i < self.entries.len()
            invariant
                i <= self.entries@.len(),
                forall|j: int| 0 <= j < i ==> (#[trigger] self.entries@[j]).prefix@ != pfx@,
            decreases self.entries@.len() - i,
        {
            if same_text(self.entries[i].prefix.as_str(), pfx) {
                return true;
            }
            i = i + 1;
        }
        false
    }
}

/// `post` is `pre` with the mount put in at `k`, behind those with prefixes as long or
/// longer and before the others.
pub open spec fn placed(
    pre: Seq<MountEntry>,
    k: int,
    pfx: Seq<char>,
    tgt: Seq<char>,
    post: Seq<MountEntry>,
) -> bool {
    &&& post.len() == pre.len() + 1
    &&& post[k].prefix@ == pfx
    &&& post[k].target@ == tgt
    &&& post.remove(k) == pre
    &&& forall|j: int| 0 <= j < k ==> (#[trigger] pre[j]).weight() >= post[k].weight()
    &&& forall|j: int| k <= j < pre.len() ==> (#[trigger] pre[j]).weight() < post[k].weight()
}

/// The characters with each run of slashes made one.
fn canonical_of(path: &Vec<char>) -> (r: String)
    ensures
        r@ == canonical(path@),
{
    let mut r = String::new();
    let mut i: usize = 0;
    proof {
        assert(path@.take(0) =~= r@);
    }
    while i < path.len()
        invariant
            i <= path@.len(),
            r@ == canonical(path@.take(i as int)),
        decreases path@.len() - i,
    {
        let c: char = path[i];
        proof {
            let t = path@.take(i + 1);
            assert(t.drop_last() =~= path@.take(i as int));
            assert(t.last() == c);
        }
        let again = c == '/' && i > 0 && path[i - 1] == '/';
        if !again {
            r.push(c);
        }
        i = i + 1;
    }
    proof {
        assert(path@.take(i as int) =~= path@);
    }
    r
}

/// What is left of an ordered table is ordered.
proof fn lemma_filter_by_weight(s: Seq<MountEntry>, p: spec_fn(MountEntry) -> bool)
    requires
        by_weight(s),
    ensures
        by_weight(s.filter(p)),
    decreases s.len(),
{
    reveal(Seq::filter);
    if s.len() > 0 {
        let t = s.drop_last();
        assert(by_weight(t)) by {
            assert forall|i: int, j: int| 0 <= i < j < t.len() implies (
            #[trigger] t[i]).weight() >= (#[trigger] t[j]).weight() by {
                assert(s[i].weight() >= s[j].weight());
            }
        }
        lemma_filter_by_weight(t, p);
        if p(s.last()) {
            let f = t.filter(p);
            let g = f.push(s.last());
            assert forall|i: int, j: int| 0 <= i < j < g.len() implies (
            #[trigger] g[i]).weight() >= (#[trigger] g[j]).weight() by {
                if j == f.len() {
                    assert(f.contains(f[i]));
                    crate::tables::lemma_filter_holds(t, p, f[i]);
                    let k = choose|k: int| 0 <= k < t.len() && t[k] == f[i];
                    assert(s[k].weight() >= s[s.len() - 1].weight());
                } else {
                    assert(f[i].weight() >= f[j].weight());
                }
            }
        }
    }
}

/// A path behind which nothing is mounted keeps its text, but for runs of slashes.
pub proof fn law_canonical_has_no_double_slash(path: Seq<char>)
    ensures
        forall|i: int|
            0 <= i < canonical(path).len() - 1 ==> !(#[trigger] canonical(path)[i] == '/'
                && canonical(path)[i + 1] == '/'),
        path.len() > 0 ==> canonical(path).len() > 0 && canonical(path).last() == path.last(),
        canonical(canonical(path)) == canonical(path),
    decreases path.len(),
{
    if path.len() > 0 {
        let t = path.drop_last();
        law_canonical_has_no_double_slash(t);
        let c = canonical(t);
        if path.last() == '/' && path.len() > 1 && path[path.len() - 2] == '/' {
            assert(t.last() == '/');
        } else {
            let p = c.push(path.last());
            assert forall|i: int| 0 <= i < p.len() - 1 implies !(#[trigger] p[i] == '/' && p[i + 1]
                == '/') by {
                if i < c.len() - 1 {
                    assert(!(c[i] == '/' && c[i + 1] == '/'));
                } else {
                    assert(p[i] == c.last());
                    assert(c.last() == t.last());
                }
            }
            assert(p.drop_last() =~= c);
            if p.len() > 1 {
                assert(p[p.len() - 2] == c.last());
            }
        }
    }
}

/// Of two mounts behind a path, the one with the longer prefix counts.
pub proof fn law_longest_prefix_counts(
    entries: Seq<MountEntry>,
    path: Seq<char>,
    i: int,
    j: int,
)
    requires
        is_best(entries, path, i),
        0 <= j < entries.len(),
        entries[j].covers(path),
    ensures
        entries[j].prefix@.len() <= entries[i].prefix@.len(),
        resolved(entries, path) == entries[i].target@ + ":"@ + resolved(
            entries,
            path.skip(entries[i].prefix@.len() as int),
        ),
{
    lemma_best_unique(entries, path, i);
}

/// What was mounted is found, and what was taken away no more.
pub proof fn law_bind_then_unmount(
    a: Seq<MountEntry>,
    k: int,
    pfx: Seq<char>,
    tgt: Seq<char>,
    b: Seq<MountEntry>,
)
    requires
        0 <= k <= a.len(),
        placed(a, k, pfx, tgt, b),
    ensures
        is_bound(b, pfx, tgt),
        !is_bound(b.filter(other_prefix(pfx)), pfx, tgt),
        a.filter(other_prefix(pfx)) == b.filter(other_prefix(pfx)),
{
    let p = other_prefix(pfx);
    assert(b[k].prefix@ == pfx && b[k].target@ == tgt);
    if is_bound(b.filter(p), pfx, tgt) {
        let f = b.filter(p);
        let i = choose|i: int|
            0 <= i < f.len() && (#[trigger] f[i]).prefix@ == pfx && f[i].target@ == tgt;
        assert(f.contains(f[i]));
        crate::tables::lemma_filter_holds(b, p, f[i]);
    }
    let (front, back) = (b.take(k), b.skip(k + 1));
    assert(b =~= front.push(b[k]) + back);
    assert(a =~= front + back);
    Seq::filter_distributes_over_add(front.push(b[k]), back, p);
    Seq::filter_distributes_over_add(front, back, p);
    assert(front.push(b[k]).filter(p) == front.filter(p)) by {
        reveal(Seq::filter);
        assert(front.push(b[k]).drop_last() =~= front);
    }
}

/// Where nothing is mounted a path stays what it is, but for repeated slashes.
pub proof fn law_no_mount_leaves_the_path(entries: Seq<MountEntry>, path: Seq<char>)
    requires
        entries.len() == 0,
    ensures
        resolved(entries, path) == canonical(path),
        (forall|i: int, j: int|
            #![trigger path[i], path[j]]
            0 <= i && j == i + 1 && j < path.len() ==> !(path[i] == '/' && path[j] == '/'))
            ==> resolved(entries, path) == path,
{
    if forall|i: int, j: int|
        #![trigger path[i], path[j]]
        0 <= i && j == i + 1 && j < path.len() ==> !(path[i] == '/' && path[j] == '/') {
        lemma_canonical_stays(path);
    }
}

proof fn lemma_canonical_stays(path: Seq<char>)
    requires
        forall|i: int, j: int|
            #![trigger path[i], path[j]]
            0 <= i && j == i + 1 && j < path.len() ==> !(path[i] == '/' && path[j] == '/'),
    ensures
        canonical(path) == path,
    decreases path.len(),
{
    if path.len() > 0 {
        let t = path.drop_last();
        assert forall|i: int, j: int|
            #![trigger t[i], t[j]]
            0 <= i && j == i + 1 && j < t.len() implies !(t[i] == '/' && t[j] == '/') by {
            assert(t[i] == path[i] && t[j] == path[j]);
        }
        lemma_canonical_stays(t);
        if path.len() > 1 {
            assert(!(path[path.len() - 2] == '/' && path[path.len() - 1] == '/'));
        }
        assert(t.push(path.last()) =~= path);
    }
}

/// A mount covers the paths that begin with its prefix and no others.
pub proof fn law_mount_covers_its_prefix(m: MountEntry, rest: Seq<char>, path: Seq<char>)
    ensures
        m.prefix@.len() > 0 ==> m.covers(m.prefix@ + rest),
        m.covers(path) ==> m.prefix@.len() > 0 && m.prefix@.len() <= path.len() && path.take(
            m.prefix@.len() as int,
        ) == m.prefix@,
{
    let p = m.prefix@ + rest;
    assert(p.take(m.prefix@.len() as int) =~= m.prefix@);
    assert(p.subrange(0, m.prefix@.len() as int) =~= m.prefix@);
    if m.covers(path) {
        assert(path.take(m.prefix@.len() as int) =~= m.prefix@);
    }
}

/// Binding adds a mount, unless it is there already, and keeps all others.
pub proof fn law_bind_keeps_the_others(
    a: Seq<MountEntry>,
    pfx: Seq<char>,
    tgt: Seq<char>,
    b: Seq<MountEntry>,
    m: MountEntry,
)
    requires
        bound(a, pfx, tgt, b),
    ensures
        exists|i: int|
            0 <= i < b.len() && (#[trigger] b[i]).prefix@ == pfx && b[i].target@ == tgt,
        a.contains(m) ==> b.contains(m),
        b.contains(m) && !(m.prefix@ == pfx && m.target@ == tgt) ==> a.contains(m),
        b.len() <= a.len() + 1,
        (exists|i: int|
            0 <= i < a.len() && (#[trigger] a[i]).prefix@ == pfx && a[i].target@ == tgt) ==> b == a,
{
    if is_bound(a, pfx, tgt) {
    } else {
        let k = choose|k: int| 0 <= k <= a.len() && #[trigger] placed(a, k, pfx, tgt, b);
        assert(b[k].prefix@ == pfx && b[k].target@ == tgt);
        if a.contains(m) {
            let i = choose|i: int| 0 <= i < a.len() && a[i] == m;
            if i < k {
                assert(b.remove(k)[i] == b[i]);
            } else {
                assert(b.remove(k)[i] == b[i + 1]);
            }
        }
        if b.contains(m) && !(m.prefix@ == pfx && m.target@ == tgt) {
            let i = choose|i: int| 0 <= i < b.len() && b[i] == m;
            if i < k {
                assert(b.remove(k)[i] == m);
            } else {
                assert(b.remove(k)[i - 1] == m);
            }
        }
    }
}

/// Unmounting takes away every mount of the prefix and keeps all others.
pub proof fn law_unmount_keeps_the_others(a: Seq<MountEntry>, pfx: Seq<char>, m: MountEntry)
    ensures
        a.filter(other_prefix(pfx)).contains(m) <==> a.contains(m) && m.prefix@ != pfx,
{
    crate::tables::lemma_filter_holds(a, other_prefix(pfx), m);
}

/// Of the mounts that cover a path, the one with the longest prefix is found, and of equally
/// long ones the first.
pub proof fn law_best_mount_is_found(entries: Seq<MountEntry>, path: Seq<char>, j: int)
    requires
        0 <= j < entries.len(),
        entries[j].covers(path),
    ensures
        ({
            let i = best(entries, path);
            &&& 0 <= i < entries.len()
            &&& entries[i].covers(path)
            &&& entries[j].prefix@.len() <= entries[i].prefix@.len()
            &&& entries[j].prefix@.len() == entries[i].prefix@.len() ==> i <= j
        }),
{
    let i = lemma_some_best(entries, path, entries.len() as int, j);
    assert(is_best(entries, path, i));
}

proof fn lemma_some_best(entries: Seq<MountEntry>, path: Seq<char>, n: int, j: int) -> (i: int)
    requires
        0 <= j < n <= entries.len(),
        entries[j].covers(path),
    ensures
        0 <= i < n,
        entries[i].covers(path),
        forall|k: int|
            0 <= k < n && (#[trigger] entries[k]).covers(path) ==> entries[k].prefix@.len()
                < entries[i].prefix@.len() || (entries[k].prefix@.len() == entries[i].prefix@.len()
                && i <= k),
    decreases n,
{
    if exists|k: int| 0 <= k < n - 1 && (#[trigger] entries[k]).covers(path) {
        let k = choose|k: int| 0 <= k < n - 1 && (#[trigger] entries[k]).covers(path);
        let i = lemma_some_best(entries, path, n - 1, k);
        if entries[n - 1].covers(path) && entries[n - 1].prefix@.len() > entries[i].prefix@.len() {
            n - 1
        } else {
            i
        }
    } else {
        assert(j == n - 1);
        j
    }
}

} // verus!
