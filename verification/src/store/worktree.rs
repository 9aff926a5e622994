//! Laying down a working tree out of the content store.
//!
//! A working tree is a directory of links into the store, so ten trees of the same revision cost
//! one copy of the bytes. Switching a tree to another revision touches only the files whose content
//! differs: the work is proportional to the change.

use crate::identity::lemma_digest_is_its_bytes;
use crate::identity::Digest;
use crate::maps::NameMap;
use crate::names::ascending;
use crate::names::before;
use crate::names::is_before;
use crate::names::lemma_before_asymmetric;
use crate::names::lemma_before_total;
use crate::names::lemma_before_transitive;
use crate::names::lemma_listed;
use crate::names::listed;
use crate::text::texts;
use vstd::prelude::*;

verus! {

/// What a tree contains: workspace-relative path to content hash.
pub struct TreeSpec {
    pub files: Vec<(String, Digest)>,
}

/// The files of a tree, in the order in which they were named.
pub open spec fn file_views(v: Seq<(String, Digest)>) -> Seq<(Seq<char>, Digest)> {
    v.map_values(|f: (String, Digest)| (f.0@, f.1))
}

impl Default for TreeSpec {
    fn default() -> (r: Self)
        ensures
            r.files@.len() == 0,
    {
        TreeSpec { files: Vec::new() }
    }
}

impl TreeSpec {
    pub fn add(&mut self, path: &str, content: Digest)
        ensures
            file_views(final(self).files@) == file_views(old(self).files@).push((path@, content)),
    {
        let ghost was = file_views(self.files@);
        self.files.push((path.to_owned(), content));
        assert(file_views(self.files@) =~= was.push((path@, content)));
    }

    pub fn len(&self) -> (r: usize)
        ensures
            r == self.files@.len(),
    {
        self.files.len()
    }

    pub fn is_empty(&self) -> (r: bool)
        ensures
            r == (self.files@.len() == 0),
    {
        self.files.len() == 0
    }
}

/// What materializing cost, so the saving is a number rather than a claim.
#[derive(Clone, Copy, Debug, PartialEq, Eq, Structural)]
pub struct MaterializeStats {
    pub files: usize,
    /// Bytes the tree appears to contain.
    pub logical_bytes: u64,
    /// Files that were hard linked to content already in the store.
    pub linked: usize,
    /// Files that had to be copied because the filesystem refused a link.
    pub copied: usize,
    /// Files already present with the right content, left alone.
    pub unchanged: usize,
    /// Files removed because the new tree does not contain them.
    pub removed: usize,
}

impl Default for MaterializeStats {
    fn default() -> (r: Self)
        ensures
            r == (MaterializeStats {
                files: 0,
                logical_bytes: 0,
                linked: 0,
                copied: 0,
                unchanged: 0,
                removed: 0,
            }),
    {
        MaterializeStats {
            files: 0,
            logical_bytes: 0,
            linked: 0,
            copied: 0,
            unchanged: 0,
            removed: 0,
        }
    }
}

impl MaterializeStats {
    /// Bytes actually written to this tree, at the average size of its files. A fully shared tree
    /// writes none.
    pub fn bytes_written(&self) -> (r: u64)
        requires
            self.files > 0 ==> self.logical_bytes / (self.files as u64) * self.copied <= u64::MAX,
        ensures
            r == if self.files == 0 {
                0
            } else {
                self.logical_bytes / (self.files as u64) * self.copied
            },
    {
        if self.files == 0 {
            return 0;
        }
        let per_file: u64 = self.logical_bytes / self.files as u64;
        proof {
            let (p, c) = (per_file as int, self.copied as int);
            assert(0 <= p * c) by (nonlinear_arith)
                requires
                    0 <= p,
                    0 <= c,
            ;
        }
        per_file * self.copied as u64
    }
}

/// What a tree is to contain. Of two entries for one path the later counts.
pub open spec fn wanted(f: Seq<(Seq<char>, Digest)>) -> Map<Seq<char>, Digest>
    decreases f.len(),
{
    if f.len() == 0 {
        Map::empty()
    } else {
        wanted(f.drop_last()).insert(f.last().0, f.last().1)
    }
}

/// The paths to write: those that the tree lacks, or holds with other content.
pub open spec fn to_write(
    want: Map<Seq<char>, Digest>,
    have: Map<Seq<char>, Option<Digest>>,
) -> Set<Seq<char>> {
    Set::new(
        |p: Seq<char>|
            want.contains_key(p) && !(have.contains_key(p) && have[p] == Some(want[p])),
    )
}

/// The paths to remove: those that are not wanted.
pub open spec fn to_remove(
    want: Map<Seq<char>, Digest>,
    have: Map<Seq<char>, Option<Digest>>,
) -> Set<Seq<char>> {
    Set::new(|p: Seq<char>| have.contains_key(p) && !want.contains_key(p))
}

/// What a tree contains when it is right.
pub open spec fn in_place(want: Map<Seq<char>, Digest>) -> Map<Seq<char>, Option<Digest>> {
    want.map_values(|d: Digest| Some(d))
}

/// What a tree contains once some paths are removed and some written.
pub open spec fn laid_down(
    want: Map<Seq<char>, Digest>,
    have: Map<Seq<char>, Option<Digest>>,
) -> Map<Seq<char>, Option<Digest>> {
    have.remove_keys(to_remove(want, have)).union_prefer_right(
        in_place(want).restrict(to_write(want, have)),
    )
}

/// Laying a tree down leaves exactly what was wanted, whatever was there before.
pub proof fn law_a_tree_is_what_was_wanted(
    want: Map<Seq<char>, Digest>,
    have: Map<Seq<char>, Option<Digest>>,
)
    ensures
        laid_down(want, have) == in_place(want),
{
    assert(laid_down(want, have) =~= in_place(want));
}

/// Switching revisions touches only what differs: a file that is there with the content wanted is
/// neither written nor removed.
pub proof fn law_what_is_right_is_left_alone(
    want: Map<Seq<char>, Digest>,
    have: Map<Seq<char>, Option<Digest>>,
    p: Seq<char>,
)
    requires
        want.contains_key(p),
        have.contains_key(p),
        have[p] == Some(want[p]),
    ensures
        !to_write(want, have).contains(p),
        !to_remove(want, have).contains(p),
{
}

/// How a tree is brought to what is wanted.
pub struct TreePlan {
    /// What to write, by path.
    pub write: Vec<(String, Digest)>,
    /// How many files are right as they are.
    pub unchanged: usize,
    /// What to remove.
    pub remove: Vec<String>,
}

/// The paths of a run of writes.
pub open spec fn write_paths(v: Seq<(String, Digest)>) -> Seq<Seq<char>> {
    v.map_values(|f: (String, Digest)| f.0@)
}

impl TreeSpec {
    /// What the tree is to contain.
    pub fn wanted(&self) -> (r: NameMap<Digest>)
        ensures
            r.wf(),
            r@ == wanted(file_views(self.files@)),
    {
        let mut m: NameMap<Digest> = NameMap::empty();
        let ghost all = file_views(self.files@);
        let mut i: usize = 0;
        assert(all.take(0) =~= Seq::<(Seq<char>, Digest)>::empty());
        while i < self.files.len()
            invariant
                i <= self.files@.len(),
                all == file_views(self.files@),
                m.wf(),
                m@ == wanted(all.take(i as int)),
            decreases self.files@.len() - i,
        {
            let ghost nn = all.take(i + 1);
            assert(nn.drop_last() =~= all.take(i as int));
            assert(nn.last() == (self.files@[i as int].0@, self.files@[i as int].1));
            m.insert(self.files[i].0.clone(), self.files[i].1);
            i += 1;
        }
        assert(all.take(i as int) =~= all);
        m
    }
}

/// Does one digest come before another, byte by byte?
pub open spec fn digest_before(a: Seq<u8>, b: Seq<u8>) -> bool
    decreases a.len(),
{
    if b.len() == 0 {
        false
    } else if a.len() == 0 {
        true
    } else if a[0] != b[0] {
        a[0] < b[0]
    } else {
        digest_before(a.skip(1), b.skip(1))
    }
}

fn is_digest_before(a: &Digest, b: &Digest) -> (r: bool)
    ensures
        r == digest_before(a@, b@),
{
    let x = a.as_bytes();
    let y = b.as_bytes();
    let mut i: usize = 0;
    assert(a@.skip(0) =~= a@);
    assert(b@.skip(0) =~= b@);
    while i < 32
        invariant
            i <= 32,
            x@ == a@,
            y@ == b@,
            a@.len() == 32,
            b@.len() == 32,
            digest_before(a@, b@) == digest_before(a@.skip(i as int), b@.skip(i as int)),
        decreases 32 - i,
    {
        if x[i] != y[i] {
            return x[i] < y[i];
        }
        assert(a@.skip(i as int).skip(1) =~= a@.skip(i + 1));
        assert(b@.skip(i as int).skip(1) =~= b@.skip(i + 1));
        i += 1;
    }
    false
}

/// Does one file come before another, by path and then by content?
pub open spec fn file_before(a: (Seq<char>, Digest), b: (Seq<char>, Digest)) -> bool {
    before(a.0, b.0) || a.0 == b.0 && digest_before(a.1@, b.1@)
}

/// Files with one more, behind those that it does not come before.
pub open spec fn filed(s: Seq<(Seq<char>, Digest)>, f: (Seq<char>, Digest)) -> Seq<
    (Seq<char>, Digest),
>
    decreases s.len(),
{
    if s.len() == 0 || !file_before(f, s.last()) {
        s.push(f)
    } else {
        filed(s.drop_last(), f).push(s.last())
    }
}

/// Files in order.
pub open spec fn arranged(s: Seq<(Seq<char>, Digest)>) -> Seq<(Seq<char>, Digest)>
    decreases s.len(),
{
    if s.len() == 0 {
        Seq::empty()
    } else {
        filed(arranged(s.drop_last()), s.last())
    }
}

/// Does no path come after a later one?
pub open spec fn by_path(s: Seq<(Seq<char>, Digest)>) -> bool {
    forall|i: int, j: int|
        0 <= i <= j < s.len() ==> !before((#[trigger] s[j]).0, (#[trigger] s[i]).0)
}

proof fn lemma_filed_at(s: Seq<(Seq<char>, Digest)>, f: (Seq<char>, Digest), i: int)
    requires
        0 <= i <= s.len(),
        i > 0 ==> !file_before(f, s[i - 1]),
        forall|k: int| i <= k < s.len() ==> #[trigger] file_before(f, s[k]),
    ensures
        filed(s, f) == s.insert(i, f),
    decreases s.len(),
{
    if i == s.len() {
        assert(s.insert(i, f) =~= s.push(f));
    } else {
        assert(file_before(f, s[s.len() - 1]));
        lemma_filed_at(s.drop_last(), f, i);
        assert(s.drop_last().insert(i, f).push(s.last()) =~= s.insert(i, f));
    }
}

proof fn lemma_filed(s: Seq<(Seq<char>, Digest)>, f: (Seq<char>, Digest))
    requires
        by_path(s),
    ensures
        by_path(filed(s, f)),
        filed(s, f).len() == s.len() + 1,
        filed(s, f).to_multiset() == s.to_multiset().insert(f),
        filed(s, f).last() == f || s.len() > 0 && filed(s, f).last() == s.last(),
    decreases s.len(),
{
    broadcast use vstd::seq_lib::group_to_multiset_ensures;

    let base = if s.len() == 0 || !file_before(f, s.last()) {
        s
    } else {
        lemma_filed(s.drop_last(), f);
        assert(s =~= s.drop_last().push(s.last()));
        filed(s.drop_last(), f)
    };
    let top = if s.len() == 0 || !file_before(f, s.last()) {
        f
    } else {
        s.last()
    };
    assert(filed(s, f) == base.push(top));
    assert forall|i: int, j: int| 0 <= i <= j < base.push(top).len() implies !before(
        (#[trigger] base.push(top)[j]).0,
        (#[trigger] base.push(top)[i]).0,
    ) by {
        let a = base.push(top)[i].0;
        let t = top.0;
        if j == base.len() {
            if before(t, a) {
                if i == j {
                    lemma_before_asymmetric(t, t);
                } else {
                    let m = base.last().0;
                    assert(!before(base[base.len() - 1].0, base[i].0));
                    lemma_before_total(m, a);
                    // What is at the end is not before anything in front of it.
                    if m == a {
                    } else {
                        lemma_before_transitive(t, a, m);
                    }
                    assert(before(t, m));
                    if top == f {
                        lemma_before_total(f.0, s.last().0);
                    } else if base.last() == f {
                        lemma_before_asymmetric(t, m);
                        lemma_before_asymmetric(m, m);
                    } else {
                        let d = s.drop_last();
                        assert(!before(s[s.len() - 1].0, s[d.len() - 1].0));
                    }
                }
            }
        }
    }
}

/// Arranging a tree keeps its files and puts them in the order of their paths.
pub proof fn law_an_arranged_tree_is_in_path_order(s: Seq<(Seq<char>, Digest)>)
    ensures
        by_path(arranged(s)),
        arranged(s).len() == s.len(),
        arranged(s).to_multiset() == s.to_multiset(),
    decreases s.len(),
{
    broadcast use vstd::seq_lib::group_to_multiset_ensures;

    if s.len() > 0 {
        law_an_arranged_tree_is_in_path_order(s.drop_last());
        lemma_filed(arranged(s.drop_last()), s.last());
        assert(s =~= s.drop_last().push(s.last()));
    } else {
        assert(arranged(s) =~= s);
    }
}

fn is_file_before(a: &(String, Digest), b: &(String, Digest)) -> (r: bool)
    ensures
        r == file_before((a.0@, a.1), (b.0@, b.1)),
{
    if is_before(a.0.as_str(), b.0.as_str()) {
        return true;
    }
    if is_before(b.0.as_str(), a.0.as_str()) {
        proof {
            lemma_before_asymmetric(b.0@, a.0@);
            if a.0@ == b.0@ {
                lemma_before_asymmetric(a.0@, a.0@);
            }
        }
        return false;
    }
    proof {
        lemma_before_total(a.0@, b.0@);
    }
    is_digest_before(&a.1, &b.1)
}

impl TreeSpec {
    /// Puts the files in order, by path and then by content.
    pub fn arrange(&mut self)
        ensures
            file_views(final(self).files@) == arranged(file_views(old(self).files@)),
    {
        let ghost all = file_views(self.files@);
        let mut out: Vec<(String, Digest)> = Vec::new();
        let mut i: usize = 0;
        assert(file_views(out@) =~= arranged(all.take(0)));
        while i < self.files.len()
            invariant
                i <= self.files@.len(),
                all == file_views(self.files@),
                file_views(out@) == arranged(all.take(i as int)),
            decreases self.files@.len() - i,
        {
            let ghost nn = all.take(i + 1);
            assert(nn.drop_last() =~= all.take(i as int));
            assert(nn.last() == (self.files@[i as int].0@, self.files@[i as int].1));
            let f = (self.files[i].0.clone(), self.files[i].1);
            let ghost fv = (f.0@, f.1);
            let ghost was = file_views(out@);
            let mut k: usize = out.len();
            while k > 0 && is_file_before(&f, &out[k - 1])
                invariant
                    k <= out@.len(),
                    was == file_views(out@),
                    fv == (f.0@, f.1),
                    forall|j: int| k <= j < was.len() ==> #[trigger] file_before(fv, was[j]),
                decreases k,
            {
                assert(was[k - 1] == (out@[k - 1].0@, out@[k - 1].1));
                k -= 1;
            }
            proof {
                if k > 0 {
                    assert(was[k - 1] == (out@[k - 1].0@, out@[k - 1].1));
                }
                lemma_filed_at(was, fv, k as int);
            }
            out.insert(k, f);
            assert(file_views(out@) =~= was.insert(k as int, fv));
            i += 1;
        }
        assert(all.take(i as int) =~= all);
        self.files = out;
    }
}

/// The wanted files that are not right, in order.
fn list_writes(want: &NameMap<Digest>, have: &NameMap<Option<Digest>>) -> (r: Vec<(String, Digest)>)
    requires
        want.wf(),
        have.wf(),
    ensures
        write_paths(r@) == listed(to_write(want@, have@)),
        r@.len() <= want.names().len(),
        forall|i: int| 0 <= i < r@.len() ==> (#[trigger] r@[i]).1 == want@[r@[i].0@],
{
    let ghost ks = want.names();
    let ghost set = to_write(want@, have@);
    let mut out: Vec<(String, Digest)> = Vec::new();
    let mut i: usize = 0;
    while i < want.entries.len()
        invariant
            i <= want.entries@.len(),
            want.wf(),
            have.wf(),
            ks == want.names(),
            set == to_write(want@, have@),
            out@.len() <= i,
            ascending(write_paths(out@)),
            forall|x: Seq<char>| #[trigger]
                write_paths(out@).contains(x) <==> ks.take(i as int).contains(x) && set.contains(x),
            forall|k: int| 0 <= k < out@.len() ==> (#[trigger] out@[k]).1 == want@[out@[k].0@],
        decreases want.entries@.len() - i,
    {
        let e = &want.entries[i];
        let ghost was = write_paths(out@);
        proof {
            want.lemma_at(i as int);
            assert(ks[i as int] == e.0@);
        }
        let right = match have.get(e.0.as_str()) {
            Some(Some(d)) => *d == e.1,
            _ => false,
        };
        proof {
            if have@.contains_key(e.0@) && right {
                lemma_digest_is_its_bytes(have@[e.0@]->0, e.1);
            }
            assert(right == !set.contains(e.0@));
        }
        if !right {
            out.push((e.0.clone(), e.1));
            assert(write_paths(out@) =~= was.push(e.0@));
        }
        proof {
            let nn = ks.take(i + 1);
            assert(nn =~= ks.take(i as int).push(e.0@));
            let now = write_paths(out@);
            assert forall|x: Seq<char>| #[trigger] now.contains(x) <==> nn.contains(x)
                && set.contains(x) by {
                let pre = ks.take(i as int);
                assert(nn.contains(x) <==> pre.contains(x) || x == e.0@) by {
                    if pre.contains(x) {
                        let k = choose|k: int| 0 <= k < pre.len() && pre[k] == x;
                        assert(nn[k] == x);
                    }
                    assert(nn[i as int] == e.0@);
                }
                assert(was.contains(x) <==> pre.contains(x) && set.contains(x));
                if !right {
                    if was.contains(x) {
                        let k = choose|k: int| 0 <= k < was.len() && was[k] == x;
                        assert(now[k] == x);
                    }
                    assert(now[was.len() as int] == e.0@);
                    if now.contains(x) {
                        let k = choose|k: int| 0 <= k < now.len() && now[k] == x;
                        if k < was.len() {
                            assert(was[k] == x);
                        }
                    }
                }
            }
            assert(ascending(now)) by {
                assert forall|a: int, b: int| 0 <= a < b < now.len() implies before(
                    #[trigger] now[a],
                    #[trigger] now[b],
                ) by {
                    if b == was.len() {
                        assert(was.contains(now[a]));
                        let pre = ks.take(i as int);
                        let k = choose|k: int| 0 <= k < pre.len() && pre[k] == now[a];
                        assert(before(ks[k], ks[i as int]));
                    } else {
                        assert(now[a] == was[a] && now[b] == was[b]);
                    }
                }
            }
        }
        i += 1;
    }
    proof {
        assert(ks.take(i as int) =~= ks);
        assert forall|x: Seq<char>| #[trigger] write_paths(out@).contains(x) <==> set.contains(
            x,
        ) by {}
        lemma_listed(write_paths(out@), set);
    }
    out
}

/// The files that are not wanted, in order.
fn list_removals(want: &NameMap<Digest>, have: &NameMap<Option<Digest>>) -> (r: Vec<String>)
    requires
        want.wf(),
        have.wf(),
    ensures
        texts(r@) == listed(to_remove(want@, have@)),
{
    let ghost ks = have.names();
    let ghost set = to_remove(want@, have@);
    let mut out: Vec<String> = Vec::new();
    let mut i: usize = 0;
    while i < have.entries.len()
        invariant
            i <= have.entries@.len(),
            want.wf(),
            have.wf(),
            ks == have.names(),
            set == to_remove(want@, have@),
            ascending(texts(out@)),
            forall|x: Seq<char>| #[trigger]
                texts(out@).contains(x) <==> ks.take(i as int).contains(x) && set.contains(x),
        decreases have.entries@.len() - i,
    {
        let e = &have.entries[i];
        let ghost was = texts(out@);
        proof {
            have.lemma_at(i as int);
            assert(ks[i as int] == e.0@);
        }
        let gone = !want.contains_key(e.0.as_str());
        if gone {
            out.push(e.0.clone());
            assert(texts(out@) =~= was.push(e.0@));
        }
        proof {
            let nn = ks.take(i + 1);
            assert(nn =~= ks.take(i as int).push(e.0@));
            let now = texts(out@);
            assert forall|x: Seq<char>| #[trigger] now.contains(x) <==> nn.contains(x)
                && set.contains(x) by {
                let pre = ks.take(i as int);
                assert(nn.contains(x) <==> pre.contains(x) || x == e.0@) by {
                    if pre.contains(x) {
                        let k = choose|k: int| 0 <= k < pre.len() && pre[k] == x;
                        assert(nn[k] == x);
                    }
                    assert(nn[i as int] == e.0@);
                }
                assert(was.contains(x) <==> pre.contains(x) && set.contains(x));
                if gone {
                    if was.contains(x) {
                        let k = choose|k: int| 0 <= k < was.len() && was[k] == x;
                        assert(now[k] == x);
                    }
                    assert(now[was.len() as int] == e.0@);
                    if now.contains(x) {
                        let k = choose|k: int| 0 <= k < now.len() && now[k] == x;
                        if k < was.len() {
                            assert(was[k] == x);
                        }
                    }
                }
            }
            assert(ascending(now)) by {
                assert forall|a: int, b: int| 0 <= a < b < now.len() implies before(
                    #[trigger] now[a],
                    #[trigger] now[b],
                ) by {
                    if b == was.len() {
                        assert(was.contains(now[a]));
                        let pre = ks.take(i as int);
                        let k = choose|k: int| 0 <= k < pre.len() && pre[k] == now[a];
                        assert(before(ks[k], ks[i as int]));
                    } else {
                        assert(now[a] == was[a] && now[b] == was[b]);
                    }
                }
            }
        }
        i += 1;
    }
    proof {
        assert(ks.take(i as int) =~= ks);
        assert forall|x: Seq<char>| #[trigger] texts(out@).contains(x) <==> set.contains(x) by {}
        lemma_listed(texts(out@), set);
    }
    out
}

/// Plans how to bring a tree to exactly what is wanted. `have` is what is on disk: by path, the
/// content of a file, or nothing where it cannot be read.
pub fn plan(spec: &TreeSpec, have: &NameMap<Option<Digest>>) -> (r: TreePlan)
    requires
        have.wf(),
    ensures
        ({
            let want = wanted(file_views(spec.files@));
            &&& write_paths(r.write@) == listed(to_write(want, have@))
            &&& forall|i: int|
                0 <= i < r.write@.len() ==> (#[trigger] r.write@[i]).1 == want[r.write@[i].0@]
            &&& r.unchanged == listed(want.dom()).len() - r.write@.len()
            &&& texts(r.remove@) == listed(to_remove(want, have@))
        }),
{
    let want = spec.wanted();
    let write = list_writes(&want, have);
    let remove = list_removals(&want, have);
    proof {
        assert forall|x: Seq<char>| #[trigger] want.names().contains(x) <==> want@.dom().contains(
            x,
        ) by {}
        lemma_listed(want.names(), want@.dom());
    }
    TreePlan { unchanged: want.entries.len() - write.len(), write, remove }
}

} // verus!
