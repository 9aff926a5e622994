//! What is durable: where content goes, what is remembered of a run, and how a tree is laid down.
//!
//! Only passing results are ever remembered. Remembering a failing node would freeze one bad sample
//! forever, and under a shared cache it would spread to the whole team.

pub mod cas;
pub mod history;
pub mod journal;
pub mod memo;
pub mod worktree;

use crate::store::cas::ContentStore;
use crate::text::ends_with;
use crate::text::from_chars;
use crate::text::same;
use crate::text::to_chars;
use vstd::prelude::*;

verus! {

/// A name in a directory.
pub open spec fn joined(dir: Seq<char>, name: Seq<char>) -> Seq<char> {
    if dir.len() == 0 || dir.last() == '/' {
        dir + name
    } else {
        dir + "/"@ + name
    }
}

/// A name in a directory.
pub fn join_path(dir: &str, name: &str) -> (r: String)
    ensures
        r@ == joined(dir@, name@),
{
    proof {
        reveal_strlit("");
        reveal_strlit("/");
        assert("/"@ =~= seq!['/']);
        if dir@.len() == 0 {
            assert(dir@ =~= ""@);
        } else if dir@.last() == '/' {
            assert(dir@.subrange(dir@.len() - 1, dir@.len() as int) =~= "/"@);
        } else {
            assert(dir@.subrange(dir@.len() - 1, dir@.len() as int)[0] != "/"@[0]);
        }
    }
    let mut path = dir.to_owned();
    if !same(dir, "") && !ends_with(dir, "/") {
        path.push_str("/");
    }
    path.push_str(name);
    path
}

/// Where a name of hex digits goes: a directory for its first two, and a file for the rest. Two
/// levels, so that no directory holds a million entries.
pub open spec fn shard_of(hex: Seq<char>, suffix: Seq<char>) -> (Seq<char>, Seq<char>) {
    (hex.take(2), hex.skip(2) + suffix)
}

/// Where a name of hex digits goes.
pub fn shard_path(hex: &str, suffix: &str) -> (r: (String, String))
    requires
        hex@.len() >= 2,
    ensures
        (r.0@, r.1@) == shard_of(hex@, suffix@),
{
    let v = to_chars(hex);
    let dir = from_chars(vstd::slice::slice_subrange(v.as_slice(), 0, 2));
    assert(v@.subrange(0, 2) =~= hex@.take(2));
    let mut file = from_chars(vstd::slice::slice_subrange(v.as_slice(), 2, v.len()));
    assert(v@.subrange(2, v@.len() as int) =~= hex@.skip(2));
    file.push_str(suffix);
    (dir, file)
}

/// Different names go to different places.
pub proof fn law_names_do_not_share_a_place(a: Seq<char>, b: Seq<char>, suffix: Seq<char>)
    requires
        a.len() >= 2,
        b.len() >= 2,
        shard_of(a, suffix) == shard_of(b, suffix),
    ensures
        a == b,
{
    let x = shard_of(a, suffix);
    let y = shard_of(b, suffix);
    assert(x.1.len() == y.1.len());
    assert(a.skip(2) =~= x.1.take(x.1.len() - suffix.len()));
    assert(b.skip(2) =~= y.1.take(y.1.len() - suffix.len()));
    assert(a =~= a.take(2) + a.skip(2));
    assert(b =~= b.take(2) + b.skip(2));
}

/// Where something kept under a name of hex digits stands, below a directory.
pub open spec fn placed(root: Seq<char>, hex: Seq<char>, suffix: Seq<char>) -> Seq<char> {
    joined(joined(root, shard_of(hex, suffix).0), shard_of(hex, suffix).1)
}

/// Where something kept under a name of hex digits stands, below a directory.
pub fn place(root: &str, hex: &str, suffix: &str) -> (r: String)
    requires
        hex@.len() >= 2,
    ensures
        r@ == placed(root@, hex@, suffix@),
{
    let (dir, file) = shard_path(hex, suffix);
    let outer = join_path(root, dir.as_str());
    join_path(outer.as_str(), file.as_str())
}

/// Two things kept under different names below one directory never stand in one file.
pub proof fn law_places_differ(root: Seq<char>, a: Seq<char>, b: Seq<char>, suffix: Seq<char>)
    requires
        a.len() >= 2,
        b.len() >= 2,
        a[1] != '/',
        b[1] != '/',
        placed(root, a, suffix) == placed(root, b, suffix),
    ensures
        a == b,
{
    reveal_strlit("/");
    let x = joined(root, a.take(2));
    let y = joined(root, b.take(2));
    assert(x.len() == y.len());
    assert(x.last() == a[1] && y.last() == b[1]);
    let pa = placed(root, a, suffix);
    assert(pa =~= x + "/"@ + shard_of(a, suffix).1);
    assert(placed(root, b, suffix) =~= y + "/"@ + shard_of(b, suffix).1);
    assert(pa.take(x.len() as int) =~= x);
    assert(pa.take(x.len() as int) =~= y);
    assert(x.skip(x.len() - 2) =~= a.take(2));
    assert(y.skip(x.len() - 2) =~= b.take(2));
    assert(pa.skip(x.len() as int + 1) =~= shard_of(a, suffix).1);
    assert(pa.skip(x.len() as int + 1) =~= shard_of(b, suffix).1);
    law_names_do_not_share_a_place(a, b, suffix);
}

/// The whole durable side of the runtime, rooted at one directory, so that it can be shipped to a
/// teammate or mounted as a shared cache.
pub struct Store {
    pub content: ContentStore,
    pub memo: String,
    pub history: String,
    pub journal: String,
    pub root: String,
}

impl Store {
    /// The parts of a store, by their directories.
    pub fn open(root: &str) -> (r: Self)
        ensures
            r.root@ == root@,
            r.content.root@ == joined(root@, "blobs"@),
            r.memo@ == joined(root@, "memo"@),
            r.history@ == joined(root@, "history"@),
            r.journal@ == joined(root@, "journal"@),
    {
        Store {
            content: ContentStore::open(join_path(root, "blobs").as_str()),
            memo: join_path(root, "memo"),
            history: join_path(root, "history"),
            journal: join_path(root, "journal"),
            root: root.to_owned(),
        }
    }

    pub fn root(&self) -> (r: &str)
        ensures
            r@ == self.root@,
    {
        self.root.as_str()
    }
}

/// What can go wrong with a store.
pub enum StoreError {
    Io { path: String, why: String },
    Corrupt { path: String, why: String },
    Missing(String),
}

/// What an error says.
pub open spec fn store_error_text(e: StoreError) -> Seq<char> {
    match e {
        StoreError::Io { path, why } => "io error at "@ + path@ + ": "@ + why@,
        StoreError::Corrupt { path, why } => "corrupt record at "@ + path@ + ": "@ + why@,
        StoreError::Missing(d) => "content "@ + d@ + " is not in the store"@,
    }
}

impl StoreError {
    pub fn message(&self) -> (r: String)
        ensures
            r@ == store_error_text(*self),
    {
        match self {
            StoreError::Io { path, why } => {
                let mut s = "io error at ".to_owned();
                s.push_str(path.as_str());
                s.push_str(": ");
                s.push_str(why.as_str());
                s
            },
            StoreError::Corrupt { path, why } => {
                let mut s = "corrupt record at ".to_owned();
                s.push_str(path.as_str());
                s.push_str(": ");
                s.push_str(why.as_str());
                s
            },
            StoreError::Missing(d) => {
                let mut s = "content ".to_owned();
                s.push_str(d.as_str());
                s.push_str(" is not in the store");
                s
            },
        }
    }
}

} // verus!
