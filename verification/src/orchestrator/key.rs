//! Node keys, kept in one place so the planner, the executor and the reports agree.

use crate::text::decimal;
use crate::text::show;
use vstd::prelude::*;

verus! {

/// The key of a file's source node.
pub open spec fn source_key(path: Seq<char>) -> Seq<char> {
    "src:"@ + path
}

/// The key of a file's outline node.
pub open spec fn outline_key(path: Seq<char>) -> Seq<char> {
    "outline:"@ + path
}

/// The key of a pack.
pub open spec fn pack_key(path: Seq<char>, target: Seq<char>) -> Seq<char> {
    "pack:"@ + path + "#"@ + target
}

/// The key of an edit.
pub open spec fn edit_key(path: Seq<char>, target: Seq<char>) -> Seq<char> {
    "edit:"@ + path + "#"@ + target
}

/// The key of a rung.
pub open spec fn verify_key(path: Seq<char>, level: nat) -> Seq<char> {
    "verify:"@ + path + "@"@ + decimal(level)
}

pub fn source(path: &str) -> (r: String)
    ensures
        r@ == source_key(path@),
{
    let mut k = "src:".to_owned();
    k.push_str(path);
    k
}

pub fn outline(path: &str) -> (r: String)
    ensures
        r@ == outline_key(path@),
{
    let mut k = "outline:".to_owned();
    k.push_str(path);
    k
}

pub fn pack(path: &str, target: &str) -> (r: String)
    ensures
        r@ == pack_key(path@, target@),
{
    let mut k = "pack:".to_owned();
    k.push_str(path);
    k.push_str("#");
    k.push_str(target);
    k
}

pub fn edit(path: &str, target: &str) -> (r: String)
    ensures
        r@ == edit_key(path@, target@),
{
    let mut k = "edit:".to_owned();
    k.push_str(path);
    k.push_str("#");
    k.push_str(target);
    k
}

pub fn verify(path: &str, level: u8) -> (r: String)
    ensures
        r@ == verify_key(path@, level as nat),
{
    let mut k = "verify:".to_owned();
    k.push_str(path);
    k.push_str("@");
    let n = show(level as u64);
    k.push_str(n.as_str());
    k
}

pub fn plan() -> (r: String)
    ensures
        r@ == "plan"@,
{
    "plan".to_owned()
}

} // verus!
