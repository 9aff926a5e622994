//! Reading the ops that a model emits.

use crate::adapter::field_at;
use crate::adapter::Field;
use crate::adapter::Op;
use crate::json::as_fields;
use crate::json::as_items;
use crate::json::as_text;
use crate::json::as_whole;
use crate::json::field_names;
use crate::json::fields;
use crate::json::held;
use crate::json::json_of;
use crate::json::lemma_object_of;
use crate::json::object_of;
use crate::json::parse;
use crate::json::print;
use crate::json::printed;
use crate::json::scalar_text;
use crate::json::Json;
use crate::maps::entry_map;
use crate::maps::entry_names;
use crate::maps::NameMap;
use crate::names::ascending;
use vstd::prelude::*;

verus! {

/// The text that a value stands for in a table: a text stands for itself, and any other value for
/// how it is printed.
pub open spec fn table_text(j: Json) -> Seq<char> {
    match j {
        Json::Text(s) => s,
        _ => match scalar_text(j) {
            Some(s) => s,
            None => printed(j),
        },
    }
}

/// Does a table hold these fields? Its names ascend, and each has the text that its value stands
/// for.
pub open spec fn is_table(t: Seq<(String, String)>, m: Map<Seq<char>, Json>) -> bool {
    &&& ascending(entry_names(t))
    &&& entry_map(t).dom() == m.dom()
    &&& forall|k: Seq<char>|
        m.contains_key(k) ==> #[trigger] entry_map(t)[k]@ == table_text(m[k])
}

/// Is a field this value?
pub open spec fn is_field(f: Field, j: Json) -> bool {
    match j {
        Json::Text(s) => f matches Field::Text(t) && t@ == s,
        Json::Object(m) => f matches Field::Table(t) && is_table(t@, m),
        _ => match j.whole() {
            Some(n) => f == Field::Whole(n),
            None => f == Field::Other,
        },
    }
}

/// Is an op this value? Each field of the value is a field of the op, and there are no others. A
/// value that is no object has no fields.
pub open spec fn is_op(op: Op, j: Json) -> bool {
    forall|name: Seq<char>|
        match #[trigger] op.field(name) {
            Some(f) => j.at(name) matches Some(x) && is_field(f, x),
            None => j.at(name) is None,
        }
}

/// Are the ops these values, one by one?
pub open spec fn are_ops(ops: Seq<Op>, items: Seq<Json>) -> bool {
    &&& ops.len() == items.len()
    &&& forall|i: int| 0 <= i < ops.len() ==> is_op(#[trigger] ops[i], items[i])
}

proof fn lemma_field_at(v: Seq<(String, Field)>, name: Seq<char>)
    ensures
        0 <= field_at(v, name) <= v.len(),
        field_at(v, name) < v.len() ==> v[field_at(v, name)].0@ == name,
        field_at(v, name) == v.len() ==> forall|i: int|
            0 <= i < v.len() ==> (#[trigger] v[i]).0@ != name,
    decreases v.len(),
{
    if v.len() > 0 && v[0].0@ != name {
        let w = v.skip(1);
        lemma_field_at(w, name);
        assert forall|i: int| field_at(v, name) == v.len() && 0 <= i < v.len() implies (
        #[trigger] v[i]).0@ != name by {
            if i > 0 {
                assert(w[i - 1] == v[i]);
            }
        }
    }
}

/// The text that a value stands for in a table.
fn stored(v: &serde_json::Value) -> (r: String)
    ensures
        r@ == table_text(held(*v)),
{
    match as_text(v) {
        Some(s) => s.to_owned(),
        None => print(v),
    }
}

fn read_table(f: &Vec<(String, serde_json::Value)>) -> (r: Vec<(String, String)>)
    requires
        field_names(fields(f@)).no_duplicates(),
    ensures
        is_table(r@, object_of(fields(f@))),
{
    let ghost all = fields(f@);
    let mut m: NameMap<String> = NameMap::empty();
    let mut i: usize = 0;
    assert(object_of(all.take(0)) =~= Map::<Seq<char>, Json>::empty());
    while i < f.len()
        invariant
            i <= f@.len(),
            all == fields(f@),
            m.wf(),
            m@.dom() == object_of(all.take(i as int)).dom(),
            forall|k: Seq<char>|
                object_of(all.take(i as int)).contains_key(k) ==> #[trigger] m@[k]@ == table_text(
                    object_of(all.take(i as int))[k],
                ),
        decreases f@.len() - i,
    {
        let ghost was = object_of(all.take(i as int));
        let ghost nn = all.take(i + 1);
        assert(nn.drop_last() =~= all.take(i as int));
        assert(nn.last() == (f@[i as int].0@, held(f@[i as int].1)));
        let t = stored(&f[i].1);
        m.insert(f[i].0.clone(), t);
        assert(object_of(nn) == was.insert(nn.last().0, nn.last().1));
        assert(m@.dom() =~= object_of(nn).dom());
        i += 1;
    }
    assert(all.take(i as int) =~= all);
    m.entries
}

fn read_field(v: &serde_json::Value) -> (r: Field)
    ensures
        is_field(r, held(*v)),
{
    if let Some(s) = as_text(v) {
        return Field::Text(s.to_owned());
    }
    if let Some(n) = as_whole(v) {
        return Field::Whole(n);
    }
    match as_fields(v) {
        Some(f) => Field::Table(read_table(&f)),
        None => Field::Other,
    }
}

fn read_op(v: &serde_json::Value) -> (r: Op)
    ensures
        is_op(r, held(*v)),
{
    let mut out: Vec<(String, Field)> = Vec::new();
    let f = match as_fields(v) {
        Some(f) => f,
        None => {
            let op = Op::new(out);
            assert forall|name: Seq<char>| #[trigger] op.field(name) is None by {
                lemma_field_at(op.fields@, name);
            }
            return op;
        },
    };
    let ghost all = fields(f@);
    let mut i: usize = 0;
    while i < f.len()
        invariant
            i <= f@.len(),
            all == fields(f@),
            out@.len() == i,
            forall|k: int|
                0 <= k < i ==> (#[trigger] out@[k]).0@ == all[k].0 && is_field(
                    out@[k].1,
                    all[k].1,
                ),
        decreases f@.len() - i,
    {
        let x = read_field(&f[i].1);
        assert(all[i as int] == (f@[i as int].0@, held(f@[i as int].1)));
        out.push((f[i].0.clone(), x));
        i += 1;
    }
    let op = Op::new(out);
    assert forall|name: Seq<char>|
        match #[trigger] op.field(name) {
            Some(x) => held(*v).at(name) matches Some(y) && is_field(x, y),
            None => held(*v).at(name) is None,
        } by {
        lemma_object_of(all);
        lemma_field_at(op.fields@, name);
        let k = field_at(op.fields@, name);
        if k < op.fields@.len() {
            assert(op.fields@[k].0@ == all[k].0);
            assert(object_of(all).contains_key(all[k].0));
        } else if object_of(all).contains_key(name) {
            let j = choose|j: int| 0 <= j < all.len() && (#[trigger] all[j]).0 == name;
            assert(op.fields@[j].0@ == all[j].0);
        }
    }
    op
}

/// The items of a reply, where it is an array.
pub open spec fn reply_items(json: Option<Seq<char>>) -> Option<Seq<Json>> {
    match json {
        None => None,
        Some(t) => match json_of(t) {
            None => None,
            Some(j) => j.items(),
        },
    }
}

/// The ops that a reply holds, where it is an array: each of its items is one.
pub fn read_ops(json: &Option<String>) -> (r: Option<Vec<Op>>)
    ensures
        match r {
            Some(ops) => reply_items(crate::adapter::opt_text(*json)) matches Some(items)
                && are_ops(ops@, items),
            None => reply_items(crate::adapter::opt_text(*json)) is None,
        },
{
    let v = match json {
        None => {
            return None;
        },
        Some(t) => parse(t.as_str())?,
    };
    let items = as_items(&v)?;
    let ghost all = items@.map_values(|x: serde_json::Value| held(x));
    let mut out: Vec<Op> = Vec::new();
    let mut i: usize = 0;
    while i < items.len()
        invariant
            i <= items@.len(),
            all == items@.map_values(|x: serde_json::Value| held(x)),
            out@.len() == i,
            forall|k: int| 0 <= k < i ==> is_op(#[trigger] out@[k], all[k]),
        decreases items@.len() - i,
    {
        let op = read_op(&items[i]);
        assert(all[i as int] == held(items@[i as int]));
        out.push(op);
        i += 1;
    }
    Some(out)
}

} // verus!
