//! What a file's entities are linked by: the names that they spell.

use crate::adapter::EntityView;
use crate::code::lang::Lang;
use crate::code::symbols::filed;
use crate::code::symbols::gathered;
use crate::code::symbols::linked;
use crate::code::symbols::linked_ids;
use crate::code::symbols::links;
use crate::code::symbols::read_within;
use crate::code::symbols::simple_of;
use crate::code::symbols::sooner;
use crate::code::symbols::sorted;
use crate::code::symbols::symbols_of;
use crate::code::syntax::Syn;
use crate::names::law_a_list_names_its_members;
use crate::text::occurs_at;
use crate::wording::index_of;
use crate::wording::is_digit;
use crate::wording::is_word;
use crate::wording::last_place;
use crate::wording::lemma_word_end;
use crate::wording::word_end;
use crate::wording::words_from;
use vstd::prelude::*;
use vstd::set_lib::lemma_len_subset;

verus! {

/// Is this an identifier: letters, digits and underscores, no digit first?
pub open spec fn is_identifier(w: Seq<char>) -> bool {
    &&& w.len() > 0
    &&& !is_digit(w[0])
    &&& forall|j: int| 0 <= j < w.len() ==> is_word(#[trigger] w[j])
}

/// Does a text spell an identifier at a place, with no identifier character on either side?
pub open spec fn spells_at(s: Seq<char>, w: Seq<char>, k: int) -> bool {
    &&& 0 <= k
    &&& k + w.len() <= s.len()
    &&& s.subrange(k, k + w.len()) == w
    &&& k > 0 ==> !is_word(s[k - 1])
    &&& k + w.len() < s.len() ==> !is_word(s[k + w.len()])
}

/// Is a name the last segment of an id? The id is a kind and a colon, and then either the name or
/// scopes, a separator and the name.
pub open spec fn is_last_segment(
    w: Seq<char>,
    id: Seq<char>,
    sep: Seq<char>,
    kind: Seq<char>,
    scopes: Option<Seq<char>>,
) -> bool {
    &&& !kind.contains(':')
    &&& id == match scopes {
        None => kind + ":"@ + w,
        Some(q) => kind + ":"@ + q + sep + w,
    }
}

/// The part of a file that an entity's references stand in: its body, or all of it where it has
/// none.
pub open spec fn inside(src: Seq<u8>, e: EntityView) -> Seq<char> {
    match e.body {
        Some((a, b)) => read_within(src, a, b),
        None => read_within(src, e.start, e.end),
    }
}

proof fn lemma_first_colon(kind: Seq<char>, rest: Seq<char>)
    requires
        !kind.contains(':'),
    ensures
        index_of(kind + ":"@ + rest, ':') == kind.len(),
        (kind + ":"@ + rest).skip(kind.len() as int + 1) == rest,
    decreases kind.len(),
{
    reveal_strlit(":");
    let s = kind + ":"@ + rest;
    assert(s.skip(kind.len() as int + 1) =~= rest);
    if kind.len() > 0 {
        assert(kind.contains(kind[0]));
        let k = kind.skip(1);
        if k.contains(':') {
            let i = choose|i: int| 0 <= i < k.len() && k[i] == ':';
            assert(kind[i + 1] == ':');
        }
        lemma_first_colon(k, rest);
        assert(s.skip(1) =~= k + ":"@ + rest);
    }
}

proof fn lemma_last_place(q: Seq<char>, sep: Seq<char>, p: int, n: int)
    requires
        sep.len() > 0,
        -1 <= p < n,
        n <= q.len(),
        p >= 0 ==> occurs_at(q, sep, p),
        forall|k: int| p < k < n ==> !#[trigger] occurs_at(q, sep, k),
    ensures
        last_place(q, sep, n) == p,
    decreases n,
{
    if n > 0 && n - 1 > p {
        assert(!occurs_at(q, sep, n - 1));
        lemma_last_place(q, sep, p, n - 1);
    }
}

/// The last segment of an id is what other code spells of it.
pub proof fn lemma_simple(
    w: Seq<char>,
    id: Seq<char>,
    sep: Seq<char>,
    kind: Seq<char>,
    scopes: Option<Seq<char>>,
)
    requires
        is_identifier(w),
        sep.len() > 0,
        forall|j: int| 0 <= j < sep.len() ==> !is_word(#[trigger] sep[j]),
        is_last_segment(w, id, sep, kind, scopes),
    ensures
        simple_of(id, sep) == w,
{
    let q = match scopes {
        None => w,
        Some(x) => x + sep + w,
    };
    assert(id =~= kind + ":"@ + q);
    lemma_first_colon(kind, q);
    reveal_strlit(":");
    let p = match scopes {
        None => -1,
        Some(x) => x.len() as int,
    };
    if scopes is Some {
        assert(q.subrange(p, p + sep.len()) =~= sep);
    }
    assert forall|k: int| p < k < q.len() implies !#[trigger] occurs_at(q, sep, k) by {
        if occurs_at(q, sep, k) {
            let e = k + sep.len() - 1;
            assert(q.subrange(k, k + sep.len())[sep.len() - 1] == q[e]);
            assert(!is_word(sep[sep.len() - 1]));
            let off = match scopes {
                None => 0,
                Some(x) => x.len() + sep.len(),
            };
            assert(q[e] == w[e - off]);
        }
    }
    lemma_last_place(q, sep, p, q.len() as int);
    if scopes is Some {
        assert(q.skip(p + sep.len()) =~= w);
    }
}

proof fn lemma_word_stops(s: Seq<char>, i: int, k: int)
    requires
        0 <= i <= k,
        k <= s.len(),
        forall|j: int| i <= j < k ==> is_word(#[trigger] s[j]),
        k < s.len() ==> !is_word(s[k]),
    ensures
        word_end(s, i) == k,
    decreases k - i,
{
    if i < k {
        lemma_word_stops(s, i + 1, k);
    }
}

proof fn lemma_word_stops_before(s: Seq<char>, i: int, k: int)
    requires
        0 <= i <= k < s.len(),
        !is_word(s[k]),
    ensures
        word_end(s, i) <= k,
    decreases k - i,
{
    if i < k {
        lemma_word_stops_before(s, i + 1, k);
    }
}

/// What a text spells is among its words.
proof fn lemma_spelled_is_a_word(s: Seq<char>, w: Seq<char>, k: int, i: int)
    requires
        is_identifier(w),
        spells_at(s, w, k),
        0 <= i <= k,
    ensures
        words_from(s, i).contains(w),
    decreases k - i,
{
    assert(s.subrange(k, k + w.len())[0] == s[k]);
    lemma_word_end(s, i);
    if i == k {
        let e = k + w.len();
        assert forall|j: int| k <= j < e implies is_word(#[trigger] s[j]) by {
            assert(s.subrange(k, e)[j - k] == s[j]);
            assert(is_word(w[j - k]));
        }
        lemma_word_stops(s, k, e);
        assert(is_word(w[0]));
        assert(words_from(s, i)[0] == w);
    } else {
        let rest = if crate::wording::is_letter(s[i]) || s[i] == '_' {
            lemma_word_stops_before(s, i, k - 1);
            lemma_word_end(s, i + 1);
            word_end(s, i)
        } else {
            i + 1
        };
        lemma_spelled_is_a_word(s, w, k, rest);
        let v = words_from(s, rest);
        let j = choose|j: int| 0 <= j < v.len() && v[j] == w;
        let all = words_from(s, i);
        assert(all[all.len() - v.len() + j] == w);
    }
}

proof fn lemma_filed_holds(s: Seq<EntityView>, e: EntityView)
    ensures
        filed(s, e).len() == s.len() + 1,
        forall|x: EntityView| #[trigger] filed(s, e).contains(x) <==> s.contains(x) || x == e,
    decreases s.len(),
{
    let f = filed(s, e);
    let (h, t) = if s.len() == 0 || sooner(e, s[0]) {
        (e, s)
    } else {
        lemma_filed_holds(s.skip(1), e);
        (s[0], filed(s.skip(1), e))
    };
    assert(f == seq![h] + t);
    assert forall|x: EntityView| #[trigger] f.contains(x) <==> s.contains(x) || x == e by {
        assert(f[0] == h);
        if f.contains(x) && x != h {
            let k = choose|k: int| 0 <= k < f.len() && f[k] == x;
            assert(t[k - 1] == x);
            assert(t.contains(x));
        }
        if t.contains(x) {
            let k = choose|k: int| 0 <= k < t.len() && t[k] == x;
            assert(f[k + 1] == x);
        }
        if s.len() > 0 && !sooner(e, s[0]) {
            let u = s.skip(1);
            assert(s.contains(s[0]));
            assert(filed(u, e).contains(x) <==> u.contains(x) || x == e);
            if u.contains(x) {
                let k = choose|k: int| 0 <= k < u.len() && u[k] == x;
                assert(s[k + 1] == x);
            }
            if s.contains(x) && x != s[0] {
                let k = choose|k: int| 0 <= k < s.len() && s[k] == x;
                assert(u[k - 1] == x);
            }
        }
    }
}

proof fn lemma_sorted_holds(src: Seq<u8>, sep: Seq<char>, all: Seq<EntityView>, n: int)
    requires
        0 <= n <= all.len(),
    ensures
        sorted(src, sep, all, n).len() == n,
        forall|x: EntityView| #[trigger]
            sorted(src, sep, all, n).contains(x) <==> exists|k: int|
                0 <= k < n && x == linked(src, sep, #[trigger] all[k], all),
    decreases n,
{
    if n > 0 {
        lemma_sorted_holds(src, sep, all, n - 1);
        let before = sorted(src, sep, all, n - 1);
        let e = linked(src, sep, all[n - 1], all);
        lemma_filed_holds(before, e);
        assert forall|x: EntityView| #[trigger]
            sorted(src, sep, all, n).contains(x) <==> exists|k: int|
                0 <= k < n && x == linked(src, sep, #[trigger] all[k], all) by {
            if exists|k: int| 0 <= k < n && x == linked(src, sep, #[trigger] all[k], all) {
                let k = choose|k: int| 0 <= k < n && x == linked(src, sep, #[trigger] all[k], all);
                if k < n - 1 {
                    assert(before.contains(x));
                }
            }
        }
    } else {
        assert(sorted(src, sep, all, n) =~= Seq::<EntityView>::empty());
    }
}

proof fn lemma_links_are_finite(src: Seq<u8>, sep: Seq<char>, e: EntityView, all: Seq<EntityView>)
    ensures
        linked_ids(src, sep, e, all).finite(),
{
    broadcast use vstd::seq_lib::seq_to_set_is_finite;

    let ids = all.map_values(|x: EntityView| x.id);
    assert forall|x: Seq<char>| linked_ids(src, sep, e, all).contains(x) implies ids.to_set().contains(
        x,
    ) by {
        let k = choose|k: int|
            0 <= k < all.len() && (#[trigger] all[k]).id == x && links(src, sep, e, all[k]);
        assert(ids[k] == x);
    }
    lemma_len_subset(linked_ids(src, sep, e, all), ids.to_set());
}

/// Nothing that is defined or imported is left out of an outline, and nothing is made up.
pub proof fn law_an_outline_holds_every_definition(
    lang: Lang,
    sep: Seq<char>,
    src: Seq<u8>,
    t: Seq<Syn>,
)
    ensures
        symbols_of(lang, sep, src, t).len() == gathered(lang, sep, src, t).len(),
        forall|k: int|
            0 <= k < gathered(lang, sep, src, t).len() ==> exists|j: int|
                0 <= j < symbols_of(lang, sep, src, t).len() && symbols_of(lang, sep, src, t)[j]
                    == (EntityView {
                    refs: (#[trigger] symbols_of(lang, sep, src, t)[j]).refs,
                    ..#[trigger] gathered(lang, sep, src, t)[k]
                }),
{
    let all = gathered(lang, sep, src, t);
    let out = symbols_of(lang, sep, src, t);
    lemma_sorted_holds(src, sep, all, all.len() as int);
    assert forall|k: int| 0 <= k < all.len() implies exists|j: int|
        0 <= j < out.len() && out[j] == (EntityView {
            refs: (#[trigger] out[j]).refs,
            ..#[trigger] all[k]
        }) by {
        let x = linked(src, sep, all[k], all);
        assert(out.contains(x));
        let j = choose|j: int| 0 <= j < out.len() && out[j] == x;
        assert(out[j] == (EntityView { refs: out[j].refs, ..all[k] }));
    }
}

/// No reference is missed: where the body of one entity of a file spells the last segment of
/// another's name as a whole identifier, the other's id is among the references of the first,
/// whether the other stands in a scope or not. An import is not referred to, and nothing refers to
/// itself.
pub proof fn law_what_is_spelled_is_referred_to(
    lang: Lang,
    sep: Seq<char>,
    src: Seq<u8>,
    t: Seq<Syn>,
    a: int,
    b: int,
    w: Seq<char>,
    kind: Seq<char>,
    scopes: Option<Seq<char>>,
    at: int,
)
    requires
        sep.len() > 0,
        forall|j: int| 0 <= j < sep.len() ==> !is_word(#[trigger] sep[j]),
        0 <= a < symbols_of(lang, sep, src, t).len(),
        0 <= b < symbols_of(lang, sep, src, t).len(),
        symbols_of(lang, sep, src, t)[a].id != symbols_of(lang, sep, src, t)[b].id,
        symbols_of(lang, sep, src, t)[b].kind != "import"@,
        is_identifier(w),
        is_last_segment(w, symbols_of(lang, sep, src, t)[b].id, sep, kind, scopes),
        spells_at(inside(src, symbols_of(lang, sep, src, t)[a]), w, at),
    ensures
        symbols_of(lang, sep, src, t)[a].refs.contains(symbols_of(lang, sep, src, t)[b].id),
{
    let all = gathered(lang, sep, src, t);
    let out = symbols_of(lang, sep, src, t);
    lemma_sorted_holds(src, sep, all, all.len() as int);
    assert(out.contains(out[a]) && out.contains(out[b]));
    let i = choose|i: int|
        0 <= i < all.len() && out[a] == linked(src, sep, #[trigger] all[i], all);
    let j = choose|j: int|
        0 <= j < all.len() && out[b] == linked(src, sep, #[trigger] all[j], all);
    lemma_simple(w, out[b].id, sep, kind, scopes);
    lemma_spelled_is_a_word(inside(src, out[a]), w, at, 0);
    assert(links(src, sep, all[i], all[j]));
    lemma_links_are_finite(src, sep, all[i], all);
    law_a_list_names_its_members(linked_ids(src, sep, all[i], all));
    assert(linked_ids(src, sep, all[i], all).contains(out[b].id));
}

/// No reference leads nowhere: each names another entity of the file, no import.
pub proof fn law_a_reference_names_an_entity(
    lang: Lang,
    sep: Seq<char>,
    src: Seq<u8>,
    t: Seq<Syn>,
    a: int,
    x: Seq<char>,
)
    requires
        0 <= a < symbols_of(lang, sep, src, t).len(),
        symbols_of(lang, sep, src, t)[a].refs.contains(x),
    ensures
        x != symbols_of(lang, sep, src, t)[a].id,
        exists|b: int|
            0 <= b < symbols_of(lang, sep, src, t).len() && (#[trigger] symbols_of(
                lang,
                sep,
                src,
                t,
            )[b]).id == x && symbols_of(lang, sep, src, t)[b].kind != "import"@,
{
    let all = gathered(lang, sep, src, t);
    let out = symbols_of(lang, sep, src, t);
    lemma_sorted_holds(src, sep, all, all.len() as int);
    assert(out.contains(out[a]));
    let i = choose|i: int|
        0 <= i < all.len() && out[a] == linked(src, sep, #[trigger] all[i], all);
    lemma_links_are_finite(src, sep, all[i], all);
    law_a_list_names_its_members(linked_ids(src, sep, all[i], all));
    let k = choose|k: int|
        0 <= k < all.len() && (#[trigger] all[k]).id == x && links(src, sep, all[i], all[k]);
    let y = linked(src, sep, all[k], all);
    assert(out.contains(y));
    let b = choose|b: int| 0 <= b < out.len() && out[b] == y;
    assert(out[b].id == x);
}

} // verus!
