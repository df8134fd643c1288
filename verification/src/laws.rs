//! The general laws of the library, stated over the same spec functions
//! that the executable functions' contracts use.
use vstd::prelude::*;
use crate::text::{is_int_lit, int_lit_val};
use crate::value::{
    SpecValue, sec_find, sec_has, sec_get, sec_put, secs_at, entries_of,
    vivify, vivify_ok, put_at, lemma_sec_find, lemma_sec_find_update,
    lemma_sec_find_push, lemma_vivify_secs_at,
};
use crate::parser::{classify, lit_true, lit_false, is_array_text};
use crate::serializer::{serialize_spec, ser_scalars, ser_sections};
use crate::store::{path_resolves, path_lookup, set_path};

verus! {

/// Law: scalar classification runs in a fixed precedence order — the
/// boolean literals first, then integer literals, then array syntax,
/// then verbatim text — and is total: every raw text gets exactly the
/// first reading that applies.
pub proof fn lemma_classification_precedence(raw: Seq<char>)
    ensures
        raw == lit_true() ==> classify(raw) == SpecValue::Boolean(true),
        raw == lit_false() ==> classify(raw) == SpecValue::Boolean(false),
        (raw != lit_true() && raw != lit_false() && is_int_lit(raw)) ==> classify(raw)
            == SpecValue::Integer(int_lit_val(raw)),
        (raw != lit_true() && raw != lit_false() && !is_int_lit(raw) && is_array_text(raw))
            ==> classify(raw) is Array,
        (raw != lit_true() && raw != lit_false() && !is_int_lit(raw) && !is_array_text(raw))
            ==> classify(raw) == SpecValue::String(raw),
{
}

/// Law: binding a key that is already present overwrites its value in
/// place — the mapping keeps its length, the key keeps its position,
/// and every other entry is untouched.
pub proof fn lemma_overwrite_preserves_position(
    es: Seq<(Seq<char>, SpecValue)>,
    k: Seq<char>,
    v: SpecValue,
)
    requires
        sec_has(es, k),
    ensures
        sec_put(es, k, v).len() == es.len(),
        sec_find(sec_put(es, k, v), k) == sec_find(es, k),
        sec_put(es, k, v)[sec_find(es, k)] == (k, v),
        forall|j: int| 0 <= j < es.len() && j != sec_find(es, k) ==> sec_put(es, k, v)[j] == es[j],
{
    lemma_sec_find(es, k);
    lemma_sec_find_update(es, k, v);
}

/// Law: the canonical text of a mapping is all of its scalar lines
/// followed by all of its section blocks — a scalar key is never
/// emitted after a sub-section header of the same level.
pub proof fn lemma_scalars_before_sections(es: Seq<(Seq<char>, SpecValue)>)
    ensures
        serialize_spec(es) == ser_scalars(es) + ser_sections(es, None),
{
}

/// Inserting a key under a section chain makes the extended path
/// resolve to the inserted value.
pub proof fn lemma_put_at_lookup(
    es: Seq<(Seq<char>, SpecValue)>,
    q: Seq<Seq<char>>,
    k: Seq<char>,
    v: SpecValue,
)
    requires
        secs_at(es, q),
    ensures
        path_resolves(put_at(es, q, k, v), q.push(k)),
        path_lookup(put_at(es, q, k, v), q.push(k)) == v,
    decreases q.len(),
{
    let p = q.push(k);
    if q.len() == 0 {
        assert(p.len() == 1);
        assert(p[0] == k);
        if sec_has(es, k) {
            lemma_sec_find_update(es, k, v);
        } else {
            lemma_sec_find_push(es, k, v);
        }
    } else {
        let q0 = q[0];
        let sub = entries_of(sec_get(es, q0));
        lemma_put_at_lookup(sub, q.drop_first(), k, v);
        lemma_sec_find(es, q0);
        let inner = SpecValue::Section(put_at(sub, q.drop_first(), k, v));
        lemma_sec_find_update(es, q0, inner);
        let res = put_at(es, q, k, v);
        assert(res == es.update(sec_find(es, q0), (q0, inner)));
        assert(sec_get(res, q0) == inner);
        assert(p[0] == q0);
        assert(p.drop_first() =~= q.drop_first().push(k));
        assert(path_resolves(entries_of(sec_get(res, p[0])), p.drop_first()));
        assert(p.len() >= 2);
    }
}

/// Law (section auto-vivification): after `set_value` binds a dotted
/// path — creating every missing intermediate section — looking the
/// same path up succeeds and returns exactly the value that was set.
pub proof fn lemma_set_then_get(
    es: Seq<(Seq<char>, SpecValue)>,
    p: Seq<Seq<char>>,
    v: SpecValue,
)
    requires
        p.len() >= 1,
        vivify_ok(es, p.drop_last()),
    ensures
        path_resolves(set_path(es, p, v), p),
        path_lookup(set_path(es, p, v), p) == v,
{
    let q = p.drop_last();
    lemma_vivify_secs_at(es, q);
    lemma_put_at_lookup(vivify(es, q), q, p.last(), v);
    assert(q.push(p.last()) =~= p);
}

} // verus!
