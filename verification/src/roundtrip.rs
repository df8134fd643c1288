//! The round-trip law: a canonical root mapping, serialized and parsed
//! again, comes back unchanged. The canonical conditions are exactly the
//! shape of what parsing itself produces: trimmed, newline- and
//! equals-free keys and strings that do not read as another scalar kind,
//! and flat arrays of such scalars.
use vstd::prelude::*;
use crate::text::{
    is_ws, trim_spec, trim_front, trim_back, count_char, find_char, split_char,
    is_int_lit, int_lit_val, all_digits, digits_val, digit_val, digits_of,
    render_int, I64_MAX_MAG, I64_MIN_MAG,
    lemma_find_char, lemma_count_char_zero,
    lemma_count_char_append, lemma_split_char_cons, lemma_split_char_whole,
    lemma_trim_fixed, lemma_trim_snoc_space, lemma_trim_cons_space,
    lemma_digits_of_digits,
};
use crate::value::{
    SpecValue, sec_has, sec_find, sec_get, sec_put, put_at, vivify, vivify_ok,
    entries_of, lemma_sec_find, lemma_sec_find_push,
};
use crate::parser::{
    classify, classify_scalar, elems_classified, is_array_text, lit_true,
    lit_false, line_kind, LineKind, parse_lines, parse_spec, ParseFailure,
    lemma_elems_classified,
};
use crate::serializer::{
    render_scalar, render_elems, render_value, line_of, ser_scalars,
    ser_sections, serialize_spec, child_name, header_of,
};

verus! {

/// Text that reads back from a `key = value` line unchanged: trimmed,
/// and free of newlines and equals signs.
pub open spec fn clean_text(s: Seq<char>) -> bool {
    trim_spec(s) == s && count_char(s, '\n') == 0 && count_char(s, '=') == 0
}

/// A string value whose text cannot be mistaken for any other reading.
pub open spec fn str_ok(s: Seq<char>) -> bool {
    clean_text(s) && s != lit_true() && s != lit_false() && !is_int_lit(s) && !is_array_text(s)
}

pub open spec fn i64_range(n: int) -> bool {
    -(I64_MIN_MAG as int) <= n <= I64_MAX_MAG as int
}

/// An array element: a scalar whose rendering also survives the naive
/// comma split.
pub open spec fn elem_ok(v: SpecValue) -> bool {
    match v {
        SpecValue::String(s) => str_ok(s) && count_char(s, ',') == 0,
        SpecValue::Integer(n) => i64_range(n),
        SpecValue::Boolean(b) => true,
        _ => false,
    }
}

pub open spec fn elems_ok(items: Seq<SpecValue>) -> bool
    decreases items.len(),
{
    items.len() == 0 || (elem_ok(items[0]) && elems_ok(items.drop_first()))
}

/// A value that one `key = value` line reproduces exactly.
pub open spec fn scalar_canonical(v: SpecValue) -> bool {
    match v {
        SpecValue::String(s) => str_ok(s),
        SpecValue::Integer(n) => i64_range(n),
        SpecValue::Boolean(b) => true,
        SpecValue::Array(items) => items.len() >= 1 && elems_ok(items),
        SpecValue::Section(es) => false,
    }
}

proof fn lemma_count_single(c: char, d: char)
    ensures
        count_char(seq![c], d) == if c == d { 1int } else { 0int },
{
    assert(seq![c].drop_first() =~= Seq::<char>::empty());
    assert(count_char(Seq::<char>::empty(), d) == 0);
}

proof fn lemma_digits_no_char(s: Seq<char>, c: char)
    requires
        all_digits(s),
        digit_val(c) == 10,
    ensures
        count_char(s, c) == 0,
        forall|j: int| 0 <= j < s.len() ==> s[j] != c,
{
    assert forall|j: int| 0 <= j < s.len() implies s[j] != c by {
        assert(is_digit(s[j]));
    }
    lemma_count_char_zero(s, c);
}

spec fn is_digit(c: char) -> bool {
    digit_val(c) < 10
}

proof fn lemma_digits_trim(s: Seq<char>)
    requires
        all_digits(s),
        s.len() > 0,
    ensures
        trim_spec(s) == s,
{
    assert(digit_val(s[0]) < 10);
    assert(!is_ws(s[0]));
    assert(trim_front(s) == s);
    assert(digit_val(s.last()) < 10);
    assert(!is_ws(s.last()));
    assert(trim_back(s) == s);
}

/// Rendering an in-range integer gives a literal that reads back to the
/// same number, clean of every delimiter character.
proof fn lemma_render_int(n: int)
    requires
        i64_range(n),
    ensures
        ({
            let s = render_int(n);
            &&& is_int_lit(s)
            &&& int_lit_val(s) == n
            &&& clean_text(s)
            &&& count_char(s, ',') == 0
            &&& s.len() > 0
            &&& (s[0] == '-' || digit_val(s[0]) < 10)
            &&& s[0] != 't' && s[0] != 'f' && s[0] != '[' && s[0] != '#' && s[0] != ']'
        }),
{
    let s = render_int(n);
    if n >= 0 {
        lemma_digits_of_digits(n);
        assert(s == digits_of(n));
        lemma_digits_no_char(s, '\n');
        lemma_digits_no_char(s, '=');
        lemma_digits_no_char(s, ',');
        lemma_digits_trim(s);
        assert(digit_val(s[0]) < 10);
        assert(s[0] != '-' ==> true);
        assert(is_int_lit(s));
    } else {
        let m = -n;
        lemma_digits_of_digits(m);
        let d = digits_of(m);
        assert(s == seq!['-'] + d);
        assert(s[0] == '-');
        assert(s.drop_first() =~= d);
        assert(is_int_lit(s));
        assert(int_lit_val(s) == -digits_val(d) == n);
        lemma_digits_no_char(d, '\n');
        lemma_digits_no_char(d, '=');
        lemma_digits_no_char(d, ',');
        lemma_count_char_append(seq!['-'], d, '\n');
        lemma_count_char_append(seq!['-'], d, '=');
        lemma_count_char_append(seq!['-'], d, ',');
        assert(seq!['-'].drop_first() =~= Seq::<char>::empty());
        assert(count_char(seq!['-'], '\n') == 0);
        assert(count_char(seq!['-'], '=') == 0);
        assert(count_char(seq!['-'], ',') == 0);
        assert(!is_ws(s[0]));
        assert(trim_front(s) == s);
        assert(s.last() == d.last());
        assert(digit_val(s.last()) < 10);
        assert(!is_ws(s.last()));
        assert(trim_back(s) == s);
    }
}

proof fn lemma_lit_clean(b: bool)
    ensures
        ({
            let s = if b { lit_true() } else { lit_false() };
            &&& clean_text(s)
            &&& count_char(s, ',') == 0
        }),
{
    let s = if b { lit_true() } else { lit_false() };
    assert forall|j: int| 0 <= j < s.len() implies s[j] != '\n' by {}
    lemma_count_char_zero(s, '\n');
    assert forall|j: int| 0 <= j < s.len() implies s[j] != '=' by {}
    lemma_count_char_zero(s, '=');
    assert forall|j: int| 0 <= j < s.len() implies s[j] != ',' by {}
    lemma_count_char_zero(s, ',');
    assert(!is_ws(s[0]));
    assert(trim_front(s) == s);
    assert(!is_ws(s.last()));
    assert(trim_back(s) == s);
}

/// Rendering a canonical scalar element and classifying the text again
/// yields the same element, whether by the scalar rules alone or by the
/// full classifier: a canonical element is never bracket-shaped.
proof fn lemma_render_scalar(v: SpecValue)
    requires
        elem_ok(v),
    ensures
        ({
            let r = render_scalar(v);
            &&& classify_scalar(r) == v
            &&& classify(r) == v
            &&& clean_text(r)
            &&& count_char(r, ',') == 0
        }),
{
    let r = render_scalar(v);
    match v {
        SpecValue::String(s) => {
            assert(r == s);
        },
        SpecValue::Integer(n) => {
            lemma_render_int(n);
            assert(r != lit_true()) by {
                if r == lit_true() {
                    assert(r[0] == 't');
                }
            }
            assert(r != lit_false()) by {
                if r == lit_false() {
                    assert(r[0] == 'f');
                }
            }
            assert(!is_array_text(r));
        },
        SpecValue::Boolean(b) => {
            lemma_lit_clean(b);
            if !b {
                assert(lit_false() != lit_true()) by {
                    assert(lit_false()[0] == 'f');
                    assert(lit_true()[0] == 't');
                }
            }
            assert(!is_array_text(r)) by {
                assert(r[0] != '[');
            }
        },
        _ => {},
    }
}

pub proof fn lemma_elems_ok_index(items: Seq<SpecValue>)
    ensures
        elems_ok(items) <==> (forall|i: int| 0 <= i < items.len() ==> elem_ok(#[trigger] items[i])),
    decreases items.len(),
{
    if items.len() > 0 {
        lemma_elems_ok_index(items.drop_first());
        assert(forall|i: int| 1 <= i < items.len() ==> items.drop_first()[i - 1] == #[trigger] items[i]);
        if elem_ok(items[0]) && elems_ok(items.drop_first()) {
            assert(forall|i: int| 0 <= i < items.drop_first().len() ==> elem_ok(#[trigger] items.drop_first()[i]));
        }
    }
}

proof fn lemma_render_elems_cons(items: Seq<SpecValue>)
    requires
        items.len() >= 2,
    ensures
        render_elems(items) == render_scalar(items[0]) + seq![',', ' '] + render_elems(items.drop_first()),
    decreases items.len(),
{
    if items.len() == 2 {
        assert(items.drop_last()[0] == items[0]);
        assert(items.drop_last().len() == 1);
        assert(render_elems(items.drop_last()) == render_scalar(items[0]));
        assert(items.drop_first().len() == 1);
        assert(items.drop_first()[0] == items[1]);
        assert(render_elems(items.drop_first()) == render_scalar(items[1]));
        assert(items.last() == items[1]);
    } else {
        lemma_render_elems_cons(items.drop_last());
        assert(items.drop_last()[0] == items[0]);
        assert(items.drop_last().drop_first() =~= items.drop_first().drop_last());
        assert(items.drop_first().last() == items.last());
        assert(items.drop_first().len() >= 2);
        assert(render_elems(items) == render_elems(items.drop_last()) + seq![',', ' '] + render_scalar(items.last()));
        assert(render_elems(items.drop_first()) == render_elems(items.drop_first().drop_last()) + seq![',', ' '] + render_scalar(items.drop_first().last()));
        assert(render_elems(items) =~= render_scalar(items[0]) + seq![',', ' '] + render_elems(items.drop_first()));
    }
}

proof fn proof_count_lead(lead: Seq<char>)
    requires
        lead == Seq::<char>::empty() || lead == seq![' '],
    ensures
        count_char(lead, '\n') == 0 && count_char(lead, '=') == 0 && count_char(lead, ',') == 0,
{
    if lead == seq![' '] {
        lemma_count_single(' ', '\n');
        lemma_count_single(' ', '=');
        lemma_count_single(' ', ',');
    } else {
        assert(count_char(Seq::<char>::empty(), '\n') == 0);
        assert(count_char(Seq::<char>::empty(), '=') == 0);
        assert(count_char(Seq::<char>::empty(), ',') == 0);
    }
}

/// Splitting the rendered element list on commas recovers each element,
/// up to the one leading space the separator carries.
proof fn lemma_elems_split(items: Seq<SpecValue>, lead: Seq<char>)
    requires
        items.len() >= 1,
        elems_ok(items),
        lead == Seq::<char>::empty() || lead == seq![' '],
    ensures
        ({
            let text = lead + render_elems(items);
            let parts = split_char(text, ',');
            &&& parts.len() == items.len()
            &&& forall|i: int| 0 <= i < parts.len() ==> classify(trim_spec(#[trigger] parts[i])) == items[i]
            &&& count_char(text, '\n') == 0
            &&& count_char(text, '=') == 0
        }),
    decreases items.len(),
{
    let text = lead + render_elems(items);
    lemma_elems_ok_index(items);
    lemma_render_scalar(items[0]);
    proof_count_lead(lead);
    assert(count_char(lead, '\n') == 0 && count_char(lead, '=') == 0 && count_char(lead, ',') == 0);
    if items.len() == 1 {
        assert(render_elems(items) == render_scalar(items[0]));
        let r = render_scalar(items[0]);
        lemma_count_char_append(lead, r, ',');
        lemma_count_char_append(lead, r, '\n');
        lemma_count_char_append(lead, r, '=');
        lemma_split_char_whole(text, ',');
        assert(split_char(text, ',') == seq![text]);
        if lead == seq![' '] {
            lemma_trim_cons_space(r);
            assert(text =~= seq![' '] + r);
        } else {
            assert(text =~= r);
        }
        assert(trim_spec(text) == r);
        let parts = split_char(text, ',');
        assert(parts[0] == text);
        assert forall|i: int| 0 <= i < parts.len() implies classify(trim_spec(#[trigger] parts[i])) == items[i] by {
            assert(parts[i] == text);
        }
    } else {
        lemma_render_elems_cons(items);
        let r0 = render_scalar(items[0]);
        let rest = items.drop_first();
        assert(elems_ok(rest)) by {
            lemma_elems_ok_index(rest);
            assert(forall|i: int| 0 <= i < rest.len() ==> rest[i] == items[i + 1]);
        }
        lemma_elems_split(rest, seq![' ']);
        let tail = seq![' '] + render_elems(rest);
        assert(text =~= (lead + r0) + seq![','] + tail);
        lemma_count_char_append(lead, r0, ',');
        lemma_split_char_cons(lead + r0, tail, ',');
        let parts = split_char(text, ',');
        let tparts = split_char(tail, ',');
        assert(parts == seq![lead + r0] + tparts);
        assert(parts.len() == 1 + rest.len());
        assert(parts[0] == lead + r0);
        if lead == seq![' '] {
            lemma_trim_cons_space(r0);
            assert(lead + r0 =~= seq![' '] + r0);
        } else {
            assert(lead + r0 =~= r0);
        }
        assert(classify(trim_spec(parts[0])) == items[0]);
        assert(forall|i: int| 1 <= i < parts.len() ==> parts[i] == tparts[i - 1]);
        assert(forall|i: int| 1 <= i < parts.len() ==> rest[i - 1] == items[i]);
        assert forall|i: int| 0 <= i < parts.len() implies classify(trim_spec(#[trigger] parts[i])) == items[i] by {
            if i >= 1 {
                assert(parts[i] == tparts[i - 1]);
                assert(classify(trim_spec(tparts[i - 1])) == rest[i - 1]);
            }
        }
        lemma_count_char_append(lead + r0, seq![','] + tail, '\n');
        lemma_count_char_append(seq![','], tail, '\n');
        lemma_count_char_append(lead, r0, '\n');
        lemma_count_char_append(lead + r0, seq![','] + tail, '=');
        lemma_count_char_append(seq![','], tail, '=');
        lemma_count_char_append(lead, r0, '=');
        lemma_count_single(',', '\n');
        lemma_count_single(',', '=');
        assert(count_char(seq![','], '\n') == 0);
        assert(count_char(seq![','], '=') == 0);
        assert(text =~= (lead + r0) + (seq![','] + tail));
        lemma_count_char_append(lead + r0, seq![','] + tail, ',');
        assert(count_char(text, '\n') == 0);
        assert(count_char(text, '=') == 0);
        assert(parts.len() == items.len());
    }
}

/// Rendering any canonical value and classifying the text again yields
/// the same value.
pub proof fn lemma_render_value(v: SpecValue)
    requires
        scalar_canonical(v),
    ensures
        ({
            let r = render_value(v);
            &&& classify(r) == v
            &&& clean_text(r)
        }),
{
    let r = render_value(v);
    match v {
        SpecValue::String(s) => {
            assert(r == s);
            assert(classify(r) == v);
        },
        SpecValue::Integer(n) => {
            lemma_render_int(n);
            assert(r != lit_true()) by {
                if r == lit_true() {
                    assert(r[0] == 't');
                }
            }
            assert(r != lit_false()) by {
                if r == lit_false() {
                    assert(r[0] == 'f');
                }
            }
            assert(classify(r) == classify_scalar(r));
            lemma_render_scalar(v);
        },
        SpecValue::Boolean(b) => {
            lemma_lit_clean(b);
            if !b {
                assert(lit_false() != lit_true()) by {
                    assert(lit_false()[0] == 'f');
                    assert(lit_true()[0] == 't');
                }
            }
        },
        SpecValue::Array(items) => {
            let re = render_elems(items);
            assert(r == seq!['['] + re + seq![']']);
            assert(r[0] == '[');
            assert(r.last() == ']');
            assert(r.len() >= 2);
            assert(is_array_text(r));
            assert(r != lit_true()) by {
                assert(lit_true()[0] == 't');
            }
            assert(r != lit_false()) by {
                assert(lit_false()[0] == 'f');
            }
            assert(!is_int_lit(r)) by {
                assert(r[0] != '-');
                assert(digit_val('[') == 10);
                if is_int_lit(r) {
                    assert(digit_val(r[0]) < 10);
                }
            }
            lemma_elems_split(items, Seq::<char>::empty());
            assert(Seq::<char>::empty() + re =~= re);
            let inner = r.subrange(1, r.len() - 1);
            assert(inner =~= re);
            let parts = split_char(re, ',');
            lemma_elems_classified(parts);
            assert(elems_classified(parts).len() == items.len());
            assert(forall|i: int| 0 <= i < parts.len() ==> #[trigger] elems_classified(parts)[i] == classify(trim_spec(parts[i])));
            assert forall|i: int| 0 <= i < items.len() implies elems_classified(parts)[i] == items[i] by {
                assert(elems_classified(parts)[i] == classify(trim_spec(parts[i])));
                assert(classify(trim_spec(parts[i])) == items[i]);
            }
            assert(elems_classified(parts) =~= items);
            assert(classify(r) == SpecValue::Array(items));
            // cleanliness of the whole bracketed text
            lemma_count_char_append(seq!['['] + re, seq![']'], '\n');
            lemma_count_char_append(seq!['['], re, '\n');
            lemma_count_char_append(seq!['['] + re, seq![']'], '=');
            lemma_count_char_append(seq!['['], re, '=');
            lemma_count_single('[', '\n');
            lemma_count_single(']', '\n');
            lemma_count_single('[', '=');
            lemma_count_single(']', '=');
            assert(r =~= (seq!['['] + re) + seq![']']);
            assert(!is_ws(r[0]));
            assert(trim_front(r) == r);
            assert(!is_ws(r.last()));
            assert(trim_back(r) == r);
        },
        SpecValue::Section(es) => {},
    }
}

} // verus!
verus! {

/// A key that survives the line form: trimmed, free of newlines and
/// equals signs, and not opening like a comment or a section header.
pub open spec fn key_ok(k: Seq<char>) -> bool {
    clean_text(k) && (k.len() > 0 ==> (k[0] != '#' && k[0] != '['))
}

/// A flat canonical root: canonical scalar entries under canonical keys,
/// each key unique.
pub open spec fn flat_canonical(es: Seq<(Seq<char>, SpecValue)>) -> bool
    decreases es.len(),
{
    es.len() == 0 || {
        &&& key_ok(es[0].0)
        &&& scalar_canonical(es[0].1)
        &&& !sec_has(es.drop_first(), es[0].0)
        &&& flat_canonical(es.drop_first())
    }
}

pub proof fn lemma_flat_index(es: Seq<(Seq<char>, SpecValue)>)
    requires
        flat_canonical(es),
    ensures
        forall|i: int| 0 <= i < es.len() ==> key_ok((#[trigger] es[i]).0) && scalar_canonical(es[i].1),
    decreases es.len(),
{
    if es.len() > 0 {
        lemma_flat_index(es.drop_first());
        assert(forall|i: int| 1 <= i < es.len() ==> es.drop_first()[i - 1] == #[trigger] es[i]);
    }
}

proof fn lemma_count_mid(c: char)
    ensures
        count_char(seq![' ', '=', ' '], c) == (if c == ' ' { 2int } else if c == '=' { 1int } else { 0int }),
{
    lemma_count_single(' ', c);
    lemma_count_single('=', c);
    lemma_count_char_append(seq![' '], seq![' '], c);
    lemma_count_char_append(seq![' ', '='], seq![' '], c);
    lemma_count_char_append(seq![' '], seq!['='], c);
    assert(seq![' '] + seq!['='] =~= seq![' ', '=']);
    assert(seq![' ', '='] + seq![' '] =~= seq![' ', '=', ' ']);
}

/// The line a canonical entry is emitted as reads back as exactly that
/// entry.
proof fn lemma_line_kind_of(k: Seq<char>, v: SpecValue)
    requires
        key_ok(k),
        scalar_canonical(v),
    ensures
        ({
            let body = k + seq![' ', '=', ' '] + render_value(v);
            &&& line_kind(body) == LineKind::Pair(k, v)
            &&& count_char(body, '\n') == 0
            &&& line_of(k, v) == body + seq!['\n']
        }),
{
    let r = render_value(v);
    lemma_render_value(v);
    let mid = seq![' ', '=', ' '];
    let body = k + mid + r;
    assert(line_of(k, v) =~= body + seq!['\n']);
    lemma_count_mid('\n');
    lemma_count_mid('=');
    lemma_count_char_append(k, mid, '\n');
    lemma_count_char_append(k + mid, r, '\n');
    assert((k + mid) + r =~= body);
    assert(count_char(body, '\n') == 0);
    lemma_count_char_append(k, mid, '=');
    lemma_count_char_append(k + mid, r, '=');
    assert(count_char(body, '=') == 1);
    // the trimmed reading of the line
    let t = trim_spec(body);
    if k.len() > 0 {
        lemma_trim_fixed(k);
        assert(body[0] == k[0]);
        assert(trim_front(body) == body);
        if r.len() > 0 {
            lemma_trim_fixed(r);
            assert(body.last() == r.last());
            assert(trim_back(body) == body);
            assert(t == body);
        } else {
            assert(body =~= k + mid);
            assert(body.last() == ' ');
            assert(body.drop_last() =~= k + seq![' ', '=']);
            assert((k + seq![' ', '=']).last() == '=');
            assert(!is_ws('='));
            assert(trim_back(k + seq![' ', '=']) == k + seq![' ', '=']);
            assert(t == k + seq![' ', '=']);
        }
    } else {
        assert(body =~= mid + r);
        assert(body[0] == ' ');
        assert(body.drop_first() =~= seq!['=', ' '] + r);
        assert((seq!['=', ' '] + r)[0] == '=');
        assert(!is_ws('='));
        assert(trim_front(seq!['=', ' '] + r) == seq!['=', ' '] + r);
        assert(trim_front(body) == seq!['=', ' '] + r);
        if r.len() > 0 {
            lemma_trim_fixed(r);
            assert((seq!['=', ' '] + r).last() == r.last());
            assert(trim_back(seq!['=', ' '] + r) == seq!['=', ' '] + r);
            assert(t == seq!['=', ' '] + r);
        } else {
            assert(seq!['=', ' '] + r =~= seq!['=', ' ']);
            assert(seq!['=', ' '].last() == ' ');
            assert(seq!['=', ' '].drop_last() =~= seq!['=']);
            assert(seq!['='].last() == '=');
            assert(trim_back(seq!['=']) == seq!['=']);
            assert(t == seq!['=']);
        }
    }
    // counts of the trimmed line
    lemma_count_char_append(k, seq![' ', '='], '=');
    lemma_count_mid('=');
    lemma_count_single('=', '=');
    lemma_count_char_append(seq!['=', ' '], r, '=');
    lemma_count_char_append(seq!['='], seq![' '], '=');
    lemma_count_single(' ', '=');
    assert(seq!['='] + seq![' '] =~= seq!['=', ' ']);
    lemma_count_char_append(seq![' '], seq!['='], '=');
    assert(seq![' '] + seq!['='] =~= seq![' ', '=']);
    assert(count_char(t, '=') == 1);
    // the position of the single equals sign
    lemma_find_char(t, '=');
    lemma_count_char_zero(k, '=');
    let f = find_char(t, '=');
    let ke: int = if k.len() > 0 { k.len() as int + 1 } else { 0 };
    assert(t[ke] == '=');
    if f < ke {
        if f < k.len() {
            assert(t[f] == k[f]);
            assert(k[f] != '=');
        } else {
            assert(f == k.len());
            assert(t[f] == ' ');
        }
        assert(false);
    }
    if f > ke {
        assert(t[ke] != '=');
        assert(false);
    }
    assert(f == ke);
    // the line is a key/value pair with exactly `k` and `v`
    assert(t.len() > 0);
    if k.len() > 0 {
        assert(t[0] == k[0]);
        assert(t[0] != '#' && t[0] != '[');
    } else {
        assert(t[0] == '=');
    }
    assert(trim_spec(t.subrange(0, f)) == k) by {
        if k.len() > 0 {
            assert(t.subrange(0, f) =~= k.push(' '));
            lemma_trim_snoc_space(k);
        } else {
            assert(t.subrange(0, 0) =~= Seq::<char>::empty());
            assert(trim_front(Seq::<char>::empty()) =~= Seq::<char>::empty());
            assert(trim_back(Seq::<char>::empty()) =~= Seq::<char>::empty());
            assert(k =~= Seq::<char>::empty());
        }
    }
    assert(trim_spec(t.subrange(f + 1, t.len() as int)) == r) by {
        if r.len() > 0 {
            assert(t.subrange(f + 1, t.len() as int) =~= seq![' '] + r);
            lemma_trim_cons_space(r);
        } else {
            assert(t.subrange(f + 1, t.len() as int) =~= Seq::<char>::empty());
            assert(trim_front(Seq::<char>::empty()) =~= Seq::<char>::empty());
            assert(trim_back(Seq::<char>::empty()) =~= Seq::<char>::empty());
            assert(r =~= Seq::<char>::empty());
        }
    }
    assert(line_kind(body) == LineKind::Pair(k, v));
}

proof fn lemma_ser_scalars_append(a: Seq<(Seq<char>, SpecValue)>, b: Seq<(Seq<char>, SpecValue)>)
    ensures
        ser_scalars(a + b) == ser_scalars(a) + ser_scalars(b),
    decreases b.len(),
{
    if b.len() == 0 {
        assert(a + b =~= a);
        assert(ser_scalars(b) =~= Seq::<char>::empty());
        assert(ser_scalars(a) + ser_scalars(b) =~= ser_scalars(a));
    } else {
        lemma_ser_scalars_append(a, b.drop_last());
        assert((a + b).drop_last() =~= a + b.drop_last());
        assert((a + b).last() == b.last());
        assert(ser_scalars(a + b) =~= ser_scalars(a) + ser_scalars(b));
    }
}

proof fn lemma_flat_no_sections(es: Seq<(Seq<char>, SpecValue)>, prefix: Option<Seq<char>>)
    requires
        forall|i: int| 0 <= i < es.len() ==> !((#[trigger] es[i]).1 is Section),
    ensures
        ser_sections(es, prefix) == Seq::<char>::empty(),
    decreases es.len(),
{
    if es.len() > 0 {
        assert(forall|i: int| 0 <= i < es.len() - 1 ==> es.drop_last()[i] == #[trigger] es[i]);
        lemma_flat_no_sections(es.drop_last(), prefix);
        assert(!(es.last().1 is Section));
        assert(ser_sections(es, prefix) =~= Seq::<char>::empty());
    }
}

/// Parsing the scalar lines of canonical entries with no section
/// active, followed by any further text, appends exactly those entries
/// to the root and goes on with the further text.
proof fn lemma_parse_flat_lines(
    es: Seq<(Seq<char>, SpecValue)>,
    pre: Seq<(Seq<char>, SpecValue)>,
    tail: Seq<char>,
    n: int,
)
    requires
        flat_canonical(es),
        forall|i: int| 0 <= i < es.len() ==> !sec_has(pre, (#[trigger] es[i]).0),
    ensures
        parse_lines(split_char(ser_scalars(es) + tail, '\n'), pre, None, n) == parse_lines(
            split_char(tail, '\n'),
            pre + es,
            None,
            n + es.len(),
        ),
    decreases es.len(),
{
    if es.len() == 0 {
        assert(ser_scalars(es) =~= Seq::<char>::empty());
        assert(ser_scalars(es) + tail =~= tail);
        assert(pre + es =~= pre);
    } else {
        let e = es[0];
        let rest = es.drop_first();
        let k = e.0;
        let v = e.1;
        lemma_line_kind_of(k, v);
        let body = k + seq![' ', '=', ' '] + render_value(v);
        assert(es =~= seq![e] + rest);
        lemma_ser_scalars_append(seq![e], rest);
        assert(seq![e].drop_last() =~= Seq::<(Seq<char>, SpecValue)>::empty());
        assert(ser_scalars(Seq::<(Seq<char>, SpecValue)>::empty()) =~= Seq::<char>::empty());
        assert(seq![e].last() == e);
        assert(!(e.1 is Section));
        assert(ser_scalars(seq![e]) =~= line_of(k, v));
        assert(ser_scalars(es) + tail =~= body + seq!['\n'] + (ser_scalars(rest) + tail));
        lemma_split_char_cons(body, ser_scalars(rest) + tail, '\n');
        let ls = split_char(ser_scalars(es) + tail, '\n');
        assert(ls == seq![body] + split_char(ser_scalars(rest) + tail, '\n'));
        assert(ls[0] == body);
        assert(ls.drop_first() =~= split_char(ser_scalars(rest) + tail, '\n'));
        assert(line_kind(ls[0]) == LineKind::Pair(k, v));
        // the pair is appended at the end of the root mapping
        assert(!sec_has(pre, k));
        let pre2 = pre.push((k, v));
        assert(put_at_root(pre, k, v) == pre2);
        // the remaining lines extend the grown mapping
        assert(flat_canonical(rest));
        lemma_sec_find(rest, k);
        assert forall|i: int| 0 <= i < rest.len() implies !sec_has(pre2, (#[trigger] rest[i]).0) by {
            assert(rest[i] == es[i + 1]);
            assert(!sec_has(pre, rest[i].0));
            lemma_sec_find(pre, rest[i].0);
            lemma_sec_find(pre2, rest[i].0);
            assert(rest[i].0 != k);
            let f2 = sec_find(pre2, rest[i].0);
            if f2 < pre2.len() {
                assert(pre2[f2].0 == rest[i].0);
                if f2 < pre.len() {
                    assert(pre[f2].0 == rest[i].0);
                    assert(sec_has(pre, rest[i].0));
                } else {
                    assert(pre2[f2] == (k, v));
                }
                assert(false);
            }
        }
        lemma_parse_flat_lines(rest, pre2, tail, n + 1);
        assert(pre2 + rest =~= pre + es);
        assert(e == (e.0, e.1));
    }
}

/// What a key/value line does to the root when no section is active.
pub open spec fn put_at_root(
    pre: Seq<(Seq<char>, SpecValue)>,
    k: Seq<char>,
    v: SpecValue,
) -> Seq<(Seq<char>, SpecValue)> {
    crate::value::put_at(pre, Seq::empty(), k, v)
}

/// Law (round trip): a flat canonical root mapping, serialized to text
/// and parsed again, is reproduced exactly. Every such mapping is of
/// the shape that parsing well-formed sectionless text yields.
pub proof fn lemma_round_trip_flat(es: Seq<(Seq<char>, SpecValue)>)
    requires
        flat_canonical(es),
    ensures
        parse_spec(serialize_spec(es)) == Result::<Seq<(Seq<char>, SpecValue)>, ParseFailure>::Ok(es),
{
    lemma_flat_index(es);
    assert(forall|i: int| 0 <= i < es.len() ==> !((#[trigger] es[i]).1 is Section));
    lemma_flat_no_sections(es, None);
    assert(serialize_spec(es) =~= ser_scalars(es));
    assert forall|i: int| 0 <= i < es.len() implies !sec_has(
        Seq::<(Seq<char>, SpecValue)>::empty(),
        (#[trigger] es[i]).0,
    ) by {
        lemma_sec_find(Seq::<(Seq<char>, SpecValue)>::empty(), es[i].0);
    }
    lemma_parse_flat_lines(es, Seq::empty(), Seq::empty(), 1);
    assert(ser_scalars(es) + Seq::<char>::empty() =~= ser_scalars(es));
    lemma_parse_end(Seq::<(Seq<char>, SpecValue)>::empty() + es, None, 1 + es.len() as int);
    assert(Seq::<(Seq<char>, SpecValue)>::empty() + es =~= es);
}

/// Parsing what is left after the final newline: one blank line, which
/// is skipped.
proof fn lemma_parse_end(
    t: Seq<(Seq<char>, SpecValue)>,
    ctx: Option<Seq<Seq<char>>>,
    n: int,
)
    ensures
        parse_lines(split_char(Seq::<char>::empty(), '\n'), t, ctx, n) == Result::<
            Seq<(Seq<char>, SpecValue)>,
            ParseFailure,
        >::Ok(t),
{
    assert(count_char(Seq::<char>::empty(), '\n') == 0);
    lemma_split_char_whole(Seq::<char>::empty(), '\n');
    let ls = seq![Seq::<char>::empty()];
    assert(split_char(Seq::<char>::empty(), '\n') == ls);
    assert(trim_front(Seq::<char>::empty()) =~= Seq::<char>::empty());
    assert(trim_back(Seq::<char>::empty()) =~= Seq::<char>::empty());
    assert(line_kind(ls[0]) is Skip);
    assert(ls.drop_first() =~= Seq::<Seq<char>>::empty());
    assert(parse_lines(Seq::<Seq<char>>::empty(), t, ctx, n + 1) == Result::<
        Seq<(Seq<char>, SpecValue)>,
        ParseFailure,
    >::Ok(t));
}

} // verus!
verus! {

/// A section name that survives the header form: free of newlines and
/// of dots (a dot would read as nesting).
pub open spec fn sec_key_ok(k: Seq<char>) -> bool {
    count_char(k, '\n') == 0 && count_char(k, '.') == 0
}

/// Sections holding flat canonical bodies, under unique canonical names.
pub open spec fn one_level_sections(ss: Seq<(Seq<char>, SpecValue)>) -> bool
    decreases ss.len(),
{
    ss.len() == 0 || {
        &&& ss[0].1 is Section
        &&& sec_key_ok(ss[0].0)
        &&& flat_canonical(entries_of(ss[0].1))
        &&& !sec_has(ss.drop_first(), ss[0].0)
        &&& one_level_sections(ss.drop_first())
    }
}

pub proof fn lemma_one_level_index(ss: Seq<(Seq<char>, SpecValue)>)
    requires
        one_level_sections(ss),
    ensures
        forall|i: int| 0 <= i < ss.len() ==> (#[trigger] ss[i]).1 is Section && sec_key_ok(ss[i].0),
    decreases ss.len(),
{
    if ss.len() > 0 {
        lemma_one_level_index(ss.drop_first());
        assert(forall|i: int| 1 <= i < ss.len() ==> ss.drop_first()[i - 1] == #[trigger] ss[i]);
    }
}

proof fn lemma_ser_sections_append(
    a: Seq<(Seq<char>, SpecValue)>,
    b: Seq<(Seq<char>, SpecValue)>,
    prefix: Option<Seq<char>>,
)
    ensures
        ser_sections(a + b, prefix) == ser_sections(a, prefix) + ser_sections(b, prefix),
    decreases b.len(),
{
    if b.len() == 0 {
        assert(a + b =~= a);
        assert(ser_sections(b, prefix) =~= Seq::<char>::empty());
        assert(ser_sections(a, prefix) + ser_sections(b, prefix) =~= ser_sections(a, prefix));
    } else {
        lemma_ser_sections_append(a, b.drop_last(), prefix);
        assert((a + b).drop_last() =~= a + b.drop_last());
        assert((a + b).last() == b.last());
        assert(ser_sections(a + b, prefix) =~= ser_sections(a, prefix) + ser_sections(b, prefix));
    }
}

proof fn lemma_sections_no_scalar_lines(ss: Seq<(Seq<char>, SpecValue)>)
    requires
        forall|i: int| 0 <= i < ss.len() ==> (#[trigger] ss[i]).1 is Section,
    ensures
        ser_scalars(ss) == Seq::<char>::empty(),
    decreases ss.len(),
{
    if ss.len() > 0 {
        assert(forall|i: int| 0 <= i < ss.len() - 1 ==> ss.drop_last()[i] == #[trigger] ss[i]);
        lemma_sections_no_scalar_lines(ss.drop_last());
        assert(ss.last().1 is Section);
        assert(ser_scalars(ss) =~= Seq::<char>::empty());
    }
}

/// The header line of a dot-free section name reads back as a header
/// naming exactly that one segment.
proof fn lemma_header_line(k: Seq<char>)
    requires
        sec_key_ok(k),
    ensures
        ({
            let hl = seq!['['] + k + seq![']'];
            &&& line_kind(hl) == LineKind::Header(seq![k])
            &&& count_char(hl, '\n') == 0
        }),
{
    let hl = seq!['['] + k + seq![']'];
    assert(hl[0] == '[');
    assert(hl.last() == ']');
    assert(!is_ws(hl[0]));
    assert(trim_front(hl) == hl);
    assert(!is_ws(hl.last()));
    assert(trim_back(hl) == hl);
    assert(trim_spec(hl) == hl);
    assert(hl.subrange(1, hl.len() - 1) =~= k);
    lemma_split_char_whole(k, '.');
    assert(line_kind(hl) == LineKind::Header(seq![k]));
    lemma_count_single('[', '\n');
    lemma_count_single(']', '\n');
    lemma_count_char_append(seq!['['], k, '\n');
    lemma_count_char_append(seq!['['] + k, seq![']'], '\n');
    assert((seq!['['] + k) + seq![']'] =~= hl);
}

/// Parsing the scalar lines of a freshly opened section, followed by
/// any further text, fills that section in order and goes on.
proof fn lemma_parse_child_lines(
    cs: Seq<(Seq<char>, SpecValue)>,
    base: Seq<(Seq<char>, SpecValue)>,
    k: Seq<char>,
    m: Seq<(Seq<char>, SpecValue)>,
    tail: Seq<char>,
    n: int,
)
    requires
        flat_canonical(cs),
        !sec_has(base, k),
        forall|i: int| 0 <= i < cs.len() ==> !sec_has(m, (#[trigger] cs[i]).0),
    ensures
        parse_lines(
            split_char(ser_scalars(cs) + tail, '\n'),
            base.push((k, SpecValue::Section(m))),
            Some(seq![k]),
            n,
        ) == parse_lines(
            split_char(tail, '\n'),
            base.push((k, SpecValue::Section(m + cs))),
            Some(seq![k]),
            n + cs.len(),
        ),
    decreases cs.len(),
{
    if cs.len() == 0 {
        assert(ser_scalars(cs) =~= Seq::<char>::empty());
        assert(ser_scalars(cs) + tail =~= tail);
        assert(m + cs =~= m);
    } else {
        let e = cs[0];
        let rest = cs.drop_first();
        let key = e.0;
        let v = e.1;
        lemma_line_kind_of(key, v);
        let body = key + seq![' ', '=', ' '] + render_value(v);
        assert(cs =~= seq![e] + rest);
        lemma_ser_scalars_append(seq![e], rest);
        assert(seq![e].drop_last() =~= Seq::<(Seq<char>, SpecValue)>::empty());
        assert(ser_scalars(Seq::<(Seq<char>, SpecValue)>::empty()) =~= Seq::<char>::empty());
        assert(seq![e].last() == e);
        assert(!(e.1 is Section));
        assert(ser_scalars(seq![e]) =~= line_of(key, v));
        assert(ser_scalars(cs) + tail =~= body + seq!['\n'] + (ser_scalars(rest) + tail));
        lemma_split_char_cons(body, ser_scalars(rest) + tail, '\n');
        let ls = split_char(ser_scalars(cs) + tail, '\n');
        assert(ls == seq![body] + split_char(ser_scalars(rest) + tail, '\n'));
        assert(ls[0] == body);
        assert(ls.drop_first() =~= split_char(ser_scalars(rest) + tail, '\n'));
        assert(line_kind(ls[0]) == LineKind::Pair(key, v));
        // the pair goes into the open section, appended at its end
        let t0 = base.push((k, SpecValue::Section(m)));
        lemma_sec_find(base, k);
        lemma_sec_find_push(base, k, SpecValue::Section(m));
        assert(sec_put(base, k, SpecValue::Section(m)) == t0);
        assert(sec_find(t0, k) == base.len());
        assert(sec_has(t0, k));
        assert(sec_get(t0, k) == SpecValue::Section(m));
        let p = seq![k];
        assert(p[0] == k);
        assert(p.drop_first() =~= Seq::<Seq<char>>::empty());
        lemma_sec_find(m, key);
        assert(!sec_has(m, key));
        let m2 = m.push((key, v));
        assert(put_at(m, Seq::<Seq<char>>::empty(), key, v) == sec_put(m, key, v));
        assert(sec_put(m, key, v) == m2);
        assert(put_at(t0, p, key, v) == t0.update(base.len() as int, (k, SpecValue::Section(m2))));
        assert(t0.update(base.len() as int, (k, SpecValue::Section(m2))) =~= base.push((k, SpecValue::Section(m2))));
        // the remaining lines extend the grown section
        assert(flat_canonical(rest));
        lemma_sec_find(rest, key);
        assert forall|i: int| 0 <= i < rest.len() implies !sec_has(m2, (#[trigger] rest[i]).0) by {
            assert(rest[i] == cs[i + 1]);
            assert(!sec_has(m, rest[i].0));
            lemma_sec_find(m, rest[i].0);
            lemma_sec_find(m2, rest[i].0);
            assert(rest[i].0 != key);
            let f2 = sec_find(m2, rest[i].0);
            if f2 < m2.len() {
                assert(m2[f2].0 == rest[i].0);
                if f2 < m.len() {
                    assert(m[f2].0 == rest[i].0);
                    assert(sec_has(m, rest[i].0));
                } else {
                    assert(m2[f2] == (key, v));
                }
                assert(false);
            }
        }
        lemma_parse_child_lines(rest, base, k, m2, tail, n + 1);
        assert(m2 + rest =~= m + cs);
        assert(e == (e.0, e.1));
    }
}

/// Parsing the serialized blocks of one-level sections appends each
/// section, fully filled, to the root in order.
proof fn lemma_parse_one_level_sections(
    ss: Seq<(Seq<char>, SpecValue)>,
    base: Seq<(Seq<char>, SpecValue)>,
    ctx0: Option<Seq<Seq<char>>>,
    n: int,
)
    requires
        one_level_sections(ss),
        forall|i: int| 0 <= i < ss.len() ==> !sec_has(base, (#[trigger] ss[i]).0),
    ensures
        parse_lines(split_char(ser_sections(ss, None), '\n'), base, ctx0, n) == Result::<
            Seq<(Seq<char>, SpecValue)>,
            ParseFailure,
        >::Ok(base + ss),
    decreases ss.len(),
{
    if ss.len() == 0 {
        assert(ser_sections(ss, None) =~= Seq::<char>::empty());
        lemma_parse_end(base, ctx0, n);
        assert(base + ss =~= base);
    } else {
        let e = ss[0];
        let rest = ss.drop_first();
        let k = e.0;
        let cs = entries_of(e.1);
        assert(e.1 == SpecValue::Section(cs));
        lemma_flat_index(cs);
        assert(forall|i: int| 0 <= i < cs.len() ==> !((#[trigger] cs[i]).1 is Section));
        // the block this section is emitted as
        assert(ss =~= seq![e] + rest);
        lemma_ser_sections_append(seq![e], rest, None);
        assert(seq![e].drop_last() =~= Seq::<(Seq<char>, SpecValue)>::empty());
        assert(ser_sections(Seq::<(Seq<char>, SpecValue)>::empty(), None) =~= Seq::<char>::empty());
        assert(seq![e].last() == e);
        lemma_flat_no_sections(cs, Some(k));
        assert(child_name(None, k) == k);
        assert(ser_sections(seq![e], None) =~= header_of(k) + ser_scalars(cs));
        let text = ser_sections(ss, None);
        let hl = seq!['['] + k + seq![']'];
        let r2 = ser_scalars(cs) + ser_sections(rest, None);
        assert(text =~= Seq::<char>::empty() + seq!['\n'] + (hl + seq!['\n'] + r2));
        // the blank line before the header
        assert(count_char(Seq::<char>::empty(), '\n') == 0);
        lemma_split_char_cons(Seq::<char>::empty(), hl + seq!['\n'] + r2, '\n');
        let ls = split_char(text, '\n');
        assert(ls == seq![Seq::<char>::empty()] + split_char(hl + seq!['\n'] + r2, '\n'));
        assert(trim_front(Seq::<char>::empty()) =~= Seq::<char>::empty());
        assert(trim_back(Seq::<char>::empty()) =~= Seq::<char>::empty());
        assert(line_kind(ls[0]) is Skip);
        assert(ls.drop_first() =~= split_char(hl + seq!['\n'] + r2, '\n'));
        let ls2 = split_char(hl + seq!['\n'] + r2, '\n');
        assert(parse_lines(ls, base, ctx0, n) == parse_lines(ls2, base, ctx0, n + 1));
        // the header line
        lemma_header_line(k);
        lemma_split_char_cons(hl, r2, '\n');
        assert(ls2 == seq![hl] + split_char(r2, '\n'));
        assert(ls2[0] == hl);
        assert(ls2.drop_first() =~= split_char(r2, '\n'));
        assert(line_kind(ls2[0]) == LineKind::Header(seq![k]));
        // the header opens a fresh section at the end of the root
        let p = seq![k];
        lemma_sec_find(base, k);
        assert(!sec_has(base, k));
        assert(vivify_ok(base, p));
        assert(p.drop_first() =~= Seq::<Seq<char>>::empty());
        assert(vivify(Seq::<(Seq<char>, SpecValue)>::empty(), Seq::<Seq<char>>::empty())
            == Seq::<(Seq<char>, SpecValue)>::empty());
        assert(vivify(base, p) == base.push((k, SpecValue::Section(Seq::empty()))));
        assert(parse_lines(ls2, base, ctx0, n + 1) == parse_lines(
            split_char(r2, '\n'),
            base.push((k, SpecValue::Section(Seq::empty()))),
            Some(p),
            n + 2,
        ));
        // the body lines fill it
        assert forall|i: int| 0 <= i < cs.len() implies !sec_has(
            Seq::<(Seq<char>, SpecValue)>::empty(),
            (#[trigger] cs[i]).0,
        ) by {
            lemma_sec_find(Seq::<(Seq<char>, SpecValue)>::empty(), cs[i].0);
        }
        lemma_parse_child_lines(cs, base, k, Seq::empty(), ser_sections(rest, None), n + 2);
        assert(Seq::<(Seq<char>, SpecValue)>::empty() + cs =~= cs);
        // and the remaining sections follow
        let base2 = base.push((k, SpecValue::Section(cs)));
        assert(one_level_sections(rest));
        lemma_sec_find(rest, k);
        assert forall|i: int| 0 <= i < rest.len() implies !sec_has(base2, (#[trigger] rest[i]).0) by {
            assert(rest[i] == ss[i + 1]);
            assert(!sec_has(base, rest[i].0));
            lemma_sec_find(base, rest[i].0);
            lemma_sec_find(base2, rest[i].0);
            assert(rest[i].0 != k);
            let f2 = sec_find(base2, rest[i].0);
            if f2 < base2.len() {
                assert(base2[f2].0 == rest[i].0);
                if f2 < base.len() {
                    assert(base[f2].0 == rest[i].0);
                    assert(sec_has(base, rest[i].0));
                } else {
                    assert(base2[f2] == (k, SpecValue::Section(cs)));
                }
                assert(false);
            }
        }
        lemma_parse_one_level_sections(rest, base2, Some(p), n + 2 + cs.len());
        assert(base2 + rest =~= base + ss);
        assert(e == (e.0, e.1));
    }
}

/// Law (round trip, one nesting level): a canonical root of scalar
/// entries followed by sections of scalars, serialized to text and
/// parsed again, is reproduced exactly.
pub proof fn lemma_round_trip_one_level(
    sc: Seq<(Seq<char>, SpecValue)>,
    ss: Seq<(Seq<char>, SpecValue)>,
)
    requires
        flat_canonical(sc),
        one_level_sections(ss),
        forall|i: int| 0 <= i < ss.len() ==> !sec_has(sc, (#[trigger] ss[i]).0),
    ensures
        parse_spec(serialize_spec(sc + ss)) == Result::<Seq<(Seq<char>, SpecValue)>, ParseFailure>::Ok(
            sc + ss,
        ),
{
    let es = sc + ss;
    lemma_flat_index(sc);
    assert(forall|i: int| 0 <= i < sc.len() ==> !((#[trigger] sc[i]).1 is Section));
    lemma_one_level_index(ss);
    lemma_ser_scalars_append(sc, ss);
    lemma_sections_no_scalar_lines(ss);
    lemma_ser_sections_append(sc, ss, None);
    lemma_flat_no_sections(sc, None);
    assert(serialize_spec(es) =~= ser_scalars(sc) + ser_sections(ss, None));
    assert forall|i: int| 0 <= i < sc.len() implies !sec_has(
        Seq::<(Seq<char>, SpecValue)>::empty(),
        (#[trigger] sc[i]).0,
    ) by {
        lemma_sec_find(Seq::<(Seq<char>, SpecValue)>::empty(), sc[i].0);
    }
    lemma_parse_flat_lines(sc, Seq::empty(), ser_sections(ss, None), 1);
    assert(Seq::<(Seq<char>, SpecValue)>::empty() + sc =~= sc);
    lemma_parse_one_level_sections(ss, sc, None, 1 + sc.len() as int);
}

} // verus!
