//! The parser: line-oriented text to a root mapping. Blank and comment
//! lines are skipped; `[dotted.path]` headers pick the section that
//! following `key = value` lines fill; any other non-blank line is a
//! syntax error carrying its 1-based line number.
use vstd::prelude::*;
use crate::text::{
    count_char, find_char, split_char, trim_spec, is_int_lit, int_lit_val,
    sub_chars, trim_chars, split_chars, chars_to_string, parse_int_chars,
    scan_char, lemma_find_char, sum_len, lemma_sum_len_nonneg,
    lemma_sum_len_snoc, lemma_sum_len_ge, lemma_split_char_sum,
    lemma_split_char_len, lemma_trim_spec_len,
};
use crate::value::{
    JamlValue, SpecValue, value_view, values_view, root_view, entries_of,
    sec_has, sec_get, secs_at, vivify, vivify_ok, put_at,
    map_find, lemma_sec_find, lemma_root_view,
    lemma_vivify_secs_at, lemma_put_at_secs_at,
};

verus! {

pub open spec fn lit_true() -> Seq<char> {
    seq!['t', 'r', 'u', 'e']
}

pub open spec fn lit_false() -> Seq<char> {
    seq!['f', 'a', 'l', 's', 'e']
}

/// Classification of a raw scalar token, in precedence order:
/// the boolean literals, then a signed integer, then verbatim text.
pub open spec fn classify_scalar(raw: Seq<char>) -> SpecValue {
    if raw == lit_true() {
        SpecValue::Boolean(true)
    } else if raw == lit_false() {
        SpecValue::Boolean(false)
    } else if is_int_lit(raw) {
        SpecValue::Integer(int_lit_val(raw))
    } else {
        SpecValue::String(raw)
    }
}

pub open spec fn is_array_text(raw: Seq<char>) -> bool {
    raw.len() >= 2 && raw[0] == '[' && raw.last() == ']'
}

/// Classification of a raw value token: booleans, then integers, then a
/// bracketed comma-separated list whose pieces are trimmed and
/// recursively classified by these same rules, then verbatim text.
pub open spec fn classify(raw: Seq<char>) -> SpecValue
    decreases raw.len(),
{
    if raw == lit_true() || raw == lit_false() || is_int_lit(raw) {
        classify_scalar(raw)
    } else if is_array_text(raw) {
        proof {
            let inner = raw.subrange(1, raw.len() - 1);
            lemma_split_char_sum(inner, ',');
            lemma_split_char_len(inner, ',');
        }
        SpecValue::Array(elems_classified(split_char(raw.subrange(1, raw.len() - 1), ',')))
    } else {
        SpecValue::String(raw)
    }
}

pub open spec fn elems_classified(elems: Seq<Seq<char>>) -> Seq<SpecValue>
    decreases sum_len(elems) + elems.len(),
{
    if elems.len() == 0 {
        Seq::empty()
    } else {
        proof {
            lemma_sum_len_snoc(elems);
            lemma_sum_len_nonneg(elems.drop_last());
            lemma_sum_len_nonneg(elems);
            lemma_trim_spec_len(elems.last());
        }
        elems_classified(elems.drop_last()).push(classify(trim_spec(elems.last())))
    }
}

pub proof fn lemma_elems_classified(elems: Seq<Seq<char>>)
    ensures
        elems_classified(elems).len() == elems.len(),
        forall|i: int| 0 <= i < elems.len() ==> #[trigger] elems_classified(elems)[i] == classify(trim_spec(elems[i])),
    decreases elems.len(),
{
    if elems.len() > 0 {
        lemma_elems_classified(elems.drop_last());
        assert(forall|i: int| 0 <= i < elems.len() - 1 ==> elems.drop_last()[i] == elems[i]);
    }
}

/// What one line of input means.
pub enum LineKind {
    Skip,
    Header(Seq<Seq<char>>),
    Pair(Seq<char>, SpecValue),
    Bad,
}

/// Blank and `#` lines are skipped; `[...]` lines name a section by its
/// dotted path; lines holding exactly one `=` bind a key; the rest are
/// syntax errors.
pub open spec fn line_kind(line: Seq<char>) -> LineKind {
    let t = trim_spec(line);
    if t.len() == 0 {
        LineKind::Skip
    } else if t[0] == '#' {
        LineKind::Skip
    } else if t[0] == '[' && t.last() == ']' {
        LineKind::Header(split_char(t.subrange(1, t.len() - 1), '.'))
    } else if count_char(t, '=') == 1 {
        LineKind::Pair(
            trim_spec(t.subrange(0, find_char(t, '='))),
            classify(trim_spec(t.subrange(find_char(t, '=') + 1, t.len() as int))),
        )
    } else {
        LineKind::Bad
    }
}

/// Why parsing failed: a malformed line, or a section header whose
/// dotted path runs into an existing non-section value — the fatal
/// internal-consistency class, a condition of its own, not a malformed
/// line. Each carries the 1-based line number.
pub enum ParseFailure {
    Malformed(int),
    SectionCollision(int),
}

/// One pass over the lines: the fully built root mapping, or the first
/// failure with the number of the line it arose on.
pub open spec fn parse_lines(
    ls: Seq<Seq<char>>,
    es: Seq<(Seq<char>, SpecValue)>,
    ctx: Option<Seq<Seq<char>>>,
    lineno: int,
) -> Result<Seq<(Seq<char>, SpecValue)>, ParseFailure>
    decreases ls.len(),
{
    if ls.len() == 0 {
        Result::Ok(es)
    } else {
        match line_kind(ls[0]) {
            LineKind::Skip => parse_lines(ls.drop_first(), es, ctx, lineno + 1),
            LineKind::Header(p) => if vivify_ok(es, p) {
                parse_lines(ls.drop_first(), vivify(es, p), Some(p), lineno + 1)
            } else {
                Result::Err(ParseFailure::SectionCollision(lineno))
            },
            LineKind::Pair(k, v) => {
                let target = match ctx {
                    Some(p) => p,
                    None => Seq::empty(),
                };
                parse_lines(ls.drop_first(), put_at(es, target, k, v), ctx, lineno + 1)
            },
            LineKind::Bad => Result::Err(ParseFailure::Malformed(lineno)),
        }
    }
}

/// The meaning of a whole input text.
pub open spec fn parse_spec(t: Seq<char>) -> Result<Seq<(Seq<char>, SpecValue)>, ParseFailure> {
    parse_lines(split_char(t, '\n'), Seq::empty(), None, 1)
}

pub open spec fn views_of(ss: Seq<String>) -> Seq<Seq<char>> {
    Seq::new(ss.len(), |i: int| ss[i]@)
}

fn is_true_chars(v: &Vec<char>) -> (r: bool)
    ensures
        r == (v@ == lit_true()),
{
    let r = v.len() == 4 && v[0] == 't' && v[1] == 'r' && v[2] == 'u' && v[3] == 'e';
    proof {
        if r {
            assert(v@ =~= lit_true());
        }
    }
    r
}

fn is_false_chars(v: &Vec<char>) -> (r: bool)
    ensures
        r == (v@ == lit_false()),
{
    let r = v.len() == 5 && v[0] == 'f' && v[1] == 'a' && v[2] == 'l' && v[3] == 's' && v[4] == 'e';
    proof {
        if r {
            assert(v@ =~= lit_false());
        }
    }
    r
}

fn classify_scalar_exec(raw: Vec<char>) -> (r: JamlValue)
    ensures
        r@ == classify_scalar(raw@),
{
    if is_true_chars(&raw) {
        JamlValue::Boolean(true)
    } else if is_false_chars(&raw) {
        JamlValue::Boolean(false)
    } else {
        match parse_int_chars(&raw) {
            Some(n) => JamlValue::Integer(n),
            None => JamlValue::String(chars_to_string(&raw)),
        }
    }
}

fn classify_exec(raw: Vec<char>) -> (r: JamlValue)
    ensures
        r@ == classify(raw@),
    decreases raw@.len(),
{
    if is_true_chars(&raw) || is_false_chars(&raw) {
        classify_scalar_exec(raw)
    } else if raw.len() >= 2 && raw[0] == '[' && raw[raw.len() - 1] == ']' {
        match parse_int_chars(&raw) {
            Some(n) => JamlValue::Integer(n),
            None => {
                let inner = sub_chars(&raw, 1, raw.len() - 1);
                let parts = split_chars(&inner, ',');
                let ghost pv = split_char(inner@, ',');
                let mut items: Vec<JamlValue> = Vec::new();
                let mut i: usize = 0;
                proof {
                    assert(pv.subrange(0, 0) =~= Seq::<Seq<char>>::empty());
                    lemma_split_char_sum(inner@, ',');
                    lemma_split_char_len(inner@, ',');
                }
                while i < parts.len()
                    invariant
                        i <= parts@.len(),
                        parts@.len() == pv.len(),
                        pv == split_char(inner@, ','),
                        inner@.len() < raw@.len(),
                        sum_len(pv) + pv.len() == inner@.len() + 1,
                        pv.len() >= 1,
                        forall|q: int| 0 <= q < pv.len() ==> #[trigger] parts@[q]@ == pv[q],
                        values_view(items@) == elems_classified(pv.subrange(0, i as int)),
                    decreases parts@.len() - i,
                {
                    let e = trim_chars(&parts[i]);
                    proof {
                        lemma_trim_spec_len(pv[i as int]);
                        lemma_sum_len_ge(pv, i as int);
                        assert(e@.len() <= pv[i as int].len());
                        assert(pv[i as int].len() <= sum_len(pv));
                        assert(e@.len() < raw@.len());
                    }
                    let ev = classify_exec(e);
                    let ghost prev = items@;
                    items.push(ev);
                    i = i + 1;
                    proof {
                        let pre = pv.subrange(0, i as int);
                        assert(pre.drop_last() =~= pv.subrange(0, i - 1));
                        assert(pre.last() == pv[i - 1]);
                        assert(items@.drop_last() =~= prev);
                        assert(items@.last() == ev);
                        assert(values_view(items@) == values_view(prev).push(value_view(ev)));
                        assert(values_view(items@) == elems_classified(pre));
                    }
                }
                proof {
                    assert(pv.subrange(0, pv.len() as int) =~= pv);
                    assert(is_array_text(raw@));
                    assert(raw@[raw@.len() - 1] == raw@.last());
                }
                JamlValue::Array(items)
            },
        }
    } else {
        match parse_int_chars(&raw) {
            Some(n) => JamlValue::Integer(n),
            None => {
                proof {
                    assert(!is_array_text(raw@));
                }
                JamlValue::String(chars_to_string(&raw))
            },
        }
    }
}

/// Find-or-create the section chain `path`, starting at the root.
/// Fails exactly when some existing segment is not a section.
pub fn vivify_for_store(es: Vec<(String, JamlValue)>, path: &Vec<String>) -> (r: Result<
    Vec<(String, JamlValue)>,
    (),
>)
    ensures
        vivify_ok(root_view(es@), views_of(path@)) ==> (r matches Ok(out) && root_view(out@)
            == vivify(root_view(es@), views_of(path@))),
        !vivify_ok(root_view(es@), views_of(path@)) ==> r is Err,
{
    proof {
        assert(views_of(path@).skip(0) =~= views_of(path@));
    }
    vivify_exec(es, path, 0)
}

/// Insert `k = v` into the section `path` leads to.
pub fn put_for_store(
    es: Vec<(String, JamlValue)>,
    path: &Vec<String>,
    k: String,
    v: JamlValue,
) -> (r: Vec<(String, JamlValue)>)
    requires
        secs_at(root_view(es@), views_of(path@)),
    ensures
        root_view(r@) == put_at(root_view(es@), views_of(path@), k@, v@),
{
    proof {
        assert(views_of(path@).skip(0) =~= views_of(path@));
    }
    put_at_exec(es, path, 0, k, v)
}

/// Find-or-create the section chain `path[at..]`, starting inside `es`.
/// Fails exactly when some existing segment is not a section.
fn vivify_exec(es: Vec<(String, JamlValue)>, path: &Vec<String>, at: usize) -> (r: Result<
    Vec<(String, JamlValue)>,
    (),
>)
    requires
        at <= path@.len(),
    ensures
        vivify_ok(root_view(es@), views_of(path@).skip(at as int)) ==> (r matches Ok(out)
            && root_view(out@) == vivify(root_view(es@), views_of(path@).skip(at as int))),
        !vivify_ok(root_view(es@), views_of(path@).skip(at as int)) ==> r is Err,
    decreases path@.len() - at,
{
    let ghost p = views_of(path@).skip(at as int);
    if at == path.len() {
        proof {
            assert(p.len() == 0);
        }
        return Ok(es);
    }
    proof {
        assert(p[0] == path@[at as int]@);
        assert(p.drop_first() =~= views_of(path@).skip(at + 1));
    }
    let idx = map_find(&es, &path[at]);
    let ghost rv = root_view(es@);
    proof {
        lemma_root_view(es@);
        lemma_sec_find(rv, p[0]);
    }
    if idx == es.len() {
        let sub = match vivify_exec(Vec::new(), path, at + 1) {
            Ok(s) => s,
            Err(()) => {
                proof {
                    assert(root_view(Seq::<(String, JamlValue)>::empty()) =~= Seq::<(Seq<char>, SpecValue)>::empty());
                    assert(!sec_has(Seq::<(Seq<char>, SpecValue)>::empty(), views_of(path@).skip(at + 1)[0]));
                    assert(false);
                }
                return Err(());
            },
        };
        proof {
            assert(root_view(Seq::<(String, JamlValue)>::empty()) =~= Seq::<(Seq<char>, SpecValue)>::empty());
        }
        let mut es = es;
        let key = clone_string(&path[at]);
        let ghost prev = es@;
        es.push((key, JamlValue::Section(sub)));
        proof {
            assert(es@.drop_last() =~= prev);
            assert(es@.last() == (key, JamlValue::Section(sub)));
            lemma_root_view(es@);
            lemma_root_view(prev);
            lemma_sec_find(rv, p[0]);
            assert(!sec_has(rv, p[0]));
            assert(value_view(JamlValue::Section(sub)) == SpecValue::Section(root_view(sub@)));
            assert(root_view(es@) == root_view(prev).push((key@, SpecValue::Section(root_view(sub@)))));
            assert(root_view(es@) =~= rv.push((p[0], SpecValue::Section(vivify(Seq::empty(), p.drop_first())))));
        }
        Ok(es)
    } else {
        proof {
            assert(rv[idx as int].0 == p[0]);
            assert(sec_has(rv, p[0]));
        }
        let mut es = es;
        let ghost prev = es@;
        let pair = es.remove(idx);
        let (key, val) = pair;
        match val {
            JamlValue::Section(sub) => {
                proof {
                    assert(prev[idx as int] == (key, JamlValue::Section(sub)));
                    assert(value_view(JamlValue::Section(sub)) == SpecValue::Section(root_view(sub@)));
                    assert(rv[idx as int].1 == value_view(prev[idx as int].1));
                    assert(sec_get(rv, p[0]) == SpecValue::Section(root_view(sub@)));
                    assert(entries_of(sec_get(rv, p[0])) == root_view(sub@));
                }
                let sub2 = match vivify_exec(sub, path, at + 1) {
                    Ok(s) => s,
                    Err(()) => {
                        return Err(());
                    },
                };
                es.insert(idx, (key, JamlValue::Section(sub2)));
                proof {
                    assert(es@ =~= prev.update(idx as int, (key, JamlValue::Section(sub2))));
                    lemma_root_view(es@);
                    lemma_root_view(prev);
                    assert(value_view(JamlValue::Section(sub2)) == SpecValue::Section(root_view(sub2@)));
                    assert(key@ == p[0]);
                    assert(root_view(es@) =~= rv.update(
                        idx as int,
                        (p[0], SpecValue::Section(vivify(entries_of(sec_get(rv, p[0])), p.drop_first()))),
                    ));
                }
                Ok(es)
            },
            _ => {
                proof {
                    assert(!(sec_get(rv, p[0]) is Section));
                }
                Err(())
            },
        }
    }
}

/// Insert `k = v` into the section `path[at..]` leads to, overwriting in
/// place or appending at the end.
fn put_at_exec(
    es: Vec<(String, JamlValue)>,
    path: &Vec<String>,
    at: usize,
    k: String,
    v: JamlValue,
) -> (r: Vec<(String, JamlValue)>)
    requires
        at <= path@.len(),
        secs_at(root_view(es@), views_of(path@).skip(at as int)),
    ensures
        root_view(r@) == put_at(root_view(es@), views_of(path@).skip(at as int), k@, v@),
    decreases path@.len() - at,
{
    let ghost p = views_of(path@).skip(at as int);
    let ghost rv = root_view(es@);
    proof {
        lemma_root_view(es@);
    }
    if at == path.len() {
        proof {
            assert(p.len() == 0);
        }
        let idx = map_find(&es, &k);
        proof {
            lemma_sec_find(rv, k@);
        }
        let mut es = es;
        let ghost kv = k@;
        let ghost vv = v@;
        let ghost prev = es@;
        if idx == es.len() {
            es.push((k, v));
            proof {
                assert(es@.drop_last() =~= prev);
                assert(es@.last() == (k, v));
                lemma_root_view(es@);
                lemma_root_view(prev);
                assert(root_view(es@) =~= rv.push((kv, vv)));
            }
            es
        } else {
            es.remove(idx);
            es.insert(idx, (k, v));
            proof {
                assert(es@ =~= prev.update(idx as int, (k, v)));
                lemma_root_view(es@);
                lemma_root_view(prev);
                assert(root_view(es@) =~= rv.update(idx as int, (kv, vv)));
            }
            es
        }
    } else {
        proof {
            assert(p[0] == path@[at as int]@);
            assert(p.drop_first() =~= views_of(path@).skip(at + 1));
        }
        let idx = map_find(&es, &path[at]);
        proof {
            lemma_sec_find(rv, p[0]);
            assert(idx < es@.len());
            assert(rv[idx as int].0 == p[0]);
        }
        let mut es = es;
        let ghost kv = k@;
        let ghost vv = v@;
        let ghost prev = es@;
        let pair = es.remove(idx);
        let (key, val) = pair;
        match val {
            JamlValue::Section(sub) => {
                proof {
                    assert(prev[idx as int] == (key, JamlValue::Section(sub)));
                    assert(value_view(JamlValue::Section(sub)) == SpecValue::Section(root_view(sub@)));
                    assert(rv[idx as int].1 == value_view(prev[idx as int].1));
                    assert(sec_get(rv, p[0]) == SpecValue::Section(root_view(sub@)));
                    assert(entries_of(sec_get(rv, p[0])) == root_view(sub@));
                }
                let sub2 = put_at_exec(sub, path, at + 1, k, v);
                es.insert(idx, (key, JamlValue::Section(sub2)));
                proof {
                    assert(es@ =~= prev.update(idx as int, (key, JamlValue::Section(sub2))));
                    lemma_root_view(es@);
                    lemma_root_view(prev);
                    assert(value_view(JamlValue::Section(sub2)) == SpecValue::Section(root_view(sub2@)));
                    assert(key@ == p[0]);
                    assert(root_view(es@) =~= rv.update(
                        idx as int,
                        (p[0], SpecValue::Section(put_at(entries_of(sec_get(rv, p[0])), p.drop_first(), kv, vv))),
                    ));
                }
                es
            },
            _ => {
                proof {
                    assert(false);
                }
                vstd::pervasive::unreached()
            },
        }
    }
}

fn clone_string(s: &String) -> (r: String)
    ensures
        r@ == s@,
{
    s.clone()
}

} // verus!
use crate::value::JamlError;
use crate::text::str_to_chars;

verus! {

pub open spec fn ctx_view(c: Option<Vec<String>>) -> Option<Seq<Seq<char>>> {
    match c {
        Option::Some(p) => Option::Some(views_of(p@)),
        Option::None => Option::None,
    }
}

/// Parse a whole text into the root mapping, or report the first
/// failure: `Syntax` with the line number for a malformed line, and
/// `SectionConflict` with the header's line number where a header's
/// dotted path runs into an existing non-section value (a fatal
/// condition of its own). The result is exactly `parse_spec` of the
/// input.
pub fn parse(input: &str) -> (r: Result<Vec<(String, JamlValue)>, JamlError>)
    ensures
        parse_spec(input@) matches Ok(m) ==> (r matches Ok(out) && root_view(out@) == m),
        parse_spec(input@) matches Err(f) ==> (r matches Err(e) && match f {
            ParseFailure::Malformed(ln) => e matches JamlError::Syntax(n) && n as int == ln,
            ParseFailure::SectionCollision(ln) => e matches JamlError::SectionConflict(n) && n as int == ln,
        }),
{
    let chars = str_to_chars(input);
    let lines = split_chars(&chars, '\n');
    let ghost lv = split_char(input@, '\n');
    let ghost target = parse_spec(input@);
    let mut data: Vec<(String, JamlValue)> = Vec::new();
    let mut ctx: Option<Vec<String>> = None;
    let empty_path: Vec<String> = Vec::new();
    let mut idx: usize = 0;
    proof {
        assert(root_view(data@) =~= Seq::<(Seq<char>, SpecValue)>::empty());
        assert(lv.skip(0) =~= lv);
    }
    while idx < lines.len()
        invariant
            idx <= lines@.len(),
            lines@.len() == lv.len(),
            forall|q: int| 0 <= q < lv.len() ==> #[trigger] lines@[q]@ == lv[q],
            target == parse_spec(input@),
            parse_lines(lv.skip(idx as int), root_view(data@), ctx_view(ctx), idx + 1) == target,
            ctx matches Some(pv) ==> secs_at(root_view(data@), views_of(pv@)),
            empty_path@.len() == 0,
        decreases lines@.len() - idx,
    {
        let ghost ls = lv.skip(idx as int);
        proof {
            assert(ls[0] == lv[idx as int]);
            assert(ls.drop_first() =~= lv.skip(idx + 1));
        }
        let t = trim_chars(&lines[idx]);
        let tl = t.len();
        let ghost tv = trim_spec(lv[idx as int]);
        proof {
            assert(t@ == tv);
        }
        if tl == 0 {
            proof {
                assert(line_kind(ls[0]) is Skip);
            }
        } else if t[0] == '#' {
            proof {
                assert(line_kind(ls[0]) is Skip);
            }
        } else if t[0] == '[' && t[tl - 1] == ']' {
            proof {
                assert(tv.last() == tv[tl - 1]);
                assert(line_kind(ls[0]) == LineKind::Header(split_char(tv.subrange(1, tv.len() - 1), '.')));
            }
            let content = sub_chars(&t, 1, tl - 1);
            let seg_chars = split_chars(&content, '.');
            let ghost sv = split_char(content@, '.');
            let mut segs: Vec<String> = Vec::new();
            let mut si: usize = 0;
            while si < seg_chars.len()
                invariant
                    si <= seg_chars@.len(),
                    seg_chars@.len() == sv.len(),
                    forall|q: int| 0 <= q < sv.len() ==> #[trigger] seg_chars@[q]@ == sv[q],
                    segs@.len() == si,
                    forall|q: int| 0 <= q < si ==> #[trigger] segs@[q]@ == sv[q],
                decreases seg_chars@.len() - si,
            {
                segs.push(chars_to_string(&seg_chars[si]));
                si = si + 1;
            }
            proof {
                assert(views_of(segs@) =~= sv);
                assert(views_of(segs@).skip(0) =~= views_of(segs@));
            }
            let ghost pre_rv = root_view(data@);
            match vivify_exec(data, &segs, 0) {
                Ok(d) => {
                    proof {
                        assert(vivify_ok(pre_rv, views_of(segs@)));
                        lemma_vivify_secs_at(pre_rv, views_of(segs@));
                    }
                    data = d;
                    ctx = Some(segs);
                },
                Err(()) => {
                    proof {
                        assert(!vivify_ok(pre_rv, views_of(segs@)));
                        assert(parse_lines(ls, pre_rv, ctx_view(ctx), idx + 1) == Result::<
                            Seq<(Seq<char>, SpecValue)>,
                            ParseFailure,
                        >::Err(ParseFailure::SectionCollision(idx + 1)));
                    }
                    return Err(JamlError::SectionConflict(idx + 1));
                },
            }
        } else {
            let (cnt, eq) = scan_char(&t, '=');
            if cnt == 1 {
                proof {
                    lemma_find_char(tv, '=');
                    assert(count_char(tv, '=') != 0);
                    assert(eq < tl);
                    assert(line_kind(ls[0]) == LineKind::Pair(
                        trim_spec(tv.subrange(0, eq as int)),
                        classify(trim_spec(tv.subrange(eq + 1, tv.len() as int))),
                    ));
                }
                let key_raw = sub_chars(&t, 0, eq);
                let key_chars = trim_chars(&key_raw);
                let val_raw = sub_chars(&t, eq + 1, tl);
                let val_chars = trim_chars(&val_raw);
                let value = classify_exec(val_chars);
                let key = chars_to_string(&key_chars);
                let ghost tpath = match ctx_view(ctx) {
                    Option::Some(p) => p,
                    Option::None => Seq::<Seq<char>>::empty(),
                };
                let path_ref: &Vec<String> = match &ctx {
                    Some(pp) => pp,
                    None => &empty_path,
                };
                proof {
                    assert(views_of(path_ref@) =~= tpath);
                    assert(views_of(path_ref@).skip(0) =~= views_of(path_ref@));
                    if ctx is None {
                        assert(secs_at(root_view(data@), views_of(path_ref@)));
                    }
                    lemma_put_at_secs_at(root_view(data@), tpath, key_chars@, value@);
                }
                data = put_at_exec(data, path_ref, 0, key, value);
            } else {
                proof {
                    assert(line_kind(ls[0]) is Bad);
                }
                return Err(JamlError::Syntax(idx + 1));
            }
        }
        idx = idx + 1;
    }
    proof {
        assert(lv.skip(idx as int) =~= Seq::<Seq<char>>::empty());
    }
    Ok(data)
}

} // verus!
