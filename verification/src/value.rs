//! The JAML value model: a closed recursive union of scalars, arrays,
//! and nested sections, together with its mathematical view and the
//! ordered-mapping operations (unique keys, insertion order preserved,
//! overwrite in place) that sections and the root obey.
use vstd::prelude::*;

verus! {

/// The error conditions of the library.
#[derive(Debug, PartialEq)]
pub enum JamlError {
    /// A line that is neither blank, comment, section header, nor a
    /// `key = value` pair; carries the 1-based line number.
    Syntax(usize),
    /// An underlying read or write failure, described in text.
    Io(String),
    /// A dotted-path lookup that could not be resolved; carries the
    /// originally requested path.
    KeyNotFound(String),
    /// A section header whose dotted path runs into an existing value
    /// that is not a section — the internal-consistency class, a fatal
    /// condition of its own, not a malformed line; carries the header's
    /// 1-based line number.
    SectionConflict(usize),
}

/// A JAML value. Sections hold their entries in insertion order.
#[derive(Debug, PartialEq)]
pub enum JamlValue {
    String(String),
    Integer(i64),
    Boolean(bool),
    Array(Vec<JamlValue>),
    Section(Vec<(String, JamlValue)>),
}

/// The mathematical shape of a value: what the contracts speak about.
pub enum SpecValue {
    String(Seq<char>),
    Integer(int),
    Boolean(bool),
    Array(Seq<SpecValue>),
    Section(Seq<(Seq<char>, SpecValue)>),
}

pub open spec fn value_view(v: JamlValue) -> SpecValue
    decreases v,
{
    match v {
        JamlValue::String(s) => SpecValue::String(s@),
        JamlValue::Integer(n) => SpecValue::Integer(n as int),
        JamlValue::Boolean(b) => SpecValue::Boolean(b),
        JamlValue::Array(items) => SpecValue::Array(values_view(items@)),
        JamlValue::Section(es) => SpecValue::Section(root_view(es@)),
    }
}

pub open spec fn values_view(items: Seq<JamlValue>) -> Seq<SpecValue>
    decreases items,
{
    if items.len() == 0 {
        Seq::empty()
    } else {
        values_view(items.drop_last()).push(value_view(items.last()))
    }
}

/// View of a list of named entries (the root mapping or a section body).
pub open spec fn root_view(es: Seq<(String, JamlValue)>) -> Seq<(Seq<char>, SpecValue)>
    decreases es,
{
    if es.len() == 0 {
        Seq::empty()
    } else {
        root_view(es.drop_last()).push((es.last().0@, value_view(es.last().1)))
    }
}

impl View for JamlValue {
    type V = SpecValue;

    open spec fn view(&self) -> SpecValue {
        value_view(*self)
    }
}

pub proof fn lemma_values_view(items: Seq<JamlValue>)
    ensures
        values_view(items).len() == items.len(),
        forall|i: int| 0 <= i < items.len() ==> #[trigger] values_view(items)[i] == value_view(items[i]),
    decreases items.len(),
{
    if items.len() > 0 {
        lemma_values_view(items.drop_last());
        assert(forall|i: int| 0 <= i < items.len() - 1 ==> items.drop_last()[i] == items[i]);
    }
}

pub proof fn lemma_root_view(es: Seq<(String, JamlValue)>)
    ensures
        root_view(es).len() == es.len(),
        forall|i: int| 0 <= i < es.len() ==> #[trigger] root_view(es)[i] == (es[i].0@, value_view(es[i].1)),
    decreases es.len(),
{
    if es.len() > 0 {
        lemma_root_view(es.drop_last());
        assert(forall|i: int| 0 <= i < es.len() - 1 ==> es.drop_last()[i] == es[i]);
    }
}

/// The entries of a section value (empty for non-sections).
pub open spec fn entries_of(v: SpecValue) -> Seq<(Seq<char>, SpecValue)> {
    match v {
        SpecValue::Section(es) => es,
        _ => Seq::empty(),
    }
}

/// Index of the first entry named `k`, or `es.len()` if there is none.
pub open spec fn sec_find(es: Seq<(Seq<char>, SpecValue)>, k: Seq<char>) -> int
    decreases es.len(),
{
    if es.len() == 0 {
        0
    } else if es[0].0 == k {
        0
    } else {
        1 + sec_find(es.drop_first(), k)
    }
}

pub open spec fn sec_has(es: Seq<(Seq<char>, SpecValue)>, k: Seq<char>) -> bool {
    sec_find(es, k) < es.len()
}

pub open spec fn sec_get(es: Seq<(Seq<char>, SpecValue)>, k: Seq<char>) -> SpecValue {
    es[sec_find(es, k)].1
}

/// Insert or overwrite: an existing key keeps its position, a new key
/// goes to the end.
pub open spec fn sec_put(
    es: Seq<(Seq<char>, SpecValue)>,
    k: Seq<char>,
    v: SpecValue,
) -> Seq<(Seq<char>, SpecValue)> {
    if sec_has(es, k) {
        es.update(sec_find(es, k), (k, v))
    } else {
        es.push((k, v))
    }
}

pub proof fn lemma_sec_find(es: Seq<(Seq<char>, SpecValue)>, k: Seq<char>)
    ensures
        0 <= sec_find(es, k) <= es.len(),
        sec_find(es, k) < es.len() ==> es[sec_find(es, k)].0 == k,
        forall|j: int| 0 <= j < sec_find(es, k) ==> es[j].0 != k,
        sec_find(es, k) == es.len() ==> forall|j: int| 0 <= j < es.len() ==> es[j].0 != k,
    decreases es.len(),
{
    if es.len() > 0 && es[0].0 != k {
        lemma_sec_find(es.drop_first(), k);
        let fd = sec_find(es.drop_first(), k);
        if fd < es.drop_first().len() {
            assert(es[1 + fd] == es.drop_first()[fd]);
        }
        assert(forall|j: int| 1 <= j < es.len() ==> es[j] == es.drop_first()[j - 1]);
    }
}

/// Overwriting the entry at its own position leaves the key's first
/// position unchanged.
pub proof fn lemma_sec_find_update(
    es: Seq<(Seq<char>, SpecValue)>,
    k: Seq<char>,
    v: SpecValue,
)
    requires
        sec_has(es, k),
    ensures
        sec_find(sec_put(es, k, v), k) == sec_find(es, k),
        sec_put(es, k, v).len() == es.len(),
        sec_get(sec_put(es, k, v), k) == v,
    decreases es.len(),
{
    lemma_sec_find(es, k);
    let f = sec_find(es, k);
    let es2 = es.update(f, (k, v));
    lemma_sec_find(es2, k);
    let f2 = sec_find(es2, k);
    if f2 < f {
        assert(es[f2].0 != k);
        assert(es2[f2].0 == es[f2].0);
    }
    if f2 > f {
        assert(es2[f].0 == k);
    }
}

/// A key that is absent lands at the end, and is then found there.
pub proof fn lemma_sec_find_push(
    es: Seq<(Seq<char>, SpecValue)>,
    k: Seq<char>,
    v: SpecValue,
)
    requires
        !sec_has(es, k),
    ensures
        sec_find(sec_put(es, k, v), k) == es.len(),
        sec_put(es, k, v).len() == es.len() + 1,
        sec_get(sec_put(es, k, v), k) == v,
{
    lemma_sec_find(es, k);
    let es2 = es.push((k, v));
    lemma_sec_find(es2, k);
    let f2 = sec_find(es2, k);
    if f2 < es.len() {
        assert(es[f2].0 != k);
        assert(es2[f2].0 == es[f2].0);
    }
    assert(es2[es.len() as int].0 == k);
}

/// Does the whole dotted chain resolve to sections?
pub open spec fn secs_at(es: Seq<(Seq<char>, SpecValue)>, path: Seq<Seq<char>>) -> bool
    decreases path.len(),
{
    path.len() == 0 || {
        &&& sec_has(es, path[0])
        &&& sec_get(es, path[0]) is Section
        &&& secs_at(entries_of(sec_get(es, path[0])), path.drop_first())
    }
}

/// The entries of the section the chain leads to.
pub open spec fn map_at(
    es: Seq<(Seq<char>, SpecValue)>,
    path: Seq<Seq<char>>,
) -> Seq<(Seq<char>, SpecValue)>
    decreases path.len(),
{
    if path.len() == 0 {
        es
    } else {
        map_at(entries_of(sec_get(es, path[0])), path.drop_first())
    }
}

/// May the chain be created? Every segment that already exists must be
/// a section; everything past the first missing segment is created fresh.
pub open spec fn vivify_ok(es: Seq<(Seq<char>, SpecValue)>, path: Seq<Seq<char>>) -> bool
    decreases path.len(),
{
    path.len() == 0 || if !sec_has(es, path[0]) {
        true
    } else {
        sec_get(es, path[0]) is Section && vivify_ok(entries_of(sec_get(es, path[0])), path.drop_first())
    }
}

/// Find-or-create a section at every segment of the chain; existing
/// entries keep their positions, created ones go to the end.
pub open spec fn vivify(
    es: Seq<(Seq<char>, SpecValue)>,
    path: Seq<Seq<char>>,
) -> Seq<(Seq<char>, SpecValue)>
    decreases path.len(),
{
    if path.len() == 0 {
        es
    } else if sec_has(es, path[0]) {
        es.update(
            sec_find(es, path[0]),
            (path[0], SpecValue::Section(vivify(entries_of(sec_get(es, path[0])), path.drop_first()))),
        )
    } else {
        es.push((path[0], SpecValue::Section(vivify(Seq::empty(), path.drop_first()))))
    }
}

/// Insert `k = v` into the section the chain leads to.
pub open spec fn put_at(
    es: Seq<(Seq<char>, SpecValue)>,
    path: Seq<Seq<char>>,
    k: Seq<char>,
    v: SpecValue,
) -> Seq<(Seq<char>, SpecValue)>
    recommends
        secs_at(es, path),
    decreases path.len(),
{
    if path.len() == 0 {
        sec_put(es, k, v)
    } else if sec_has(es, path[0]) && sec_get(es, path[0]) is Section {
        es.update(
            sec_find(es, path[0]),
            (path[0], SpecValue::Section(put_at(entries_of(sec_get(es, path[0])), path.drop_first(), k, v))),
        )
    } else {
        es
    }
}

pub proof fn lemma_vivify_secs_at(es: Seq<(Seq<char>, SpecValue)>, path: Seq<Seq<char>>)
    requires
        vivify_ok(es, path),
    ensures
        secs_at(vivify(es, path), path),
    decreases path.len(),
{
    if path.len() > 0 {
        let k = path[0];
        if sec_has(es, k) {
            let sub = entries_of(sec_get(es, k));
            lemma_vivify_secs_at(sub, path.drop_first());
            lemma_sec_find(es, k);
            lemma_sec_find_update(es, k, SpecValue::Section(vivify(sub, path.drop_first())));
        } else {
            lemma_vivify_secs_at(Seq::empty(), path.drop_first());
            lemma_sec_find_push(es, k, SpecValue::Section(vivify(Seq::empty(), path.drop_first())));
        }
    }
}

pub proof fn lemma_put_at_secs_at(
    es: Seq<(Seq<char>, SpecValue)>,
    path: Seq<Seq<char>>,
    k: Seq<char>,
    v: SpecValue,
)
    requires
        secs_at(es, path),
    ensures
        secs_at(put_at(es, path, k, v), path),
    decreases path.len(),
{
    if path.len() > 0 {
        let p0 = path[0];
        let sub = entries_of(sec_get(es, p0));
        lemma_put_at_secs_at(sub, path.drop_first(), k, v);
        lemma_sec_find(es, p0);
        lemma_sec_find_update(es, p0, SpecValue::Section(put_at(sub, path.drop_first(), k, v)));
    }
}

/// First index holding key `k` in a list of entries, executable side.
pub fn map_find(es: &Vec<(String, JamlValue)>, k: &String) -> (r: usize)
    ensures
        r as int == sec_find(root_view(es@), k@),
        r <= es@.len(),
{
    let n = es.len();
    let mut i: usize = 0;
    while i < n
        invariant
            i <= n,
            n == es@.len(),
            forall|j: int| 0 <= j < i ==> (#[trigger] root_view(es@)[j]).0 != k@,
        decreases n - i,
    {
        if es[i].0 == *k {
            proof {
                let rv = root_view(es@);
                lemma_root_view(es@);
                lemma_sec_find(rv, k@);
                let f = sec_find(rv, k@);
                assert(rv[i as int].0 == k@);
                if f < i as int {
                    assert(rv[f].0 != k@);
                }
                if f > i as int {
                    assert(rv[i as int].0 != k@);
                }
            }
            return i;
        }
        proof {
            lemma_root_view(es@);
            assert(root_view(es@)[i as int].0 == es@[i as int].0@);
        }
        i = i + 1;
    }
    proof {
        let rv = root_view(es@);
        lemma_root_view(es@);
        lemma_sec_find(rv, k@);
        if sec_find(rv, k@) < rv.len() {
            assert(rv[sec_find(rv, k@)].0 != k@);
        }
    }
    n
}

} // verus!
