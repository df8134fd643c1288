//! The serializer: a root mapping back to canonical text. At every level
//! all scalar entries are emitted first, one `key = value` line each in
//! insertion order; then every section, in insertion order, as a blank
//! line, a `[full.dotted.path]` header, and its own body. Rendering is
//! defined only for trees whose arrays hold scalars alone.
use vstd::prelude::*;
use crate::text::{render_int, int_to_chars, str_to_chars, chars_to_string, push_all};
use crate::parser::{lit_true, lit_false};
use crate::value::{
    JamlValue, SpecValue, value_view, values_view, root_view, lemma_root_view,
    lemma_values_view,
};

verus! {

pub open spec fn scalar_ok(v: SpecValue) -> bool {
    v is String || v is Integer || v is Boolean
}

pub open spec fn scalars_only(items: Seq<SpecValue>) -> bool
    decreases items.len(),
{
    items.len() == 0 || (scalar_ok(items[0]) && scalars_only(items.drop_first()))
}

/// Rendering succeeds: arrays hold scalars only, everywhere in the tree.
pub open spec fn serializable(v: SpecValue) -> bool
    decreases v,
{
    match v {
        SpecValue::Array(items) => scalars_only(items),
        SpecValue::Section(es) => entries_serializable(es),
        _ => true,
    }
}

pub open spec fn entries_serializable(es: Seq<(Seq<char>, SpecValue)>) -> bool
    decreases es,
{
    es.len() == 0 || (serializable(es[0].1) && entries_serializable(es.drop_first()))
}

pub proof fn lemma_scalars_only(items: Seq<SpecValue>)
    ensures
        scalars_only(items) <==> (forall|i: int| 0 <= i < items.len() ==> scalar_ok(#[trigger] items[i])),
    decreases items.len(),
{
    if items.len() > 0 {
        lemma_scalars_only(items.drop_first());
        assert(forall|i: int| 1 <= i < items.len() ==> items.drop_first()[i - 1] == #[trigger] items[i]);
        if scalar_ok(items[0]) && scalars_only(items.drop_first()) {
            assert(forall|i: int| 0 <= i < items.drop_first().len() ==> scalar_ok(#[trigger] items.drop_first()[i]));
        }
    }
}

pub proof fn lemma_entries_serializable(es: Seq<(Seq<char>, SpecValue)>)
    ensures
        entries_serializable(es) <==> (forall|i: int| 0 <= i < es.len() ==> serializable((#[trigger] es[i]).1)),
    decreases es.len(),
{
    if es.len() > 0 {
        lemma_entries_serializable(es.drop_first());
        assert(forall|i: int| 1 <= i < es.len() ==> es.drop_first()[i - 1] == #[trigger] es[i]);
        if serializable(es[0].1) && entries_serializable(es.drop_first()) {
            assert(forall|i: int| 0 <= i < es.drop_first().len() ==> serializable((#[trigger] es.drop_first()[i]).1));
        }
    }
}

pub open spec fn render_scalar(v: SpecValue) -> Seq<char> {
    match v {
        SpecValue::String(s) => s,
        SpecValue::Integer(n) => render_int(n),
        SpecValue::Boolean(b) => if b {
            lit_true()
        } else {
            lit_false()
        },
        _ => Seq::empty(),
    }
}

pub open spec fn render_elems(items: Seq<SpecValue>) -> Seq<char>
    decreases items.len(),
{
    if items.len() == 0 {
        Seq::empty()
    } else if items.len() == 1 {
        render_scalar(items[0])
    } else {
        render_elems(items.drop_last()) + seq![',', ' '] + render_scalar(items.last())
    }
}

pub open spec fn render_value(v: SpecValue) -> Seq<char> {
    match v {
        SpecValue::Array(items) => seq!['['] + render_elems(items) + seq![']'],
        _ => render_scalar(v),
    }
}

pub open spec fn line_of(k: Seq<char>, v: SpecValue) -> Seq<char> {
    k + seq![' ', '=', ' '] + render_value(v) + seq!['\n']
}

/// The scalar lines of one mapping, in insertion order.
pub open spec fn ser_scalars(es: Seq<(Seq<char>, SpecValue)>) -> Seq<char>
    decreases es.len(),
{
    if es.len() == 0 {
        Seq::empty()
    } else {
        ser_scalars(es.drop_last()) + (if es.last().1 is Section {
            Seq::<char>::empty()
        } else {
            line_of(es.last().0, es.last().1)
        })
    }
}

pub open spec fn child_name(prefix: Option<Seq<char>>, k: Seq<char>) -> Seq<char> {
    match prefix {
        Option::Some(p) => p + seq!['.'] + k,
        Option::None => k,
    }
}

pub open spec fn header_of(name: Seq<char>) -> Seq<char> {
    seq!['\n', '['] + name + seq![']', '\n']
}

/// The section blocks of one mapping, in insertion order, depth first.
pub open spec fn ser_sections(es: Seq<(Seq<char>, SpecValue)>, prefix: Option<Seq<char>>) -> Seq<char>
    decreases es,
{
    if es.len() == 0 {
        Seq::empty()
    } else {
        ser_sections(es.drop_last(), prefix) + match es.last().1 {
            SpecValue::Section(sub) => {
                let name = child_name(prefix, es.last().0);
                header_of(name) + ser_scalars(sub) + ser_sections(sub, Some(name))
            },
            _ => Seq::<char>::empty(),
        }
    }
}

/// The canonical text of a root mapping: scalars before sections at
/// every level.
pub open spec fn serialize_spec(es: Seq<(Seq<char>, SpecValue)>) -> Seq<char> {
    ser_scalars(es) + ser_sections(es, None)
}

pub open spec fn opt_view(p: Option<Vec<char>>) -> Option<Seq<char>> {
    match p {
        Option::Some(q) => Option::Some(q@),
        Option::None => Option::None,
    }
}

fn render_scalar_exec(v: &JamlValue, out: &mut Vec<char>)
    requires
        scalar_ok(v@),
    ensures
        final(out)@ == old(out)@ + render_scalar(v@),
{
    match v {
        JamlValue::String(s) => {
            let cs = str_to_chars(s.as_str());
            push_all(out, &cs);
        },
        JamlValue::Integer(n) => {
            let cs = int_to_chars(*n);
            push_all(out, &cs);
        },
        JamlValue::Boolean(b) => {
            if *b {
                out.push('t');
                out.push('r');
                out.push('u');
                out.push('e');
                proof {
                    assert(out@ =~= old(out)@ + lit_true());
                }
            } else {
                out.push('f');
                out.push('a');
                out.push('l');
                out.push('s');
                out.push('e');
                proof {
                    assert(out@ =~= old(out)@ + lit_false());
                }
            }
        },
        _ => {
            proof {
                assert(false);
            }
        },
    }
}

fn render_value_exec(v: &JamlValue, out: &mut Vec<char>)
    requires
        serializable(v@),
        !(v@ is Section),
    ensures
        final(out)@ == old(out)@ + render_value(v@),
{
    match v {
        JamlValue::Array(items) => {
            let ghost iv = values_view(items@);
            proof {
                lemma_values_view(items@);
                assert(v@ == SpecValue::Array(iv));
                assert(serializable(SpecValue::Array(iv)));
                lemma_scalars_only(iv);
            }
            out.push('[');
            let mut i: usize = 0;
            while i < items.len()
                invariant
                    i <= items@.len(),
                    iv == values_view(items@),
                    iv.len() == items@.len(),
                    forall|q: int| 0 <= q < items@.len() ==> #[trigger] iv[q] == value_view(items@[q]),
                    forall|q: int| 0 <= q < iv.len() ==> scalar_ok(#[trigger] iv[q]),
                    out@ == old(out)@ + seq!['['] + render_elems(iv.subrange(0, i as int)),
                decreases items@.len() - i,
            {
                if i > 0 {
                    out.push(',');
                    out.push(' ');
                }
                proof {
                    assert(iv[i as int] == value_view(items@[i as int]));
                    assert(scalar_ok(iv[i as int]));
                }
                render_scalar_exec(&items[i], out);
                i = i + 1;
                proof {
                    let pre = iv.subrange(0, i as int);
                    assert(pre.drop_last() =~= iv.subrange(0, i - 1));
                    assert(pre.last() == iv[i - 1]);
                    if i == 1 {
                        assert(render_elems(pre) == render_scalar(iv[0]));
                        assert(out@ =~= old(out)@ + seq!['['] + render_elems(pre));
                    } else {
                        assert(render_elems(pre) == render_elems(iv.subrange(0, i - 1)) + seq![',', ' '] + render_scalar(iv[i - 1]));
                        assert(out@ =~= old(out)@ + seq!['['] + render_elems(pre));
                    }
                }
            }
            out.push(']');
            proof {
                assert(iv.subrange(0, iv.len() as int) =~= iv);
                assert(out@ =~= old(out)@ + (seq!['['] + render_elems(iv) + seq![']']));
            }
        },
        _ => {
            render_scalar_exec(v, out);
        },
    }
}

#[verifier::rlimit(50)]
fn ser_map_exec(es: &Vec<(String, JamlValue)>, prefix: &Option<Vec<char>>, out: &mut Vec<char>)
    requires
        entries_serializable(root_view(es@)),
    ensures
        final(out)@ == old(out)@ + ser_scalars(root_view(es@)) + ser_sections(root_view(es@), opt_view(*prefix)),
    decreases es@,
{
    let ghost rv = root_view(es@);
    let ghost pv = opt_view(*prefix);
    proof {
        lemma_root_view(es@);
        lemma_entries_serializable(rv);
        assert(rv.subrange(0, 0) =~= Seq::<(Seq<char>, SpecValue)>::empty());
    }
    let mut i: usize = 0;
    while i < es.len()
        invariant
            i <= es@.len(),
            rv == root_view(es@),
            rv.len() == es@.len(),
            forall|q: int| 0 <= q < es@.len() ==> #[trigger] rv[q] == (es@[q].0@, value_view(es@[q].1)),
            forall|q: int| 0 <= q < rv.len() ==> serializable((#[trigger] rv[q]).1),
            out@ == old(out)@ + ser_scalars(rv.subrange(0, i as int)),
        decreases es@.len() - i,
    {
        let ghost pre_out = out@;
        let is_sec = match &es[i].1 {
            JamlValue::Section(_) => true,
            _ => false,
        };
        if !is_sec {
            let kc = str_to_chars(es[i].0.as_str());
            push_all(out, &kc);
            out.push(' ');
            out.push('=');
            out.push(' ');
            render_value_exec(&es[i].1, out);
            out.push('\n');
            proof {
                assert(rv[i as int].1 == value_view(es@[i as int].1));
                assert(out@ =~= pre_out + line_of(rv[i as int].0, rv[i as int].1));
            }
        }
        i = i + 1;
        proof {
            let pre = rv.subrange(0, i as int);
            assert(pre.drop_last() =~= rv.subrange(0, i - 1));
            assert(pre.last() == rv[i - 1]);
            if is_sec {
                assert(rv[i - 1].1 is Section);
                assert(out@ =~= old(out)@ + ser_scalars(pre));
            } else {
                assert(!(rv[i - 1].1 is Section));
                assert(out@ =~= old(out)@ + ser_scalars(pre));
            }
        }
    }
    proof {
        assert(rv.subrange(0, rv.len() as int) =~= rv);
    }
    let ghost after_scalars = out@;
    let mut j: usize = 0;
    proof {
        assert(rv.subrange(0, 0) =~= Seq::<(Seq<char>, SpecValue)>::empty());
    }
    while j < es.len()
        invariant
            j <= es@.len(),
            rv == root_view(es@),
            rv.len() == es@.len(),
            forall|q: int| 0 <= q < es@.len() ==> #[trigger] rv[q] == (es@[q].0@, value_view(es@[q].1)),
            forall|q: int| 0 <= q < rv.len() ==> serializable((#[trigger] rv[q]).1),
            pv == opt_view(*prefix),
            after_scalars == old(out)@ + ser_scalars(rv),
            out@ == after_scalars + ser_sections(rv.subrange(0, j as int), pv),
        decreases es@.len() - j,
    {
        let ghost pre_out = out@;
        match &es[j].1 {
            JamlValue::Section(sub) => {
                let mut name: Vec<char> = match prefix {
                    Some(p) => {
                        let mut nm = Vec::new();
                        push_all(&mut nm, p);
                        nm.push('.');
                        nm
                    },
                    None => Vec::new(),
                };
                let kc = str_to_chars(es[j].0.as_str());
                push_all(&mut name, &kc);
                proof {
                    assert(name@ =~= child_name(pv, rv[j as int].0));
                }
                out.push('\n');
                out.push('[');
                push_all(out, &name);
                out.push(']');
                out.push('\n');
                proof {
                    assert(out@ =~= pre_out + header_of(name@));
                    assert(rv[j as int].1 == SpecValue::Section(root_view(sub@)));
                    assert(serializable(rv[j as int].1));
                    assert(entries_serializable(root_view(sub@)));
                }
                let sub_prefix: Option<Vec<char>> = Some(name);
                ser_map_exec(sub, &sub_prefix, out);
            },
            _ => {},
        }
        j = j + 1;
        proof {
            let pre = rv.subrange(0, j as int);
            assert(pre.drop_last() =~= rv.subrange(0, j - 1));
            assert(pre.last() == rv[j - 1]);
            assert(out@ =~= after_scalars + ser_sections(pre, pv));
        }
    }
    proof {
        assert(rv.subrange(0, rv.len() as int) =~= rv);
    }
}

/// Serialize a root mapping to its canonical text.
pub fn serialize(map: &Vec<(String, JamlValue)>) -> (r: String)
    requires
        entries_serializable(root_view(map@)),
    ensures
        r@ == serialize_spec(root_view(map@)),
{
    let mut out: Vec<char> = Vec::new();
    let pref: Option<Vec<char>> = None;
    ser_map_exec(map, &pref, &mut out);
    proof {
        assert(out@ =~= serialize_spec(root_view(map@)));
    }
    chars_to_string(&out)
}

} // verus!
