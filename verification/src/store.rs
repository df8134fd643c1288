//! The path store: one root mapping with dotted-path access. `get_value`
//! descends through sections and reports the full requested path when it
//! cannot; `set_value` creates missing intermediate sections on the way
//! (auto-vivification) and overwrites the final key in place.
use vstd::prelude::*;
use crate::text::{split_char, str_to_chars, chars_to_string, split_chars, lemma_split_char_len};
use crate::value::{
    JamlValue, JamlError, SpecValue, value_view, root_view, entries_of, sec_has,
    sec_get, vivify, vivify_ok, put_at, map_find, lemma_sec_find,
    lemma_root_view, lemma_vivify_secs_at,
};
use crate::parser::views_of;

verus! {

/// Does the dotted path lead to a value: every intermediate segment a
/// section, the final segment present in the last section reached?
pub open spec fn path_resolves(es: Seq<(Seq<char>, SpecValue)>, p: Seq<Seq<char>>) -> bool
    decreases p.len(),
{
    if p.len() == 0 {
        false
    } else if p.len() == 1 {
        sec_has(es, p[0])
    } else {
        sec_has(es, p[0]) && sec_get(es, p[0]) is Section && path_resolves(
            entries_of(sec_get(es, p[0])),
            p.drop_first(),
        )
    }
}

pub open spec fn path_lookup(es: Seq<(Seq<char>, SpecValue)>, p: Seq<Seq<char>>) -> SpecValue
    recommends
        path_resolves(es, p),
    decreases p.len(),
{
    if p.len() <= 1 {
        sec_get(es, p[0])
    } else {
        path_lookup(entries_of(sec_get(es, p[0])), p.drop_first())
    }
}

/// What `set_value` leaves behind: the chain before the final segment
/// found-or-created, then the final key bound in the section reached.
pub open spec fn set_path(
    es: Seq<(Seq<char>, SpecValue)>,
    p: Seq<Seq<char>>,
    v: SpecValue,
) -> Seq<(Seq<char>, SpecValue)>
    recommends
        p.len() >= 1,
        vivify_ok(es, p.drop_last()),
{
    put_at(vivify(es, p.drop_last()), p.drop_last(), p.last(), v)
}

/// The in-memory store: one root mapping, owned exclusively.
#[derive(Debug)]
pub struct Jaml {
    pub data: Vec<(String, JamlValue)>,
}

fn split_path(path: &str) -> (r: Vec<String>)
    ensures
        r@.len() == split_char(path@, '.').len(),
        forall|q: int| 0 <= q < r@.len() ==> #[trigger] r@[q]@ == split_char(path@, '.')[q],
        r@.len() >= 1,
{
    let cs = str_to_chars(path);
    let parts = split_chars(&cs, '.');
    let mut segs: Vec<String> = Vec::new();
    let mut i: usize = 0;
    while i < parts.len()
        invariant
            i <= parts@.len(),
            parts@.len() == split_char(path@, '.').len(),
            forall|q: int| 0 <= q < parts@.len() ==> #[trigger] parts@[q]@ == split_char(path@, '.')[q],
            segs@.len() == i,
            forall|q: int| 0 <= q < i ==> #[trigger] segs@[q]@ == split_char(path@, '.')[q],
        decreases parts@.len() - i,
    {
        segs.push(chars_to_string(&parts[i]));
        i = i + 1;
    }
    proof {
        lemma_split_char_len(path@, '.');
    }
    segs
}

impl Jaml {
    /// Look a dotted path up. Fails with `KeyNotFound`, naming the full
    /// requested path, exactly when the path does not resolve.
    pub fn get_value(&self, path: &str) -> (r: Result<&JamlValue, JamlError>)
        ensures
            ({
                let p = split_char(path@, '.');
                &&& path_resolves(root_view(self.data@), p) ==> (r matches Ok(v) && v@
                    == path_lookup(root_view(self.data@), p))
                &&& !path_resolves(root_view(self.data@), p) ==> (r matches Err(e) && (e matches JamlError::KeyNotFound(q) && q@ == path@))
            }),
    {
        let segs = split_path(path);
        let ghost p = split_char(path@, '.');
        let ghost rv0 = root_view(self.data@);
        let mut cur: &Vec<(String, JamlValue)> = &self.data;
        let mut i: usize = 0;
        proof {
            assert(p.skip(0) =~= p);
        }
        while i < segs.len()
            invariant
                0 <= i < segs@.len(),
                p == split_char(path@, '.'),
                segs@.len() == p.len(),
                forall|q: int| 0 <= q < p.len() ==> #[trigger] segs@[q]@ == p[q],
                rv0 == root_view(self.data@),
                path_resolves(rv0, p) == path_resolves(root_view(cur@), p.skip(i as int)),
                path_resolves(rv0, p) ==> path_lookup(rv0, p) == path_lookup(root_view(cur@), p.skip(i as int)),
            decreases segs@.len() - i,
        {
            let ghost sp = p.skip(i as int);
            proof {
                assert(sp[0] == p[i as int]);
                assert(sp.drop_first() =~= p.skip(i + 1));
                lemma_root_view(cur@);
                lemma_sec_find(root_view(cur@), p[i as int]);
            }
            let idx = map_find(cur, &segs[i]);
            if idx == cur.len() {
                proof {
                    assert(!sec_has(root_view(cur@), sp[0]));
                    assert(!path_resolves(root_view(cur@), sp));
                }
                return Err(JamlError::KeyNotFound(path.to_owned()));
            }
            proof {
                assert(root_view(cur@)[idx as int].1 == value_view(cur@[idx as int].1));
                assert(sec_get(root_view(cur@), sp[0]) == value_view(cur@[idx as int].1));
            }
            if i == segs.len() - 1 {
                proof {
                    assert(sp.len() == 1);
                    assert(path_resolves(root_view(cur@), sp));
                    assert(path_lookup(root_view(cur@), sp) == value_view(cur@[idx as int].1));
                }
                return Ok(&cur[idx].1);
            }
            match &cur[idx].1 {
                JamlValue::Section(sub) => {
                    proof {
                        assert(value_view(cur@[idx as int].1) == SpecValue::Section(root_view(sub@)));
                        assert(entries_of(sec_get(root_view(cur@), sp[0])) == root_view(sub@));
                    }
                    cur = sub;
                },
                _ => {
                    proof {
                        assert(!(sec_get(root_view(cur@), sp[0]) is Section));
                        assert(!path_resolves(root_view(cur@), sp));
                    }
                    return Err(JamlError::KeyNotFound(path.to_owned()));
                },
            }
            i = i + 1;
        }
        proof {
            assert(false);
        }
        vstd::pervasive::unreached()
    }

    /// Bind a dotted path to a value, creating missing intermediate
    /// sections. An existing intermediate segment that is not a section
    /// is a caller error, ruled out up front.
    pub fn set_value(&mut self, path: &str, value: JamlValue)
        requires
            vivify_ok(root_view(old(self).data@), split_char(path@, '.').drop_last()),
        ensures
            root_view(final(self).data@) == set_path(
                root_view(old(self).data@),
                split_char(path@, '.'),
                value@,
            ),
    {
        let ghost p = split_char(path@, '.');
        let mut segs = split_path(path);
        let last = match segs.pop() {
            Some(l) => l,
            None => {
                proof {
                    assert(false);
                }
                vstd::pervasive::unreached()
            },
        };
        proof {
            assert(views_of(segs@) =~= p.drop_last());
            assert(last@ == p.last());
        }
        let mut d: Vec<(String, JamlValue)> = Vec::new();
        core::mem::swap(&mut d, &mut self.data);
        let ghost rv0 = root_view(d@);
        let d2 = match crate::parser::vivify_for_store(d, &segs) {
            Ok(x) => x,
            Err(()) => {
                proof {
                    assert(false);
                }
                vstd::pervasive::unreached()
            },
        };
        proof {
            lemma_vivify_secs_at(rv0, views_of(segs@));
        }
        let d3 = crate::parser::put_for_store(d2, &segs, last, value);
        let mut d3 = d3;
        core::mem::swap(&mut self.data, &mut d3);
    }
}

} // verus!
