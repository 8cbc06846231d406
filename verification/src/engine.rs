//! Completion engine: composes the context resolver with the index cache
//! to answer one completion request. A request against anything but a
//! manifest file, or at an unclassifiable position, yields an empty list,
//! never an error.

use vstd::prelude::*;
use vstd::seq_lib::group_to_multiset_ensures;
use vstd::string::{StrSliceExecFns, StringExecFns};
use crate::text::{lower_seq, scan_char, lemma_scan_char_bounds, find_char_from, str_ends_with,
    str_starts_with};
use crate::resolver::{resolve, kind_of, CtxKind, ContextKind};
use crate::cache::{TomlData, RecordModel, models, rec_matches, matches_pred, lookup, hit_of,
    hit_listed};
use crate::order::{key_le, hit_le};

verus! {

broadcast use group_to_multiset_ensures;

/// One completion suggestion: the label shown to the user and the text to
/// insert; when no insertion text is given, the label itself is inserted.
pub struct Suggestion {
    pub label: String,
    pub insert_text: Option<String>,
}

/// Whether a document identifier denotes a manifest this engine serves.
pub open spec fn is_manifest(uri: Seq<char>) -> bool {
    "/Cargo.toml"@.is_suffix_of(uri)
}

/// Character offset of the start of the given (zero-based) line; the text
/// end when the text has fewer lines.
pub open spec fn nth_line_start(s: Seq<char>, line: int) -> int
    decreases line,
{
    if line <= 0 {
        0
    } else {
        let p = nth_line_start(s, line - 1);
        if 0 <= p <= s.len() {
            let e = scan_char(s, '\n', p);
            if e < s.len() {
                e + 1
            } else {
                s.len() as int
            }
        } else {
            s.len() as int
        }
    }
}

/// The character offset a (line, character) position denotes, clamped to
/// the text's end.
pub open spec fn char_index_of(s: Seq<char>, line: int, character: int) -> int {
    let st = nth_line_start(s, line);
    if st + character <= s.len() {
        st + character
    } else {
        s.len() as int
    }
}

/// Converts a (line, character) position into a character offset.
pub fn get_char_index_from_position(s: &str, line: usize, character: usize) -> (r: usize)
    ensures
        r as int == char_index_of(s@, line as int, character as int),
{
    let n: usize = s.unicode_len();
    let mut st: usize = 0;
    let mut l: usize = 0;
    while l < line
        invariant
            l <= line,
            st <= n,
            n == s@.len(),
            st as int == nth_line_start(s@, l as int),
        decreases line - l,
    {
        proof {
            lemma_scan_char_bounds(s@, '\n', st as int);
        }
        let e: usize = find_char_from(s, '\n', st);
        if e < n {
            st = e + 1;
        } else {
            st = n;
        }
        l += 1;
    }
    if character <= n - st {
        st + character
    } else {
        n
    }
}

/// The labels of a suggestion list.
pub open spec fn labels_of(ss: Seq<Suggestion>) -> Seq<Seq<char>> {
    ss.map_values(|s: Suggestion| s.label@)
}

/// Whether a suggestion offers the given matching record as a
/// package-name completion: label is the name, inserted text the full
/// `name = "version"` declaration with the preferred version.
pub open spec fn pkg_sugg_of(s: Suggestion, ms: Seq<RecordModel>, q: Seq<char>) -> bool {
    exists|r: int|
        0 <= r < ms.len() && rec_matches(#[trigger] ms[r], q) && s.label@ == ms[r].name && (
        s.insert_text matches Some(t) && t@ == ms[r].name + " = \""@ + ms[r].versions[0] + "\""@)
}

/// Whether some suggestion carries the record's name as its label.
pub open spec fn pkg_listed(m: RecordModel, ss: Seq<Suggestion>) -> bool {
    exists|i: int| 0 <= i < ss.len() && (#[trigger] ss[i]).label@ == m.name
}

/// Which versions a typed prefix keeps.
pub open spec fn pfx_pred(pre: Seq<char>) -> spec_fn(Seq<char>) -> bool {
    |v: Seq<char>| pre.is_prefix_of(v)
}

proof fn lemma_pfx_filter_snoc(vs: Seq<Seq<char>>, v: Seq<char>, pre: Seq<char>)
    ensures
        vs.push(v).filter(pfx_pred(pre)) == if pre.is_prefix_of(v) {
            vs.filter(pfx_pred(pre)).push(v)
        } else {
            vs.filter(pfx_pred(pre))
        },
{
    assert(vs.push(v) =~= vs + seq![v]);
    assert(pfx_pred(pre)(v) == pre.is_prefix_of(v));
    Seq::<Seq<char>>::filter_distributes_over_add(vs, seq![v], pfx_pred(pre));
    reveal_with_fuel(Seq::<Seq<char>>::filter, 2);
    assert(seq![v].drop_last() =~= Seq::<Seq<char>>::empty());
    assert(seq![v].filter(pfx_pred(pre)) == if pfx_pred(pre)(v) {
        seq![v]
    } else {
        Seq::<Seq<char>>::empty()
    });
    if pre.is_prefix_of(v) {
        assert(vs.filter(pfx_pred(pre)) + seq![v] =~= vs.filter(pfx_pred(pre)).push(v));
    } else {
        assert(vs.filter(pfx_pred(pre)) + Seq::<Seq<char>>::empty() =~= vs.filter(pfx_pred(pre)));
    }
}

fn package_suggestions(data: &TomlData, prefix: &str) -> (res: Vec<Suggestion>)
    ensures
        res@.len() == models(data.data@).filter(matches_pred(prefix@)).len(),
        forall|i: int| 0 <= i < res@.len() ==> pkg_sugg_of(#[trigger] res@[i], models(data.data@), prefix@),
        forall|r: int| 0 <= r < models(data.data@).len() && rec_matches(
            #[trigger] models(data.data@)[r],
            prefix@,
        ) ==> pkg_listed(models(data.data@)[r], res@),
        forall|p: int, q: int| 0 <= p < q < res@.len() ==> key_le(res@[p].label@, res@[q].label@),
{
    let ghost ms = models(data.data@);
    let pairs = data.search(prefix);
    let ghost hv = pairs@;
    let mut res: Vec<Suggestion> = Vec::new();
    let n: usize = pairs.len();
    let mut i: usize = 0;
    while i < n
        invariant
            i <= n,
            n == pairs@.len(),
            hv == pairs@,
            res@.len() == i,
            forall|j: int| 0 <= j < i ==> (#[trigger] res@[j]).label@ == hv[j].0@,
            forall|j: int| 0 <= j < i ==> ((#[trigger] res@[j]).insert_text matches Some(t) && t@
                == hv[j].0@ + " = \""@ + hv[j].1@ + "\""@),
        decreases n - i,
    {
        let pair = &pairs[i];
        let label = pair.0.clone();
        let mut insert = pair.0.clone();
        insert.append(" = \"");
        insert.append(pair.1.as_str());
        insert.append("\"");
        res.push(Suggestion { label, insert_text: Option::Some(insert) });
        i += 1;
    }
    proof {
        assert forall|i2: int| 0 <= i2 < res@.len() implies pkg_sugg_of(
            #[trigger] res@[i2],
            ms,
            prefix@,
        ) by {
            assert(hit_of(hv[i2], ms, prefix@, ms.len() as int));
            let r = choose|r: int|
                0 <= r < ms.len() && rec_matches(#[trigger] ms[r], prefix@) && hv[i2].0@
                    == ms[r].name && hv[i2].1@ == ms[r].versions[0];
            assert(res@[i2].label@ == ms[r].name);
            assert(res@[i2].insert_text matches Some(t) && t@ == ms[r].name + " = \""@
                + ms[r].versions[0] + "\""@);
        }
        assert forall|r: int| 0 <= r < ms.len() && rec_matches(
            #[trigger] ms[r],
            prefix@,
        ) implies pkg_listed(ms[r], res@) by {
            assert(hit_listed(ms[r], hv));
            let j = choose|j: int| 0 <= j < hv.len() && (#[trigger] hv[j]).0@ == ms[r].name
                && hv[j].1@ == ms[r].versions[0];
            assert((res@[j]).label@ == ms[r].name);
        }
        assert forall|p: int, q: int| 0 <= p < q < res@.len() implies key_le(
            res@[p].label@,
            res@[q].label@,
        ) by {
            assert(hit_le(hv[p], hv[q]));
        }
    }
    res
}

fn version_suggestions(versions: &Vec<String>, prefix: &str, append_quote: bool) -> (res: Vec<
    Suggestion,
>)
    ensures
        labels_of(res@) == versions.deep_view().filter(pfx_pred(prefix@)),
        forall|i: int| 0 <= i < res@.len() ==> ((#[trigger] res@[i]).insert_text is Some
            <==> append_quote),
        forall|i: int| 0 <= i < res@.len() ==> ((#[trigger] res@[i]).insert_text matches Some(t)
            ==> t@ == res@[i].label@ + "\""@),
{
    let ghost vs = versions.deep_view();
    let mut res: Vec<Suggestion> = Vec::new();
    let n: usize = versions.len();
    proof {
        assert(vs.take(0) =~= Seq::<Seq<char>>::empty());
        assert(labels_of(res@) =~= Seq::<Seq<char>>::empty());
    }
    let mut i: usize = 0;
    while i < n
        invariant
            i <= n,
            n == versions@.len(),
            vs == versions.deep_view(),
            vs.len() == n,
            labels_of(res@) == vs.take(i as int).filter(pfx_pred(prefix@)),
            forall|j: int| 0 <= j < res@.len() ==> ((#[trigger] res@[j]).insert_text is Some
                <==> append_quote),
            forall|j: int| 0 <= j < res@.len() ==> ((#[trigger] res@[j]).insert_text matches Some(
                t,
            ) ==> t@ == res@[j].label@ + "\""@),
        decreases n - i,
    {
        let v = &versions[i];
        proof {
            assert(vs[i as int] == v@);
            assert(vs.take(i + 1 as int) =~= vs.take(i as int).push(vs[i as int]));
            lemma_pfx_filter_snoc(vs.take(i as int), vs[i as int], prefix@);
        }
        if str_starts_with(v.as_str(), prefix) {
            let label = v.clone();
            let insert: Option<String> = if append_quote {
                let mut t = v.clone();
                t.append("\"");
                Option::Some(t)
            } else {
                Option::None
            };
            let ghost prev = res@;
            res.push(Suggestion { label, insert_text: insert });
            proof {
                assert(labels_of(res@) =~= labels_of(prev).push(vs[i as int]));
            }
        }
        i += 1;
    }
    proof {
        assert(vs.take(n as int) =~= vs);
    }
    res
}

/// Answers one completion request.
///
/// A request for a document that is not a manifest returns an empty list,
/// whatever the position. Inside a dependency table, a package-name
/// position suggests every package matching the typed prefix, each
/// inserting a full `name = "version"` declaration with its preferred
/// version, ordered deterministically; a version position suggests the
/// package's versions that extend the typed prefix, each carrying its own
/// closing quote exactly when the text right of the cursor does not
/// already start with one. Everything else yields an empty list.
pub fn completion(uri: &str, text: &str, line: usize, character: usize, data: &TomlData) -> (res:
    Vec<Suggestion>)
    ensures
        !is_manifest(uri@) ==> res@.len() == 0,
        ({
            let k = kind_of(text@, char_index_of(text@, line as int, character as int));
            &&& (is_manifest(uri@) && (k is Outside || k is Unsupported) ==> res@.len() == 0)
            &&& (is_manifest(uri@) ==> (k matches CtxKind::PackageName { prefix } ==> {
                &&& res@.len() == models(data.data@).filter(matches_pred(prefix)).len()
                &&& (forall|i: int| 0 <= i < res@.len() ==> pkg_sugg_of(
                    #[trigger] res@[i],
                    models(data.data@),
                    prefix,
                ))
                &&& (forall|r: int| 0 <= r < models(data.data@).len() && rec_matches(
                    #[trigger] models(data.data@)[r],
                    prefix,
                ) ==> pkg_listed(models(data.data@)[r], res@))
                &&& (forall|p: int, q: int| 0 <= p < q < res@.len() ==> key_le(
                    res@[p].label@,
                    res@[q].label@,
                ))
            }))
            &&& (is_manifest(uri@) ==> (k matches CtxKind::VersionDetail {
                name,
                prefix,
                append_quote,
            } ==> {
                &&& (lookup(models(data.data@), lower_seq(name)) is None ==> res@.len() == 0)
                &&& (lookup(models(data.data@), lower_seq(name)) matches Some(vs) ==> {
                    &&& labels_of(res@) == vs.filter(pfx_pred(prefix))
                    &&& (forall|i: int| 0 <= i < res@.len() ==> ((
                    #[trigger] res@[i]).insert_text is Some <==> append_quote))
                    &&& (forall|i: int| 0 <= i < res@.len() ==> ((
                    #[trigger] res@[i]).insert_text matches Some(t) ==> t@ == res@[i].label@
                        + "\""@))
                })
            }))
        }),
{
    if !str_ends_with(uri, "/Cargo.toml") {
        return Vec::new();
    }
    let offset = get_char_index_from_position(text, line, character);
    let ctx = resolve(text, offset);
    match ctx.kind {
        ContextKind::Outside => Vec::new(),
        ContextKind::Unsupported => Vec::new(),
        ContextKind::PackageName { prefix } => package_suggestions(data, prefix.as_str()),
        ContextKind::VersionDetail { name, prefix, append_quote } => {
            match data.get_versions(name.as_str()) {
                Option::None => Vec::new(),
                Option::Some(versions) => version_suggestions(
                    &versions,
                    prefix.as_str(),
                    append_quote,
                ),
            }
        },
    }
}

} // verus!
