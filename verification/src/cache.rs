//! Index cache: an in-memory snapshot mapping package names to their known
//! versions, built from newline-delimited index records, searched by
//! normalized name prefix, and refreshed by a background cycle whose state
//! transitions are modelled here.

use vstd::prelude::*;
use vstd::seq_lib::group_to_multiset_ensures;
use vstd::string::StrSliceExecFns;
use crate::text::{norm_seq, lower_seq, normalize, lowercase, str_starts_with, scan_char,
    lemma_scan_char_bounds, find_char_from, lemma_norm_of_lower, lemma_lower_seq_idempotent};
use crate::order::{hit_le, sort_hits};

verus! {

broadcast use group_to_multiset_ensures;

/// Seconds a snapshot may age before the refresh cycle syncs again.
pub const REFRESH_INTERVAL: u64 = 300;

/// One package in the index snapshot: its canonical (lower-case) name, the
/// derived search key, and its versions in source order, first preferred.
pub struct CrateRecord {
    pub name: String,
    pub search_key: String,
    pub versions: Vec<String>,
}

/// The mathematical value of one record.
pub struct RecordModel {
    pub name: Seq<char>,
    pub search_key: Seq<char>,
    pub versions: Seq<Seq<char>>,
}

pub open spec fn rec_model(r: CrateRecord) -> RecordModel {
    RecordModel { name: r.name@, search_key: r.search_key@, versions: r.versions.deep_view() }
}

pub open spec fn models(data: Seq<CrateRecord>) -> Seq<RecordModel> {
    data.map_values(|r: CrateRecord| rec_model(r))
}

pub proof fn lemma_models_push(d: Seq<CrateRecord>, r: CrateRecord)
    ensures
        models(d.push(r)) == models(d).push(rec_model(r)),
{
    assert(models(d.push(r)) =~= models(d).push(rec_model(r)));
}

pub proof fn lemma_models_remove(d: Seq<CrateRecord>, k: int)
    requires
        0 <= k < d.len(),
    ensures
        models(d.remove(k)) == models(d).remove(k),
{
    assert(models(d.remove(k)) =~= models(d).remove(k));
}

/// A record is well formed when its name is canonical (already lower-case)
/// and its search key is the normalized name.
pub open spec fn rec_wf(m: RecordModel) -> bool {
    m.search_key == norm_seq(m.name) && m.name == lower_seq(m.name)
}

pub open spec fn all_wf(ms: Seq<RecordModel>) -> bool {
    forall|i: int| 0 <= i < ms.len() ==> rec_wf(#[trigger] ms[i])
}

pub open spec fn unique_names(ms: Seq<RecordModel>) -> bool {
    forall|i: int, j: int| 0 <= i < j < ms.len() ==> ms[i].name != ms[j].name
}

/// What one decoded index line holds: a raw package name and its versions.
///
/// Index lines are JSON arrays of a string and an array of strings; the
/// decoded value is a function of the line's text alone.
pub uninterp spec fn json_record_of(line: Seq<char>) -> Option<(Seq<char>, Seq<Seq<char>>)>;

/// Relies on serde_json::from_str for a pair of a string and a string
/// array: decoding is deterministic in the input text, and returns an
/// error exactly when the text is not such a pair.
#[verifier::external_body]
fn decode_record(line: &str) -> (r: Option<(String, Vec<String>)>)
    ensures
        (r is Some <==> json_record_of(line@) is Some),
        (r matches Some(p) ==> json_record_of(line@) == Option::Some(
            (p.0@, p.1.deep_view()),
        )),
{
    serde_json::from_str::<(String, Vec<String>)>(line).ok()
}

/// The record a well-formed index line denotes.
pub open spec fn record_of_line(l: Seq<char>) -> RecordModel {
    let p = json_record_of(l).unwrap();
    RecordModel { name: lower_seq(p.0), search_key: norm_seq(p.0), versions: p.1 }
}

pub proof fn lemma_record_of_line_wf(l: Seq<char>)
    ensures
        rec_wf(record_of_line(l)),
{
    let p = json_record_of(l).unwrap();
    lemma_norm_of_lower(p.0);
    lemma_lower_seq_idempotent(p.0);
}

fn clone_strings(v: &Vec<String>) -> (r: Vec<String>)
    ensures
        r@ == v@,
{
    let mut r: Vec<String> = Vec::new();
    let mut i: usize = 0;
    while i < v.len()
        invariant
            i <= v@.len(),
            r@ == v@.take(i as int),
        decreases v@.len() - i,
    {
        r.push(v[i].clone());
        proof {
            assert(v@.take(i + 1 as int) =~= v@.take(i as int).push(v@[i as int]));
        }
        i += 1;
    }
    proof {
        assert(v@.take(v@.len() as int) =~= v@);
    }
    r
}

fn make_record(raw: &str, versions: Vec<String>) -> (r: CrateRecord)
    ensures
        r.name@ == lower_seq(raw@),
        r.search_key@ == norm_seq(raw@),
        r.versions.deep_view() == versions.deep_view(),
        rec_wf(rec_model(r)),
{
    let name = lowercase(raw);
    let search_key = normalize(raw);
    proof {
        lemma_norm_of_lower(raw@);
        lemma_lower_seq_idempotent(raw@);
    }
    CrateRecord { name, search_key, versions }
}

/// The lines of a text, split at each line break.
pub open spec fn split_lines_from(s: Seq<char>, i: int) -> Seq<Seq<char>>
    decreases s.len() - i,
{
    if 0 <= i <= s.len() {
        let j = scan_char(s, '\n', i);
        if j >= s.len() || j < i {
            seq![s.subrange(i, s.len() as int)]
        } else {
            seq![s.subrange(i, j)] + split_lines_from(s, j + 1)
        }
    } else {
        Seq::empty()
    }
}

pub open spec fn split_lines(s: Seq<char>) -> Seq<Seq<char>> {
    split_lines_from(s, 0)
}

/// Splits a file's text into its lines.
pub fn split_lines_exec(s: &str) -> (r: Vec<String>)
    ensures
        r.deep_view() == split_lines(s@),
{
    let n: usize = s.unicode_len();
    let mut out: Vec<String> = Vec::new();
    let mut st: usize = 0;
    loop
        invariant
            st <= n,
            n == s@.len(),
            split_lines(s@) == out.deep_view() + split_lines_from(s@, st as int),
        decreases n - st,
    {
        let j: usize = find_char_from(s, '\n', st);
        proof {
            lemma_scan_char_bounds(s@, '\n', st as int);
        }
        let ghost prev = out.deep_view();
        let piece = s.substring_char(st, j).to_owned();
        out.push(piece);
        proof {
            assert(out.deep_view() =~= prev.push(s@.subrange(st as int, j as int)));
        }
        if j < n {
            proof {
                assert(prev.push(s@.subrange(st as int, j as int)) + split_lines_from(
                    s@,
                    j + 1 as int,
                ) =~= prev + (seq![s@.subrange(st as int, j as int)] + split_lines_from(
                    s@,
                    j + 1 as int,
                )));
            }
            st = j + 1;
        } else {
            proof {
                assert(split_lines_from(s@, st as int) =~= seq![s@.subrange(st as int, n as int)]);
                assert(prev.push(s@.subrange(st as int, n as int)) =~= prev + seq![s@.subrange(
                    st as int,
                    n as int,
                )]);
            }
            return out;
        }
    }
}

/// Whether every non-empty line decodes; empty lines are ignored.
pub open spec fn lines_ok(ls: Seq<Seq<char>>) -> bool {
    forall|i: int| 0 <= i < ls.len() && #[trigger] ls[i].len() > 0 ==> json_record_of(ls[i]) is Some
}

pub open spec fn nonempty_pred() -> spec_fn(Seq<char>) -> bool {
    |l: Seq<char>| l.len() > 0
}

/// The records a well-formed file's lines denote, in line order.
pub open spec fn file_records(ls: Seq<Seq<char>>) -> Seq<RecordModel> {
    ls.filter(nonempty_pred()).map_values(|l: Seq<char>| record_of_line(l))
}

pub proof fn lemma_file_records_snoc(ls: Seq<Seq<char>>, l: Seq<char>)
    ensures
        file_records(ls.push(l)) == if l.len() > 0 {
            file_records(ls).push(record_of_line(l))
        } else {
            file_records(ls)
        },
{
    assert(ls.push(l) =~= ls + seq![l]);
    assert(nonempty_pred()(l) == (l.len() > 0));
    Seq::<Seq<char>>::filter_distributes_over_add(ls, seq![l], nonempty_pred());
    reveal_with_fuel(Seq::<Seq<char>>::filter, 2);
    assert(seq![l].drop_last() =~= Seq::<Seq<char>>::empty());
    assert(seq![l].filter(nonempty_pred()) == if nonempty_pred()(l) {
        seq![l]
    } else {
        Seq::<Seq<char>>::empty()
    });
    if l.len() > 0 {
        assert(ls.filter(nonempty_pred()) + seq![l] =~= ls.filter(nonempty_pred()).push(l));
    } else {
        assert(ls.filter(nonempty_pred()) + Seq::<Seq<char>>::empty() =~= ls.filter(
            nonempty_pred(),
        ));
    }
    assert(ls.push(l).filter(nonempty_pred()) == if nonempty_pred()(l) {
        ls.filter(nonempty_pred()).push(l)
    } else {
        ls.filter(nonempty_pred())
    });
    if l.len() > 0 {
        assert(file_records(ls.push(l)) =~= file_records(ls).push(record_of_line(l)));
    } else {
        assert(file_records(ls.push(l)) =~= file_records(ls));
    }
}

pub proof fn lemma_file_records_wf(ls: Seq<Seq<char>>)
    ensures
        all_wf(file_records(ls)),
{
    assert forall|i: int| 0 <= i < file_records(ls).len() implies rec_wf(
        #[trigger] file_records(ls)[i],
    ) by {
        lemma_record_of_line_wf(ls.filter(nonempty_pred())[i]);
    }
}

/// Decodes one file's lines. A line that fails to decode fails the whole
/// file: the result is then none and the file contributes nothing.
pub fn parse_lines(lines: &Vec<String>) -> (r: Option<Vec<CrateRecord>>)
    ensures
        (r is Some <==> lines_ok(lines.deep_view())),
        (r matches Some(v) ==> models(v@) == file_records(lines.deep_view())),
{
    let ghost ls = lines.deep_view();
    let mut recs: Vec<CrateRecord> = Vec::new();
    let mut i: usize = 0;
    while i < lines.len()
        invariant
            i <= lines@.len(),
            ls == lines.deep_view(),
            ls.len() == lines@.len(),
            forall|j: int| 0 <= j < i && #[trigger] ls[j].len() > 0 ==> json_record_of(
                ls[j],
            ) is Some,
            models(recs@) == file_records(ls.take(i as int)),
        decreases lines@.len() - i,
    {
        let line = &lines[i];
        proof {
            assert(ls[i as int] == line@);
            assert(ls.take(i + 1 as int) =~= ls.take(i as int).push(ls[i as int]));
            lemma_file_records_snoc(ls.take(i as int), ls[i as int]);
        }
        if !line.as_str().is_empty() {
            match decode_record(line.as_str()) {
                Option::None => {
                    return Option::None;
                },
                Option::Some(p) => {
                    let rec = make_record(p.0.as_str(), p.1);
                    proof {
                        assert(rec_model(rec) == record_of_line(ls[i as int]));
                        assert(file_records(ls.take(i + 1 as int)) =~= file_records(
                            ls.take(i as int),
                        ).push(record_of_line(ls[i as int])));
                        assert(models(recs@.push(rec)) =~= models(recs@).push(rec_model(rec)));
                    }
                    recs.push(rec);
                },
            }
        } else {
            proof {
                assert(file_records(ls.take(i + 1 as int)) =~= file_records(ls.take(i as int)));
            }
        }
        i += 1;
    }
    proof {
        assert(ls.take(ls.len() as int) =~= ls);
    }
    Option::Some(recs)
}

/// The name-keyed map a sequence of records denotes; a later record with
/// the same name overwrites an earlier one.
pub open spec fn rec_map(ms: Seq<RecordModel>) -> Map<Seq<char>, RecordModel>
    decreases ms.len(),
{
    if ms.len() == 0 {
        Map::empty()
    } else {
        rec_map(ms.drop_last()).insert(ms.last().name, ms.last())
    }
}

pub proof fn lemma_rec_map_dom(ms: Seq<RecordModel>)
    ensures
        forall|key: Seq<char>| #[trigger] rec_map(ms).dom().contains(key) <==> (exists|i: int|
            0 <= i < ms.len() && ms[i].name == key),
    decreases ms.len(),
{
    if ms.len() > 0 {
        lemma_rec_map_dom(ms.drop_last());
        assert forall|key: Seq<char>| #[trigger] rec_map(ms).dom().contains(key) implies (
        exists|i: int| 0 <= i < ms.len() && ms[i].name == key) by {
            if key == ms.last().name {
                assert(ms[ms.len() - 1].name == key);
            } else {
                assert(rec_map(ms.drop_last()).dom().contains(key));
                let i = choose|i: int| 0 <= i < ms.drop_last().len() && ms.drop_last()[i].name
                    == key;
                assert(ms[i].name == key);
            }
        }
        assert forall|key: Seq<char>| (exists|i: int| 0 <= i < ms.len() && ms[i].name
            == key) implies #[trigger] rec_map(ms).dom().contains(key) by {
            let i = choose|i: int| 0 <= i < ms.len() && ms[i].name == key;
            if i < ms.len() - 1 {
                assert(ms.drop_last()[i].name == key);
                assert(rec_map(ms.drop_last()).dom().contains(key));
            }
        }
    }
}

pub proof fn lemma_rec_map_remove(ms: Seq<RecordModel>, k: int)
    requires
        unique_names(ms),
        0 <= k < ms.len(),
    ensures
        rec_map(ms.remove(k)) == rec_map(ms).remove(ms[k].name),
    decreases ms.len(),
{
    let nm = ms[k].name;
    if k == ms.len() - 1 {
        assert(ms.remove(k) =~= ms.drop_last());
        lemma_rec_map_dom(ms.drop_last());
        assert(!rec_map(ms.drop_last()).dom().contains(nm));
        assert(rec_map(ms.drop_last()) =~= rec_map(ms.drop_last()).insert(nm, ms.last()).remove(
            nm,
        ));
    } else {
        let dl = ms.drop_last();
        assert(ms.remove(k).drop_last() =~= dl.remove(k));
        assert(ms.remove(k).last() == ms.last());
        assert(unique_names(dl));
        lemma_rec_map_remove(dl, k);
        assert(dl[k].name == nm);
        assert(ms.last().name != nm);
        assert(rec_map(dl).remove(nm).insert(ms.last().name, ms.last()) =~= rec_map(dl).insert(
            ms.last().name,
            ms.last(),
        ).remove(nm));
        assert(rec_map(ms.remove(k)) == rec_map(dl.remove(k)).insert(
            ms.remove(k).last().name,
            ms.remove(k).last(),
        ));
    }
}

fn upsert(data: &mut Vec<CrateRecord>, rec: CrateRecord)
    requires
        unique_names(models(old(data)@)),
    ensures
        unique_names(models(final(data)@)),
        rec_map(models(final(data)@)) == rec_map(models(old(data)@)).insert(
            rec.name@,
            rec_model(rec),
        ),
        all_wf(models(old(data)@)) && rec_wf(rec_model(rec)) ==> all_wf(models(final(data)@)),
{
    let ghost m = rec_model(rec);
    let ghost ms0 = models(old(data)@);
    let n: usize = data.len();
    let mut k: usize = 0;
    while k < n
        invariant
            k <= n,
            n == data@.len(),
            data@ == old(data)@,
            ms0 == models(data@),
            unique_names(ms0),
            m == rec_model(rec),
            forall|j: int| 0 <= j < k ==> (#[trigger] ms0[j]).name != m.name,
        decreases n - k,
    {
        let same: bool = data[k].name == rec.name;
        if same {
            proof {
                assert(ms0[k as int] == rec_model(data@[k as int]));
                assert(ms0[k as int].name == m.name);
            }
            let ghost dv = data@;
            data.remove(k);
            let ghost ms1 = ms0.remove(k as int);
            proof {
                lemma_models_remove(dv, k as int);
                assert(models(data@) == ms1);
                lemma_rec_map_remove(ms0, k as int);
                assert forall|i: int, j: int| 0 <= i < j < ms1.len() implies (
                #[trigger] ms1[i]).name != (#[trigger] ms1[j]).name by {
                    if i < k {
                        assert(ms1[i] == ms0[i]);
                    } else {
                        assert(ms1[i] == ms0[i + 1]);
                    }
                    if j < k {
                        assert(ms1[j] == ms0[j]);
                    } else {
                        assert(ms1[j] == ms0[j + 1]);
                    }
                }
                assert forall|j: int| 0 <= j < ms1.len() implies (#[trigger] ms1[j]).name
                    != m.name by {
                    if j < k {
                        assert(ms1[j] == ms0[j]);
                    } else {
                        assert(ms1[j] == ms0[j + 1]);
                    }
                }
            }
            let ghost dv1 = data@;
            data.push(rec);
            proof {
                lemma_models_push(dv1, rec);
                let ms2 = ms1.push(m);
                assert(models(data@) == ms2);
                assert(ms2.drop_last() =~= ms1);
                assert(ms2.last() == m);
                assert(rec_map(ms2) == rec_map(ms1).insert(m.name, m));
                assert(rec_map(ms0).remove(m.name).insert(m.name, m) =~= rec_map(ms0).insert(
                    m.name,
                    m,
                ));
                assert forall|i: int, j: int| 0 <= i < j < ms2.len() implies (
                #[trigger] ms2[i]).name != (#[trigger] ms2[j]).name by {
                    if j == ms1.len() {
                        assert(ms2[i] == ms1[i]);
                        assert(ms2[j] == m);
                    } else {
                        assert(ms2[i] == ms1[i]);
                        assert(ms2[j] == ms1[j]);
                    }
                }
                if all_wf(ms0) && rec_wf(m) {
                    assert forall|i: int| 0 <= i < ms2.len() implies rec_wf(
                        #[trigger] ms2[i],
                    ) by {
                        if i < ms1.len() {
                            assert(ms2[i] == ms1[i]);
                            if i < k {
                                assert(ms1[i] == ms0[i]);
                            } else {
                                assert(ms1[i] == ms0[i + 1]);
                            }
                        } else {
                            assert(ms2[i] == m);
                        }
                    }
                }
            }
            return;
        }
        k += 1;
    }
    let ghost dv1 = data@;
    data.push(rec);
    proof {
        lemma_models_push(dv1, rec);
        let ms2 = ms0.push(m);
        assert(models(data@) == ms2);
        assert(ms2.drop_last() =~= ms0);
        assert(ms2.last() == m);
        assert(rec_map(ms2) == rec_map(ms0).insert(m.name, m));
        assert forall|i: int, j: int| 0 <= i < j < ms2.len() implies (#[trigger] ms2[i]).name != (
        #[trigger] ms2[j]).name by {
            if j == ms0.len() {
                assert(ms2[i] == ms0[i]);
                assert(ms2[j] == m);
            } else {
                assert(ms2[i] == ms0[i]);
                assert(ms2[j] == ms0[j]);
            }
        }
        if all_wf(ms0) && rec_wf(m) {
            assert forall|i: int| 0 <= i < ms2.len() implies rec_wf(#[trigger] ms2[i]) by {
                if i < ms0.len() {
                    assert(ms2[i] == ms0[i]);
                } else {
                    assert(ms2[i] == m);
                }
            }
        }
    }
}

/// The records of every file whose lines all decode, in file order; a
/// file with any undecodable line contributes nothing.
pub open spec fn flat_records(files: Seq<Seq<char>>) -> Seq<RecordModel>
    decreases files.len(),
{
    if files.len() == 0 {
        Seq::empty()
    } else {
        let rest = flat_records(files.drop_last());
        let ls = split_lines(files.last());
        if lines_ok(ls) {
            rest + file_records(ls)
        } else {
            rest
        }
    }
}

/// The snapshot a set of index files denotes: name-keyed records, later
/// files and later lines overwriting earlier ones.
pub open spec fn snapshot_of(files: Seq<Seq<char>>) -> Map<Seq<char>, RecordModel> {
    rec_map(flat_records(files))
}

proof fn lemma_rec_map_concat_push(a: Seq<RecordModel>, b: Seq<RecordModel>, m: RecordModel)
    ensures
        rec_map(a + b.push(m)) == rec_map(a + b).insert(m.name, m),
{
    assert(a + b.push(m) =~= (a + b).push(m));
    assert((a + b).push(m).drop_last() =~= a + b);
    assert(rec_map((a + b).push(m)) == rec_map(a + b).insert(m.name, m));
}

/// Builds the snapshot from the texts of the index files. Names are
/// lower-cased and search keys derived; later files overwrite earlier
/// entries for the same name; a file with an undecodable line is skipped.
pub fn build_data(files: &Vec<String>) -> (r: Vec<CrateRecord>)
    ensures
        all_wf(models(r@)),
        unique_names(models(r@)),
        rec_map(models(r@)) == snapshot_of(files.deep_view()),
{
    let ghost fs = files.deep_view();
    let mut out: Vec<CrateRecord> = Vec::new();
    let mut i: usize = 0;
    while i < files.len()
        invariant
            i <= files@.len(),
            fs == files.deep_view(),
            fs.len() == files@.len(),
            all_wf(models(out@)),
            unique_names(models(out@)),
            rec_map(models(out@)) == rec_map(flat_records(fs.take(i as int))),
        decreases files@.len() - i,
    {
        proof {
            assert(fs.take(i + 1 as int).drop_last() =~= fs.take(i as int));
            assert(fs.take(i + 1 as int).last() == fs[i as int]);
            assert(fs[i as int] == files@[i as int]@);
        }
        let lines = split_lines_exec(files[i].as_str());
        proof {
            assert(lines.deep_view() == split_lines(fs[i as int]));
        }
        match parse_lines(&lines) {
            Option::None => {
                proof {
                    assert(!lines_ok(split_lines(fs[i as int])));
                    assert(flat_records(fs.take(i + 1 as int)) == flat_records(fs.take(i as int)));
                }
            },
            Option::Some(recs) => {
                let ghost base = flat_records(fs.take(i as int));
                let ghost add = models(recs@);
                let mut t: usize = 0;
                let nr: usize = recs.len();
                let mut recs = recs;
                proof {
                    assert(lines_ok(split_lines(fs[i as int])));
                    assert(add == file_records(split_lines(fs[i as int])));
                    lemma_file_records_wf(split_lines(fs[i as int]));
                    assert(add.take(0) =~= Seq::<RecordModel>::empty());
                    assert(base + add.take(0) =~= base);
                    assert(add.skip(0) =~= add);
                }
                while t < nr
                    invariant
                        t <= nr,
                        recs@.len() == nr - t,
                        models(recs@) == add.skip(t as int),
                        add.len() == nr,
                        all_wf(add),
                        all_wf(models(out@)),
                        unique_names(models(out@)),
                        rec_map(models(out@)) == rec_map(base + add.take(t as int)),
                    decreases nr - t,
                {
                    let ghost rv = recs@;
                    let rec = recs.remove(0);
                    proof {
                        lemma_models_remove(rv, 0);
                        assert(models(rv)[0] == rec_model(rec));
                        assert(add.skip(t as int)[0] == add[t as int]);
                        assert(rec_model(rec) == add[t as int]);
                        assert(models(rv).remove(0) =~= add.skip(t as int).drop_first());
                        assert(add.skip(t as int).drop_first() =~= add.skip(t + 1 as int));
                        assert(rec_wf(add[t as int]));
                        assert(base + add.take(t + 1 as int) =~= base + add.take(
                            t as int,
                        ).push(add[t as int]));
                        lemma_rec_map_concat_push(base, add.take(t as int), add[t as int]);
                    }
                    upsert(&mut out, rec);
                    t += 1;
                }
                proof {
                    assert(add.take(nr as int) =~= add);
                    assert(flat_records(fs.take(i + 1 as int)) == base + add);
                }
            },
        }
        i += 1;
    }
    proof {
        assert(fs.take(fs.len() as int) =~= fs);
    }
    out
}

/// The versions of the first record carrying `key` as its name, if any.
pub open spec fn lookup(ms: Seq<RecordModel>, key: Seq<char>) -> Option<Seq<Seq<char>>>
    decreases ms.len(),
{
    if ms.len() == 0 {
        Option::None
    } else if ms[0].name == key {
        Option::Some(ms[0].versions)
    } else {
        lookup(ms.drop_first(), key)
    }
}

/// A lookup misses exactly when no record carries the key as its name.
pub proof fn lemma_lookup_absent(ms: Seq<RecordModel>, key: Seq<char>)
    ensures
        (lookup(ms, key) is None) <==> (forall|i: int| 0 <= i < ms.len() ==> (#[trigger] ms[i]).name
            != key),
    decreases ms.len(),
{
    if ms.len() > 0 {
        lemma_lookup_absent(ms.drop_first(), key);
        if ms[0].name != key {
            assert forall|i: int| 1 <= i < ms.len() implies (#[trigger] ms[i]).name == ms.drop_first()[
                i - 1
            ].name by {}
        }
    }
}

/// Which record a search query matches: its search key extends the
/// normalized query and it has at least one version.
pub open spec fn rec_matches(m: RecordModel, q: Seq<char>) -> bool {
    norm_seq(q).is_prefix_of(m.search_key) && m.versions.len() > 0
}

pub open spec fn matches_pred(q: Seq<char>) -> spec_fn(RecordModel) -> bool {
    |m: RecordModel| rec_matches(m, q)
}

/// Whether the pair `p` reports some record among the first `k` that
/// matches the query: its name with its preferred (first) version.
pub open spec fn hit_of(p: (String, String), ms: Seq<RecordModel>, q: Seq<char>, k: int) -> bool {
    exists|r: int| 0 <= r < k && rec_matches(#[trigger] ms[r], q) && p.0@ == ms[r].name && p.1@
        == ms[r].versions[0]
}

/// Whether the record `m` is reported by some pair of `hs`.
pub open spec fn hit_listed(m: RecordModel, hs: Seq<(String, String)>) -> bool {
    exists|i: int| 0 <= i < hs.len() && (#[trigger] hs[i]).0@ == m.name && hs[i].1@ == m.versions[0]
}

/// Every collected hit names a matching record among the first `k`.
pub open spec fn hits_sound(
    hs: Seq<(String, String)>,
    ms: Seq<RecordModel>,
    q: Seq<char>,
    k: int,
) -> bool {
    forall|i: int| 0 <= i < hs.len() ==> hit_of(#[trigger] hs[i], ms, q, k)
}

/// Every matching record among the first `k` appears among the hits.
pub open spec fn hits_complete(
    hs: Seq<(String, String)>,
    ms: Seq<RecordModel>,
    q: Seq<char>,
    k: int,
) -> bool {
    forall|r: int| 0 <= r < k && rec_matches(#[trigger] ms[r], q) ==> hit_listed(ms[r], hs)
}

proof fn lemma_hit_of_widen(p: (String, String), ms: Seq<RecordModel>, q: Seq<char>, k: int)
    requires
        hit_of(p, ms, q, k),
    ensures
        hit_of(p, ms, q, k + 1),
{
    let r = choose|r: int| 0 <= r < k && rec_matches(#[trigger] ms[r], q) && p.0@ == ms[r].name
        && p.1@ == ms[r].versions[0];
    assert(0 <= r < k + 1 && rec_matches(ms[r], q) && p.0@ == ms[r].name && p.1@
        == ms[r].versions[0]);
}

proof fn lemma_hit_listed_push(m: RecordModel, hs: Seq<(String, String)>, p: (String, String))
    requires
        hit_listed(m, hs),
    ensures
        hit_listed(m, hs.push(p)),
{
    let i = choose|i: int| 0 <= i < hs.len() && (#[trigger] hs[i]).0@ == m.name && hs[i].1@
        == m.versions[0];
    assert((hs.push(p)[i]).0@ == m.name && hs.push(p)[i].1@ == m.versions[0]);
}

proof fn lemma_hits_extend_match(
    hs: Seq<(String, String)>,
    ms: Seq<RecordModel>,
    q: Seq<char>,
    k: int,
    p: (String, String),
)
    requires
        0 <= k < ms.len(),
        hits_sound(hs, ms, q, k),
        hits_complete(hs, ms, q, k),
        rec_matches(ms[k], q),
        p.0@ == ms[k].name,
        p.1@ == ms[k].versions[0],
    ensures
        hits_sound(hs.push(p), ms, q, k + 1),
        hits_complete(hs.push(p), ms, q, k + 1),
{
    let hs2 = hs.push(p);
    assert forall|i: int| 0 <= i < hs2.len() implies hit_of(#[trigger] hs2[i], ms, q, k + 1) by {
        if i < hs.len() {
            assert(hs2[i] == hs[i]);
            lemma_hit_of_widen(hs[i], ms, q, k);
        } else {
            assert(hs2[i] == p);
            assert(0 <= k < k + 1 && rec_matches(ms[k], q) && p.0@ == ms[k].name && p.1@
                == ms[k].versions[0]);
        }
    }
    assert forall|r: int| 0 <= r < k + 1 && rec_matches(#[trigger] ms[r], q) implies hit_listed(
        ms[r],
        hs2,
    ) by {
        if r < k {
            lemma_hit_listed_push(ms[r], hs, p);
        } else {
            assert((hs2[hs.len() as int]).0@ == ms[r].name && hs2[hs.len() as int].1@
                == ms[r].versions[0]);
        }
    }
}

proof fn lemma_hits_extend_nomatch(
    hs: Seq<(String, String)>,
    ms: Seq<RecordModel>,
    q: Seq<char>,
    k: int,
)
    requires
        0 <= k < ms.len(),
        hits_sound(hs, ms, q, k),
        hits_complete(hs, ms, q, k),
        !rec_matches(ms[k], q),
    ensures
        hits_sound(hs, ms, q, k + 1),
        hits_complete(hs, ms, q, k + 1),
{
    assert forall|i: int| 0 <= i < hs.len() implies hit_of(#[trigger] hs[i], ms, q, k + 1) by {
        lemma_hit_of_widen(hs[i], ms, q, k);
    }
    assert forall|r: int| 0 <= r < k + 1 && rec_matches(#[trigger] ms[r], q) implies hit_listed(
        ms[r],
        hs,
    ) by {
        assert(r < k);
    }
}

proof fn lemma_hits_permutation(
    a: Seq<(String, String)>,
    b: Seq<(String, String)>,
    ms: Seq<RecordModel>,
    q: Seq<char>,
    k: int,
)
    requires
        a.to_multiset() == b.to_multiset(),
        hits_sound(a, ms, q, k),
        hits_complete(a, ms, q, k),
    ensures
        hits_sound(b, ms, q, k),
        hits_complete(b, ms, q, k),
{
    assert forall|i: int| 0 <= i < b.len() implies hit_of(#[trigger] b[i], ms, q, k) by {
        assert(b.contains(b[i]));
        assert(b.to_multiset().count(b[i]) > 0);
        assert(a.to_multiset().count(b[i]) > 0);
        assert(a.contains(b[i]));
        let j = choose|j: int| 0 <= j < a.len() && a[j] == b[i];
        assert(hit_of(a[j], ms, q, k));
    }
    assert forall|r: int| 0 <= r < k && rec_matches(#[trigger] ms[r], q) implies hit_listed(
        ms[r],
        b,
    ) by {
        assert(hit_listed(ms[r], a));
        let j = choose|j: int| 0 <= j < a.len() && (#[trigger] a[j]).0@ == ms[r].name && a[j].1@
            == ms[r].versions[0];
        assert(a.contains(a[j]));
        assert(a.to_multiset().count(a[j]) > 0);
        assert(b.to_multiset().count(a[j]) > 0);
        assert(b.contains(a[j]));
        let i = choose|i: int| 0 <= i < b.len() && b[i] == a[j];
        assert((b[i]).0@ == ms[r].name && b[i].1@ == ms[r].versions[0]);
    }
}

proof fn lemma_matches_filter_snoc(ms: Seq<RecordModel>, m: RecordModel, q: Seq<char>)
    ensures
        ms.push(m).filter(matches_pred(q)) == if rec_matches(m, q) {
            ms.filter(matches_pred(q)).push(m)
        } else {
            ms.filter(matches_pred(q))
        },
{
    assert(ms.push(m) =~= ms + seq![m]);
    assert(matches_pred(q)(m) == rec_matches(m, q));
    Seq::<RecordModel>::filter_distributes_over_add(ms, seq![m], matches_pred(q));
    reveal_with_fuel(Seq::<RecordModel>::filter, 2);
    assert(seq![m].drop_last() =~= Seq::<RecordModel>::empty());
    assert(seq![m].filter(matches_pred(q)) == if matches_pred(q)(m) {
        seq![m]
    } else {
        Seq::<RecordModel>::empty()
    });
    if rec_matches(m, q) {
        assert(ms.filter(matches_pred(q)) + seq![m] =~= ms.filter(matches_pred(q)).push(m));
    } else {
        assert(ms.filter(matches_pred(q)) + Seq::<RecordModel>::empty() =~= ms.filter(
            matches_pred(q),
        ));
    }
}

/// The index cache: the current snapshot together with the refresh
/// cycle's bookkeeping.
pub struct TomlData {
    /// Seconds since the epoch at the end of the last refresh cycle.
    pub last_checked: u64,
    /// Whether a refresh cycle is currently in progress.
    pub updating: bool,
    /// The current snapshot.
    pub data: Vec<CrateRecord>,
}

impl TomlData {
    pub open spec fn wf(self) -> bool {
        all_wf(models(self.data@)) && unique_names(models(self.data@))
    }

    /// A fresh cache over the given index file texts: never refreshed yet,
    /// no refresh in progress, snapshot as `build_data` derives it.
    pub fn new(files: &Vec<String>) -> (r: Self)
        ensures
            r.wf(),
            r.last_checked == 0,
            !r.updating,
            rec_map(models(r.data@)) == snapshot_of(files.deep_view()),
    {
        TomlData { last_checked: 0, updating: false, data: build_data(files) }
    }

    /// All packages matching the query: those whose search key starts with
    /// the normalized query and which have at least one version, each
    /// paired with its preferred (first) version, ordered by normalized
    /// key length and then lexicographically by name.
    pub fn search(&self, query: &str) -> (res: Vec<(String, String)>)
        ensures
            res@.len() == models(self.data@).filter(matches_pred(query@)).len(),
            hits_sound(res@, models(self.data@), query@, models(self.data@).len() as int),
            hits_complete(res@, models(self.data@), query@, models(self.data@).len() as int),
            forall|p: int, q: int| 0 <= p < q < res@.len() ==> hit_le(res@[p], res@[q]),
    {
        let ghost ms = models(self.data@);
        let q = normalize(query);
        let mut hits: Vec<(String, String)> = Vec::new();
        let n: usize = self.data.len();
        proof {
            assert(ms.take(0) =~= Seq::<RecordModel>::empty());
        }
        let mut k: usize = 0;
        while k < n
            invariant
                k <= n,
                n == self.data@.len(),
                ms == models(self.data@),
                ms.len() == n,
                q@ == norm_seq(query@),
                hits@.len() == ms.take(k as int).filter(matches_pred(query@)).len(),
                hits_sound(hits@, ms, query@, k as int),
                hits_complete(hits@, ms, query@, k as int),
            decreases n - k,
        {
            let rec = &self.data[k];
            proof {
                assert(ms[k as int] == rec_model(*rec));
                assert(ms.take(k + 1 as int) =~= ms.take(k as int).push(ms[k as int]));
                lemma_matches_filter_snoc(ms.take(k as int), ms[k as int], query@);
            }
            let has_versions: bool = rec.versions.len() > 0;
            if has_versions && str_starts_with(rec.search_key.as_str(), q.as_str()) {
                let name = rec.name.clone();
                let ver = rec.versions[0].clone();
                let ghost prevh = hits@;
                proof {
                    assert(rec_matches(ms[k as int], query@));
                }
                hits.push((name, ver));
                proof {
                    assert(hits@ == prevh.push((name, ver)));
                    lemma_hits_extend_match(prevh, ms, query@, k as int, (name, ver));
                }
            } else {
                proof {
                    assert(!rec_matches(ms[k as int], query@));
                    lemma_hits_extend_nomatch(hits@, ms, query@, k as int);
                }
            }
            k += 1;
        }
        proof {
            assert(ms.take(n as int) =~= ms);
        }
        let ghost pre = hits@;
        sort_hits(&mut hits);
        proof {
            lemma_hits_permutation(pre, hits@, ms, query@, n as int);
        }
        hits
    }

    /// The full version list of the named package, looked up
    /// case-insensitively; none when the name is absent from the snapshot.
    pub fn get_versions(&self, name: &str) -> (r: Option<Vec<String>>)
        ensures
            (r is Some <==> lookup(models(self.data@), lower_seq(name@)) is Some),
            (r matches Some(v) ==> lookup(models(self.data@), lower_seq(name@))
                == Option::Some(v.deep_view())),
    {
        let ghost ms = models(self.data@);
        let key = lowercase(name);
        let n: usize = self.data.len();
        proof {
            assert(ms.skip(0) =~= ms);
        }
        let mut k: usize = 0;
        while k < n
            invariant
                k <= n,
                n == self.data@.len(),
                ms == models(self.data@),
                ms.len() == n,
                key@ == lower_seq(name@),
                lookup(ms, key@) == lookup(ms.skip(k as int), key@),
            decreases n - k,
        {
            proof {
                assert(ms.skip(k as int)[0] == ms[k as int]);
                assert(ms.skip(k as int).drop_first() =~= ms.skip(k + 1 as int));
            }
            let rec = &self.data[k];
            proof {
                assert(ms[k as int] == rec_model(*rec));
            }
            let same: bool = rec.name == key;
            if same {
                let versions = clone_strings(&rec.versions);
                proof {
                    assert(versions.deep_view() =~= ms[k as int].versions);
                }
                return Option::Some(versions);
            }
            k += 1;
        }
        proof {
            assert(ms.skip(n as int).len() == 0);
        }
        Option::None
    }

    /// Whether the refresh cycle should run now: no cycle in progress and
    /// the snapshot older than the refresh interval.
    pub fn need_update(&self, now: u64) -> (r: bool)
        ensures
            r == (!self.updating && self.last_checked + REFRESH_INTERVAL < now),
    {
        !self.updating && now > REFRESH_INTERVAL && self.last_checked < now - REFRESH_INTERVAL
    }

    /// Marks a refresh cycle as in progress; only callable while none is.
    pub fn begin_update(&mut self)
        requires
            !old(self).updating,
        ensures
            begin_step(*old(self), *final(self)),
    {
        self.updating = true;
    }

    /// Ends a refresh cycle: swaps in the new snapshot if the cycle
    /// produced one, keeps the old snapshot otherwise, stamps the cycle's
    /// end time without ever moving it backwards, and clears the
    /// in-progress mark. A failed sync or reload thus only delays
    /// freshness.
    pub fn finish_update(&mut self, new_data: Option<Vec<CrateRecord>>, now: u64)
        ensures
            finish_step(*old(self), *final(self), new_data, now),
            final(self).last_checked >= old(self).last_checked,
    {
        match new_data {
            Option::Some(d) => {
                self.data = d;
            },
            Option::None => {},
        }
        if now > self.last_checked {
            self.last_checked = now;
        }
        self.updating = false;
    }
}

/// The state change of a beginning refresh cycle.
pub open spec fn begin_step(pre: TomlData, post: TomlData) -> bool {
    &&& !pre.updating
    &&& post.updating
    &&& post.last_checked == pre.last_checked
    &&& post.data == pre.data
}

/// The state change of a finishing refresh cycle.
pub open spec fn finish_step(
    pre: TomlData,
    post: TomlData,
    new_data: Option<Vec<CrateRecord>>,
    now: u64,
) -> bool {
    &&& !post.updating
    &&& post.last_checked == if now > pre.last_checked {
        now
    } else {
        pre.last_checked
    }
    &&& post.data == match new_data {
        Option::Some(d) => d,
        Option::None => pre.data,
    }
}

/// Refresh cycles never overlap and never move `last_checked` backwards:
/// a cycle begins only when none is in progress; while it runs no second
/// cycle can begin; and after it finishes—with or without new data—the
/// cache is no older than before.
pub proof fn lemma_refresh_discipline(
    s0: TomlData,
    s1: TomlData,
    s2: TomlData,
    new_data: Option<Vec<CrateRecord>>,
    now: u64,
)
    requires
        begin_step(s0, s1),
        finish_step(s1, s2, new_data, now),
    ensures
        s1.updating,
        forall|t: TomlData| !begin_step(s1, t),
        !s2.updating,
        s2.last_checked >= s0.last_checked,
{
}

/// Case-insensitivity of version lookup: names equal up to letter case
/// resolve to the same entry.
pub proof fn lemma_lookup_case_insensitive(ms: Seq<RecordModel>, a: Seq<char>, b: Seq<char>)
    requires
        lower_seq(a) == lower_seq(b),
    ensures
        lookup(ms, lower_seq(a)) == lookup(ms, lower_seq(b)),
{
}

/// Relies on std::time::SystemTime::now: seconds of the wall clock since
/// the Unix epoch, zero if the clock lies before the epoch. Nothing can
/// be promised of the clock's value.
#[verifier::external_body]
pub fn now() -> u64 {
    std::time::SystemTime::now().duration_since(std::time::UNIX_EPOCH).map(|d| d.as_secs())
        .unwrap_or(0)
}

} // verus!
