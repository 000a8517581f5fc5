//! Loading the localisation of a mod: which files are read, in which order,
//! and how their keys merge.  Files load in order; a key's entry comes from
//! the last file that defines it, and a key defined again for the same
//! language is reported as duplicated.
use vstd::prelude::*;
use crate::loc::{
    LocEntry, LocEntryModel, loc_entries_model, loc_entry_model, insert_entry, distinct_keys, header_from,
    loc_entries_from, parse_loc_file, insert_loc, insert_all, key_index, lemma_key_index,
};
use crate::numtext::lower_seq;
use crate::rules::{has_substring, contains_chars, lower_chars};
use crate::script::strip_bom;
use crate::text::{chars_of, literal, str_is};

verus! {

/// A localisation file is read when its path names English, in any case.
pub fn is_english_loc_path(path: &str) -> (r: bool)
    ensures
        r == has_substring(lower_seq(path@), "english"@),
{
    let cs = lower_chars(&chars_of(path));
    let n = chars_of("english");
    contains_chars(&cs, &n)
}

/// Files whose path contains `replace` load after the others.
pub fn is_replace_loc_path(path: &str) -> (r: bool)
    ensures
        r == has_substring(path@, "replace"@),
{
    contains_chars(&chars_of(path), &chars_of("replace"))
}

/// The language a file declares in its header; `unknown` without one.
pub open spec fn file_language(input: Seq<char>) -> Seq<char> {
    match header_from(strip_bom(input), 0) {
        Some((_, lang)) => lang,
        None => "unknown"@,
    }
}

/// The entries of a file, one per key, the last definition of a key winning.
pub open spec fn file_entries(input: Seq<char>, path: Seq<char>) -> Seq<LocEntryModel> {
    match header_from(strip_bom(input), 0) {
        Some((p, _)) => crate::loc::insert_all(loc_entries_from(strip_bom(input), p, path)),
        None => Seq::empty(),
    }
}

/// The merged entries, the (language, key) pairs seen, and those seen twice.
pub struct LoadModel {
    pub entries: Seq<LocEntryModel>,
    pub seen: Set<(Seq<char>, Seq<char>)>,
    pub dups: Set<(Seq<char>, Seq<char>)>,
}

/// Adds the entries of one file in language `lang`.
pub open spec fn load_entries(st: LoadModel, lang: Seq<char>, es: Seq<LocEntryModel>) -> LoadModel
    decreases es.len(),
{
    if es.len() == 0 {
        st
    } else {
        let s1 = load_entries(st, lang, es.drop_last());
        let e = es.last();
        let pair = (lang, e.key);
        LoadModel {
            entries: insert_entry(s1.entries, e),
            seen: s1.seen.insert(pair),
            dups: if s1.seen.contains(pair) {
                s1.dups.insert(pair)
            } else {
                s1.dups
            },
        }
    }
}

/// Loading the files `(path, content)` in order.
pub open spec fn load_files(files: Seq<(Seq<char>, Seq<char>)>) -> LoadModel
    decreases files.len(),
{
    if files.len() == 0 {
        LoadModel { entries: Seq::empty(), seen: Set::empty(), dups: Set::empty() }
    } else {
        let (path, content) = files.last();
        load_entries(load_files(files.drop_last()), file_language(content), file_entries(content, path))
    }
}

pub open spec fn files_view(files: Seq<(String, String)>) -> Seq<(Seq<char>, Seq<char>)> {
    files.map_values(|f: (String, String)| (f.0@, f.1@))
}

pub open spec fn pairs_view(v: Seq<(String, String)>) -> Seq<(Seq<char>, Seq<char>)> {
    v.map_values(|p: (String, String)| (p.0@, p.1@))
}

proof fn lemma_pairs_push(v: Seq<(String, String)>, x: (String, String))
    ensures
        pairs_view(v.push(x)) == pairs_view(v).push((x.0@, x.1@)),
        pairs_view(v.push(x)).to_set() == pairs_view(v).to_set().insert((x.0@, x.1@)),
{
    let s = pairs_view(v);
    let p = (x.0@, x.1@);
    assert(pairs_view(v.push(x)) =~= s.push(p));
    assert forall|q: (Seq<char>, Seq<char>)| s.push(p).contains(q) <==> s.contains(q) || q == p by {
        if s.contains(q) {
            let k = choose|k: int| 0 <= k < s.len() && s[k] == q;
            assert(s.push(p)[k] == q);
        }
        if q == p {
            assert(s.push(p)[s.len() as int] == q);
        }
        if s.push(p).contains(q) && q != p {
            let k = choose|k: int| 0 <= k < s.push(p).len() && s.push(p)[k] == q;
            assert(s[k] == q);
        }
    }
    assert forall|q: (Seq<char>, Seq<char>)| #[trigger] s.push(p).to_set().contains(q) == s.to_set().insert(p).contains(q) by {
        assert(s.push(p).to_set().contains(q) == s.push(p).contains(q));
        assert(s.to_set().contains(q) == s.contains(q));
    }
    assert(s.push(p).to_set() =~= s.to_set().insert(p));
}

/// Records one entry of a file in language `lang`: the pair is seen, reported
/// when it was seen before, and the entry replaces the one with its key.
fn add_entry(
    all: &mut Vec<LocEntry>,
    seen: &mut Vec<(String, String)>,
    dups: &mut Vec<(String, String)>,
    lang: &String,
    e: LocEntry,
)
    requires
        pairs_view(old(dups)@).no_duplicates(),
    ensures
        loc_entries_model(final(all)@) == insert_entry(loc_entries_model(old(all)@), loc_entry_model(e)),
        distinct_keys(loc_entries_model(old(all)@)) ==> distinct_keys(loc_entries_model(final(all)@)),
        pairs_view(final(seen)@).to_set() == pairs_view(old(seen)@).to_set().insert((lang@, e.key@)),
        pairs_view(final(dups)@).to_set() == if pairs_view(old(seen)@).to_set().contains((lang@, e.key@)) {
            pairs_view(old(dups)@).to_set().insert((lang@, e.key@))
        } else {
            pairs_view(old(dups)@).to_set()
        },
        pairs_view(final(dups)@).no_duplicates(),
{
    let ghost pair = (lang@, e.key@);
    let key = e.key.clone();
    let already = has_pair(seen, lang.as_str(), key.as_str());
    assert(pairs_view(seen@).to_set().contains(pair) == pairs_view(seen@).contains(pair));
    if already {
        assert(pairs_view(seen@).to_set().insert(pair) =~= pairs_view(seen@).to_set());
        let in_dups = has_pair(dups, lang.as_str(), key.as_str());
        assert(pairs_view(dups@).to_set().contains(pair) == pairs_view(dups@).contains(pair));
        if !in_dups {
            let d = (lang.clone(), key.clone());
            proof {
                lemma_pairs_push(dups@, d);
                let s = pairs_view(dups@);
                let t = s.push(pair);
                assert forall|i: int, j: int| 0 <= i < t.len() && 0 <= j < t.len() && i != j implies t[i] != t[j] by {
                    if i < s.len() && j < s.len() {
                        assert(t[i] == s[i] && t[j] == s[j]);
                    } else if i < s.len() {
                        assert(t[i] == s[i]);
                    } else if j < s.len() {
                        assert(t[j] == s[j]);
                    }
                }
            }
            dups.push(d);
        } else {
            assert(pairs_view(dups@).to_set().insert(pair) =~= pairs_view(dups@).to_set());
        }
    } else {
        let n = (lang.clone(), key);
        proof {
            lemma_pairs_push(seen@, n);
        }
        seen.push(n);
    }
    insert_loc(all, e);
}

/// Whether `(a, b)` is one of the pairs of `v`.
fn has_pair(v: &Vec<(String, String)>, a: &str, b: &str) -> (r: bool)
    ensures
        r == pairs_view(v@).contains((a@, b@)),
{
    let mut k: usize = 0;
    while k < v.len()
        invariant
            k <= v@.len(),
            forall|j: int| 0 <= j < k ==> pairs_view(v@)[j] != (a@, b@),
        decreases v.len() - k,
    {
        if str_is(v[k].0.as_str(), a) && str_is(v[k].1.as_str(), b) {
            assert(pairs_view(v@)[k as int] == (a@, b@));
            return true;
        }
        k += 1;
    }
    false
}

/// Loads localisation files `(path, content)` in the given order: the merged
/// entries (one per key, from the last file that defines it) and the
/// (language, key) pairs defined more than once, each once.
pub fn load_localisation(files: &Vec<(String, String)>) -> (r: (Vec<LocEntry>, Vec<(String, String)>))
    requires
        forall|k: int| 0 <= k < files@.len() ==> vstd::utf8::encode_utf8((#[trigger] files@[k]).1@).len() <= u32::MAX,
    ensures
        loc_entries_model(r.0@) == load_files(files_view(files@)).entries,
        pairs_view(r.1@).to_set() == load_files(files_view(files@)).dups,
        pairs_view(r.1@).no_duplicates(),
        distinct_keys(loc_entries_model(r.0@)),
{
    let ghost fs = files_view(files@);
    let mut all: Vec<LocEntry> = Vec::new();
    let mut seen: Vec<(String, String)> = Vec::new();
    let mut dups: Vec<(String, String)> = Vec::new();
    let mut f: usize = 0;
    proof {
        assert(fs.subrange(0, 0) =~= Seq::<(Seq<char>, Seq<char>)>::empty());
        assert(pairs_view(seen@).to_set() =~= Set::empty());
        assert(pairs_view(dups@).to_set() =~= Set::empty());
    }
    while f < files.len()
        invariant
            f <= files@.len(),
            fs == files_view(files@),
            forall|k: int| 0 <= k < files@.len() ==> vstd::utf8::encode_utf8((#[trigger] files@[k]).1@).len() <= u32::MAX,
            loc_entries_model(all@) == load_files(fs.subrange(0, f as int)).entries,
            pairs_view(seen@).to_set() == load_files(fs.subrange(0, f as int)).seen,
            pairs_view(dups@).to_set() == load_files(fs.subrange(0, f as int)).dups,
            pairs_view(dups@).no_duplicates(),
            distinct_keys(loc_entries_model(all@)),
        decreases files.len() - f,
    {
        let path = &files[f].0;
        let content = &files[f].1;
        let (parsed, _, doc_lang) = parse_loc_file(content.as_str(), path.as_str());
        let lang = match doc_lang {
            Some(l) => l,
            None => literal("unknown"),
        };
        let ghost st0 = load_files(fs.subrange(0, f as int));
        let ghost es = loc_entries_model(parsed@);
        proof {
            assert(fs.subrange(0, f + 1).drop_last() =~= fs.subrange(0, f as int));
            assert(fs.subrange(0, f + 1).last() == (path@, content@));
            assert(lang@ == file_language(content@));
            assert(es == file_entries(content@, path@));
            assert(es.subrange(0, 0) =~= Seq::<LocEntryModel>::empty());
            assert(es.subrange(0, es.len() as int) =~= es);
        }
        let total = parsed.len();
        let ghost n = parsed@.len();
        let mut rest = parsed;
        let mut k: usize = 0;
        while rest.len() > 0
            invariant
                k + rest@.len() == n,
                n == es.len(),
                n == total,
                loc_entries_model(rest@) == es.subrange(k as int, n as int),
                ({
                    let st = load_entries(st0, lang@, es.subrange(0, k as int));
                    &&& loc_entries_model(all@) == st.entries
                    &&& pairs_view(seen@).to_set() == st.seen
                    &&& pairs_view(dups@).to_set() == st.dups
                }),
                pairs_view(dups@).no_duplicates(),
                distinct_keys(loc_entries_model(all@)),
            decreases rest@.len(),
        {
            let ghost before = rest@;
            let e = rest.remove(0);
            proof {
                assert(loc_entries_model(before)[0] == es[k as int]);
                assert(es.subrange(0, k + 1).drop_last() =~= es.subrange(0, k as int));
                assert(es.subrange(0, k + 1).last() == es[k as int]);
                assert(loc_entries_model(rest@) =~= es.subrange(k + 1, n as int)) by {
                    assert forall|j: int| 0 <= j < rest@.len() implies loc_entries_model(rest@)[j] == es.subrange(k + 1, n as int)[j] by {
                        assert(rest@[j] == before[j + 1]);
                        assert(loc_entries_model(before)[j + 1] == es[k + 1 + j]);
                    }
                }
            }
            add_entry(&mut all, &mut seen, &mut dups, &lang, e);
            k += 1;
        }
        proof {
            assert(es.subrange(0, n as int) =~= es);
        }
        f += 1;
    }
    proof {
        assert(fs.subrange(0, files@.len() as int) =~= fs);
    }
    (all, dups)
}

// ---------------------------------------------------------------------------
// Which pairs are reported
// ---------------------------------------------------------------------------

/// Some entry of `es` has key `k`.
pub open spec fn has_key(es: Seq<LocEntryModel>, k: Seq<char>) -> bool {
    exists|j: int| 0 <= j < es.len() && (#[trigger] es[j]).key == k
}

/// The file `(path, content)` defines key `p.1` in language `p.0`.
pub open spec fn defines_pair(f: (Seq<char>, Seq<char>), p: (Seq<char>, Seq<char>)) -> bool {
    p.0 == file_language(f.1) && has_key(file_entries(f.1, f.0), p.1)
}

proof fn lemma_insert_entry_keys(m: Seq<LocEntryModel>, e: LocEntryModel)
    requires
        distinct_keys(m),
    ensures
        distinct_keys(insert_entry(m, e)),
{
    lemma_key_index(m, e.key, 0);
    let r = insert_entry(m, e);
    assert forall|i: int, j: int| 0 <= i < j < r.len() implies #[trigger] r[i].key != #[trigger] r[j].key by {
        match key_index(m, e.key, 0) {
            Some(x) => {
                if i == x {
                    assert(m[j].key != m[x].key);
                } else if j == x {
                    assert(m[i].key != m[x].key);
                } else {
                    assert(m[i].key != m[j].key);
                }
            },
            None => {
                if j == m.len() {
                    assert(m[i].key != e.key);
                } else {
                    assert(m[i].key != m[j].key);
                }
            },
        }
    }
}

proof fn lemma_insert_all_keys(es: Seq<LocEntryModel>)
    ensures
        distinct_keys(insert_all(es)),
    decreases es.len(),
{
    if es.len() > 0 {
        lemma_insert_all_keys(es.drop_last());
        lemma_insert_entry_keys(insert_all(es.drop_last()), es.last());
    }
}

/// Loading one file whose keys are distinct adds its pairs to those seen and
/// reports those of them that were seen before.
proof fn lemma_load_entries(st: LoadModel, lang: Seq<char>, es: Seq<LocEntryModel>, p: (Seq<char>, Seq<char>))
    requires
        distinct_keys(es),
    ensures
        load_entries(st, lang, es).seen.contains(p) <==> st.seen.contains(p) || (p.0 == lang && has_key(es, p.1)),
        load_entries(st, lang, es).dups.contains(p) <==> st.dups.contains(p) || (st.seen.contains(p) && p.0 == lang
            && has_key(es, p.1)),
    decreases es.len(),
{
    if es.len() > 0 {
        let init = es.drop_last();
        let e = es.last();
        assert(distinct_keys(init)) by {
            assert forall|i: int, j: int| 0 <= i < j < init.len() implies #[trigger] init[i].key != #[trigger] init[j].key by {
                assert(init[i] == es[i] && init[j] == es[j]);
            }
        }
        lemma_load_entries(st, lang, init, p);
        lemma_load_entries(st, lang, init, (lang, e.key));
        assert(!has_key(init, e.key)) by {
            if has_key(init, e.key) {
                let j = choose|j: int| 0 <= j < init.len() && (#[trigger] init[j]).key == e.key;
                assert(es[j].key != es[es.len() - 1].key);
            }
        }
        assert(has_key(es, p.1) <==> has_key(init, p.1) || e.key == p.1) by {
            if has_key(init, p.1) {
                let j = choose|j: int| 0 <= j < init.len() && (#[trigger] init[j]).key == p.1;
                assert(es[j] == init[j]);
            }
            if e.key == p.1 {
                assert(es[es.len() - 1].key == p.1);
            }
            if has_key(es, p.1) && e.key != p.1 {
                let j = choose|j: int| 0 <= j < es.len() && (#[trigger] es[j]).key == p.1;
                assert(init[j] == es[j]);
            }
        }
    }
}

/// Loading one more file: a pair is seen when it was seen before or the file
/// defines it, and it is a duplicate when it was one before or it was seen
/// before and the file defines it.
proof fn lemma_file_step(fs: Seq<(Seq<char>, Seq<char>)>, p: (Seq<char>, Seq<char>))
    requires
        fs.len() > 0,
    ensures
        load_files(fs).seen.contains(p) <==> load_files(fs.drop_last()).seen.contains(p) || defines_pair(fs.last(), p),
        load_files(fs).dups.contains(p) <==> load_files(fs.drop_last()).dups.contains(p)
            || (load_files(fs.drop_last()).seen.contains(p) && defines_pair(fs.last(), p)),
{
    let (path, content) = fs.last();
    let es = file_entries(content, path);
    assert(distinct_keys(es)) by {
        match header_from(strip_bom(content), 0) {
            Some((q, _)) => lemma_insert_all_keys(loc_entries_from(strip_bom(content), q, path)),
            None => {},
        }
    }
    lemma_load_entries(load_files(fs.drop_last()), file_language(content), es, p);
}

/// Some file of `fs` defines `p` exactly when one before the last does, or
/// the last does.
proof fn lemma_some_file_step(fs: Seq<(Seq<char>, Seq<char>)>, p: (Seq<char>, Seq<char>))
    requires
        fs.len() > 0,
    ensures
        (exists|i: int| 0 <= i < fs.len() && defines_pair(#[trigger] fs[i], p)) <==> (exists|i: int|
            0 <= i < fs.drop_last().len() && defines_pair(#[trigger] fs.drop_last()[i], p)) || defines_pair(fs.last(), p),
{
    let init = fs.drop_last();
    let last = fs.len() - 1;
    if exists|i: int| 0 <= i < fs.len() && defines_pair(#[trigger] fs[i], p) {
        let i = choose|i: int| 0 <= i < fs.len() && defines_pair(#[trigger] fs[i], p);
        if i < last {
            assert(init[i] == fs[i]);
        }
    }
    if exists|i: int| 0 <= i < init.len() && defines_pair(#[trigger] init[i], p) {
        let i = choose|i: int| 0 <= i < init.len() && defines_pair(#[trigger] init[i], p);
        assert(init[i] == fs[i]);
    }
    if defines_pair(fs.last(), p) {
        assert(defines_pair(fs[last], p));
    }
}

/// Two files of `fs` define `p` exactly when two before the last do, or one
/// before the last and the last do.
proof fn lemma_two_files_step(fs: Seq<(Seq<char>, Seq<char>)>, p: (Seq<char>, Seq<char>))
    requires
        fs.len() > 0,
    ensures
        (exists|i: int, j: int| 0 <= i < j < fs.len() && defines_pair(#[trigger] fs[i], p) && defines_pair(#[trigger] fs[j], p))
            <==> (exists|i: int, j: int| 0 <= i < j < fs.drop_last().len() && defines_pair(#[trigger] fs.drop_last()[i], p)
                && defines_pair(#[trigger] fs.drop_last()[j], p))
            || ((exists|i: int| 0 <= i < fs.drop_last().len() && defines_pair(#[trigger] fs.drop_last()[i], p))
                && defines_pair(fs.last(), p)),
{
    let init = fs.drop_last();
    let last = fs.len() - 1;
    if exists|i: int, j: int| 0 <= i < j < fs.len() && defines_pair(#[trigger] fs[i], p) && defines_pair(#[trigger] fs[j], p) {
        let (i, j) = choose|i: int, j: int| 0 <= i < j < fs.len() && defines_pair(#[trigger] fs[i], p) && defines_pair(#[trigger] fs[j], p);
        assert(init[i] == fs[i]);
        assert(defines_pair(init[i], p));
        if j < last {
            assert(init[j] == fs[j]);
            assert(defines_pair(init[j], p));
        }
    }
    if exists|i: int, j: int| 0 <= i < j < init.len() && defines_pair(#[trigger] init[i], p) && defines_pair(#[trigger] init[j], p) {
        let (i, j) = choose|i: int, j: int| 0 <= i < j < init.len() && defines_pair(#[trigger] init[i], p) && defines_pair(#[trigger] init[j], p);
        assert(init[i] == fs[i] && init[j] == fs[j]);
        assert(defines_pair(fs[i], p) && defines_pair(fs[j], p));
    }
    if (exists|i: int| 0 <= i < init.len() && defines_pair(#[trigger] init[i], p)) && defines_pair(fs.last(), p) {
        let i = choose|i: int| 0 <= i < init.len() && defines_pair(#[trigger] init[i], p);
        assert(init[i] == fs[i]);
        assert(defines_pair(fs[i], p) && defines_pair(fs[last], p));
    }
}

/// A (language, key) pair is reported as duplicated exactly when two of the
/// loaded files define that key in that language; it is seen exactly when one
/// of them does.
pub proof fn law_duplicates_are_pairs_of_two_files(fs: Seq<(Seq<char>, Seq<char>)>, p: (Seq<char>, Seq<char>))
    ensures
        load_files(fs).seen.contains(p) <==> exists|i: int| 0 <= i < fs.len() && defines_pair(#[trigger] fs[i], p),
        load_files(fs).dups.contains(p) <==> exists|i: int, j: int|
            0 <= i < j < fs.len() && defines_pair(#[trigger] fs[i], p) && defines_pair(#[trigger] fs[j], p),
    decreases fs.len(),
{
    if fs.len() > 0 {
        law_duplicates_are_pairs_of_two_files(fs.drop_last(), p);
        lemma_file_step(fs, p);
        lemma_some_file_step(fs, p);
        lemma_two_files_step(fs, p);
    }
}

} // verus!

verus! {

/// The English files among `fs` whose path mentions `replace` exactly when
/// `replace` is set, in their order.
pub open spec fn english_part(fs: Seq<(Seq<char>, Seq<char>)>, replace: bool) -> Seq<(Seq<char>, Seq<char>)>
    decreases fs.len(),
{
    if fs.len() == 0 {
        Seq::empty()
    } else {
        let rest = english_part(fs.drop_last(), replace);
        let f = fs.last();
        if has_substring(lower_seq(f.0), "english"@) && has_substring(f.0, "replace"@) == replace {
            rest.push(f)
        } else {
            rest
        }
    }
}

/// The load order of a root's localisation files, given in path order: the
/// English files, those whose path mentions `replace` last, each group in
/// path order.
pub open spec fn ordered_english(fs: Seq<(Seq<char>, Seq<char>)>) -> Seq<(Seq<char>, Seq<char>)> {
    english_part(fs, false) + english_part(fs, true)
}

/// The files of one root that load, in the order they load (the files come
/// in path order).
pub fn loc_load_order(files: Vec<(String, String)>) -> (r: Vec<(String, String)>)
    ensures
        files_view(r@) == ordered_english(files_view(files@)),
{
    let mut plain: Vec<(String, String)> = Vec::new();
    let mut replacing: Vec<(String, String)> = Vec::new();
    let ghost fv = files_view(files@);
    let mut k: usize = 0;
    while k < files.len()
        invariant
            k <= files@.len(),
            fv == files_view(files@),
            files_view(plain@) == english_part(fv.take(k as int), false),
            files_view(replacing@) == english_part(fv.take(k as int), true),
        decreases files.len() - k,
    {
        let path = files[k].0.clone();
        let content = files[k].1.clone();
        proof {
            assert(fv.take(k + 1).drop_last() =~= fv.take(k as int));
            assert(fv.take(k + 1).last() == (path@, content@));
        }
        if is_english_loc_path(path.as_str()) {
            if is_replace_loc_path(path.as_str()) {
                let ghost before = replacing@;
                replacing.push((path, content));
                assert(files_view(replacing@) =~= files_view(before).push(fv[k as int]));
            } else {
                let ghost before = plain@;
                plain.push((path, content));
                assert(files_view(plain@) =~= files_view(before).push(fv[k as int]));
            }
        }
        k += 1;
    }
    assert(fv.take(k as int) =~= fv);
    let ghost p = plain@;
    let ghost q = replacing@;
    plain.append(&mut replacing);
    assert(files_view(plain@) =~= files_view(p) + files_view(q));
    plain
}

} // verus!
