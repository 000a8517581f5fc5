//! The names that a state definition uses: its `state_category`, the keys
//! of its `resources`, and the buildings inside `buildings` (directly, or
//! inside a province's block), each checked against those defined.
use vstd::prelude::*;
use vstd::string::*;
use crate::ast::{Range, Assignment, Entry, Value, span_text, span_chars, entry_fits, value_fits};
use crate::script::{EntryModel, ValueModel, entries_model, entry_model, value_model};
use crate::numtext::{lower_seq, all_digits};
use crate::rules::{lower_chars, spells};
use crate::gfx::value_text;
use crate::csv::join_with;
use crate::portraits::{strings_view, lemma_entries_model};
use crate::event_ids::{text_after, text_after_exec, all_digit_chars};
use crate::event_walk::{value_chars, contains_str};
use crate::findings::{RuleSeverity, RuleCode, RuleDiagnostic, RuleDiagModel, rule_diag_model, diags_model};
use crate::text::{chars_of, append_str, push_chars};

verus! {

/// `x` placed in the sorted `s` before the first name that comes after it.
pub open spec fn insert_text(s: Seq<Seq<char>>, x: Seq<char>) -> Seq<Seq<char>>
    decreases s.len(),
{
    if s.len() == 0 {
        seq![x]
    } else if text_after(s[0], x) {
        seq![x] + s
    } else {
        seq![s[0]] + insert_text(s.drop_first(), x)
    }
}

/// The names in ascending order of their characters.
pub open spec fn sort_texts(v: Seq<Seq<char>>) -> Seq<Seq<char>>
    decreases v.len(),
{
    if v.len() == 0 {
        Seq::empty()
    } else {
        insert_text(sort_texts(v.drop_last()), v.last())
    }
}

pub open spec fn warn_at(r: Range, code: RuleCode, m: Seq<char>) -> RuleDiagModel {
    RuleDiagModel { range: r, severity: RuleSeverity::Warning, code: Some(code), message: m, data: None }
}

/// The assignments among `es` whose key is not among `names` (none when no
/// names are known).
pub open spec fn unknown_keys(src: Seq<char>, es: Seq<EntryModel>, names: Seq<Seq<char>>, what: Seq<char>, hint: Seq<char>, code: RuleCode) -> Seq<RuleDiagModel>
    decreases es.len(),
{
    if names.len() == 0 || es.len() == 0 {
        Seq::empty()
    } else {
        (match es[0] {
            EntryModel::Assignment(k, kr, _, _, _, _) => if names.contains(span_text(src, k)) {
                Seq::empty()
            } else {
                seq![warn_at(kr, code, "Unknown "@ + what + " '"@ + span_text(src, k) + "'. "@ + what + "s are defined in "@ + hint)]
            },
            _ => Seq::empty(),
        }) + unknown_keys(src, es.drop_first(), names, what, hint, code)
    }
}

/// Inside `buildings`: a province's block (all-digit key) has its keys
/// checked; any other key is a building.
pub open spec fn building_findings(src: Seq<char>, es: Seq<EntryModel>, bs: Seq<Seq<char>>) -> Seq<RuleDiagModel>
    decreases es.len(),
{
    if es.len() == 0 {
        Seq::empty()
    } else {
        (match es[0] {
            EntryModel::Assignment(k, kr, _, _, v, _) => {
                let key = span_text(src, k);
                if all_digits(key) {
                    match v {
                        ValueModel::Block(pes) => unknown_keys(src, pes, bs, "building"@, "common/buildings/*.txt"@, RuleCode::UnknownBuilding),
                        _ => Seq::empty(),
                    }
                } else if bs.len() > 0 && !bs.contains(key) {
                    seq![warn_at(kr, RuleCode::UnknownBuilding, "Unknown building '"@ + key + "'. buildings are defined in common/buildings/*.txt"@)]
                } else {
                    Seq::empty()
                }
            },
            _ => Seq::empty(),
        }) + building_findings(src, es.drop_first(), bs)
    }
}

pub open spec fn category_message(s: Seq<char>, cats: Seq<Seq<char>>) -> Seq<char> {
    let known = join_with(sort_texts(cats), ", "@);
    "Unknown state category '"@ + s + "'"@ + if known.len() == 0 { Seq::empty() } else { ". Known: "@ + known }
}

/// The findings on `key = v` (value at `vr`) in a state definition.
pub open spec fn state_def_findings(
    key: Seq<char>,
    v: ValueModel,
    vr: Range,
    src: Seq<char>,
    cats: Seq<Seq<char>>,
    res: Seq<Seq<char>>,
    bs: Seq<Seq<char>>,
) -> Seq<RuleDiagModel> {
    let kl = lower_seq(key);
    if kl == "state_category"@ {
        match value_text(src, v) {
            Some(s) => if cats.len() > 0 && !cats.contains(s) {
                seq![warn_at(vr, RuleCode::UnknownStateCategory, category_message(s, cats))]
            } else {
                Seq::empty()
            },
            None => Seq::empty(),
        }
    } else if kl == "resources"@ {
        match v {
            ValueModel::Block(es) => unknown_keys(src, es, res, "resource"@, "common/resources/*.txt"@, RuleCode::UnknownResource),
            _ => Seq::empty(),
        }
    } else if kl == "buildings"@ {
        match v {
            ValueModel::Block(es) => building_findings(src, es, bs),
            _ => Seq::empty(),
        }
    } else {
        Seq::empty()
    }
}

proof fn lemma_insert_at(s: Seq<Seq<char>>, x: Seq<char>, i: int)
    requires
        0 <= i <= s.len(),
        forall|j: int| 0 <= j < i ==> !text_after(#[trigger] s[j], x),
        i == s.len() || text_after(s[i], x),
    ensures
        insert_text(s, x) == s.take(i) + seq![x] + s.skip(i),
    decreases s.len(),
{
    if s.len() == 0 {
        assert(s.take(i) + seq![x] + s.skip(i) =~= seq![x]);
    } else if i == 0 {
        assert(s.take(0) + seq![x] + s.skip(0) =~= seq![x] + s);
    } else {
        assert(!text_after(s[0], x));
        let r = s.drop_first();
        assert forall|j: int| 0 <= j < i - 1 implies !text_after(#[trigger] r[j], x) by {
            assert(r[j] == s[j + 1]);
        }
        if i < s.len() {
            assert(r[i - 1] == s[i]);
        }
        lemma_insert_at(r, x, i - 1);
        assert(seq![s[0]] + (r.take(i - 1) + seq![x] + r.skip(i - 1)) =~= s.take(i) + seq![x] + s.skip(i));
    }
}

pub open spec fn texts_view(v: Seq<Vec<char>>) -> Seq<Seq<char>> {
    v.map_values(|c: Vec<char>| c@)
}

fn insert_sorted(s: &mut Vec<Vec<char>>, x: Vec<char>)
    ensures
        texts_view(final(s)@) == insert_text(texts_view(old(s)@), x@),
{
    let ghost sv = texts_view(s@);
    let mut i: usize = 0;
    while i < s.len()
        invariant
            i <= s@.len(),
            sv == texts_view(s@),
            forall|j: int| 0 <= j < i ==> !text_after(#[trigger] sv[j], x@),
        ensures
            i <= s@.len(),
            sv == texts_view(s@),
            forall|j: int| 0 <= j < i ==> !text_after(#[trigger] sv[j], x@),
            i == s@.len() || text_after(sv[i as int], x@),
        decreases s.len() - i,
    {
        if text_after_exec(&s[i], &x) {
            break;
        }
        i += 1;
    }
    proof {
        lemma_insert_at(sv, x@, i as int);
    }
    let ghost xv = x@;
    s.insert(i, x);
    assert(texts_view(s@) =~= sv.take(i as int) + seq![xv] + sv.skip(i as int));
}

/// The names sorted in ascending order of their characters, joined with
/// `, `.
fn known_list(names: &Vec<String>) -> (r: String)
    ensures
        r@ == join_with(sort_texts(strings_view(names@)), ", "@),
{
    let ghost nv = strings_view(names@);
    let mut sorted: Vec<Vec<char>> = Vec::new();
    let mut k: usize = 0;
    assert(nv.take(0) =~= Seq::<Seq<char>>::empty());
    assert(texts_view(sorted@) =~= Seq::<Seq<char>>::empty());
    while k < names.len()
        invariant
            k <= names@.len(),
            nv == strings_view(names@),
            texts_view(sorted@) == sort_texts(nv.take(k as int)),
        decreases names.len() - k,
    {
        insert_sorted(&mut sorted, chars_of(names[k].as_str()));
        assert(nv.take(k + 1).drop_last() =~= nv.take(k as int));
        assert(nv.take(k + 1).last() == names@[k as int]@);
        k += 1;
    }
    assert(nv.take(names@.len() as int) =~= nv);
    let ghost tv = texts_view(sorted@);
    let mut out = String::new();
    let mut i: usize = 0;
    proof {
        reveal_strlit(", ");
    }
    assert(out@ =~= join_with(tv.take(0), ", "@));
    while i < sorted.len()
        invariant
            i <= sorted@.len(),
            tv == texts_view(sorted@),
            out@ == join_with(tv.take(i as int), ", "@),
            ", "@ == seq![',', ' '],
        decreases sorted.len() - i,
    {
        let ghost before = out@;
        if i > 0 {
            append_str(&mut out, ", ");
        }
        push_chars(&mut out, &sorted[i]);
        assert(tv.take(i + 1).drop_last() =~= tv.take(i as int));
        assert(tv.take(i + 1).last() == sorted@[i as int]@);
        if i == 0 {
            assert(tv.take(1).len() == 1);
            assert(join_with(tv.take(1), ", "@) == tv.take(1)[0]);
            assert(before =~= Seq::<char>::empty());
            assert(out@ =~= sorted@[0]@);
        }
        i += 1;
    }
    assert(tv.take(sorted@.len() as int) =~= tv);
    out
}

fn warn(r: Range, code: RuleCode, m: String) -> (d: RuleDiagnostic)
    ensures
        rule_diag_model(d) == warn_at(r, code, m@),
{
    RuleDiagnostic { range: r, severity: RuleSeverity::Warning, code: Some(code), message: m, data: None }
}

fn push_unknown_keys(out: &mut Vec<RuleDiagnostic>, es: &Vec<Entry>, source: &str, names: &Vec<String>, what: &str, hint: &str, code: RuleCode)
    requires
        forall|k: int| 0 <= k < es@.len() ==> entry_fits(#[trigger] es@[k], source.spec_bytes()),
    ensures
        diags_model(final(out)@) == diags_model(old(out)@) + unknown_keys(source@, entries_model(es@), strings_view(names@), what@, hint@, code),
{
    let ghost em = entries_model(es@);
    let ghost nv = strings_view(names@);
    let ghost start = diags_model(out@);
    proof {
        lemma_entries_model(es@);
    }
    if names.len() == 0 {
        assert(diags_model(out@) + Seq::<RuleDiagModel>::empty() =~= diags_model(out@));
        return;
    }
    assert(em.subrange(0, em.len() as int) =~= em);
    let mut k: usize = 0;
    while k < es.len()
        invariant
            k <= es@.len(),
            em == entries_model(es@),
            em.len() == es@.len(),
            nv == strings_view(names@),
            nv.len() > 0,
            forall|j: int| 0 <= j < es@.len() ==> #[trigger] em[j] == entry_model(es@[j]),
            forall|j: int| 0 <= j < es@.len() ==> entry_fits(#[trigger] es@[j], source.spec_bytes()),
            start + unknown_keys(source@, em, nv, what@, hint@, code) == diags_model(out@)
                + unknown_keys(source@, em.subrange(k as int, em.len() as int), nv, what@, hint@, code),
        decreases es.len() - k,
    {
        let ghost rest = em.subrange(k as int, em.len() as int);
        let ghost before = diags_model(out@);
        let ghost tail = unknown_keys(source@, em.subrange(k + 1, em.len() as int), nv, what@, hint@, code);
        assert(rest.drop_first() =~= em.subrange(k + 1, em.len() as int));
        assert(rest[0] == entry_model(es@[k as int]));
        match &es[k] {
            Entry::Assignment(a) => {
                let name = span_chars(&a.key, source);
                if !contains_str(names, &name) {
                    let mut m = String::new();
                    append_str(&mut m, "Unknown ");
                    append_str(&mut m, what);
                    append_str(&mut m, " '");
                    push_chars(&mut m, &name);
                    append_str(&mut m, "'. ");
                    append_str(&mut m, what);
                    append_str(&mut m, "s are defined in ");
                    append_str(&mut m, hint);
                    let d = warn(a.key_range, code, m);
                    out.push(d);
                    assert(diags_model(out@) =~= before.push(rule_diag_model(d)));
                    assert(before + (seq![rule_diag_model(d)] + tail) =~= diags_model(out@) + tail);
                } else {
                    assert(before + (Seq::<RuleDiagModel>::empty() + tail) =~= before + tail);
                }
            },
            _ => {
                assert(before + (Seq::<RuleDiagModel>::empty() + tail) =~= before + tail);
            },
        }
        k += 1;
    }
    assert(em.subrange(k as int, em.len() as int) =~= Seq::<EntryModel>::empty());
    assert(diags_model(out@) + Seq::<RuleDiagModel>::empty() =~= diags_model(out@));
}

fn push_building_findings(out: &mut Vec<RuleDiagnostic>, es: &Vec<Entry>, source: &str, bs: &Vec<String>)
    requires
        forall|k: int| 0 <= k < es@.len() ==> entry_fits(#[trigger] es@[k], source.spec_bytes()),
    ensures
        diags_model(final(out)@) == diags_model(old(out)@) + building_findings(source@, entries_model(es@), strings_view(bs@)),
{
    let ghost em = entries_model(es@);
    let ghost bv = strings_view(bs@);
    let ghost start = diags_model(out@);
    proof {
        lemma_entries_model(es@);
    }
    assert(em.subrange(0, em.len() as int) =~= em);
    let mut k: usize = 0;
    while k < es.len()
        invariant
            k <= es@.len(),
            em == entries_model(es@),
            em.len() == es@.len(),
            bv == strings_view(bs@),
            forall|j: int| 0 <= j < es@.len() ==> #[trigger] em[j] == entry_model(es@[j]),
            forall|j: int| 0 <= j < es@.len() ==> entry_fits(#[trigger] es@[j], source.spec_bytes()),
            start + building_findings(source@, em, bv) == diags_model(out@)
                + building_findings(source@, em.subrange(k as int, em.len() as int), bv),
        decreases es.len() - k,
    {
        let ghost rest = em.subrange(k as int, em.len() as int);
        let ghost before = diags_model(out@);
        let ghost tail = building_findings(source@, em.subrange(k + 1, em.len() as int), bv);
        assert(rest.drop_first() =~= em.subrange(k + 1, em.len() as int));
        assert(rest[0] == entry_model(es@[k as int]));
        match &es[k] {
            Entry::Assignment(a) => {
                let key = span_chars(&a.key, source);
                if all_digit_chars(&key) {
                    match &a.value.value {
                        Value::Block(pes) => {
                            let ghost mid = diags_model(out@);
                            push_unknown_keys(out, pes, source, bs, "building", "common/buildings/*.txt", RuleCode::UnknownBuilding);
                            let ghost here = unknown_keys(source@, entries_model(pes@), bv, "building"@, "common/buildings/*.txt"@, RuleCode::UnknownBuilding);
                            assert(before + (here + tail) =~= diags_model(out@) + tail);
                        },
                        _ => {
                            assert(before + (Seq::<RuleDiagModel>::empty() + tail) =~= before + tail);
                        },
                    }
                } else if bs.len() > 0 && !contains_str(bs, &key) {
                    let mut m = String::new();
                    append_str(&mut m, "Unknown building '");
                    push_chars(&mut m, &key);
                    append_str(&mut m, "'. buildings are defined in common/buildings/*.txt");
                    let d = warn(a.key_range, RuleCode::UnknownBuilding, m);
                    out.push(d);
                    assert(diags_model(out@) =~= before.push(rule_diag_model(d)));
                    assert(before + (seq![rule_diag_model(d)] + tail) =~= diags_model(out@) + tail);
                } else {
                    assert(before + (Seq::<RuleDiagModel>::empty() + tail) =~= before + tail);
                }
            },
            _ => {
                assert(before + (Seq::<RuleDiagModel>::empty() + tail) =~= before + tail);
            },
        }
        k += 1;
    }
    assert(em.subrange(k as int, em.len() as int) =~= Seq::<EntryModel>::empty());
    assert(diags_model(out@) + Seq::<RuleDiagModel>::empty() =~= diags_model(out@));
}

/// Checks an assignment of a state definition against the state
/// categories, resources and buildings defined.
pub fn check_state_definition(
    ass: &Assignment,
    source: &str,
    categories: &Vec<String>,
    resources: &Vec<String>,
    buildings: &Vec<String>,
) -> (r: Vec<RuleDiagnostic>)
    requires
        ass.key.fits(source),
        value_fits(ass.value.value, source.spec_bytes()),
    ensures
        diags_model(r@) == state_def_findings(span_text(source@, ass.key), value_model(ass.value.value), ass.value.range,
            source@, strings_view(categories@), strings_view(resources@), strings_view(buildings@)),
{
    let mut out: Vec<RuleDiagnostic> = Vec::new();
    assert(diags_model(out@) =~= Seq::<RuleDiagModel>::empty());
    let key = span_chars(&ass.key, source);
    let kl = lower_chars(&key);
    if spells(&kl, "state_category") {
        match value_chars(&ass.value.value, source) {
            Some(s) => {
                if categories.len() > 0 && !contains_str(categories, &s) {
                    let known = known_list(categories);
                    let mut m = String::new();
                    append_str(&mut m, "Unknown state category '");
                    push_chars(&mut m, &s);
                    append_str(&mut m, "'");
                    if chars_of(known.as_str()).len() > 0 {
                        append_str(&mut m, ". Known: ");
                        append_str(&mut m, known.as_str());
                    }
                    proof {
                        reveal_strlit(". Known: ");
                    }
                    let ghost kv = known@;
                    assert(m@ =~= category_message(s@, strings_view(categories@))) by {
                        if kv.len() == 0 {
                            assert(m@ =~= "Unknown state category '"@ + s@ + "'"@ + Seq::<char>::empty());
                        }
                    }
                    let d = warn(ass.value.range, RuleCode::UnknownStateCategory, m);
                    out.push(d);
                    assert(diags_model(out@) =~= seq![rule_diag_model(d)]);
                }
            },
            None => {},
        }
    } else if spells(&kl, "resources") {
        match &ass.value.value {
            Value::Block(es) => {
                push_unknown_keys(&mut out, es, source, resources, "resource", "common/resources/*.txt", RuleCode::UnknownResource);
                assert(Seq::<RuleDiagModel>::empty() + unknown_keys(source@, entries_model(es@), strings_view(resources@), "resource"@,
                    "common/resources/*.txt"@, RuleCode::UnknownResource) =~= unknown_keys(source@, entries_model(es@),
                    strings_view(resources@), "resource"@, "common/resources/*.txt"@, RuleCode::UnknownResource));
            },
            _ => {},
        }
    } else if spells(&kl, "buildings") {
        match &ass.value.value {
            Value::Block(es) => {
                push_building_findings(&mut out, es, source, buildings);
                assert(Seq::<RuleDiagModel>::empty() + building_findings(source@, entries_model(es@), strings_view(buildings@))
                    =~= building_findings(source@, entries_model(es@), strings_view(buildings@)));
            },
            _ => {},
        }
    }
    out
}

} // verus!
