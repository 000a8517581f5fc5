//! AI area files (`common/ai_areas/`): the continents and strategic regions
//! they list must be defined.  The region ids are number literals, read as
//! `u32` outside the library; the caller hands them in with their ranges.
use vstd::prelude::*;
use vstd::string::*;
use crate::ast::{Range, Assignment, Entry, Value, span_text, span_chars, entry_fits, value_fits};
use crate::script::{EntryModel, ValueModel, entries_model, entry_model, value_model};
use crate::portraits::{strings_view, lemma_entries_model};
use crate::event_walk::contains_str;
use crate::rules::spells;
use crate::findings::{RuleSeverity, RuleCode, RuleDiagnostic, RuleDiagModel, rule_diag_model, diags_model};
use crate::text::{append_str, push_chars, decimal, u32_to_decimal};

verus! {

pub open spec fn warn_at(r: Range, code: RuleCode, m: Seq<char>) -> RuleDiagModel {
    RuleDiagModel { range: r, severity: RuleSeverity::Warning, code: Some(code), message: m, data: None }
}

/// The bare names among `es` that are no continent.
pub open spec fn continent_findings(src: Seq<char>, es: Seq<EntryModel>, conts: Seq<Seq<char>>) -> Seq<RuleDiagModel>
    decreases es.len(),
{
    if es.len() == 0 {
        Seq::empty()
    } else {
        (match es[0] {
            EntryModel::Value(ValueModel::String(s), r) => if conts.contains(span_text(src, s)) {
                Seq::empty()
            } else {
                seq![warn_at(r, RuleCode::UnknownContinent, "Unknown continent: '"@ + span_text(src, s) + "'"@)]
            },
            _ => Seq::empty(),
        }) + continent_findings(src, es.drop_first(), conts)
    }
}

/// The listed region ids that no strategic region has.
pub open spec fn region_findings(ids: Seq<(u32, Range)>, regions: Seq<u32>) -> Seq<RuleDiagModel>
    decreases ids.len(),
{
    if ids.len() == 0 {
        Seq::empty()
    } else {
        (if regions.contains(ids[0].0) {
            Seq::empty()
        } else {
            seq![warn_at(ids[0].1, RuleCode::UnknownStrategicRegion, "Unknown strategic region: "@ + decimal(ids[0].0 as nat))]
        }) + region_findings(ids.drop_first(), regions)
    }
}

/// The findings on `key = v` in a file that is an AI area file when
/// `is_file`; `ids` are the number literals listed in the value's block.
pub open spec fn ai_area_findings(
    is_file: bool,
    key: Seq<char>,
    v: ValueModel,
    src: Seq<char>,
    conts: Seq<Seq<char>>,
    ids: Seq<(u32, Range)>,
    regions: Seq<u32>,
) -> Seq<RuleDiagModel> {
    if !is_file {
        Seq::empty()
    } else if key == "continents"@ {
        match v {
            ValueModel::Block(es) => continent_findings(src, es, conts),
            _ => Seq::empty(),
        }
    } else if key == "strategic_regions"@ {
        match v {
            ValueModel::Block(_) => region_findings(ids, regions),
            _ => Seq::empty(),
        }
    } else {
        Seq::empty()
    }
}

fn contains_u32(v: &Vec<u32>, x: u32) -> (r: bool)
    ensures
        r == v@.contains(x),
{
    let mut k: usize = 0;
    while k < v.len()
        invariant
            k <= v@.len(),
            forall|j: int| 0 <= j < k ==> v@[j] != x,
        decreases v.len() - k,
    {
        if v[k] == x {
            assert(v@[k as int] == x);
            return true;
        }
        k += 1;
    }
    false
}

fn push_continents(out: &mut Vec<RuleDiagnostic>, es: &Vec<Entry>, source: &str, conts: &Vec<String>)
    requires
        forall|k: int| 0 <= k < es@.len() ==> entry_fits(#[trigger] es@[k], source.spec_bytes()),
    ensures
        diags_model(final(out)@) == diags_model(old(out)@) + continent_findings(source@, entries_model(es@), strings_view(conts@)),
{
    let ghost em = entries_model(es@);
    let ghost cv = strings_view(conts@);
    let ghost start = diags_model(out@);
    proof {
        lemma_entries_model(es@);
    }
    assert(em.subrange(0, em.len() as int) =~= em);
    let mut k: usize = 0;
    while k < es.len()
        invariant
            k <= es@.len(),
            em == entries_model(es@),
            em.len() == es@.len(),
            cv == strings_view(conts@),
            forall|j: int| 0 <= j < es@.len() ==> #[trigger] em[j] == entry_model(es@[j]),
            forall|j: int| 0 <= j < es@.len() ==> entry_fits(#[trigger] es@[j], source.spec_bytes()),
            start + continent_findings(source@, em, cv) == diags_model(out@)
                + continent_findings(source@, em.subrange(k as int, em.len() as int), cv),
        decreases es.len() - k,
    {
        let ghost rest = em.subrange(k as int, em.len() as int);
        let ghost before = diags_model(out@);
        let ghost tail = continent_findings(source@, em.subrange(k + 1, em.len() as int), cv);
        assert(rest.drop_first() =~= em.subrange(k + 1, em.len() as int));
        assert(rest[0] == entry_model(es@[k as int]));
        let mut pushed = false;
        match &es[k] {
            Entry::Value(nv) => {
                match &nv.value {
                    Value::String(s) => {
                        let name = span_chars(s, source);
                        if !contains_str(conts, &name) {
                            let mut m = String::new();
                            append_str(&mut m, "Unknown continent: '");
                            push_chars(&mut m, &name);
                            append_str(&mut m, "'");
                            let d = RuleDiagnostic { range: nv.range, severity: RuleSeverity::Warning, code: Some(RuleCode::UnknownContinent), message: m, data: None };
                            out.push(d);
                            pushed = true;
                            assert(diags_model(out@) =~= before.push(rule_diag_model(d)));
                            assert(before + (seq![rule_diag_model(d)] + tail) =~= diags_model(out@) + tail);
                        }
                    },
                    _ => {},
                }
            },
            _ => {},
        }
        if !pushed {
            assert(before + (Seq::<RuleDiagModel>::empty() + tail) =~= before + tail);
        }
        k += 1;
    }
    assert(em.subrange(k as int, em.len() as int) =~= Seq::<EntryModel>::empty());
    assert(diags_model(out@) + Seq::<RuleDiagModel>::empty() =~= diags_model(out@));
}

fn push_regions(out: &mut Vec<RuleDiagnostic>, ids: &Vec<(u32, Range)>, regions: &Vec<u32>)
    ensures
        diags_model(final(out)@) == diags_model(old(out)@) + region_findings(ids@, regions@),
{
    let ghost start = diags_model(out@);
    assert(ids@.subrange(0, ids@.len() as int) =~= ids@);
    let mut k: usize = 0;
    while k < ids.len()
        invariant
            k <= ids@.len(),
            start + region_findings(ids@, regions@) == diags_model(out@)
                + region_findings(ids@.subrange(k as int, ids@.len() as int), regions@),
        decreases ids.len() - k,
    {
        let ghost rest = ids@.subrange(k as int, ids@.len() as int);
        let ghost before = diags_model(out@);
        let ghost tail = region_findings(ids@.subrange(k + 1, ids@.len() as int), regions@);
        assert(rest.drop_first() =~= ids@.subrange(k + 1, ids@.len() as int));
        let (id, r) = ids[k];
        if !contains_u32(regions, id) {
            let mut m = String::new();
            append_str(&mut m, "Unknown strategic region: ");
            append_str(&mut m, u32_to_decimal(id).as_str());
            let d = RuleDiagnostic { range: r, severity: RuleSeverity::Warning, code: Some(RuleCode::UnknownStrategicRegion), message: m, data: None };
            out.push(d);
            assert(diags_model(out@) =~= before.push(rule_diag_model(d)));
            assert(before + (seq![rule_diag_model(d)] + tail) =~= diags_model(out@) + tail);
        } else {
            assert(before + (Seq::<RuleDiagModel>::empty() + tail) =~= before + tail);
        }
        k += 1;
    }
    assert(ids@.subrange(k as int, ids@.len() as int) =~= Seq::<(u32, Range)>::empty());
    assert(diags_model(out@) + Seq::<RuleDiagModel>::empty() =~= diags_model(out@));
}

/// Checks an assignment of a file that is an AI area file when `is_file`:
/// `continents` lists the continents of the map, `ids` the number literals
/// in the value's block (read as `u32`, with their ranges) and `regions`
/// the ids of the strategic regions.
pub fn check_ai_area(
    is_file: bool,
    ass: &Assignment,
    source: &str,
    continents: &Vec<String>,
    ids: &Vec<(u32, Range)>,
    regions: &Vec<u32>,
) -> (r: Vec<RuleDiagnostic>)
    requires
        ass.key.fits(source),
        value_fits(ass.value.value, source.spec_bytes()),
    ensures
        diags_model(r@) == ai_area_findings(is_file, span_text(source@, ass.key), value_model(ass.value.value), source@,
            strings_view(continents@), ids@, regions@),
{
    let mut out: Vec<RuleDiagnostic> = Vec::new();
    assert(diags_model(out@) =~= Seq::<RuleDiagModel>::empty());
    if !is_file {
        return out;
    }
    let key = span_chars(&ass.key, source);
    if spells(&key, "continents") {
        match &ass.value.value {
            Value::Block(es) => {
                push_continents(&mut out, es, source, continents);
                assert(Seq::<RuleDiagModel>::empty() + continent_findings(source@, entries_model(es@), strings_view(continents@))
                    =~= continent_findings(source@, entries_model(es@), strings_view(continents@)));
            },
            _ => {},
        }
    } else if spells(&key, "strategic_regions") {
        match &ass.value.value {
            Value::Block(_) => {
                push_regions(&mut out, ids, regions);
                assert(Seq::<RuleDiagModel>::empty() + region_findings(ids@, regions@) =~= region_findings(ids@, regions@));
            },
            _ => {},
        }
    }
    out
}

} // verus!
