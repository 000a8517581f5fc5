//! The checks made once a state history file (`history/states/*.txt`) has
//! been walked: a state without provinces, provinces that the map does not
//! define or that are sea, provinces that another state lists too, repeated
//! victory points, and buildings placed outside the state or, when they
//! need a coast, on an inland province.
use vstd::prelude::*;
use crate::ast::Range;
use crate::findings::{RuleSeverity, RuleCode, RuleDiagnostic, RuleDiagModel, rule_diag_model, diags_model};
use crate::provinces::{Province, ProvinceModel, provinces_model};
use crate::text::{append_str, u32_to_decimal, decimal, chars_of, str_is};

verus! {

/// A `1234 = { naval_base = 1 }` entry inside `history.buildings`.
#[derive(Debug, Clone)]
pub struct ProvincePlacement {
    pub province: u32,
    pub building: String,
    pub province_range: Range,
    pub building_range: Range,
}

/// What the walk of a state file collected.
#[derive(Debug)]
pub struct StateWalk {
    /// The file lies under `history/states/`.
    pub is_state_file: bool,
    /// A `state = { ... }` block was seen.
    pub saw_state: bool,
    /// The state's own id, when it parses.
    pub self_id: Option<u32>,
    pub state_key_range: Option<Range>,
    pub provinces_key_range: Option<Range>,
    /// The listed provinces, in order, with their ranges.
    pub provinces: Vec<(u32, Range)>,
    /// The province of each `victory_points` entry, in order.
    pub vp_firsts: Vec<(u32, Range)>,
    pub placements: Vec<ProvincePlacement>,
}

pub struct PlacementModel {
    pub province: u32,
    pub building: Seq<char>,
    pub province_range: Range,
    pub building_range: Range,
}

pub struct StateWalkModel {
    pub is_state_file: bool,
    pub saw_state: bool,
    pub self_id: Option<u32>,
    pub state_key_range: Option<Range>,
    pub provinces_key_range: Option<Range>,
    pub provinces: Seq<(u32, Range)>,
    pub vp_firsts: Seq<(u32, Range)>,
    pub placements: Seq<PlacementModel>,
}

pub open spec fn placement_model(p: ProvincePlacement) -> PlacementModel {
    PlacementModel {
        province: p.province,
        building: p.building@,
        province_range: p.province_range,
        building_range: p.building_range,
    }
}

pub open spec fn state_walk_model(w: StateWalk) -> StateWalkModel {
    StateWalkModel {
        is_state_file: w.is_state_file,
        saw_state: w.saw_state,
        self_id: w.self_id,
        state_key_range: w.state_key_range,
        provinces_key_range: w.provinces_key_range,
        provinces: w.provinces@,
        vp_firsts: w.vp_firsts@,
        placements: w.placements@.map_values(|p: ProvincePlacement| placement_model(p)),
    }
}

pub open spec fn states_view(v: Seq<(u32, Vec<u32>)>) -> Seq<(u32, Seq<u32>)> {
    v.map_values(|s: (u32, Vec<u32>)| (s.0, s.1@))
}

pub open spec fn flags_view(v: Seq<(String, bool)>) -> Seq<(Seq<char>, bool)> {
    v.map_values(|p: (String, bool)| (p.0@, p.1))
}

pub open spec fn warning(r: Range, code: RuleCode, m: Seq<char>) -> RuleDiagModel {
    RuleDiagModel { range: r, severity: RuleSeverity::Warning, code: Some(code), message: m, data: None }
}

/// The definition of province `id`: the first with that id.
pub open spec fn province_def(ps: Seq<ProvinceModel>, id: u32) -> Option<ProvinceModel>
    decreases ps.len(),
{
    if ps.len() == 0 {
        None
    } else if ps[0].id == id {
        Some(ps[0])
    } else {
        province_def(ps.drop_first(), id)
    }
}

/// The first other state (by id) that lists province `p`.
pub open spec fn other_state(states: Seq<(u32, Seq<u32>)>, self_id: u32, p: u32) -> Option<u32>
    decreases states.len(),
{
    if states.len() == 0 {
        None
    } else if states[0].0 != self_id && states[0].1.contains(p) {
        Some(states[0].0)
    } else {
        other_state(states.drop_first(), self_id, p)
    }
}

/// Whether building `b` needs a coast (false when it is not defined).
pub open spec fn coastal_only(flags: Seq<(Seq<char>, bool)>, b: Seq<char>) -> bool
    decreases flags.len(),
{
    if flags.len() == 0 {
        false
    } else if flags[0].0 == b {
        flags[0].1
    } else {
        coastal_only(flags.drop_first(), b)
    }
}

pub open spec fn ids_of(v: Seq<(u32, Range)>) -> Seq<u32> {
    v.map_values(|p: (u32, Range)| p.0)
}

/// The findings for one listed province (its first listing).
pub open spec fn member_findings(
    p: u32,
    r: Range,
    provs: Seq<ProvinceModel>,
    states: Seq<(u32, Seq<u32>)>,
    self_id: Option<u32>,
) -> Seq<RuleDiagModel> {
    (if provs.len() > 0 {
        match province_def(provs, p) {
            None => seq![warning(r, RuleCode::StateUnknownProvince, "Province "@ + decimal(p as nat) + " is not in map/definition.csv"@)],
            Some(d) => if d.prov_type == "sea"@ {
                seq![warning(r, RuleCode::SeaProvinceInState, "Sea province "@ + decimal(p as nat) + " listed in a state (lakes are legal, sea is not)"@)]
            } else {
                Seq::empty()
            },
        }
    } else {
        Seq::empty()
    }) + match self_id {
        Some(s) => match other_state(states, s, p) {
            Some(o) => seq![warning(r, RuleCode::ProvinceInTwoStates, "Province "@ + decimal(p as nat) + " is also in state "@ + decimal(o as nat))],
            None => Seq::empty(),
        },
        None => Seq::empty(),
    }
}

/// The findings for the listed provinces, each id once (at its first listing).
pub open spec fn members_findings(
    ps: Seq<(u32, Range)>,
    provs: Seq<ProvinceModel>,
    states: Seq<(u32, Seq<u32>)>,
    self_id: Option<u32>,
) -> Seq<RuleDiagModel>
    decreases ps.len(),
{
    if ps.len() == 0 {
        Seq::empty()
    } else {
        let rest = members_findings(ps.drop_last(), provs, states, self_id);
        let (p, r) = ps.last();
        if ids_of(ps.drop_last()).contains(p) {
            rest
        } else {
            rest + member_findings(p, r, provs, states, self_id)
        }
    }
}

/// A warning for each victory-points entry whose province came before.
pub open spec fn vp_findings(vs: Seq<(u32, Range)>) -> Seq<RuleDiagModel>
    decreases vs.len(),
{
    if vs.len() == 0 {
        Seq::empty()
    } else {
        let rest = vp_findings(vs.drop_last());
        let (p, r) = vs.last();
        if ids_of(vs.drop_last()).contains(p) {
            rest.push(warning(r, RuleCode::DuplicateVictoryPoint, "Duplicate victory_points entry for province "@ + decimal(p as nat)))
        } else {
            rest
        }
    }
}

/// The findings for one building placement.
pub open spec fn placement_findings(
    pl: PlacementModel,
    members: Seq<u32>,
    provs: Seq<ProvinceModel>,
    flags: Seq<(Seq<char>, bool)>,
) -> Seq<RuleDiagModel> {
    if !members.contains(pl.province) {
        seq![warning(pl.province_range, RuleCode::ProvinceBuildingOutsideState, "Building '"@ + pl.building
            + "' placed on province "@ + decimal(pl.province as nat) + " which is not in this state"@)]
    } else if provs.len() > 0 && coastal_only(flags, pl.building) && (match province_def(provs, pl.province) {
        Some(d) => !d.is_coastal,
        None => false,
    }) {
        seq![warning(pl.building_range, RuleCode::CoastalBuildingOnInland, "Building '"@ + pl.building
            + "' requires a coastal province (province "@ + decimal(pl.province as nat) + " is inland)"@)]
    } else {
        Seq::empty()
    }
}

pub open spec fn placements_findings(
    pls: Seq<PlacementModel>,
    members: Seq<u32>,
    provs: Seq<ProvinceModel>,
    flags: Seq<(Seq<char>, bool)>,
) -> Seq<RuleDiagModel>
    decreases pls.len(),
{
    if pls.len() == 0 {
        Seq::empty()
    } else {
        placements_findings(pls.drop_last(), members, provs, flags) + placement_findings(pls.last(), members, provs, flags)
    }
}

/// All the findings of a walked state file: the empty state, then each
/// listed province, then repeated victory points, then building placements.
/// The province checks run only when province definitions are known.
pub open spec fn state_findings(
    w: StateWalkModel,
    provs: Seq<ProvinceModel>,
    states: Seq<(u32, Seq<u32>)>,
    flags: Seq<(Seq<char>, bool)>,
) -> Seq<RuleDiagModel> {
    if !w.is_state_file || !w.saw_state {
        Seq::empty()
    } else {
        let empty = if w.provinces.len() == 0 {
            match (if w.provinces_key_range is Some { w.provinces_key_range } else { w.state_key_range }) {
                Some(r) => seq![warning(r, RuleCode::EmptyState, "State has no provinces"@)],
                None => Seq::empty(),
            }
        } else {
            Seq::empty()
        };
        empty + members_findings(w.provinces, provs, states, w.self_id) + vp_findings(w.vp_firsts)
            + placements_findings(w.placements, ids_of(w.provinces), provs, flags)
    }
}

fn warn(r: Range, code: RuleCode, message: String) -> (d: RuleDiagnostic)
    ensures
        rule_diag_model(d) == warning(r, code, message@),
{
    RuleDiagnostic { range: r, severity: RuleSeverity::Warning, code: Some(code), message, data: None }
}

fn contains_id(v: &Vec<(u32, Range)>, n: usize, p: u32) -> (r: bool)
    requires
        n <= v@.len(),
    ensures
        r == ids_of(v@.take(n as int)).contains(p),
{
    let mut k: usize = 0;
    while k < n
        invariant
            k <= n <= v@.len(),
            forall|j: int| 0 <= j < k ==> v@[j].0 != p,
        decreases n - k,
    {
        if v[k].0 == p {
            assert(ids_of(v@.take(n as int))[k as int] == p);
            return true;
        }
        k += 1;
    }
    assert forall|j: int| 0 <= j < ids_of(v@.take(n as int)).len() implies ids_of(v@.take(n as int))[j] != p by {
        assert(ids_of(v@.take(n as int))[j] == v@[j].0);
    }
    false
}

fn find_province(provs: &Vec<Province>, id: u32) -> (r: Option<usize>)
    ensures
        match r {
            Some(k) => k < provs@.len() && province_def(provinces_model(provs@), id) == Some(provinces_model(provs@)[k as int]),
            None => province_def(provinces_model(provs@), id) is None,
        },
{
    let ghost pm = provinces_model(provs@);
    let mut k: usize = 0;
    assert(pm.skip(0) =~= pm);
    while k < provs.len()
        invariant
            k <= provs@.len(),
            pm == provinces_model(provs@),
            province_def(pm, id) == province_def(pm.skip(k as int), id),
        decreases provs.len() - k,
    {
        assert(pm.skip(k as int)[0] == pm[k as int]);
        assert(pm.skip(k as int).drop_first() =~= pm.skip(k + 1));
        if provs[k].id == id {
            return Some(k);
        }
        k += 1;
    }
    assert(pm.skip(k as int) =~= Seq::<ProvinceModel>::empty());
    None
}

fn contains_u32(v: &Vec<u32>, p: u32) -> (r: bool)
    ensures
        r == v@.contains(p),
{
    let mut j: usize = 0;
    while j < v.len()
        invariant
            j <= v@.len(),
            forall|i: int| 0 <= i < j ==> v@[i] != p,
        decreases v.len() - j,
    {
        if v[j] == p {
            assert(v@[j as int] == p);
            return true;
        }
        j += 1;
    }
    false
}

fn find_other_state(states: &Vec<(u32, Vec<u32>)>, self_id: u32, p: u32) -> (r: Option<u32>)
    ensures
        r == other_state(states_view(states@), self_id, p),
{
    let ghost sv = states_view(states@);
    let mut k: usize = 0;
    assert(sv.skip(0) =~= sv);
    while k < states.len()
        invariant
            k <= states@.len(),
            sv == states_view(states@),
            other_state(sv, self_id, p) == other_state(sv.skip(k as int), self_id, p),
        decreases states.len() - k,
    {
        assert(sv.skip(k as int)[0] == sv[k as int]);
        assert(sv.skip(k as int).drop_first() =~= sv.skip(k + 1));
        let id = states[k].0;
        if id != self_id {
            if contains_u32(&states[k].1, p) {
                return Some(id);
            }
        }
        k += 1;
    }
    assert(sv.skip(k as int) =~= Seq::<(u32, Seq<u32>)>::empty());
    None
}

fn find_coastal_only(flags: &Vec<(String, bool)>, b: &String) -> (r: bool)
    ensures
        r == coastal_only(flags_view(flags@), b@),
{
    let ghost fv = flags_view(flags@);
    let mut k: usize = 0;
    assert(fv.skip(0) =~= fv);
    while k < flags.len()
        invariant
            k <= flags@.len(),
            fv == flags_view(flags@),
            coastal_only(fv, b@) == coastal_only(fv.skip(k as int), b@),
        decreases flags.len() - k,
    {
        assert(fv.skip(k as int)[0] == fv[k as int]);
        assert(fv.skip(k as int).drop_first() =~= fv.skip(k + 1));
        if str_is(flags[k].0.as_str(), b.as_str()) {
            return flags[k].1;
        }
        k += 1;
    }
    assert(fv.skip(k as int) =~= Seq::<(Seq<char>, bool)>::empty());
    false
}

fn member_check(
    p: u32,
    r: Range,
    provs: &Vec<Province>,
    states: &Vec<(u32, Vec<u32>)>,
    self_id: Option<u32>,
    out: &mut Vec<RuleDiagnostic>,
)
    ensures
        diags_model(final(out)@) == diags_model(old(out)@) + member_findings(
            p,
            r,
            provinces_model(provs@),
            states_view(states@),
            self_id,
        ),
{
    let ghost before = diags_model(out@);
    let ghost pm = provinces_model(provs@);
    if provs.len() > 0 {
        match find_province(provs, p) {
            None => {
                let mut m = String::new();
                append_str(&mut m, "Province ");
                crate::text::push_chars(&mut m, &chars_of(u32_to_decimal(p).as_str()));
                append_str(&mut m, " is not in map/definition.csv");
                out.push(warn(r, RuleCode::StateUnknownProvince, m));
            },
            Some(k) => {
                if str_is(provs[k].prov_type.as_str(), "sea") {
                    let mut m = String::new();
                    append_str(&mut m, "Sea province ");
                    crate::text::push_chars(&mut m, &chars_of(u32_to_decimal(p).as_str()));
                    append_str(&mut m, " listed in a state (lakes are legal, sea is not)");
                    out.push(warn(r, RuleCode::SeaProvinceInState, m));
                }
            },
        }
    }
    let ghost mid = diags_model(out@);
    match self_id {
        Some(s) => match find_other_state(states, s, p) {
            Some(o) => {
                let mut m = String::new();
                append_str(&mut m, "Province ");
                crate::text::push_chars(&mut m, &chars_of(u32_to_decimal(p).as_str()));
                append_str(&mut m, " is also in state ");
                crate::text::push_chars(&mut m, &chars_of(u32_to_decimal(o).as_str()));
                out.push(warn(r, RuleCode::ProvinceInTwoStates, m));
            },
            None => {},
        },
        None => {},
    }
    proof {
        let first: Seq<RuleDiagModel> = if pm.len() > 0 {
            match province_def(pm, p) {
                None => seq![warning(r, RuleCode::StateUnknownProvince, "Province "@ + decimal(p as nat) + " is not in map/definition.csv"@)],
                Some(d) => if d.prov_type == "sea"@ {
                    seq![warning(r, RuleCode::SeaProvinceInState, "Sea province "@ + decimal(p as nat) + " listed in a state (lakes are legal, sea is not)"@)]
                } else {
                    Seq::empty()
                },
            }
        } else {
            Seq::empty()
        };
        assert(mid =~= before + first);
        assert(diags_model(out@) =~= before + member_findings(p, r, pm, states_view(states@), self_id));
    }
}

/// The findings of a walked state file, given the province definitions,
/// the provinces listed by each state file (`(state id, provinces)`), and
/// whether each building needs a coast.
pub fn state_after_walk(
    state: &StateWalk,
    provinces: &Vec<Province>,
    states: &Vec<(u32, Vec<u32>)>,
    coastal: &Vec<(String, bool)>,
) -> (r: Vec<RuleDiagnostic>)
    ensures
        diags_model(r@) == state_findings(
            state_walk_model(*state),
            provinces_model(provinces@),
            states_view(states@),
            flags_view(coastal@),
        ),
{
    let ghost w = state_walk_model(*state);
    let ghost pm = provinces_model(provinces@);
    let ghost sv = states_view(states@);
    let ghost fv = flags_view(coastal@);
    let mut out: Vec<RuleDiagnostic> = Vec::new();
    assert(diags_model(out@) =~= Seq::<RuleDiagModel>::empty());
    if !state.is_state_file || !state.saw_state {
        return out;
    }
    if state.provinces.len() == 0 {
        let r = if state.provinces_key_range.is_some() {
            state.provinces_key_range
        } else {
            state.state_key_range
        };
        match r {
            Some(r) => {
                let m = crate::text::literal("State has no provinces");
                out.push(warn(r, RuleCode::EmptyState, m));
                assert(diags_model(out@) =~= seq![warning(r, RuleCode::EmptyState, "State has no provinces"@)]);
            },
            None => {},
        }
    }
    let ghost e0 = diags_model(out@);
    // listed provinces
    let ps = &state.provinces;
    let mut k: usize = 0;
    assert(ps@.take(0) =~= Seq::<(u32, Range)>::empty());
    assert(e0 + members_findings(ps@.take(0), pm, sv, state.self_id) =~= e0);
    while k < ps.len()
        invariant
            k <= ps@.len(),
            ps@ == w.provinces,
            pm == provinces_model(provinces@),
            sv == states_view(states@),
            diags_model(out@) == e0 + members_findings(ps@.take(k as int), pm, sv, state.self_id),
        decreases ps.len() - k,
    {
        let (p, r) = ps[k];
        proof {
            assert(ps@.take(k + 1).drop_last() =~= ps@.take(k as int));
            assert(ps@.take(k + 1).last() == (p, r));
        }
        let ghost before = diags_model(out@);
        if !contains_id(ps, k, p) {
            member_check(p, r, provinces, states, state.self_id, &mut out);
            assert(diags_model(out@) =~= e0 + members_findings(ps@.take(k + 1), pm, sv, state.self_id));
        }
        k += 1;
    }
    assert(ps@.take(k as int) =~= ps@);
    let ghost e1 = diags_model(out@);
    // repeated victory points
    let vs = &state.vp_firsts;
    let mut k: usize = 0;
    assert(vs@.take(0) =~= Seq::<(u32, Range)>::empty());
    assert(e1 + vp_findings(vs@.take(0)) =~= e1);
    while k < vs.len()
        invariant
            k <= vs@.len(),
            vs@ == w.vp_firsts,
            diags_model(out@) == e1 + vp_findings(vs@.take(k as int)),
        decreases vs.len() - k,
    {
        let (p, r) = vs[k];
        proof {
            assert(vs@.take(k + 1).drop_last() =~= vs@.take(k as int));
            assert(vs@.take(k + 1).last() == (p, r));
        }
        if contains_id(vs, k, p) {
            let mut m = String::new();
            append_str(&mut m, "Duplicate victory_points entry for province ");
            crate::text::push_chars(&mut m, &chars_of(u32_to_decimal(p).as_str()));
            let ghost before = diags_model(out@);
            let d = warn(r, RuleCode::DuplicateVictoryPoint, m);
            out.push(d);
            assert(diags_model(out@) =~= before.push(rule_diag_model(d)));
        }
        k += 1;
    }
    assert(vs@.take(k as int) =~= vs@);
    let ghost e2 = diags_model(out@);
    // building placements
    let pls = &state.placements;
    let ghost plm = w.placements;
    let mut k: usize = 0;
    assert(plm.take(0) =~= Seq::<PlacementModel>::empty());
    assert(e2 + placements_findings(plm.take(0), ids_of(ps@), pm, fv) =~= e2);
    while k < pls.len()
        invariant
            k <= pls@.len(),
            plm == pls@.map_values(|p: ProvincePlacement| placement_model(p)),
            ps@ == w.provinces,
            pm == provinces_model(provinces@),
            fv == flags_view(coastal@),
            diags_model(out@) == e2 + placements_findings(plm.take(k as int), ids_of(ps@), pm, fv),
        decreases pls.len() - k,
    {
        let pl = &pls[k];
        proof {
            assert(plm.take(k + 1).drop_last() =~= plm.take(k as int));
            assert(plm.take(k + 1).last() == placement_model(*pl));
        }
        let ghost before = diags_model(out@);
        let ghost pmod = placement_model(*pl);
        let n = ps.len();
        proof {
            assert(ps@.take(n as int) =~= ps@);
        }
        if !contains_id(ps, n, pl.province) {
            let mut m = String::new();
            append_str(&mut m, "Building '");
            append_str(&mut m, pl.building.as_str());
            append_str(&mut m, "' placed on province ");
            crate::text::push_chars(&mut m, &chars_of(u32_to_decimal(pl.province).as_str()));
            append_str(&mut m, " which is not in this state");
            let d = warn(pl.province_range, RuleCode::ProvinceBuildingOutsideState, m);
            out.push(d);
            assert(diags_model(out@) =~= before + placement_findings(pmod, ids_of(ps@), pm, fv));
        } else if provinces.len() > 0 && find_coastal_only(coastal, &pl.building) {
            let inland = match find_province(provinces, pl.province) {
                Some(j) => !provinces[j].is_coastal,
                None => false,
            };
            if inland {
                let mut m = String::new();
                append_str(&mut m, "Building '");
                append_str(&mut m, pl.building.as_str());
                append_str(&mut m, "' requires a coastal province (province ");
                crate::text::push_chars(&mut m, &chars_of(u32_to_decimal(pl.province).as_str()));
                append_str(&mut m, " is inland)");
                let d = warn(pl.building_range, RuleCode::CoastalBuildingOnInland, m);
                out.push(d);
                assert(diags_model(out@) =~= before + placement_findings(pmod, ids_of(ps@), pm, fv));
            } else {
                assert(diags_model(out@) =~= before + placement_findings(pmod, ids_of(ps@), pm, fv));
            }
        } else {
            assert(diags_model(out@) =~= before + placement_findings(pmod, ids_of(ps@), pm, fv));
        }
        assert(diags_model(out@) =~= e2 + placements_findings(plm.take(k + 1), ids_of(ps@), pm, fv));
        k += 1;
    }
    assert(plm.take(k as int) =~= plm);
    out
}

} // verus!
