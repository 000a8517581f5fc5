//! The walk of a state history file (`history/states/*.txt`): the state's
//! id, its provinces, the province of each victory point, and the buildings
//! placed on provinces inside `buildings`, collected for the checks made
//! after the walk.  Numbers that the script writes as number literals are
//! read as floating point outside the library; the caller hands in the id
//! read as a `u32` and the ids listed in a block.
use vstd::prelude::*;
use vstd::string::*;
use crate::ast::{Range, Assignment, Entry, Value, span_text, span_chars, entry_fits, value_fits};
use crate::script::{EntryModel, ValueModel, entries_model, entry_model, value_model};
use crate::numtext::{lower_seq, all_digits, digits_value};
use crate::rules::{lower_chars, spells};
use crate::portraits::lemma_entries_model;
use crate::provinces::Province;
use crate::findings::RuleDiagnostic;
use crate::states::{StateWalk, StateWalkModel, ProvincePlacement, PlacementModel, placement_model, state_walk_model,
    state_after_walk};
use crate::event_ids::{all_digit_chars, digits_u32};
use crate::text::push_chars;

verus! {

pub struct StateMapModel {
    pub walk: StateWalkModel,
    pub in_state: u32,
    pub in_buildings: u32,
}

/// The buildings placed by the assignments among `es` on the province
/// `prov`, whose key stands at `pr`.
pub open spec fn placements_of(src: Seq<char>, es: Seq<EntryModel>, prov: u32, pr: Range) -> Seq<PlacementModel>
    decreases es.len(),
{
    if es.len() == 0 {
        Seq::empty()
    } else {
        (match es[0] {
            EntryModel::Assignment(k, kr, _, _, _, _) => seq![PlacementModel {
                province: prov,
                building: span_text(src, k),
                province_range: pr,
                building_range: kr,
            }],
            _ => Seq::empty(),
        }) + placements_of(src, es.drop_first(), prov, pr)
    }
}

/// The even-indexed items: the first of each pair.
pub open spec fn firsts(v: Seq<(u32, Range)>) -> Seq<(u32, Range)>
    decreases v.len(),
{
    if v.len() == 0 {
        Seq::empty()
    } else if v.len() == 1 {
        v
    } else {
        seq![v[0]] + firsts(v.subrange(2, v.len() as int))
    }
}

/// Entering `key = v` (key at `kr`): `id` is the value read as a
/// non-negative number, `ids` the ids listed in the value's block.
pub open spec fn state_enter_step(
    m: StateMapModel,
    key: Seq<char>,
    kr: Range,
    v: ValueModel,
    src: Seq<char>,
    id: Option<u32>,
    ids: Seq<(u32, Range)>,
) -> StateMapModel {
    let kl = lower_seq(key);
    let is_block = v is Block || v is TaggedBlock;
    let w = m.walk;
    if !w.is_state_file {
        m
    } else if kl == "state"@ && is_block {
        StateMapModel {
            in_state: (m.in_state + 1) as u32,
            walk: StateWalkModel {
                saw_state: true,
                state_key_range: if w.state_key_range is None { Some(kr) } else { w.state_key_range },
                ..w
            },
            ..m
        }
    } else if m.in_state == 0 {
        m
    } else if kl == "id"@ && w.self_id is None {
        match id {
            Some(n) => StateMapModel { walk: StateWalkModel { self_id: Some(n), ..w }, ..m },
            None => m,
        }
    } else if kl == "provinces"@ && is_block {
        StateMapModel {
            walk: StateWalkModel {
                provinces_key_range: if w.provinces_key_range is None { Some(kr) } else { w.provinces_key_range },
                provinces: w.provinces + ids,
                ..w
            },
            ..m
        }
    } else if kl == "victory_points"@ && is_block {
        StateMapModel { walk: StateWalkModel { vp_firsts: w.vp_firsts + firsts(ids), ..w }, ..m }
    } else if kl == "buildings"@ && is_block {
        StateMapModel { in_buildings: (m.in_buildings + 1) as u32, ..m }
    } else if m.in_buildings > 0 && key.len() > 0 && all_digits(key) && v is Block && digits_value(key) <= u32::MAX {
        StateMapModel {
            walk: StateWalkModel {
                placements: w.placements + placements_of(src, v->Block_0, digits_value(key) as u32, kr),
                ..w
            },
            ..m
        }
    } else {
        m
    }
}

/// Leaving `key = v`: a `state` or `buildings` block is left.
pub open spec fn state_exit_step(m: StateMapModel, key: Seq<char>, v: ValueModel) -> StateMapModel {
    let kl = lower_seq(key);
    let is_block = v is Block || v is TaggedBlock;
    if !m.walk.is_state_file {
        m
    } else if kl == "state"@ && is_block {
        StateMapModel { in_state: if m.in_state > 0 { (m.in_state - 1) as u32 } else { 0 }, ..m }
    } else if kl == "buildings"@ && is_block {
        StateMapModel { in_buildings: if m.in_buildings > 0 { (m.in_buildings - 1) as u32 } else { 0 }, ..m }
    } else {
        m
    }
}

/// The walk of a state file, with how deep it is in `state` and
/// `buildings` blocks.
pub struct StateMapVisitor {
    pub walk: StateWalk,
    pub in_state: u32,
    pub in_buildings: u32,
}

impl View for StateMapVisitor {
    type V = StateMapModel;

    open spec fn view(&self) -> StateMapModel {
        StateMapModel { walk: state_walk_model(self.walk), in_state: self.in_state, in_buildings: self.in_buildings }
    }
}

fn string_of(v: &Vec<char>) -> (s: String)
    ensures
        s@ == v@,
{
    let mut s = String::new();
    push_chars(&mut s, v);
    s
}

fn push_placements(out: &mut Vec<ProvincePlacement>, es: &Vec<Entry>, source: &str, prov: u32, pr: Range)
    requires
        forall|k: int| 0 <= k < es@.len() ==> entry_fits(#[trigger] es@[k], source.spec_bytes()),
    ensures
        final(out)@.map_values(|p: ProvincePlacement| placement_model(p))
            == old(out)@.map_values(|p: ProvincePlacement| placement_model(p)) + placements_of(source@, entries_model(es@), prov, pr),
{
    let ghost em = entries_model(es@);
    let ghost start = old(out)@.map_values(|p: ProvincePlacement| placement_model(p));
    proof {
        lemma_entries_model(es@);
        assert(em.subrange(0, em.len() as int) =~= em);
        assert(start + placements_of(source@, em, prov, pr) == out@.map_values(|p: ProvincePlacement| placement_model(p))
            + placements_of(source@, em.subrange(0, em.len() as int), prov, pr));
    }
    let mut k: usize = 0;
    while k < es.len()
        invariant
            k <= es@.len(),
            em == entries_model(es@),
            em.len() == es@.len(),
            forall|j: int| 0 <= j < es@.len() ==> #[trigger] em[j] == entry_model(es@[j]),
            forall|j: int| 0 <= j < es@.len() ==> entry_fits(#[trigger] es@[j], source.spec_bytes()),
            start + placements_of(source@, em, prov, pr) == out@.map_values(|p: ProvincePlacement| placement_model(p))
                + placements_of(source@, em.subrange(k as int, em.len() as int), prov, pr),
        decreases es.len() - k,
    {
        let ghost rest = em.subrange(k as int, em.len() as int);
        let ghost before = out@.map_values(|p: ProvincePlacement| placement_model(p));
        assert(rest.drop_first() =~= em.subrange(k + 1, em.len() as int));
        assert(rest[0] == entry_model(es@[k as int]));
        match &es[k] {
            Entry::Assignment(a) => {
                let b = string_of(&span_chars(&a.key, source));
                let p = ProvincePlacement { province: prov, building: b, province_range: pr, building_range: a.key_range };
                out.push(p);
                assert(out@.map_values(|p: ProvincePlacement| placement_model(p)) =~= before.push(placement_model(p)));
                assert(before + (seq![placement_model(p)] + placements_of(source@, em.subrange(k + 1, em.len() as int), prov, pr))
                    =~= before.push(placement_model(p)) + placements_of(source@, em.subrange(k + 1, em.len() as int), prov, pr));
            },
            _ => {
                assert(Seq::<PlacementModel>::empty() + placements_of(source@, em.subrange(k + 1, em.len() as int), prov, pr)
                    =~= placements_of(source@, em.subrange(k + 1, em.len() as int), prov, pr));
            },
        }
        k += 1;
    }
    assert(em.subrange(k as int, em.len() as int) =~= Seq::<EntryModel>::empty());
    assert(out@.map_values(|p: ProvincePlacement| placement_model(p)) + Seq::<PlacementModel>::empty()
        =~= out@.map_values(|p: ProvincePlacement| placement_model(p)));
}

fn push_firsts(out: &mut Vec<(u32, Range)>, ids: &Vec<(u32, Range)>)
    ensures
        final(out)@ == old(out)@ + firsts(ids@),
{
    let ghost start = old(out)@;
    let mut k: usize = 0;
    assert(ids@.subrange(0, ids@.len() as int) =~= ids@);
    while k < ids.len()
        invariant
            k <= ids@.len(),
            start + firsts(ids@) == out@ + firsts(ids@.subrange(k as int, ids@.len() as int)),
        decreases ids.len() - k,
    {
        let ghost rest = ids@.subrange(k as int, ids@.len() as int);
        let ghost before = out@;
        out.push(ids[k]);
        if ids.len() - k >= 2 {
            assert(rest.subrange(2, rest.len() as int) =~= ids@.subrange(k + 2, ids@.len() as int));
            assert(before + (seq![rest[0]] + firsts(rest.subrange(2, rest.len() as int))) =~= out@ + firsts(ids@.subrange(k + 2, ids@.len() as int)));
        } else {
            assert(rest.len() == 1);
            assert(firsts(rest) == rest);
            assert(rest =~= seq![ids@[k as int]]);
            assert(out@ + Seq::<(u32, Range)>::empty() =~= out@);
        }
        if ids.len() - k >= 2 {
            k += 2;
        } else {
            k = ids.len();
            assert(ids@.subrange(k as int, ids@.len() as int) =~= Seq::<(u32, Range)>::empty());
        }
    }
    assert(ids@.subrange(k as int, ids@.len() as int) =~= Seq::<(u32, Range)>::empty());
    assert(out@ + Seq::<(u32, Range)>::empty() =~= out@);
}

fn append_ids(v: &mut Vec<(u32, Range)>, ids: &Vec<(u32, Range)>)
    ensures
        final(v)@ == old(v)@ + ids@,
{
    let ghost before = v@;
    let mut k: usize = 0;
    while k < ids.len()
        invariant
            k <= ids@.len(),
            v@ == before + ids@.take(k as int),
        decreases ids.len() - k,
    {
        v.push(ids[k]);
        assert(ids@.take(k + 1) =~= ids@.take(k as int).push(ids@[k as int]));
        k += 1;
    }
    assert(ids@.take(ids@.len() as int) =~= ids@);
}

impl StateMapVisitor {
    /// A walk of a file that is a state file when `is_state_file`.
    pub fn new(is_state_file: bool) -> (r: Self)
        ensures
            r@.walk.is_state_file == is_state_file,
            !r@.walk.saw_state,
            r@.walk.self_id is None,
            r@.walk.state_key_range is None,
            r@.walk.provinces_key_range is None,
            r@.walk.provinces.len() == 0,
            r@.walk.vp_firsts.len() == 0,
            r@.walk.placements.len() == 0,
            r@.in_state == 0,
            r@.in_buildings == 0,
    {
        StateMapVisitor {
            walk: StateWalk {
                is_state_file,
                saw_state: false,
                self_id: None,
                state_key_range: None,
                provinces_key_range: None,
                provinces: Vec::new(),
                vp_firsts: Vec::new(),
                placements: Vec::new(),
            },
            in_state: 0,
            in_buildings: 0,
        }
    }

    /// Entering an assignment; `id` is its value read as a non-negative
    /// number, `ids` the ids listed in its block.
    pub fn enter_assignment(&mut self, ass: &Assignment, source: &str, id: Option<u32>, ids: &Vec<(u32, Range)>)
        requires
            ass.key.fits(source),
            value_fits(ass.value.value, source.spec_bytes()),
            old(self).in_state < u32::MAX,
            old(self).in_buildings < u32::MAX,
        ensures
            final(self)@ == state_enter_step(old(self)@, span_text(source@, ass.key), ass.key_range,
                value_model(ass.value.value), source@, id, ids@),
    {
        if !self.walk.is_state_file {
            return;
        }
        let key = span_chars(&ass.key, source);
        let kl = lower_chars(&key);
        let is_block = match &ass.value.value {
            Value::Block(_) => true,
            Value::TaggedBlock(_, _, _) => true,
            _ => false,
        };
        if spells(&kl, "state") && is_block {
            self.in_state = self.in_state + 1;
            self.walk.saw_state = true;
            if self.walk.state_key_range.is_none() {
                self.walk.state_key_range = Some(ass.key_range);
            }
            return;
        }
        if self.in_state == 0 {
            return;
        }
        if spells(&kl, "id") && self.walk.self_id.is_none() {
            match id {
                Some(n) => {
                    self.walk.self_id = Some(n);
                },
                None => {},
            }
            return;
        }
        if spells(&kl, "provinces") && is_block {
            if self.walk.provinces_key_range.is_none() {
                self.walk.provinces_key_range = Some(ass.key_range);
            }
            append_ids(&mut self.walk.provinces, ids);
            return;
        }
        if spells(&kl, "victory_points") && is_block {
            push_firsts(&mut self.walk.vp_firsts, ids);
            return;
        }
        if spells(&kl, "buildings") && is_block {
            self.in_buildings = self.in_buildings + 1;
            return;
        }
        if self.in_buildings > 0 && key.len() > 0 && all_digit_chars(&key) {
            match &ass.value.value {
                Value::Block(es) => {
                    match digits_u32(&key) {
                        Some(prov) => {
                            push_placements(&mut self.walk.placements, es, source, prov, ass.key_range);
                        },
                        None => {},
                    }
                },
                _ => {},
            }
        }
    }

    /// Leaving an assignment.
    pub fn exit_assignment(&mut self, ass: &Assignment, source: &str)
        requires
            ass.key.fits(source),
        ensures
            final(self)@ == state_exit_step(old(self)@, span_text(source@, ass.key), value_model(ass.value.value)),
    {
        if !self.walk.is_state_file {
            return;
        }
        let key = span_chars(&ass.key, source);
        let kl = lower_chars(&key);
        let is_block = match &ass.value.value {
            Value::Block(_) => true,
            Value::TaggedBlock(_, _, _) => true,
            _ => false,
        };
        if spells(&kl, "state") && is_block {
            if self.in_state > 0 {
                self.in_state = self.in_state - 1;
            }
        } else if spells(&kl, "buildings") && is_block {
            if self.in_buildings > 0 {
                self.in_buildings = self.in_buildings - 1;
            }
        }
    }

    /// The checks made once the file has been walked (see
    /// `state_after_walk`).
    pub fn after_walk(&self, provinces: &Vec<Province>, states: &Vec<(u32, Vec<u32>)>, coastal: &Vec<(String, bool)>)
        -> (r: Vec<RuleDiagnostic>)
        ensures
            crate::findings::diags_model(r@) == crate::states::state_findings(
                self@.walk,
                crate::provinces::provinces_model(provinces@),
                crate::states::states_view(states@),
                crate::states::flags_view(coastal@),
            ),
    {
        state_after_walk(&self.walk, provinces, states, coastal)
    }
}

} // verus!
