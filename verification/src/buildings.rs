//! Building levels inside `buildings = { … }` blocks (and the province
//! blocks nested in them), checked against each building's maximum level.
//! The value of an assignment, read as an `i32`, is handed in by the caller
//! (numbers are read as floating point, outside the library).
use vstd::prelude::*;
use crate::ast::Range;
use crate::numtext::lower_seq;
use crate::rules::{ascii_lowercase, spells};
use crate::characters::{int_text, i32_text};
use crate::findings::{RuleSeverity, RuleCode, RuleDiagnostic, RuleDiagModel, rule_diag_model, diags_model};
use crate::text::{append_str, literal, chars_of, chars_equal};

verus! {

/// The maximum level of the building named `name`: the last entry of that
/// name decides, as when the definitions are read into a map in order.
pub open spec fn max_level_of(bs: Seq<(Seq<char>, Option<i32>)>, name: Seq<char>) -> Option<Option<i32>>
    decreases bs.len(),
{
    if bs.len() == 0 {
        None
    } else if bs.last().0 == name {
        Some(bs.last().1)
    } else {
        max_level_of(bs.drop_last(), name)
    }
}

pub open spec fn buildings_view(v: Seq<(String, Option<i32>)>) -> Seq<(Seq<char>, Option<i32>)> {
    v.map_values(|p: (String, Option<i32>)| (p.0@, p.1))
}

pub open spec fn level_finding(key: Seq<char>, vr: Range, level: i32, max: i32) -> RuleDiagModel {
    RuleDiagModel {
        range: vr,
        severity: RuleSeverity::Error,
        code: Some(RuleCode::BuildingLevelExceedsMax),
        message: "Building level "@ + int_text(level as int) + " exceeds maximum level "@ + int_text(max as int) + " for '"@
            + key + "'"@,
        data: Some("Set to maximum level: "@ + int_text(max as int)),
    }
}

/// Entering `key = …` (a block when `is_block`) at `vr`, its value read as
/// `level`, `depth` blocks deep in `buildings`: the new depth and findings.
pub open spec fn building_enter_step(
    depth: u32,
    key: Seq<char>,
    is_block: bool,
    vr: Range,
    level: Option<i32>,
    bs: Seq<(Seq<char>, Option<i32>)>,
) -> (u32, Seq<RuleDiagModel>) {
    if lower_seq(key) == "buildings"@ {
        (if is_block { (depth + 1) as u32 } else { depth }, Seq::empty())
    } else if depth == 0 {
        (depth, Seq::empty())
    } else {
        (depth, match level {
            Some(l) => match max_level_of(bs, key) {
                Some(Some(max)) => if l > max {
                    seq![level_finding(key, vr, l, max)]
                } else {
                    Seq::empty()
                },
                _ => Seq::empty(),
            },
            None => Seq::empty(),
        })
    }
}

/// Leaving `key = …`: a `buildings` block is left.
pub open spec fn building_exit_step(depth: u32, key: Seq<char>, is_block: bool) -> u32 {
    if lower_seq(key) == "buildings"@ && is_block && depth > 0 {
        (depth - 1) as u32
    } else {
        depth
    }
}

/// How deep the walk is in `buildings` blocks.
pub struct BuildingVisitor {
    pub in_buildings: u32,
}

fn find_max_level(bs: &Vec<(String, Option<i32>)>, name: &str) -> (r: Option<Option<i32>>)
    ensures
        r == max_level_of(buildings_view(bs@), name@),
{
    let ghost bv = buildings_view(bs@);
    let n = chars_of(name);
    let mut k: usize = bs.len();
    assert(bv.take(k as int) =~= bv);
    while k > 0
        invariant
            k <= bs@.len(),
            bv == buildings_view(bs@),
            n@ == name@,
            max_level_of(bv, name@) == max_level_of(bv.take(k as int), name@),
        decreases k,
    {
        let ghost t = bv.take(k as int);
        assert(t.last() == (bs@[k - 1].0@, bs@[k - 1].1));
        if chars_equal(&chars_of(bs[k - 1].0.as_str()), &n) {
            return Some(bs[k - 1].1);
        }
        assert(t.drop_last() =~= bv.take(k - 1));
        k -= 1;
    }
    None
}

impl BuildingVisitor {
    /// A visitor outside any `buildings` block.
    pub fn new() -> (r: Self)
        ensures
            r.in_buildings == 0,
    {
        BuildingVisitor { in_buildings: 0 }
    }

    /// Entering an assignment with key `key` (whose value is a block when
    /// `is_block`) whose value, read as an `i32`, is `level` (at
    /// `value_range`); `buildings` gives each building's maximum level.
    pub fn enter_assignment(
        &mut self,
        key: &str,
        is_block: bool,
        value_range: Range,
        level: Option<i32>,
        buildings: &Vec<(String, Option<i32>)>,
    ) -> (r: Vec<RuleDiagnostic>)
        requires
            old(self).in_buildings < u32::MAX,
        ensures
            (final(self).in_buildings, diags_model(r@)) == building_enter_step(old(self).in_buildings, key@, is_block,
                value_range, level, buildings_view(buildings@)),
    {
        let mut out: Vec<RuleDiagnostic> = Vec::new();
        assert(diags_model(out@) =~= Seq::<RuleDiagModel>::empty());
        let l = ascii_lowercase(key);
        if spells(&l, "buildings") {
            if is_block {
                self.in_buildings = self.in_buildings + 1;
            }
            return out;
        }
        if self.in_buildings == 0 {
            return out;
        }
        match level {
            Some(lv) => match find_max_level(buildings, key) {
                Some(Some(max)) => {
                    if lv > max {
                        let mut m = literal("Building level ");
                        append_str(&mut m, i32_text(lv).as_str());
                        append_str(&mut m, " exceeds maximum level ");
                        append_str(&mut m, i32_text(max).as_str());
                        append_str(&mut m, " for '");
                        append_str(&mut m, key);
                        append_str(&mut m, "'");
                        let mut fix = literal("Set to maximum level: ");
                        append_str(&mut fix, i32_text(max).as_str());
                        let d = RuleDiagnostic {
                            range: value_range,
                            severity: RuleSeverity::Error,
                            code: Some(RuleCode::BuildingLevelExceedsMax),
                            message: m,
                            data: Some(fix),
                        };
                        out.push(d);
                        proof {
                            reveal_strlit("Building level ");
                            reveal_strlit("Set to maximum level: ");
                        }
                        assert(diags_model(out@) =~= seq![rule_diag_model(d)]);
                    }
                },
                _ => {},
            },
            None => {},
        }
        out
    }

    /// Leaving an assignment with key `key`.
    pub fn exit_assignment(&mut self, key: &str, is_block: bool)
        ensures
            final(self).in_buildings == building_exit_step(old(self).in_buildings, key@, is_block),
    {
        let l = ascii_lowercase(key);
        if spells(&l, "buildings") && is_block && self.in_buildings > 0 {
            self.in_buildings = self.in_buildings - 1;
        }
    }
}

} // verus!
