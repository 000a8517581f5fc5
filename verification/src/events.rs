//! The checks made when an event definition or one of its options has been
//! read: an event shown to the player needs a title or a description,
//! their localisation keys and the picture sprite must exist, options need
//! a name, and an AI choice among several visible options should be
//! weighted.
use vstd::prelude::*;
use crate::ast::Range;
use crate::findings::{RuleSeverity, RuleCode, RuleDiagnostic, RuleDiagModel, rule_diag_model, diags_model};
use crate::portraits::strings_view;
use crate::text::{append_str, u32_to_decimal, decimal, chars_of, chars_equal, literal};

verus! {

/// What was read of one option of an event.
#[derive(Debug, Clone, Copy, PartialEq, Eq, Structural)]
pub struct EventOptionDef {
    pub key_range: Range,
    pub has_name: bool,
    pub has_ai_chance: bool,
    /// Its `trigger` shows that the AI never sees it.
    pub provably_ai_invisible: bool,
}

/// What was read of an event definition.
#[derive(Debug)]
pub struct EventDef {
    pub key_range: Range,
    pub has_title: bool,
    pub has_desc: bool,
    pub has_picture: bool,
    pub is_hidden: bool,
    pub has_mtth: bool,
    pub has_is_triggered_only: bool,
    /// The block calls an event (inside another event) rather than defining one.
    pub is_call: bool,
    pub has_option: bool,
    pub option_count: u32,
    pub options_missing_ai_chance: u32,
    pub ai_visible_option_count: u32,
    pub last_missing_ai_chance_range: Option<Range>,
    pub title_range: Option<Range>,
    pub desc_range: Option<Range>,
    pub picture_range: Option<Range>,
    /// The localisation key of `title = key` (not the block form).
    pub title_key: Option<String>,
    pub desc_key: Option<String>,
    /// The sprite of `picture = GFX_...`.
    pub picture_sprite: Option<String>,
    pub id: Option<String>,
    pub id_range: Option<Range>,
}

pub struct EventDefModel {
    pub key_range: Range,
    pub has_title: bool,
    pub has_desc: bool,
    pub has_picture: bool,
    pub is_hidden: bool,
    pub has_mtth: bool,
    pub has_is_triggered_only: bool,
    pub is_call: bool,
    pub has_option: bool,
    pub option_count: u32,
    pub options_missing_ai_chance: u32,
    pub ai_visible_option_count: u32,
    pub last_missing_ai_chance_range: Option<Range>,
    pub title_range: Option<Range>,
    pub desc_range: Option<Range>,
    pub picture_range: Option<Range>,
    pub title_key: Option<Seq<char>>,
    pub desc_key: Option<Seq<char>>,
    pub picture_sprite: Option<Seq<char>>,
    pub id: Option<Seq<char>>,
    pub id_range: Option<Range>,
}

pub open spec fn opt_view(o: Option<String>) -> Option<Seq<char>> {
    match o {
        Some(s) => Some(s@),
        None => None,
    }
}

pub open spec fn event_model(e: EventDef) -> EventDefModel {
    EventDefModel {
        key_range: e.key_range,
        has_title: e.has_title,
        has_desc: e.has_desc,
        has_picture: e.has_picture,
        is_hidden: e.is_hidden,
        has_mtth: e.has_mtth,
        has_is_triggered_only: e.has_is_triggered_only,
        is_call: e.is_call,
        has_option: e.has_option,
        option_count: e.option_count,
        options_missing_ai_chance: e.options_missing_ai_chance,
        ai_visible_option_count: e.ai_visible_option_count,
        last_missing_ai_chance_range: e.last_missing_ai_chance_range,
        title_range: e.title_range,
        desc_range: e.desc_range,
        picture_range: e.picture_range,
        title_key: opt_view(e.title_key),
        desc_key: opt_view(e.desc_key),
        picture_sprite: opt_view(e.picture_sprite),
        id: opt_view(e.id),
        id_range: e.id_range,
    }
}

pub open spec fn warn_at(r: Range, code: RuleCode, m: Seq<char>) -> RuleDiagModel {
    RuleDiagModel { range: r, severity: RuleSeverity::Warning, code: Some(code), message: m, data: None }
}

pub open spec fn or_key(r: Option<Range>, k: Range) -> Range {
    match r {
        Some(x) => x,
        None => k,
    }
}

pub open spec fn missing_option_name_message() -> Seq<char> {
    "Event option is missing a 'name' field. Players will not see a descriptive label for this option."@
}

pub open spec fn missing_title_message() -> Seq<char> {
    "Event is missing both 'title' and 'desc'. A non-hidden event requires at least one of them to display anything to the player."@
}

/// An option without a name is reported at its key.
pub open spec fn option_findings(o: EventOptionDef) -> Seq<RuleDiagModel> {
    if o.has_name {
        Seq::empty()
    } else {
        seq![warn_at(o.key_range, RuleCode::EventMissingOptionName, missing_option_name_message())]
    }
}

/// A localisation key without localisation (checked only once some
/// localisation is known).
pub open spec fn loc_key_findings(
    key: Option<Seq<char>>,
    r: Range,
    loc: Seq<Seq<char>>,
    code: RuleCode,
    what: Seq<char>,
) -> Seq<RuleDiagModel> {
    match key {
        Some(k) => if loc.len() > 0 && !loc.contains(k) {
            seq![warn_at(r, code, what + " localization key '"@ + k + "' not found in any localization file."@)]
        } else {
            Seq::empty()
        },
        None => Seq::empty(),
    }
}

pub open spec fn starts_gfx(s: Seq<char>) -> bool {
    s.len() >= 4 && s.subrange(0, 4) == "GFX_"@
}

/// The findings for a finished event definition, in order: no title nor
/// description, title and description localisation, picture sprite,
/// options without `ai_chance`.
pub open spec fn event_findings(e: EventDefModel, loc: Seq<Seq<char>>, sprites: Seq<Seq<char>>) -> Seq<RuleDiagModel> {
    if e.is_call {
        Seq::empty()
    } else {
        (if !e.is_hidden && !e.has_title && !e.has_desc {
            seq![warn_at(e.key_range, RuleCode::EventMissingTitle, missing_title_message())]
        } else {
            Seq::empty()
        })
        + loc_key_findings(e.title_key, or_key(e.title_range, e.key_range), loc, RuleCode::EventMissingTitleLoc, "Event title"@)
        + loc_key_findings(e.desc_key, or_key(e.desc_range, e.key_range), loc, RuleCode::EventMissingDescLoc, "Event description"@)
        + match e.picture_sprite {
            Some(s) => if starts_gfx(s) && !sprites.contains(s) {
                seq![warn_at(or_key(e.picture_range, e.key_range), RuleCode::EventPictureSpriteNotFound,
                    "Event picture sprite '"@ + s + "' not found. Define it in an interface/*.gfx file."@)]
            } else {
                Seq::empty()
            },
            None => Seq::empty(),
        }
        + if e.option_count > 1 && e.ai_visible_option_count > 1 && e.options_missing_ai_chance > 0 {
            seq![RuleDiagModel {
                range: or_key(e.last_missing_ai_chance_range, e.key_range),
                severity: RuleSeverity::Information,
                code: Some(RuleCode::EventOptionMissingAiChance),
                message: decimal(e.options_missing_ai_chance as nat) + " of "@ + decimal(e.option_count as nat)
                    + " option(s) are missing an 'ai_chance' block. The AI may not choose optimally without explicit weights."@,
                data: None,
            }]
        } else {
            Seq::empty()
        }
    }
}

fn contains_str(v: &Vec<String>, x: &String) -> (r: bool)
    ensures
        r == strings_view(v@).contains(x@),
{
    let ghost sv = strings_view(v@);
    let xs = chars_of(x.as_str());
    let mut k: usize = 0;
    while k < v.len()
        invariant
            k <= v@.len(),
            sv == strings_view(v@),
            xs@ == x@,
            forall|j: int| 0 <= j < k ==> sv[j] != x@,
        decreases v.len() - k,
    {
        let c = chars_of(v[k].as_str());
        if chars_equal(&c, &xs) {
            assert(sv[k as int] == x@);
            return true;
        }
        k += 1;
    }
    assert(!sv.contains(x@));
    false
}

/// The finding, if any, for a finished option.
pub fn validate_option(o: &EventOptionDef) -> (r: Vec<RuleDiagnostic>)
    ensures
        diags_model(r@) == option_findings(*o),
{
    let mut out: Vec<RuleDiagnostic> = Vec::new();
    if !o.has_name {
        let d = RuleDiagnostic {
            range: o.key_range,
            severity: RuleSeverity::Warning,
            code: Some(RuleCode::EventMissingOptionName),
            message: literal("Event option is missing a 'name' field. Players will not see a descriptive label for this option."),
            data: None,
        };
        out.push(d);
        assert(diags_model(out@) =~= seq![rule_diag_model(d)]);
    } else {
        assert(diags_model(out@) =~= Seq::<RuleDiagModel>::empty());
    }
    out
}

fn check_loc_key(
    key: &Option<String>,
    r: Range,
    loc: &Vec<String>,
    code: RuleCode,
    what: &str,
    out: &mut Vec<RuleDiagnostic>,
)
    ensures
        diags_model(final(out)@) == diags_model(old(out)@) + loc_key_findings(opt_view(*key), r, strings_view(loc@), code, what@),
{
    let ghost before = diags_model(out@);
    match key {
        Some(k) => {
            if loc.len() > 0 && !contains_str(loc, k) {
                let mut m = String::new();
                append_str(&mut m, what);
                append_str(&mut m, " localization key '");
                append_str(&mut m, k.as_str());
                append_str(&mut m, "' not found in any localization file.");
                let d = RuleDiagnostic { range: r, severity: RuleSeverity::Warning, code: Some(code), message: m, data: None };
                out.push(d);
                assert(diags_model(out@) =~= before + seq![rule_diag_model(d)]);
                return;
            }
        },
        None => {},
    }
    assert(diags_model(out@) =~= before + Seq::<RuleDiagModel>::empty());
}

/// The findings for a finished event definition, given the localisation
/// keys and the sprite names.
pub fn validate_event(e: &EventDef, loc: &Vec<String>, sprites: &Vec<String>) -> (r: Vec<RuleDiagnostic>)
    ensures
        diags_model(r@) == event_findings(event_model(*e), strings_view(loc@), strings_view(sprites@)),
{
    let ghost em = event_model(*e);
    let mut out: Vec<RuleDiagnostic> = Vec::new();
    assert(diags_model(out@) =~= Seq::<RuleDiagModel>::empty());
    if e.is_call {
        return out;
    }
    if !e.is_hidden && !e.has_title && !e.has_desc {
        let d = RuleDiagnostic {
            range: e.key_range,
            severity: RuleSeverity::Warning,
            code: Some(RuleCode::EventMissingTitle),
            message: literal("Event is missing both 'title' and 'desc'. A non-hidden event requires at least one of them to display anything to the player."),
            data: None,
        };
        out.push(d);
        assert(diags_model(out@) =~= seq![rule_diag_model(d)]);
    }
    let ghost e0 = diags_model(out@);
    let tr = match e.title_range {
        Some(x) => x,
        None => e.key_range,
    };
    check_loc_key(&e.title_key, tr, loc, RuleCode::EventMissingTitleLoc, "Event title", &mut out);
    let dr = match e.desc_range {
        Some(x) => x,
        None => e.key_range,
    };
    check_loc_key(&e.desc_key, dr, loc, RuleCode::EventMissingDescLoc, "Event description", &mut out);
    let ghost e1 = diags_model(out@);
    match &e.picture_sprite {
        Some(s) => {
            let cs = chars_of(s.as_str());
            let gfx = cs.len() >= 4 && cs[0] == 'G' && cs[1] == 'F' && cs[2] == 'X' && cs[3] == '_';
            proof {
                reveal_strlit("GFX_");
                if cs@.len() >= 4 {
                    assert(gfx == (cs@.subrange(0, 4) == "GFX_"@)) by {
                        if cs@.subrange(0, 4) == "GFX_"@ {
                            assert(cs@.subrange(0, 4)[0] == 'G');
                            assert(cs@.subrange(0, 4)[1] == 'F');
                            assert(cs@.subrange(0, 4)[2] == 'X');
                            assert(cs@.subrange(0, 4)[3] == '_');
                        }
                        if gfx {
                            assert(cs@.subrange(0, 4) =~= "GFX_"@);
                        }
                    }
                }
            }
            if gfx && !contains_str(sprites, s) {
                let mut m = String::new();
                append_str(&mut m, "Event picture sprite '");
                append_str(&mut m, s.as_str());
                append_str(&mut m, "' not found. Define it in an interface/*.gfx file.");
                let r = match e.picture_range {
                    Some(x) => x,
                    None => e.key_range,
                };
                let d = RuleDiagnostic { range: r, severity: RuleSeverity::Warning, code: Some(RuleCode::EventPictureSpriteNotFound), message: m, data: None };
                out.push(d);
                assert(diags_model(out@) =~= e1 + seq![rule_diag_model(d)]);
            } else {
                assert(diags_model(out@) =~= e1 + Seq::<RuleDiagModel>::empty());
            }
        },
        None => {
            assert(diags_model(out@) =~= e1 + Seq::<RuleDiagModel>::empty());
        },
    }
    let ghost e2 = diags_model(out@);
    if e.option_count > 1 && e.ai_visible_option_count > 1 && e.options_missing_ai_chance > 0 {
        let mut m = String::new();
        append_str(&mut m, u32_to_decimal(e.options_missing_ai_chance).as_str());
        append_str(&mut m, " of ");
        append_str(&mut m, u32_to_decimal(e.option_count).as_str());
        append_str(&mut m, " option(s) are missing an 'ai_chance' block. The AI may not choose optimally without explicit weights.");
        let r = match e.last_missing_ai_chance_range {
            Some(x) => x,
            None => e.key_range,
        };
        let d = RuleDiagnostic { range: r, severity: RuleSeverity::Information, code: Some(RuleCode::EventOptionMissingAiChance), message: m, data: None };
        out.push(d);
        assert(diags_model(out@) =~= e2 + seq![rule_diag_model(d)]);
    } else {
        assert(diags_model(out@) =~= e2 + Seq::<RuleDiagModel>::empty());
    }
    out
}

} // verus!
