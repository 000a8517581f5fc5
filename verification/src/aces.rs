//! `add_ace = { type = X }`: the ace modifier `X` must be one that the ace
//! files define.
use vstd::prelude::*;
use vstd::string::*;
use crate::ast::{Range, Assignment, Value, span_text, span_chars, value_fits};
use crate::script::{ValueModel, value_model};
use crate::numtext::lower_seq;
use crate::rules::{lower_chars, spells};
use crate::gfx::value_text;
use crate::portraits::strings_view;
use crate::event_walk::{value_chars, contains_str};
use crate::findings::{RuleSeverity, RuleCode, RuleDiagnostic, RuleDiagModel, rule_diag_model, diags_model};
use crate::text::{append_str, push_chars};

verus! {

pub open spec fn unknown_ace(r: Range, t: Seq<char>) -> RuleDiagModel {
    RuleDiagModel {
        range: r,
        severity: RuleSeverity::Warning,
        code: Some(RuleCode::UnknownAceModifier),
        message: "'"@ + t + "' is not a known ace modifier tag. Must match a tag defined in common/aces/*.txt"@,
        data: None,
    }
}

/// Entering `key = v` (key at `kr`) inside an `add_ace` block or not:
/// whether the walk is inside one after it, and the findings.
pub open spec fn ace_enter_step(in_add_ace: bool, key: Seq<char>, kr: Range, v: ValueModel, src: Seq<char>, aces: Seq<Seq<char>>) -> (bool, Seq<RuleDiagModel>) {
    let kl = lower_seq(key);
    if kl == "add_ace"@ {
        (if v is Block || v is TaggedBlock { true } else { in_add_ace }, Seq::empty())
    } else if in_add_ace && kl == "type"@ {
        match value_text(src, v) {
            Some(t) => if aces.contains(t) {
                (in_add_ace, Seq::empty())
            } else {
                (in_add_ace, seq![unknown_ace(kr, t)])
            },
            None => (in_add_ace, Seq::empty()),
        }
    } else {
        (in_add_ace, Seq::empty())
    }
}

/// Whether the walk is inside an `add_ace` block.
pub struct AceVisitor {
    pub in_add_ace: bool,
}

impl AceVisitor {
    /// A visitor outside any `add_ace` block.
    pub fn new() -> (r: Self)
        ensures
            !r.in_add_ace,
    {
        AceVisitor { in_add_ace: false }
    }

    /// Entering an assignment; `aces` lists the ace modifiers defined.
    pub fn enter_assignment(&mut self, ass: &Assignment, source: &str, aces: &Vec<String>) -> (r: Vec<RuleDiagnostic>)
        requires
            ass.key.fits(source),
            value_fits(ass.value.value, source.spec_bytes()),
        ensures
            (final(self).in_add_ace, diags_model(r@)) == ace_enter_step(old(self).in_add_ace, span_text(source@, ass.key),
                ass.key_range, value_model(ass.value.value), source@, strings_view(aces@)),
    {
        let mut out: Vec<RuleDiagnostic> = Vec::new();
        assert(diags_model(out@) =~= Seq::<RuleDiagModel>::empty());
        let kl = lower_chars(&span_chars(&ass.key, source));
        if spells(&kl, "add_ace") {
            match &ass.value.value {
                Value::Block(_) => {
                    self.in_add_ace = true;
                },
                Value::TaggedBlock(_, _, _) => {
                    self.in_add_ace = true;
                },
                _ => {},
            }
            return out;
        }
        if self.in_add_ace && spells(&kl, "type") {
            match value_chars(&ass.value.value, source) {
                Some(t) => {
                    if !contains_str(aces, &t) {
                        let mut m = String::new();
                        append_str(&mut m, "'");
                        push_chars(&mut m, &t);
                        append_str(&mut m, "' is not a known ace modifier tag. Must match a tag defined in common/aces/*.txt");
                        let d = RuleDiagnostic { range: ass.key_range, severity: RuleSeverity::Warning, code: Some(RuleCode::UnknownAceModifier), message: m, data: None };
                        out.push(d);
                        assert(diags_model(out@) =~= seq![rule_diag_model(d)]);
                    }
                },
                None => {},
            }
        }
        out
    }

    /// Leaving an assignment: leaving `add_ace` ends the block.
    pub fn exit_assignment(&mut self, ass: &Assignment, source: &str)
        requires
            ass.key.fits(source),
        ensures
            final(self).in_add_ace == (old(self).in_add_ace && lower_seq(span_text(source@, ass.key)) != "add_ace"@),
    {
        let kl = lower_chars(&span_chars(&ass.key, source));
        if spells(&kl, "add_ace") {
            self.in_add_ace = false;
        }
    }
}

} // verus!
