//! Small decisions used by the validation rules: which keys are structural,
//! how values are read, which files and blocks a rule applies to.
use vstd::prelude::*;
use vstd::string::*;
use crate::numtext::{lower_seq, to_ascii_lower};
use crate::text::{chars_of, chars_equal};

verus! {

/// The characters of `s`, ASCII letters lowered.
pub fn ascii_lowercase(s: &str) -> (v: Vec<char>)
    ensures
        v@ == lower_seq(s@),
{
    let cs = chars_of(s);
    let mut v: Vec<char> = Vec::new();
    let mut k: usize = 0;
    while k < cs.len()
        invariant
            k <= cs@.len(),
            cs@ == s@,
            v@ == lower_seq(cs@.take(k as int)),
        decreases cs.len() - k,
    {
        v.push(to_ascii_lower(cs[k]));
        assert(lower_seq(cs@.take(k + 1)) =~= lower_seq(cs@.take(k as int)).push(crate::numtext::ascii_lower(cs@[k as int])));
        k += 1;
    }
    assert(cs@.take(cs@.len() as int) =~= cs@);
    v
}

/// Whether the characters `v` spell the string `lit`.
pub fn spells(v: &Vec<char>, lit: &str) -> (r: bool)
    ensures
        r == (v@ == lit@),
{
    let w = chars_of(lit);
    chars_equal(v, &w)
}

/// The keys, in lower case, that structure idea files rather than name ideas.
pub open spec fn idea_structure_key_lower(l: Seq<char>) -> bool {
    ||| l == "ideas"@ || l == "hidden_ideas"@ || l == "designer"@ || l == "law"@
    ||| l == "use_list_view"@ || l == "slot_ledgers"@ || l == "slot"@ || l == "character_slot"@
    ||| l == "picture"@ || l == "targeted_modifier"@ || l == "research_bonus"@
    ||| l == "equipment_bonus"@ || l == "rule"@ || l == "traits"@ || l == "on_add"@
    ||| l == "on_remove"@ || l == "cancel"@ || l == "allowed_civil_war"@ || l == "do_effect"@
    ||| l == "visible"@ || l == "allowed_to_remove"@ || l == "removal_cost"@ || l == "level"@
    ||| l == "ledger"@ || l == "hidden"@ || l == "politics_tab"@
}

/// Keywords that should never have picture validation in an idea context:
/// category structure keys, category attributes and idea sub-block
/// properties, compared without regard to ASCII case.
pub fn is_idea_structure_key(key: &str) -> (r: bool)
    ensures
        r == idea_structure_key_lower(lower_seq(key@)),
{
    let l = ascii_lowercase(key);
    spells(&l, "ideas") || spells(&l, "hidden_ideas") || spells(&l, "designer") || spells(&l, "law")
        || spells(&l, "use_list_view") || spells(&l, "slot_ledgers") || spells(&l, "slot")
        || spells(&l, "character_slot") || spells(&l, "picture") || spells(&l, "targeted_modifier")
        || spells(&l, "research_bonus") || spells(&l, "equipment_bonus") || spells(&l, "rule")
        || spells(&l, "traits") || spells(&l, "on_add") || spells(&l, "on_remove") || spells(&l, "cancel")
        || spells(&l, "allowed_civil_war") || spells(&l, "do_effect") || spells(&l, "visible")
        || spells(&l, "allowed_to_remove") || spells(&l, "removal_cost") || spells(&l, "level")
        || spells(&l, "ledger") || spells(&l, "hidden") || spells(&l, "politics_tab")
}

} // verus!

verus! {

/// The characters of `cs`, ASCII letters lowered.
pub fn lower_chars(cs: &Vec<char>) -> (v: Vec<char>)
    ensures
        v@ == lower_seq(cs@),
{
    let mut v: Vec<char> = Vec::new();
    let mut k: usize = 0;
    while k < cs.len()
        invariant
            k <= cs@.len(),
            v@ == lower_seq(cs@.take(k as int)),
        decreases cs.len() - k,
    {
        v.push(to_ascii_lower(cs[k]));
        assert(lower_seq(cs@.take(k + 1)) =~= lower_seq(cs@.take(k as int)).push(crate::numtext::ascii_lower(cs@[k as int])));
        k += 1;
    }
    assert(cs@.take(cs@.len() as int) =~= cs@);
    v
}

} // verus!

verus! {

/// The character types that character definition keys introduce
/// (compared without regard to ASCII case).
pub open spec fn character_type(l: Seq<char>) -> Option<Seq<char>> {
    if l == "create_field_marshal"@ || l == "field_marshal"@ {
        Some("field_marshal"@)
    } else if l == "create_corps_commander"@ || l == "corps_commander"@ {
        Some("corps_commander"@)
    } else if l == "create_navy_leader"@ || l == "navy_leader"@ {
        Some("navy_leader"@)
    } else if l == "create_operative_leader"@ {
        Some("operative"@)
    } else {
        None
    }
}

/// The kind of character a definition key creates, if any.
pub fn detect_character_type(key: &str) -> (r: Option<&'static str>)
    ensures
        match character_type(lower_seq(key@)) {
            Some(t) => r matches Some(s) && s@ == t,
            None => r is None,
        },
{
    let l = ascii_lowercase(key);
    if spells(&l, "create_field_marshal") || spells(&l, "field_marshal") {
        Some("field_marshal")
    } else if spells(&l, "create_corps_commander") || spells(&l, "corps_commander") {
        Some("corps_commander")
    } else if spells(&l, "create_navy_leader") || spells(&l, "navy_leader") {
        Some("navy_leader")
    } else if spells(&l, "create_operative_leader") {
        Some("operative")
    } else {
        None
    }
}

/// The character definitions being walked, innermost last.
pub struct CharacterVisitor {
    pub char_type_stack: Vec<&'static str>,
}

impl CharacterVisitor {
    pub fn new() -> (r: Self)
        ensures
            r.char_type_stack@.len() == 0,
    {
        CharacterVisitor { char_type_stack: Vec::new() }
    }

    /// The type of the innermost character definition being walked.
    pub fn current_character_type(&self) -> (r: Option<&'static str>)
        ensures
            self.char_type_stack@.len() == 0 ==> r is None,
            self.char_type_stack@.len() > 0 ==> r == Some(self.char_type_stack@.last()),
    {
        if self.char_type_stack.len() == 0 {
            None
        } else {
            Some(self.char_type_stack[self.char_type_stack.len() - 1])
        }
    }
}

/// `n` occurs in `h`.
pub open spec fn has_substring(h: Seq<char>, n: Seq<char>) -> bool {
    exists|i: int| 0 <= i && i + n.len() <= h.len() && #[trigger] h.subrange(i, i + n.len()) == n
}

/// Whether `n` occurs in `h`.
pub fn contains_chars(h: &Vec<char>, n: &Vec<char>) -> (r: bool)
    ensures
        r == has_substring(h@, n@),
{
    if n.len() > h.len() {
        return false;
    }
    let limit = h.len() - n.len();
    let mut i: usize = 0;
    loop
        invariant
            n@.len() <= h@.len(),
            limit == h@.len() - n@.len(),
            i <= limit,
            forall|j: int| 0 <= j < i ==> #[trigger] h@.subrange(j, j + n@.len()) != n@,
        decreases limit - i,
    {
        let end = h.len() - (limit - i);
        let w = crate::text::slice_chars(h, i, end);
        if chars_equal(&w, n) {
            assert(h@.subrange(i as int, i + n@.len()) == n@);
            return true;
        }
        if i == limit {
            return false;
        }
        i += 1;
    }
}

/// Whether the document at `uri` is a decisions file (under
/// `/common/decisions/`, not its `categories/` folder), ignoring ASCII case.
pub fn is_decisions_file(uri: &str) -> (r: bool)
    ensures
        r == (has_substring(lower_seq(uri@), "/common/decisions/"@) && !has_substring(
            lower_seq(uri@),
            "/common/decisions/categories/"@,
        )),
{
    let lower = ascii_lowercase(uri);
    let a = chars_of("/common/decisions/");
    let b = chars_of("/common/decisions/categories/");
    contains_chars(&lower, &a) && !contains_chars(&lower, &b)
}

/// Blocks inside a decisions file that are not decisions: events, focuses
/// and ideas (ASCII case ignored).
pub fn is_non_decision_block(key: &str) -> (r: bool)
    ensures
        r == ({
            let l = lower_seq(key@);
            l == "country_event"@ || l == "state_event"@ || l == "news_event"@ || l == "unit_leader_event"@
                || l == "operative_leader_event"@ || l == "focus"@ || l == "idea"@
        }),
{
    let l = ascii_lowercase(key);
    spells(&l, "country_event") || spells(&l, "state_event") || spells(&l, "news_event")
        || spells(&l, "unit_leader_event") || spells(&l, "operative_leader_event") || spells(&l, "focus")
        || spells(&l, "idea")
}

/// The keys that define events.
pub fn is_event_type(key: &str) -> (r: bool)
    ensures
        r == (key@ == "country_event"@ || key@ == "state_event"@ || key@ == "news_event"@
            || key@ == "unit_leader_event"@ || key@ == "operative_leader_event"@),
{
    let k = chars_of(key);
    spells(&k, "country_event") || spells(&k, "state_event") || spells(&k, "news_event")
        || spells(&k, "unit_leader_event") || spells(&k, "operative_leader_event")
}

} // verus!

verus! {

/// The text of a string-like value (identifier or quoted string).
pub fn extract_string_value<'a>(val: &'a crate::ast::NodeedValue, source: &'a str) -> (r: Option<&'a str>)
    requires
        val.value is String ==> val.value->String_0.fits(source),
    ensures
        val.value is String ==> (r matches Some(t) && t.spec_bytes() == source.spec_bytes().subrange(
            val.value->String_0.start as int,
            val.value->String_0.end as int,
        )),
        val.value is QuotedString ==> (r matches Some(t) && t@ == val.value->QuotedString_0@),
        !(val.value is String) && !(val.value is QuotedString) ==> r is None,
{
    val.value.as_str(source)
}

} // verus!
