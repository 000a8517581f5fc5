//! Renaming: the symbols that can be renamed and the text edits that rename
//! their references in a parsed script.
use vstd::prelude::*;
use vstd::string::*;
use crate::ast::{Range, Entry, Value, span_text, span_chars, entry_fits, value_fits};
use crate::script::{EntryModel, ValueModel, entries_model, entry_model, value_model};
use crate::portraits::lemma_entries_model;
use crate::rules::spells;
use crate::text::{chars_of, chars_equal, literal, push_char, append_str};

verus! {

/// Symbol type that can be renamed.
#[derive(Debug, Clone, PartialEq, Eq)]
pub enum RenameableSymbol {
    Event(String),
    ScriptedTrigger(String),
    ScriptedEffect(String),
    Idea(String),
    Character(String),
    Variable(String),
    Ability(String),
}

/// A replacement of the text in `range` by `new_text`.
#[derive(Debug, Clone)]
pub struct TextEdit {
    pub range: Range,
    pub new_text: String,
}

pub open spec fn edits_view(v: Seq<TextEdit>) -> Seq<(Range, Seq<char>)> {
    v.map_values(|e: TextEdit| (e.range, e.new_text@))
}

/// Which references a search renames.
#[derive(Debug, Clone, Copy, PartialEq, Eq, Structural)]
pub enum ReferenceKind {
    Event,
    Scripted,
    Idea,
    Character,
    Variable,
    Ability,
}

pub open spec fn quoted(t: Seq<char>) -> Seq<char> {
    seq!['"'] + t + seq!['"']
}

pub open spec fn is_event_call_key(k: Seq<char>) -> bool {
    k == "country_event"@ || k == "state_event"@ || k == "news_event"@ || k == "unit_leader_event"@
}

pub open spec fn is_idea_effect_key(k: Seq<char>) -> bool {
    k == "add_ideas"@ || k == "remove_ideas"@ || k == "add_timed_idea"@ || k == "swap_ideas"@
}

pub open spec fn is_character_effect_key(k: Seq<char>) -> bool {
    k == "recruit_character"@ || k == "has_character"@ || k == "promote_character"@ || k == "retire_character"@
}

pub open spec fn is_variable_effect_key(k: Seq<char>) -> bool {
    ||| k == "set_variable"@ || k == "check_variable"@ || k == "add_to_variable"@
    ||| k == "subtract_from_variable"@ || k == "multiply_variable"@ || k == "divide_variable"@
    ||| k == "modulo_variable"@ || k == "clamp_variable"@
}

pub open spec fn is_ability_key(k: Seq<char>) -> bool {
    k == "has_ability"@ || k == "add_ability"@ || k == "remove_ability"@
}

/// The value is the identifier `target`.
pub open spec fn names(src: Seq<char>, v: ValueModel, target: Seq<char>) -> bool {
    v matches ValueModel::String(s) && span_text(src, s) == target
}

/// Edits for the children of an event call (`id = target`) or a variable
/// effect (`var = target`, `variable = target`), from child `k` on.
pub open spec fn child_refs(
    kind: ReferenceKind,
    src: Seq<char>,
    cs: Seq<EntryModel>,
    k: int,
    target: Seq<char>,
    replacement: Seq<char>,
    acc: Seq<(Range, Seq<char>)>,
) -> Seq<(Range, Seq<char>)>
    decreases cs.len() - k,
{
    if 0 <= k < cs.len() {
        let acc2 = match cs[k] {
            EntryModel::Assignment(ks, _, _, _, v, vr) => {
                let key = span_text(src, ks);
                let wanted = if kind == ReferenceKind::Event {
                    key == "id"@
                } else {
                    key == "var"@ || key == "variable"@
                };
                if wanted && names(src, v, target) {
                    acc.push((vr, quoted(replacement)))
                } else {
                    acc
                }
            },
            _ => acc,
        };
        child_refs(kind, src, cs, k + 1, target, replacement, acc2)
    } else {
        acc
    }
}

/// The edits an assignment itself calls for (its block aside).
pub open spec fn local_refs(
    kind: ReferenceKind,
    src: Seq<char>,
    key: Seq<char>,
    kr: Range,
    v: ValueModel,
    vr: Range,
    target: Seq<char>,
    replacement: Seq<char>,
    acc: Seq<(Range, Seq<char>)>,
) -> Seq<(Range, Seq<char>)> {
    match kind {
        ReferenceKind::Event => if is_event_call_key(key) {
            match v {
                ValueModel::Block(cs) => child_refs(kind, src, cs, 0, target, replacement, acc),
                _ => acc,
            }
        } else {
            acc
        },
        ReferenceKind::Variable => if is_variable_effect_key(key) {
            match v {
                ValueModel::Block(cs) => child_refs(kind, src, cs, 0, target, replacement, acc),
                _ => acc,
            }
        } else {
            acc
        },
        ReferenceKind::Scripted => if key == target {
            acc.push((kr, replacement)).push((kr, replacement))
        } else {
            acc
        },
        ReferenceKind::Idea => {
            let a1 = if key == target { acc.push((kr, replacement)) } else { acc };
            if is_idea_effect_key(key) && names(src, v, target) {
                a1.push((vr, quoted(replacement)))
            } else {
                a1
            }
        },
        ReferenceKind::Character => {
            let a1 = if key == target { acc.push((kr, replacement)) } else { acc };
            let a2 = if is_character_effect_key(key) && names(src, v, target) {
                a1.push((vr, replacement))
            } else {
                a1
            };
            if key == "character"@ && names(src, v, target) {
                a2.push((vr, replacement))
            } else {
                a2
            }
        },
        ReferenceKind::Ability => {
            let a1 = if key == target { acc.push((kr, replacement)) } else { acc };
            if names(src, v, target) && is_ability_key(key) {
                a1.push((vr, replacement))
            } else {
                a1
            }
        },
    }
}

/// The edits for the references among `es` (from entry `k` on), searched
/// depth first through the blocks of assignments.
pub open spec fn refs_in(
    kind: ReferenceKind,
    src: Seq<char>,
    es: Seq<EntryModel>,
    target: Seq<char>,
    replacement: Seq<char>,
    acc: Seq<(Range, Seq<char>)>,
) -> Seq<(Range, Seq<char>)>
    decreases es,
{
    if es.len() == 0 {
        acc
    } else {
        let acc2 = match es[0] {
            EntryModel::Assignment(ks, kr, _, _, v, vr) => {
                let a1 = local_refs(kind, src, span_text(src, ks), kr, v, vr, target, replacement, acc);
                match v {
                    ValueModel::Block(cs) => refs_in(kind, src, cs, target, replacement, a1),
                    _ => a1,
                }
            },
            _ => acc,
        };
        refs_in(kind, src, es.drop_first(), target, replacement, acc2)
    }
}

} // verus!

verus! {

fn push_edit(edits: &mut Vec<TextEdit>, range: Range, new_text: String)
    ensures
        edits_view(final(edits)@) == edits_view(old(edits)@).push((range, new_text@)),
{
    let ghost t = new_text@;
    edits.push(TextEdit { range, new_text });
    assert(edits_view(edits@) =~= edits_view(old(edits)@).push((range, t)));
}

fn quoted_text(new_name: &str) -> (r: String)
    ensures
        r@ == quoted(new_name@),
{
    let mut s = String::new();
    push_char(&mut s, '"');
    append_str(&mut s, new_name);
    push_char(&mut s, '"');
    s
}

/// Whether the value is the identifier `old`.
fn value_names(v: &Value, source: &str, target: &Vec<char>) -> (r: bool)
    requires
        value_fits(*v, source.spec_bytes()),
    ensures
        r == names(source@, value_model(*v), target@),
{
    match v {
        Value::String(s) => {
            let t = span_chars(s, source);
            chars_equal(&t, target)
        },
        _ => false,
    }
}

/// Edits for the children of an event call or a variable effect.
fn child_refs_exec(
    kind: ReferenceKind,
    cs: &Vec<Entry>,
    source: &str,
    target: &Vec<char>,
    new_name: &str,
    edits: &mut Vec<TextEdit>,
)
    requires
        forall|k: int| 0 <= k < cs@.len() ==> entry_fits(#[trigger] cs@[k], source.spec_bytes()),
        kind == ReferenceKind::Event || kind == ReferenceKind::Variable,
    ensures
        edits_view(final(edits)@) == child_refs(kind, source@, entries_model(cs@), 0, target@, new_name@, edits_view(old(edits)@)),
{
    let ghost em = entries_model(cs@);
    proof {
        lemma_entries_model(cs@);
    }
    let mut k: usize = 0;
    while k < cs.len()
        invariant
            k <= cs@.len(),
            em == entries_model(cs@),
            em.len() == cs@.len(),
            forall|i: int| 0 <= i < cs@.len() ==> #[trigger] em[i] == entry_model(cs@[i]),
            forall|i: int| 0 <= i < cs@.len() ==> entry_fits(#[trigger] cs@[i], source.spec_bytes()),
            child_refs(kind, source@, em, 0, target@, new_name@, edits_view(old(edits)@)) == child_refs(
                kind,
                source@,
                em,
                k as int,
                target@,
                new_name@,
                edits_view(edits@),
            ),
        decreases cs@.len() - k,
    {
        assert(em[k as int] == entry_model(cs@[k as int]));
        if let Entry::Assignment(ca) = &cs[k] {
            let key = span_chars(&ca.key, source);
            let wanted = match kind {
                ReferenceKind::Event => spells(&key, "id"),
                _ => spells(&key, "var") || spells(&key, "variable"),
            };
            if wanted && value_names(&ca.value.value, source, target) {
                push_edit(edits, ca.value.range, quoted_text(new_name));
            }
        }
        k += 1;
    }
}

/// Edits that an assignment itself calls for.
fn local_refs_exec(
    kind: ReferenceKind,
    key: &Vec<char>,
    key_range: Range,
    v: &Value,
    value_range: Range,
    source: &str,
    target: &Vec<char>,
    new_name: &str,
    edits: &mut Vec<TextEdit>,
)
    requires
        value_fits(*v, source.spec_bytes()),
    ensures
        edits_view(final(edits)@) == local_refs(
            kind,
            source@,
            key@,
            key_range,
            value_model(*v),
            value_range,
            target@,
            new_name@,
            edits_view(old(edits)@),
        ),
{
    match kind {
        ReferenceKind::Event | ReferenceKind::Variable => {
            let matches_key = match kind {
                ReferenceKind::Event => spells(key, "country_event") || spells(key, "state_event")
                    || spells(key, "news_event") || spells(key, "unit_leader_event"),
                _ => spells(key, "set_variable") || spells(key, "check_variable") || spells(key, "add_to_variable")
                    || spells(key, "subtract_from_variable") || spells(key, "multiply_variable")
                    || spells(key, "divide_variable") || spells(key, "modulo_variable")
                    || spells(key, "clamp_variable"),
            };
            if matches_key {
                if let Value::Block(cs) = v {
                    child_refs_exec(kind, cs, source, target, new_name, edits);
                }
            }
        },
        ReferenceKind::Scripted => {
            if chars_equal(key, target) {
                push_edit(edits, key_range, literal(new_name));
                push_edit(edits, key_range, literal(new_name));
            }
        },
        ReferenceKind::Idea => {
            if chars_equal(key, target) {
                push_edit(edits, key_range, literal(new_name));
            }
            if (spells(key, "add_ideas") || spells(key, "remove_ideas") || spells(key, "add_timed_idea")
                || spells(key, "swap_ideas")) && value_names(v, source, target) {
                push_edit(edits, value_range, quoted_text(new_name));
            }
        },
        ReferenceKind::Character => {
            if chars_equal(key, target) {
                push_edit(edits, key_range, literal(new_name));
            }
            if (spells(key, "recruit_character") || spells(key, "has_character") || spells(key, "promote_character")
                || spells(key, "retire_character")) && value_names(v, source, target) {
                push_edit(edits, value_range, literal(new_name));
            }
            if spells(key, "character") && value_names(v, source, target) {
                push_edit(edits, value_range, literal(new_name));
            }
        },
        ReferenceKind::Ability => {
            if chars_equal(key, target) {
                push_edit(edits, key_range, literal(new_name));
            }
            if value_names(v, source, target) && (spells(key, "has_ability") || spells(key, "add_ability")
                || spells(key, "remove_ability")) {
                push_edit(edits, value_range, literal(new_name));
            }
        },
    }
}

/// Appends to `edits` the renames of `old_name` to `new_name` among the
/// references of the given kind in `entries`, searched depth first through
/// the blocks of assignments.
pub fn find_references_in_entries(
    kind: ReferenceKind,
    entries: &Vec<Entry>,
    source: &str,
    old_name: &str,
    new_name: &str,
    edits: &mut Vec<TextEdit>,
)
    requires
        forall|k: int| 0 <= k < entries@.len() ==> entry_fits(#[trigger] entries@[k], source.spec_bytes()),
    ensures
        edits_view(final(edits)@) == refs_in(
            kind,
            source@,
            entries_model(entries@),
            old_name@,
            new_name@,
            edits_view(old(edits)@),
        ),
    decreases entries@,
{
    let target = chars_of(old_name);
    let ghost em = entries_model(entries@);
    proof {
        lemma_entries_model(entries@);
        assert(em.subrange(0, em.len() as int) =~= em);
    }
    let mut k: usize = 0;
    while k < entries.len()
        invariant
            k <= entries@.len(),
            target@ == old_name@,
            em == entries_model(entries@),
            em.len() == entries@.len(),
            forall|i: int| 0 <= i < entries@.len() ==> #[trigger] em[i] == entry_model(entries@[i]),
            forall|i: int| 0 <= i < entries@.len() ==> entry_fits(#[trigger] entries@[i], source.spec_bytes()),
            refs_in(kind, source@, em, old_name@, new_name@, edits_view(old(edits)@)) == refs_in(
                kind,
                source@,
                em.subrange(k as int, em.len() as int),
                old_name@,
                new_name@,
                edits_view(edits@),
            ),
        decreases entries@.len() - k,
    {
        let ghost rest = em.subrange(k as int, em.len() as int);
        assert(rest.drop_first() =~= em.subrange(k + 1, em.len() as int));
        assert(rest[0] == entry_model(entries@[k as int]));
        if let Entry::Assignment(a) = &entries[k] {
            let key = span_chars(&a.key, source);
            local_refs_exec(kind, &key, a.key_range, &a.value.value, a.value.range, source, &target, new_name, edits);
            if let Value::Block(children) = &a.value.value {
                assert(decreases_to!(entries@ => entries@[k as int]));
                assert(decreases_to!(entries@[k as int] => a.value.value));
                assert(decreases_to!(a.value.value => children@));
                find_references_in_entries(kind, children, source, old_name, new_name, edits);
            }
        }
        k += 1;
    }
    assert(em.subrange(k as int, em.len() as int) =~= Seq::<EntryModel>::empty());
}

/// The kind of references that renaming `symbol` touches, and its name.
pub fn reference_kind(symbol: &RenameableSymbol) -> (r: (ReferenceKind, &String))
    ensures
        match symbol {
            RenameableSymbol::Event(n) => r.0 == ReferenceKind::Event && r.1 == n,
            RenameableSymbol::ScriptedTrigger(n) => r.0 == ReferenceKind::Scripted && r.1 == n,
            RenameableSymbol::ScriptedEffect(n) => r.0 == ReferenceKind::Scripted && r.1 == n,
            RenameableSymbol::Idea(n) => r.0 == ReferenceKind::Idea && r.1 == n,
            RenameableSymbol::Character(n) => r.0 == ReferenceKind::Character && r.1 == n,
            RenameableSymbol::Variable(n) => r.0 == ReferenceKind::Variable && r.1 == n,
            RenameableSymbol::Ability(n) => r.0 == ReferenceKind::Ability && r.1 == n,
        },
{
    match symbol {
        RenameableSymbol::Event(n) => (ReferenceKind::Event, n),
        RenameableSymbol::ScriptedTrigger(n) => (ReferenceKind::Scripted, n),
        RenameableSymbol::ScriptedEffect(n) => (ReferenceKind::Scripted, n),
        RenameableSymbol::Idea(n) => (ReferenceKind::Idea, n),
        RenameableSymbol::Character(n) => (ReferenceKind::Character, n),
        RenameableSymbol::Variable(n) => (ReferenceKind::Variable, n),
        RenameableSymbol::Ability(n) => (ReferenceKind::Ability, n),
    }
}

} // verus!
