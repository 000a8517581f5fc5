//! Whether an event option is provably hidden from the AI: its `trigger`
//! block proves that the AI cannot see it.  Recognised proofs are `is_ai = no`
//! in a conjunctive position (top level, inside `AND` or `limit`),
//! `NOT = { is_ai = yes }`, and a scripted trigger whose body was found to
//! prove the same.  `OR` blocks and other negations prove nothing.
use vstd::prelude::*;
use vstd::string::*;
use crate::ast::{Entry, NodeedValue, Value, span_text, span_chars, entry_fits, value_fits};
use crate::numtext::lower_seq;
use crate::portraits::lemma_entries_model;
use crate::rules::{ascii_lowercase, lower_chars, spells};
use crate::script::{EntryModel, ValueModel, entry_model, entries_model, value_model};
use crate::text::{chars_of, chars_equal};

verus! {

/// The text of a string-like value: an identifier's source text or a quoted
/// string's content.
pub open spec fn value_str(src: Seq<char>, v: ValueModel) -> Option<Seq<char>> {
    match v {
        ValueModel::String(s) => Some(span_text(src, s)),
        ValueModel::QuotedString(t) => Some(t),
        _ => None,
    }
}

/// The value reads as `word` (`yes` or `no`): a boolean, or a string equal to
/// it ignoring ASCII case.
pub open spec fn reads_as(src: Seq<char>, v: ValueModel, yes: bool) -> bool {
    match v {
        ValueModel::Boolean(b) => b == yes,
        _ => match value_str(src, v) {
            Some(t) => lower_seq(t) == (if yes {
                "yes"@
            } else {
                "no"@
            }),
            None => false,
        },
    }
}

/// Index of the first trigger named `n` at or after `i`.
pub open spec fn trigger_index(triggers: Seq<(Seq<char>, bool)>, n: Seq<char>, i: int) -> Option<int>
    decreases triggers.len() - i,
{
    if 0 <= i < triggers.len() {
        if triggers[i].0 == n {
            Some(i)
        } else {
            trigger_index(triggers, n, i + 1)
        }
    } else {
        None
    }
}

/// Whether the scripted trigger `name` proves AI invisibility: looked up by
/// its lower-case name first, then as written; unknown triggers prove nothing.
pub open spec fn trigger_proves(triggers: Seq<(Seq<char>, bool)>, name: Seq<char>) -> bool {
    match trigger_index(triggers, lower_seq(name), 0) {
        Some(i) => triggers[i].1,
        None => match trigger_index(triggers, name, 0) {
            Some(i) => triggers[i].1,
            None => false,
        },
    }
}

/// Some arm of a `NOT` block is `is_ai = yes`.
pub open spec fn negates_ai(src: Seq<char>, arms: Seq<EntryModel>) -> bool {
    exists|k: int|
        0 <= k < arms.len() && (#[trigger] arms[k] matches EntryModel::Assignment(ks, _, _, _, v, _)
            && lower_seq(span_text(src, ks)) == "is_ai"@ && reads_as(src, v, true))
}

/// The entries prove that the AI cannot see what they guard.
pub open spec fn proves_invisible(src: Seq<char>, es: Seq<EntryModel>, triggers: Seq<(Seq<char>, bool)>) -> bool
    decreases es,
{
    if es.len() == 0 {
        false
    } else {
        let first = match es[0] {
            EntryModel::Assignment(ks, _, _, _, v, _) => {
                let name = span_text(src, ks);
                let key = lower_seq(name);
                if key == "is_ai"@ {
                    reads_as(src, v, false)
                } else if key == "and"@ || key == "limit"@ {
                    match v {
                        ValueModel::Block(cs) => proves_invisible(src, cs, triggers),
                        _ => trigger_proves(triggers, name),
                    }
                } else if key == "not"@ {
                    match v {
                        ValueModel::Block(cs) => negates_ai(src, cs),
                        _ => trigger_proves(triggers, name),
                    }
                } else {
                    trigger_proves(triggers, name)
                }
            },
            _ => false,
        };
        first || proves_invisible(src, es.drop_first(), triggers)
    }
}

/// Index of the first `trigger` assignment (any case) at or after `i`.
pub open spec fn trigger_entry(src: Seq<char>, es: Seq<EntryModel>, i: int) -> Option<int>
    decreases es.len() - i,
{
    if 0 <= i < es.len() {
        if es[i] matches EntryModel::Assignment(ks, _, _, _, _, _) && lower_seq(span_text(src, ks)) == "trigger"@ {
            Some(i)
        } else {
            trigger_entry(src, es, i + 1)
        }
    } else {
        None
    }
}

/// An option block is provably hidden from the AI when its first `trigger`
/// is a block that proves it; an option without a trigger is visible.
pub open spec fn option_hidden_from_ai(src: Seq<char>, v: ValueModel, triggers: Seq<(Seq<char>, bool)>) -> bool {
    match v {
        ValueModel::Block(es) => match trigger_entry(src, es, 0) {
            Some(i) => match es[i] {
                EntryModel::Assignment(_, _, _, _, ValueModel::Block(b), _) => proves_invisible(src, b, triggers),
                _ => false,
            },
            None => false,
        },
        _ => false,
    }
}

pub open spec fn triggers_view(t: Seq<(String, bool)>) -> Seq<(Seq<char>, bool)> {
    t.map_values(|p: (String, bool)| (p.0@, p.1))
}

/// A value read as `yes` or `no`.
fn value_reads_as(v: &Value, source: &str, yes: bool) -> (r: bool)
    requires
        value_fits(*v, source.spec_bytes()),
    ensures
        r == reads_as(source@, value_model(*v), yes),
{
    let text = match v {
        Value::Boolean(b) => {
            return *b == yes;
        },
        Value::String(s) => lower_chars(&span_chars(s, source)),
        Value::QuotedString(t) => ascii_lowercase(t.as_str()),
        _ => {
            return false;
        },
    };
    if yes {
        spells(&text, "yes")
    } else {
        spells(&text, "no")
    }
}

/// Index of the first trigger named `n` at or after `i`.
fn find_trigger(triggers: &Vec<(String, bool)>, n: &Vec<char>) -> (r: Option<usize>)
    ensures
        r matches Some(i) ==> trigger_index(triggers_view(triggers@), n@, 0) == Some(i as int) && i < triggers@.len(),
        r is None ==> trigger_index(triggers_view(triggers@), n@, 0) is None,
{
    let ghost tv = triggers_view(triggers@);
    let mut k: usize = 0;
    while k < triggers.len()
        invariant
            k <= triggers@.len(),
            tv == triggers_view(triggers@),
            trigger_index(tv, n@, 0) == trigger_index(tv, n@, k as int),
        decreases triggers.len() - k,
    {
        let name = chars_of(triggers[k].0.as_str());
        if chars_equal(&name, n) {
            return Some(k);
        }
        k += 1;
    }
    None
}

/// Whether the scripted trigger `name` proves AI invisibility.
fn scripted_trigger_proves(triggers: &Vec<(String, bool)>, name: &Vec<char>) -> (r: bool)
    ensures
        r == trigger_proves(triggers_view(triggers@), name@),
{
    let lower = lower_chars(name);
    let ghost tv = triggers_view(triggers@);
    assert(forall|i: int| 0 <= i < triggers@.len() ==> #[trigger] tv[i] == (triggers@[i].0@, triggers@[i].1));
    match find_trigger(triggers, &lower) {
        Some(i) => triggers[i].1,
        None => match find_trigger(triggers, name) {
            Some(i) => triggers[i].1,
            None => false,
        },
    }
}

/// Some arm of a `NOT` block is `is_ai = yes`.
fn not_block_negates_ai(arms: &Vec<Entry>, source: &str) -> (r: bool)
    requires
        forall|k: int| 0 <= k < arms@.len() ==> entry_fits(#[trigger] arms@[k], source.spec_bytes()),
    ensures
        r == negates_ai(source@, entries_model(arms@)),
{
    let ghost am = entries_model(arms@);
    proof {
        lemma_entries_model(arms@);
    }
    let mut k: usize = 0;
    while k < arms.len()
        invariant
            k <= arms@.len(),
            am == entries_model(arms@),
            am.len() == arms@.len(),
            forall|i: int| 0 <= i < arms@.len() ==> #[trigger] am[i] == entry_model(arms@[i]),
            forall|i: int| 0 <= i < arms@.len() ==> entry_fits(#[trigger] arms@[i], source.spec_bytes()),
            forall|i: int|
                0 <= i < k ==> !(#[trigger] am[i] matches EntryModel::Assignment(ks, _, _, _, v, _)
                    && lower_seq(span_text(source@, ks)) == "is_ai"@ && reads_as(source@, v, true)),
        decreases arms.len() - k,
    {
        if let Entry::Assignment(a) = &arms[k] {
            let yes = value_reads_as(&a.value.value, source, true);
            let key = lower_chars(&span_chars(&a.key, source));
            if spells(&key, "is_ai") && yes {
                assert(am[k as int] == entry_model(arms@[k as int]));
                return true;
            }
        }
        k += 1;
    }
    false
}

/// Statically decides whether an option `trigger` block proves that the
/// option is invisible to the AI; conservative, it answers true only on
/// certainty.  `scripted_triggers` pairs each scripted trigger's name with
/// whether its body proves AI invisibility.
pub fn option_provably_ai_invisible(
    entries: &Vec<Entry>,
    source: &str,
    scripted_triggers: &Vec<(String, bool)>,
) -> (r: bool)
    requires
        forall|k: int| 0 <= k < entries@.len() ==> entry_fits(#[trigger] entries@[k], source.spec_bytes()),
    ensures
        r == proves_invisible(source@, entries_model(entries@), triggers_view(scripted_triggers@)),
    decreases entries@,
{
    let ghost em = entries_model(entries@);
    let ghost tv = triggers_view(scripted_triggers@);
    proof {
        lemma_entries_model(entries@);
        assert(em.subrange(0, em.len() as int) =~= em);
    }
    let mut k: usize = 0;
    while k < entries.len()
        invariant
            k <= entries@.len(),
            em == entries_model(entries@),
            em.len() == entries@.len(),
            tv == triggers_view(scripted_triggers@),
            forall|i: int| 0 <= i < entries@.len() ==> #[trigger] em[i] == entry_model(entries@[i]),
            forall|i: int| 0 <= i < entries@.len() ==> entry_fits(#[trigger] entries@[i], source.spec_bytes()),
            proves_invisible(source@, em, tv) == proves_invisible(source@, em.subrange(k as int, em.len() as int), tv),
        decreases entries@.len() - k,
    {
        let ghost rest = em.subrange(k as int, em.len() as int);
        assert(rest.drop_first() =~= em.subrange(k + 1, em.len() as int));
        assert(rest[0] == entry_model(entries@[k as int]));
        if let Entry::Assignment(a) = &entries[k] {
            let name = span_chars(&a.key, source);
            let key = lower_chars(&name);
            let proves = if spells(&key, "is_ai") {
                value_reads_as(&a.value.value, source, false)
            } else if spells(&key, "and") || spells(&key, "limit") {
                match &a.value.value {
                    Value::Block(cs) => {
                        assert(decreases_to!(entries@ => entries@[k as int]));
                        assert(decreases_to!(entries@[k as int] => a.value.value));
                        assert(decreases_to!(a.value.value => cs@));
                        option_provably_ai_invisible(cs, source, scripted_triggers)
                    },
                    _ => scripted_trigger_proves(scripted_triggers, &name),
                }
            } else if spells(&key, "not") {
                match &a.value.value {
                    Value::Block(cs) => not_block_negates_ai(cs, source),
                    _ => scripted_trigger_proves(scripted_triggers, &name),
                }
            } else {
                scripted_trigger_proves(scripted_triggers, &name)
            };
            if proves {
                return true;
            }
        }
        k += 1;
    }
    assert(em.subrange(k as int, em.len() as int) =~= Seq::<EntryModel>::empty());
    false
}

/// Evaluates an option block's `trigger` for provable AI invisibility; an
/// option without a trigger block is visible to the AI.
pub fn evaluate_option_trigger_ai_visibility(
    value: &NodeedValue,
    source: &str,
    scripted_triggers: &Vec<(String, bool)>,
) -> (r: bool)
    requires
        value_fits(value.value, source.spec_bytes()),
    ensures
        r == option_hidden_from_ai(source@, value_model(value.value), triggers_view(scripted_triggers@)),
{
    let entries = match &value.value {
        Value::Block(entries) => entries,
        _ => {
            return false;
        },
    };
    let ghost em = entries_model(entries@);
    proof {
        lemma_entries_model(entries@);
    }
    let mut k: usize = 0;
    while k < entries.len()
        invariant
            k <= entries@.len(),
            em == entries_model(entries@),
            em.len() == entries@.len(),
            value.value == Value::Block(*entries),
            forall|i: int| 0 <= i < entries@.len() ==> #[trigger] em[i] == entry_model(entries@[i]),
            forall|i: int| 0 <= i < entries@.len() ==> entry_fits(#[trigger] entries@[i], source.spec_bytes()),
            trigger_entry(source@, em, 0) == trigger_entry(source@, em, k as int),
        decreases entries.len() - k,
    {
        if let Entry::Assignment(a) = &entries[k] {
            let key = lower_chars(&span_chars(&a.key, source));
            if spells(&key, "trigger") {
                assert(em[k as int] == entry_model(entries@[k as int]));
                return match &a.value.value {
                    Value::Block(body) => option_provably_ai_invisible(body, source, scripted_triggers),
                    _ => false,
                };
            }
        }
        k += 1;
    }
    false
}

} // verus!
