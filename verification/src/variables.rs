//! How the variable rule reads scripts: which effects and triggers define,
//! read or change variables and arrays, and which name they refer to.
use vstd::prelude::*;
use vstd::string::*;
use crate::ast::{Assignment, Entry, Value, span_text, span_chars, entry_fits, value_fits};
use crate::ai_visibility::value_str;
use crate::numtext::lower_seq;
use crate::portraits::lemma_entries_model;
use crate::rules::{ascii_lowercase, lower_chars, spells};
use crate::script::{EntryModel, ValueModel, entry_model, entries_model, value_model};
use crate::text::{chars_of, push_chars};

verus! {

/// Variable and array reference kinds.
#[derive(Debug, Clone, Copy, PartialEq, Eq, Structural)]
pub enum VarRefKind {
    /// `set_variable`, `change_variable`: a definition.
    Definition,
    /// `check_variable`, `has_variable`: a read.
    Read,
    /// `add_to_variable`, `subtract_from_variable`, ...: a change.
    Mutation,
    /// Flag operations: never classified, as every flag implicitly exists.
    Flag,
    /// `add_to_array`: creates an array in the regular scope.
    ArrayDef,
    /// `add_to_temp_array`: creates a chain-local array.
    ArrayTempDef,
    /// `is_in_array`, `for_each_scope_loop`, `clear_array`, ...: an array read or change.
    Array,
    /// `set_temp_variable`, `add_to_temp_variable`, ...: chain-local.
    Temp,
}

/// The kind of reference a key makes, from its lower-case spelling.
pub open spec fn var_ref_kind(l: Seq<char>) -> Option<VarRefKind> {
    if l == "set_variable"@ || l == "change_variable"@ {
        Some(VarRefKind::Definition)
    } else if l == "set_temp_variable"@ || l == "set_local_variable"@ {
        Some(VarRefKind::Temp)
    } else if l == "check_variable"@ || l == "has_variable"@ {
        Some(VarRefKind::Read)
    } else if l == "add_to_variable"@ || l == "subtract_from_variable"@ || l == "multiply_variable"@
        || l == "divide_variable"@ || l == "modulo_variable"@ || l == "clamp_variable"@ || l == "round_variable"@
        || l == "randomize_variable"@ || l == "set_variable_to_random"@ || l == "clear_variable"@ {
        Some(VarRefKind::Mutation)
    } else if l == "add_to_temp_variable"@ || l == "subtract_from_temp_variable"@ || l == "multiply_temp_variable"@
        || l == "divide_temp_variable"@ || l == "modulo_temp_variable"@ || l == "clamp_temp_variable"@
        || l == "round_temp_variable"@ || l == "randomize_temp_variable"@ || l == "set_temp_variable_to_random"@
        || l == "clear_temp_variable"@ {
        Some(VarRefKind::Temp)
    } else if l == "add_to_array"@ {
        Some(VarRefKind::ArrayDef)
    } else if l == "add_to_temp_array"@ {
        Some(VarRefKind::ArrayTempDef)
    } else if l == "remove_from_array"@ || l == "clear_array"@ || l == "resize_array"@ || l == "is_in_array"@
        || l == "find_highest_in_array"@ || l == "find_lowest_in_array"@ || l == "for_each_scope_loop"@
        || l == "for_each_loop"@ || l == "random_scope_in_array"@ || l == "any_of"@ || l == "any_of_scopes"@
        || l == "all_of"@ || l == "all_of_scopes"@ || l == "remove_from_temp_array"@ || l == "clear_temp_array"@
        || l == "resize_temp_array"@ {
        Some(VarRefKind::Array)
    } else {
        None
    }
}

/// Whether a key is a variable- or array-related effect or trigger, and which
/// kind, compared without regard to ASCII case.  Flags are not classified.
pub fn classify_var_key(key: &str) -> (r: Option<VarRefKind>)
    ensures
        r == var_ref_kind(lower_seq(key@)),
{
    let l = ascii_lowercase(key);
    if spells(&l, "set_variable") || spells(&l, "change_variable") {
        Some(VarRefKind::Definition)
    } else if spells(&l, "set_temp_variable") || spells(&l, "set_local_variable") {
        Some(VarRefKind::Temp)
    } else if spells(&l, "check_variable") || spells(&l, "has_variable") {
        Some(VarRefKind::Read)
    } else if spells(&l, "add_to_variable") || spells(&l, "subtract_from_variable") || spells(&l, "multiply_variable")
        || spells(&l, "divide_variable") || spells(&l, "modulo_variable") || spells(&l, "clamp_variable")
        || spells(&l, "round_variable") || spells(&l, "randomize_variable") || spells(&l, "set_variable_to_random")
        || spells(&l, "clear_variable") {
        Some(VarRefKind::Mutation)
    } else if spells(&l, "add_to_temp_variable") || spells(&l, "subtract_from_temp_variable") || spells(
        &l,
        "multiply_temp_variable",
    ) || spells(&l, "divide_temp_variable") || spells(&l, "modulo_temp_variable") || spells(
        &l,
        "clamp_temp_variable",
    ) || spells(&l, "round_temp_variable") || spells(&l, "randomize_temp_variable") || spells(
        &l,
        "set_temp_variable_to_random",
    ) || spells(&l, "clear_temp_variable") {
        Some(VarRefKind::Temp)
    } else if spells(&l, "add_to_array") {
        Some(VarRefKind::ArrayDef)
    } else if spells(&l, "add_to_temp_array") {
        Some(VarRefKind::ArrayTempDef)
    } else if spells(&l, "remove_from_array") || spells(&l, "clear_array") || spells(&l, "resize_array") || spells(
        &l,
        "is_in_array",
    ) || spells(&l, "find_highest_in_array") || spells(&l, "find_lowest_in_array") || spells(
        &l,
        "for_each_scope_loop",
    ) || spells(&l, "for_each_loop") || spells(&l, "random_scope_in_array") || spells(&l, "any_of") || spells(
        &l,
        "any_of_scopes",
    ) || spells(&l, "all_of") || spells(&l, "all_of_scopes") || spells(&l, "remove_from_temp_array") || spells(
        &l,
        "clear_temp_array",
    ) || spells(&l, "resize_temp_array") {
        Some(VarRefKind::Array)
    } else {
        None
    }
}

/// The keys, in lower case, that name the variable in the long form of an effect.
pub open spec fn name_key(l: Seq<char>) -> bool {
    l == "var"@ || l == "variable"@ || l == "name"@ || l == "temp_var"@ || l == "array"@ || l == "temp_array"@
}

/// The first name given by a naming key with a string value, from entry `i` on.
pub open spec fn named_var(src: Seq<char>, es: Seq<EntryModel>, i: int) -> Option<Seq<char>>
    decreases es.len() - i,
{
    if 0 <= i < es.len() {
        match es[i] {
            EntryModel::Assignment(ks, _, _, _, v, _) => if name_key(lower_seq(span_text(src, ks))) && value_str(
                src,
                v,
            ) is Some {
                value_str(src, v)
            } else {
                named_var(src, es, i + 1)
            },
            _ => named_var(src, es, i + 1),
        }
    } else {
        None
    }
}

/// The variable or array an effect's value names: an identifier itself; in a
/// block, the value of `var`, `variable`, `name`, `temp_var`, `array` or
/// `temp_array`, else the key of its only assignment.
pub open spec fn var_name(src: Seq<char>, v: ValueModel) -> Option<Seq<char>> {
    match v {
        ValueModel::String(s) => Some(span_text(src, s)),
        ValueModel::Block(es) => match named_var(src, es, 0) {
            Some(t) => Some(t),
            None => if es.len() == 1 && es[0] is Assignment {
                Some(span_text(src, es[0]->Assignment_0))
            } else {
                None
            },
        },
        _ => None,
    }
}

/// The text of a string-like value.
fn value_text(v: &Value, source: &str) -> (r: Option<Vec<char>>)
    requires
        value_fits(*v, source.spec_bytes()),
    ensures
        match value_str(source@, value_model(*v)) {
            Some(t) => r matches Some(c) && c@ == t,
            None => r is None,
        },
{
    match v {
        Value::String(s) => Some(span_chars(s, source)),
        Value::QuotedString(t) => Some(chars_of(t.as_str())),
        _ => None,
    }
}

fn string_of(cs: &Vec<char>) -> (s: String)
    ensures
        s@ == cs@,
{
    let mut s = String::new();
    push_chars(&mut s, cs);
    assert(s@ =~= cs@);
    s
}

/// The variable or array name an assignment's value refers to.
pub fn extract_var_name(ass: &Assignment, source: &str) -> (r: Option<String>)
    requires
        value_fits(ass.value.value, source.spec_bytes()),
    ensures
        match var_name(source@, value_model(ass.value.value)) {
            Some(t) => r matches Some(s) && s@ == t,
            None => r is None,
        },
{
    let inner = match &ass.value.value {
        Value::String(s) => {
            return Some(string_of(&span_chars(s, source)));
        },
        Value::Block(inner) => inner,
        _ => {
            return None;
        },
    };
    let ghost em = entries_model(inner@);
    proof {
        lemma_entries_model(inner@);
    }
    let mut k: usize = 0;
    while k < inner.len()
        invariant
            k <= inner@.len(),
            em == entries_model(inner@),
            em.len() == inner@.len(),
            ass.value.value == Value::Block(*inner),
            forall|i: int| 0 <= i < inner@.len() ==> #[trigger] em[i] == entry_model(inner@[i]),
            forall|i: int| 0 <= i < inner@.len() ==> entry_fits(#[trigger] inner@[i], source.spec_bytes()),
            named_var(source@, em, 0) == named_var(source@, em, k as int),
        decreases inner.len() - k,
    {
        if let Entry::Assignment(a) = &inner[k] {
            let key = lower_chars(&span_chars(&a.key, source));
            if spells(&key, "var") || spells(&key, "variable") || spells(&key, "name") || spells(&key, "temp_var")
                || spells(&key, "array") || spells(&key, "temp_array") {
                if let Some(t) = value_text(&a.value.value, source) {
                    assert(em[k as int] == entry_model(inner@[k as int]));
                    return Some(string_of(&t));
                }
            }
        }
        k += 1;
    }
    if inner.len() == 1 {
        if let Entry::Assignment(a) = &inner[0] {
            assert(em[0] == entry_model(inner@[0]));
            return Some(string_of(&span_chars(&a.key, source)));
        }
    }
    None
}

} // verus!
