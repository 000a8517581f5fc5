//! Texture paths in `.gfx` and `.gui` files: the `texturefile = "path"`
//! assignments, found depth first through blocks, with the path as it is
//! looked up and, when styling is on, the path with single forward slashes
//! suggested for one written with `//` or `\`.  Whether a texture exists is
//! a question for the file system, answered outside the library.
use vstd::prelude::*;
use vstd::string::*;
use crate::ast::{Range, Entry, Value, span_text, span_chars, entry_fits, value_fits};
use crate::script::{EntryModel, ValueModel, entries_model, entry_model, value_model};
use crate::numtext::lower_seq;
use crate::rules::{has_substring, contains_chars, lower_chars, spells};
use crate::portraits::lemma_entries_model;
use crate::text::chars_of;

verus! {

/// A `texturefile = "path"` reference.
#[derive(Debug, Clone)]
pub struct TextureRef {
    /// The path as written.
    pub path: String,
    /// The path with each backslash turned into a forward slash: the path
    /// that is looked up.
    pub lookup: String,
    /// Where the value stands.
    pub range: Range,
    /// With styling on and `//` or `\` in the path: the path with single
    /// forward slashes.
    pub suggestion: Option<String>,
}

pub struct TextureRefModel {
    pub path: Seq<char>,
    pub lookup: Seq<char>,
    pub range: Range,
    pub suggestion: Option<Seq<char>>,
}

pub open spec fn texture_model(t: TextureRef) -> TextureRefModel {
    TextureRefModel {
        path: t.path@,
        lookup: t.lookup@,
        range: t.range,
        suggestion: match t.suggestion {
            Some(s) => Some(s@),
            None => None,
        },
    }
}

pub open spec fn textures_model(v: Seq<TextureRef>) -> Seq<TextureRefModel> {
    v.map_values(|t: TextureRef| texture_model(t))
}

/// `t` with each `//`, read from the left, turned into `/`.
pub open spec fn single_slashes(t: Seq<char>) -> Seq<char>
    decreases t.len(),
{
    if t.len() == 0 {
        Seq::empty()
    } else if t.len() >= 2 && t[0] == '/' && t[1] == '/' {
        seq!['/'] + single_slashes(t.subrange(2, t.len() as int))
    } else {
        seq![t[0]] + single_slashes(t.drop_first())
    }
}

pub open spec fn forward_slash(c: char) -> char {
    if c == '\\' {
        '/'
    } else {
        c
    }
}

/// `t` with each backslash turned into a forward slash.
pub open spec fn forward_slashes(t: Seq<char>) -> Seq<char> {
    t.map_values(|c: char| forward_slash(c))
}

/// The reference that the path `p`, written at `r`, makes.
pub open spec fn texture_ref(p: Seq<char>, r: Range, styling: bool) -> TextureRefModel {
    TextureRefModel {
        path: p,
        lookup: forward_slashes(p),
        range: r,
        suggestion: if styling && (has_substring(p, "//"@) || p.contains('\\')) {
            Some(forward_slashes(single_slashes(p)))
        } else {
            None
        },
    }
}

/// The text of a string value, quoted or not.
pub open spec fn value_text(src: Seq<char>, v: ValueModel) -> Option<Seq<char>> {
    match v {
        ValueModel::String(s) => Some(span_text(src, s)),
        ValueModel::QuotedString(t) => Some(t),
        _ => None,
    }
}

/// The texture references among the entries, depth first through blocks.
pub open spec fn textures_in(src: Seq<char>, es: Seq<EntryModel>, styling: bool) -> Seq<TextureRefModel>
    decreases es,
{
    if es.len() == 0 {
        Seq::empty()
    } else {
        textures_in_entry(src, es[0], styling) + textures_in(src, es.drop_first(), styling)
    }
}

/// An assignment to `texturefile` (in any ASCII case) of a string makes a
/// reference; blocks are searched in turn.
pub open spec fn textures_in_entry(src: Seq<char>, e: EntryModel, styling: bool) -> Seq<TextureRefModel>
    decreases e,
{
    match e {
        EntryModel::Assignment(k, _, _, _, v, vr) => (if lower_seq(span_text(src, k)) == "texturefile"@ {
            match value_text(src, v) {
                Some(p) => seq![texture_ref(p, vr, styling)],
                None => Seq::empty(),
            }
        } else {
            Seq::empty()
        }) + textures_in_value(src, v, styling),
        EntryModel::Value(v, _) => textures_in_value(src, v, styling),
        EntryModel::Comment(_, _) => Seq::empty(),
    }
}

pub open spec fn textures_in_value(src: Seq<char>, v: ValueModel, styling: bool) -> Seq<TextureRefModel>
    decreases v,
{
    match v {
        ValueModel::Block(inner) => textures_in(src, inner, styling),
        ValueModel::TaggedBlock(_, inner, _) => textures_in(src, inner, styling),
        _ => Seq::empty(),
    }
}

/// The string made of the characters `v`.
fn string_of(v: &Vec<char>) -> (s: String)
    ensures
        s@ == v@,
{
    let mut s = String::new();
    crate::text::push_chars(&mut s, v);
    s
}

/// `t` with each `//`, read from the left, turned into `/`.
pub fn to_single_slashes(t: &Vec<char>) -> (r: Vec<char>)
    ensures
        r@ == single_slashes(t@),
{
    let mut r: Vec<char> = Vec::new();
    let mut i: usize = 0;
    assert(t@.subrange(0, t@.len() as int) =~= t@);
    assert(r@ + single_slashes(t@) =~= single_slashes(t@));
    while i < t.len()
        invariant
            i <= t@.len(),
            r@ + single_slashes(t@.subrange(i as int, t@.len() as int)) == single_slashes(t@),
        decreases t.len() - i,
    {
        let ghost rest = t@.subrange(i as int, t@.len() as int);
        if i + 1 < t.len() && t[i] == '/' && t[i + 1] == '/' {
            assert(rest.subrange(2, rest.len() as int) =~= t@.subrange(i + 2, t@.len() as int));
            assert(r@.push('/') + single_slashes(t@.subrange(i + 2, t@.len() as int)) =~= r@ + (seq!['/']
                + single_slashes(t@.subrange(i + 2, t@.len() as int))));
            r.push('/');
            i += 2;
        } else {
            assert(rest.drop_first() =~= t@.subrange(i + 1, t@.len() as int));
            assert(r@.push(t@[i as int]) + single_slashes(t@.subrange(i + 1, t@.len() as int)) =~= r@ + (seq![
                t@[i as int],
            ] + single_slashes(t@.subrange(i + 1, t@.len() as int))));
            r.push(t[i]);
            i += 1;
        }
    }
    assert(t@.subrange(i as int, t@.len() as int) =~= Seq::<char>::empty());
    assert(r@ + Seq::<char>::empty() =~= r@);
    r
}

/// `t` with each backslash turned into a forward slash.
pub fn to_forward_slashes(t: &Vec<char>) -> (r: Vec<char>)
    ensures
        r@ == forward_slashes(t@),
{
    let mut r: Vec<char> = Vec::new();
    let mut i: usize = 0;
    while i < t.len()
        invariant
            i <= t@.len(),
            r@ == forward_slashes(t@.take(i as int)),
        decreases t.len() - i,
    {
        let c = if t[i] == '\\' {
            '/'
        } else {
            t[i]
        };
        r.push(c);
        assert(forward_slashes(t@.take(i + 1)) =~= forward_slashes(t@.take(i as int)).push(forward_slash(t@[i as int])));
        i += 1;
    }
    assert(t@.take(i as int) =~= t@);
    r
}

/// Whether `t` holds a backslash.
fn has_backslash(t: &Vec<char>) -> (r: bool)
    ensures
        r == t@.contains('\\'),
{
    let mut i: usize = 0;
    while i < t.len()
        invariant
            i <= t@.len(),
            forall|j: int| 0 <= j < i ==> t@[j] != '\\',
        decreases t.len() - i,
    {
        if t[i] == '\\' {
            assert(t@[i as int] == '\\');
            return true;
        }
        i += 1;
    }
    false
}

/// The reference that the path `p`, written at `r`, makes.
pub fn make_texture_ref(p: &Vec<char>, range: Range, styling_enabled: bool) -> (t: TextureRef)
    ensures
        texture_model(t) == texture_ref(p@, range, styling_enabled),
{
    let lookup = to_forward_slashes(p);
    let slashes: Vec<char> = vec!['/', '/'];
    assert(slashes@ =~= "//"@) by {
        reveal_strlit("//");
    }
    let suggestion = if styling_enabled && (contains_chars(p, &slashes) || has_backslash(p)) {
        let single = to_single_slashes(p);
        Some(string_of(&to_forward_slashes(&single)))
    } else {
        None
    };
    TextureRef { path: string_of(p), lookup: string_of(&lookup), range, suggestion }
}

/// Adds the texture references among `entries` (searched depth first
/// through blocks) to `out`.
pub fn collect_textures(entries: &Vec<Entry>, source: &str, styling_enabled: bool, out: &mut Vec<TextureRef>)
    requires
        forall|k: int| 0 <= k < entries@.len() ==> entry_fits(#[trigger] entries@[k], source.spec_bytes()),
    ensures
        textures_model(final(out)@) == textures_model(old(out)@) + textures_in(
            source@,
            entries_model(entries@),
            styling_enabled,
        ),
    decreases entries@, 2int,
{
    let ghost em = entries_model(entries@);
    let ghost src = source@;
    proof {
        lemma_entries_model(entries@);
        assert(em.subrange(0, em.len() as int) =~= em);
        assert(textures_model(out@) + textures_in(src, em, styling_enabled) =~= textures_model(old(out)@)
            + textures_in(src, em, styling_enabled));
    }
    let mut k: usize = 0;
    while k < entries.len()
        invariant
            k <= entries@.len(),
            em == entries_model(entries@),
            em.len() == entries@.len(),
            src == source@,
            forall|j: int| 0 <= j < entries@.len() ==> #[trigger] em[j] == entry_model(entries@[j]),
            forall|j: int| 0 <= j < entries@.len() ==> entry_fits(#[trigger] entries@[j], source.spec_bytes()),
            textures_model(old(out)@) + textures_in(src, em, styling_enabled) == textures_model(out@)
                + textures_in(src, em.subrange(k as int, em.len() as int), styling_enabled),
        decreases entries@.len() - k,
    {
        let ghost rest = em.subrange(k as int, em.len() as int);
        let ghost before = textures_model(out@);
        assert(rest.drop_first() =~= em.subrange(k + 1, em.len() as int));
        assert(rest[0] == entry_model(entries@[k as int]));
        assert(decreases_to!(entries@ => entries@[k as int]));
        textures_in_one(&entries[k], source, styling_enabled, out);
        assert(textures_model(out@) + textures_in(src, em.subrange(k + 1, em.len() as int), styling_enabled)
            =~= before + textures_in(src, rest, styling_enabled));
        k += 1;
    }
    assert(em.subrange(k as int, em.len() as int) =~= Seq::<EntryModel>::empty());
    assert(textures_model(out@) + Seq::<TextureRefModel>::empty() =~= textures_model(out@));
}

fn textures_in_one(e: &Entry, source: &str, styling_enabled: bool, out: &mut Vec<TextureRef>)
    requires
        entry_fits(*e, source.spec_bytes()),
    ensures
        textures_model(final(out)@) == textures_model(old(out)@) + textures_in_entry(
            source@,
            entry_model(*e),
            styling_enabled,
        ),
    decreases *e, 1int,
{
    match e {
        Entry::Assignment(a) => {
            let ghost before = textures_model(out@);
            let key = span_chars(&a.key, source);
            let lowered = lower_chars(&key);
            if spells(&lowered, "texturefile") {
                let text: Option<Vec<char>> = match &a.value.value {
                    Value::String(s) => Some(span_chars(s, source)),
                    Value::QuotedString(s) => Some(chars_of(s.as_str())),
                    _ => None,
                };
                match text {
                    Some(p) => {
                        let t = make_texture_ref(&p, a.value.range, styling_enabled);
                        out.push(t);
                        assert(textures_model(out@) =~= before.push(texture_model(t)));
                    },
                    None => {},
                }
            }
            textures_in_val(&a.value.value, source, styling_enabled, out);
            assert(textures_model(out@) =~= before + textures_in_entry(source@, entry_model(*e), styling_enabled));
        },
        Entry::Value(nv) => textures_in_val(&nv.value, source, styling_enabled, out),
        Entry::Comment(_, _) => {
            assert(textures_model(out@) =~= textures_model(out@) + Seq::<TextureRefModel>::empty());
        },
    }
}

fn textures_in_val(v: &Value, source: &str, styling_enabled: bool, out: &mut Vec<TextureRef>)
    requires
        value_fits(*v, source.spec_bytes()),
    ensures
        textures_model(final(out)@) == textures_model(old(out)@) + textures_in_value(
            source@,
            value_model(*v),
            styling_enabled,
        ),
    decreases *v, 0int,
{
    match v {
        Value::Block(inner) => {
            assert(decreases_to!(*v => inner@));
            collect_textures(inner, source, styling_enabled, out);
        },
        Value::TaggedBlock(_, inner, _) => {
            assert(decreases_to!(*v => inner@));
            collect_textures(inner, source, styling_enabled, out);
        },
        _ => {
            assert(textures_model(out@) =~= textures_model(out@) + Seq::<TextureRefModel>::empty());
        },
    }
}

/// The texture references of a `.gfx` or `.gui` file's entries, in order,
/// searched depth first through blocks.
pub fn texture_references(entries: &Vec<Entry>, source: &str, styling_enabled: bool) -> (r: Vec<TextureRef>)
    requires
        forall|k: int| 0 <= k < entries@.len() ==> entry_fits(#[trigger] entries@[k], source.spec_bytes()),
    ensures
        textures_model(r@) == textures_in(source@, entries_model(entries@), styling_enabled),
{
    let mut out: Vec<TextureRef> = Vec::new();
    collect_textures(entries, source, styling_enabled, &mut out);
    assert(textures_model(Seq::<TextureRef>::empty()) =~= Seq::<TextureRefModel>::empty());
    assert(Seq::<TextureRefModel>::empty() + textures_in(source@, entries_model(entries@), styling_enabled)
        =~= textures_in(source@, entries_model(entries@), styling_enabled));
    out
}

} // verus!
