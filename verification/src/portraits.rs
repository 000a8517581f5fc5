//! Portrait definitions (`portraits/*.txt`): which portrait blocks exist,
//! what they provide and which sprites they use.
use vstd::prelude::*;
use vstd::string::*;
use crate::ast::{Range, Entry, Value, span_text, span_chars, entry_fits, value_fits};
use crate::script::{EntryModel, ValueModel, entries_model, entry_model, value_model, parse_script, script_at, strip_bom};
use crate::numtext::lower_seq;
use crate::rules::spells;
use crate::text::literal;

verus! {

#[derive(Debug, Clone, Copy, PartialEq, Eq, Structural)]
pub enum PortraitBlockType {
    Default,
    Continent,
    Tag,
}

/// A portrait block: a country tag, a continent or the default.
#[derive(Debug, Clone)]
pub struct Portrait {
    pub name: String,
    pub block_type: PortraitBlockType,
    pub continent_name: Option<String>,
    pub has_male: bool,
    pub has_female: bool,
    pub has_army: bool,
    pub has_navy: bool,
    pub has_political: bool,
    pub has_operative: bool,
    pub has_scientist: bool,
    pub ideologies: Vec<String>,
    pub gfx_entries: Vec<String>,
    pub path: String,
    pub range: Range,
}

pub struct PortraitModel {
    pub name: Seq<char>,
    pub block_type: PortraitBlockType,
    pub continent_name: Option<Seq<char>>,
    pub has_male: bool,
    pub has_female: bool,
    pub has_army: bool,
    pub has_navy: bool,
    pub has_political: bool,
    pub has_operative: bool,
    pub has_scientist: bool,
    pub ideologies: Seq<Seq<char>>,
    pub gfx_entries: Seq<Seq<char>>,
    pub path: Seq<char>,
    pub range: Range,
}

pub open spec fn strings_view(v: Seq<String>) -> Seq<Seq<char>> {
    v.map_values(|s: String| s@)
}

pub open spec fn portrait_model(p: Portrait) -> PortraitModel {
    PortraitModel {
        name: p.name@,
        block_type: p.block_type,
        continent_name: match p.continent_name {
            Some(c) => Some(c@),
            None => None,
        },
        has_male: p.has_male,
        has_female: p.has_female,
        has_army: p.has_army,
        has_navy: p.has_navy,
        has_political: p.has_political,
        has_operative: p.has_operative,
        has_scientist: p.has_scientist,
        ideologies: strings_view(p.ideologies@),
        gfx_entries: strings_view(p.gfx_entries@),
        path: p.path@,
        range: p.range,
    }
}

pub open spec fn portraits_model(v: Seq<Portrait>) -> Seq<PortraitModel> {
    v.map_values(|p: Portrait| portrait_model(p))
}

/// `l` with `x` added at the end unless it is already there.
pub open spec fn add_unique(l: Seq<Seq<char>>, x: Seq<char>) -> Seq<Seq<char>> {
    if l.contains(x) {
        l
    } else {
        l.push(x)
    }
}

/// Adds `x` to `l` unless it is already there.
fn push_unique(l: &mut Vec<String>, x: String)
    ensures
        strings_view(final(l)@) == add_unique(strings_view(old(l)@), x@),
{
    let ghost v = strings_view(l@);
    let mut k: usize = 0;
    while k < l.len()
        invariant
            k <= l@.len(),
            v == strings_view(l@),
            l@ == old(l)@,
            forall|j: int| 0 <= j < k ==> v[j] != x@,
        decreases l.len() - k,
    {
        if crate::text::str_is(l[k].as_str(), x.as_str()) {
            assert(v[k as int] == x@);
            assert(v.contains(x@));
            return;
        }
        k += 1;
    }
    assert(!v.contains(x@));
    let ghost xv = x@;
    l.push(x);
    assert(strings_view(l@) =~= v.push(xv));
}

// ---------------------------------------------------------------------------
// Sprite references
// ---------------------------------------------------------------------------

pub open spec fn is_gfx_name(t: Seq<char>) -> bool {
    t.len() >= 4 && t.subrange(0, 4) == seq!['G', 'F', 'X', '_']
}

/// The `GFX_...` identifiers among the values, in order of first
/// appearance, searched depth first through blocks, after those in `acc`.
pub open spec fn gfx_refs(src: Seq<char>, es: Seq<EntryModel>, acc: Seq<Seq<char>>) -> Seq<Seq<char>>
    decreases es,
{
    if es.len() == 0 {
        acc
    } else {
        gfx_refs(src, es.drop_first(), gfx_entry(src, es[0], acc))
    }
}

pub open spec fn gfx_entry(src: Seq<char>, e: EntryModel, acc: Seq<Seq<char>>) -> Seq<Seq<char>>
    decreases e,
{
    match e {
        EntryModel::Assignment(_, _, _, _, v, _) => gfx_value(src, v, acc),
        EntryModel::Value(v, _) => gfx_value(src, v, acc),
        EntryModel::Comment(_, _) => acc,
    }
}

pub open spec fn gfx_value(src: Seq<char>, v: ValueModel, acc: Seq<Seq<char>>) -> Seq<Seq<char>>
    decreases v,
{
    match v {
        ValueModel::String(s) => if is_gfx_name(span_text(src, s)) {
            add_unique(acc, span_text(src, s))
        } else {
            acc
        },
        ValueModel::Block(inner) => gfx_refs(src, inner, acc),
        ValueModel::TaggedBlock(_, inner, _) => gfx_refs(src, inner, acc),
        _ => acc,
    }
}

} // verus!

verus! {

pub proof fn lemma_entries_model(s: Seq<Entry>)
    ensures
        entries_model(s).len() == s.len(),
        forall|k: int| 0 <= k < s.len() ==> #[trigger] entries_model(s)[k] == entry_model(s[k]),
    decreases s.len(),
{
    if s.len() > 0 {
        lemma_entries_model(s.drop_last());
    }
}

/// The string made of the characters `v`.
fn string_from(v: &Vec<char>) -> (s: String)
    ensures
        s@ == v@,
{
    let mut s = String::new();
    crate::text::push_chars(&mut s, v);
    s
}

/// Adds the `GFX_...` identifiers among the values of `entries` (searched
/// depth first through blocks) to `gfx_list`, each once.
pub fn collect_gfx_references(entries: &Vec<Entry>, source: &str, gfx_list: &mut Vec<String>)
    requires
        forall|k: int| 0 <= k < entries@.len() ==> entry_fits(#[trigger] entries@[k], source.spec_bytes()),
    ensures
        strings_view(final(gfx_list)@) == gfx_refs(source@, entries_model(entries@), strings_view(old(gfx_list)@)),
    decreases entries@, 2int,
{
    let ghost em = entries_model(entries@);
    let ghost src = source@;
    proof {
        lemma_entries_model(entries@);
        assert(em.subrange(0, em.len() as int) =~= em);
    }
    let mut k: usize = 0;
    while k < entries.len()
        invariant
            k <= entries@.len(),
            em == entries_model(entries@),
            em.len() == entries@.len(),
            src == source@,
            forall|j: int| 0 <= j < entries@.len() ==> #[trigger] em[j] == entry_model(entries@[j]),
            forall|j: int| 0 <= j < entries@.len() ==> entry_fits(#[trigger] entries@[j], source.spec_bytes()),
            gfx_refs(src, em, strings_view(old(gfx_list)@)) == gfx_refs(
                src,
                em.subrange(k as int, em.len() as int),
                strings_view(gfx_list@),
            ),
        decreases entries@.len() - k,
    {
        let ghost rest = em.subrange(k as int, em.len() as int);
        assert(rest.drop_first() =~= em.subrange(k + 1, em.len() as int));
        assert(rest[0] == entry_model(entries@[k as int]));
        assert(decreases_to!(entries@ => entries@[k as int]));
        gfx_in_entry(&entries[k], source, gfx_list);
        k += 1;
    }
    assert(em.subrange(k as int, em.len() as int) =~= Seq::<EntryModel>::empty());
}

fn gfx_in_entry(e: &Entry, source: &str, gfx_list: &mut Vec<String>)
    requires
        entry_fits(*e, source.spec_bytes()),
    ensures
        strings_view(final(gfx_list)@) == gfx_entry(source@, entry_model(*e), strings_view(old(gfx_list)@)),
    decreases *e, 1int,
{
    match e {
        Entry::Assignment(a) => gfx_in_value(&a.value.value, source, gfx_list),
        Entry::Value(nv) => gfx_in_value(&nv.value, source, gfx_list),
        Entry::Comment(_, _) => {},
    }
}

fn gfx_in_value(v: &Value, source: &str, gfx_list: &mut Vec<String>)
    requires
        value_fits(*v, source.spec_bytes()),
    ensures
        strings_view(final(gfx_list)@) == gfx_value(source@, value_model(*v), strings_view(old(gfx_list)@)),
    decreases *v, 0int,
{
    match v {
        Value::String(s) => {
            let t = span_chars(s, source);
            if t.len() >= 4 && t[0] == 'G' && t[1] == 'F' && t[2] == 'X' && t[3] == '_' {
                assert(t@.subrange(0, 4) =~= seq!['G', 'F', 'X', '_']);
                push_unique(gfx_list, string_from(&t));
            } else {
                assert(!is_gfx_name(t@));
            }
        },
        Value::Block(inner) => {
            assert(decreases_to!(*v => inner@));
            collect_gfx_references(inner, source, gfx_list);
        },
        Value::TaggedBlock(_, inner, _) => {
            assert(decreases_to!(*v => inner@));
            collect_gfx_references(inner, source, gfx_list);
        },
        _ => {},
    }
}

} // verus!

verus! {

// ---------------------------------------------------------------------------
// Portrait blocks
// ---------------------------------------------------------------------------

/// What the entries of a portrait block provide.
pub struct PortraitFlags {
    pub continent_name: Option<Seq<char>>,
    pub male: bool,
    pub female: bool,
    pub army: bool,
    pub navy: bool,
    pub political: bool,
    pub operative: bool,
    pub scientist: bool,
    pub ideologies: Seq<Seq<char>>,
}

pub open spec fn no_flags() -> PortraitFlags {
    PortraitFlags {
        continent_name: None,
        male: false,
        female: false,
        army: false,
        navy: false,
        political: false,
        operative: false,
        scientist: false,
        ideologies: Seq::empty(),
    }
}

/// The keys of the assignments among `es` from index `k` on, each once,
/// after those in `acc`.
pub open spec fn assignment_keys(src: Seq<char>, es: Seq<EntryModel>, k: int, acc: Seq<Seq<char>>) -> Seq<Seq<char>>
    decreases es.len() - k,
{
    if 0 <= k < es.len() {
        let acc2 = match es[k] {
            EntryModel::Assignment(ks, _, _, _, _, _) => add_unique(acc, span_text(src, ks)),
            _ => acc,
        };
        assignment_keys(src, es, k + 1, acc2)
    } else {
        acc
    }
}

/// The key `k`, compared without regard to ASCII case, is `w` (lower case).
pub open spec fn key_is(k: Seq<char>, w: Seq<char>) -> bool {
    lower_seq(k) == w
}

/// One entry of a portrait block: a continent's `name`, the presence of
/// the `male`, `female`, `army`, `navy`, `operative`, `scientist` and
/// `political` sub-blocks, and the ideologies listed under `political`.
pub open spec fn flags_step(src: Seq<char>, e: EntryModel, is_continent: bool, f: PortraitFlags) -> PortraitFlags {
    match e {
        EntryModel::Assignment(ks, _, _, _, v, _) => {
            let k = span_text(src, ks);
            if key_is(k, "name"@) && is_continent {
                match v {
                    ValueModel::String(s) => PortraitFlags { continent_name: Some(span_text(src, s)), ..f },
                    _ => f,
                }
            } else if key_is(k, "male"@) {
                PortraitFlags { male: true, ..f }
            } else if key_is(k, "female"@) {
                PortraitFlags { female: true, ..f }
            } else if key_is(k, "army"@) {
                PortraitFlags { army: true, ..f }
            } else if key_is(k, "navy"@) {
                PortraitFlags { navy: true, ..f }
            } else if key_is(k, "operative"@) {
                PortraitFlags { operative: true, ..f }
            } else if key_is(k, "scientist"@) {
                PortraitFlags { scientist: true, ..f }
            } else if key_is(k, "political"@) {
                match v {
                    ValueModel::Block(pes) => PortraitFlags {
                        political: true,
                        ideologies: assignment_keys(src, pes, 0, f.ideologies),
                        ..f
                    },
                    _ => PortraitFlags { political: true, ..f },
                }
            } else {
                f
            }
        },
        _ => f,
    }
}

pub open spec fn flags_from(src: Seq<char>, es: Seq<EntryModel>, k: int, is_continent: bool, f: PortraitFlags) -> PortraitFlags
    decreases es.len() - k,
{
    if 0 <= k < es.len() {
        flags_from(src, es, k + 1, is_continent, flags_step(src, es[k], is_continent, f))
    } else {
        f
    }
}

/// The portrait that a top-level entry defines: an assignment whose value
/// is a block.  A `continent` block is named by its `name` (else by its
/// key), others by their key; `default` is the default block.
pub open spec fn portrait_of(src: Seq<char>, e: EntryModel, path: Seq<char>) -> Option<PortraitModel> {
    match e {
        EntryModel::Assignment(ks, kr, _, _, ValueModel::Block(inner), _) => {
            let key = span_text(src, ks);
            let is_continent = key_is(key, "continent"@);
            let f = flags_from(src, inner, 0, is_continent, no_flags());
            let name = if is_continent {
                match f.continent_name {
                    Some(c) => c,
                    None => key,
                }
            } else {
                key
            };
            let block_type = if is_continent {
                PortraitBlockType::Continent
            } else if key_is(key, "default"@) {
                PortraitBlockType::Default
            } else {
                PortraitBlockType::Tag
            };
            Some(PortraitModel {
                name,
                block_type,
                continent_name: f.continent_name,
                has_male: f.male,
                has_female: f.female,
                has_army: f.army,
                has_navy: f.navy,
                has_political: f.political,
                has_operative: f.operative,
                has_scientist: f.scientist,
                ideologies: f.ideologies,
                gfx_entries: gfx_refs(src, inner, Seq::empty()),
                path,
                range: kr,
            })
        },
        _ => None,
    }
}

/// Index of the portrait named `n` in `m`, from `i` on.
pub open spec fn portrait_index(m: Seq<PortraitModel>, n: Seq<char>, i: int) -> Option<int>
    decreases m.len() - i,
{
    if 0 <= i < m.len() {
        if m[i].name == n {
            Some(i)
        } else {
            portrait_index(m, n, i + 1)
        }
    } else {
        None
    }
}

/// A map insertion by name: the portrait replaces the one with its name,
/// or comes last.
pub open spec fn insert_portrait(m: Seq<PortraitModel>, p: PortraitModel) -> Seq<PortraitModel> {
    match portrait_index(m, p.name, 0) {
        Some(i) => m.update(i, p),
        None => m.push(p),
    }
}

/// The portraits of the entries from index `k` on, inserted into `m`.
pub open spec fn extract_from(src: Seq<char>, es: Seq<EntryModel>, k: int, path: Seq<char>, m: Seq<PortraitModel>) -> Seq<PortraitModel>
    decreases es.len() - k,
{
    if 0 <= k < es.len() {
        let m2 = match portrait_of(src, es[k], path) {
            Some(p) => insert_portrait(m, p),
            None => m,
        };
        extract_from(src, es, k + 1, path, m2)
    } else {
        m
    }
}

} // verus!

verus! {

/// What the entries of a portrait block provide, as found so far.
struct Flags {
    continent_name: Option<String>,
    male: bool,
    female: bool,
    army: bool,
    navy: bool,
    political: bool,
    operative: bool,
    scientist: bool,
    ideologies: Vec<String>,
}

spec fn flags_view(f: Flags) -> PortraitFlags {
    PortraitFlags {
        continent_name: match f.continent_name {
            Some(c) => Some(c@),
            None => None,
        },
        male: f.male,
        female: f.female,
        army: f.army,
        navy: f.navy,
        political: f.political,
        operative: f.operative,
        scientist: f.scientist,
        ideologies: strings_view(f.ideologies@),
    }
}

/// Adds the keys of the assignments among `es` to `keys`, each once.
fn add_assignment_keys(es: &Vec<Entry>, source: &str, keys: &mut Vec<String>)
    requires
        forall|k: int| 0 <= k < es@.len() ==> entry_fits(#[trigger] es@[k], source.spec_bytes()),
    ensures
        strings_view(final(keys)@) == assignment_keys(source@, entries_model(es@), 0, strings_view(old(keys)@)),
{
    let ghost em = entries_model(es@);
    proof {
        lemma_entries_model(es@);
    }
    let mut j: usize = 0;
    while j < es.len()
        invariant
            j <= es@.len(),
            em == entries_model(es@),
            em.len() == es@.len(),
            forall|i: int| 0 <= i < es@.len() ==> #[trigger] em[i] == entry_model(es@[i]),
            forall|i: int| 0 <= i < es@.len() ==> entry_fits(#[trigger] es@[i], source.spec_bytes()),
            assignment_keys(source@, em, 0, strings_view(old(keys)@)) == assignment_keys(
                source@,
                em,
                j as int,
                strings_view(keys@),
            ),
        decreases es@.len() - j,
    {
        assert(em[j as int] == entry_model(es@[j as int]));
        if let Entry::Assignment(a) = &es[j] {
            let key = span_chars(&a.key, source);
            push_unique(keys, string_from(&key));
        }
        j += 1;
    }
}

/// Reads the entries of a portrait block.
fn flags_of(inner: &Vec<Entry>, source: &str, is_continent: bool) -> (f: Flags)
    requires
        forall|k: int| 0 <= k < inner@.len() ==> entry_fits(#[trigger] inner@[k], source.spec_bytes()),
    ensures
        flags_view(f) == flags_from(source@, entries_model(inner@), 0, is_continent, no_flags()),
{
    let ghost em = entries_model(inner@);
    proof {
        lemma_entries_model(inner@);
    }
    let mut f = Flags {
        continent_name: None,
        male: false,
        female: false,
        army: false,
        navy: false,
        political: false,
        operative: false,
        scientist: false,
        ideologies: Vec::new(),
    };
    assert(flags_view(f).ideologies =~= Seq::<Seq<char>>::empty());
    let mut k: usize = 0;
    while k < inner.len()
        invariant
            k <= inner@.len(),
            em == entries_model(inner@),
            em.len() == inner@.len(),
            forall|i: int| 0 <= i < inner@.len() ==> #[trigger] em[i] == entry_model(inner@[i]),
            forall|i: int| 0 <= i < inner@.len() ==> entry_fits(#[trigger] inner@[i], source.spec_bytes()),
            flags_from(source@, em, 0, is_continent, no_flags()) == flags_from(
                source@,
                em,
                k as int,
                is_continent,
                flags_view(f),
            ),
        decreases inner@.len() - k,
    {
        assert(em[k as int] == entry_model(inner@[k as int]));
        let ghost before = flags_view(f);
        if let Entry::Assignment(a) = &inner[k] {
            let key = span_chars(&a.key, source);
            let low = crate::rules::lower_chars(&key);
            if spells(&low, "name") && is_continent {
                if let Value::String(s) = &a.value.value {
                    let t = span_chars(s, source);
                    f.continent_name = Some(string_from(&t));
                }
            } else if spells(&low, "male") {
                f.male = true;
            } else if spells(&low, "female") {
                f.female = true;
            } else if spells(&low, "army") {
                f.army = true;
            } else if spells(&low, "navy") {
                f.navy = true;
            } else if spells(&low, "operative") {
                f.operative = true;
            } else if spells(&low, "scientist") {
                f.scientist = true;
            } else if spells(&low, "political") {
                f.political = true;
                if let Value::Block(pes) = &a.value.value {
                    add_assignment_keys(pes, source, &mut f.ideologies);
                }
            }
        }
        assert(flags_view(f) == flags_step(source@, em[k as int], is_continent, before));
        k += 1;
    }
    f
}

/// Inserts `p` into `map`, replacing the portrait with its name.
fn insert_portrait_into(map: &mut Vec<Portrait>, p: Portrait)
    ensures
        portraits_model(final(map)@) == insert_portrait(portraits_model(old(map)@), portrait_model(p)),
{
    let ghost m = portraits_model(map@);
    let mut k: usize = 0;
    while k < map.len()
        invariant
            k <= map@.len(),
            m == portraits_model(map@),
            map@ == old(map)@,
            portrait_index(m, p.name@, 0) == portrait_index(m, p.name@, k as int),
        decreases map.len() - k,
    {
        if crate::text::str_is(map[k].name.as_str(), p.name.as_str()) {
            let ghost pm = portrait_model(p);
            map.set(k, p);
            assert(portraits_model(map@) =~= m.update(k as int, pm));
            return;
        }
        k += 1;
    }
    let ghost pm = portrait_model(p);
    map.push(p);
    assert(portraits_model(map@) =~= m.push(pm));
}

/// Records in `map` the portrait blocks among `entries` (assignments whose
/// value is a block), each under its name, replacing an earlier one with
/// the same name.
pub fn extract_portraits(entries: &Vec<Entry>, source: &str, path: &str, map: &mut Vec<Portrait>)
    requires
        forall|k: int| 0 <= k < entries@.len() ==> entry_fits(#[trigger] entries@[k], source.spec_bytes()),
    ensures
        portraits_model(final(map)@) == extract_from(
            source@,
            entries_model(entries@),
            0,
            path@,
            portraits_model(old(map)@),
        ),
{
    let ghost em = entries_model(entries@);
    proof {
        lemma_entries_model(entries@);
    }
    let mut k: usize = 0;
    while k < entries.len()
        invariant
            k <= entries@.len(),
            em == entries_model(entries@),
            em.len() == entries@.len(),
            forall|i: int| 0 <= i < entries@.len() ==> #[trigger] em[i] == entry_model(entries@[i]),
            forall|i: int| 0 <= i < entries@.len() ==> entry_fits(#[trigger] entries@[i], source.spec_bytes()),
            extract_from(source@, em, 0, path@, portraits_model(old(map)@)) == extract_from(
                source@,
                em,
                k as int,
                path@,
                portraits_model(map@),
            ),
        decreases entries@.len() - k,
    {
        assert(em[k as int] == entry_model(entries@[k as int]));
        if let Entry::Assignment(a) = &entries[k] {
            if let Value::Block(inner) = &a.value.value {
                let key = span_chars(&a.key, source);
                let low = crate::rules::lower_chars(&key);
                let is_continent = spells(&low, "continent");
                let f = flags_of(inner, source, is_continent);
                let mut gfx_entries: Vec<String> = Vec::new();
                assert(strings_view(gfx_entries@) =~= Seq::<Seq<char>>::empty());
                collect_gfx_references(inner, source, &mut gfx_entries);
                let name = if is_continent {
                    match &f.continent_name {
                        Some(c) => c.clone(),
                        None => string_from(&key),
                    }
                } else {
                    string_from(&key)
                };
                let block_type = if is_continent {
                    PortraitBlockType::Continent
                } else if spells(&low, "default") {
                    PortraitBlockType::Default
                } else {
                    PortraitBlockType::Tag
                };
                let p = Portrait {
                    name,
                    block_type,
                    continent_name: f.continent_name,
                    has_male: f.male,
                    has_female: f.female,
                    has_army: f.army,
                    has_navy: f.navy,
                    has_political: f.political,
                    has_operative: f.operative,
                    has_scientist: f.scientist,
                    ideologies: f.ideologies,
                    gfx_entries,
                    path: literal(path),
                    range: a.key_range,
                };
                insert_portrait_into(map, p);
            }
        }
        k += 1;
    }
}

} // verus!

verus! {

/// The portraits of the files `fs[k..]` (path, content), inserted into `m`.
pub open spec fn scan_files_from(fs: Seq<(Seq<char>, Seq<char>)>, k: int, m: Seq<PortraitModel>) -> Seq<PortraitModel>
    decreases fs.len() - k,
{
    if 0 <= k < fs.len() {
        let src = strip_bom(fs[k].1);
        scan_files_from(fs, k + 1, extract_from(src, script_at(src, 0).0, 0, fs[k].0, m))
    } else {
        m
    }
}

pub open spec fn files_view(fs: Seq<(String, String)>) -> Seq<(Seq<char>, Seq<char>)> {
    fs.map_values(|f: (String, String)| (f.0@, f.1@))
}

/// Reads the portrait definitions of the given files (path and content,
/// in load order): each file is parsed as a script and its portrait blocks
/// recorded by name, a later block replacing an earlier one.
pub fn scan_portraits(files: &Vec<(String, String)>) -> (r: Vec<Portrait>)
    requires
        forall|k: int| 0 <= k < files@.len() ==> vstd::utf8::encode_utf8((#[trigger] files@[k]).1@).len() <= u32::MAX,
    ensures
        portraits_model(r@) == scan_files_from(files_view(files@), 0, Seq::empty()),
{
    let ghost fs = files_view(files@);
    let mut portraits: Vec<Portrait> = Vec::new();
    assert(portraits_model(portraits@) =~= Seq::<PortraitModel>::empty());
    let mut k: usize = 0;
    while k < files.len()
        invariant
            k <= files@.len(),
            fs == files_view(files@),
            forall|i: int| 0 <= i < files@.len() ==> vstd::utf8::encode_utf8((#[trigger] files@[i]).1@).len() <= u32::MAX,
            scan_files_from(fs, 0, Seq::empty()) == scan_files_from(fs, k as int, portraits_model(portraits@)),
        decreases files@.len() - k,
    {
        let (script, _) = parse_script(files[k].1.as_str());
        extract_portraits(&script.entries, script.source.as_str(), files[k].0.as_str(), &mut portraits);
        k += 1;
    }
    portraits
}

} // verus!

verus! {

/// `r` is `acc` followed by new `GFX_` names, with no name twice when `acc`
/// has none twice.
pub open spec fn extends_with_gfx(acc: Seq<Seq<char>>, r: Seq<Seq<char>>) -> bool {
    &&& r.len() >= acc.len()
    &&& r.subrange(0, acc.len() as int) == acc
    &&& forall|i: int| acc.len() <= i < r.len() ==> is_gfx_name(#[trigger] r[i])
    &&& acc.no_duplicates() ==> r.no_duplicates()
}

proof fn lemma_extends_trans(a: Seq<Seq<char>>, b: Seq<Seq<char>>, c: Seq<Seq<char>>)
    requires
        extends_with_gfx(a, b),
        extends_with_gfx(b, c),
    ensures
        extends_with_gfx(a, c),
{
    assert(c.subrange(0, a.len() as int) =~= b.subrange(0, a.len() as int)) by {
        assert forall|i: int| 0 <= i < a.len() implies c.subrange(0, a.len() as int)[i] == b.subrange(0, a.len() as int)[i] by {
            assert(c.subrange(0, b.len() as int)[i] == b[i]);
        }
    }
    assert forall|i: int| a.len() <= i < c.len() implies is_gfx_name(#[trigger] c[i]) by {
        if i < b.len() {
            assert(c.subrange(0, b.len() as int)[i] == b[i]);
        }
    }
}

proof fn lemma_extends_refl(a: Seq<Seq<char>>)
    ensures
        extends_with_gfx(a, a),
{
    assert(a.subrange(0, a.len() as int) =~= a);
}

proof fn lemma_gfx_refs_extend(src: Seq<char>, es: Seq<EntryModel>, acc: Seq<Seq<char>>)
    ensures
        extends_with_gfx(acc, gfx_refs(src, es, acc)),
    decreases es, 2int,
{
    if es.len() == 0 {
        lemma_extends_refl(acc);
    } else {
        lemma_gfx_entry_extend(src, es[0], acc);
        let a1 = gfx_entry(src, es[0], acc);
        lemma_gfx_refs_extend(src, es.drop_first(), a1);
        lemma_extends_trans(acc, a1, gfx_refs(src, es.drop_first(), a1));
    }
}

proof fn lemma_gfx_entry_extend(src: Seq<char>, e: EntryModel, acc: Seq<Seq<char>>)
    ensures
        extends_with_gfx(acc, gfx_entry(src, e, acc)),
    decreases e, 1int,
{
    match e {
        EntryModel::Assignment(_, _, _, _, v, _) => lemma_gfx_value_extend(src, v, acc),
        EntryModel::Value(v, _) => lemma_gfx_value_extend(src, v, acc),
        EntryModel::Comment(_, _) => lemma_extends_refl(acc),
    }
}

proof fn lemma_gfx_value_extend(src: Seq<char>, v: ValueModel, acc: Seq<Seq<char>>)
    ensures
        extends_with_gfx(acc, gfx_value(src, v, acc)),
    decreases v, 0int,
{
    match v {
        ValueModel::String(s) => {
            let t = span_text(src, s);
            if is_gfx_name(t) && !acc.contains(t) {
                let r = acc.push(t);
                assert(r.subrange(0, acc.len() as int) =~= acc);
                assert(r[acc.len() as int] == t);
                if acc.no_duplicates() {
                    assert forall|i: int, j: int| 0 <= i < r.len() && 0 <= j < r.len() && i != j implies r[i] != r[j] by {
                        if i < acc.len() && j < acc.len() {
                        } else if i < acc.len() {
                            assert(acc.contains(acc[i]));
                        } else if j < acc.len() {
                            assert(acc.contains(acc[j]));
                        }
                    }
                }
            } else {
                lemma_extends_refl(acc);
            }
        },
        ValueModel::Block(inner) => lemma_gfx_refs_extend(src, inner, acc),
        ValueModel::TaggedBlock(_, inner, _) => lemma_gfx_refs_extend(src, inner, acc),
        _ => lemma_extends_refl(acc),
    }
}

/// Collecting `GFX_` references only appends: the list it starts from stays
/// in front, every added item is a `GFX_` name, and a list without repeats
/// stays without repeats.
pub proof fn law_gfx_references_append_new_names(src: Seq<char>, es: Seq<EntryModel>, acc: Seq<Seq<char>>)
    ensures
        extends_with_gfx(acc, gfx_refs(src, es, acc)),
{
    lemma_gfx_refs_extend(src, es, acc);
}

/// Every `GFX_...` value among the entries, depth first through blocks, with
/// repeats.
pub open spec fn all_gfx(src: Seq<char>, es: Seq<EntryModel>) -> Seq<Seq<char>>
    decreases es,
{
    if es.len() == 0 {
        Seq::empty()
    } else {
        all_gfx_entry(src, es[0]) + all_gfx(src, es.drop_first())
    }
}

pub open spec fn all_gfx_entry(src: Seq<char>, e: EntryModel) -> Seq<Seq<char>>
    decreases e,
{
    match e {
        EntryModel::Assignment(_, _, _, _, v, _) => all_gfx_value(src, v),
        EntryModel::Value(v, _) => all_gfx_value(src, v),
        EntryModel::Comment(_, _) => Seq::empty(),
    }
}

pub open spec fn all_gfx_value(src: Seq<char>, v: ValueModel) -> Seq<Seq<char>>
    decreases v,
{
    match v {
        ValueModel::String(s) => if is_gfx_name(span_text(src, s)) {
            seq![span_text(src, s)]
        } else {
            Seq::empty()
        },
        ValueModel::Block(inner) => all_gfx(src, inner),
        ValueModel::TaggedBlock(_, inner, _) => all_gfx(src, inner),
        _ => Seq::empty(),
    }
}

/// `acc` with each of `xs`, in order, added unless already there.
pub open spec fn add_all(acc: Seq<Seq<char>>, xs: Seq<Seq<char>>) -> Seq<Seq<char>>
    decreases xs.len(),
{
    if xs.len() == 0 {
        acc
    } else {
        add_all(add_unique(acc, xs[0]), xs.drop_first())
    }
}

proof fn lemma_add_all_concat(acc: Seq<Seq<char>>, xs: Seq<Seq<char>>, ys: Seq<Seq<char>>)
    ensures
        add_all(acc, xs + ys) == add_all(add_all(acc, xs), ys),
    decreases xs.len(),
{
    if xs.len() == 0 {
        assert(xs + ys =~= ys);
    } else {
        assert((xs + ys).drop_first() =~= xs.drop_first() + ys);
        assert((xs + ys)[0] == xs[0]);
        lemma_add_all_concat(add_unique(acc, xs[0]), xs.drop_first(), ys);
    }
}

proof fn lemma_refs_add_all(src: Seq<char>, es: Seq<EntryModel>, acc: Seq<Seq<char>>)
    ensures
        gfx_refs(src, es, acc) == add_all(acc, all_gfx(src, es)),
    decreases es, 2int,
{
    if es.len() > 0 {
        lemma_entry_add_all(src, es[0], acc);
        lemma_refs_add_all(src, es.drop_first(), gfx_entry(src, es[0], acc));
        lemma_add_all_concat(acc, all_gfx_entry(src, es[0]), all_gfx(src, es.drop_first()));
    }
}

proof fn lemma_entry_add_all(src: Seq<char>, e: EntryModel, acc: Seq<Seq<char>>)
    ensures
        gfx_entry(src, e, acc) == add_all(acc, all_gfx_entry(src, e)),
    decreases e, 1int,
{
    match e {
        EntryModel::Assignment(_, _, _, _, v, _) => lemma_value_add_all(src, v, acc),
        EntryModel::Value(v, _) => lemma_value_add_all(src, v, acc),
        EntryModel::Comment(_, _) => {},
    }
}

proof fn lemma_value_add_all(src: Seq<char>, v: ValueModel, acc: Seq<Seq<char>>)
    ensures
        gfx_value(src, v, acc) == add_all(acc, all_gfx_value(src, v)),
    decreases v, 0int,
{
    match v {
        ValueModel::String(s) => {
            if is_gfx_name(span_text(src, s)) {
                let xs = seq![span_text(src, s)];
                assert(xs.drop_first() =~= Seq::<Seq<char>>::empty());
                assert(add_all(add_unique(acc, xs[0]), Seq::<Seq<char>>::empty()) == add_unique(acc, xs[0]));
                assert(add_all(acc, xs) == add_all(add_unique(acc, xs[0]), xs.drop_first()));
            }
        },
        ValueModel::Block(inner) => lemma_refs_add_all(src, inner, acc),
        ValueModel::TaggedBlock(_, inner, _) => lemma_refs_add_all(src, inner, acc),
        _ => {},
    }
}

proof fn lemma_add_all_members(acc: Seq<Seq<char>>, xs: Seq<Seq<char>>)
    ensures
        add_all(acc, xs).len() >= acc.len(),
        add_all(acc, xs).subrange(0, acc.len() as int) == acc,
        forall|x: Seq<char>| xs.contains(x) || acc.contains(x) ==> add_all(acc, xs).contains(x),
        forall|i: int| acc.len() <= i < add_all(acc, xs).len() ==> xs.contains(#[trigger] add_all(acc, xs)[i])
            && !acc.contains(add_all(acc, xs)[i]),
    decreases xs.len(),
{
    let r = add_all(acc, xs);
    if xs.len() == 0 {
        assert(r.subrange(0, acc.len() as int) =~= acc);
    } else {
        let a1 = add_unique(acc, xs[0]);
        lemma_add_all_members(a1, xs.drop_first());
        assert(a1.subrange(0, acc.len() as int) =~= acc);
        assert(r.subrange(0, acc.len() as int) =~= acc) by {
            assert forall|k: int| 0 <= k < acc.len() implies r.subrange(0, acc.len() as int)[k] == acc[k] by {
                assert(r.subrange(0, a1.len() as int)[k] == a1[k]);
            }
        }
        assert forall|x: Seq<char>| xs.contains(x) || acc.contains(x) implies r.contains(x) by {
            if acc.contains(x) {
                let k = choose|k: int| 0 <= k < acc.len() && acc[k] == x;
                assert(a1[k] == x);
                assert(a1.contains(x));
            } else if x == xs[0] {
                assert(a1.contains(x)) by {
                    if !acc.contains(x) {
                        assert(a1[acc.len() as int] == x);
                    }
                }
            } else {
                let k = choose|k: int| 0 <= k < xs.len() && xs[k] == x;
                assert(xs.drop_first()[k - 1] == x);
                assert(xs.drop_first().contains(x));
            }
        }
        assert forall|i: int| acc.len() <= i < r.len() implies xs.contains(#[trigger] r[i]) && !acc.contains(r[i]) by {
            if i < a1.len() {
                assert(r.subrange(0, a1.len() as int)[i] == a1[i]);
                assert(a1.len() == acc.len() + 1 && a1[i] == xs[0]);
                assert(xs[0] == xs[0]);
            } else {
                let x = r[i];
                assert(xs.drop_first().contains(x));
                let k = choose|k: int| 0 <= k < xs.drop_first().len() && xs.drop_first()[k] == x;
                assert(xs[k + 1] == x);
                assert(!a1.contains(x));
                if acc.contains(x) {
                    let m = choose|m: int| 0 <= m < acc.len() && acc[m] == x;
                    assert(a1[m] == x);
                }
            }
        }
    }
}

/// Collecting `GFX_` references adds, to the list it starts from, each
/// `GFX_...` value met depth first through the entries and blocks, in that
/// order, unless it is already there: every such value ends up in the list,
/// and every item added is such a value that was not in the list before.
pub proof fn law_gfx_references_are_new_names_in_order(src: Seq<char>, es: Seq<EntryModel>, acc: Seq<Seq<char>>)
    ensures
        ({
            let r = gfx_refs(src, es, acc);
            let all = all_gfx(src, es);
            &&& r == add_all(acc, all)
            &&& r.subrange(0, acc.len() as int) == acc
            &&& forall|x: Seq<char>| all.contains(x) ==> r.contains(x)
            &&& forall|i: int| acc.len() <= i < r.len() ==> all.contains(#[trigger] r[i]) && !acc.contains(r[i])
        }),
{
    lemma_refs_add_all(src, es, acc);
    lemma_add_all_members(acc, all_gfx(src, es));
}

} // verus!
