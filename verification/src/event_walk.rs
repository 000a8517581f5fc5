//! The walk of an event file: `add_namespace` declarations in document
//! order, the events defined (top-level `country_event = { … }` blocks in an
//! `events/` file) and called (nested ones, or any outside `events/`), their
//! options, and the findings: calls to events that no file defines, the
//! checks of finished options and events, the ids of top-level definitions
//! (their number and namespace), and event ids defined twice in one file.
use vstd::prelude::*;
use vstd::string::*;
use crate::ast::{Range, Assignment, Entry, Value, span_text, span_chars, entry_fits, value_fits};
use crate::script::{EntryModel, ValueModel, entries_model, entry_model, value_model};
use crate::numtext::lower_seq;
use crate::rules::{lower_chars, spells};
use crate::gfx::value_text;
use crate::portraits::{strings_view, lemma_entries_model};
use crate::ai_visibility::{option_hidden_from_ai, triggers_view, evaluate_option_trigger_ai_visibility};
use crate::events::{EventDef, EventDefModel, EventOptionDef, event_model, opt_view, event_findings, option_findings,
    starts_gfx, validate_event, validate_option};
use crate::findings::{RuleSeverity, RuleCode, RuleDiagnostic, RuleDiagModel, rule_diag_model, diags_model};
use crate::text::{chars_of, chars_equal, append_str, push_chars};
use crate::event_ids::{NamespaceContext, NamespaceDeclModel, event_id_findings, decls_view, opt_text, check_event_id};

verus! {

pub open spec fn event_type_key(k: Seq<char>) -> bool {
    k == "country_event"@ || k == "state_event"@ || k == "news_event"@ || k == "unit_leader_event"@
        || k == "operative_leader_event"@
}

/// The id in `id = …` among the entries: the first assignment with key
/// `id` whose value is a string.
pub open spec fn first_id(src: Seq<char>, es: Seq<EntryModel>) -> Option<Seq<char>>
    decreases es.len(),
{
    if es.len() == 0 {
        None
    } else {
        match es[0] {
            EntryModel::Assignment(k, _, _, _, v, _) => if span_text(src, k) == "id"@ && value_text(src, v) is Some {
                value_text(src, v)
            } else {
                first_id(src, es.drop_first())
            },
            _ => first_id(src, es.drop_first()),
        }
    }
}

/// The event an event-type assignment names: its string value, or the id
/// inside its block.
pub open spec fn target_id(src: Seq<char>, v: ValueModel) -> Option<Seq<char>> {
    match v {
        ValueModel::String(s) => Some(span_text(src, s)),
        ValueModel::QuotedString(t) => Some(t),
        ValueModel::Block(es) => first_id(src, es),
        _ => None,
    }
}

/// `yes` given as a boolean or as text.
pub open spec fn yes_value(src: Seq<char>, v: ValueModel) -> bool {
    match v {
        ValueModel::Boolean(b) => b,
        _ => value_text(src, v) == Some("yes"@),
    }
}

pub struct EventWalkState {
    pub namespaces: Seq<Seq<char>>,
    pub events: Seq<EventDefModel>,
    pub options: Seq<EventOptionDef>,
    pub depth: u32,
    pub seen_ids: Seq<Seq<char>>,
}

/// Where the walk of an event file is.
pub struct EventWalk {
    /// The namespaces declared so far, in lower case.
    pub seen_namespaces: Vec<String>,
    /// The events being read, innermost last.
    pub event_stack: Vec<EventDef>,
    /// The options being read, innermost last.
    pub option_stack: Vec<EventOptionDef>,
    /// How many event blocks the walk is in.
    pub event_depth: u32,
    /// The ids of the events defined so far, in lower case.
    pub seen_event_ids: Vec<String>,
}

pub open spec fn events_view(v: Seq<EventDef>) -> Seq<EventDefModel> {
    v.map_values(|e: EventDef| event_model(e))
}

impl View for EventWalk {
    type V = EventWalkState;

    open spec fn view(&self) -> EventWalkState {
        EventWalkState {
            namespaces: strings_view(self.seen_namespaces@),
            events: events_view(self.event_stack@),
            options: self.option_stack@,
            depth: self.event_depth,
            seen_ids: strings_view(self.seen_event_ids@),
        }
    }
}

pub open spec fn new_event(kr: Range, is_call: bool) -> EventDefModel {
    EventDefModel {
        key_range: kr,
        has_title: false,
        has_desc: false,
        has_picture: false,
        is_hidden: false,
        has_mtth: false,
        has_is_triggered_only: false,
        is_call,
        has_option: false,
        option_count: 0,
        options_missing_ai_chance: 0,
        ai_visible_option_count: 0,
        last_missing_ai_chance_range: None,
        title_range: None,
        desc_range: None,
        picture_range: None,
        title_key: None,
        desc_key: None,
        picture_sprite: None,
        id: None,
        id_range: None,
    }
}

/// The key that a `title`/`desc` value names: the unquoted text only.
pub open spec fn bare_key(src: Seq<char>, v: ValueModel, old_key: Option<Seq<char>>) -> Option<Seq<char>> {
    match v {
        ValueModel::String(s) => Some(span_text(src, s)),
        _ => old_key,
    }
}

/// The sprite that a `picture` value names, when it starts with `GFX_`.
pub open spec fn gfx_sprite(src: Seq<char>, v: ValueModel, old_sprite: Option<Seq<char>>) -> Option<Seq<char>> {
    match value_text(src, v) {
        Some(s) => if starts_gfx(s) {
            Some(s)
        } else {
            old_sprite
        },
        None => old_sprite,
    }
}

/// What an assignment with the lower-case key `kl` records on the event.
pub open spec fn named_prop(e: EventDefModel, kl: Seq<char>, kr: Range, v: ValueModel, vr: Range, src: Seq<char>) -> EventDefModel {
    if kl == "title"@ {
        EventDefModel { has_title: true, title_range: Some(kr), title_key: bare_key(src, v, e.title_key), ..e }
    } else if kl == "desc"@ {
        EventDefModel { has_desc: true, desc_range: Some(kr), desc_key: bare_key(src, v, e.desc_key), ..e }
    } else if kl == "picture"@ {
        EventDefModel { has_picture: true, picture_range: Some(kr), picture_sprite: gfx_sprite(src, v, e.picture_sprite), ..e }
    } else if kl == "hidden"@ {
        EventDefModel { is_hidden: yes_value(src, v), ..e }
    } else if kl == "id"@ {
        match value_text(src, v) {
            Some(s) => EventDefModel { id: Some(s), id_range: Some(vr), ..e },
            None => e,
        }
    } else {
        e
    }
}

/// What `is_triggered_only` and `mean_time_to_happen` (exact keys) record.
pub open spec fn flag_prop(e: EventDefModel, key: Seq<char>, v: ValueModel, src: Seq<char>) -> EventDefModel {
    if key == "is_triggered_only"@ {
        EventDefModel { has_is_triggered_only: yes_value(src, v), ..e }
    } else if key == "mean_time_to_happen"@ && v is Block {
        EventDefModel { has_mtth: true, ..e }
    } else {
        e
    }
}

/// What an assignment at event level records on the event.
pub open spec fn event_props(e: EventDefModel, key: Seq<char>, kr: Range, v: ValueModel, vr: Range, src: Seq<char>) -> EventDefModel {
    flag_prop(named_prop(e, lower_seq(key), kr, v, vr, src), key, v, src)
}

pub open spec fn broken_reference(r: Range, id: Seq<char>) -> RuleDiagModel {
    RuleDiagModel {
        range: r,
        severity: RuleSeverity::Warning,
        code: Some(RuleCode::BrokenEventReference),
        message: "Event reference '"@ + id + "' does not match any defined event in the workspace."@,
        data: None,
    }
}

pub open spec fn with_top(st: EventWalkState, e: EventDefModel) -> EventWalkState {
    EventWalkState { events: st.events.drop_last().push(e), ..st }
}

/// `add_namespace = name` records the name in lower case.
pub open spec fn namespace_step(st: EventWalkState, key: Seq<char>, v: ValueModel, src: Seq<char>) -> EventWalkState {
    if key == "add_namespace"@ {
        match value_text(src, v) {
            Some(n) => EventWalkState { namespaces: st.namespaces.push(lower_seq(n)), ..st },
            None => st,
        }
    } else {
        st
    }
}

/// Inside an option, an event-type assignment calls an event: a warning when
/// no event of the workspace has that id.
pub open spec fn reference_findings(
    st: EventWalkState,
    key: Seq<char>,
    kr: Range,
    v: ValueModel,
    src: Seq<char>,
    defined: Seq<Seq<char>>,
) -> Seq<RuleDiagModel> {
    if st.options.len() > 0 && event_type_key(key) {
        match target_id(src, v) {
            Some(id) => if defined.contains(id) {
                Seq::empty()
            } else {
                seq![broken_reference(kr, id)]
            },
            None => Seq::empty(),
        }
    } else {
        Seq::empty()
    }
}

/// Entering an event block: the event is pushed, as a call when nested or
/// outside `events/`.
pub open spec fn event_open_step(st: EventWalkState, kr: Range, in_events_dir: bool) -> EventWalkState {
    EventWalkState {
        events: st.events.push(new_event(kr, st.depth > 0 || !in_events_dir)),
        depth: (st.depth + 1) as u32,
        ..st
    }
}

/// Entering an event block at the top of the file: the findings on its id
/// (the value of its first `id`), at the range of the block.
pub open spec fn open_findings(
    st: EventWalkState,
    es: Seq<EntryModel>,
    vr: Range,
    src: Seq<char>,
    in_events_dir: bool,
    ds: Seq<NamespaceDeclModel>,
    cur_file: Option<Seq<char>>,
    cur_under_game: bool,
) -> Seq<RuleDiagModel> {
    if st.depth == 0 {
        match first_id(src, es) {
            Some(id) => event_id_findings(id, st.namespaces, in_events_dir, ds, cur_file, cur_under_game, vr),
            None => Seq::empty(),
        }
    } else {
        Seq::empty()
    }
}

/// Outside options, an assignment in an event records its properties.
pub open spec fn props_step(st: EventWalkState, key: Seq<char>, kr: Range, v: ValueModel, vr: Range, src: Seq<char>) -> EventWalkState {
    if st.options.len() == 0 && st.events.len() > 0 {
        with_top(st, event_props(st.events.last(), key, kr, v, vr, src))
    } else {
        st
    }
}

/// `option = { … }` at event level opens an option; inside an option,
/// `name` and `ai_chance = { … }` are recorded on it.
pub open spec fn option_step(st: EventWalkState, key: Seq<char>, kr: Range, v: ValueModel, src: Seq<char>, triggers: Seq<(Seq<char>, bool)>) -> EventWalkState {
    if st.options.len() == 0 && lower_seq(key) == "option"@ && v is Block {
        let st3 = if st.events.len() > 0 {
            let e = st.events.last();
            with_top(st, EventDefModel { has_option: true, option_count: (e.option_count + 1) as u32, ..e })
        } else {
            st
        };
        EventWalkState {
            options: st3.options.push(EventOptionDef {
                key_range: kr,
                has_name: false,
                has_ai_chance: false,
                provably_ai_invisible: option_hidden_from_ai(src, v, triggers),
            }),
            ..st3
        }
    } else if st.options.len() > 0 {
        let o = st.options.last();
        let kl = lower_seq(key);
        let o2 = if kl == "name"@ {
            EventOptionDef { has_name: true, ..o }
        } else if kl == "ai_chance"@ && v is Block {
            EventOptionDef { has_ai_chance: true, ..o }
        } else {
            o
        };
        EventWalkState { options: st.options.drop_last().push(o2), ..st }
    } else {
        st
    }
}

/// Entering `key = v` (key at `kr`, value at `vr`): the next state and the
/// findings.
pub open spec fn event_enter_step(
    st: EventWalkState,
    key: Seq<char>,
    kr: Range,
    v: ValueModel,
    vr: Range,
    src: Seq<char>,
    in_events_dir: bool,
    defined: Seq<Seq<char>>,
    triggers: Seq<(Seq<char>, bool)>,
    ds: Seq<NamespaceDeclModel>,
    cur_file: Option<Seq<char>>,
    cur_under_game: bool,
) -> (EventWalkState, Seq<RuleDiagModel>) {
    let st1 = namespace_step(st, key, v, src);
    let d1 = reference_findings(st1, key, kr, v, src, defined);
    if event_type_key(key) && v is Block {
        (event_open_step(st1, kr, in_events_dir),
            d1 + open_findings(st1, v->Block_0, vr, src, in_events_dir, ds, cur_file, cur_under_game))
    } else if st1.depth == 0 {
        (st1, d1)
    } else {
        (option_step(props_step(st1, key, kr, v, vr, src), key, kr, v, src, triggers), d1)
    }
}
pub open spec fn duplicate_id(r: Range, id: Seq<char>) -> RuleDiagModel {
    RuleDiagModel {
        range: r,
        severity: RuleSeverity::Error,
        code: Some(RuleCode::DuplicateEventId),
        message: "Duplicate event ID '"@ + id
            + "' defined more than once in this file. HOI4 loads only one event per ID; the other definition will never fire. Rename one of them."@,
        data: None,
    }
}

/// Leaving `key = v`: a finished option is counted on its event and
/// checked; a finished event is checked (against the localisation keys
/// `loc` and the sprites), and its id must not repeat one defined before.
pub open spec fn event_exit_step(
    st: EventWalkState,
    key: Seq<char>,
    v: ValueModel,
    loc: Seq<Seq<char>>,
    sprites: Seq<Seq<char>>,
) -> (EventWalkState, Seq<RuleDiagModel>) {
    if st.options.len() > 0 && lower_seq(key) == "option"@ && v is Block {
        let o = st.options.last();
        let st1 = EventWalkState { options: st.options.drop_last(), ..st };
        let st2 = if st1.events.len() > 0 {
            let e = st1.events.last();
            let e1 = if !o.provably_ai_invisible {
                EventDefModel { ai_visible_option_count: (e.ai_visible_option_count + 1) as u32, ..e }
            } else {
                e
            };
            let e2 = if !o.has_ai_chance && !o.provably_ai_invisible {
                EventDefModel {
                    options_missing_ai_chance: (e1.options_missing_ai_chance + 1) as u32,
                    last_missing_ai_chance_range: Some(o.key_range),
                    ..e1
                }
            } else {
                e1
            };
            with_top(st1, e2)
        } else {
            st1
        };
        (st2, option_findings(o))
    } else if st.depth > 0 && event_type_key(key) && v is Block {
        let st1 = EventWalkState { depth: (st.depth - 1) as u32, ..st };
        if st1.events.len() > 0 {
            let e = st1.events.last();
            let st2 = EventWalkState { events: st1.events.drop_last(), ..st1 };
            let d = event_findings(e, loc, sprites);
            match e.id {
                Some(id) => if !e.is_call {
                    if st2.seen_ids.contains(lower_seq(id)) {
                        (st2, d.push(duplicate_id(match e.id_range {
                            Some(r) => r,
                            None => e.key_range,
                        }, id)))
                    } else {
                        (EventWalkState { seen_ids: st2.seen_ids.push(lower_seq(id)), ..st2 }, d)
                    }
                } else {
                    (st2, d)
                },
                None => (st2, d),
            }
        } else {
            (st1, Seq::empty())
        }
    } else {
        (st, Seq::empty())
    }
}

/// The counters of the event being read are below their limit.
pub open spec fn counters_below_max(st: EventWalkState) -> bool {
    st.events.len() > 0 ==> {
        &&& st.events.last().option_count < u32::MAX
        &&& st.events.last().ai_visible_option_count < u32::MAX
        &&& st.events.last().options_missing_ai_chance < u32::MAX
    }
}

/// What the walk of an event file knows besides the file: where the file
/// lies, the events defined in the workspace, the scripted triggers, the
/// namespace declarations with the file's name and origin, the localisation
/// keys and the sprites.
pub struct EventFileContext {
    pub in_events_dir: bool,
    pub defined_events: Vec<String>,
    pub triggers: Vec<(String, bool)>,
    pub namespaces: NamespaceContext,
    pub loc: Vec<String>,
    pub sprites: Vec<String>,
}

pub struct WalkEnv {
    pub src: Seq<char>,
    pub in_events_dir: bool,
    pub defined: Seq<Seq<char>>,
    pub triggers: Seq<(Seq<char>, bool)>,
    pub ds: Seq<NamespaceDeclModel>,
    pub cur_file: Option<Seq<char>>,
    pub cur_under_game: bool,
    pub loc: Seq<Seq<char>>,
    pub sprites: Seq<Seq<char>>,
}

pub open spec fn walk_env(src: Seq<char>, c: EventFileContext) -> WalkEnv {
    WalkEnv {
        src,
        in_events_dir: c.in_events_dir,
        defined: strings_view(c.defined_events@),
        triggers: triggers_view(c.triggers@),
        ds: decls_view(c.namespaces.declarations@),
        cur_file: opt_text(c.namespaces.file_name),
        cur_under_game: c.namespaces.under_game,
        loc: strings_view(c.loc@),
        sprites: strings_view(c.sprites@),
    }
}

/// The walk can take a step without its counters overflowing.
pub open spec fn can_step(st: EventWalkState) -> bool {
    st.depth < u32::MAX && counters_below_max(st)
}

/// The walk of entries in document order.
pub open spec fn walk_es(st: EventWalkState, es: Seq<EntryModel>, env: WalkEnv) -> (EventWalkState, Seq<RuleDiagModel>)
    decreases es,
{
    if es.len() == 0 {
        (st, Seq::empty())
    } else {
        let (st1, d1) = walk_e(st, es[0], env);
        let (st2, d2) = walk_es(st1, es.drop_first(), env);
        (st2, d1 + d2)
    }
}

/// The walk of one entry: an assignment is entered, its block walked, and
/// left; a bare block is walked; a comment is passed over.  A step that
/// would take a counter past `u32::MAX` is not taken.
pub open spec fn walk_e(st: EventWalkState, e: EntryModel, env: WalkEnv) -> (EventWalkState, Seq<RuleDiagModel>)
    decreases e,
{
    match e {
        EntryModel::Assignment(k, kr, _, _, v, vr) => {
            let key = span_text(env.src, k);
            if !can_step(st) {
                (st, Seq::empty())
            } else {
                let (st1, d1) = event_enter_step(st, key, kr, v, vr, env.src, env.in_events_dir, env.defined, env.triggers,
                    env.ds, env.cur_file, env.cur_under_game);
                let (st2, d2) = walk_v(st1, v, env);
                if counters_below_max(st2) {
                    let (st3, d3) = event_exit_step(st2, key, v, env.loc, env.sprites);
                    (st3, d1 + d2 + d3)
                } else {
                    (st2, d1 + d2)
                }
            }
        },
        EntryModel::Value(v, _) => walk_v(st, v, env),
        EntryModel::Comment(_, _) => (st, Seq::empty()),
    }
}

pub open spec fn walk_v(st: EventWalkState, v: ValueModel, env: WalkEnv) -> (EventWalkState, Seq<RuleDiagModel>)
    decreases v,
{
    match v {
        ValueModel::Block(es) => walk_es(st, es, env),
        ValueModel::TaggedBlock(_, es, _) => walk_es(st, es, env),
        _ => (st, Seq::empty()),
    }
}


fn string_of(v: &Vec<char>) -> (s: String)
    ensures
        s@ == v@,
{
    let mut s = String::new();
    push_chars(&mut s, v);
    s
}

pub(crate) fn value_chars(v: &Value, source: &str) -> (r: Option<Vec<char>>)
    requires
        value_fits(*v, source.spec_bytes()),
    ensures
        match r {
            Some(t) => value_text(source@, value_model(*v)) == Some(t@),
            None => value_text(source@, value_model(*v)) is None,
        },
{
    match v {
        Value::String(s) => Some(span_chars(s, source)),
        Value::QuotedString(s) => Some(chars_of(s.as_str())),
        _ => None,
    }
}

pub(crate) fn contains_str(v: &Vec<String>, x: &Vec<char>) -> (r: bool)
    ensures
        r == strings_view(v@).contains(x@),
{
    let ghost sv = strings_view(v@);
    let mut k: usize = 0;
    while k < v.len()
        invariant
            k <= v@.len(),
            sv == strings_view(v@),
            forall|j: int| 0 <= j < k ==> sv[j] != x@,
        decreases v.len() - k,
    {
        if chars_equal(&chars_of(v[k].as_str()), x) {
            assert(sv[k as int] == x@);
            return true;
        }
        k += 1;
    }
    assert(!sv.contains(x@));
    false
}

/// The id in `id = …` among `entries`.
fn find_id(entries: &Vec<Entry>, source: &str) -> (r: Option<Vec<char>>)
    requires
        forall|k: int| 0 <= k < entries@.len() ==> entry_fits(#[trigger] entries@[k], source.spec_bytes()),
    ensures
        match r {
            Some(t) => first_id(source@, entries_model(entries@)) == Some(t@),
            None => first_id(source@, entries_model(entries@)) is None,
        },
{
    let ghost em = entries_model(entries@);
    proof {
        lemma_entries_model(entries@);
        assert(em.skip(0) =~= em);
    }
    let mut k: usize = 0;
    while k < entries.len()
        invariant
            k <= entries@.len(),
            em == entries_model(entries@),
            em.len() == entries@.len(),
            forall|j: int| 0 <= j < entries@.len() ==> #[trigger] em[j] == entry_model(entries@[j]),
            forall|j: int| 0 <= j < entries@.len() ==> entry_fits(#[trigger] entries@[j], source.spec_bytes()),
            first_id(source@, em) == first_id(source@, em.skip(k as int)),
        decreases entries.len() - k,
    {
        assert(em.skip(k as int)[0] == entry_model(entries@[k as int]));
        assert(em.skip(k as int).drop_first() =~= em.skip(k + 1));
        match &entries[k] {
            Entry::Assignment(a) => {
                let key = span_chars(&a.key, source);
                if spells(&key, "id") {
                    match value_chars(&a.value.value, source) {
                        Some(t) => {
                            return Some(t);
                        },
                        None => {},
                    }
                }
            },
            _ => {},
        }
        k += 1;
    }
    assert(em.skip(k as int) =~= Seq::<EntryModel>::empty());
    None
}

fn target_chars(v: &Value, source: &str) -> (r: Option<Vec<char>>)
    requires
        value_fits(*v, source.spec_bytes()),
    ensures
        match r {
            Some(t) => target_id(source@, value_model(*v)) == Some(t@),
            None => target_id(source@, value_model(*v)) is None,
        },
{
    match v {
        Value::String(s) => Some(span_chars(s, source)),
        Value::QuotedString(s) => Some(chars_of(s.as_str())),
        Value::Block(es) => find_id(es, source),
        _ => None,
    }
}

fn yes_of(v: &Value, source: &str) -> (r: bool)
    requires
        value_fits(*v, source.spec_bytes()),
    ensures
        r == yes_value(source@, value_model(*v)),
{
    match v {
        Value::Boolean(b) => *b,
        _ => match value_chars(v, source) {
            Some(t) => spells(&t, "yes"),
            None => false,
        },
    }
}

fn new_event_def(kr: Range, is_call: bool) -> (e: EventDef)
    ensures
        event_model(e) == new_event(kr, is_call),
{
    EventDef {
        key_range: kr,
        has_title: false,
        has_desc: false,
        has_picture: false,
        is_hidden: false,
        has_mtth: false,
        has_is_triggered_only: false,
        is_call,
        has_option: false,
        option_count: 0,
        options_missing_ai_chance: 0,
        ai_visible_option_count: 0,
        last_missing_ai_chance_range: None,
        title_range: None,
        desc_range: None,
        picture_range: None,
        title_key: None,
        desc_key: None,
        picture_sprite: None,
        id: None,
        id_range: None,
    }
}

/// A copy of an optional text.
fn copy_opt(o: &Option<String>) -> (r: Option<String>)
    ensures
        r == *o,
{
    match o {
        Some(s) => Some(s.clone()),
        None => None,
    }
}

/// The unquoted text of `v`, which a `title` or `desc` names as a key.
fn bare_key_of(v: &Value, source: &str, old_key: &Option<String>) -> (r: Option<String>)
    requires
        value_fits(*v, source.spec_bytes()),
    ensures
        opt_view(r) == bare_key(source@, value_model(*v), opt_view(*old_key)),
{
    match v {
        Value::String(s) => Some(string_of(&span_chars(s, source))),
        _ => copy_opt(old_key),
    }
}

/// The `GFX_` sprite that `v` names, or the one recorded before.
fn gfx_sprite_of(v: &Value, source: &str, old_sprite: &Option<String>) -> (r: Option<String>)
    requires
        value_fits(*v, source.spec_bytes()),
    ensures
        opt_view(r) == gfx_sprite(source@, value_model(*v), opt_view(*old_sprite)),
{
    match value_chars(v, source) {
        Some(t) => {
            proof {
                reveal_strlit("GFX_");
            }
            let gfx = t.len() >= 4 && t[0] == 'G' && t[1] == 'F' && t[2] == 'X' && t[3] == '_';
            assert(gfx == starts_gfx(t@)) by {
                if t@.len() >= 4 {
                    if t@.subrange(0, 4) == "GFX_"@ {
                        assert(t@.subrange(0, 4)[0] == 'G' && t@.subrange(0, 4)[1] == 'F');
                        assert(t@.subrange(0, 4)[2] == 'X' && t@.subrange(0, 4)[3] == '_');
                    }
                    if gfx {
                        assert(t@.subrange(0, 4) =~= "GFX_"@);
                    }
                }
            }
            if gfx {
                Some(string_of(&t))
            } else {
                copy_opt(old_sprite)
            }
        },
        None => copy_opt(old_sprite),
    }
}

/// Records on `e` what an assignment with the lower-case key `kl` names.
fn record_named(e: &mut EventDef, a: &Assignment, kl: &Vec<char>, source: &str)
    requires
        value_fits(a.value.value, source.spec_bytes()),
    ensures
        event_model(*final(e)) == named_prop(event_model(*old(e)), kl@, a.key_range, value_model(a.value.value), a.value.range, source@),
{
    let v = &a.value.value;
    if spells(kl, "title") {
        let k = bare_key_of(v, source, &e.title_key);
        e.has_title = true;
        e.title_range = Some(a.key_range);
        e.title_key = k;
    } else if spells(kl, "desc") {
        let k = bare_key_of(v, source, &e.desc_key);
        e.has_desc = true;
        e.desc_range = Some(a.key_range);
        e.desc_key = k;
    } else if spells(kl, "picture") {
        let s = gfx_sprite_of(v, source, &e.picture_sprite);
        e.has_picture = true;
        e.picture_range = Some(a.key_range);
        e.picture_sprite = s;
    } else if spells(kl, "hidden") {
        e.is_hidden = yes_of(v, source);
    } else if spells(kl, "id") {
        match value_chars(v, source) {
            Some(t) => {
                e.id = Some(string_of(&t));
                e.id_range = Some(a.value.range);
            },
            None => {},
        }
    }
}

/// Records on `e` the flags that `is_triggered_only` and
/// `mean_time_to_happen` set.
fn record_flags(e: &mut EventDef, v: &Value, key: &Vec<char>, source: &str)
    requires
        value_fits(*v, source.spec_bytes()),
    ensures
        event_model(*final(e)) == flag_prop(event_model(*old(e)), key@, value_model(*v), source@),
{
    if spells(key, "is_triggered_only") {
        e.has_is_triggered_only = yes_of(v, source);
    } else if spells(key, "mean_time_to_happen") {
        match v {
            Value::Block(_) => {
                e.has_mtth = true;
            },
            _ => {},
        }
    }
}

/// Records an event-level assignment on the event `e`.
fn record_props(e: &mut EventDef, a: &Assignment, key: &Vec<char>, source: &str)
    requires
        value_fits(a.value.value, source.spec_bytes()),
    ensures
        event_model(*final(e)) == event_props(event_model(*old(e)), key@, a.key_range, value_model(a.value.value), a.value.range, source@),
{
    let kl = lower_chars(key);
    record_named(e, a, &kl, source);
    record_flags(e, &a.value.value, key, source);
}
impl EventWalk {
    /// A walk that has seen nothing yet.
    pub fn new() -> (r: Self)
        ensures
            r@ == initial_walk(),
    {
        let r = EventWalk {
            seen_namespaces: Vec::new(),
            event_stack: Vec::new(),
            option_stack: Vec::new(),
            event_depth: 0,
            seen_event_ids: Vec::new(),
        };
        assert(r@.namespaces =~= Seq::<Seq<char>>::empty());
        assert(r@.events =~= Seq::<EventDefModel>::empty());
        assert(r@.seen_ids =~= Seq::<Seq<char>>::empty());
        r
    }

    /// Whether the walk is inside an option.
    pub fn in_option(&self) -> (r: bool)
        ensures
            r == (self@.options.len() > 0),
    {
        self.option_stack.len() > 0
    }

    /// `add_namespace = name` records the name.
    fn note_namespace(&mut self, key: &Vec<char>, v: &Value, source: &str)
        requires
            value_fits(*v, source.spec_bytes()),
        ensures
            final(self)@ == namespace_step(old(self)@, key@, value_model(*v), source@),
    {
        if spells(key, "add_namespace") {
            match value_chars(v, source) {
                Some(n) => {
                    let ghost before = self.seen_namespaces@;
                    self.seen_namespaces.push(string_of(&lower_chars(&n)));
                    assert(strings_view(self.seen_namespaces@) =~= strings_view(before).push(lower_seq(n@)));
                },
                None => {},
            }
        }
    }

    /// The warning for a call, inside an option, to an event that no file
    /// of the workspace defines.
    fn check_reference(&self, key: &Vec<char>, a: &Assignment, source: &str, defined_events: &Vec<String>) -> (r: Vec<RuleDiagnostic>)
        requires
            value_fits(a.value.value, source.spec_bytes()),
        ensures
            diags_model(r@) == reference_findings(self@, key@, a.key_range, value_model(a.value.value), source@, strings_view(defined_events@)),
    {
        let mut out: Vec<RuleDiagnostic> = Vec::new();
        assert(diags_model(out@) =~= Seq::<RuleDiagModel>::empty());
        let event_type = spells(key, "country_event") || spells(key, "state_event") || spells(key, "news_event")
            || spells(key, "unit_leader_event") || spells(key, "operative_leader_event");
        if self.option_stack.len() > 0 && event_type {
            match target_chars(&a.value.value, source) {
                Some(id) => {
                    if !contains_str(defined_events, &id) {
                        let mut m = String::new();
                        append_str(&mut m, "Event reference '");
                        push_chars(&mut m, &id);
                        append_str(&mut m, "' does not match any defined event in the workspace.");
                        let d = RuleDiagnostic { range: a.key_range, severity: RuleSeverity::Warning, code: Some(RuleCode::BrokenEventReference), message: m, data: None };
                        out.push(d);
                        assert(diags_model(out@) =~= seq![rule_diag_model(d)]);
                    }
                },
                None => {},
            }
        }
        out
    }

    /// The findings on the id of an event block at the top of the file.
    fn check_open(&self, a: &Assignment, es: &Vec<Entry>, source: &str, in_events_dir: bool, namespaces: &NamespaceContext) -> (r: Vec<RuleDiagnostic>)
        requires
            forall|k: int| 0 <= k < es@.len() ==> entry_fits(#[trigger] es@[k], source.spec_bytes()),
        ensures
            diags_model(r@) == open_findings(self@, entries_model(es@), a.value.range, source@, in_events_dir,
                decls_view(namespaces.declarations@), opt_text(namespaces.file_name), namespaces.under_game),
    {
        if self.event_depth == 0 {
            match find_id(es, source) {
                Some(id) => {
                    let ids = string_of(&id);
                    return check_event_id(ids.as_str(), &self.seen_namespaces, in_events_dir, &namespaces.declarations,
                        &namespaces.file_name, namespaces.under_game, a.value.range);
                },
                None => {},
            }
        }
        let out: Vec<RuleDiagnostic> = Vec::new();
        assert(diags_model(out@) =~= Seq::<RuleDiagModel>::empty());
        out
    }

    /// Enters an event block.
    fn open_event(&mut self, a: &Assignment, in_events_dir: bool)
        requires
            old(self).event_depth < u32::MAX,
        ensures
            final(self)@ == event_open_step(old(self)@, a.key_range, in_events_dir),
    {
        let is_call = self.event_depth > 0 || !in_events_dir;
        let ghost before = self.event_stack@;
        let e = new_event_def(a.key_range, is_call);
        self.event_stack.push(e);
        assert(events_view(self.event_stack@) =~= events_view(before).push(event_model(e)));
        self.event_depth = self.event_depth + 1;
    }

    /// Records an event-level property on the innermost event.
    fn note_props(&mut self, a: &Assignment, key: &Vec<char>, source: &str)
        requires
            value_fits(a.value.value, source.spec_bytes()),
        ensures
            final(self)@ == props_step(old(self)@, key@, a.key_range, value_model(a.value.value), a.value.range, source@),
    {
        if self.option_stack.len() == 0 && self.event_stack.len() > 0 {
            let ghost st = self@;
            let mut e = self.event_stack.pop().unwrap();
            let ghost rest = self.event_stack@;
            proof {
                assert(event_model(e) == st.events.last());
                assert(events_view(rest) =~= st.events.drop_last());
            }
            record_props(&mut e, a, key, source);
            self.event_stack.push(e);
            assert(events_view(self.event_stack@) =~= events_view(rest).push(event_model(e)));
        }
    }

    /// Opens an option, or records `name` and `ai_chance` on the open one.
    fn note_option(&mut self, a: &Assignment, key: &Vec<char>, source: &str, triggers: &Vec<(String, bool)>)
        requires
            value_fits(a.value.value, source.spec_bytes()),
            counters_below_max(old(self)@),
        ensures
            final(self)@ == option_step(old(self)@, key@, a.key_range, value_model(a.value.value), source@, triggers_view(triggers@)),
    {
        let ghost st = self@;
        let kl = lower_chars(key);
        let is_block = match &a.value.value {
            Value::Block(_) => true,
            _ => false,
        };
        if self.option_stack.len() == 0 && spells(&kl, "option") && is_block {
            if self.event_stack.len() > 0 {
                let mut e = self.event_stack.pop().unwrap();
                let ghost rest = self.event_stack@;
                proof {
                    assert(event_model(e) == st.events.last());
                    assert(events_view(rest) =~= st.events.drop_last());
                }
                e.has_option = true;
                e.option_count = e.option_count + 1;
                self.event_stack.push(e);
                assert(events_view(self.event_stack@) =~= events_view(rest).push(event_model(e)));
            }
            let invisible = evaluate_option_trigger_ai_visibility(&a.value, source, triggers);
            self.option_stack.push(EventOptionDef {
                key_range: a.key_range,
                has_name: false,
                has_ai_chance: false,
                provably_ai_invisible: invisible,
            });
        } else if self.option_stack.len() > 0 {
            let mut o = self.option_stack.pop().unwrap();
            let ghost rest = self.option_stack@;
            if spells(&kl, "name") {
                o.has_name = true;
            } else if spells(&kl, "ai_chance") && is_block {
                o.has_ai_chance = true;
            }
            self.option_stack.push(o);
            assert(self.option_stack@ =~= rest.push(o));
            assert(rest =~= st.options.drop_last());
        }
    }

    /// Entering an assignment.  `in_events_dir` tells whether the file lies
    /// under `events/`; `defined_events` lists the ids of the events defined
    /// in the workspace; `triggers` tells which scripted triggers hide an
    /// option from the AI.
    pub fn enter_assignment(
        &mut self,
        ass: &Assignment,
        source: &str,
        in_events_dir: bool,
        defined_events: &Vec<String>,
        triggers: &Vec<(String, bool)>,
        namespaces: &NamespaceContext,
    ) -> (r: Vec<RuleDiagnostic>)
        requires
            ass.key.fits(source),
            value_fits(ass.value.value, source.spec_bytes()),
            old(self).event_depth < u32::MAX,
            counters_below_max(old(self)@),
        ensures
            (final(self)@, diags_model(r@)) == event_enter_step(
                old(self)@,
                span_text(source@, ass.key),
                ass.key_range,
                value_model(ass.value.value),
                ass.value.range,
                source@,
                in_events_dir,
                strings_view(defined_events@),
                triggers_view(triggers@),
                decls_view(namespaces.declarations@),
                opt_text(namespaces.file_name),
                namespaces.under_game,
            ),
    {
        let key = span_chars(&ass.key, source);
        self.note_namespace(&key, &ass.value.value, source);
        let mut out = self.check_reference(&key, ass, source, defined_events);
        let event_type = spells(&key, "country_event") || spells(&key, "state_event") || spells(&key, "news_event")
            || spells(&key, "unit_leader_event") || spells(&key, "operative_leader_event");
        match &ass.value.value {
            Value::Block(es) => {
                if event_type {
                    let mut d = self.check_open(ass, es, source, in_events_dir, namespaces);
                    let ghost before = out@;
                    let ghost dv = d@;
                    out.append(&mut d);
                    assert(out@ =~= before + dv);
                    assert(diags_model(out@) =~= diags_model(before) + diags_model(dv));
                    self.open_event(ass, in_events_dir);
                    return out;
                }
            },
            _ => {},
        }
        if self.event_depth == 0 {
            return out;
        }
        self.note_props(ass, &key, source);
        self.note_option(ass, &key, source, triggers);
        out
    }

    /// Whether the counters of the innermost event can grow.
    fn counters_ok(&self) -> (r: bool)
        ensures
            r == counters_below_max(self@),
    {
        if self.event_stack.len() == 0 {
            true
        } else {
            let e = &self.event_stack[self.event_stack.len() - 1];
            e.option_count < u32::MAX && e.ai_visible_option_count < u32::MAX && e.options_missing_ai_chance < u32::MAX
        }
    }

    /// Walks `entries` in document order, entering each assignment, walking
    /// its block and leaving it.
    pub fn walk_entries(&mut self, entries: &Vec<Entry>, source: &str, ctx: &EventFileContext) -> (r: Vec<RuleDiagnostic>)
        requires
            forall|k: int| 0 <= k < entries@.len() ==> entry_fits(#[trigger] entries@[k], source.spec_bytes()),
        ensures
            (final(self)@, diags_model(r@)) == walk_es(old(self)@, entries_model(entries@), walk_env(source@, *ctx)),
        decreases entries@, 2int,
    {
        let ghost em = entries_model(entries@);
        let ghost env = walk_env(source@, *ctx);
        let ghost st0 = self@;
        proof {
            lemma_entries_model(entries@);
            assert(em.subrange(0, em.len() as int) =~= em);
        }
        let mut out: Vec<RuleDiagnostic> = Vec::new();
        assert(diags_model(out@) =~= Seq::<RuleDiagModel>::empty());
        let mut k: usize = 0;
        while k < entries.len()
            invariant
                k <= entries@.len(),
                em == entries_model(entries@),
                em.len() == entries@.len(),
                env == walk_env(source@, *ctx),
                forall|j: int| 0 <= j < entries@.len() ==> #[trigger] em[j] == entry_model(entries@[j]),
                forall|j: int| 0 <= j < entries@.len() ==> entry_fits(#[trigger] entries@[j], source.spec_bytes()),
                walk_es(st0, em, env) == (walk_es(self@, em.subrange(k as int, em.len() as int), env).0,
                    diags_model(out@) + walk_es(self@, em.subrange(k as int, em.len() as int), env).1),
            decreases entries@.len() - k,
        {
            let ghost rest = em.subrange(k as int, em.len() as int);
            let ghost before = self@;
            let ghost ob = out@;
            assert(rest.drop_first() =~= em.subrange(k + 1, em.len() as int));
            assert(rest[0] == entry_model(entries@[k as int]));
            assert(decreases_to!(entries@ => entries@[k as int]));
            let mut d = self.walk_entry(&entries[k], source, ctx);
            let ghost dv = d@;
            out.append(&mut d);
            assert(out@ =~= ob + dv);
            assert(diags_model(out@) =~= diags_model(ob) + diags_model(dv));
            let ghost w2 = walk_es(self@, em.subrange(k + 1, em.len() as int), env);
            assert(diags_model(ob) + (diags_model(dv) + w2.1) =~= diags_model(out@) + w2.1);
            k += 1;
        }
        assert(em.subrange(k as int, em.len() as int) =~= Seq::<EntryModel>::empty());
        assert(diags_model(out@) + Seq::<RuleDiagModel>::empty() =~= diags_model(out@));
        out
    }

    fn walk_entry(&mut self, e: &Entry, source: &str, ctx: &EventFileContext) -> (r: Vec<RuleDiagnostic>)
        requires
            entry_fits(*e, source.spec_bytes()),
        ensures
            (final(self)@, diags_model(r@)) == walk_e(old(self)@, entry_model(*e), walk_env(source@, *ctx)),
        decreases *e, 1int,
    {
        match e {
            Entry::Assignment(a) => {
                if !(self.event_depth < u32::MAX && self.counters_ok()) {
                    let out: Vec<RuleDiagnostic> = Vec::new();
                    assert(diags_model(out@) =~= Seq::<RuleDiagModel>::empty());
                    return out;
                }
                let mut out = self.enter_assignment(a, source, ctx.in_events_dir, &ctx.defined_events, &ctx.triggers, &ctx.namespaces);
                let mut d2 = self.walk_value(&a.value.value, source, ctx);
                let ghost o1 = out@;
                let ghost v2 = d2@;
                out.append(&mut d2);
                assert(out@ =~= o1 + v2);
                assert(diags_model(out@) =~= diags_model(o1) + diags_model(v2));
                if self.counters_ok() {
                    let mut d3 = self.exit_assignment(a, source, &ctx.loc, &ctx.sprites);
                    let ghost o2 = out@;
                    let ghost v3 = d3@;
                    out.append(&mut d3);
                    assert(out@ =~= o2 + v3);
                    assert(diags_model(out@) =~= diags_model(o2) + diags_model(v3));
                }
                out
            },
            Entry::Value(nv) => self.walk_value(&nv.value, source, ctx),
            Entry::Comment(_, _) => {
                let out: Vec<RuleDiagnostic> = Vec::new();
                assert(diags_model(out@) =~= Seq::<RuleDiagModel>::empty());
                out
            },
        }
    }

    fn walk_value(&mut self, v: &Value, source: &str, ctx: &EventFileContext) -> (r: Vec<RuleDiagnostic>)
        requires
            value_fits(*v, source.spec_bytes()),
        ensures
            (final(self)@, diags_model(r@)) == walk_v(old(self)@, value_model(*v), walk_env(source@, *ctx)),
        decreases *v, 0int,
    {
        match v {
            Value::Block(inner) => {
                assert(decreases_to!(*v => inner@));
                self.walk_entries(inner, source, ctx)
            },
            Value::TaggedBlock(_, inner, _) => {
                assert(decreases_to!(*v => inner@));
                self.walk_entries(inner, source, ctx)
            },
            _ => {
                let out: Vec<RuleDiagnostic> = Vec::new();
                assert(diags_model(out@) =~= Seq::<RuleDiagModel>::empty());
                out
            },
        }
    }

    /// Leaving an assignment; `loc` lists the localisation keys and
    /// `sprites` the sprite names.
    pub fn exit_assignment(&mut self, ass: &Assignment, source: &str, loc: &Vec<String>, sprites: &Vec<String>) -> (r: Vec<RuleDiagnostic>)
        requires
            ass.key.fits(source),
            counters_below_max(old(self)@),
        ensures
            (final(self)@, diags_model(r@)) == event_exit_step(
                old(self)@,
                span_text(source@, ass.key),
                value_model(ass.value.value),
                strings_view(loc@),
                strings_view(sprites@),
            ),
    {
        let key = span_chars(&ass.key, source);
        let kl = lower_chars(&key);
        let is_block = match &ass.value.value {
            Value::Block(_) => true,
            _ => false,
        };
        let mut out: Vec<RuleDiagnostic> = Vec::new();
        assert(diags_model(out@) =~= Seq::<RuleDiagModel>::empty());
        if self.option_stack.len() > 0 && spells(&kl, "option") && is_block {
            let o = self.option_stack.pop().unwrap();
            let ghost st1 = self@;
            if self.event_stack.len() > 0 {
                let mut e = self.event_stack.pop().unwrap();
                let ghost rest = self.event_stack@;
                if !o.provably_ai_invisible {
                    e.ai_visible_option_count = e.ai_visible_option_count + 1;
                }
                if !o.has_ai_chance && !o.provably_ai_invisible {
                    e.options_missing_ai_chance = e.options_missing_ai_chance + 1;
                    e.last_missing_ai_chance_range = Some(o.key_range);
                }
                self.event_stack.push(e);
                assert(events_view(self.event_stack@) =~= events_view(rest).push(event_model(e)));
                assert(events_view(rest) =~= st1.events.drop_last());
            }
            return validate_option(&o);
        }
        let event_type = spells(&key, "country_event") || spells(&key, "state_event") || spells(&key, "news_event")
            || spells(&key, "unit_leader_event") || spells(&key, "operative_leader_event");
        if self.event_depth > 0 && event_type && is_block {
            self.event_depth = self.event_depth - 1;
            if self.event_stack.len() > 0 {
                let ghost before = self.event_stack@;
                let e = self.event_stack.pop().unwrap();
                assert(events_view(self.event_stack@) =~= events_view(before).drop_last());
                let mut d = validate_event(&e, loc, sprites);
                if !e.is_call {
                    match &e.id {
                        Some(id) => {
                            let lid = lower_chars(&chars_of(id.as_str()));
                            if contains_str(&self.seen_event_ids, &lid) {
                                let mut m = String::new();
                                append_str(&mut m, "Duplicate event ID '");
                                append_str(&mut m, id.as_str());
                                append_str(&mut m, "' defined more than once in this file. HOI4 loads only one event per ID; the other definition will never fire. Rename one of them.");
                                let r = match e.id_range {
                                    Some(r) => r,
                                    None => e.key_range,
                                };
                                let x = RuleDiagnostic { range: r, severity: RuleSeverity::Error, code: Some(RuleCode::DuplicateEventId), message: m, data: None };
                                let ghost dd = d@;
                                d.push(x);
                                assert(diags_model(d@) =~= diags_model(dd).push(rule_diag_model(x)));
                            } else {
                                let ghost ids = self.seen_event_ids@;
                                self.seen_event_ids.push(string_of(&lid));
                                assert(strings_view(self.seen_event_ids@) =~= strings_view(ids).push(lid@));
                            }
                        },
                        None => {},
                    }
                }
                return d;
            }
        }
        out
    }
}

/// The state of a walk that has seen nothing.
pub open spec fn initial_walk() -> EventWalkState {
    EventWalkState {
        namespaces: Seq::empty(),
        events: Seq::empty(),
        options: Seq::empty(),
        depth: 0,
        seen_ids: Seq::empty(),
    }
}

/// Walks the entries of an event file from the start; gives the walk as it
/// ends and the findings in document order.
pub fn walk_event_file(entries: &Vec<Entry>, source: &str, ctx: &EventFileContext) -> (r: (EventWalk, Vec<RuleDiagnostic>))
    requires
        forall|k: int| 0 <= k < entries@.len() ==> entry_fits(#[trigger] entries@[k], source.spec_bytes()),
    ensures
        (r.0@, diags_model(r.1@)) == walk_es(initial_walk(), entries_model(entries@), walk_env(source@, *ctx)),
{
    let mut w = EventWalk::new();
    let d = w.walk_entries(entries, source, ctx);
    (w, d)
}

} // verus!
