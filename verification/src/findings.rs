//! The findings that validation rules report.
use vstd::prelude::*;
use crate::ast::Range;

verus! {

/// How serious a finding of a rule is.
#[derive(Debug, Clone, Copy, PartialEq, Eq, Structural)]
pub enum RuleSeverity {
    Error,
    Warning,
    Information,
    Hint,
}

/// The kind of a finding of a validation rule.
#[derive(Debug, Clone, Copy, PartialEq, Eq, Structural)]
pub enum RuleCode {
    /// A unit type written in another casing than its definition.
    UnitTypeCaseMismatch,
    /// A unit type that no unit file defines.
    UnknownUnitType,
    /// A division template that the file does not define.
    UnknownDivisionTemplate,
    /// A state without provinces.
    EmptyState,
    /// A state province missing from the province definitions.
    StateUnknownProvince,
    /// A sea province listed in a state.
    SeaProvinceInState,
    /// A province that another state lists too.
    ProvinceInTwoStates,
    /// A second victory-points entry for a province.
    DuplicateVictoryPoint,
    /// A building placed on a province outside the state.
    ProvinceBuildingOutsideState,
    /// A coastal-only building placed on an inland province.
    CoastalBuildingOnInland,
    /// A reference to something that is not defined.
    UnknownTrigger,
    /// An ability whose name or description has no localisation.
    AbilityMissingLocalization,
    /// An ability definition without one of its fields.
    AbilityMissingRequiredField,
    /// An ability definition without `ai_will_do`.
    AbilityMissingAiLogic,
    /// A shown event with neither title nor description.
    EventMissingTitle,
    /// An event title key without localisation.
    EventMissingTitleLoc,
    /// An event description key without localisation.
    EventMissingDescLoc,
    /// An event picture sprite that is not defined.
    EventPictureSpriteNotFound,
    /// Options of an event without `ai_chance`.
    EventOptionMissingAiChance,
    /// An event option without a name.
    EventMissingOptionName,
    /// A negative skill level.
    CharacterNegativeSkill,
    /// A skill level above the engine's maximum.
    CharacterSkillExceedsMax,
    /// A sub-skill above the level where its bonus stops.
    CharacterSubskillExceedsPractical,
    /// A slot that takes an ideology group given something else.
    InvalidRulingParty,
    /// An event called that no file defines.
    BrokenEventReference,
    /// An event id defined twice in one file.
    DuplicateEventId,
    /// An event id whose number is not an integer.
    NonIntegerEventId,
    /// An event id whose number is 100000 or more.
    EventIdTooLarge,
    /// An event id whose namespace is not declared where it is used.
    MissingEventNamespace,
    /// A building level above the building's maximum.
    BuildingLevelExceedsMax,
    /// A state category that no file defines.
    UnknownStateCategory,
    /// A resource that no file defines.
    UnknownResource,
    /// A building that no file defines.
    UnknownBuilding,
    /// An ace modifier that no file defines.
    UnknownAceModifier,
    /// A continent that the map does not define.
    UnknownContinent,
    /// A strategic region that no file defines.
    UnknownStrategicRegion,
}

/// A finding of a validation rule.
#[derive(Debug, Clone)]
pub struct RuleDiagnostic {
    pub range: Range,
    pub severity: RuleSeverity,
    pub code: Option<RuleCode>,
    pub message: String,
    /// A replacement that fixes the finding, where there is one.
    pub data: Option<String>,
}

pub struct RuleDiagModel {
    pub range: Range,
    pub severity: RuleSeverity,
    pub code: Option<RuleCode>,
    pub message: Seq<char>,
    pub data: Option<Seq<char>>,
}

pub open spec fn rule_diag_model(d: RuleDiagnostic) -> RuleDiagModel {
    RuleDiagModel {
        range: d.range,
        severity: d.severity,
        code: d.code,
        message: d.message@,
        data: match d.data {
            Some(s) => Some(s@),
            None => None,
        },
    }
}

pub open spec fn diags_model(v: Seq<RuleDiagnostic>) -> Seq<RuleDiagModel> {
    v.map_values(|d: RuleDiagnostic| rule_diag_model(d))
}

} // verus!
