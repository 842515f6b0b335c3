use vstd::prelude::*;

use crate::parser::{Record, SpecRecord};
use crate::text::str_chars;

verus! {

/// The settings that drive the analysis of a combat log.
#[derive(Debug, Clone)]
pub struct AnalysisSettings {
    pub combatlog_file: String,
    /// Seconds without any record after which a new combat begins.
    pub combat_separation_time_seconds: i64,
    pub indirect_source_grouping_revers_rules: Vec<MatchRule>,
    pub damage_out_exclusion_rules: Vec<MatchRule>,
    pub custom_group_rules: Vec<RulesGroup>,
    pub combat_name_rules: Vec<CombatNameRule>,
}

/// A rule that names a combat, and rules that add further information to the name.
#[derive(Debug, Clone)]
pub struct CombatNameRule {
    pub name_rule: RulesGroup,
    pub additional_info_rules: Vec<RulesGroup>,
}

/// Compares one aspect of a record with an expression.
#[derive(Debug, Clone)]
pub struct MatchRule {
    pub aspect: MatchAspect,
    pub expression: String,
    pub method: MatchMethod,
    pub enabled: bool,
}

/// The part of a record that a rule looks at.
#[derive(Debug, Clone, Copy, PartialEq, Eq, Structural)]
pub enum MatchAspect {
    SourceOrTargetName,
    SourceOrTargetUniqueName,
    IndirectSourceName,
    IndirectUniqueSourceName,
    DamageOrHealName,
}

/// How a rule compares a name with its expression.
#[derive(Debug, Clone, Copy, PartialEq, Eq, Structural)]
pub enum MatchMethod {
    Equals,
    StartsWith,
    EndsWith,
    Contains,
}

/// A named set of rules; it matches where one of its rules matches.
#[derive(Debug, Clone)]
pub struct RulesGroup {
    pub name: String,
    pub rules: Vec<MatchRule>,
    pub enabled: bool,
}

/// Whether `value` has `expression` at index `i`.
pub open spec fn occurs_at(value: Seq<char>, expression: Seq<char>, i: int) -> bool {
    0 <= i && i + expression.len() <= value.len() && value.subrange(i, i + expression.len())
        == expression
}

/// What comparing `value` with `expression` by `method` gives.
pub open spec fn spec_check_match(
    method: MatchMethod,
    expression: Seq<char>,
    value: Seq<char>,
) -> bool {
    match method {
        MatchMethod::Equals => value == expression,
        MatchMethod::StartsWith => occurs_at(value, expression, 0),
        MatchMethod::EndsWith => occurs_at(value, expression, value.len() - expression.len()),
        MatchMethod::Contains => exists|i: int| occurs_at(value, expression, i),
    }
}

pub open spec fn spec_check_match_or_false(
    method: MatchMethod,
    expression: Seq<char>,
    value: Option<Seq<char>>,
) -> bool {
    match value {
        Some(v) => spec_check_match(method, expression, v),
        None => false,
    }
}

/// Whether `rule` matches a record.
pub open spec fn spec_rule_matches_record(rule: MatchRule, r: SpecRecord) -> bool {
    let e = rule.expression@;
    let m = rule.method;
    rule.enabled && match rule.aspect {
        MatchAspect::SourceOrTargetName => spec_check_match_or_false(m, e, r.source.name())
            || spec_check_match_or_false(m, e, r.target.name()),
        MatchAspect::SourceOrTargetUniqueName => spec_check_match_or_false(
            m,
            e,
            r.source.unique_name(),
        ) || spec_check_match_or_false(m, e, r.target.unique_name()),
        MatchAspect::IndirectSourceName => spec_check_match_or_false(
            m,
            e,
            r.indirect_source.name(),
        ),
        MatchAspect::IndirectUniqueSourceName => spec_check_match_or_false(
            m,
            e,
            r.indirect_source.unique_name(),
        ),
        MatchAspect::DamageOrHealName => spec_check_match(m, e, r.value_name),
    }
}

/// Whether `rule` is enabled, looks at `aspect` and matches `name`.
pub open spec fn spec_rule_matches_name(rule: MatchRule, aspect: MatchAspect, name: Seq<char>) -> bool {
    rule.enabled && rule.aspect == aspect && spec_check_match(rule.method, rule.expression@, name)
}

/// Whether `group` is enabled and one of its rules looks at `aspect` and matches one of
/// `names`.
pub open spec fn spec_group_matches_names(
    group: RulesGroup,
    aspect: MatchAspect,
    names: Seq<Seq<char>>,
) -> bool {
    group.enabled && exists|i: int, j: int|
        0 <= i < names.len() && 0 <= j < group.rules@.len() && spec_rule_matches_name(
            #[trigger] group.rules@[j],
            aspect,
            #[trigger] names[i],
        )
}

/// Whether `group` is enabled and one of its rules matches the record.
pub open spec fn spec_group_matches_record(group: RulesGroup, r: SpecRecord) -> bool {
    group.enabled && exists|j: int|
        0 <= j < group.rules@.len() && spec_rule_matches_record(#[trigger] group.rules@[j], r)
}

/// The views of a sequence of names.
pub open spec fn names_view(names: Seq<&str>) -> Seq<Seq<char>> {
    names.map_values(|n: &str| n@)
}

/// Whether `v` has `e` at index `i`.
fn occurs_at_exec(v: &Vec<char>, e: &Vec<char>, i: usize) -> (res: bool)
    requires
        i + e@.len() <= v@.len(),
    ensures
        res == occurs_at(v@, e@, i as int),
{
    let n = v.len();
    let mut k: usize = 0;
    while k < e.len()
        invariant
            i + e@.len() <= n,
            n == v@.len(),
            k <= e@.len(),
            forall|j: int| 0 <= j < k ==> v@[i + j] == e@[j],
        decreases e@.len() - k,
    {
        if v[i + k] != e[k] {
            assert(v@.subrange(i as int, i + e@.len())[k as int] != e@[k as int]);
            return false;
        }
        k = k + 1;
    }
    assert(v@.subrange(i as int, i + e@.len()) =~= e@);
    true
}

impl MatchMethod {
    /// Compares `value` with `expression`.
    pub fn check_match(&self, expression: &str, value: &str) -> (res: bool)
        ensures
            res == spec_check_match(*self, expression@, value@),
    {
        let e = str_chars(expression);
        let v = str_chars(value);
        match self {
            MatchMethod::Equals => {
                if e.len() != v.len() {
                    return false;
                }
                assert(v@.subrange(0, v@.len() as int) == v@);
                occurs_at_exec(&v, &e, 0)
            },
            MatchMethod::StartsWith => {
                if e.len() > v.len() {
                    return false;
                }
                occurs_at_exec(&v, &e, 0)
            },
            MatchMethod::EndsWith => {
                if e.len() > v.len() {
                    return false;
                }
                occurs_at_exec(&v, &e, v.len() - e.len())
            },
            MatchMethod::Contains => {
                if e.len() > v.len() {
                    return false;
                }
                let last = v.len() - e.len();
                let mut i: usize = 0;
                loop
                    invariant
                        last == v@.len() - e@.len(),
                        *self == MatchMethod::Contains,
                        v@ == value@,
                        e@ == expression@,
                        i <= last,
                        forall|j: int| 0 <= j < i ==> !occurs_at(v@, e@, j),
                    decreases last - i,
                {
                    if occurs_at_exec(&v, &e, i) {
                        assert(occurs_at(value@, expression@, i as int));
                        return true;
                    }
                    if i == last {
                        assert forall|j: int| !occurs_at(value@, expression@, j) by {
                            if 0 <= j && j + expression@.len() <= value@.len() {
                                assert(j <= i);
                            }
                        }
                        return false;
                    }
                    i = i + 1;
                }
            },
        }
    }

    /// Compares `value`, where there is one, with `expression`.
    pub fn check_match_or_false(&self, expression: &str, value: Option<&str>) -> (res: bool)
        ensures
            res == spec_check_match_or_false(
                *self,
                expression@,
                match value {
                    Some(v) => Some(v@),
                    None => None,
                },
            ),
    {
        match value {
            Some(v) => self.check_match(expression, v),
            None => false,
        }
    }

    pub fn display(self) -> (res: &'static str)
        ensures
            res@ == (match self {
                MatchMethod::Equals => "Equals"@,
                MatchMethod::StartsWith => "Starts with"@,
                MatchMethod::EndsWith => "Ends with"@,
                MatchMethod::Contains => "Contains"@,
            }),
    {
        match self {
            MatchMethod::Equals => "Equals",
            MatchMethod::StartsWith => "Starts with",
            MatchMethod::EndsWith => "Ends with",
            MatchMethod::Contains => "Contains",
        }
    }
}

impl MatchAspect {
    pub fn display(self) -> (res: &'static str)
        ensures
            res@ == (match self {
                MatchAspect::SourceOrTargetName => "Source or Target Name"@,
                MatchAspect::SourceOrTargetUniqueName => "Source or Target Unique Name"@,
                MatchAspect::IndirectSourceName => "Indirect Source Name (e.g. a pet or summon)"@,
                MatchAspect::DamageOrHealName => "Damage / Heal Name"@,
                MatchAspect::IndirectUniqueSourceName =>
                    "Indirect Source Unique Name (e.g. a pet or summon)"@,
            }),
    {
        match self {
            MatchAspect::SourceOrTargetName => "Source or Target Name",
            MatchAspect::SourceOrTargetUniqueName => "Source or Target Unique Name",
            MatchAspect::IndirectSourceName => "Indirect Source Name (e.g. a pet or summon)",
            MatchAspect::DamageOrHealName => "Damage / Heal Name",
            MatchAspect::IndirectUniqueSourceName =>
                "Indirect Source Unique Name (e.g. a pet or summon)",
        }
    }
}

impl MatchRule {
    /// Whether the rule matches a record.
    pub fn matches_record(&self, record: &Record) -> (res: bool)
        ensures
            res == spec_rule_matches_record(*self, record@),
    {
        if !self.enabled {
            return false;
        }
        let e = self.expression.as_str();
        match self.aspect {
            MatchAspect::SourceOrTargetName => {
                self.method.check_match_or_false(e, record.source.name())
                    || self.method.check_match_or_false(e, record.target.name())
            },
            MatchAspect::SourceOrTargetUniqueName => {
                self.method.check_match_or_false(e, record.source.unique_name())
                    || self.method.check_match_or_false(e, record.target.unique_name())
            },
            MatchAspect::IndirectSourceName => self.method.check_match_or_false(
                e,
                record.indirect_source.name(),
            ),
            MatchAspect::IndirectUniqueSourceName => self.method.check_match_or_false(
                e,
                record.indirect_source.unique_name(),
            ),
            MatchAspect::DamageOrHealName => self.method.check_match(e, record.value_name),
        }
    }

    /// Whether the rule is enabled, looks at `aspect` and matches `name`.
    pub fn matches_name(&self, aspect: MatchAspect, name: &str) -> (res: bool)
        ensures
            res == spec_rule_matches_name(*self, aspect, name@),
    {
        if !self.enabled || self.aspect != aspect {
            return false;
        }
        self.method.check_match(self.expression.as_str(), name)
    }

    /// Whether the rule matches `name` as a source or target name.
    pub fn matches_source_or_target_name(&self, name: &str) -> (res: bool)
        ensures
            res == spec_rule_matches_name(*self, MatchAspect::SourceOrTargetName, name@),
    {
        self.matches_name(MatchAspect::SourceOrTargetName, name)
    }

    /// Whether the rule matches `name` as a unique source or target name.
    pub fn matches_source_or_target_unique_name(&self, name: &str) -> (res: bool)
        ensures
            res == spec_rule_matches_name(*self, MatchAspect::SourceOrTargetUniqueName, name@),
    {
        self.matches_name(MatchAspect::SourceOrTargetUniqueName, name)
    }

    /// Whether the rule matches `name` as an indirect source name.
    pub fn matches_indirect_source_name(&self, name: &str) -> (res: bool)
        ensures
            res == spec_rule_matches_name(*self, MatchAspect::IndirectSourceName, name@),
    {
        self.matches_name(MatchAspect::IndirectSourceName, name)
    }

    /// Whether the rule matches `name` as a unique indirect source name.
    pub fn matches_indirect_source_unique_name(&self, name: &str) -> (res: bool)
        ensures
            res == spec_rule_matches_name(*self, MatchAspect::IndirectUniqueSourceName, name@),
    {
        self.matches_name(MatchAspect::IndirectUniqueSourceName, name)
    }

    /// Whether the rule matches `name` as a damage or heal name.
    pub fn matches_damage_or_heal_name(&self, name: &str) -> (res: bool)
        ensures
            res == spec_rule_matches_name(*self, MatchAspect::DamageOrHealName, name@),
    {
        self.matches_name(MatchAspect::DamageOrHealName, name)
    }
}

impl Default for MatchRule {
    fn default() -> (res: Self)
        ensures
            res.enabled,
            res.aspect == MatchAspect::DamageOrHealName,
            res.method == MatchMethod::Equals,
            res.expression@ == Seq::<char>::empty(),
    {
        MatchRule {
            enabled: true,
            aspect: MatchAspect::DamageOrHealName,
            expression: String::new(),
            method: MatchMethod::Equals,
        }
    }
}

impl Default for RulesGroup {
    fn default() -> (res: Self)
        ensures
            res.enabled,
            res.name@ == Seq::<char>::empty(),
            res.rules@ == Seq::<MatchRule>::empty(),
    {
        RulesGroup { name: String::new(), rules: Vec::new(), enabled: true }
    }
}

impl RulesGroup {
    /// Whether the group is enabled and one of its rules matches the record.
    pub fn matches_record(&self, record: &Record) -> (res: bool)
        ensures
            res == spec_group_matches_record(*self, record@),
    {
        if !self.enabled {
            return false;
        }
        let mut j: usize = 0;
        while j < self.rules.len()
            invariant
                j <= self.rules@.len(),
                self.enabled,
                forall|k: int| 0 <= k < j ==> !spec_rule_matches_record(#[trigger] self.rules@[k], record@),
            decreases self.rules@.len() - j,
        {
            if self.rules[j].matches_record(record) {
                assert(spec_rule_matches_record(self.rules@[j as int], record@));
                return true;
            }
            j = j + 1;
        }
        false
    }

    /// Whether the group is enabled and one of its rules looks at `aspect` and matches
    /// one of `names`.
    pub fn matches_names(&self, aspect: MatchAspect, names: &Vec<&str>) -> (res: bool)
        ensures
            res == spec_group_matches_names(*self, aspect, names_view(names@)),
    {
        if !self.enabled {
            return false;
        }
        let ghost nv = names_view(names@);
        let mut i: usize = 0;
        while i < names.len()
            invariant
                i <= names@.len(),
                nv == names_view(names@),
                self.enabled,
                forall|a: int, b: int|
                    0 <= a < i && 0 <= b < self.rules@.len() ==> !spec_rule_matches_name(
                        #[trigger] self.rules@[b],
                        aspect,
                        #[trigger] nv[a],
                    ),
            decreases names@.len() - i,
        {
            let mut j: usize = 0;
            while j < self.rules.len()
                invariant
                    i < names@.len(),
                    j <= self.rules@.len(),
                    nv == names_view(names@),
                    self.enabled,
                    forall|a: int, b: int|
                        0 <= a < i && 0 <= b < self.rules@.len() ==> !spec_rule_matches_name(
                            #[trigger] self.rules@[b],
                            aspect,
                            #[trigger] nv[a],
                        ),
                    forall|b: int|
                        0 <= b < j ==> !spec_rule_matches_name(
                            #[trigger] self.rules@[b],
                            aspect,
                            nv[i as int],
                        ),
                decreases self.rules@.len() - j,
            {
                if self.rules[j].matches_name(aspect, names[i]) {
                    assert(spec_rule_matches_name(self.rules@[j as int], aspect, nv[i as int]));
                    return true;
                }
                j = j + 1;
            }
            i = i + 1;
        }
        false
    }

    /// Whether the group matches one of `names` as source or target names.
    pub fn matches_source_or_target_names(&self, names: &Vec<&str>) -> (res: bool)
        ensures
            res == spec_group_matches_names(
                *self,
                MatchAspect::SourceOrTargetName,
                names_view(names@),
            ),
    {
        self.matches_names(MatchAspect::SourceOrTargetName, names)
    }

    /// Whether the group matches one of `names` as unique source or target names.
    pub fn matches_source_or_target_unique_names(&self, names: &Vec<&str>) -> (res: bool)
        ensures
            res == spec_group_matches_names(
                *self,
                MatchAspect::SourceOrTargetUniqueName,
                names_view(names@),
            ),
    {
        self.matches_names(MatchAspect::SourceOrTargetUniqueName, names)
    }

    /// Whether the group matches one of `names` as indirect source names.
    pub fn matches_indirect_source_names(&self, names: &Vec<&str>) -> (res: bool)
        ensures
            res == spec_group_matches_names(
                *self,
                MatchAspect::IndirectSourceName,
                names_view(names@),
            ),
    {
        self.matches_names(MatchAspect::IndirectSourceName, names)
    }

    /// Whether the group matches one of `names` as unique indirect source names.
    pub fn matches_indirect_source_unique_names(&self, names: &Vec<&str>) -> (res: bool)
        ensures
            res == spec_group_matches_names(
                *self,
                MatchAspect::IndirectUniqueSourceName,
                names_view(names@),
            ),
    {
        self.matches_names(MatchAspect::IndirectUniqueSourceName, names)
    }

    /// Whether the group matches one of `names` as damage or heal names.
    pub fn matches_damage_or_heal_names(&self, names: &Vec<&str>) -> (res: bool)
        ensures
            res == spec_group_matches_names(
                *self,
                MatchAspect::DamageOrHealName,
                names_view(names@),
            ),
    {
        self.matches_names(MatchAspect::DamageOrHealName, names)
    }
}

/// What each match method asks of a value: equal to the expression, beginning with it,
/// ending with it, or holding it at some place; a value that equals, begins or ends
/// with the expression also contains it.
pub proof fn law_check_match(expression: Seq<char>, value: Seq<char>)
    ensures
        spec_check_match(MatchMethod::Equals, expression, value) <==> value =~= expression,
        spec_check_match(MatchMethod::StartsWith, expression, value) <==> expression.len() <= value.len()
            && value.subrange(0, expression.len() as int) =~= expression,
        spec_check_match(MatchMethod::EndsWith, expression, value) <==> expression.len() <= value.len()
            && value.subrange(value.len() - expression.len(), value.len() as int) =~= expression,
        spec_check_match(MatchMethod::Contains, expression, value) <==> exists|i: int|
            0 <= i && i + expression.len() <= value.len() && #[trigger] value.subrange(i, i + expression.len())
                =~= expression,
        spec_check_match(MatchMethod::Equals, expression, value) ==> spec_check_match(
            MatchMethod::Contains,
            expression,
            value,
        ),
        spec_check_match(MatchMethod::StartsWith, expression, value) ==> spec_check_match(
            MatchMethod::Contains,
            expression,
            value,
        ),
        spec_check_match(MatchMethod::EndsWith, expression, value) ==> spec_check_match(
            MatchMethod::Contains,
            expression,
            value,
        ),
{
    if value =~= expression {
        assert(value.subrange(0, expression.len() as int) =~= expression);
        assert(occurs_at(value, expression, 0));
    }
    if spec_check_match(MatchMethod::StartsWith, expression, value) {
        assert(occurs_at(value, expression, 0));
    }
    if spec_check_match(MatchMethod::EndsWith, expression, value) {
        assert(occurs_at(value, expression, value.len() - expression.len()));
    }
    if exists|i: int|
        0 <= i && i + expression.len() <= value.len() && #[trigger] value.subrange(i, i + expression.len())
            =~= expression {
        let i = choose|i: int|
            0 <= i && i + expression.len() <= value.len() && #[trigger] value.subrange(i, i + expression.len())
                =~= expression;
        assert(occurs_at(value, expression, i));
    }
    if spec_check_match(MatchMethod::Contains, expression, value) {
        let i = choose|i: int| occurs_at(value, expression, i);
        assert(value.subrange(i, i + expression.len()) =~= expression);
    }
}

/// What a rule compares with a record, by its aspect: the source's or the target's name,
/// the source's or the target's unique name, the indirect source's name or unique name,
/// or the value's name, each where the record has it; a disabled rule matches nothing.
pub proof fn law_rule_matches_record(rule: MatchRule, r: SpecRecord)
    ensures
        !rule.enabled ==> !spec_rule_matches_record(rule, r),
        rule.enabled && rule.aspect == MatchAspect::SourceOrTargetName ==> (spec_rule_matches_record(rule, r) <==> (
        (r.source.name() matches Some(n) && spec_check_match(rule.method, rule.expression@, n)) || (
        r.target.name() matches Some(n) && spec_check_match(rule.method, rule.expression@, n)))),
        rule.enabled && rule.aspect == MatchAspect::SourceOrTargetUniqueName ==> (spec_rule_matches_record(rule, r)
            <==> ((r.source.unique_name() matches Some(n) && spec_check_match(rule.method, rule.expression@, n))
            || (r.target.unique_name() matches Some(n) && spec_check_match(rule.method, rule.expression@, n)))),
        rule.enabled && rule.aspect == MatchAspect::IndirectSourceName ==> (spec_rule_matches_record(rule, r) <==> (
        r.indirect_source.name() matches Some(n) && spec_check_match(rule.method, rule.expression@, n))),
        rule.enabled && rule.aspect == MatchAspect::IndirectUniqueSourceName ==> (spec_rule_matches_record(rule, r)
            <==> (r.indirect_source.unique_name() matches Some(n) && spec_check_match(
            rule.method,
            rule.expression@,
            n,
        ))),
        rule.enabled && rule.aspect == MatchAspect::DamageOrHealName ==> (spec_rule_matches_record(rule, r)
            <==> spec_check_match(rule.method, rule.expression@, r.value_name)),
{
}

/// A rules group matches a record exactly where it is enabled and one of its rules
/// matches the record.
pub proof fn law_group_matches_record(group: RulesGroup, r: SpecRecord, j: int)
    requires
        0 <= j < group.rules@.len(),
    ensures
        spec_group_matches_record(group, r) ==> group.enabled,
        group.enabled && spec_rule_matches_record(group.rules@[j], r) ==> spec_group_matches_record(group, r),
        spec_group_matches_record(group, r) ==> exists|k: int|
            0 <= k < group.rules@.len() && spec_rule_matches_record(#[trigger] group.rules@[k], r),
{
}

} // verus!
