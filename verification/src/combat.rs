use std::ops::Range;
use vstd::prelude::*;

use crate::entity::{Entity, SpecEntity};
use crate::flags::{NameFlags, ValueFlags};
use crate::groups::{count_in, filed, gains, same_own, kill_sum, lemma_resolves_extend, types_union, wrap_add, DamageGroup, GroupPathSegment, HealGroup, Group};
use crate::name_manager::{keeps_roles, lemma_keeps_roles, lemma_prefix_contains, NameHandle, NameManager, UNKNOWN_HANDLE};
use crate::parser::{Record, SpecRecord};
use crate::values_manager::ValuesManager;
use crate::time::{date_text, format_date, format_time_of_day, hms_text, time_separator, timestamp_in_range};
use crate::grouping_path::{path_segments, GroupingPath};
use crate::naming::{combat_names, combat_names_view, combat_title, spec_combat_names, spec_title, CombatName};
use crate::settings::{spec_group_matches_record, spec_rule_matches_record, AnalysisSettings, MatchRule, RulesGroup};

verus! {

/// What a record's numbers describe: damage or a heal. The payloads are what the
/// numbers became (a hit or a heal tick); the grouping logic only carries them.
#[derive(Debug, Clone, Copy)]
pub enum RecordValue<D, H> {
    Damage(D),
    Heal(H),
}

/// A value and when it happened, in milliseconds after the start of its combat.
#[derive(Debug, Clone, Copy)]
pub struct TimedValue<V> {
    pub value: V,
    pub time_millis: u32,
}

impl<D, H> RecordValue<D, H> {
    /// Whether the value is damage.
    pub fn is_damage(&self) -> (res: bool)
        ensures
            res == (self is Damage),
    {
        match self {
            RecordValue::Damage(_) => true,
            RecordValue::Heal(_) => false,
        }
    }
}

/// The handle that `names` give `x`: its index, or the unknown handle for the empty name.
pub open spec fn handle_of(names: Seq<Seq<char>>, x: Seq<char>) -> NameHandle {
    if x.len() == 0 {
        NameHandle(UNKNOWN_HANDLE)
    } else {
        NameHandle((choose|i: int| 0 <= i < names.len() && names[i] == x) as u32)
    }
}

/// Distinct names with `names[i] == x` give `x` the handle `i`.
pub proof fn lemma_handle_of(names: Seq<Seq<char>>, x: Seq<char>, i: int)
    requires
        0 <= i < names.len(),
        names[i] == x,
        x.len() > 0,
        forall|a: int, b: int| 0 <= a < b < names.len() ==> names[a] != names[b],
    ensures
        handle_of(names, x) == NameHandle(i as u32),
{
    let j = choose|j: int| 0 <= j < names.len() && names[j] == x;
    if j != i {
        if j < i {
            assert(names[j] != names[i]);
        } else {
            assert(names[i] != names[j]);
        }
    }
}

/// The index of the first group in `groups` that matches the record.
pub open spec fn first_matching_group(groups: Seq<RulesGroup>, r: SpecRecord) -> Option<int>
    decreases groups.len(),
{
    if groups.len() == 0 {
        None
    } else {
        match first_matching_group(groups.drop_last(), r) {
            Some(k) => Some(k),
            None => if spec_group_matches_record(groups.last(), r) {
                Some(groups.len() - 1)
            } else {
                None
            },
        }
    }
}

/// Whether one of `rules` matches the record.
pub open spec fn any_rule_matches(rules: Seq<MatchRule>, r: SpecRecord) -> bool {
    exists|j: int| 0 <= j < rules.len() && spec_rule_matches_record(#[trigger] rules[j], r)
}

/// The grouping path of a record, innermost segment first: the value's name, or,
/// with an indirect source, the value's name inside the indirect source (or the other
/// way round where a reversal rule matches), then the first custom group that
/// matches.
pub open spec fn spec_grouping_path(
    r: SpecRecord,
    settings: AnalysisSettings,
    names: Seq<Seq<char>>,
) -> Seq<GroupPathSegment> {
    let base = if r.indirect_source is Absent || r.target is Absent {
        seq![GroupPathSegment::Value(handle_of(names, r.value_name))]
    } else {
        let n = r.indirect_source.name()->0;
        if any_rule_matches(settings.indirect_source_grouping_revers_rules@, r) {
            seq![
                GroupPathSegment::Value(handle_of(names, n)),
                GroupPathSegment::Group(handle_of(names, r.value_name)),
            ]
        } else {
            seq![
                GroupPathSegment::Value(handle_of(names, r.value_name)),
                GroupPathSegment::Group(handle_of(names, n)),
            ]
        }
    };
    match first_matching_group(settings.custom_group_rules@, r) {
        None => base,
        Some(k) => base.push(
            GroupPathSegment::Group(handle_of(names, settings.custom_group_rules@[k].name@)),
        ),
    }
}

/// The names of a record that the name manager has to know for its grouping.
pub open spec fn knows_record_names(nm: NameManager, r: SpecRecord) -> bool {
    &&& (r.value_name.len() == 0 || nm.names().contains(r.value_name))
    &&& (r.value_type.len() == 0 || nm.names().contains(r.value_type))
    &&& (r.source.name() matches Some(n) ==> n.len() == 0 || nm.names().contains(n))
    &&& (r.target.name() matches Some(n) ==> n.len() == 0 || nm.names().contains(n))
    &&& (r.indirect_source.name() matches Some(n) ==> n.len() == 0 || nm.names().contains(n))
}

/// Whether `n` is the empty name or an interned one.
pub open spec fn knows_name(names: Seq<Seq<char>>, n: Seq<char>) -> bool {
    n.len() == 0 || names.contains(n)
}

/// Whether the name of `e`, where it has one, is known.
pub open spec fn knows_entity_name(names: Seq<Seq<char>>, e: SpecEntity) -> bool {
    e.name() matches Some(n) ==> knows_name(names, n)
}

/// The names that the grouping path of a record looks up are known: the value's name,
/// and the indirect source's name where the record has both an indirect source and a
/// target.
pub open spec fn knows_path_names(names: Seq<Seq<char>>, r: SpecRecord) -> bool {
    &&& knows_name(names, r.value_name)
    &&& (!(r.indirect_source is Absent) && !(r.target is Absent)) ==> knows_entity_name(names, r.indirect_source)
}

/// The name of the custom group that matches the record is known, or there is room
/// for one more name.
pub open spec fn room_for_group_name(names: Seq<Seq<char>>, r: SpecRecord, settings: AnalysisSettings) -> bool {
    knows_custom_group_name(names, r, settings) || names.len() < UNKNOWN_HANDLE
}

/// Every nonempty name of a record is known in the role it has in the record, and
/// the names of players also as players.
pub open spec fn names_in_roles(nm: NameManager, r: SpecRecord) -> bool {
    &&& entity_in_roles(nm, r.source, NameFlags::SOURCE, NameFlags::SOURCE_UNIQUE)
    &&& entity_in_roles(nm, r.target, NameFlags::TARGET, NameFlags::TARGET_UNIQUE)
    &&& entity_in_roles(nm, r.indirect_source, NameFlags::INDIRECT_SOURCE, NameFlags::INDIRECT_SOURCE_UNIQUE)
    &&& (r.value_name.len() > 0 ==> nm.named_with_role(r.value_name, NameFlags::VALUE))
}

/// The entity's nonempty name is known in `role`, its nonempty unique name in
/// `unique_role`, and the name of a player as a player.
pub open spec fn entity_in_roles(nm: NameManager, e: SpecEntity, role: u8, unique_role: u8) -> bool {
    &&& (e.name() matches Some(n) ==> (n.len() > 0 ==> nm.named_with_role(n, role)))
    &&& (e.unique_name() matches Some(n) ==> (n.len() > 0 ==> nm.named_with_role(n, unique_role)))
    &&& (e is Player ==> (e.name() matches Some(n) ==> (n.len() > 0 ==> nm.named_with_role(n, NameFlags::PLAYER))))
}

/// Whether one of `rules` matches the record.
pub fn any_rule_matches_record(rules: &Vec<MatchRule>, record: &Record) -> (res: bool)
    ensures
        res == any_rule_matches(rules@, record@),
{
    let mut j: usize = 0;
    while j < rules.len()
        invariant
            j <= rules@.len(),
            forall|k: int| 0 <= k < j ==> !spec_rule_matches_record(#[trigger] rules@[k], record@),
        decreases rules@.len() - j,
    {
        if rules[j].matches_record(record) {
            assert(spec_rule_matches_record(rules@[j as int], record@));
            return true;
        }
        j = j + 1;
    }
    false
}

/// The index of the first group of `groups` that matches the record.
pub fn find_matching_group(groups: &Vec<RulesGroup>, record: &Record) -> (res: Option<usize>)
    ensures
        match res {
            Some(k) => k < groups@.len() && first_matching_group(groups@, record@) == Some(k as int),
            None => first_matching_group(groups@, record@) is None,
        },
{
    let mut j: usize = 0;
    while j < groups.len()
        invariant
            j <= groups@.len(),
            first_matching_group(groups@.take(j as int), record@) is None,
        decreases groups@.len() - j,
    {
        proof {
            assert(groups@.take(j + 1).drop_last() == groups@.take(j as int));
        }
        if groups[j].matches_record(record) {
            proof {
                lemma_first_matching_prefix(groups@, j + 1, record@);
            }
            return Some(j);
        }
        j = j + 1;
    }
    assert(groups@.take(groups@.len() as int) == groups@);
    None
}

/// A match in a prefix is the first match of the whole sequence.
proof fn lemma_first_matching_prefix(groups: Seq<RulesGroup>, k: int, r: SpecRecord)
    requires
        0 < k <= groups.len(),
        first_matching_group(groups.take(k), r) is Some,
    ensures
        first_matching_group(groups, r) == first_matching_group(groups.take(k), r),
    decreases groups.len() - k,
{
    if k < groups.len() {
        assert(groups.take(k + 1).drop_last() == groups.take(k));
        lemma_first_matching_prefix(groups, k + 1, r);
    } else {
        assert(groups.take(k) == groups);
    }
}

/// The grouping path of a record, innermost segment first; interns the name of a
/// matching custom group.
pub fn build_grouping_path(
    record: &Record,
    settings: &AnalysisSettings,
    name_manager: &mut NameManager,
) -> (res: GroupingPath)
    requires
        old(name_manager).wf(),
        room_for_group_name(old(name_manager).names(), record@, *settings),
        knows_path_names(old(name_manager).names(), record@),
    ensures
        final(name_manager).wf(),
        final(name_manager).names().len() <= old(name_manager).names().len() + 1,
        old(name_manager).names().is_prefix_of(final(name_manager).names()),
        path_segments(res) == spec_grouping_path(record@, *settings, final(name_manager).names()),
        1 <= path_segments(res).len() <= 3,
        knows_custom_group_name(final(name_manager).names(), record@, *settings),
        keeps_roles(*old(name_manager), *final(name_manager)),
        knows_custom_group_name(old(name_manager).names(), record@, *settings) ==> final(name_manager).names() == old(name_manager).names(),
{
    let ghost names0 = name_manager.names();
    let value_name = name_manager.handle(record.value_name);
    proof {
        if record.value_name@.len() > 0 {
            lemma_handle_of(names0, record.value_name@, value_name.0 as int);
        }
    }
    let mut path = GroupingPath::new();
    match (record.indirect_source, record.target) {
        (Entity::Absent, _) | (_, Entity::Absent) => {
            path.push(GroupPathSegment::Value(value_name));
        },
        (Entity::NonPlayer { name, .. }, _) | (Entity::Player { full_name: name, .. }, _) | (
            Entity::NonPlayerCharacter { name, .. },
            _,
        ) => {
            let indirect = name_manager.handle(name);
            proof {
                if name@.len() > 0 {
                    lemma_handle_of(names0, name@, indirect.0 as int);
                }
            }
            if any_rule_matches_record(&settings.indirect_source_grouping_revers_rules, record) {
                path.push(GroupPathSegment::Value(indirect));
                path.push(GroupPathSegment::Group(value_name));
            } else {
                path.push(GroupPathSegment::Value(value_name));
                path.push(GroupPathSegment::Group(indirect));
            }
        },
    }
    match find_matching_group(&settings.custom_group_rules, record) {
        None => {
            assert(names0.is_prefix_of(name_manager.names()));
        },
        Some(k) => {
            let rule_name = settings.custom_group_rules[k].name.as_str();
            let h = name_manager.insert(rule_name, NameFlags::from_bits(NameFlags::NONE));
            proof {
                let names1 = name_manager.names();
                assert(names0.is_prefix_of(names1));
                if rule_name@.len() > 0 {
                    lemma_handle_of(names1, rule_name@, h.0 as int);
                }
                if record.value_name@.len() > 0 {
                    lemma_handle_of(names1, record.value_name@, value_name.0 as int);
                }
                match record.indirect_source@.name() {
                    Some(n) => if n.len() > 0 && !(record.indirect_source is Absent || record.target is Absent) {
                        let i = choose|i: int| 0 <= i < names0.len() && names0[i] == n;
                        lemma_handle_of(names0, n, i);
                        lemma_handle_of(names1, n, i);
                    },
                    None => {},
                }
            }
            path.push(GroupPathSegment::Group(h));
        },
    }
    path
}

/// The range of times from the first to the last time seen: `time` becomes its end.
pub open spec fn extend_time(t: Option<Range<i64>>, time: i64) -> Option<Range<i64>> {
    match t {
        None => Some(Range { start: time, end: time }),
        Some(r) => Some(Range { start: r.start, end: time }),
    }
}

/// The time range `t` extended to `time` (see `extend_time`).
fn extended_time(t: &Option<Range<i64>>, time: i64) -> (res: Option<Range<i64>>)
    ensures
        res == extend_time(*t, time),
{
    match t {
        None => Some(time..time),
        Some(r) => Some(r.start..time),
    }
}

/// The name of what a player's value went to: the source itself for a record without
/// target and indirect source, else the target, or the indirect source where there is
/// no target.
pub open spec fn out_target_name(r: SpecRecord) -> Option<Seq<char>> {
    if r.target is Absent && r.indirect_source is Absent {
        r.source.name()
    } else {
        match r.target.name() {
            Some(n) => Some(n),
            None => r.indirect_source.name(),
        }
    }
}

/// The handle of `name` among `names`, or the unknown handle where there is no name.
pub open spec fn handle_of_some(names: Seq<Seq<char>>, name: Option<Seq<char>>) -> NameHandle {
    match name {
        Some(n) => handle_of(names, n),
        None => NameHandle(UNKNOWN_HANDLE),
    }
}

/// The handle of the damage type `Shield` among `names`, where it is known.
pub open spec fn shield_handle_of(names: Seq<Seq<char>>) -> Option<NameHandle> {
    if names.contains("Shield"@) {
        Some(handle_of(names, "Shield"@))
    } else {
        None
    }
}

/// Whether the record's flags hold a kill.
pub open spec fn spec_is_kill(r: SpecRecord) -> bool {
    r.value_flags & ValueFlags::KILL == ValueFlags::KILL
}

/// The path along which a player's caused damage is filed: the record's grouping path
/// with the target's group innermost.
pub open spec fn out_damage_path(r: SpecRecord, settings: AnalysisSettings, names: Seq<Seq<char>>) -> Seq<GroupPathSegment> {
    seq![GroupPathSegment::Group(handle_of_some(names, out_target_name(r)))] + spec_grouping_path(r, settings, names)
}

/// The path along which a player's caused heal is filed: the record's grouping path
/// with the target's group outermost.
pub open spec fn out_heal_path(r: SpecRecord, settings: AnalysisSettings, names: Seq<Seq<char>>) -> Seq<GroupPathSegment> {
    spec_grouping_path(r, settings, names).push(GroupPathSegment::Group(handle_of_some(names, out_target_name(r))))
}

/// The path along which a player's received value is filed: the record's grouping path
/// with the source's group outermost.
pub open spec fn in_path(r: SpecRecord, settings: AnalysisSettings, names: Seq<Seq<char>>) -> Seq<GroupPathSegment> {
    spec_grouping_path(r, settings, names).push(GroupPathSegment::Group(handle_of_some(names, r.source.name())))
}

/// What adding a caused value does to the groups of what a player caused: nothing
/// where an exclusion rule matches the record or it is direct self damage; else damage
/// is filed along `out_damage_path` with its damage type and kill, and a heal along
/// `out_heal_path`, each with the time `offset`, the handles taken from `names`.
pub open spec fn out_groups_step<D, H>(
    a: Player<D, H>,
    b: Player<D, H>,
    r: SpecRecord,
    value: RecordValue<D, H>,
    offset: u32,
    settings: AnalysisSettings,
    names: Seq<Seq<char>>,
) -> bool {
    if any_rule_matches(settings.damage_out_exclusion_rules@, r) || spec_is_direct_self_damage(r, value) {
        b.damage_out == a.damage_out && b.heal_out == a.heal_out
    } else {
        match value {
            RecordValue::Damage(d) => {
                let path = out_damage_path(r, settings, names);
                let hit = TimedValue { value: d, time_millis: offset };
                &&& b.heal_out == a.heal_out
                &&& b.damage_out.stored() == a.damage_out.stored() + 1
                &&& gains(a.damage_out, b.damage_out, path[0], hit)
                &&& same_own(a.damage_out, b.damage_out)
                &&& filed(
                    a.damage_out.sub_groups@,
                    b.damage_out.sub_groups@,
                    path,
                    hit,
                    Some(handle_of(names, r.value_type)),
                    shield_handle_of(names),
                    spec_is_kill(r),
                )
            },
            RecordValue::Heal(h) => {
                let path = out_heal_path(r, settings, names);
                let tick = TimedValue { value: h, time_millis: offset };
                &&& b.damage_out == a.damage_out
                &&& b.heal_out.stored() == a.heal_out.stored() + 1
                &&& gains(a.heal_out, b.heal_out, path[0], tick)
                &&& same_own(a.heal_out, b.heal_out)
                &&& filed(a.heal_out.sub_groups@, b.heal_out.sub_groups@, path, tick, None, None, false)
            },
        }
    }
}

/// Among `after`, the player named `name` caused the record's value: from its state in
/// `before`, or from a fresh player where it is new (see `out_groups_step`).
pub open spec fn caused_by<D: Copy, H: Copy>(
    before: Seq<Player<D, H>>,
    after: Seq<Player<D, H>>,
    name: NameHandle,
    r: SpecRecord,
    value: RecordValue<D, H>,
    offset: u32,
    settings: AnalysisSettings,
    names: Seq<Seq<char>>,
) -> bool {
    exists|k: int, a: Player<D, H>|
        0 <= k < after.len() && after[k].spec_name() == name && (if k < before.len() {
            a == before[k]
        } else {
            a.is_fresh() && a.spec_name() == name
        }) && #[trigger] out_groups_step(a, after[k], r, value, offset, settings, names)
}

/// `a` and `b` caused the same: their caused groups are equal.
pub open spec fn same_caused<D, H>(a: Player<D, H>, b: Player<D, H>) -> bool {
    a.damage_out == b.damage_out && a.heal_out == b.heal_out
}

/// `a` and `b` received the same: their received groups are equal.
pub open spec fn same_received<D, H>(a: Player<D, H>, b: Player<D, H>) -> bool {
    a.damage_in == b.damage_in && a.heal_in == b.heal_in
}

/// The player has received nothing yet.
pub open spec fn received_nothing<D, H>(a: Player<D, H>) -> bool {
    a.damage_in.stored() == 0 && a.heal_in.stored() == 0
}

/// What adding a received value does to the groups of what a player received: the
/// value is filed along `in_path` with the time `offset` (damage with its damage type
/// and kill), the handles taken from `names`.
pub open spec fn in_groups_step<D, H>(
    a: Player<D, H>,
    b: Player<D, H>,
    r: SpecRecord,
    value: RecordValue<D, H>,
    offset: u32,
    settings: AnalysisSettings,
    names: Seq<Seq<char>>,
) -> bool {
    let path = in_path(r, settings, names);
    match value {
        RecordValue::Damage(d) => {
            let hit = TimedValue { value: d, time_millis: offset };
            &&& b.heal_in == a.heal_in
            &&& b.damage_in.stored() == a.damage_in.stored() + 1
            &&& gains(a.damage_in, b.damage_in, path[0], hit)
            &&& same_own(a.damage_in, b.damage_in)
            &&& filed(
                a.damage_in.sub_groups@,
                b.damage_in.sub_groups@,
                path,
                hit,
                Some(handle_of(names, r.value_type)),
                shield_handle_of(names),
                spec_is_kill(r),
            )
        },
        RecordValue::Heal(h) => {
            let tick = TimedValue { value: h, time_millis: offset };
            &&& b.damage_in == a.damage_in
            &&& b.heal_in.stored() == a.heal_in.stored() + 1
            &&& gains(a.heal_in, b.heal_in, path[0], tick)
            &&& same_own(a.heal_in, b.heal_in)
            &&& filed(a.heal_in.sub_groups@, b.heal_in.sub_groups@, path, tick, None, None, false)
        },
    }
}

/// Among `after`, the player named `name` received the record's value: in addition to
/// what it had received in `before`, or to nothing where it is new there (see
/// `in_groups_step`).
pub open spec fn received_by<D: Copy, H: Copy>(
    before: Seq<Player<D, H>>,
    after: Seq<Player<D, H>>,
    name: NameHandle,
    r: SpecRecord,
    value: RecordValue<D, H>,
    offset: u32,
    settings: AnalysisSettings,
    names: Seq<Seq<char>>,
) -> bool {
    exists|k: int, a: Player<D, H>|
        0 <= k < after.len() && after[k].spec_name() == name && (if k < before.len() {
            same_received(a, before[k])
        } else {
            received_nothing(a)
        }) && #[trigger] in_groups_step(a, after[k], r, value, offset, settings, names)
}

/// Whether the record's target is a player that is not also the player behind a non
/// player source, which receives the value too.
pub open spec fn target_receives_once(r: SpecRecord) -> bool {
    &&& r.target is Player
    &&& !(r.indirect_source is Player && r.source is NonPlayer && r.indirect_source.name() == r.target.name())
}

/// The name of the custom group that matches the record is known.
pub open spec fn knows_custom_group_name(names: Seq<Seq<char>>, r: SpecRecord, settings: AnalysisSettings) -> bool {
    match first_matching_group(settings.custom_group_rules@, r) {
        Some(k) => settings.custom_group_rules@[k].name@.len() == 0 || names.contains(
            settings.custom_group_rules@[k].name@,
        ),
        None => true,
    }
}

/// The value that the target player received stays received while other players get
/// values and more names are interned, and counts from the players before the record.
proof fn lemma_target_received<D: Copy, H: Copy>(
    players0: Seq<Player<D, H>>,
    players1: Seq<Player<D, H>>,
    players2: Seq<Player<D, H>>,
    players3: Seq<Player<D, H>>,
    names: Seq<Seq<char>>,
    target: NameHandle,
    r: SpecRecord,
    value: RecordValue<D, H>,
    offset: u32,
    settings: AnalysisSettings,
)
    requires
        received_by(players1, players2, target, r, value, offset, settings, names),
        players0.len() <= players1.len(),
        forall|j: int| 0 <= j < players0.len() && players1[j].spec_name() == target ==> same_received(#[trigger] players1[j], players0[j]),
        forall|j: int| players0.len() <= j < players1.len() && players1[j].spec_name() == target ==> received_nothing(#[trigger] players1[j]),
        forall|j: int| 0 <= j < players2.len() && players2[j].spec_name() == target ==> #[trigger] players3[j] == players2[j],
        players2.len() <= players3.len(),
        players1.len() <= players2.len(),
        forall|j: int| 0 <= j < players1.len() ==> (#[trigger] players2[j]).spec_name() == players1[j].spec_name(),
    ensures
        received_by(players0, players3, target, r, value, offset, settings, names),
{
    let (k, a) = choose|k: int, a: Player<D, H>|
        0 <= k < players2.len() && players2[k].spec_name() == target && (if k < players1.len() {
            same_received(a, players1[k])
        } else {
            received_nothing(a)
        }) && #[trigger] in_groups_step(a, players2[k], r, value, offset, settings, names);
    assert(players3[k] == players2[k]);
    if k < players1.len() {
        if k < players0.len() {
            assert(same_received(players1[k], players0[k]));
        } else {
            assert(received_nothing(players1[k]));
        }
    }
    assert(in_groups_step(a, players3[k], r, value, offset, settings, names));
}

/// Different names have different handles.
proof fn lemma_distinct_handles(names: Seq<Seq<char>>, x: Seq<char>, y: Seq<char>, hx: NameHandle, hy: NameHandle)
    requires
        x != y,
        names.len() < UNKNOWN_HANDLE,
        x.len() > 0 ==> hx.0 < names.len() && names[hx.0 as int] == x,
        x.len() == 0 ==> hx.0 == UNKNOWN_HANDLE,
        y.len() > 0 ==> hy.0 < names.len() && names[hy.0 as int] == y,
        y.len() == 0 ==> hy.0 == UNKNOWN_HANDLE,
    ensures
        hx != hy,
{
    if x.len() == 0 && y.len() == 0 {
        assert(x =~= y);
    }
}

/// Whether the player behind a non player source receives the record's value, and
/// only once: it is not also the target.
pub open spec fn owner_receives_once(r: SpecRecord) -> bool {
    &&& r.indirect_source is Player
    &&& r.source is NonPlayer
    &&& !(r.target is Player && r.indirect_source.name() == r.target.name())
}

/// Whether the record's target player is also the player behind its non player
/// source: that player receives the value twice, once as target and once as owner.
pub open spec fn owner_is_target(r: SpecRecord) -> bool {
    &&& r.target is Player
    &&& r.indirect_source is Player
    &&& r.source is NonPlayer
    &&& r.indirect_source.name() == r.target.name()
}

/// Among `after`, the player named `name` received the record's value twice: in
/// addition to what it had received in `before`, or to nothing where it is new there,
/// the value is filed once and then once more (see `in_groups_step`).
pub open spec fn received_twice_by<D: Copy, H: Copy>(
    before: Seq<Player<D, H>>,
    after: Seq<Player<D, H>>,
    name: NameHandle,
    r: SpecRecord,
    value: RecordValue<D, H>,
    offset: u32,
    settings: AnalysisSettings,
    names: Seq<Seq<char>>,
) -> bool {
    exists|k: int, a: Player<D, H>, m: Player<D, H>|
        #![trigger in_groups_step(a, m, r, value, offset, settings, names), in_groups_step(m, after[k], r, value, offset, settings, names)]
        0 <= k < after.len() && after[k].spec_name() == name && (if k < before.len() {
            same_received(a, before[k])
        } else {
            received_nothing(a)
        }) && in_groups_step(a, m, r, value, offset, settings, names)
            && in_groups_step(m, after[k], r, value, offset, settings, names)
}

/// A player that received the value and then receives it again has received it
/// twice.
proof fn lemma_received_twice<D: Copy, H: Copy>(
    players0: Seq<Player<D, H>>,
    players1: Seq<Player<D, H>>,
    players2: Seq<Player<D, H>>,
    names: Seq<Seq<char>>,
    h: NameHandle,
    r: SpecRecord,
    value: RecordValue<D, H>,
    offset: u32,
    settings: AnalysisSettings,
)
    requires
        received_by(players0, players1, h, r, value, offset, settings, names),
        received_by(players1, players2, h, r, value, offset, settings, names),
        players1.len() <= players2.len(),
        forall|j: int| 0 <= j < players1.len() ==> (#[trigger] players2[j]).spec_name() == players1[j].spec_name(),
        distinct_players(players2),
    ensures
        received_twice_by(players0, players2, h, r, value, offset, settings, names),
{
    let (k1, a) = choose|k1: int, a: Player<D, H>|
        0 <= k1 < players1.len() && players1[k1].spec_name() == h && (if k1 < players0.len() {
            same_received(a, players0[k1])
        } else {
            received_nothing(a)
        }) && #[trigger] in_groups_step(a, players1[k1], r, value, offset, settings, names);
    let (k2, m) = choose|k2: int, m: Player<D, H>|
        0 <= k2 < players2.len() && players2[k2].spec_name() == h && (if k2 < players1.len() {
            same_received(m, players1[k2])
        } else {
            received_nothing(m)
        }) && #[trigger] in_groups_step(m, players2[k2], r, value, offset, settings, names);
    assert(players2[k1].spec_name() == h);
    if k1 != k2 {
        if k1 < k2 {
            assert(players2[k1].spec_name() != players2[k2].spec_name());
        } else {
            assert(players2[k2].spec_name() != players2[k1].spec_name());
        }
    }
    assert(in_groups_step(a, m, r, value, offset, settings, names));
    assert(in_groups_step(m, players2[k1], r, value, offset, settings, names));
}

/// The active time and the combat time of the player at index `j` of `players`, or no
/// times for a player that is not there yet.
pub open spec fn times_before<D, H>(players: Seq<Player<D, H>>, j: int) -> (Option<Range<i64>>, Option<Range<i64>>) {
    if 0 <= j < players.len() {
        (players[j].active_time, players[j].combat_time)
    } else {
        (None, None)
    }
}

/// `b` has the times `before`, its active time extended to `time` where `active` holds
/// and its combat time where `combat` holds.
pub open spec fn timed<D, H>(
    before: (Option<Range<i64>>, Option<Range<i64>>),
    b: Player<D, H>,
    time: i64,
    active: bool,
    combat: bool,
) -> bool {
    &&& b.active_time == if active {
        extend_time(before.0, time)
    } else {
        before.0
    }
    &&& b.combat_time == if combat {
        extend_time(before.1, time)
    } else {
        before.1
    }
}

/// Whether the player named `name` is active at the record: it caused the record's
/// value (and no exclusion rule matches the record), or it received damage from it,
/// as the target, as the player behind a non player source, or as a source without a
/// target and an indirect source.
pub open spec fn takes_active_time<D, H>(
    r: SpecRecord,
    value: RecordValue<D, H>,
    settings: AnalysisSettings,
    names: Seq<Seq<char>>,
    name: NameHandle,
) -> bool {
    ||| r.source is Player && !any_rule_matches(settings.damage_out_exclusion_rules@, r) && name == handle_of(
        names,
        r.source.name()->0,
    )
    ||| value is Damage && r.target is Player && name == handle_of(names, r.target.name()->0)
    ||| value is Damage && r.indirect_source is Player && r.source is NonPlayer && name == handle_of(
        names,
        r.indirect_source.name()->0,
    )
    ||| value is Damage && self_receives(r) && name == handle_of(names, r.source.name()->0)
}

/// Whether the player named `name` is in combat at the record: it caused the record's
/// damage (and no exclusion rule matches the record), the damage is no direct self
/// damage, and it is neither immune nor zero.
pub open spec fn takes_combat_time<D, H>(
    r: SpecRecord,
    value: RecordValue<D, H>,
    is_all_zero: bool,
    settings: AnalysisSettings,
    names: Seq<Seq<char>>,
    name: NameHandle,
) -> bool {
    &&& r.source is Player && !any_rule_matches(settings.damage_out_exclusion_rules@, r)
    &&& name == handle_of(names, r.source.name()->0)
    &&& value is Damage && !spec_is_direct_self_damage(r, value) && !spec_is_immune_or_zero(r, is_all_zero)
}

/// Every player of `after` has the times it had in `before` (none where it is new),
/// extended to `time` where it is named `name`: the active time where `active` holds,
/// the combat time where `combat` holds.
pub open spec fn stepped<D: Copy, H: Copy>(
    before: Seq<Player<D, H>>,
    after: Seq<Player<D, H>>,
    time: i64,
    name: NameHandle,
    active: bool,
    combat: bool,
) -> bool {
    forall|j: int|
        #![trigger after[j]]
        0 <= j < after.len() ==> timed(
            times_before(before, j),
            after[j],
            time,
            after[j].spec_name() == name && active,
            after[j].spec_name() == name && combat,
        )
}

/// Extending a time twice to the same time extends it once.
proof fn lemma_extend_time_twice(t: Option<Range<i64>>, time: i64)
    ensures
        extend_time(extend_time(t, time), time) == extend_time(t, time),
{
}

/// A step that changes no player extends no time.
proof fn lemma_stepped_none<D: Copy, H: Copy>(p: Seq<Player<D, H>>, time: i64, name: NameHandle)
    ensures
        stepped(p, p, time, name, false, false),
{
}

/// A player that is new in `p2` is none of the players of `p1`.
proof fn lemma_new_is_other<D: Copy, H: Copy>(p1: Seq<Player<D, H>>, p2: Seq<Player<D, H>>, j: int, name: NameHandle)
    requires
        p1.len() <= j < p2.len(),
        forall|i: int| 0 <= i < p1.len() ==> (#[trigger] p2[i]).spec_name() == p1[i].spec_name(),
        forall|a: int, b: int| 0 <= a < b < p2.len() ==> p2[a].spec_name() != p2[b].spec_name(),
        exists|k: int| 0 <= k < p1.len() && p1[k].spec_name() == name,
    ensures
        p2[j].spec_name() != name,
{
    let k = choose|k: int| 0 <= k < p1.len() && p1[k].spec_name() == name;
    assert(p2[k].spec_name() == name);
    assert(p2[k].spec_name() != p2[j].spec_name());
}

/// Four steps that extend times to the same time make one, which extends the times of
/// the players that any of the steps extends.
proof fn lemma_stepped_four<D: Copy, H: Copy>(
    p0: Seq<Player<D, H>>,
    p1: Seq<Player<D, H>>,
    p2: Seq<Player<D, H>>,
    p3: Seq<Player<D, H>>,
    p4: Seq<Player<D, H>>,
    time: i64,
    h1: NameHandle,
    a1: bool,
    c1: bool,
    h2: NameHandle,
    a2: bool,
    c2: bool,
    h3: NameHandle,
    a3: bool,
    c3: bool,
    h4: NameHandle,
    a4: bool,
    c4: bool,
)
    requires
        p0.len() <= p1.len() <= p2.len() <= p3.len() <= p4.len(),
        forall|j: int| 0 <= j < p1.len() ==> (#[trigger] p2[j]).spec_name() == p1[j].spec_name(),
        forall|j: int| 0 <= j < p2.len() ==> (#[trigger] p3[j]).spec_name() == p2[j].spec_name(),
        forall|j: int| 0 <= j < p3.len() ==> (#[trigger] p4[j]).spec_name() == p3[j].spec_name(),
        forall|a: int, b: int| 0 <= a < b < p4.len() ==> p4[a].spec_name() != p4[b].spec_name(),
        a1 || c1 ==> exists|k: int| 0 <= k < p1.len() && p1[k].spec_name() == h1,
        a2 || c2 ==> exists|k: int| 0 <= k < p2.len() && p2[k].spec_name() == h2,
        a3 || c3 ==> exists|k: int| 0 <= k < p3.len() && p3[k].spec_name() == h3,
        stepped(p0, p1, time, h1, a1, c1),
        stepped(p1, p2, time, h2, a2, c2),
        stepped(p2, p3, time, h3, a3, c3),
        stepped(p3, p4, time, h4, a4, c4),
    ensures
        forall|j: int|
            #![trigger p4[j]]
            0 <= j < p4.len() ==> {
                let n = p4[j].spec_name();
                timed(
                    times_before(p0, j),
                    p4[j],
                    time,
                    (n == h1 && a1) || (n == h2 && a2) || (n == h3 && a3) || (n == h4 && a4),
                    (n == h1 && c1) || (n == h2 && c2) || (n == h3 && c3) || (n == h4 && c4),
                )
            },
{
    assert forall|a: int, b: int| 0 <= a < b < p3.len() implies p3[a].spec_name() != p3[b].spec_name() by {
        assert(p4[a].spec_name() != p4[b].spec_name());
    }
    assert forall|a: int, b: int| 0 <= a < b < p2.len() implies p2[a].spec_name() != p2[b].spec_name() by {
        assert(p3[a].spec_name() != p3[b].spec_name());
    }
    assert forall|j: int| #![trigger p4[j]] 0 <= j < p4.len() implies {
        let n = p4[j].spec_name();
        timed(
            times_before(p0, j),
            p4[j],
            time,
            (n == h1 && a1) || (n == h2 && a2) || (n == h3 && a3) || (n == h4 && a4),
            (n == h1 && c1) || (n == h2 && c2) || (n == h3 && c3) || (n == h4 && c4),
        )
    } by {
        let n = p4[j].spec_name();
        if j < p3.len() {
            assert(p3[j].spec_name() == n);
            if j < p2.len() {
                assert(p2[j].spec_name() == n);
                if j < p1.len() {
                    assert(p1[j].spec_name() == n);
                } else {
                    if a1 || c1 {
                        lemma_new_is_other(p1, p2, j, h1);
                    }
                }
            } else {
                if a1 || c1 {
                    assert(exists|k: int| 0 <= k < p2.len() && p2[k].spec_name() == h1) by {
                        let k = choose|k: int| 0 <= k < p1.len() && p1[k].spec_name() == h1;
                        assert(p2[k].spec_name() == h1);
                    }
                    lemma_new_is_other(p2, p3, j, h1);
                }
                if a2 || c2 {
                    lemma_new_is_other(p2, p3, j, h2);
                }
            }
        } else {
            if a1 || c1 {
                assert(exists|k: int| 0 <= k < p3.len() && p3[k].spec_name() == h1) by {
                    let k = choose|k: int| 0 <= k < p1.len() && p1[k].spec_name() == h1;
                    assert(p2[k].spec_name() == h1);
                    assert(p3[k].spec_name() == h1);
                }
                lemma_new_is_other(p3, p4, j, h1);
            }
            if a2 || c2 {
                assert(exists|k: int| 0 <= k < p3.len() && p3[k].spec_name() == h2) by {
                    let k = choose|k: int| 0 <= k < p2.len() && p2[k].spec_name() == h2;
                    assert(p3[k].spec_name() == h2);
                }
                lemma_new_is_other(p3, p4, j, h2);
            }
            if a3 || c3 {
                lemma_new_is_other(p3, p4, j, h3);
            }
        }
        let t0 = times_before(p0, j);
        lemma_extend_time_twice(t0.0, time);
        lemma_extend_time_twice(t0.1, time);
        lemma_extend_time_twice(extend_time(t0.0, time), time);
        lemma_extend_time_twice(extend_time(t0.1, time), time);
    }
}

/// Whether the player named `name` is one that the record names as a player: the
/// source, the target, or the player behind a non player source.
pub open spec fn names_player(r: SpecRecord, names: Seq<Seq<char>>, name: NameHandle) -> bool {
    ||| r.source is Player && name == handle_of(names, r.source.name()->0)
    ||| r.target is Player && name == handle_of(names, r.target.name()->0)
    ||| r.indirect_source is Player && r.source is NonPlayer && name == handle_of(names, r.indirect_source.name()->0)
}

/// `after` is `before` but for the player named `name`, where `taken` holds: the other
/// players stay as they are and keep their places, and the players that come new are
/// named `name`, of which one is there.
pub open spec fn kept_but<D: Copy, H: Copy>(
    before: Seq<Player<D, H>>,
    after: Seq<Player<D, H>>,
    name: NameHandle,
    taken: bool,
) -> bool {
    &&& before.len() <= after.len()
    &&& (forall|j: int| #![trigger after[j]] 0 <= j < before.len() ==> after[j].spec_name() == before[j].spec_name())
    &&& (forall|j: int|
        #![trigger after[j]]
        0 <= j < before.len() && (!taken || before[j].spec_name() != name) ==> after[j] == before[j])
    &&& (forall|j: int| #![trigger after[j]] before.len() <= j < after.len() ==> taken && after[j].spec_name() == name)
    &&& taken ==> exists|k: int| 0 <= k < after.len() && after[k].spec_name() == name
}

/// A step that changes no player keeps every player.
proof fn lemma_kept_none<D: Copy, H: Copy>(p: Seq<Player<D, H>>, name: NameHandle)
    ensures
        kept_but(p, p, name, false),
{
}

/// Whether `n` is the name of one of four steps that are taken.
pub open spec fn one_of(
    n: NameHandle,
    h1: NameHandle,
    t1: bool,
    h2: NameHandle,
    t2: bool,
    h3: NameHandle,
    t3: bool,
    h4: NameHandle,
    t4: bool,
) -> bool {
    (t1 && n == h1) || (t2 && n == h2) || (t3 && n == h3) || (t4 && n == h4)
}

/// A player that is new after a step that changes only the player named `name` is
/// named `name`.
proof fn lemma_kept_new<D: Copy, H: Copy>(
    before: Seq<Player<D, H>>,
    after: Seq<Player<D, H>>,
    name: NameHandle,
    taken: bool,
    j: int,
)
    requires
        kept_but(before, after, name, taken),
        before.len() <= j < after.len(),
    ensures
        taken && after[j].spec_name() == name,
{
    assert(before.len() <= after.len());
    assert(forall|i: int| #![trigger after[i]] 0 <= i < before.len() ==> after[i].spec_name() == before[i].spec_name());
    assert(taken ==> exists|k: int| 0 <= k < after.len() && after[k].spec_name() == name);
    assert(after[j].spec_name() == name);
    assert(taken);
}

/// Four steps that each change only the player of one name change only the players of
/// those names, and add only players of those names, each of which is there after.
proof fn lemma_kept_four<D: Copy, H: Copy>(
    p0: Seq<Player<D, H>>,
    p1: Seq<Player<D, H>>,
    p2: Seq<Player<D, H>>,
    p3: Seq<Player<D, H>>,
    p4: Seq<Player<D, H>>,
    h1: NameHandle,
    t1: bool,
    h2: NameHandle,
    t2: bool,
    h3: NameHandle,
    t3: bool,
    h4: NameHandle,
    t4: bool,
)
    requires
        kept_but(p0, p1, h1, t1),
        kept_but(p1, p2, h2, t2),
        kept_but(p2, p3, h3, t3),
        kept_but(p3, p4, h4, t4),
    ensures
        p0.len() <= p4.len(),
        forall|j: int|
            #![trigger p0[j]]
            0 <= j < p0.len() && !(one_of(p0[j].spec_name(), h1, t1, h2, t2, h3, t3, h4, t4)) ==> p4[j] == p0[j],
        forall|j: int|
            #![trigger p4[j]]
            p0.len() <= j < p4.len() ==> one_of(p4[j].spec_name(), h1, t1, h2, t2, h3, t3, h4, t4),
        t1 ==> exists|k: int| 0 <= k < p4.len() && p4[k].spec_name() == h1,
        t2 ==> exists|k: int| 0 <= k < p4.len() && p4[k].spec_name() == h2,
        t3 ==> exists|k: int| 0 <= k < p4.len() && p4[k].spec_name() == h3,
        t4 ==> exists|k: int| 0 <= k < p4.len() && p4[k].spec_name() == h4,
{
    assert forall|j: int|
        #![trigger p0[j]]
        0 <= j < p0.len() && !(one_of(p0[j].spec_name(), h1, t1, h2, t2, h3, t3, h4, t4)) implies p4[j] == p0[j] by {
        assert(p1[j] == p0[j]);
        assert(p2[j] == p1[j]);
        assert(p3[j] == p2[j]);
        assert(p4[j] == p3[j]);
    }
    assert forall|j: int|
        #![trigger p4[j]]
        p0.len() <= j < p4.len() implies one_of(p4[j].spec_name(), h1, t1, h2, t2, h3, t3, h4, t4) by {
        if j < p3.len() {
            assert(p4[j].spec_name() == p3[j].spec_name());
            if j < p2.len() {
                assert(p3[j].spec_name() == p2[j].spec_name());
                if j < p1.len() {
                    assert(p2[j].spec_name() == p1[j].spec_name());
                    assert(t1 && p1[j].spec_name() == h1);
                } else {
                    assert(t2 && p2[j].spec_name() == h2);
                }
            } else {
                assert(t3 && p3[j].spec_name() == h3);
            }
        } else {
            lemma_kept_new(p3, p4, h4, t4, j);
        }
    }
    if t1 {
        let k = choose|k: int| 0 <= k < p1.len() && p1[k].spec_name() == h1;
        assert(p2[k].spec_name() == h1);
        assert(p3[k].spec_name() == h1);
        assert(p4[k].spec_name() == h1);
    }
    if t2 {
        let k = choose|k: int| 0 <= k < p2.len() && p2[k].spec_name() == h2;
        assert(p3[k].spec_name() == h2);
        assert(p4[k].spec_name() == h2);
    }
    if t3 {
        let k = choose|k: int| 0 <= k < p3.len() && p3[k].spec_name() == h3;
        assert(p4[k].spec_name() == h3);
    }
}

/// Whether the source player receives its own value: the record has neither a target
/// nor an indirect source.
pub open spec fn self_receives(r: SpecRecord) -> bool {
    r.source is Player && r.indirect_source is Absent && r.target is Absent
}

/// The handles that the name manager gives a damage type and the damage type `Shield`
/// are those that `handle_of` and `shield_handle_of` name.
proof fn lemma_damage_type_handles(
    names: Seq<Seq<char>>,
    value_type: Seq<char>,
    value_type_handle: NameHandle,
    shield: Option<NameHandle>,
)
    requires
        forall|i: int, j: int| 0 <= i < j < names.len() ==> names[i] != names[j],
        value_type.len() == 0 ==> value_type_handle.0 == UNKNOWN_HANDLE,
        value_type.len() > 0 ==> value_type_handle.0 < names.len() && names[value_type_handle.0 as int] == value_type,
        "Shield"@.len() > 0 && names.contains("Shield"@) ==> (shield matches Some(h) && h.0
            < names.len() && names[h.0 as int] == "Shield"@),
        "Shield"@.len() > 0 && !names.contains("Shield"@) ==> shield is None,
    ensures
        value_type_handle == handle_of(names, value_type),
        shield == shield_handle_of(names),
{
    reveal_strlit("Shield");
    if value_type.len() > 0 {
        lemma_handle_of(names, value_type, value_type_handle.0 as int);
    }
    if names.contains("Shield"@) {
        let h = shield.unwrap();
        lemma_handle_of(names, "Shield"@, h.0 as int);
    }
}

/// Whether the record's source is a player and its value is damage.
pub open spec fn spec_is_player_out_damage<D, H>(r: SpecRecord, value: RecordValue<D, H>) -> bool {
    r.source is Player && value is Damage
}

/// Only damage that a player causes counts for a combat's combat time: a record whose
/// source is not a player, or whose value is a heal, leaves a combat time as it is and
/// gives a combat that it begins no combat time; a player's damage that is neither
/// immune nor zero extends the combat time to the record's time (as `Combat::update_time`
/// and `Analyzer::process_record` state through `spec_is_player_out_damage`).
pub proof fn law_combat_time_counts_player_damage<D, H>(
    r: SpecRecord,
    value: RecordValue<D, H>,
    is_all_zero: bool,
    combat_time: Option<Range<i64>>,
    time: i64,
)
    ensures
        !(r.source is Player) || value is Heal ==> (if spec_is_player_out_damage(r, value) && !spec_is_immune_or_zero(
            r,
            is_all_zero,
        ) {
            extend_time(combat_time, time)
        } else {
            combat_time
        }) == combat_time,
        !(r.source is Player) || value is Heal ==> (if spec_is_player_out_damage(r, value) {
            Some(Range { start: time, end: time })
        } else {
            None
        }) == None::<Range<i64>>,
        r.source is Player && value is Damage && !spec_is_immune_or_zero(r, is_all_zero) ==> (if spec_is_player_out_damage(
            r,
            value,
        ) && !spec_is_immune_or_zero(r, is_all_zero) {
            extend_time(combat_time, time)
        } else {
            combat_time
        }) == extend_time(combat_time, time),
        r.source is Player && value is Damage ==> (if spec_is_player_out_damage(r, value) {
            Some(Range { start: time, end: time })
        } else {
            None
        }) == Some(Range { start: time, end: time }),
{
}

/// What a record's value counts as: immune or zero where the record says so by its
/// numbers or by the immune flag; direct self damage where damage has neither a target
/// nor an indirect source (a heal never is); caused by a player exactly for a player's
/// damage.
pub proof fn law_record_kinds<D, H>(r: SpecRecord, value: RecordValue<D, H>, is_all_zero: bool)
    ensures
        spec_is_immune_or_zero(r, is_all_zero) <==> (is_all_zero || r.value_flags & 8 == 8),
        spec_is_direct_self_damage(r, value) <==> (r.target is Absent && r.indirect_source is Absent
            && value is Damage),
        value is Heal ==> !spec_is_direct_self_damage(r, value) && !spec_is_player_out_damage(r, value),
        spec_is_player_out_damage(r, value) <==> (r.source is Player && value is Damage),
{
}

/// Whether the record's value is immune or zero.
pub open spec fn spec_is_immune_or_zero(r: SpecRecord, is_all_zero: bool) -> bool {
    is_all_zero || r.value_flags & ValueFlags::IMMUNE == ValueFlags::IMMUNE
}

/// Whether the record is damage without a target and without an indirect source.
pub open spec fn spec_is_direct_self_damage<D, H>(r: SpecRecord, value: RecordValue<D, H>) -> bool {
    r.target is Absent && r.indirect_source is Absent && value is Damage
}

impl<'a> Record<'a> {
    /// Whether the source is a player and the value is damage.
    pub fn is_player_out_damage<D, H>(&self, value: &RecordValue<D, H>) -> (res: bool)
        ensures
            res == spec_is_player_out_damage(self@, *value),
    {
        self.source.is_player() && value.is_damage()
    }

    /// Whether the value is immune or all of its numbers are zero.
    pub fn is_immune_or_zero(&self, is_all_zero: bool) -> (res: bool)
        ensures
            res == spec_is_immune_or_zero(self@, is_all_zero),
    {
        is_all_zero || self.value_flags.contains(ValueFlags::IMMUNE)
    }

    /// Whether the record is damage without a target and without an indirect source.
    pub fn is_direct_self_damage<D, H>(&self, value: &RecordValue<D, H>) -> (res: bool)
        ensures
            res == spec_is_direct_self_damage(self@, *value),
    {
        self.is_self_directed() && value.is_damage()
    }
}

/// What one player did and received in a combat.
#[derive(Debug)]
pub struct Player<D, H> {
    pub combat_time: Option<Range<i64>>,
    pub active_time: Option<Range<i64>>,
    pub damage_out: DamageGroup<TimedValue<D>>,
    pub damage_in: DamageGroup<TimedValue<D>>,
    pub heal_out: HealGroup<TimedValue<H>>,
    pub heal_in: HealGroup<TimedValue<H>>,
}

impl<D: Copy, H: Copy> Player<D, H> {
    /// The four groups are well formed branches.
    pub open spec fn wf(self) -> bool {
        &&& self.damage_out.wf()
        &&& self.damage_in.wf()
        &&& self.heal_out.wf()
        &&& self.heal_in.wf()
        &&& self.damage_out.values is Branch
        &&& self.damage_in.values is Branch
        &&& self.heal_out.values is Branch
        &&& self.heal_in.values is Branch
    }

    /// The player's name, which names all four of its groups.
    pub open spec fn spec_name(self) -> NameHandle {
        self.damage_out.segment.spec_name()
    }

    /// The player has no values and no times yet.
    pub open spec fn is_fresh(self) -> bool {
        &&& self.combat_time is None
        &&& self.active_time is None
        &&& self.damage_out.stored() == 0
        &&& self.damage_in.stored() == 0
        &&& self.heal_out.stored() == 0
        &&& self.heal_in.stored() == 0
    }

    /// A player without values.
    pub fn new(full_name: NameHandle) -> (res: Self)
        ensures
            res.wf(),
            res.is_fresh(),
            res.spec_name() == full_name,
            res.combat_time is None,
            res.active_time is None,
            res.damage_out.stored() == 0,
            res.damage_in.stored() == 0,
            res.heal_out.stored() == 0,
            res.heal_in.stored() == 0,
    {
        Player {
            combat_time: None,
            active_time: None,
            damage_out: Group::new_branch(GroupPathSegment::Group(full_name)),
            damage_in: Group::new_branch(GroupPathSegment::Group(full_name)),
            heal_out: Group::new_branch(GroupPathSegment::Group(full_name)),
            heal_in: Group::new_branch(GroupPathSegment::Group(full_name)),
        }
    }

    /// Extends the player's combat time to the record, unless its value is immune or zero.
    pub fn update_combat_time(&mut self, record: &Record, is_all_zero: bool)
        ensures
            final(self).combat_time == if spec_is_immune_or_zero(record@, is_all_zero) {
                old(self).combat_time
            } else {
                extend_time(old(self).combat_time, record.time)
            },
            final(self).active_time == old(self).active_time,
            final(self).damage_out == old(self).damage_out,
            final(self).damage_in == old(self).damage_in,
            final(self).heal_out == old(self).heal_out,
            final(self).heal_in == old(self).heal_in,
    {
        if record.is_immune_or_zero(is_all_zero) {
            return;
        }
        self.combat_time = extended_time(&self.combat_time, record.time);
    }

    /// Extends the player's active time to the record.
    pub fn update_active_time(&mut self, record: &Record)
        ensures
            final(self).active_time == extend_time(old(self).active_time, record.time),
            final(self).combat_time == old(self).combat_time,
            final(self).damage_out == old(self).damage_out,
            final(self).damage_in == old(self).damage_in,
            final(self).heal_out == old(self).heal_out,
            final(self).heal_in == old(self).heal_in,
    {
        self.active_time = extended_time(&self.active_time, record.time);
    }

    /// Adds a value that the player caused: damage (but not direct self damage) below
    /// the target, heals with the target outermost. Records that an exclusion rule
    /// matches are left out.
    pub fn add_out_value(
        &mut self,
        record: &Record,
        value: RecordValue<D, H>,
        is_all_zero: bool,
        combat_start_offset_millis: u32,
        settings: &AnalysisSettings,
        name_manager: &mut NameManager,
    )
        requires
            old(self).wf(),
            old(name_manager).wf(),
            room_for_group_name(old(name_manager).names(), record@, *settings),
            !any_rule_matches(settings.damage_out_exclusion_rules@, record@) ==> {
                &&& knows_path_names(old(name_manager).names(), record@)
                &&& (out_target_name(record@) matches Some(n) ==> knows_name(old(name_manager).names(), n))
                &&& (value is Damage && !spec_is_direct_self_damage(record@, value)) ==> knows_name(
                    old(name_manager).names(),
                    record@.value_type,
                )
            },
        ensures
            final(self).wf(),
            final(name_manager).wf(),
            final(name_manager).names().len() <= old(name_manager).names().len() + 1,
            old(name_manager).names().is_prefix_of(final(name_manager).names()),
            keeps_roles(*old(name_manager), *final(name_manager)),
            final(self).spec_name() == old(self).spec_name(),
            final(self).damage_in == old(self).damage_in,
            final(self).heal_in == old(self).heal_in,
            any_rule_matches(settings.damage_out_exclusion_rules@, record@) ==> *final(self)
                == *old(self) && *final(name_manager) == *old(name_manager),
            !any_rule_matches(settings.damage_out_exclusion_rules@, record@) ==> {
                &&& final(self).active_time == extend_time(old(self).active_time, record.time)
                &&& (value is Damage && !spec_is_direct_self_damage(record@, value)) ==> {
                    &&& final(self).damage_out.stored() == old(self).damage_out.stored() + 1
                    &&& final(self).heal_out == old(self).heal_out
                    &&& final(self).combat_time == if spec_is_immune_or_zero(record@, is_all_zero) {
                        old(self).combat_time
                    } else {
                        extend_time(old(self).combat_time, record.time)
                    }
                }
                &&& value is Heal ==> {
                    &&& final(self).heal_out.stored() == old(self).heal_out.stored() + 1
                    &&& final(self).damage_out == old(self).damage_out
                    &&& final(self).combat_time == old(self).combat_time
                }
                &&& spec_is_direct_self_damage(record@, value) ==> {
                    &&& final(self).heal_out == old(self).heal_out
                    &&& final(self).damage_out == old(self).damage_out
                    &&& final(self).combat_time == old(self).combat_time
                }
                &&& value matches RecordValue::Damage(d) ==> (!spec_is_direct_self_damage(record@, value)
                    ==> gains(
                    old(self).damage_out,
                    final(self).damage_out,
                    GroupPathSegment::Group(handle_of_some(final(name_manager).names(), out_target_name(record@))),
                    TimedValue { value: d, time_millis: combat_start_offset_millis },
                ))
                &&& value matches RecordValue::Heal(h) ==> gains(
                    old(self).heal_out,
                    final(self).heal_out,
                    spec_grouping_path(record@, *settings, final(name_manager).names())[0],
                    TimedValue { value: h, time_millis: combat_start_offset_millis },
                )
                &&& knows_custom_group_name(final(name_manager).names(), record@, *settings)
            },
            out_groups_step(
                *old(self),
                *final(self),
                record@,
                value,
                combat_start_offset_millis,
                *settings,
                final(name_manager).names(),
            ),
            knows_custom_group_name(old(name_manager).names(), record@, *settings) ==> final(name_manager).names() == old(name_manager).names(),
    {
        if any_rule_matches_record(&settings.damage_out_exclusion_rules, record) {
            return;
        }
        self.update_active_time(record);
        let mut path = build_grouping_path(record, settings, name_manager);
        let target_name = if record.is_self_directed() {
            record.source.name()
        } else {
            match record.target.name() {
                Some(n) => Some(n),
                None => record.indirect_source.name(),
            }
        };
        proof {
            let names = name_manager.names();
            if let Some(n) = out_target_name(record@) {
                if n.len() > 0 {
                    lemma_prefix_contains(old(name_manager).names(), names, n);
                }
            }
            if record@.value_type.len() > 0 && value is Damage && !spec_is_direct_self_damage(record@, value) {
                lemma_prefix_contains(old(name_manager).names(), names, record@.value_type);
            }
        }
        let target_handle = match target_name {
            Some(n) => name_manager.handle(n),
            None => NameHandle::unknown(),
        };
        proof {
            if let Some(n) = target_name {
                if n@.len() > 0 {
                    lemma_handle_of(name_manager.names(), n@, target_handle.0 as int);
                }
            }
            assert(target_handle == handle_of_some(name_manager.names(), out_target_name(record@)));
        }
        match value {
            RecordValue::Damage(damage) => {
                if !record.is_direct_self_damage(&value) {
                    path.push_front(GroupPathSegment::Group(target_handle));
                    let value_type = name_manager.handle(record.value_type);
                    let shield = name_manager.get_handle("Shield");
                    proof {
                        lemma_damage_type_handles(name_manager.names(), record.value_type@, value_type, shield);
                    }
                    let hit = TimedValue { value: damage, time_millis: combat_start_offset_millis };
                    self.damage_out.add_value(
                        path.as_slice(),
                        hit,
                        Some(value_type),
                        shield,
                        record.value_flags.contains(ValueFlags::KILL),
                    );
                    self.update_combat_time(record, is_all_zero);
                }
            },
            RecordValue::Heal(heal) => {
                path.push(GroupPathSegment::Group(target_handle));
                let tick = TimedValue { value: heal, time_millis: combat_start_offset_millis };
                self.heal_out.add_value(path.as_slice(), tick, None, None, false);
            },
        }
    }

    /// Adds a value that the player received, with the source outermost.
    pub fn add_in_value(
        &mut self,
        record: &Record,
        value: RecordValue<D, H>,
        combat_start_offset_millis: u32,
        settings: &AnalysisSettings,
        name_manager: &mut NameManager,
    )
        requires
            old(self).wf(),
            old(name_manager).wf(),
            room_for_group_name(old(name_manager).names(), record@, *settings),
            knows_entity_name(old(name_manager).names(), record@.source),
            knows_path_names(old(name_manager).names(), record@),
            value is Damage ==> knows_name(old(name_manager).names(), record@.value_type),
        ensures
            final(self).wf(),
            final(name_manager).wf(),
            final(name_manager).names().len() <= old(name_manager).names().len() + 1,
            old(name_manager).names().is_prefix_of(final(name_manager).names()),
            keeps_roles(*old(name_manager), *final(name_manager)),
            final(self).spec_name() == old(self).spec_name(),
            final(self).damage_out == old(self).damage_out,
            final(self).heal_out == old(self).heal_out,
            final(self).combat_time == old(self).combat_time,
            value is Damage ==> {
                &&& final(self).damage_in.stored() == old(self).damage_in.stored() + 1
                &&& final(self).heal_in == old(self).heal_in
                &&& final(self).active_time == extend_time(old(self).active_time, record.time)
            },
            value is Heal ==> {
                &&& final(self).heal_in.stored() == old(self).heal_in.stored() + 1
                &&& final(self).damage_in == old(self).damage_in
                &&& final(self).active_time == old(self).active_time
            },
            value matches RecordValue::Damage(d) ==> gains(
                old(self).damage_in,
                final(self).damage_in,
                spec_grouping_path(record@, *settings, final(name_manager).names())[0],
                TimedValue { value: d, time_millis: combat_start_offset_millis },
            ),
            value matches RecordValue::Heal(h) ==> gains(
                old(self).heal_in,
                final(self).heal_in,
                spec_grouping_path(record@, *settings, final(name_manager).names())[0],
                TimedValue { value: h, time_millis: combat_start_offset_millis },
            ),
            in_groups_step(
                *old(self),
                *final(self),
                record@,
                value,
                combat_start_offset_millis,
                *settings,
                final(name_manager).names(),
            ),
            knows_custom_group_name(final(name_manager).names(), record@, *settings),
            knows_custom_group_name(old(name_manager).names(), record@, *settings) ==> final(name_manager).names() == old(name_manager).names(),
    {
        let source_handle = match record.source.name() {
            Some(n) => name_manager.handle(n),
            None => NameHandle::unknown(),
        };
        let mut path = build_grouping_path(record, settings, name_manager);
        path.push(GroupPathSegment::Group(source_handle));
        match value {
            RecordValue::Damage(damage) => {
                let value_type = name_manager.handle(record.value_type);
                let shield = name_manager.get_handle("Shield");
                proof {
                    lemma_damage_type_handles(name_manager.names(), record.value_type@, value_type, shield);
                }
                let hit = TimedValue { value: damage, time_millis: combat_start_offset_millis };
                self.damage_in.add_value(
                    path.as_slice(),
                    hit,
                    Some(value_type),
                    shield,
                    record.value_flags.contains(ValueFlags::KILL),
                );
                self.update_active_time(record);
            },
            RecordValue::Heal(heal) => {
                let tick = TimedValue { value: heal, time_millis: combat_start_offset_millis };
                self.heal_in.add_value(path.as_slice(), tick, None, None, false);
            },
        }
    }
}

/// The kills of a kill list summed, wrapping at `u32::MAX`.
pub open spec fn kills_total(kills: Seq<(NameHandle, u32)>) -> u32
    decreases kills.len(),
{
    if kills.len() == 0 {
        0
    } else {
        wrap_add(kills_total(kills.drop_last()), kills.last().1)
    }
}

/// The kills that the players caused (`out`) or suffered, summed over the players,
/// wrapping at `u32::MAX`.
pub open spec fn players_kills<D: Copy, H: Copy>(players: Seq<Player<D, H>>, out: bool) -> u32
    decreases players.len(),
{
    if players.len() == 0 {
        0
    } else {
        let p = players.last();
        wrap_add(
            players_kills(players.drop_last(), out),
            kills_total(if out { p.damage_out.kills@ } else { p.damage_in.kills@ }),
        )
    }
}

/// The damage values of the players, player by player: what each caused, then what it
/// received.
pub open spec fn damage_visible<D: Copy, H: Copy>(players: Seq<Player<D, H>>) -> Seq<TimedValue<D>>
    decreases players.len(),
{
    if players.len() == 0 {
        Seq::empty()
    } else {
        damage_visible(players.drop_last()) + players.last().damage_out.visible()
            + players.last().damage_in.visible()
    }
}

/// The heal values of the players, player by player: what each caused, then what it
/// received.
pub open spec fn heal_visible<D: Copy, H: Copy>(players: Seq<Player<D, H>>) -> Seq<TimedValue<H>>
    decreases players.len(),
{
    if players.len() == 0 {
        Seq::empty()
    } else {
        heal_visible(players.drop_last()) + players.last().heal_out.visible()
            + players.last().heal_in.visible()
    }
}

/// The kills of a kill list that went to names seen as players (`players`), or to
/// the others, summed, wrapping at `u32::MAX`.
pub open spec fn kills_by_player(kills: Seq<(NameHandle, u32)>, nm: NameManager, players: bool) -> u32
    decreases kills.len(),
{
    if kills.len() == 0 {
        0
    } else {
        let rest = kills_by_player(kills.drop_last(), nm, players);
        if nm.has_role(kills.last().0.0 as int, NameFlags::PLAYER) == players {
            wrap_add(rest, kills.last().1)
        } else {
            rest
        }
    }
}

/// Wrapping additions can be done in any order.
proof fn lemma_wrap_add_order(a: u32, b: u32, c: u32)
    ensures
        wrap_add(wrap_add(a, b), c) == wrap_add(wrap_add(a, c), b),
        wrap_add(a, wrap_add(b, c)) == wrap_add(wrap_add(a, b), c),
{
}

/// The kills that went to players and those that went to others make up all kills of
/// a kill list (each sum wrapping at `u32::MAX`).
pub proof fn law_kill_split_sums_to_total(kills: Seq<(NameHandle, u32)>, nm: NameManager)
    ensures
        wrap_add(kills_by_player(kills, nm, true), kills_by_player(kills, nm, false)) == kills_total(kills),
    decreases kills.len(),
{
    if kills.len() > 0 {
        let rest = kills.drop_last();
        law_kill_split_sums_to_total(rest, nm);
        let p = kills_by_player(rest, nm, true);
        let o = kills_by_player(rest, nm, false);
        lemma_wrap_add_order(p, kills.last().1, o);
        lemma_wrap_add_order(p, o, kills.last().1);
    }
}

/// A kill list's counts split by whom the kills went to: first those of names seen
/// as players, then those of the others (non player characters, and the unknown name).
pub fn split_kills(kills: &Vec<(NameHandle, u32)>, name_manager: &NameManager) -> (res: (u32, u32))
    requires
        name_manager.wf(),
    ensures
        res.0 == kills_by_player(kills@, *name_manager, true),
        res.1 == kills_by_player(kills@, *name_manager, false),
{
    let mut player_kills: u32 = 0;
    let mut other_kills: u32 = 0;
    let mut i: usize = 0;
    while i < kills.len()
        invariant
            name_manager.wf(),
            i <= kills@.len(),
            player_kills == kills_by_player(kills@.take(i as int), *name_manager, true),
            other_kills == kills_by_player(kills@.take(i as int), *name_manager, false),
        decreases kills@.len() - i,
    {
        proof {
            assert(kills@.take(i + 1).drop_last() == kills@.take(i as int));
        }
        let (name, count) = kills[i];
        if name_manager.is_player(name) {
            player_kills = player_kills.wrapping_add(count);
        } else {
            other_kills = other_kills.wrapping_add(count);
        }
        i = i + 1;
    }
    assert(kills@.take(kills@.len() as int) == kills@);
    (player_kills, other_kills)
}

/// The sum of a kill list's counts, wrapping at `u32::MAX`.
pub fn sum_kills(kills: &Vec<(NameHandle, u32)>) -> (res: u32)
    ensures
        res == kills_total(kills@),
{
    let mut total: u32 = 0;
    let mut i: usize = 0;
    while i < kills.len()
        invariant
            i <= kills@.len(),
            total == kills_total(kills@.take(i as int)),
        decreases kills@.len() - i,
    {
        proof {
            assert(kills@.take(i + 1).drop_last() == kills@.take(i as int));
        }
        total = total.wrapping_add(kills[i].1);
        i = i + 1;
    }
    assert(kills@.take(kills@.len() as int) == kills@);
    total
}

/// `b` holds the values of `a`: the same name, times, and values in each group.
pub open spec fn same_values<D: Copy, H: Copy>(a: Player<D, H>, b: Player<D, H>) -> bool {
    &&& b.spec_name() == a.spec_name()
    &&& b.combat_time == a.combat_time
    &&& b.active_time == a.active_time
    &&& b.damage_out.stored() == a.damage_out.stored()
    &&& b.damage_in.stored() == a.damage_in.stored()
    &&& b.heal_out.stored() == a.heal_out.stored()
    &&& b.heal_in.stored() == a.heal_in.stored()
    &&& b.damage_out.visible() == a.damage_out.visible()
    &&& b.damage_in.visible() == a.damage_in.visible()
    &&& b.heal_out.visible() == a.heal_out.visible()
    &&& b.heal_in.visible() == a.heal_in.visible()
}

/// Every group of the player names its values in the managers' storage.
pub open spec fn resolved_in<D: Copy, H: Copy>(p: Player<D, H>, hits: Seq<TimedValue<D>>, heals: Seq<TimedValue<H>>) -> bool {
    &&& p.damage_out.resolves(hits)
    &&& p.damage_in.resolves(hits)
    &&& p.heal_out.resolves(heals)
    &&& p.heal_in.resolves(heals)
}

impl<D: Copy, H: Copy> Player<D, H> {
    /// Gathers the values of the player's groups into the managers: every branch then
    /// names the values of its leaves, and sums the kills and joins the damage types
    /// of its sub groups.
    pub fn recalculate(
        &mut self,
        hits_manager: &mut ValuesManager<TimedValue<D>>,
        heal_ticks_manager: &mut ValuesManager<TimedValue<H>>,
    )
        requires
            old(self).wf(),
        ensures
            final(self).wf(),
            same_values(*old(self), *final(self)),
            final(hits_manager)@ == old(hits_manager)@ + old(self).damage_out.visible()
                + old(self).damage_in.visible(),
            final(heal_ticks_manager)@ == old(heal_ticks_manager)@ + old(self).heal_out.visible()
                + old(self).heal_in.visible(),
            resolved_in(*final(self), final(hits_manager)@, final(heal_ticks_manager)@),
            forall|h: NameHandle| #[trigger] count_in(final(self).damage_out.kills@, h) == kill_sum(
                final(self).damage_out.sub_groups@,
                h,
            ),
            forall|h: NameHandle| #[trigger] count_in(final(self).damage_in.kills@, h) == kill_sum(
                final(self).damage_in.sub_groups@,
                h,
            ),
            final(self).damage_out.damage_types@.to_set() == old(self).damage_out.damage_types@.to_set().union(
                types_union(final(self).damage_out.sub_groups@),
            ),
            final(self).damage_in.damage_types@.to_set() == old(self).damage_in.damage_types@.to_set().union(
                types_union(final(self).damage_in.sub_groups@),
            ),
    {
        let ghost h0 = hits_manager@;
        self.damage_out.recalculate(hits_manager);
        let ghost h1 = hits_manager@;
        self.damage_in.recalculate(hits_manager);
        let ghost t0 = heal_ticks_manager@;
        self.heal_out.recalculate(heal_ticks_manager);
        let ghost t1 = heal_ticks_manager@;
        self.heal_in.recalculate(heal_ticks_manager);
        proof {
            lemma_resolves_extend(self.damage_out, h1, old(self).damage_in.visible());
            assert(h1 + old(self).damage_in.visible() == hits_manager@);
            lemma_resolves_extend(self.heal_out, t1, old(self).heal_in.visible());
            assert(t1 + old(self).heal_in.visible() == heal_ticks_manager@);
        }
    }
}

/// Everything recorded about one combat: the log records from one record to the next
/// pause longer than the separation time.
#[derive(Debug)]
pub struct Combat<D, H> {
    pub combat_names: Vec<CombatName>,
    pub combat_time: Option<Range<i64>>,
    pub active_time: Range<i64>,
    pub players: Vec<Player<D, H>>,
    pub log_pos: Option<Range<u64>>,
    pub total_deaths: u32,
    pub total_kills: u32,
    pub name_manager: NameManager,
    pub hits_manger: ValuesManager<TimedValue<D>>,
    pub heal_ticks_manger: ValuesManager<TimedValue<H>>,
}

/// Whether the players in `s` have distinct names.
pub open spec fn distinct_players<D: Copy, H: Copy>(s: Seq<Player<D, H>>) -> bool {
    forall|i: int, j: int| 0 <= i < j < s.len() ==> s[i].spec_name() != s[j].spec_name()
}

/// Whether the players in `s` are well formed.
pub open spec fn players_wf<D: Copy, H: Copy>(s: Seq<Player<D, H>>) -> bool {
    forall|i: int| 0 <= i < s.len() ==> (#[trigger] s[i]).wf()
}

/// The combat's log positions are extended to the record's end.
pub open spec fn extend_log_pos(pos: Option<Range<u64>>, record_pos: Option<Range<u64>>) -> Option<
    Range<u64>,
> {
    match (pos, record_pos) {
        (Some(p), Some(r)) => Some(Range { start: p.start, end: r.end }),
        _ => pos,
    }
}

/// A copy of a log position range.
fn copy_log_pos(pos: &Option<Range<u64>>) -> (res: Option<Range<u64>>)
    ensures
        res == *pos,
{
    match pos {
        Some(p) => Some(p.start..p.end),
        None => None,
    }
}

/// An identifier: the title, the separator, the date, and the times of day of the
/// first and the last record: "title | 2023-01-05 18:01:02 - 18:09:10".
pub open spec fn spec_compose_identifier(
    title: Seq<char>,
    separator: Seq<char>,
    date: Seq<char>,
    start: Seq<char>,
    end: Seq<char>,
) -> Seq<char> {
    title + separator + date + seq![' '] + start + seq![' ', '-', ' '] + end
}

/// The identifier of a combat by chrono's time `pattern`, with `separator` after the
/// title; `None` where chrono cannot represent the combat's times.
pub open spec fn spec_identifier<D: Copy, H: Copy>(c: Combat<D, H>, pattern: Seq<char>, separator: Seq<char>) -> Option<Seq<char>> {
    if timestamp_in_range(c.active_time.start) && timestamp_in_range(c.active_time.end) {
        Some(
            spec_compose_identifier(
                spec_title(combat_names_view(c.combat_names@)),
                separator,
                date_text(c.active_time.start),
                hms_text(c.active_time.start as int, time_separator(pattern)),
                hms_text(c.active_time.end as int, time_separator(pattern)),
            ),
        )
    } else {
        None
    }
}

/// A combat whose first and last times chrono can represent, as every time that a
/// log line gives, has an identifier.
pub proof fn lemma_identifier_of_representable_times<D: Copy, H: Copy>(
    c: Combat<D, H>,
    pattern: Seq<char>,
    separator: Seq<char>,
)
    requires
        timestamp_in_range(c.active_time.start),
        timestamp_in_range(c.active_time.end),
    ensures
        spec_identifier(c, pattern, separator) is Some,
{
}

/// The identifier made of a title, a separator, a date and two times of day:
/// "title | 2023-01-05 18:01:02 - 18:09:10" for the separator " | ".
pub fn compose_identifier(title: &str, separator: &str, date: &str, start: &str, end: &str) -> (res: String)
    ensures
        res@ == spec_compose_identifier(title@, separator@, date@, start@, end@),
{
    let mut res = String::from_str(title);
    res.append(separator);
    res.append(date);
    res.append(" ");
    res.append(start);
    res.append(" - ");
    res.append(end);
    proof {
        reveal_strlit(" ");
        reveal_strlit(" - ");
        assert(" "@ =~= seq![' ']);
        assert(" - "@ =~= seq![' ', '-', ' ']);
    }
    res
}

/// `b` is the combat `a` after an update by `settings`: named by the naming rules,
/// with every player's values gathered into the managers (and every group naming its
/// values there), and with the kills and deaths of the players summed; nothing else
/// changes.
pub open spec fn updated<D: Copy, H: Copy>(a: Combat<D, H>, b: Combat<D, H>, settings: AnalysisSettings) -> bool {
    &&& combat_names_view(b.combat_names@) == spec_combat_names(settings.combat_name_rules@, a.name_manager)
    &&& b.name_manager == a.name_manager
    &&& b.active_time == a.active_time
    &&& b.combat_time == a.combat_time
    &&& b.log_pos == a.log_pos
    &&& b.players@.len() == a.players@.len()
    &&& forall|j: int| 0 <= j < b.players@.len() ==> same_values(a.players@[j], #[trigger] b.players@[j])
    &&& b.hits_manger@ == damage_visible(a.players@)
    &&& b.heal_ticks_manger@ == heal_visible(a.players@)
    &&& forall|j: int| 0 <= j < b.players@.len() ==> resolved_in(
        #[trigger] b.players@[j],
        b.hits_manger@,
        b.heal_ticks_manger@,
    )
    &&& b.total_kills == players_kills(b.players@, true)
    &&& b.total_deaths == players_kills(b.players@, false)
}

impl<D: Copy, H: Copy> Combat<D, H> {
    pub open spec fn wf(self) -> bool {
        &&& self.name_manager.wf()
        &&& distinct_players(self.players@)
        &&& players_wf(self.players@)
    }

    /// Whether the name manager can take the names of another record.
    pub open spec fn spec_has_name_room(self) -> bool {
        self.name_manager.names().len() + 16 < UNKNOWN_HANDLE
    }

    /// A combat that begins with `record`.
    pub fn new(record: &Record, value: &RecordValue<D, H>) -> (res: Self)
        ensures
            res.wf(),
            res.spec_has_name_room(),
            res.active_time == (Range { start: record.time, end: record.time }),
            res.combat_time == if spec_is_player_out_damage(record@, *value) {
                Some(Range { start: record.time, end: record.time })
            } else {
                None
            },
            res.log_pos == record.log_pos,
            res.players@.len() == 0,
            res.combat_names@.len() == 0,
    {
        Combat {
            combat_time: if record.is_player_out_damage(value) {
                Some(record.time..record.time)
            } else {
                None
            },
            active_time: record.time..record.time,
            combat_names: Vec::new(),
            players: Vec::new(),
            log_pos: copy_log_pos(&record.log_pos),
            total_kills: 0,
            total_deaths: 0,
            name_manager: NameManager::default(),
            hits_manger: ValuesManager::default(),
            heal_ticks_manger: ValuesManager::default(),
        }
    }

    /// Whether the name manager can take the names of another record.
    pub fn has_name_room(&self) -> (res: bool)
        ensures
            res == self.spec_has_name_room(),
    {
        self.name_manager.len() < 4294967279
    }

    /// The index of the player named `name`, added where it is missing.
    fn get_player(&mut self, name: NameHandle) -> (res: usize)
        requires
            old(self).wf(),
        ensures
            final(self).wf(),
            res < final(self).players@.len(),
            final(self).players@[res as int].spec_name() == name,
            final(self).name_manager == old(self).name_manager,
            final(self).active_time == old(self).active_time,
            final(self).combat_time == old(self).combat_time,
            final(self).log_pos == old(self).log_pos,
            forall|j: int| 0 <= j < old(self).players@.len() ==> #[trigger] final(self).players@[j] == old(self).players@[j],
            old(self).players@.len() <= final(self).players@.len() <= old(self).players@.len() + 1,
            final(self).players@.len() == old(self).players@.len() + 1 ==> final(self).players@[res as int].is_fresh()
                && res == old(self).players@.len(),
    {
        let mut i: usize = 0;
        while i < self.players.len()
            invariant
                i <= self.players@.len(),
                *self == *old(self),
                self.wf(),
                forall|j: int| 0 <= j < i ==> self.players@[j].spec_name() != name,
            decreases self.players@.len() - i,
        {
            if self.players[i].damage_out.segment.name() == name {
                return i;
            }
            i = i + 1;
        }
        let player = Player::new(name);
        let ghost p = player;
        self.players.push(player);
        assert(self.players@[i as int] == p);
        i
    }
}

/// A role without the player bit keeps its bits with the player bit set or cleared.
proof fn lemma_role_bits(role: u8, f: u8)
    requires
        role % 2 == 0,
    ensures
        role & f != 0 ==> (role | 1u8) & f != 0 && (role & !1u8) & f != 0,
        (role | 1u8) & 1u8 != 0,
        role != 0 ==> role & role != 0,
{
    assert(role % 2 == 0 ==> (role & f != 0 ==> (role | 1u8) & f != 0 && (role & !1u8) & f != 0)
        && (role | 1u8) & 1u8 != 0 && (role != 0 ==> role & role != 0)) by (bit_vector);
}

/// The roles of an entity's names are kept by a name manager that keeps roles.
proof fn lemma_entity_roles_kept(a: NameManager, b: NameManager, e: SpecEntity, role: u8, unique_role: u8)
    requires
        keeps_roles(a, b),
        entity_in_roles(a, e, role, unique_role),
    ensures
        entity_in_roles(b, e, role, unique_role),
{
    assert(keeps_roles(b, b)) by {
        assert(b.names().is_prefix_of(b.names()));
    }
    lemma_keeps_roles(a, b, b);
}

/// The roles of a record's names are kept by a name manager that keeps roles.
pub proof fn lemma_names_in_roles_kept(a: NameManager, b: NameManager, r: SpecRecord)
    requires
        keeps_roles(a, b),
        names_in_roles(a, r),
    ensures
        names_in_roles(b, r),
{
    lemma_entity_roles_kept(a, b, r.source, NameFlags::SOURCE, NameFlags::SOURCE_UNIQUE);
    lemma_entity_roles_kept(a, b, r.target, NameFlags::TARGET, NameFlags::TARGET_UNIQUE);
    lemma_entity_roles_kept(a, b, r.indirect_source, NameFlags::INDIRECT_SOURCE, NameFlags::INDIRECT_SOURCE_UNIQUE);
    assert(keeps_roles(b, b)) by {
        assert(b.names().is_prefix_of(b.names()));
    }
    lemma_keeps_roles(a, b, b);
}

/// Interns the name and the unique name of an entity, in the roles `role` and
/// `unique_role`, and as a player where it is one.
fn intern_entity(name_manager: &mut NameManager, entity: &Entity, role: u8, unique_role: u8)
    requires
        old(name_manager).wf(),
        old(name_manager).names().len() + 2 < UNKNOWN_HANDLE,
        role % 2 == 0,
        unique_role % 2 == 0,
        role != 0,
        unique_role != 0,
    ensures
        final(name_manager).wf(),
        final(name_manager).names().len() <= old(name_manager).names().len() + 2,
        keeps_roles(*old(name_manager), *final(name_manager)),
        entity@.name() matches Some(n) ==> (n.len() > 0 ==> final(name_manager).names().contains(n)),
        entity_in_roles(*final(name_manager), entity@, role, unique_role),
        entity is Player ==> (entity@.name() matches Some(n) ==> (n.len() > 0 ==> final(name_manager).named_with_role(n, NameFlags::PLAYER))),
{
    let player = NameFlags::from_bits(NameFlags::PLAYER);
    let is_player = entity.is_player();
    let flags = NameFlags::from_bits(role).set_if(player, is_player);
    let unique_flags = NameFlags::from_bits(unique_role).set_if(player, is_player);
    proof {
        lemma_role_bits(role, role);
        lemma_role_bits(unique_role, unique_role);
        lemma_role_bits(role, 1);
    }
    let ghost n0 = *name_manager;
    name_manager.insert_some(entity.name(), flags);
    let ghost n1 = *name_manager;
    name_manager.insert_some(entity.unique_name(), unique_flags);
    proof {
        lemma_keeps_roles(n0, n1, *name_manager);
        if let Some(n) = entity@.name() {
            if n.len() > 0 {
                lemma_prefix_contains(n1.names(), name_manager.names(), n);
                assert(n1.named_with_role(n, role));
                if is_player {
                    assert(n1.named_with_role(n, NameFlags::PLAYER));
                }
            }
        }
        if let Some(n) = entity@.unique_name() {
            if n.len() > 0 {
                assert(name_manager.named_with_role(n, unique_role));
            }
        }
    }
}

impl<D: Copy, H: Copy> Combat<D, H> {
    /// Interns the names of a record with the roles they have in it.
    pub fn update_names(&mut self, record: &Record)
        requires
            old(self).wf(),
            old(self).name_manager.names().len() + 8 < UNKNOWN_HANDLE,
        ensures
            final(self).wf(),
            final(self).name_manager.names().len() <= old(self).name_manager.names().len() + 8,
            keeps_roles(old(self).name_manager, final(self).name_manager),
            knows_record_names(final(self).name_manager, record@),
            names_in_roles(final(self).name_manager, record@),
            final(self).players == old(self).players,
            final(self).active_time == old(self).active_time,
            final(self).combat_time == old(self).combat_time,
            final(self).log_pos == old(self).log_pos,
    {
        let ghost n0 = self.name_manager;
        intern_entity(&mut self.name_manager, &record.source, NameFlags::SOURCE, NameFlags::SOURCE_UNIQUE);
        let ghost n1 = self.name_manager;
        intern_entity(&mut self.name_manager, &record.target, NameFlags::TARGET, NameFlags::TARGET_UNIQUE);
        let ghost n2 = self.name_manager;
        intern_entity(
            &mut self.name_manager,
            &record.indirect_source,
            NameFlags::INDIRECT_SOURCE,
            NameFlags::INDIRECT_SOURCE_UNIQUE,
        );
        let ghost n3 = self.name_manager;
        self.name_manager.insert(record.value_name, NameFlags::from_bits(NameFlags::VALUE));
        let ghost n4 = self.name_manager;
        self.name_manager.insert(record.value_type, NameFlags::from_bits(NameFlags::NONE));
        proof {
            let nf = self.name_manager;
            lemma_keeps_roles(n3, n4, nf);
            lemma_keeps_roles(n2, n3, nf);
            lemma_keeps_roles(n1, n2, nf);
            lemma_keeps_roles(n0, n1, nf);
            let r = record@;
            lemma_entity_roles_kept(n1, nf, r.source, NameFlags::SOURCE, NameFlags::SOURCE_UNIQUE);
            lemma_entity_roles_kept(n2, nf, r.target, NameFlags::TARGET, NameFlags::TARGET_UNIQUE);
            lemma_entity_roles_kept(
                n3,
                nf,
                r.indirect_source,
                NameFlags::INDIRECT_SOURCE,
                NameFlags::INDIRECT_SOURCE_UNIQUE,
            );
            if r.value_name.len() > 0 {
                lemma_role_bits(NameFlags::VALUE, NameFlags::VALUE);
                assert(n4.named_with_role(r.value_name, NameFlags::VALUE));
            }
            if let Some(n) = r.source.name() {
                if n.len() > 0 {
                    lemma_prefix_contains(n1.names(), nf.names(), n);
                }
            }
            if let Some(n) = r.target.name() {
                if n.len() > 0 {
                    lemma_prefix_contains(n2.names(), nf.names(), n);
                }
            }
            if let Some(n) = r.indirect_source.name() {
                if n.len() > 0 {
                    lemma_prefix_contains(n3.names(), nf.names(), n);
                }
            }
            if r.value_name.len() > 0 {
                lemma_prefix_contains(n4.names(), nf.names(), r.value_name);
            }
        }
    }

    /// Names the combat by the naming rules, gathers every player's values into the
    /// managers, and sums the kills and deaths of the players.
    pub fn update(&mut self, settings: &AnalysisSettings)
        requires
            old(self).wf(),
        ensures
            final(self).wf(),
            updated(*old(self), *final(self), *settings),
    {
        self.combat_names = combat_names(&settings.combat_name_rules, &self.name_manager);
        self.hits_manger.clear();
        self.heal_ticks_manger.clear();
        let ghost old_players = self.players@;
        let mut i: usize = 0;
        while i < self.players.len()
            invariant
                i <= self.players@.len(),
                self.players@.len() == old_players.len(),
                self.name_manager == old(self).name_manager,
                self.active_time == old(self).active_time,
                self.combat_time == old(self).combat_time,
                self.log_pos == old(self).log_pos,
                combat_names_view(self.combat_names@) == spec_combat_names(
                    settings.combat_name_rules@,
                    old(self).name_manager,
                ),
                old_players == old(self).players@,
                self.wf(),
                forall|j: int| i <= j < self.players@.len() ==> #[trigger] self.players@[j] == old_players[j],
                forall|j: int| 0 <= j < i ==> same_values(old_players[j], #[trigger] self.players@[j]),
                forall|j: int| 0 <= j < i ==> resolved_in(#[trigger] self.players@[j], self.hits_manger@, self.heal_ticks_manger@),
                self.hits_manger@ == damage_visible(old_players.take(i as int)),
                self.heal_ticks_manger@ == heal_visible(old_players.take(i as int)),
            decreases self.players@.len() - i,
        {
            let ghost before = self.players@;
            let ghost hits0 = self.hits_manger@;
            let ghost heals0 = self.heal_ticks_manger@;
            let mut player = self.players.remove(i);
            player.recalculate(&mut self.hits_manger, &mut self.heal_ticks_manger);
            self.players.insert(i, player);
            proof {
                assert(self.players@ == before.update(i as int, player));
                assert(old_players.take(i + 1).drop_last() == old_players.take(i as int));
                assert(self.hits_manger@ == damage_visible(old_players.take(i + 1)));
                assert(self.heal_ticks_manger@ == heal_visible(old_players.take(i + 1)));
                assert forall|j: int| 0 <= j < i + 1 implies resolved_in(#[trigger] self.players@[j], self.hits_manger@, self.heal_ticks_manger@) by {
                    if j < i {
                        let p = self.players@[j];
                        let dh = old_players[i as int].damage_out.visible() + old_players[i as int].damage_in.visible();
                        let hh = old_players[i as int].heal_out.visible() + old_players[i as int].heal_in.visible();
                        assert(hits0 + dh == self.hits_manger@);
                        assert(heals0 + hh == self.heal_ticks_manger@);
                        lemma_resolves_extend(p.damage_out, hits0, dh);
                        lemma_resolves_extend(p.damage_in, hits0, dh);
                        lemma_resolves_extend(p.heal_out, heals0, hh);
                        lemma_resolves_extend(p.heal_in, heals0, hh);
                    }
                }
                assert forall|a: int, b: int| 0 <= a < b < self.players@.len() implies self.players@[a].spec_name() != self.players@[b].spec_name() by {
                    assert(before[a].spec_name() != before[b].spec_name());
                }
                assert forall|a: int| 0 <= a < self.players@.len() implies (#[trigger] self.players@[a]).wf() by {
                    if a != i {
                        assert(self.players@[a] == before[a]);
                    }
                }
            }
            i = i + 1;
        }
        assert(old_players.take(old_players.len() as int) == old_players);
        let mut kills: u32 = 0;
        let mut deaths: u32 = 0;
        let mut k: usize = 0;
        while k < self.players.len()
            invariant
                k <= self.players@.len(),
                kills == players_kills(self.players@.take(k as int), true),
                deaths == players_kills(self.players@.take(k as int), false),
            decreases self.players@.len() - k,
        {
            proof {
                assert(self.players@.take(k + 1).drop_last() == self.players@.take(k as int));
            }
            kills = kills.wrapping_add(sum_kills(&self.players[k].damage_out.kills));
            deaths = deaths.wrapping_add(sum_kills(&self.players[k].damage_in.kills));
            k = k + 1;
        }
        assert(self.players@.take(self.players@.len() as int) == self.players@);
        self.total_kills = kills;
        self.total_deaths = deaths;
    }

    /// The combat's title: its names as shown, joined with ", ", or "Combat" where it
    /// has none.
    pub fn name(&self) -> (res: String)
        ensures
            res@ == spec_title(combat_names_view(self.combat_names@)),
    {
        combat_title(&self.combat_names)
    }

    /// The combat's identifier, "title | 2023-01-05 18:01:02 - 18:09:10": its title, and
    /// the date and the times of day of its first and last record. `None` where chrono
    /// cannot represent those times.
    pub fn identifier(&self) -> (res: Option<String>)
        ensures
            res matches Some(s) ==> Some(s@) == spec_identifier(*self, "%T"@, " | "@),
            res is None ==> spec_identifier(*self, "%T"@, " | "@) is None,
    {
        self.identifier_with("%T", " | ")
    }

    /// The combat's identifier as part of a file name, "title 2023-01-05 18-01-02 -
    /// 18-09-10". `None` where chrono cannot represent the combat's times.
    pub fn file_identifier(&self) -> (res: Option<String>)
        ensures
            res matches Some(s) ==> Some(s@) == spec_identifier(*self, "%H-%M-%S"@, " "@),
            res is None ==> spec_identifier(*self, "%H-%M-%S"@, " "@) is None,
    {
        self.identifier_with("%H-%M-%S", " ")
    }

    /// The identifier with the times of day by `pattern` and `title_separator` after the
    /// title.
    fn identifier_with(&self, pattern: &str, title_separator: &str) -> (res: Option<String>)
        requires
            pattern@ == "%T"@ || pattern@ == "%H-%M-%S"@,
        ensures
            res matches Some(s) ==> Some(s@) == spec_identifier(*self, pattern@, title_separator@),
            res is None ==> spec_identifier(*self, pattern@, title_separator@) is None,
    {
        let date = format_date(self.active_time.start);
        let start = format_time_of_day(self.active_time.start, pattern);
        let end = format_time_of_day(self.active_time.end, pattern);
        match (date, start, end) {
            (Some(d), Some(a), Some(b)) => {
                let title = self.name();
                Some(compose_identifier(title.as_str(), title_separator, d.as_str(), a.as_str(), b.as_str()))
            },
            _ => None,
        }
    }

    /// Extends the combat time (for player damage that is not immune or zero) and the
    /// active time to the record.
    pub fn update_time(&mut self, record: &Record, value: &RecordValue<D, H>, is_all_zero: bool)
        ensures
            final(self).combat_time == if spec_is_player_out_damage(record@, *value)
                && !spec_is_immune_or_zero(record@, is_all_zero) {
                extend_time(old(self).combat_time, record.time)
            } else {
                old(self).combat_time
            },
            final(self).active_time == (Range { start: old(self).active_time.start, end: record.time }),
            final(self).players == old(self).players,
            final(self).name_manager == old(self).name_manager,
            final(self).log_pos == old(self).log_pos,
    {
        if record.is_player_out_damage(value) && !record.is_immune_or_zero(is_all_zero) {
            self.combat_time = extended_time(&self.combat_time, record.time);
        }
        self.active_time = self.active_time.start..record.time;
    }

    /// Extends the combat's log positions to the end of the record's.
    pub fn update_log_pos(&mut self, record: &Record)
        ensures
            final(self).log_pos == extend_log_pos(old(self).log_pos, record.log_pos),
            final(self).players == old(self).players,
            final(self).name_manager == old(self).name_manager,
            final(self).active_time == old(self).active_time,
            final(self).combat_time == old(self).combat_time,
    {
        if let (Some(pos), Some(record_pos)) = (&self.log_pos, &record.log_pos) {
            self.log_pos = Some(pos.start..record_pos.end);
        }
    }

    /// Adds a record's value to the players it concerns: to what the source player
    /// caused, and to what the target player received; also to what the player behind a
    /// non player source (a pet) received, and to what a player received from itself
    /// where the record has no target and no indirect source.
    #[verifier::rlimit(60)]
    #[verifier::spinoff_prover]
    fn add_record_values(
        &mut self,
        record: &Record,
        value: RecordValue<D, H>,
        is_all_zero: bool,
        combat_start_offset_millis: u32,
        settings: &AnalysisSettings,
    )
        requires
            old(self).wf(),
            old(self).name_manager.names().len() + 4 < UNKNOWN_HANDLE,
            knows_record_names(old(self).name_manager, record@),
        ensures
            final(self).wf(),
            final(self).name_manager.names().len() <= old(self).name_manager.names().len() + 4,
            keeps_roles(old(self).name_manager, final(self).name_manager),
            final(self).active_time == old(self).active_time,
            final(self).combat_time == old(self).combat_time,
            final(self).log_pos == old(self).log_pos,
            forall|j: int| 0 <= j < old(self).players@.len() ==> (#[trigger] final(self).players@[j]).spec_name()
                == old(self).players@[j].spec_name(),
            old(self).players@.len() <= final(self).players@.len(),
            record.source is Player ==> exists|k: int| 0 <= k < final(self).players@.len()
                && (#[trigger] final(self).players@[k]).spec_name()
                == handle_of(final(self).name_manager.names(), record.source@.name()->0),
            record.source is Player ==> caused_by(
                old(self).players@,
                final(self).players@,
                handle_of(final(self).name_manager.names(), record.source@.name()->0),
                record@,
                value,
                combat_start_offset_millis,
                *settings,
                final(self).name_manager.names(),
            ),
            target_receives_once(record@) ==> received_by(
                old(self).players@,
                final(self).players@,
                handle_of(final(self).name_manager.names(), record.target@.name()->0),
                record@,
                value,
                combat_start_offset_millis,
                *settings,
                final(self).name_manager.names(),
            ),
            owner_receives_once(record@) ==> received_by(
                old(self).players@,
                final(self).players@,
                handle_of(final(self).name_manager.names(), record.indirect_source@.name()->0),
                record@,
                value,
                combat_start_offset_millis,
                *settings,
                final(self).name_manager.names(),
            ),
            self_receives(record@) ==> received_by(
                old(self).players@,
                final(self).players@,
                handle_of(final(self).name_manager.names(), record.source@.name()->0),
                record@,
                value,
                combat_start_offset_millis,
                *settings,
                final(self).name_manager.names(),
            ),
            owner_is_target(record@) ==> received_twice_by(
                old(self).players@,
                final(self).players@,
                handle_of(final(self).name_manager.names(), record.target@.name()->0),
                record@,
                value,
                combat_start_offset_millis,
                *settings,
                final(self).name_manager.names(),
            ),
            forall|j: int|
                #![trigger final(self).players@[j]]
                0 <= j < final(self).players@.len() ==> timed(
                    times_before(old(self).players@, j),
                    final(self).players@[j],
                    record.time,
                    takes_active_time(record@, value, *settings, final(self).name_manager.names(), final(self).players@[j].spec_name()),
                    takes_combat_time(
                        record@,
                        value,
                        is_all_zero,
                        *settings,
                        final(self).name_manager.names(),
                        final(self).players@[j].spec_name(),
                    ),
                ),
            forall|j: int|
                #![trigger old(self).players@[j]]
                0 <= j < old(self).players@.len() && !names_player(
                    record@,
                    final(self).name_manager.names(),
                    old(self).players@[j].spec_name(),
                ) ==> final(self).players@[j] == old(self).players@[j],
            forall|j: int|
                #![trigger final(self).players@[j]]
                old(self).players@.len() <= j < final(self).players@.len() ==> names_player(
                    record@,
                    final(self).name_manager.names(),
                    final(self).players@[j].spec_name(),
                ),
            forall|n: NameHandle|
                #[trigger] names_player(record@, final(self).name_manager.names(), n) ==> exists|k: int|
                    0 <= k < final(self).players@.len() && final(self).players@[k].spec_name() == n,
    {
        let ghost players0 = self.players@;
        let ghost mut source_handle = NameHandle(0);
        if let Entity::Player { full_name, .. } = record.source {
            let h = self.name_manager.handle(full_name);
            proof {
                source_handle = h;
            }
            self.add_value_to_player(h, record, value, is_all_zero, combat_start_offset_millis, settings, true);
        }
        let ghost names1 = self.name_manager.names();
        let ghost players1 = self.players@;
        let ghost mut target_handle = NameHandle(0);
        let ghost mut nm2 = self.name_manager;
        let ghost mut players2 = self.players@;
        if let Entity::Player { full_name, .. } = record.target {
            let ghost pb = self.players@;
            let h = self.name_manager.handle(full_name);
            self.add_value_to_player(h, record, value, is_all_zero, combat_start_offset_millis, settings, false);
            proof {
                assert forall|j: int| 0 <= j < players1.len() implies same_caused(#[trigger] self.players@[j], players1[j]) by {
                    assert(same_caused(self.players@[j], pb[j]));
                }
                target_handle = h;
                nm2 = self.name_manager;
                players2 = self.players@;
                assert(full_name@.len() > 0 ==> target_handle.0 < nm2.names().len()
                    && nm2.names()[target_handle.0 as int] == full_name@);
                assert(full_name@.len() == 0 ==> target_handle.0 == UNKNOWN_HANDLE);
            }
        }
        let ghost players_t = self.players@;
        let ghost mut owner_handle = NameHandle(0);
        if let (Entity::Player { full_name, .. }, Entity::NonPlayer { .. }) = (record.indirect_source, record.source) {
            let ghost pb = self.players@;
            assert(forall|j: int| 0 <= j < players1.len() ==> same_caused(#[trigger] pb[j], players1[j]));
            let h = self.name_manager.handle(full_name);
            proof {
                if target_receives_once(record@) || owner_receives_once(record@) {
                    if record.target is Player {
                        let names = self.name_manager.names();
                        let t_name = record@.target.name()->0;
                        assert(nm2.names().is_prefix_of(names));
                        lemma_distinct_handles(names, full_name@, t_name, h, target_handle);
                    }
                }
            }
            let ghost names_o = self.name_manager.names();
            self.add_value_to_player(h, record, value, is_all_zero, combat_start_offset_millis, settings, false);
            proof {
                owner_handle = h;
                assert(names_o.is_prefix_of(self.name_manager.names()));
                assert forall|j: int| 0 <= j < players1.len() implies same_caused(#[trigger] self.players@[j], players1[j]) by {
                    assert(same_caused(self.players@[j], pb[j]));
                }
                if target_receives_once(record@) {
                    assert forall|j: int| 0 <= j < players2.len() && players2[j].spec_name() == target_handle implies #[trigger] self.players@[j] == players2[j] by {
                        assert(pb[j] == players2[j]);
                    }
                }
                if owner_receives_once(record@) {
                    assert(players1 == players0);
                    assert forall|j: int| 0 <= j < players0.len() && pb[j].spec_name() == h implies same_received(#[trigger] pb[j], players0[j]) by {
                        if record.target is Player {
                            assert(pb[j] == players2[j]);
                        }
                    }
                    assert forall|j: int| players0.len() <= j < pb.len() && pb[j].spec_name() == h implies received_nothing(#[trigger] pb[j]) by {
                        if record.target is Player {
                            assert(pb[j].spec_name() == target_handle);
                        }
                    }
                    lemma_target_received(
                        players0,
                        pb,
                        self.players@,
                        self.players@,
                        self.name_manager.names(),
                        h,
                        record@,
                        value,
                        combat_start_offset_millis,
                        *settings,
                    );
                    let i_name = record@.indirect_source.name()->0;
                    if i_name.len() > 0 {
                        lemma_handle_of(self.name_manager.names(), i_name, h.0 as int);
                    }
                    assert(received_by(
                        players0,
                        self.players@,
                        handle_of(self.name_manager.names(), i_name),
                        record@,
                        value,
                        combat_start_offset_millis,
                        *settings,
                        self.name_manager.names(),
                    ));
                }
                if owner_is_target(record@) {
                    let names = self.name_manager.names();
                    let t_name = record@.target.name()->0;
                    assert(nm2.names() == names);
                    assert(players1 == players0);
                    if t_name.len() > 0 {
                        lemma_handle_of(names, t_name, h.0 as int);
                        lemma_handle_of(names, t_name, target_handle.0 as int);
                    }
                    assert(h == target_handle);
                    lemma_received_twice(
                        players0,
                        pb,
                        self.players@,
                        names,
                        h,
                        record@,
                        value,
                        combat_start_offset_millis,
                        *settings,
                    );
                }
            }
        }
        let ghost players3 = self.players@;
        let ghost mut self_handle = NameHandle(0);
        if let (Entity::Player { full_name, .. }, Entity::Absent, Entity::Absent) = (record.source, record.indirect_source, record.target) {
            let ghost pb = self.players@;
            assert(forall|j: int| 0 <= j < players1.len() ==> same_caused(#[trigger] pb[j], players1[j]));
            let h = self.name_manager.handle(full_name);
            let ghost names_x = self.name_manager.names();
            self.add_value_to_player(h, record, value, is_all_zero, combat_start_offset_millis, settings, false);
            proof {
                self_handle = h;
                assert(names_x.is_prefix_of(self.name_manager.names()));
                assert forall|j: int| 0 <= j < players1.len() implies same_caused(#[trigger] self.players@[j], players1[j]) by {
                    assert(same_caused(self.players@[j], pb[j]));
                }
                assert(pb == players1);
                lemma_target_received(
                    players0,
                    pb,
                    self.players@,
                    self.players@,
                    self.name_manager.names(),
                    h,
                    record@,
                    value,
                    combat_start_offset_millis,
                    *settings,
                );
                if full_name@.len() > 0 {
                    lemma_handle_of(self.name_manager.names(), full_name@, h.0 as int);
                }
            }
        }
        proof {
            if record.source is Player {
                let full_name = record.source@.name()->0;
                let names = self.name_manager.names();
                assert(names1.is_prefix_of(names));
                assert(full_name.len() > 0 ==> names[source_handle.0 as int] == full_name);
                let k = choose|k: int| 0 <= k < players1.len() && (#[trigger] players1[k]).spec_name() == source_handle;
                assert(self.players@[k].spec_name() == source_handle);
                if full_name.len() > 0 {
                    lemma_handle_of(names, full_name, source_handle.0 as int);
                }
                let r = record@;
                let excluded = any_rule_matches(settings.damage_out_exclusion_rules@, r);
                let (k1, a) = choose|k1: int, a: Player<D, H>|
                    0 <= k1 < players1.len() && players1[k1].spec_name() == source_handle && (if k1 < players0.len() {
                        a == players0[k1]
                    } else {
                        a.is_fresh() && a.spec_name() == source_handle
                    }) && #[trigger] out_groups_step(a, players1[k1], r, value, combat_start_offset_millis, *settings, names1);
                assert(same_caused(self.players@[k1], players1[k1]));
                if !excluded {
                    assert(names == names1);
                }
                assert(out_groups_step(a, self.players@[k1], r, value, combat_start_offset_millis, *settings, names));
                assert(self.players@[k1].spec_name() == players1[k1].spec_name());
            }
            if target_receives_once(record@) {
                let t_name = record@.target.name()->0;
                let names = self.name_manager.names();
                assert(nm2.names().is_prefix_of(names));
                if t_name.len() > 0 {
                    lemma_handle_of(names, t_name, target_handle.0 as int);
                }
                lemma_target_received(
                    players0,
                    players1,
                    players2,
                    self.players@,
                    self.name_manager.names(),
                    target_handle,
                    record@,
                    value,
                    combat_start_offset_millis,
                    *settings,
                );
            }
        }
        proof {
            let names = self.name_manager.names();
            let r = record@;
            let t = record.time;
            let excluded = any_rule_matches(settings.damage_out_exclusion_rules@, r);
            let a1 = r.source is Player && !excluded;
            let c1 = a1 && value is Damage && !spec_is_direct_self_damage(r, value) && !spec_is_immune_or_zero(
                r,
                is_all_zero,
            );
            let a2 = r.target is Player && value is Damage;
            let a3 = r.indirect_source is Player && r.source is NonPlayer && value is Damage;
            let a4 = self_receives(r) && value is Damage;
            if !(record.source is Player) {
                lemma_stepped_none(players0, t, source_handle);
            }
            if !(record.target is Player) {
                lemma_stepped_none(players1, t, target_handle);
            }
            if !(r.indirect_source is Player && r.source is NonPlayer) {
                lemma_stepped_none(players_t, t, owner_handle);
            }
            if !self_receives(r) {
                lemma_stepped_none(players3, t, self_handle);
            }
            assert(stepped(players0, players1, t, source_handle, a1, c1));
            assert(stepped(players1, players_t, t, target_handle, a2, false));
            assert(stepped(players_t, players3, t, owner_handle, a3, false));
            assert(stepped(players3, self.players@, t, self_handle, a4, false));
            lemma_stepped_four(
                players0,
                players1,
                players_t,
                players3,
                self.players@,
                t,
                source_handle,
                a1,
                c1,
                target_handle,
                a2,
                false,
                owner_handle,
                a3,
                false,
                self_handle,
                a4,
                false,
            );
            if r.source is Player {
                let n = r.source.name()->0;
                if n.len() > 0 {
                    lemma_handle_of(names, n, source_handle.0 as int);
                }
            }
            if r.target is Player {
                let n = r.target.name()->0;
                if n.len() > 0 {
                    lemma_handle_of(names, n, target_handle.0 as int);
                }
            }
            if r.indirect_source is Player && r.source is NonPlayer {
                let n = r.indirect_source.name()->0;
                if n.len() > 0 {
                    lemma_handle_of(names, n, owner_handle.0 as int);
                }
            }
            if self_receives(r) {
                let n = r.source.name()->0;
                if n.len() > 0 {
                    lemma_handle_of(names, n, self_handle.0 as int);
                }
            }
            let t1 = r.source is Player;
            let t2 = r.target is Player;
            let t3 = r.indirect_source is Player && r.source is NonPlayer;
            let t4 = self_receives(r);
            if !t1 {
                lemma_kept_none(players0, source_handle);
            }
            if !t2 {
                lemma_kept_none(players1, target_handle);
            }
            if !t3 {
                lemma_kept_none(players_t, owner_handle);
            }
            if !t4 {
                lemma_kept_none(players3, self_handle);
            }
            assert(kept_but(players0, players1, source_handle, t1));
            assert(kept_but(players1, players_t, target_handle, t2));
            assert(kept_but(players_t, players3, owner_handle, t3));
            assert(kept_but(players3, self.players@, self_handle, t4));
            lemma_kept_four(
                players0,
                players1,
                players_t,
                players3,
                self.players@,
                source_handle,
                t1,
                target_handle,
                t2,
                owner_handle,
                t3,
                self_handle,
                t4,
            );
            assert forall|n: NameHandle| names_player(r, names, n) == one_of(
                n,
                source_handle,
                t1,
                target_handle,
                t2,
                owner_handle,
                t3,
                self_handle,
                t4,
            ) by {}
            assert forall|n: NameHandle| #[trigger] names_player(r, names, n) implies exists|k: int|
                0 <= k < self.players@.len() && self.players@[k].spec_name() == n by {
                assert(one_of(n, source_handle, t1, target_handle, t2, owner_handle, t3, self_handle, t4));
            }
        }
    }

    /// Adds a record's value to the player named `name`: as caused where `out` holds,
    /// else as received.
    fn add_value_to_player(
        &mut self,
        name: NameHandle,
        record: &Record,
        value: RecordValue<D, H>,
        is_all_zero: bool,
        combat_start_offset_millis: u32,
        settings: &AnalysisSettings,
        out: bool,
    )
        requires
            old(self).wf(),
            old(self).name_manager.names().len() + 1 < UNKNOWN_HANDLE,
            knows_record_names(old(self).name_manager, record@),
        ensures
            final(self).wf(),
            final(self).name_manager.names().len() <= old(self).name_manager.names().len() + 1,
            old(self).name_manager.names().is_prefix_of(final(self).name_manager.names()),
            keeps_roles(old(self).name_manager, final(self).name_manager),
            knows_record_names(final(self).name_manager, record@),
            final(self).active_time == old(self).active_time,
            final(self).combat_time == old(self).combat_time,
            final(self).log_pos == old(self).log_pos,
            forall|j: int| 0 <= j < old(self).players@.len() ==> (#[trigger] final(self).players@[j]).spec_name()
                == old(self).players@[j].spec_name(),
            old(self).players@.len() <= final(self).players@.len(),
            exists|k: int| 0 <= k < final(self).players@.len() && (#[trigger] final(self).players@[k]).spec_name() == name,
            out ==> caused_by(
                old(self).players@,
                final(self).players@,
                name,
                record@,
                value,
                combat_start_offset_millis,
                *settings,
                final(self).name_manager.names(),
            ),
            out && !any_rule_matches(settings.damage_out_exclusion_rules@, record@) ==> knows_custom_group_name(
                final(self).name_manager.names(),
                record@,
                *settings,
            ),
            !out ==> forall|j: int| 0 <= j < old(self).players@.len() ==> {
                &&& (#[trigger] final(self).players@[j]).damage_out == old(self).players@[j].damage_out
                &&& final(self).players@[j].heal_out == old(self).players@[j].heal_out
            },
            !out ==> received_by(
                old(self).players@,
                final(self).players@,
                name,
                record@,
                value,
                combat_start_offset_millis,
                *settings,
                final(self).name_manager.names(),
            ),
            !out ==> knows_custom_group_name(final(self).name_manager.names(), record@, *settings),
            knows_custom_group_name(old(self).name_manager.names(), record@, *settings) ==> final(self).name_manager.names() == old(self).name_manager.names(),
            out ==> forall|j: int| 0 <= j < old(self).players@.len() ==> same_received(
                #[trigger] final(self).players@[j],
                old(self).players@[j],
            ),
            out ==> forall|j: int| old(self).players@.len() <= j < final(self).players@.len() ==> received_nothing(
                #[trigger] final(self).players@[j],
            ),
            forall|j: int| 0 <= j < old(self).players@.len() && old(self).players@[j].spec_name() != name ==> #[trigger] final(self).players@[j] == old(self).players@[j],
            forall|j: int| old(self).players@.len() <= j < final(self).players@.len() ==> (#[trigger] final(self).players@[j]).spec_name() == name,
            stepped(
                old(self).players@,
                final(self).players@,
                record.time,
                name,
                if out {
                    !any_rule_matches(settings.damage_out_exclusion_rules@, record@)
                } else {
                    value is Damage
                },
                out && !any_rule_matches(settings.damage_out_exclusion_rules@, record@) && value is Damage
                    && !spec_is_direct_self_damage(record@, value) && !spec_is_immune_or_zero(record@, is_all_zero),
            ),
    {
        let i = self.get_player(name);
        let ghost before = self.players@;
        let mut player = self.players.remove(i);
        if out {
            player.add_out_value(record, value, is_all_zero, combat_start_offset_millis, settings, &mut self.name_manager);
        } else {
            player.add_in_value(record, value, combat_start_offset_millis, settings, &mut self.name_manager);
        }
        self.players.insert(i, player);
        proof {
            assert(self.players@ == before.update(i as int, player));
            assert(player.spec_name() == before[i as int].spec_name());
            if out {
                let a = before[i as int];
                assert(out_groups_step(
                    a,
                    self.players@[i as int],
                    record@,
                    value,
                    combat_start_offset_millis,
                    *settings,
                    self.name_manager.names(),
                ));
                if i < old(self).players@.len() {
                    assert(a == old(self).players@[i as int]);
                }
                assert forall|j: int| 0 <= j < old(self).players@.len() implies same_received(
                    #[trigger] self.players@[j],
                    old(self).players@[j],
                ) by {
                    assert(before[j] == old(self).players@[j]);
                }
                assert forall|j: int| old(self).players@.len() <= j < self.players@.len() implies received_nothing(
                    #[trigger] self.players@[j],
                ) by {
                    assert(j == i);
                    assert(before[i as int].is_fresh());
                }
            } else {
                assert forall|j: int| 0 <= j < old(self).players@.len() implies {
                    &&& (#[trigger] self.players@[j]).damage_out == old(self).players@[j].damage_out
                    &&& self.players@[j].heal_out == old(self).players@[j].heal_out
                } by {
                    assert(before[j] == old(self).players@[j]);
                }
                let a = before[i as int];
                assert(in_groups_step(
                    a,
                    self.players@[i as int],
                    record@,
                    value,
                    combat_start_offset_millis,
                    *settings,
                    self.name_manager.names(),
                ));
                if i < old(self).players@.len() {
                    assert(a == old(self).players@[i as int]);
                    assert(same_received(a, old(self).players@[i as int]));
                } else {
                    assert(a.is_fresh());
                }
            }
            assert forall|j: int| 0 <= j < old(self).players@.len() && old(self).players@[j].spec_name() != name implies #[trigger] self.players@[j] == old(self).players@[j] by {
                assert(before[j] == old(self).players@[j]);
                assert(j != i);
            }
            assert forall|j: int| 0 <= j < old(self).players@.len() implies (#[trigger] self.players@[j]).spec_name()
                == old(self).players@[j].spec_name() by {
                assert(before[j] == old(self).players@[j]);
            }
            assert(self.players@[i as int].spec_name() == name);
            assert forall|a: int, b: int| 0 <= a < b < self.players@.len() implies self.players@[a].spec_name() != self.players@[b].spec_name() by {
                assert(before[a].spec_name() != before[b].spec_name());
            }
            assert forall|j: int| #![trigger self.players@[j]] 0 <= j < self.players@.len() implies timed(
                times_before(old(self).players@, j),
                self.players@[j],
                record.time,
                self.players@[j].spec_name() == name && if out {
                    !any_rule_matches(settings.damage_out_exclusion_rules@, record@)
                } else {
                    value is Damage
                },
                self.players@[j].spec_name() == name && out && !any_rule_matches(settings.damage_out_exclusion_rules@, record@)
                    && value is Damage && !spec_is_direct_self_damage(record@, value)
                    && !spec_is_immune_or_zero(record@, is_all_zero),
            ) by {
                if j != i {
                    assert(self.players@[j] == before[j]);
                    if j < old(self).players@.len() {
                        assert(before[j] == old(self).players@[j]);
                    }
                    if i < j {
                        assert(self.players@[i as int].spec_name() != self.players@[j].spec_name());
                    } else {
                        assert(self.players@[j].spec_name() != self.players@[i as int].spec_name());
                    }
                } else {
                    if i < old(self).players@.len() {
                        assert(before[i as int] == old(self).players@[i as int]);
                    }
                }
            }
            assert forall|a: int| 0 <= a < self.players@.len() implies (#[trigger] self.players@[a]).wf() by {
                if a != i {
                    assert(self.players@[a] == before[a]);
                }
            }
        }
    }
}

/// The analysis of a combat log: the combats found so far.
#[derive(Debug)]
pub struct Analyzer<D, H> {
    combat_separation_millis: i64,
    settings: AnalysisSettings,
    combats: Vec<Combat<D, H>>,
}

impl<D: Copy, H: Copy> Analyzer<D, H> {
    /// The pause, in milliseconds, after which a record begins a new combat.
    pub closed spec fn separation_millis(&self) -> i64 {
        self.combat_separation_millis
    }

    /// The settings of the analysis.
    pub closed spec fn spec_settings(&self) -> AnalysisSettings {
        self.settings
    }

    /// The combats found so far.
    pub closed spec fn combats(&self) -> Seq<Combat<D, H>> {
        self.combats@
    }

    /// Every combat is well formed.
    pub open spec fn wf(&self) -> bool {
        forall|i: int| 0 <= i < self.combats().len() ==> (#[trigger] self.combats()[i]).wf()
    }

    /// Whether the current combat's name manager can take the names of another record.
    pub open spec fn spec_has_name_room(&self) -> bool {
        self.combats().len() > 0 ==> self.combats().last().spec_has_name_room()
    }

    /// Whether a record at `time` begins a new combat: there is none yet, or the record
    /// comes more than the separation time after the current combat's last record.
    pub open spec fn starts_new_combat(&self, time: i64) -> bool {
        self.combats().len() == 0 || time - self.combats().last().active_time.end
            > self.separation_millis()
    }

    /// A record begins a new combat where there is none yet, or where it comes more
    /// than the separation time after the end of the last combat; else it belongs to
    /// the last combat.
    pub proof fn law_starts_new_combat(&self, time: i64)
        ensures
            self.combats().len() == 0 ==> self.starts_new_combat(time),
            self.combats().len() > 0 ==> (self.starts_new_combat(time) <==> time
                > self.combats()[self.combats().len() - 1].active_time.end + self.separation_millis()),
    {
    }

    /// An analysis without combats; a pause longer than
    /// `combat_separation_time_seconds` separates combats.
    pub fn new(settings: AnalysisSettings) -> (res: Self)
        requires
            -9223372036854775 <= settings.combat_separation_time_seconds <= 9223372036854775,
        ensures
            res.wf(),
            res.combats().len() == 0,
            res.separation_millis() == settings.combat_separation_time_seconds * 1000,
            res.spec_settings() == settings,
    {
        Analyzer {
            combat_separation_millis: settings.combat_separation_time_seconds * 1000,
            settings,
            combats: Vec::new(),
        }
    }

    /// The combats found so far.
    pub fn result(&self) -> (res: &Vec<Combat<D, H>>)
        ensures
            res@ == self.combats(),
    {
        &self.combats
    }

    /// The settings of the analysis.
    pub fn settings(&self) -> (res: &AnalysisSettings)
        ensures
            *res == self.spec_settings(),
    {
        &self.settings
    }

    /// Whether the current combat can take the names of another record.
    pub fn has_name_room(&self) -> (res: bool)
        ensures
            res == self.spec_has_name_room(),
    {
        let n = self.combats.len();
        if n == 0 {
            true
        } else {
            self.combats[n - 1].has_name_room()
        }
    }

    /// Adds a record to the analysis: to the current combat, or to a new combat where
    /// the record begins one. `value` is what the record's numbers describe, and
    /// `is_all_zero` whether they are all zero. The index of the first combat that
    /// changed is kept in `first_modified_combat`.
    pub fn process_record(
        &mut self,
        record: &Record,
        value: RecordValue<D, H>,
        is_all_zero: bool,
        first_modified_combat: &mut Option<usize>,
    )
        requires
            old(self).wf(),
            old(self).spec_has_name_room(),
        ensures
            final(self).wf(),
            final(self).spec_settings() == old(self).spec_settings(),
            final(self).separation_millis() == old(self).separation_millis(),
            old(self).starts_new_combat(record.time) ==> {
                &&& final(self).combats().len() == old(self).combats().len() + 1
                &&& final(self).combats().last().active_time == (Range { start: record.time, end: record.time })
                &&& final(self).combats().last().combat_time == if spec_is_player_out_damage(record@, value) {
                    Some(Range { start: record.time, end: record.time })
                } else {
                    None
                }
                &&& final(self).combats().last().log_pos == record.log_pos
                &&& forall|j: int| 0 <= j < old(self).combats().len() ==> #[trigger] final(self).combats()[j] == old(self).combats()[j]
            },
            !old(self).starts_new_combat(record.time) ==> {
                &&& final(self).combats().len() == old(self).combats().len()
                &&& final(self).combats().last().active_time == (Range {
                    start: old(self).combats().last().active_time.start,
                    end: record.time,
                })
                &&& final(self).combats().last().combat_time == if spec_is_player_out_damage(record@, value)
                    && !spec_is_immune_or_zero(record@, is_all_zero) {
                    extend_time(old(self).combats().last().combat_time, record.time)
                } else {
                    old(self).combats().last().combat_time
                }
                &&& final(self).combats().last().log_pos == extend_log_pos(old(self).combats().last().log_pos, record.log_pos)
                &&& forall|j: int| 0 <= j < old(self).combats().len() - 1 ==> #[trigger] final(self).combats()[j] == old(self).combats()[j]
            },
            *final(first_modified_combat) == Some(match *old(first_modified_combat) {
                Some(f) => f,
                None => (final(self).combats().len() - 1) as usize,
            }),
            record.source is Player ==> exists|k: int| 0 <= k < final(self).combats().last().players@.len()
                && (#[trigger] final(self).combats().last().players@[k]).spec_name()
                == handle_of(final(self).combats().last().name_manager.names(), record.source@.name()->0),
            names_in_roles(final(self).combats().last().name_manager, record@),
            record.source is Player ==> caused_by(
                if old(self).starts_new_combat(record.time) {
                    Seq::empty()
                } else {
                    old(self).combats().last().players@
                },
                final(self).combats().last().players@,
                handle_of(final(self).combats().last().name_manager.names(), record.source@.name()->0),
                record@,
                value,
                (record.time - final(self).combats().last().active_time.start) as u32,
                old(self).spec_settings(),
                final(self).combats().last().name_manager.names(),
            ),
            target_receives_once(record@) ==> received_by(
                if old(self).starts_new_combat(record.time) {
                    Seq::empty()
                } else {
                    old(self).combats().last().players@
                },
                final(self).combats().last().players@,
                handle_of(final(self).combats().last().name_manager.names(), record.target@.name()->0),
                record@,
                value,
                (record.time - final(self).combats().last().active_time.start) as u32,
                old(self).spec_settings(),
                final(self).combats().last().name_manager.names(),
            ),
            owner_receives_once(record@) ==> received_by(
                if old(self).starts_new_combat(record.time) {
                    Seq::empty()
                } else {
                    old(self).combats().last().players@
                },
                final(self).combats().last().players@,
                handle_of(final(self).combats().last().name_manager.names(), record.indirect_source@.name()->0),
                record@,
                value,
                (record.time - final(self).combats().last().active_time.start) as u32,
                old(self).spec_settings(),
                final(self).combats().last().name_manager.names(),
            ),
            self_receives(record@) ==> received_by(
                if old(self).starts_new_combat(record.time) {
                    Seq::empty()
                } else {
                    old(self).combats().last().players@
                },
                final(self).combats().last().players@,
                handle_of(final(self).combats().last().name_manager.names(), record.source@.name()->0),
                record@,
                value,
                (record.time - final(self).combats().last().active_time.start) as u32,
                old(self).spec_settings(),
                final(self).combats().last().name_manager.names(),
            ),
            owner_is_target(record@) ==> received_twice_by(
                if old(self).starts_new_combat(record.time) {
                    Seq::empty()
                } else {
                    old(self).combats().last().players@
                },
                final(self).combats().last().players@,
                handle_of(final(self).combats().last().name_manager.names(), record.target@.name()->0),
                record@,
                value,
                (record.time - final(self).combats().last().active_time.start) as u32,
                old(self).spec_settings(),
                final(self).combats().last().name_manager.names(),
            ),
            forall|j: int|
                #![trigger final(self).combats().last().players@[j]]
                0 <= j < final(self).combats().last().players@.len() ==> timed(
                    times_before(
                        if old(self).starts_new_combat(record.time) {
                            Seq::empty()
                        } else {
                            old(self).combats().last().players@
                        },
                        j,
                    ),
                    final(self).combats().last().players@[j],
                    record.time,
                    takes_active_time(
                        record@,
                        value,
                        old(self).spec_settings(),
                        final(self).combats().last().name_manager.names(),
                        final(self).combats().last().players@[j].spec_name(),
                    ),
                    takes_combat_time(
                        record@,
                        value,
                        is_all_zero,
                        old(self).spec_settings(),
                        final(self).combats().last().name_manager.names(),
                        final(self).combats().last().players@[j].spec_name(),
                    ),
                ),
            !old(self).starts_new_combat(record.time) ==> forall|j: int|
                #![trigger old(self).combats().last().players@[j]]
                0 <= j < old(self).combats().last().players@.len() && !names_player(
                    record@,
                    final(self).combats().last().name_manager.names(),
                    old(self).combats().last().players@[j].spec_name(),
                ) ==> final(self).combats().last().players@[j] == old(self).combats().last().players@[j],
            forall|j: int|
                #![trigger final(self).combats().last().players@[j]]
                (if old(self).starts_new_combat(record.time) {
                    0
                } else {
                    old(self).combats().last().players@.len()
                }) <= j < final(self).combats().last().players@.len() ==> names_player(
                    record@,
                    final(self).combats().last().name_manager.names(),
                    final(self).combats().last().players@[j].spec_name(),
                ),
            forall|n: NameHandle|
                #[trigger] names_player(record@, final(self).combats().last().name_manager.names(), n) ==> exists|k: int|
                    0 <= k < final(self).combats().last().players@.len()
                        && final(self).combats().last().players@[k].spec_name() == n,
            timestamp_in_range(record.time) && (old(self).starts_new_combat(record.time) || timestamp_in_range(
                old(self).combats().last().active_time.start,
            )) ==> timestamp_in_range(final(self).combats().last().active_time.start) && timestamp_in_range(
                final(self).combats().last().active_time.end,
            ),
    {
        let n = self.combats.len();
        let starts_new = n == 0 || (record.time as i128) - (self.combats[n - 1].active_time.end as i128)
            > self.combat_separation_millis as i128;
        if starts_new {
            self.combats.push(Combat::new(record, &value));
        }
        if first_modified_combat.is_none() {
            *first_modified_combat = Some(self.combats.len() - 1);
        }
        let last = self.combats.len() - 1;
        let ghost combats_before = self.combats@;
        let mut combat = self.combats.pop().unwrap();
        assert(combat == combats_before[last as int]);
        combat.update_time(record, &value, is_all_zero);
        combat.update_log_pos(record);
        combat.update_names(record);
        let offset = ((record.time as i128) - (combat.active_time.start as i128)) as u32;
        let ghost before_values = combat;
        combat.add_record_values(record, value, is_all_zero, offset, &self.settings);
        proof {
            lemma_names_in_roles_kept(before_values.name_manager, combat.name_manager, record@);
        }
        self.combats.push(combat);
        proof {
            assert(self.combats@ == combats_before.update(last as int, combat));
            assert forall|j: int| 0 <= j < self.combats@.len() implies (#[trigger] self.combats@[j]).wf() by {
                if j != last {
                    assert(self.combats@[j] == combats_before[j]);
                }
            }
            if !starts_new {
                assert(combats_before == old(self).combats@);
            }
        }
    }

    /// Updates the combats from `first_modified_combat` on (see `Combat::update`);
    /// the combats before it stay as they are.
    pub fn update_combats(&mut self, first_modified_combat: Option<usize>)
        requires
            old(self).wf(),
        ensures
            final(self).wf(),
            final(self).spec_settings() == old(self).spec_settings(),
            final(self).separation_millis() == old(self).separation_millis(),
            final(self).combats().len() == old(self).combats().len(),
            forall|j: int| 0 <= j < final(self).combats().len() ==> {
                let first = match first_modified_combat {
                    Some(f) => f as int,
                    None => final(self).combats().len() as int,
                };
                &&& j < first ==> #[trigger] final(self).combats()[j] == old(self).combats()[j]
                &&& j >= first ==> updated(old(self).combats()[j], final(self).combats()[j], old(self).spec_settings())
            },
    {
        let first = match first_modified_combat {
            Some(f) => f,
            None => self.combats.len(),
        };
        let mut i = first;
        while i < self.combats.len()
            invariant
                first <= i,
                self.combats@.len() == old(self).combats@.len(),
                self.settings == old(self).settings,
                self.combat_separation_millis == old(self).combat_separation_millis,
                self.wf(),
                forall|j: int| 0 <= j < self.combats@.len() && (j < first || j >= i) ==> #[trigger] self.combats@[j] == old(self).combats@[j],
                forall|j: int| first <= j < i && j < self.combats@.len() ==> updated(old(self).combats@[j], #[trigger] self.combats@[j], self.settings),
            decreases self.combats@.len() - i,
        {
            let ghost before = self.combats@;
            let ghost s0 = *self;
            assert(s0.combats()[i as int].wf());
            let mut combat = self.combats.remove(i);
            assert(combat == before[i as int]);
            combat.update(&self.settings);
            self.combats.insert(i, combat);
            proof {
                assert(self.combats@ == before.update(i as int, combat));
                assert forall|j: int| 0 <= j < self.combats().len() implies (#[trigger] self.combats()[j]).wf() by {
                    if j != i {
                        assert(s0.combats()[j].wf());
                        assert(self.combats()[j] == before[j]);
                    }
                }
            }
            i = i + 1;
        }
    }
}

} // verus!
