use combat_log_analyzer::flags::NameFlags;
use combat_log_analyzer::groups::{AnalysisGroup, Group, GroupPathSegment};
use combat_log_analyzer::metrics::{ShieldAndHullCounts, SpecificHealTick};
use combat_log_analyzer::name_manager::{NameHandle, NameManager};
use combat_log_analyzer::naming::{join_strings, CombatName};
use combat_log_analyzer::settings::{MatchAspect, MatchMethod, MatchRule, RulesGroup};
use combat_log_analyzer::ui_settings::{
    ActiveDamageDiagram, ActiveHealDiagram, DebugSettings, LogLevelFilter, Theme,
};
use combat_log_analyzer::time::{format_duration, time_range_to_duration, time_range_to_duration_or_zero};
use combat_log_analyzer::value_kind::{ValueKind, ValueSigns};
use combat_log_analyzer::values_manager::{Values, ValuesManager};

#[test]
fn name_manager_interns_each_name_once() {
    let mut names = NameManager::default();
    let a = names.insert("Ayel", NameFlags::from_bits(NameFlags::SOURCE));
    let b = names.insert("Borg", NameFlags::from_bits(NameFlags::TARGET));
    let a2 = names.insert("Ayel", NameFlags::from_bits(NameFlags::PLAYER));
    assert_eq!(a, a2);
    assert_ne!(a, b);
    assert_eq!(names.len(), 2);
    assert_eq!(names.name(a), "Ayel");
    assert_eq!(names.handle("Borg"), b);
    assert_eq!(names.get_handle("Nobody"), None);
    assert_eq!(names.get_name(NameHandle(7)), None);
    let empty = names.insert("", NameFlags::from_bits(NameFlags::VALUE));
    assert_eq!(empty, NameHandle::unknown());
    assert_eq!(names.name(NameHandle::unknown()), "<unknown>");
    assert_eq!(names.len(), 2);
    // the roles of a name accumulate
    assert_eq!(names.source_targets().len(), 2);
    assert_eq!(names.names_by_flags(NameFlags::from_bits(NameFlags::PLAYER)), vec!["Ayel"]);
    assert!(names.values().is_empty());
}

#[test]
fn name_manager_matches_rules_by_role() {
    let mut names = NameManager::default();
    names.insert("Borg Cube", NameFlags::from_bits(NameFlags::TARGET));
    names.insert("Phaser", NameFlags::from_bits(NameFlags::VALUE));
    let by_target = RulesGroup {
        name: "Borg".to_string(),
        rules: vec![MatchRule {
            aspect: MatchAspect::SourceOrTargetName,
            expression: "Cube".to_string(),
            method: MatchMethod::EndsWith,
            enabled: true,
        }],
        enabled: true,
    };
    assert!(names.matches(&by_target));
    let by_value = RulesGroup {
        name: "Cube value".to_string(),
        rules: vec![MatchRule {
            aspect: MatchAspect::DamageOrHealName,
            expression: "Cube".to_string(),
            method: MatchMethod::Contains,
            enabled: true,
        }],
        enabled: true,
    };
    assert!(!names.matches(&by_value));
    let disabled = RulesGroup { enabled: false, ..by_target.clone() };
    assert!(!names.matches(&disabled));
}

#[test]
fn match_methods() {
    let m = MatchRule::default();
    assert!(m.matches_name(MatchAspect::DamageOrHealName, ""));
    assert!(MatchMethod::StartsWith.check_match("Bo", "Borg"));
    assert!(!MatchMethod::StartsWith.check_match("rg", "Borg"));
    assert!(MatchMethod::EndsWith.check_match("rg", "Borg"));
    assert!(MatchMethod::Contains.check_match("or", "Borg"));
    assert!(MatchMethod::Contains.check_match("", "Borg"));
    assert!(!MatchMethod::Equals.check_match("Bor", "Borg"));
    assert_eq!(MatchMethod::StartsWith.display(), "Starts with");
    assert_eq!(MatchAspect::DamageOrHealName.display(), "Damage / Heal Name");
}

#[test]
fn combat_name_format() {
    let plain = CombatName { name: "ISA".to_string(), additional_infos: Vec::new() };
    assert_eq!(plain.format(), "ISA");
    let infos = CombatName {
        name: "ISA".to_string(),
        additional_infos: vec!["Elite".to_string(), "Fast".to_string()],
    };
    assert_eq!(infos.format(), "ISA (Elite, Fast)");
    assert_eq!(join_strings(&vec!["a".to_string(), "b".to_string(), "c".to_string()], "-"), "a-b-c");
    assert_eq!(join_strings(&Vec::new(), ", "), "");
}

#[test]
fn groups_store_and_resolve_values() {
    let player = NameHandle(0);
    let phaser = NameHandle(1);
    let target = NameHandle(2);
    let mut group: Group<u32> = Group::new_branch(GroupPathSegment::Group(player));
    let path = [GroupPathSegment::Group(target), GroupPathSegment::Value(phaser)];
    group.add_value(&path, 5, None, None, false);
    group.add_value(&path, 7, None, None, true);
    assert_eq!(group.sub_groups.len(), 1);
    assert_eq!(group.find_sub_group(phaser), Some(0));
    assert_eq!(group.find_sub_group(target), None);
    let leaf = &group.sub_groups[0].sub_groups[0];
    assert_eq!(leaf.values.get_leaf(), &[5, 7]);
    assert_eq!(leaf.kills, vec![(target, 1)]);

    let mut manager = ValuesManager::default();
    group.recalculate(&mut manager);
    assert_eq!(manager.get(&group.values), &[5, 7]);
    assert_eq!(group.kills, vec![(target, 1)]);

    assert_eq!(AnalysisGroup::name(&group), player);
    assert_eq!(AnalysisGroup::sub_groups(&group).len(), 1);
    assert!(AnalysisGroup::values(&group).is_branch());
}

#[test]
fn values_manager_basics() {
    let mut manager: ValuesManager<u8> = ValuesManager::default();
    manager.add_leaf(&[1, 2]);
    let branch = manager.track_group(|m| m.add_leaf(&[3, 4, 5]));
    assert!(branch.is_branch());
    assert_eq!(manager.get(&branch), &[3, 4, 5]);
    assert_eq!(branch.get(&manager), &[3, 4, 5]);
    let mut leaf = Values::empty_leaf();
    leaf.push(9u8);
    assert!(leaf.is_leaf());
    assert_eq!(leaf.get_leaf(), &[9]);
    assert_eq!(manager.len(), 5);
    manager.clear();
    assert_eq!(manager.len(), 0);
    assert!(Values::<u8>::empty_branch().is_branch());
}

#[test]
fn value_kinds() {
    let signs = |first: f64, second: f64| ValueSigns {
        first_negative: first < 0.0,
        first_positive: first > 0.0,
        first_zero: first == 0.0,
        second_zero: second == 0.0,
    };
    let none = combat_log_analyzer::flags::ValueFlags::parse("");
    let shield_break = combat_log_analyzer::flags::ValueFlags::parse("ShieldBreak");
    assert_eq!(ValueKind::classify("HitPoints", signs(-5.0, 0.0), none), ValueKind::HullHeal);
    assert_eq!(
        ValueKind::classify("HitPoints", signs(5.0, 0.0), none),
        ValueKind::HullDamage { base_from_first: true }
    );
    assert_eq!(ValueKind::classify("Shield", signs(-5.0, 0.0), none), ValueKind::ShieldHeal);
    assert_eq!(ValueKind::classify("Shield", signs(5.0, 0.0), none), ValueKind::ShieldDrain);
    assert_eq!(ValueKind::classify("Shield", signs(5.0, 0.0), shield_break), ValueKind::ShieldDamage);
    assert_eq!(ValueKind::classify("Shield", signs(5.0, 2.0), none), ValueKind::ShieldDamage);
    assert_eq!(ValueKind::classify("Shield", signs(0.0, 0.0), none), ValueKind::ShieldDamage);
    assert_eq!(
        ValueKind::classify("Plasma", signs(5.0, 7.0), none),
        ValueKind::HullDamage { base_from_first: false }
    );
    assert!(ValueKind::ShieldDamage.is_all_zero(signs(0.0, 0.0)));
    assert!(!ValueKind::ShieldDamage.is_all_zero(signs(0.0, 1.0)));
    assert!(ValueKind::HullDamage { base_from_first: true }.is_all_zero(signs(0.0, 0.0)));
    assert!(!ValueKind::HullDamage { base_from_first: false }.is_all_zero(signs(0.0, 3.0)));
    assert!(!ValueKind::HullHeal.is_damage());
    assert!(ValueKind::ShieldDrain.is_damage());
}

#[test]
fn heal_tick_counts() {
    let counts = ShieldAndHullCounts::of_heal_ticks(&vec![
        SpecificHealTick::Shield,
        SpecificHealTick::Hull,
        SpecificHealTick::Hull,
    ]);
    assert_eq!(counts, ShieldAndHullCounts { all: 3, shield: 1, hull: 2 });
    assert_eq!(ShieldAndHullCounts::of_heal_ticks(&Vec::new()), ShieldAndHullCounts::default());
}

#[test]
fn displayed_names() {
    assert_eq!(Theme::Dark.display(), "Dark");
    assert_eq!(Theme::default().display(), "Light Dark");
    assert_eq!(Theme::Light.display(), "Light");
    assert_eq!(ActiveDamageDiagram::Damage.display(), "Damage");
    assert_eq!(ActiveDamageDiagram::Dps.display(), "DPS");
    assert_eq!(ActiveDamageDiagram::DamageResistance.display(), "Damage Resistance");
    assert_eq!(ActiveHealDiagram::Heal.display(), "Heal");
    assert_eq!(ActiveHealDiagram::Hps.display(), "HPS");
    let debug = DebugSettings::default();
    assert!(!debug.enable_log);
    assert_eq!(debug.log_level_filter, LogLevelFilter::Info);
}

#[test]
fn name_flags() {
    let f = NameFlags::from_bits(NameFlags::SOURCE).set_if(NameFlags::from_bits(NameFlags::PLAYER), true);
    assert_eq!(f.bits, NameFlags::SOURCE | NameFlags::PLAYER);
    let g = f.set_if(NameFlags::from_bits(NameFlags::PLAYER), false);
    assert_eq!(g.bits, NameFlags::SOURCE);
    assert!(f.intersects(NameFlags::from_bits(NameFlags::PLAYER)));
    assert!(!g.intersects(NameFlags::from_bits(NameFlags::PLAYER)));
}

#[test]
fn a_group_branch_takes_in_a_value_branch_of_the_same_name() {
    let player = NameHandle(0);
    let beam = NameHandle(1);
    let target = NameHandle(2);
    let other = NameHandle(3);
    let mut group: Group<u32> = Group::new_branch(GroupPathSegment::Group(player));
    group.add_value(&[GroupPathSegment::Group(target), GroupPathSegment::Value(beam)], 1, None, None, false);
    // "beam" as a group now: the value branch moves below it
    group.add_value(&[GroupPathSegment::Group(other), GroupPathSegment::Group(beam)], 2, None, None, false);
    assert_eq!(group.sub_groups.len(), 1);
    let outer = &group.sub_groups[0];
    assert_eq!(outer.segment, GroupPathSegment::Group(beam));
    assert_eq!(outer.sub_groups.len(), 2);
    assert_eq!(outer.sub_groups[0].segment, GroupPathSegment::Value(beam));
    assert_eq!(outer.sub_groups[0].sub_groups[0].values.get_leaf(), &[1]);
    assert_eq!(outer.sub_groups[1].segment, GroupPathSegment::Group(other));
    assert_eq!(outer.sub_groups[1].values.get_leaf(), &[2]);

    let mut manager = ValuesManager::default();
    group.recalculate(&mut manager);
    assert_eq!(manager.get(&group.values), &[1, 2]);
}

#[test]
fn damage_types_keep_shield_apart() {
    let shield = NameHandle(5);
    let plasma = NameHandle(6);
    let mut leaf: Group<u32> = Group::new_leaf(GroupPathSegment::Group(NameHandle(0)));
    leaf.add_damage_type_non_pool(shield, Some(shield));
    assert_eq!(leaf.damage_types, vec![shield]);
    leaf.add_damage_type_non_pool(plasma, Some(shield));
    assert_eq!(leaf.damage_types, vec![plasma]);
    leaf.add_damage_type_non_pool(shield, Some(shield));
    assert_eq!(leaf.damage_types, vec![plasma]);
    leaf.add_damage_type_non_pool(NameHandle::unknown(), Some(shield));
    assert_eq!(leaf.damage_types, vec![plasma]);
    leaf.add_kill(NameHandle(0));
    leaf.add_kill(NameHandle(0));
    assert_eq!(leaf.kills, vec![(NameHandle(0), 2)]);
}

#[test]
fn durations() {
    assert_eq!(time_range_to_duration(&(5..8)), 3);
    assert_eq!(time_range_to_duration_or_zero(&None), 0);
    assert_eq!(time_range_to_duration_or_zero(&Some(10..4)), -6);
    assert_eq!(format_duration(3_723_004), "01:02:03.004");
    assert_eq!(format_duration(123_004), "02:03.004");
    assert_eq!(format_duration(0), "00:00.000");
    // a negative duration wraps around midnight
    assert_eq!(format_duration(-1000), "59:59.000");
}
