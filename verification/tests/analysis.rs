use combat_log_analyzer::combat::{compose_identifier, split_kills, Analyzer, RecordValue};
use combat_log_analyzer::groups::GroupPathSegment;
use combat_log_analyzer::parser::Record;
use combat_log_analyzer::settings::{
    AnalysisSettings, CombatNameRule, MatchAspect, MatchMethod, MatchRule, RulesGroup,
};

fn rule(aspect: MatchAspect, method: MatchMethod, expression: &str) -> MatchRule {
    MatchRule {
        aspect,
        expression: expression.to_string(),
        method,
        enabled: true,
    }
}

fn group(name: &str, rules: Vec<MatchRule>) -> RulesGroup {
    RulesGroup {
        name: name.to_string(),
        rules,
        enabled: true,
    }
}

fn settings() -> AnalysisSettings {
    AnalysisSettings {
        combatlog_file: String::new(),
        combat_separation_time_seconds: 60,
        indirect_source_grouping_revers_rules: Vec::new(),
        damage_out_exclusion_rules: Vec::new(),
        custom_group_rules: Vec::new(),
        combat_name_rules: vec![
            CombatNameRule {
                name_rule: group(
                    "Borg",
                    vec![rule(MatchAspect::SourceOrTargetName, MatchMethod::StartsWith, "Borg")],
                ),
                additional_info_rules: vec![
                    group(
                        "Elite",
                        vec![rule(MatchAspect::SourceOrTargetUniqueName, MatchMethod::EndsWith, "_Elite")],
                    ),
                    group(
                        "Hard",
                        vec![rule(MatchAspect::SourceOrTargetUniqueName, MatchMethod::Contains, "Hard")],
                    ),
                ],
            },
            CombatNameRule {
                name_rule: group(
                    "Never",
                    vec![rule(MatchAspect::DamageOrHealName, MatchMethod::Equals, "Nothing")],
                ),
                additional_info_rules: Vec::new(),
            },
        ],
    }
}

const HIT: &str = "23:01:07:10:12:56.3::Ayel,P[1@2 Ayel@acc],,*,Borg Cube,C[3 Borg_Cube_Elite],Phaser,Pn.X,Phaser,,100,120";
const KILL: &str = "23:01:07:10:12:58.3::Ayel,P[1@2 Ayel@acc],,*,Borg Cube,C[3 Borg_Cube_Elite],Phaser,Pn.X,Phaser,Kill,50,60";
const HEAL: &str = "23:01:07:10:13:00.3::Ayel,P[1@2 Ayel@acc],,*,,*,Hull Repair,Pn.X,HitPoints,,-30,0";
const INCOMING: &str = "23:01:07:10:13:01.3::Borg Cube,C[3 Borg_Cube_Elite],,*,Ayel,P[1@2 Ayel@acc],Torpedo,Pn.X,Kinetic,,70,80";
const LATER: &str = "23:01:07:10:15:00.3::Ayel,P[1@2 Ayel@acc],,*,Drone,C[4 Drone_U],Phaser,Pn.X,Phaser,,10,10";

fn run(lines: &[(&str, RecordValue<f64, f64>)]) -> (Analyzer<f64, f64>, Option<usize>) {
    let mut analyzer = Analyzer::new(settings());
    let mut first = None;
    for (line, value) in lines {
        let record = Record::parse_from_line(line, None).unwrap();
        assert!(analyzer.has_name_room());
        analyzer.process_record(&record, *value, false, &mut first);
    }
    (analyzer, first)
}

#[test]
fn records_are_split_into_combats_by_pauses() {
    let (analyzer, first) = run(&[
        (HIT, RecordValue::Damage(100.0)),
        (KILL, RecordValue::Damage(50.0)),
        (LATER, RecordValue::Damage(10.0)),
    ]);
    let combats = analyzer.result();
    assert_eq!(combats.len(), 2);
    assert_eq!(first, Some(0));
    assert_eq!(combats[0].active_time, 1673086376300..1673086378300);
    assert_eq!(combats[0].combat_time, Some(1673086376300..1673086378300));
    assert_eq!(combats[1].active_time.start, 1673086500300);
}

#[test]
fn a_record_within_the_separation_time_extends_the_combat() {
    let (analyzer, _) = run(&[
        (HIT, RecordValue::Damage(100.0)),
        (HEAL, RecordValue::Heal(30.0)),
    ]);
    let combats = analyzer.result();
    assert_eq!(combats.len(), 1);
    // heals extend the active time only
    assert_eq!(combats[0].active_time, 1673086376300..1673086380300);
    assert_eq!(combats[0].combat_time, Some(1673086376300..1673086376300));
}

#[test]
fn first_modified_combat_is_kept() {
    let mut analyzer: Analyzer<f64, f64> = Analyzer::new(settings());
    let mut first = Some(7);
    let record = Record::parse_from_line(HIT, None).unwrap();
    analyzer.process_record(&record, RecordValue::Damage(1.0), false, &mut first);
    assert_eq!(first, Some(7));
}

#[test]
fn update_gathers_values_names_and_kills() {
    let (mut analyzer, first) = run(&[
        (HIT, RecordValue::Damage(100.0)),
        (KILL, RecordValue::Damage(50.0)),
        (HEAL, RecordValue::Heal(30.0)),
        (INCOMING, RecordValue::Damage(70.0)),
    ]);
    analyzer.update_combats(first);
    let combat = &analyzer.result()[0];
    assert_eq!(combat.players.len(), 1);
    let player = &combat.players[0];
    assert_eq!(combat.name_manager.name(player.damage_out.segment.name()), "Ayel@acc");

    // outgoing damage: player -> "Phaser" value branch -> "Borg Cube" leaf
    assert_eq!(player.damage_out.sub_groups.len(), 1);
    let phaser = &player.damage_out.sub_groups[0];
    assert!(phaser.segment.is_value());
    assert_eq!(combat.name_manager.name(phaser.segment.name()), "Phaser");
    let cube = &phaser.sub_groups[0];
    assert_eq!(combat.name_manager.name(cube.segment.name()), "Borg Cube");
    assert_eq!(cube.values.get_leaf().len(), 2);

    // every branch names its values in the managers
    let hits: Vec<f64> = combat
        .hits_manger
        .get(&player.damage_out.values)
        .iter()
        .map(|h| h.value)
        .collect();
    assert_eq!(hits, vec![100.0, 50.0]);
    let incoming: Vec<f64> = combat
        .hits_manger
        .get(&player.damage_in.values)
        .iter()
        .map(|h| h.value)
        .collect();
    assert_eq!(incoming, vec![70.0]);
    assert_eq!(combat.hits_manger.len(), 3);
    // the heal without a target is a heal the player gave and received
    assert_eq!(combat.heal_ticks_manger.len(), 2);

    assert_eq!(combat.total_kills, 1);
    assert_eq!(combat.total_deaths, 0);
    assert_eq!(player.damage_out.kills.len(), 1);

    // naming: the "Borg" rule matches, with the "Elite" information
    assert_eq!(combat.combat_names.len(), 1);
    assert_eq!(combat.combat_names[0].name, "Borg");
    assert_eq!(combat.combat_names[0].additional_infos, vec!["Elite".to_string()]);
    assert_eq!(combat.name(), "Borg (Elite)");
    assert_eq!(
        combat.identifier().unwrap(),
        "Borg (Elite) | 2023-01-07 10:12:56 - 10:13:01"
    );
    assert_eq!(
        combat.file_identifier().unwrap(),
        "Borg (Elite) 2023-01-07 10-12-56 - 10-13-01"
    );
}

#[test]
fn timestamps_record_offsets_from_the_combat_start() {
    let (analyzer, _) = run(&[
        (HIT, RecordValue::Damage(100.0)),
        (KILL, RecordValue::Damage(50.0)),
    ]);
    let combat = &analyzer.result()[0];
    let leaf = &combat.players[0].damage_out.sub_groups[0].sub_groups[0];
    let times: Vec<u32> = leaf.values.get_leaf().iter().map(|h| h.time_millis).collect();
    assert_eq!(times, vec![0, 2000]);
}

#[test]
fn an_unnamed_combat_is_called_combat() {
    let (mut analyzer, first) = run(&[(LATER, RecordValue::Damage(10.0))]);
    analyzer.update_combats(first);
    assert_eq!(analyzer.result()[0].name(), "Combat");
}

#[test]
fn update_leaves_earlier_combats_alone() {
    let (mut analyzer, _) = run(&[
        (HIT, RecordValue::Damage(100.0)),
        (LATER, RecordValue::Damage(10.0)),
    ]);
    analyzer.update_combats(Some(1));
    let combats = analyzer.result();
    assert_eq!(combats[0].hits_manger.len(), 0);
    assert_eq!(combats[1].hits_manger.len(), 1);
}

#[test]
fn identifier_parts() {
    assert_eq!(
        compose_identifier("Combat", " | ", "2023-01-07", "10:12:56", "10:13:01"),
        "Combat | 2023-01-07 10:12:56 - 10:13:01"
    );
}

#[test]
fn grouping_path_of_a_pet() {
    let line = "23:01:07:10:12:56.3::Ayel,P[1@2 Ayel@acc],Drone Ship,C[9 Pet_Drone],Borg Cube,C[3 Borg_Cube_Elite],Cutting Beam,Pn.X,Plasma,,10,10";
    let (mut analyzer, first) = run(&[(line, RecordValue::Damage(10.0))]);
    analyzer.update_combats(first);
    let combat = &analyzer.result()[0];
    let player = &combat.players[0];
    // player -> indirect source "Drone Ship" -> value "Cutting Beam" -> target leaf
    let drone = &player.damage_out.sub_groups[0];
    assert!(matches!(drone.segment, GroupPathSegment::Group(_)));
    assert_eq!(combat.name_manager.name(drone.segment.name()), "Drone Ship");
    let beam = &drone.sub_groups[0];
    assert_eq!(combat.name_manager.name(beam.segment.name()), "Cutting Beam");
    assert_eq!(combat.name_manager.name(beam.sub_groups[0].segment.name()), "Borg Cube");
}

#[test]
fn the_player_behind_a_non_player_source_receives_its_value() {
    let line = "23:01:07:10:12:56.3::Drone Ship,C[9 Pet_Drone],Ayel,P[1@2 Ayel@acc],Borg Cube,C[3 Borg_Cube_Elite],Cutting Beam,Pn.X,Plasma,,10,10";
    let (mut analyzer, first) = run(&[(line, RecordValue::Damage(10.0))]);
    analyzer.update_combats(first);
    let combat = &analyzer.result()[0];
    assert_eq!(combat.players.len(), 1);
    let player = &combat.players[0];
    assert_eq!(combat.name_manager.name(player.damage_out.segment.name()), "Ayel@acc");
    assert_eq!(combat.hits_manger.get(&player.damage_in.values).len(), 1);
    assert_eq!(combat.hits_manger.get(&player.damage_out.values).len(), 0);
}

#[test]
fn excluded_records_add_no_caused_value() {
    let mut s = settings();
    s.damage_out_exclusion_rules = vec![rule(MatchAspect::DamageOrHealName, MatchMethod::Equals, "Phaser")];
    let mut analyzer: Analyzer<f64, f64> = Analyzer::new(s);
    let mut first = None;
    let record = Record::parse_from_line(HIT, None).unwrap();
    analyzer.process_record(&record, RecordValue::Damage(100.0), false, &mut first);
    analyzer.update_combats(first);
    let combat = &analyzer.result()[0];
    assert_eq!(combat.hits_manger.len(), 0);
    // the combat time still counts player damage
    assert_eq!(combat.combat_time, Some(1673086376300..1673086376300));
}

#[test]
fn immune_damage_does_not_extend_the_combat_time() {
    let mut analyzer: Analyzer<f64, f64> = Analyzer::new(settings());
    let mut first = None;
    let hit = Record::parse_from_line(HIT, None).unwrap();
    analyzer.process_record(&hit, RecordValue::Damage(100.0), false, &mut first);
    let immune = Record::parse_from_line(
        "23:01:07:10:12:58.3::Ayel,P[1@2 Ayel@acc],,*,Borg Cube,C[3 Borg_Cube_Elite],Phaser,Pn.X,Phaser,Immune,0,0",
        None,
    )
    .unwrap();
    analyzer.process_record(&immune, RecordValue::Damage(0.0), true, &mut first);
    let combat = &analyzer.result()[0];
    assert_eq!(combat.combat_time, Some(1673086376300..1673086376300));
    assert_eq!(combat.active_time, 1673086376300..1673086378300);
}

#[test]
fn combats_span_the_log_positions_of_their_records() {
    let mut analyzer: Analyzer<f64, f64> = Analyzer::new(settings());
    let mut first = None;
    let lines = [(HIT, 0u64..120u64), (KILL, 120..250), (LATER, 250..400)];
    for (line, pos) in lines {
        let record = Record::parse_from_line(line, Some(pos)).unwrap();
        analyzer.process_record(&record, RecordValue::Damage(1.0), false, &mut first);
    }
    let combats = analyzer.result();
    assert_eq!(combats[0].log_pos, Some(0..250));
    assert_eq!(combats[1].log_pos, Some(250..400));
}

#[test]
fn a_player_that_owns_the_source_and_is_the_target_receives_the_value_twice() {
    let line = "23:01:07:10:12:56.3::Drone Ship,C[9 Pet_Drone],Ayel,P[1@2 Ayel@acc],Ayel,P[1@2 Ayel@acc],Cutting Beam,Pn.X,Plasma,,10,10";
    let (mut analyzer, first) = run(&[(line, RecordValue::Damage(10.0))]);
    analyzer.update_combats(first);
    let combat = &analyzer.result()[0];
    assert_eq!(combat.players.len(), 1);
    let player = &combat.players[0];
    let received: Vec<f64> = combat
        .hits_manger
        .get(&player.damage_in.values)
        .iter()
        .map(|h| h.value)
        .collect();
    assert_eq!(received, vec![10.0, 10.0]);
    assert_eq!(combat.hits_manger.get(&player.damage_out.values).len(), 0);
}

#[test]
fn kills_split_into_player_and_other_kills() {
    let npc_kill = KILL;
    let player_kill = "23:01:07:10:12:59.3::Ayel,P[1@2 Ayel@acc],,*,Bob,P[5@6 Bob@acc],Phaser,Pn.X,Phaser,Kill,50,60";
    let (mut analyzer, first) = run(&[
        (HIT, RecordValue::Damage(100.0)),
        (npc_kill, RecordValue::Damage(50.0)),
        (player_kill, RecordValue::Damage(50.0)),
        (player_kill, RecordValue::Damage(50.0)),
    ]);
    analyzer.update_combats(first);
    let combat = &analyzer.result()[0];
    let ayel = combat
        .players
        .iter()
        .find(|p| combat.name_manager.name(p.damage_out.segment.name()) == "Ayel@acc")
        .unwrap();
    assert_eq!(split_kills(&ayel.damage_out.kills, &combat.name_manager), (2, 1));
    assert_eq!(combat.total_kills, 3);
    assert_eq!(combat.total_deaths, 2);
}

#[test]
fn players_times_follow_what_they_do() {
    let heal = "23:01:07:10:13:10.3::Bob,P[5@6 Bob@acc],,*,Ayel,P[1@2 Ayel@acc],Hull Repair,Pn.X,HitPoints,,-30,0";
    let (analyzer, _) = run(&[(HIT, RecordValue::Damage(100.0)), (heal, RecordValue::Heal(30.0))]);
    let combat = &analyzer.result()[0];
    let player = |name: &str| {
        combat
            .players
            .iter()
            .find(|p| combat.name_manager.name(p.damage_out.segment.name()) == name)
            .unwrap()
    };
    let ayel = player("Ayel@acc");
    let bob = player("Bob@acc");
    // a received heal leaves the target's times alone
    assert_eq!(ayel.active_time, Some(1673086376300..1673086376300));
    assert_eq!(ayel.combat_time, Some(1673086376300..1673086376300));
    // a caused heal makes the healer active, not in combat
    assert_eq!(bob.active_time, Some(1673086390300..1673086390300));
    assert_eq!(bob.combat_time, None);
}

#[test]
fn a_record_leaves_the_players_it_does_not_name_alone() {
    let other = "23:01:07:10:12:57.3::Bob,P[5@6 Bob@acc],,*,Drone,C[4 Drone_U],Phaser,Pn.X,Phaser,,10,10";
    let (mut analyzer, first) = run(&[(HIT, RecordValue::Damage(100.0)), (other, RecordValue::Damage(10.0))]);
    analyzer.update_combats(first);
    let combat = &analyzer.result()[0];
    // the non player targets get no player of their own
    assert_eq!(combat.players.len(), 2);
    let ayel = combat
        .players
        .iter()
        .find(|p| combat.name_manager.name(p.damage_out.segment.name()) == "Ayel@acc")
        .unwrap();
    let dealt: Vec<f64> = combat.hits_manger.get(&ayel.damage_out.values).iter().map(|h| h.value).collect();
    assert_eq!(dealt, vec![100.0]);
    assert_eq!(combat.hits_manger.get(&ayel.damage_in.values).len(), 0);
    assert_eq!(ayel.active_time, Some(1673086376300..1673086376300));
}
