use combat_log_analyzer::entity::Entity;
use combat_log_analyzer::flags::ValueFlags;
use combat_log_analyzer::parser::Record;
use combat_log_analyzer::text::trim_str;

const LINE: &str = "23:01:07:10:12:56.3::Borg Queen Octahedron,C[25 Mission_Space_Borg_Queen_Diamond],Ayel,P[12793028@5473940 Ayel@greyblizzard],,*,Plasma Fire,Pn.Wujkxq,Plasma,Kill,2086.87,5300.66";

#[test]
fn single_record() {
    let record = Record::parse_from_line(LINE, Some(3..40)).unwrap();
    assert_eq!(record.time, 1673086376300);
    assert!(matches!(
        record.source,
        Entity::NonPlayer {
            name: "Borg Queen Octahedron",
            id: 25,
            unique_name: "Mission_Space_Borg_Queen_Diamond"
        }
    ));
    assert!(matches!(
        record.indirect_source,
        Entity::Player {
            full_name: "Ayel@greyblizzard",
            id: (12793028, 5473940)
        }
    ));
    assert!(matches!(record.target, Entity::Absent));
    assert_eq!(record.value_name, "Plasma Fire");
    assert_eq!(record.value_type, "Plasma");
    assert_eq!(record.value_flags.bits, ValueFlags::KILL);
    assert_eq!(record.value1, "2086.87");
    assert_eq!(record.value2, "5300.66");
    assert_eq!(record.raw, LINE);
    assert_eq!(record.log_pos, Some(3..40));
    assert!(!record.is_self_directed());
}

#[test]
fn record_with_spaces_around_fields_is_trimmed() {
    let line = "23:01:07:10:12:56.3::Ayel, P[1@2 Ayel@x] , , , ,*, Heal ,Pn.X, HitPoints , Critical|Flank , -12.5 , 0 \n";
    let record = Record::parse_from_line(line, None).unwrap();
    assert!(matches!(
        record.source,
        Entity::Player {
            full_name: "Ayel@x",
            id: (1, 2)
        }
    ));
    assert!(record.target.is_none());
    assert!(record.indirect_source.is_none());
    assert!(record.is_self_directed());
    assert_eq!(record.value_name, "Heal");
    assert_eq!(record.value_type, "HitPoints");
    assert_eq!(record.value_flags.bits, ValueFlags::CRITICAL | ValueFlags::FLANK);
    assert_eq!(record.value1, "-12.5");
    assert_eq!(record.value2, "0");
}

#[test]
fn invalid_records_are_refused() {
    assert!(Record::parse_from_line("", None).is_none());
    assert!(Record::parse_from_line("garbage", None).is_none());
    // too few fields
    assert!(Record::parse_from_line(
        "23:01:07:10:12:56.3::A,C[1 a],,*,,*,Fire,Pn.X,Plasma,,1",
        None
    )
    .is_none());
    // a time that is no time
    assert!(Record::parse_from_line(
        "23:13:40:10:12:56.3::A,C[1 a],,*,,*,Fire,Pn.X,Plasma,,1,2",
        None
    )
    .is_none());
    // an id text that is no id
    assert!(Record::parse_from_line(
        "23:01:07:10:12:56.3::A,X[1 a],,*,,*,Fire,Pn.X,Plasma,,1,2",
        None
    )
    .is_none());
}

#[test]
fn time_and_source_name() {
    let (time, name) = Record::parse_time_and_source_name("23:01:07:10:12:56.3::Borg").unwrap();
    assert_eq!(time, 1673086376300);
    assert_eq!(name, "Borg");
    assert!(Record::parse_time_and_source_name("23:01:07:10:12:56.3").is_none());
}

#[test]
fn entity_parse() {
    assert!(matches!(Entity::parse("", ""), Some(Entity::Absent)));
    assert!(matches!(Entity::parse("", "*"), Some(Entity::Absent)));
    assert!(matches!(
        Entity::parse("Bob", "S[17 Bob]"),
        Some(Entity::NonPlayerCharacter { id: 17, name: "Bob" })
    ));
    assert!(matches!(
        Entity::parse("Drone", "C[5 Drone_Unique]"),
        Some(Entity::NonPlayer {
            name: "Drone",
            id: 5,
            unique_name: "Drone_Unique"
        })
    ));
    // a player id needs the account id and the full name
    assert!(Entity::parse("Ayel", "P[12]").is_none());
    // a non player needs a unique name
    assert!(Entity::parse("Drone", "C[5]").is_none());
    assert!(Entity::parse("Drone", "Q[5 x]").is_none());
    let e = Entity::parse("Ayel", "P[1@2 Ayel@acc]").unwrap();
    assert_eq!(e.name(), Some("Ayel@acc"));
    assert_eq!(e.unique_name(), Some("Ayel@acc"));
    assert!(e.is_player());
    assert!(!e.is_none());
    let n = Entity::parse("Bob", "S[17 Bob]").unwrap();
    assert_eq!(n.unique_name(), None);
}

#[test]
fn value_flags_parse() {
    assert_eq!(ValueFlags::parse("").bits, 0);
    assert_eq!(ValueFlags::parse("Kill").bits, ValueFlags::KILL);
    assert_eq!(
        ValueFlags::parse("Critical|Immune|ShieldBreak").bits,
        ValueFlags::CRITICAL | ValueFlags::IMMUNE | ValueFlags::SHIELD_BREAK
    );
    assert_eq!(ValueFlags::parse("Unknown|Flank").bits, ValueFlags::FLANK);
    assert!(ValueFlags::parse("Kill|Flank").contains(ValueFlags::KILL));
    assert!(!ValueFlags::parse("Kill").contains(ValueFlags::FLANK));
}

#[test]
fn trimming() {
    assert_eq!(trim_str("  a b \t"), "a b");
    assert_eq!(trim_str(""), "");
    assert_eq!(trim_str("\u{a0}x\u{3000}"), "x");
}

#[test]
fn ids_with_digits_of_other_scripts_are_no_numbers() {
    // the pattern takes any decimal digit, but only ASCII digits make a number, so the
    // first id decides
    assert!(Entity::parse("X", "C[\u{661} x] C[5 y]").is_none());
    assert!(Entity::parse("X", "S[\u{663}]").is_none());
    assert!(Entity::parse("X", "S[18446744073709551616]").is_none());
    assert!(matches!(
        Entity::parse("X", "S[18446744073709551615]"),
        Some(Entity::NonPlayerCharacter { id: 18446744073709551615, name: "X" })
    ));
}
