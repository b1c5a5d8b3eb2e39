use trakt::motd::{BedrockEdition, GameMode, Motd};

const SAMPLE: &str = "MCPE;Hello;630;1.20;1;10;12345;Sub;Survival;1;19132;19132;";

#[test]
fn decode_sample_payload() {
    let m = Motd::decode_payload(SAMPLE).unwrap();
    assert!(matches!(m.edition, BedrockEdition::PocketEdition));
    assert_eq!(m.lines[0], "Hello");
    assert_eq!(m.lines[1], "Sub");
    assert_eq!(m.protocol_version, 630);
    assert_eq!(m.version_name, "1.20");
    assert_eq!(m.player_count, 1);
    assert_eq!(m.max_player_count, 10);
    assert_eq!(m.server_uuid, 12345);
    assert!(matches!(m.gamemode, GameMode::Survival));
    assert!(!m.nintendo_limited);
    assert_eq!(m.port_v4, 19132);
    assert_eq!(m.port_v6, 19132);
}

#[test]
fn encode_decode_round_trip() {
    let m = Motd::decode_payload(SAMPLE).unwrap();
    assert_eq!(m.encode_payload(), SAMPLE);
    let custom = Motd {
        server_uuid: -42,
        edition: BedrockEdition::Custom("XYZ".to_string()),
        protocol_version: 1,
        version_name: "v".to_string(),
        lines: ["a".to_string(), "b".to_string()],
        player_count: 0,
        max_player_count: 5,
        gamemode: GameMode::Custom("Adventure".to_string()),
        nintendo_limited: true,
        port_v4: 1,
        port_v6: 2,
    };
    let payload = custom.encode_payload();
    assert_eq!(payload, "XYZ;a;1;v;0;5;-42;b;Adventure;0;1;2;");
    let back = Motd::decode_payload(&payload).unwrap();
    assert_eq!(back.encode_payload(), payload);
    assert!(back.nintendo_limited);
    assert!(matches!(back.gamemode, GameMode::Custom(ref g) if g == "Adventure"));
}

#[test]
fn truncated_payload_takes_defaults() {
    let m = Motd::decode_payload("MCBE;Only title").unwrap();
    assert!(matches!(m.edition, BedrockEdition::EducationEdition));
    assert_eq!(m.lines[0], "Only title");
    assert_eq!(m.lines[1], "");
    assert_eq!(m.protocol_version, 0);
    assert_eq!(m.player_count, 0);
    assert!(matches!(m.gamemode, GameMode::Survival));
    assert!(!m.nintendo_limited);
    assert_eq!(m.port_v6, 0);
}

#[test]
fn unreadable_numbers_become_zero() {
    let m = Motd::decode_payload("MCPE;t;99999;x;-1;+7;abc;;Creative;0;70000;+80;").unwrap();
    assert_eq!(m.protocol_version, 0);
    assert_eq!(m.player_count, 0);
    assert_eq!(m.max_player_count, 7);
    assert_eq!(m.server_uuid, 0);
    assert!(matches!(m.gamemode, GameMode::Creative));
    assert!(m.nintendo_limited);
    assert_eq!(m.port_v4, 0);
    assert_eq!(m.port_v6, 80);
}

#[test]
fn empty_edition_fails() {
    assert!(Motd::decode_payload("").is_none());
    assert!(Motd::decode_payload(";Hello;").is_none());
}
