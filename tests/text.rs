use squadbot::input::{
    button_id, hours_to_seconds, parse_component_id, parse_squad_ref, squad_size, ButtonChoice,
};
use squadbot::store::SquadError;
use squadbot::keys::{channels_id, member_id, members_id, posting_id, squad_id};
use squadbot::store::SquadStatus;
use squadbot::text::{
    build_description, build_notice, channel_mention, create_description, decimal, format_ttl,
    user_mention,
};

#[test]
fn decimal_notation() {
    assert_eq!(decimal(0), "0");
    assert_eq!(decimal(9), "9");
    assert_eq!(decimal(10), "10");
    assert_eq!(decimal(u64::MAX), "18446744073709551615");
}

#[test]
fn ttl_formatting() {
    assert_eq!(format_ttl(0), "0m");
    assert_eq!(format_ttl(59), "0m");
    assert_eq!(format_ttl(60), "1m");
    assert_eq!(format_ttl(3599), "59m");
    assert_eq!(format_ttl(3600), "1h 0m");
    assert_eq!(format_ttl(3661), "1h 1m");
    assert_eq!(format_ttl(7325), "2h 2m");
    assert_eq!(format_ttl(39600), "11h 0m");
}

#[test]
fn description_of_a_forming_squad() {
    assert_eq!(
        create_description(5),
        "1\u{fe0f}\u{20e3} Use the number reacts to indicate for how many hours you are available.\n\nSquadBot will message you when at least 5 people are ready.\n\n"
    );
    let members = vec![(11u64, 3700u64)];
    assert_eq!(
        build_description(SquadStatus::Forming, 5, &members, 120),
        format!(
            "{}**Current Squad**\n<@11> available for 1h 1m\n\n\u{1f7e1} This squad is still forming. Time left: 2m",
            create_description(5)
        )
    );
}

#[test]
fn description_of_filled_and_expired_squads() {
    let members = vec![(1u64, 10u64), (2, 20)];
    assert_eq!(
        build_description(SquadStatus::Filled, 2, &members, 0),
        "**Squad**\n<@1>\n<@2>\n\n\u{1f7e2} This squad has been filled!"
    );
    assert_eq!(
        build_description(SquadStatus::Expired, 2, &members, 0),
        "\u{1f534} This squad has expired."
    );
}

#[test]
fn mentions_and_notice() {
    assert_eq!(user_mention(42), "<@42>");
    assert_eq!(channel_mention(7), "<#7>");
    assert_eq!(
        build_notice(&vec![(42, 60)], &vec![7, 8]),
        "**Members**\n<@42> available for 1m\n\n**Channels**\n<#7>\n<#8>\n"
    );
    assert_eq!(build_notice(&vec![], &vec![]), "**Members**\n\n**Channels**\n");
}

#[test]
fn button_ids_parse_back() {
    for hours in 1..=10u8 {
        let id = button_id(&ButtonChoice::Hours(hours));
        assert_eq!(id, hours.to_string());
        assert!(matches!(parse_component_id(&id), ButtonChoice::Hours(h) if h == hours));
    }
    let leave = button_id(&ButtonChoice::Leave(String::from("Leave Squad")));
    assert_eq!(leave, "Leave Squad");
    assert!(matches!(parse_component_id(&leave), ButtonChoice::Leave(s) if s == "Leave Squad"));
}

#[test]
fn component_ids_follow_unsigned_parsing() {
    assert!(matches!(parse_component_id("+7"), ButtonChoice::Hours(7)));
    assert!(matches!(parse_component_id("007"), ButtonChoice::Hours(7)));
    assert!(matches!(parse_component_id("255"), ButtonChoice::Hours(255)));
    assert!(matches!(parse_component_id("256"), ButtonChoice::Leave(_)));
    assert!(matches!(parse_component_id("-1"), ButtonChoice::Leave(_)));
    assert!(matches!(parse_component_id("+"), ButtonChoice::Leave(_)));
    assert!(matches!(parse_component_id(""), ButtonChoice::Leave(_)));
    assert!(matches!(parse_component_id("1a"), ButtonChoice::Leave(_)));
}

#[test]
fn hours_become_seconds() {
    assert_eq!(hours_to_seconds(1), 3600);
    assert_eq!(hours_to_seconds(10), 36000);
    assert_eq!(hours_to_seconds(255), 918000);
}

#[test]
fn key_names() {
    assert_eq!(squad_id(12), "squad:12");
    assert_eq!(members_id(12), "members:12");
    assert_eq!(member_id(12, 34), "member:12:34");
    assert_eq!(posting_id(56), "posting:56");
    assert_eq!(channels_id(12), "channels:12");
}

#[test]
fn squad_references_read_as_numbers() {
    assert_eq!(parse_squad_ref("123"), Some(123));
    assert_eq!(parse_squad_ref("+4294967295"), Some(4294967295));
    assert_eq!(parse_squad_ref("18446744073709551615"), Some(u64::MAX));
    assert_eq!(parse_squad_ref("18446744073709551616"), None);
    assert_eq!(parse_squad_ref("squad:12"), None);
    assert_eq!(parse_squad_ref(""), None);
}

#[test]
fn command_size_defaults_and_bounds() {
    assert_eq!(squad_size(None), Ok(5));
    assert_eq!(squad_size(Some(1)), Ok(1));
    assert_eq!(squad_size(Some(10)), Ok(10));
    assert_eq!(squad_size(Some(0)), Err(SquadError::MalformedArgument));
    assert_eq!(squad_size(Some(11)), Err(SquadError::MalformedArgument));
    assert_eq!(squad_size(Some(-3)), Err(SquadError::MalformedArgument));
}
