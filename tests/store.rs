use squadbot::store::{JoinOutcome, SquadError, SquadStatus, SquadStore, POSTING_TTL, SQUAD_TTL};

const T0: u64 = 1_700_000_000;

fn posted_squad(store: &mut SquadStore, squad: u64, capacity: u8, message: u64, channel: u64) {
    assert_eq!(store.build_squad(squad, capacity, T0), Ok(()));
    store.build_posting(channel, message, None, squad, T0);
}

#[test]
fn capacity_round_trip() {
    let mut store = SquadStore::new();
    let squad = store.create_squad(5, T0).unwrap();
    assert!(squad <= u32::MAX as u64);
    assert_eq!(store.get_capacity(squad, T0), Ok(5));
    assert_eq!(store.get_capacity(squad, T0 + SQUAD_TTL - 1), Ok(5));
}

#[test]
fn member_round_trip() {
    let mut store = SquadStore::new();
    let squad = store.create_squad(5, T0).unwrap();
    store.build_posting(10, 20, None, squad, T0);
    assert_eq!(store.add_member(squad, 77, 3600, T0), JoinOutcome::Joined);
    let members = store.get_members(squad, T0);
    assert_eq!(members.len(), 1);
    assert_eq!(members[0].0, 77);
    assert!(members[0].1 > 0 && members[0].1 <= 3600);
    let later = store.get_members(squad, T0 + 1800);
    assert_eq!(later, vec![(77, 1800)]);
}

#[test]
fn invalid_capacity_is_refused() {
    let mut store = SquadStore::new();
    assert_eq!(store.build_squad(1, 0, T0), Err(SquadError::MalformedArgument));
    assert_eq!(store.build_squad(1, 11, T0), Err(SquadError::MalformedArgument));
    assert_eq!(store.create_squad(0, T0), Err(SquadError::MalformedArgument));
    assert_eq!(store.get_capacity(1, T0), Err(SquadError::NotFound));
    assert_eq!(store.build_squad(1, 1, T0), Ok(()));
    assert_eq!(store.build_squad(2, 10, T0), Ok(()));
}

#[test]
fn reads_of_missing_records_are_not_found() {
    let mut store = SquadStore::new();
    assert_eq!(store.get_squad_id(5, T0), Err(SquadError::NotFound));
    assert_eq!(store.get_role_id(5, T0), Err(SquadError::NotFound));
    assert_eq!(store.get_ttl(5, T0), Err(SquadError::NotFound));
    assert_eq!(store.get_filled(5, T0), Err(SquadError::NotFound));
    assert_eq!(store.get_channels(5, T0), Err(SquadError::NotFound));
    assert_eq!(store.fill_squad(5, T0), Err(SquadError::NotFound));
    assert_eq!(store.delete_member(5, 1, T0), Err(SquadError::NotFound));
    assert!(store.get_members(5, T0).is_empty());
    assert_eq!(store.get_squad_status(5, T0), SquadStatus::Expired);
}

#[test]
fn posting_fields_read_back() {
    let mut store = SquadStore::new();
    assert_eq!(store.build_squad(9, 4, T0), Ok(()));
    store.build_posting(300, 400, Some(55), 9, T0);
    store.build_posting(301, 401, None, 9, T0 + 10);
    assert_eq!(store.get_squad_id(400, T0 + 20), Ok(9));
    assert_eq!(store.get_role_id(400, T0 + 20), Ok(Some(55)));
    assert_eq!(store.get_role_id(401, T0 + 20), Ok(None));
    assert_eq!(store.get_ttl(400, T0 + 20), Ok(POSTING_TTL - 20));
    assert_eq!(store.get_channels(9, T0 + 20), Ok(vec![300, 301]));
    let mut postings = store.get_postings(T0 + 20);
    postings.sort();
    assert_eq!(postings, vec![(400, 300), (401, 301)]);
    // The same message again overwrites its posting and keeps the channel once.
    store.build_posting(300, 400, None, 9, T0 + 30);
    assert_eq!(store.get_role_id(400, T0 + 40), Ok(None));
    assert_eq!(store.get_channels(9, T0 + 40), Ok(vec![300, 301]));
}

#[test]
fn joins_never_exceed_capacity() {
    let mut store = SquadStore::new();
    posted_squad(&mut store, 1, 3, 100, 200);
    let mut joined = 0;
    for user in 10..20u64 {
        if store.add_member(1, user, 3600, T0 + user) == JoinOutcome::Joined {
            joined += 1;
        }
        assert!(store.get_members(1, T0 + user).len() <= 3);
    }
    assert_eq!(joined, 3);
    assert_eq!(store.add_member(1, 99, 3600, T0 + 40), JoinOutcome::Full);
    assert_eq!(store.add_member(1, 10, 3600, T0 + 40), JoinOutcome::AlreadyMember);
    assert_eq!(store.get_members(1, T0 + 40).len(), 3);
}

#[test]
fn filled_flag_never_reverts() {
    let mut store = SquadStore::new();
    posted_squad(&mut store, 1, 2, 100, 200);
    assert_eq!(store.get_squad_status(1, T0), SquadStatus::Forming);
    assert_eq!(store.fill_squad(1, T0 + 1), Ok(()));
    assert_eq!(store.fill_squad(1, T0 + 2), Ok(()));
    assert_eq!(store.get_filled(1, T0 + 3), Ok(true));
    assert_eq!(store.get_squad_status(1, T0 + 4), SquadStatus::Filled);
    assert_eq!(store.add_member(1, 5, 3600, T0 + 5), JoinOutcome::Closed);
    assert_eq!(store.get_squad_status(1, T0 + 6), SquadStatus::Filled);
}

#[test]
fn expired_posting_collects_squad() {
    let mut store = SquadStore::new();
    posted_squad(&mut store, 1, 2, 100, 200);
    let gone = T0 + POSTING_TTL;
    assert_eq!(store.get_squad_status(1, gone - 1), SquadStatus::Forming);
    assert_eq!(store.get_squad_status(1, gone), SquadStatus::Expired);
    assert_eq!(store.get_capacity(1, gone), Err(SquadError::NotFound));
    assert_eq!(store.get_squad_status(1, gone + 1), SquadStatus::Expired);
    assert_eq!(store.add_member(1, 5, 3600, gone + 2), JoinOutcome::Closed);
}

#[test]
fn squad_without_posting_is_expired() {
    let mut store = SquadStore::new();
    assert_eq!(store.build_squad(1, 2, T0), Ok(()));
    assert_eq!(store.get_squad_status(1, T0), SquadStatus::Expired);
    assert_eq!(store.get_capacity(1, T0), Err(SquadError::NotFound));
}

#[test]
fn expired_member_heals_out_of_set() {
    let mut store = SquadStore::new();
    posted_squad(&mut store, 1, 2, 100, 200);
    assert_eq!(store.add_member(1, 10, 3600, T0), JoinOutcome::Joined);
    assert_eq!(store.add_member(1, 11, 7200, T0), JoinOutcome::Joined);
    assert_eq!(store.get_full_squads(T0 + 10), vec![1]);
    let members = store.get_members(1, T0 + 3600);
    assert_eq!(members, vec![(11, 3600)]);
    // The set shrank: the squad is no longer full.
    assert!(store.get_full_squads(T0 + 3600).is_empty());
    assert_eq!(store.add_member(1, 12, 3600, T0 + 3601), JoinOutcome::Joined);
}

#[test]
fn delete_member_tells_whether_anything_went() {
    let mut store = SquadStore::new();
    posted_squad(&mut store, 1, 2, 100, 200);
    assert_eq!(store.add_member(1, 10, 3600, T0), JoinOutcome::Joined);
    assert_eq!(store.delete_member(1, 10, T0 + 1), Ok(true));
    assert_eq!(store.delete_member(1, 10, T0 + 2), Ok(false));
    assert!(store.get_members(1, T0 + 3).is_empty());
}

#[test]
fn empty_set_rearms_with_posting_lifetime() {
    let mut store = SquadStore::new();
    posted_squad(&mut store, 1, 2, 100, 200);
    assert_eq!(store.add_member(1, 10, 50_000, T0), JoinOutcome::Joined);
    // The member set dies with the posting even though the member record
    // would outlive it.
    assert_eq!(store.get_members(1, T0 + POSTING_TTL - 1), vec![(10, 50_000 - POSTING_TTL + 1)]);
    assert!(store.get_members(1, T0 + POSTING_TTL).is_empty());
    assert_eq!(store.get_capacity(1, T0 + POSTING_TTL), Ok(2));
}

#[test]
fn two_joins_then_one_tick_notifies_once() {
    let mut store = SquadStore::new();
    posted_squad(&mut store, 42, 2, 100, 200);
    let a = 1001;
    let b = 1002;
    let c = 1003;
    assert_eq!(store.add_member(42, a, 3600, T0), JoinOutcome::Joined);
    assert_eq!(store.add_member(42, b, 7200, T0 + 5), JoinOutcome::Joined);
    assert_eq!(store.add_member(42, c, 3600, T0 + 6), JoinOutcome::Full);

    let tick = store.reconcile(T0 + 30);
    assert_eq!(tick.renders.len(), 1);
    assert_eq!(tick.renders[0].message, 100);
    assert_eq!(tick.renders[0].channel, 200);
    assert_eq!(tick.renders[0].status, SquadStatus::Forming);
    assert_eq!(tick.notices.len(), 2);
    let users: Vec<u64> = tick.notices.iter().map(|n| n.user).collect();
    assert_eq!(users, vec![a, b]);
    for n in &tick.notices {
        assert_eq!(n.squad, 42);
        assert_eq!(
            n.content,
            "**Members**\n<@1001> available for 59m\n<@1002> available for 1h 59m\n\n**Channels**\n<#200>\n"
        );
    }
    assert_eq!(store.get_filled(42, T0 + 31), Ok(true));

    let again = store.reconcile(T0 + 60);
    assert!(again.notices.is_empty());
    assert_eq!(again.renders.len(), 1);
    assert_eq!(again.renders[0].status, SquadStatus::Filled);
    assert_eq!(
        again.renders[0].description,
        "**Squad**\n<@1001>\n<@1002>\n\n\u{1f7e2} This squad has been filled!"
    );

    // C never entered the set, yet its own record was set by the join.
    assert_eq!(store.delete_member(42, c, T0 + 61), Ok(true));
}

#[test]
fn tick_renders_expired_and_forming_postings() {
    let mut store = SquadStore::new();
    posted_squad(&mut store, 7, 3, 500, 600);
    assert_eq!(store.add_member(7, 9, 3600, T0), JoinOutcome::Joined);
    let tick = store.reconcile(T0 + 60);
    assert!(tick.notices.is_empty());
    assert_eq!(tick.renders.len(), 1);
    let expected = format!(
        "{}**Current Squad**\n<@9> available for 59m\n\n\u{1f7e1} This squad is still forming. Time left: 10h 59m",
        squadbot::text::create_description(3)
    );
    assert_eq!(tick.renders[0].description, expected);
    let late = store.reconcile(T0 + POSTING_TTL);
    assert!(late.renders.is_empty());
}

#[test]
fn rendering_a_posting_of_a_gone_squad_says_expired() {
    let mut store = SquadStore::new();
    store.build_posting(600, 500, None, 8, T0);
    let render = store.render_posting(500, 600, T0 + 1).unwrap();
    assert_eq!(render.status, SquadStatus::Expired);
    assert_eq!(render.description, "\u{1f534} This squad has expired.");
    assert!(store.render_posting(501, 600, T0 + 1).is_err());
}

#[test]
fn notify_squad_marks_filled() {
    let mut store = SquadStore::new();
    posted_squad(&mut store, 3, 1, 100, 200);
    assert_eq!(store.add_member(3, 5, 3600, T0), JoinOutcome::Joined);
    let notices = store.notify_squad(3, T0 + 60).unwrap();
    assert_eq!(notices.len(), 1);
    assert_eq!(notices[0].user, 5);
    assert_eq!(store.get_squad_status(3, T0 + 61), SquadStatus::Filled);
    assert!(store.get_full_squads(T0 + 62).is_empty());
    assert_eq!(store.notify_squad(4, T0).err(), Some(SquadError::NotFound));
}

#[test]
fn prepare_squad_opens_or_joins() {
    let mut store = SquadStore::new();
    let (id, capacity) = store.prepare_squad(None, None, T0).unwrap();
    assert_eq!(capacity, 5);
    assert_eq!(store.get_capacity(id, T0), Ok(5));
    let (other, three) = store.prepare_squad(None, Some(3), T0).unwrap();
    assert_eq!(three, 3);
    assert_eq!(store.get_capacity(other, T0), Ok(3));
    assert_eq!(store.prepare_squad(Some(id), Some(9), T0), Ok((id, 5)));
    assert_eq!(store.prepare_squad(None, Some(0), T0), Err(SquadError::MalformedArgument));
    let missing = if id == 7 { 8 } else { 7 };
    let missing = if missing == other { 9 } else { missing };
    assert_eq!(store.prepare_squad(Some(missing), None, T0), Err(SquadError::NotFound));
}

#[test]
fn simultaneous_joins_at_one_below_capacity() {
    let mut store = SquadStore::new();
    posted_squad(&mut store, 5, 2, 100, 200);
    assert_eq!(store.add_member(5, 1, 3600, T0), JoinOutcome::Joined);
    // Two joins in the same second while one place is left: one gets it.
    assert_eq!(store.add_member(5, 2, 3600, T0 + 1), JoinOutcome::Joined);
    assert_eq!(store.add_member(5, 3, 3600, T0 + 1), JoinOutcome::Full);
    assert_eq!(store.get_members(5, T0 + 1).len(), 2);
}
