//! The text of squad postings and notifications, and the reading of the
//! buttons a posting carries.
use vstd::prelude::*;
use crate::store::SquadStatus;

verus! {

/// The character of a decimal digit.
pub open spec fn digit_char(d: nat) -> char {
    if d == 0 {
        '0'
    } else if d == 1 {
        '1'
    } else if d == 2 {
        '2'
    } else if d == 3 {
        '3'
    } else if d == 4 {
        '4'
    } else if d == 5 {
        '5'
    } else if d == 6 {
        '6'
    } else if d == 7 {
        '7'
    } else if d == 8 {
        '8'
    } else {
        '9'
    }
}

/// The decimal notation of `n`, without leading zeros.
pub open spec fn decimal_digits(n: nat) -> Seq<char>
    decreases n,
{
    if n < 10 {
        seq![digit_char(n)]
    } else {
        decimal_digits(n / 10).push(digit_char(n % 10))
    }
}

fn digit_str(d: u64) -> (r: &'static str)
    requires
        d < 10,
    ensures
        r@ == seq![digit_char(d as nat)],
{
    proof {
        reveal_strlit("0");
        reveal_strlit("1");
        reveal_strlit("2");
        reveal_strlit("3");
        reveal_strlit("4");
        reveal_strlit("5");
        reveal_strlit("6");
        reveal_strlit("7");
        reveal_strlit("8");
        reveal_strlit("9");
    }
    if d == 0 {
        "0"
    } else if d == 1 {
        "1"
    } else if d == 2 {
        "2"
    } else if d == 3 {
        "3"
    } else if d == 4 {
        "4"
    } else if d == 5 {
        "5"
    } else if d == 6 {
        "6"
    } else if d == 7 {
        "7"
    } else if d == 8 {
        "8"
    } else {
        "9"
    }
}

/// `n` written in decimal.
pub fn decimal(n: u64) -> (r: String)
    ensures
        r@ == decimal_digits(n as nat),
    decreases n,
{
    if n < 10 {
        String::from_str(digit_str(n))
    } else {
        let mut s = decimal(n / 10);
        s.append(digit_str(n % 10));
        s
    }
}

/// A duration in seconds as hours and minutes (`"2h 5m"`), or minutes alone
/// under an hour (`"59m"`); leftover seconds are dropped.
pub open spec fn ttl_text(ttl: u64) -> Seq<char> {
    let hours = ttl / 3600;
    let minutes = (ttl / 60) % 60;
    if hours == 0 {
        decimal_digits(minutes as nat) + "m"@
    } else {
        decimal_digits(hours as nat) + "h "@ + decimal_digits(minutes as nat) + "m"@
    }
}

/// Formats seconds as readable time.
pub fn format_ttl(ttl: u64) -> (r: String)
    ensures
        r@ == ttl_text(ttl),
{
    let minutes = ttl / 60;
    let hours = minutes / 60;
    let minutes = minutes % 60;
    assert(hours == ttl / 3600) by (nonlinear_arith)
        requires hours == (ttl / 60) / 60;
    if hours == 0 {
        let mut s = decimal(minutes);
        s.append("m");
        s
    } else {
        let mut s = decimal(hours);
        s.append("h ");
        let m = decimal(minutes);
        s.append(m.as_str());
        s.append("m");
        s
    }
}

/// The opening of a forming squad's posting.
pub open spec fn description_text(capacity: u8) -> Seq<char> {
    "1\u{fe0f}\u{20e3} Use the number reacts to indicate for how many hours you are available.\n\nSquadBot will message you when at least "@
        + decimal_digits(capacity as nat) + " people are ready.\n\n"@
}

/// Base description included on forming squad postings.
pub fn create_description(capacity: u8) -> (r: String)
    ensures
        r@ == description_text(capacity),
{
    let mut s = String::from_str(
        "1\u{fe0f}\u{20e3} Use the number reacts to indicate for how many hours you are available.\n\nSquadBot will message you when at least ",
    );
    let c = decimal(capacity as u64);
    s.append(c.as_str());
    s.append(" people are ready.\n\n");
    s
}

/// How a chat message mentions a user.
pub open spec fn user_mention_text(user: u64) -> Seq<char> {
    "<@"@ + decimal_digits(user as nat) + ">"@
}

/// How a chat message mentions a channel.
pub open spec fn channel_mention_text(channel: u64) -> Seq<char> {
    "<#"@ + decimal_digits(channel as nat) + ">"@
}

pub fn user_mention(user: u64) -> (r: String)
    ensures
        r@ == user_mention_text(user),
{
    let mut s = String::from_str("<@");
    let d = decimal(user);
    s.append(d.as_str());
    s.append(">");
    s
}

pub fn channel_mention(channel: u64) -> (r: String)
    ensures
        r@ == channel_mention_text(channel),
{
    let mut s = String::from_str("<#");
    let d = decimal(channel);
    s.append(d.as_str());
    s.append(">");
    s
}

/// One line per member: who, and for how long they are available.
pub open spec fn availability_lines(members: Seq<(u64, u64)>) -> Seq<char>
    decreases members.len(),
{
    if members.len() == 0 {
        Seq::empty()
    } else {
        availability_lines(members.drop_last()) + user_mention_text(members.last().0)
            + " available for "@ + ttl_text(members.last().1) + "\n"@
    }
}

/// One line per member, naming them.
pub open spec fn name_lines(members: Seq<(u64, u64)>) -> Seq<char>
    decreases members.len(),
{
    if members.len() == 0 {
        Seq::empty()
    } else {
        name_lines(members.drop_last()) + user_mention_text(members.last().0) + "\n"@
    }
}

/// One line per channel, mentioning it.
pub open spec fn channel_lines(channels: Seq<u64>) -> Seq<char>
    decreases channels.len(),
{
    if channels.len() == 0 {
        Seq::empty()
    } else {
        channel_lines(channels.drop_last()) + channel_mention_text(channels.last()) + "\n"@
    }
}

pub fn availability_roster(members: &Vec<(u64, u64)>) -> (r: String)
    ensures
        r@ == availability_lines(members@),
{
    let mut s = String::new();
    let mut i: usize = 0;
    while i < members.len()
        invariant
            i <= members@.len(),
            s@ == availability_lines(members@.subrange(0, i as int)),
        decreases members@.len() - i,
    {
        let (user, ttl) = members[i];
        let m = user_mention(user);
        s.append(m.as_str());
        s.append(" available for ");
        let t = format_ttl(ttl);
        s.append(t.as_str());
        s.append("\n");
        proof {
            let next = members@.subrange(0, i + 1);
            assert(next.drop_last() =~= members@.subrange(0, i as int));
            assert(next.last() == members@[i as int]);
        }
        i = i + 1;
    }
    assert(members@.subrange(0, members@.len() as int) =~= members@);
    s
}

pub fn name_roster(members: &Vec<(u64, u64)>) -> (r: String)
    ensures
        r@ == name_lines(members@),
{
    let mut s = String::new();
    let mut i: usize = 0;
    while i < members.len()
        invariant
            i <= members@.len(),
            s@ == name_lines(members@.subrange(0, i as int)),
        decreases members@.len() - i,
    {
        let (user, _ttl) = members[i];
        let m = user_mention(user);
        s.append(m.as_str());
        s.append("\n");
        proof {
            let next = members@.subrange(0, i + 1);
            assert(next.drop_last() =~= members@.subrange(0, i as int));
            assert(next.last() == members@[i as int]);
        }
        i = i + 1;
    }
    assert(members@.subrange(0, members@.len() as int) =~= members@);
    s
}

pub fn channel_roster(channels: &Vec<u64>) -> (r: String)
    ensures
        r@ == channel_lines(channels@),
{
    let mut s = String::new();
    let mut i: usize = 0;
    while i < channels.len()
        invariant
            i <= channels@.len(),
            s@ == channel_lines(channels@.subrange(0, i as int)),
        decreases channels@.len() - i,
    {
        let m = channel_mention(channels[i]);
        s.append(m.as_str());
        s.append("\n");
        proof {
            let next = channels@.subrange(0, i + 1);
            assert(next.drop_last() =~= channels@.subrange(0, i as int));
        }
        i = i + 1;
    }
    assert(channels@.subrange(0, channels@.len() as int) =~= channels@);
    s
}

/// The text of a posting in each status: a forming squad shows its members
/// with their availability and the posting's time left, a filled one its
/// roster, an expired one a single line.
pub open spec fn description_for(
    status: SquadStatus,
    capacity: u8,
    members: Seq<(u64, u64)>,
    posting_ttl: u64,
) -> Seq<char> {
    match status {
        SquadStatus::Expired => "\u{1f534} This squad has expired."@,
        SquadStatus::Forming => description_text(capacity) + "**Current Squad**\n"@
            + availability_lines(members) + "\n"@ + "\u{1f7e1} This squad is still forming. Time left: "@
            + ttl_text(posting_ttl),
        SquadStatus::Filled => "**Squad**\n"@ + name_lines(members) + "\n"@
            + "\u{1f7e2} This squad has been filled!"@,
    }
}

/// Builds the description of a posting from the squad's status, capacity,
/// members (with seconds left) and the posting's seconds left.
pub fn build_description(
    status: SquadStatus,
    capacity: u8,
    members: &Vec<(u64, u64)>,
    posting_ttl: u64,
) -> (r: String)
    ensures
        r@ == description_for(status, capacity, members@, posting_ttl),
{
    match status {
        SquadStatus::Expired => String::from_str("\u{1f534} This squad has expired."),
        SquadStatus::Forming => {
            let mut s = create_description(capacity);
            s.append("**Current Squad**\n");
            let roster = availability_roster(members);
            s.append(roster.as_str());
            s.append("\n");
            s.append("\u{1f7e1} This squad is still forming. Time left: ");
            let t = format_ttl(posting_ttl);
            s.append(t.as_str());
            s
        },
        SquadStatus::Filled => {
            let mut s = String::from_str("**Squad**\n");
            let roster = name_roster(members);
            s.append(roster.as_str());
            s.append("\n");
            s.append("\u{1f7e2} This squad has been filled!");
            s
        },
    }
}

/// The message each member of a full squad receives: the roster with
/// availability, then the channels the squad was posted in.
pub open spec fn notice_text(members: Seq<(u64, u64)>, channels: Seq<u64>) -> Seq<char> {
    "**Members**\n"@ + availability_lines(members) + "\n"@ + "**Channels**\n"@ + channel_lines(
        channels,
    )
}

pub fn build_notice(members: &Vec<(u64, u64)>, channels: &Vec<u64>) -> (r: String)
    ensures
        r@ == notice_text(members@, channels@),
{
    let mut s = String::from_str("**Members**\n");
    let roster = availability_roster(members);
    s.append(roster.as_str());
    s.append("\n");
    s.append("**Channels**\n");
    let c = channel_roster(channels);
    s.append(c.as_str());
    s
}

} // verus!
