//! The squad lifecycle store: squads, postings, member sets, member records
//! and channel sets as time-bounded records in one key-value namespace.
//!
//! Time is explicit: every operation takes the current second `now`, and a
//! record whose deadline has come by then no longer exists.
use vstd::prelude::*;
use crate::ttl_table::{TtlTable, Timed, MemberKey, live_part, alive};
use crate::input::{size_for, squad_size};

verus! {

/// Lifetime of a squad record: a ceiling well beyond the posting's lifetime.
pub const SQUAD_TTL: u64 = 24 * 60 * 60;

/// Lifetime of a posting, the squad's real expiry clock.
pub const POSTING_TTL: u64 = 11 * 60 * 60;

/// Largest number of members a squad may ask for.
pub const MAX_CAPACITY: u8 = 10;

/// Number of members a squad asks for when none was given.
pub const DEFAULT_CAPACITY: u8 = 5;

/// What a squad record holds.
#[derive(Clone, Copy, PartialEq, Eq, Structural)]
pub struct SquadRecord {
    pub capacity: u8,
    /// Message id of the posting whose lifetime the squad follows.
    pub posting: Option<u64>,
    pub filled: bool,
}

/// What a posting record holds.
#[derive(Clone, Copy, PartialEq, Eq, Structural)]
pub struct PostingRecord {
    pub squad: u64,
    pub channel: u64,
    pub role: Option<u64>,
}

#[derive(Clone, Copy, PartialEq, Eq, Structural, Debug)]
pub enum SquadStatus {
    Expired,
    Forming,
    Filled,
}

#[derive(Clone, Copy, PartialEq, Eq, Structural, Debug)]
pub enum SquadError {
    /// The backing store could not be reached.
    StoreUnavailable,
    /// The squad or posting referred to does not exist (most often: it expired).
    NotFound,
    /// A capacity outside `1..=MAX_CAPACITY`, or an unreadable argument.
    MalformedArgument,
}

/// What became of a request to join a squad.
#[derive(Clone, Copy, PartialEq, Eq, Structural, Debug)]
pub enum JoinOutcome {
    /// The user was added to the member set.
    Joined,
    /// The user was in the member set already.
    AlreadyMember,
    /// The member set is at capacity; the user was not added.
    Full,
    /// The squad is not forming (filled or expired); nothing changed but the
    /// expiry of a squad whose posting is gone.
    Closed,
}

/// The store's contents as mathematical maps.
pub struct StoreView {
    pub squads: Map<u64, Timed<SquadRecord>>,
    pub postings: Map<u64, Timed<PostingRecord>>,
    pub member_sets: Map<u64, Timed<Seq<u64>>>,
    pub members: Map<MemberKey, Timed<()>>,
    pub channels: Map<u64, Timed<Seq<u64>>>,
}

pub open spec fn seq_entries(m: Map<u64, Timed<Vec<u64>>>) -> Map<u64, Timed<Seq<u64>>> {
    m.map_values(|t: Timed<Vec<u64>>| Timed { value: t.value@, deadline: t.deadline })
}

/// `now + ttl`, held at the largest representable second.
pub open spec fn deadline_after(now: u64, ttl: u64) -> u64 {
    if now + ttl > u64::MAX {
        u64::MAX
    } else {
        (now + ttl) as u64
    }
}

/// The store as it is at `now`: every record whose deadline has come is gone.
pub open spec fn at_time(v: StoreView, now: u64) -> StoreView {
    StoreView {
        squads: live_part(v.squads, now),
        postings: live_part(v.postings, now),
        member_sets: live_part(v.member_sets, now),
        members: live_part(v.members, now),
        channels: live_part(v.channels, now),
    }
}

/// Every record of the store is alive at `now`.
pub open spec fn settled(v: StoreView, now: u64) -> bool {
    &&& forall|k: u64| #[trigger] v.squads.contains_key(k) ==> alive(v.squads[k], now)
    &&& forall|k: u64| #[trigger] v.postings.contains_key(k) ==> alive(v.postings[k], now)
    &&& forall|k: u64| #[trigger] v.member_sets.contains_key(k) ==> alive(v.member_sets[k], now)
    &&& forall|k: MemberKey| #[trigger] v.members.contains_key(k) ==> alive(v.members[k], now)
    &&& forall|k: u64| #[trigger] v.channels.contains_key(k) ==> alive(v.channels[k], now)
}

/// A store whose records are all alive is unchanged by reaching `now`.
pub proof fn lemma_settled_stays(v: StoreView, now: u64)
    requires
        settled(v, now),
    ensures
        at_time(v, now) == v,
{
    assert(at_time(v, now).squads =~= v.squads);
    assert(at_time(v, now).postings =~= v.postings);
    assert(at_time(v, now).member_sets =~= v.member_sets);
    assert(at_time(v, now).members =~= v.members);
    assert(at_time(v, now).channels =~= v.channels);
}

/// Every squad asks for between one and `MAX_CAPACITY` members, and no member
/// set of a squad holds more users than the squad's capacity.
pub open spec fn capacity_respected(v: StoreView) -> bool {
    &&& forall|s: u64| #[trigger] v.squads.contains_key(s)
        ==> 1 <= v.squads[s].value.capacity <= MAX_CAPACITY
    &&& forall|s: u64| #[trigger] v.squads.contains_key(s) && v.member_sets.contains_key(s)
        ==> v.member_sets[s].value.len() <= v.squads[s].value.capacity
}

/// Member sets and channel sets hold each id once.
pub open spec fn sets_distinct(v: StoreView) -> bool {
    &&& forall|s: u64| #[trigger] v.member_sets.contains_key(s) ==> v.member_sets[s].value.no_duplicates()
    &&& forall|s: u64| #[trigger] v.channels.contains_key(s) ==> v.channels[s].value.no_duplicates()
}

proof fn lemma_push_new(s: Seq<u64>, x: u64)
    requires
        s.no_duplicates(),
        !s.contains(x),
    ensures
        s.push(x).no_duplicates(),
{
    assert forall|i: int, j: int| 0 <= i < s.push(x).len() && 0 <= j < s.push(x).len() && i != j
        implies s.push(x)[i] != s.push(x)[j] by {
        if i == s.len() as int {
            assert(s.contains(s[j]));
        } else if j == s.len() as int {
            assert(s.contains(s[i]));
        }
    }
}

proof fn lemma_filter_distinct(s: Seq<u64>, pred: spec_fn(u64) -> bool)
    requires
        s.no_duplicates(),
    ensures
        s.filter(pred).no_duplicates(),
    decreases s.len(),
{
    reveal(Seq::filter);
    if s.len() > 0 {
        let rest = s.drop_last();
        assert(rest.no_duplicates());
        lemma_filter_distinct(rest, pred);
        if pred(s.last()) {
            assert(!rest.filter(pred).contains(s.last())) by {
                if rest.filter(pred).contains(s.last()) {
                    rest.lemma_filter_contains_rev(pred, s.last());
                    let k = choose|k: int| 0 <= k < rest.len() && rest[k] == s.last();
                    assert(s[k] == s[s.len() - 1]);
                }
            }
            lemma_push_new(rest.filter(pred), s.last());
        }
    }
}

/// The member set of `squad`; an absent set is an empty one.
pub open spec fn member_set(v: StoreView, squad: u64) -> Seq<u64> {
    if v.member_sets.contains_key(squad) {
        v.member_sets[squad].value
    } else {
        Seq::empty()
    }
}

/// The channel set of `squad`; an absent set is an empty one.
pub open spec fn channel_set(v: StoreView, squad: u64) -> Seq<u64> {
    if v.channels.contains_key(squad) {
        v.channels[squad].value
    } else {
        Seq::empty()
    }
}

// ---------------------------------------------------------------------------
// The operations, stated on a view that is already at the current time.
// ---------------------------------------------------------------------------

/// A valid capacity lies in `1..=MAX_CAPACITY`.
pub open spec fn valid_capacity(capacity: u8) -> bool {
    1 <= capacity <= MAX_CAPACITY
}

/// A fresh squad record; any member set left under the same id is dropped.
pub open spec fn squad_built(v: StoreView, squad: u64, capacity: u8, now: u64) -> StoreView {
    StoreView {
        squads: v.squads.insert(
            squad,
            Timed {
                value: SquadRecord { capacity, posting: None, filled: false },
                deadline: deadline_after(now, SQUAD_TTL),
            },
        ),
        member_sets: v.member_sets.remove(squad),
        ..v
    }
}

/// `s` with `x` appended unless it holds `x` already.
pub open spec fn add_once(s: Seq<u64>, x: u64) -> Seq<u64> {
    if s.contains(x) {
        s
    } else {
        s.push(x)
    }
}

/// A posting record for `message`, its channel registered with the squad, and
/// the squad (if it exists) following this posting's lifetime from now on.
pub open spec fn posting_built(
    v: StoreView,
    channel: u64,
    message: u64,
    role: Option<u64>,
    squad: u64,
    now: u64,
) -> StoreView {
    let dl = deadline_after(now, POSTING_TTL);
    StoreView {
        postings: v.postings.insert(
            message,
            Timed { value: PostingRecord { squad, channel, role }, deadline: dl },
        ),
        channels: v.channels.insert(
            squad,
            Timed { value: add_once(channel_set(v, squad), channel), deadline: dl },
        ),
        squads: if v.squads.contains_key(squad) {
            v.squads.insert(
                squad,
                Timed {
                    value: SquadRecord { posting: Some(message), ..v.squads[squad].value },
                    deadline: v.squads[squad].deadline,
                },
            )
        } else {
            v.squads
        },
        ..v
    }
}

/// Message id of the posting that the squad's record points to, if the
/// squad exists and points to one.
pub open spec fn posting_ref(v: StoreView, squad: u64) -> Option<u64> {
    if v.squads.contains_key(squad) {
        v.squads[squad].value.posting
    } else {
        None
    }
}

/// The squad exists and the posting it follows still exists and belongs to it.
pub open spec fn posted(v: StoreView, squad: u64) -> bool {
    match posting_ref(v, squad) {
        Some(m) => v.postings.contains_key(m) && v.postings[m].value.squad == squad,
        None => false,
    }
}

/// The status of a squad: expired without a live posting, otherwise filled or
/// forming by the squad's flag.
pub open spec fn status_of(v: StoreView, squad: u64) -> SquadStatus {
    if !posted(v, squad) {
        SquadStatus::Expired
    } else if v.squads[squad].value.filled {
        SquadStatus::Filled
    } else {
        SquadStatus::Forming
    }
}

/// Observing a squad without a live posting deletes its record.
pub open spec fn status_observed(v: StoreView, squad: u64) -> StoreView {
    if posted(v, squad) {
        v
    } else {
        StoreView { squads: v.squads.remove(squad), ..v }
    }
}

/// The join request of `user` for `expires` seconds, and what came of it.
pub open spec fn joined(v: StoreView, squad: u64, user: u64, expires: u32, now: u64) -> (
    StoreView,
    JoinOutcome,
) {
    if status_of(v, squad) != SquadStatus::Forming {
        (status_observed(v, squad), JoinOutcome::Closed)
    } else {
        let set = member_set(v, squad);
        let members = v.members.insert(
            MemberKey { squad, user },
            Timed { value: (), deadline: deadline_after(now, expires as u64) },
        );
        if set.len() == 0 {
            let message = v.squads[squad].value.posting->Some_0;
            let dl = v.postings[message].deadline;
            (
                StoreView {
                    member_sets: v.member_sets.insert(squad, Timed { value: seq![user], deadline: dl }),
                    members,
                    ..v
                },
                JoinOutcome::Joined,
            )
        } else if set.contains(user) {
            (StoreView { members, ..v }, JoinOutcome::AlreadyMember)
        } else if set.len() < v.squads[squad].value.capacity {
            (
                StoreView {
                    member_sets: v.member_sets.insert(
                        squad,
                        Timed { value: set.push(user), deadline: v.member_sets[squad].deadline },
                    ),
                    members,
                    ..v
                },
                JoinOutcome::Joined,
            )
        } else {
            (StoreView { members, ..v }, JoinOutcome::Full)
        }
    }
}

/// The member set entry of `squad` holding `rest`: dropped when `rest` is empty.
pub open spec fn with_member_set(v: StoreView, squad: u64, rest: Seq<u64>) -> Map<u64, Timed<Seq<u64>>> {
    if rest.len() == 0 {
        v.member_sets.remove(squad)
    } else {
        v.member_sets.insert(squad, Timed { value: rest, deadline: v.member_sets[squad].deadline })
    }
}

/// `user` leaves `squad`: out of the member set, and its member record gone.
/// `Ok(true)` when either of the two existed.
pub open spec fn left(v: StoreView, squad: u64, user: u64) -> (StoreView, Result<bool, SquadError>) {
    if !v.squads.contains_key(squad) {
        (v, Err(SquadError::NotFound))
    } else {
        let set = member_set(v, squad);
        let key = MemberKey { squad, user };
        let sets = if v.member_sets.contains_key(squad) {
            with_member_set(v, squad, set.filter(other_than(user)))
        } else {
            v.member_sets
        };
        (
            StoreView { member_sets: sets, members: v.members.remove(key), ..v },
            Ok(set.contains(user) || v.members.contains_key(key)),
        )
    }
}

/// Whether the member record of a user of `squad` still exists.
pub open spec fn has_record(v: StoreView, squad: u64) -> spec_fn(u64) -> bool {
    |u: u64| v.members.contains_key(MemberKey { squad, user: u })
}

/// The users of the member set whose member record still exists.
pub open spec fn live_members(v: StoreView, squad: u64) -> Seq<u64> {
    member_set(v, squad).filter(has_record(v, squad))
}

/// A user of `squad` paired with the seconds its member record has left.
pub open spec fn with_ttl(v: StoreView, squad: u64, now: u64) -> spec_fn(u64) -> (u64, u64) {
    |u: u64| (u, member_ttl(v, squad, u, now))
}

/// Any user but `user`.
pub open spec fn other_than(user: u64) -> spec_fn(u64) -> bool {
    |x: u64| x != user
}

/// Seconds left of the member record of `user` in `squad`.
pub open spec fn member_ttl(v: StoreView, squad: u64, user: u64, now: u64) -> u64 {
    (v.members[MemberKey { squad, user }].deadline - now) as u64
}

/// Reading the members of a squad: each live member with the seconds its
/// record has left, in member-set order; members whose record is gone leave
/// the set.
pub open spec fn members_read(v: StoreView, squad: u64, now: u64) -> (StoreView, Seq<(u64, u64)>) {
    if !v.squads.contains_key(squad) || !v.member_sets.contains_key(squad) {
        (v, Seq::empty())
    } else {
        let live = live_members(v, squad);
        (
            StoreView { member_sets: with_member_set(v, squad, live), ..v },
            live.map_values(with_ttl(v, squad, now)),
        )
    }
}

/// A squad is full when its member set has reached its capacity and nobody
/// has been told yet.
pub open spec fn full(v: StoreView, squad: u64) -> bool {
    &&& v.squads.contains_key(squad)
    &&& member_set(v, squad).len() >= v.squads[squad].value.capacity
    &&& !v.squads[squad].value.filled
}

/// The squad's flag set, its deadline kept.
pub open spec fn marked_filled(v: StoreView, squad: u64) -> StoreView {
    StoreView {
        squads: v.squads.insert(
            squad,
            Timed {
                value: SquadRecord { filled: true, ..v.squads[squad].value },
                deadline: v.squads[squad].deadline,
            },
        ),
        ..v
    }
}

pub struct SquadStore {
    squads: TtlTable<u64, SquadRecord>,
    postings: TtlTable<u64, PostingRecord>,
    member_sets: TtlTable<u64, Vec<u64>>,
    members: TtlTable<MemberKey, ()>,
    channels: TtlTable<u64, Vec<u64>>,
}

fn deadline(now: u64, ttl: u64) -> (r: u64)
    ensures
        r == deadline_after(now, ttl),
{
    if now > u64::MAX - ttl {
        u64::MAX
    } else {
        now + ttl
    }
}

/// Draws the id of a new squad at random.
pub fn generate_squad_id() -> (r: u64)
    ensures
        r <= u32::MAX,
{
    let drawn: u32 = rand::random::<u32>();
    drawn as u64
}

/// Relies on rand::random: a value drawn from the thread-local generator.
pub assume_specification<T>[ rand::random::<T> ]() -> (r: T)
    where
        rand::distributions::Standard: rand::distributions::Distribution<T>,
;

fn holds(list: &Vec<u64>, x: u64) -> (r: bool)
    ensures
        r == list@.contains(x),
{
    let mut i: usize = 0;
    while i < list.len()
        invariant
            i <= list@.len(),
            forall|j: int| 0 <= j < i ==> list@[j] != x,
        decreases list@.len() - i,
    {
        if list[i] == x {
            return true;
        }
        i = i + 1;
    }
    false
}

fn copy_ids(list: &Vec<u64>) -> (r: Vec<u64>)
    ensures
        r@ == list@,
{
    let mut r: Vec<u64> = Vec::new();
    let mut i: usize = 0;
    while i < list.len()
        invariant
            i <= list@.len(),
            r@ == list@.subrange(0, i as int),
        decreases list@.len() - i,
    {
        r.push(list[i]);
        i = i + 1;
    }
    assert(list@.subrange(0, list@.len() as int) =~= list@);
    r
}

fn without(list: &Vec<u64>, x: u64) -> (r: Vec<u64>)
    ensures
        r@ == list@.filter(other_than(x)),
{
    let ghost pred = other_than(x);
    let mut r: Vec<u64> = Vec::new();
    let mut i: usize = 0;
    while i < list.len()
        invariant
            i <= list@.len(),
            pred == other_than(x),
            r@ == list@.subrange(0, i as int).filter(pred),
        decreases list@.len() - i,
    {
        proof {
            assert(list@.subrange(0, i + 1).drop_last() =~= list@.subrange(0, i as int));
            reveal(Seq::filter);
        }
        if list[i] != x {
            r.push(list[i]);
        }
        i = i + 1;
    }
    assert(list@.subrange(0, list@.len() as int) =~= list@);
    r
}

impl View for SquadStore {
    type V = StoreView;

    closed spec fn view(&self) -> StoreView {
        StoreView {
            squads: self.squads@,
            postings: self.postings@,
            member_sets: seq_entries(self.member_sets@),
            members: self.members@,
            channels: seq_entries(self.channels@),
        }
    }
}

proof fn lemma_seq_entries_insert(m: Map<u64, Timed<Vec<u64>>>, k: u64, v: Vec<u64>, d: u64)
    ensures
        seq_entries(m.insert(k, Timed { value: v, deadline: d })) == seq_entries(m).insert(
            k,
            Timed { value: v@, deadline: d },
        ),
{
    assert(seq_entries(m.insert(k, Timed { value: v, deadline: d })) =~= seq_entries(m).insert(
        k,
        Timed { value: v@, deadline: d },
    ));
}

proof fn lemma_seq_entries_replace(m: Map<u64, Timed<Vec<u64>>>, k: u64, v: Vec<u64>, d: u64)
    ensures
        seq_entries(m.remove(k).insert(k, Timed { value: v, deadline: d })) == seq_entries(m).insert(
            k,
            Timed { value: v@, deadline: d },
        ),
{
    assert(seq_entries(m.remove(k).insert(k, Timed { value: v, deadline: d })) =~= seq_entries(
        m,
    ).insert(k, Timed { value: v@, deadline: d }));
}

proof fn lemma_seq_entries_remove(m: Map<u64, Timed<Vec<u64>>>, k: u64)
    ensures
        seq_entries(m.remove(k)) == seq_entries(m).remove(k),
{
    assert(seq_entries(m.remove(k)) =~= seq_entries(m).remove(k));
}

proof fn lemma_seq_entries_live(m: Map<u64, Timed<Vec<u64>>>, now: u64)
    ensures
        seq_entries(live_part(m, now)) == live_part(seq_entries(m), now),
{
    assert(seq_entries(live_part(m, now)) =~= live_part(seq_entries(m), now));
}

impl SquadStore {
    pub closed spec fn wf(&self) -> bool {
        &&& self.squads.wf()
        &&& self.postings.wf()
        &&& self.member_sets.wf()
        &&& self.members.wf()
        &&& self.channels.wf()
        &&& capacity_respected(self@)
        &&& sets_distinct(self@)
    }

    /// An empty store.
    pub fn new() -> (r: SquadStore)
        ensures
            r.wf(),
            r@.squads == Map::<u64, Timed<SquadRecord>>::empty(),
            r@.postings == Map::<u64, Timed<PostingRecord>>::empty(),
            r@.member_sets == Map::<u64, Timed<Seq<u64>>>::empty(),
            r@.members == Map::<MemberKey, Timed<()>>::empty(),
            r@.channels == Map::<u64, Timed<Seq<u64>>>::empty(),
    {
        let r = SquadStore {
            squads: TtlTable::new(),
            postings: TtlTable::new(),
            member_sets: TtlTable::new(),
            members: TtlTable::new(),
            channels: TtlTable::new(),
        };
        assert(r@.member_sets =~= Map::<u64, Timed<Seq<u64>>>::empty());
        assert(r@.channels =~= Map::<u64, Timed<Seq<u64>>>::empty());
        r
    }

    /// Whatever operations ran on the store, every squad asks for between one
    /// and `MAX_CAPACITY` members, no member set exceeds its squad's
    /// capacity, and member and channel sets hold each id once.
    pub proof fn lemma_capacity_held(&self)
        requires
            self.wf(),
        ensures
            capacity_respected(self@),
            sets_distinct(self@),
    {
    }

    /// Lets every record whose deadline has come by `now` go.
    fn advance(&mut self, now: u64)
        requires
            old(self).wf(),
        ensures
            final(self).wf(),
            final(self)@ == at_time(old(self)@, now),
    {
        proof {
            lemma_seq_entries_live(self.member_sets@, now);
            lemma_seq_entries_live(self.channels@, now);
        }
        self.squads.purge(now);
        self.postings.purge(now);
        self.member_sets.purge(now);
        self.members.purge(now);
        self.channels.purge(now);
        assert forall|s: u64| #[trigger] self@.member_sets.contains_key(s) implies self@.member_sets[s].value.no_duplicates() by {
            assert(old(self)@.member_sets.contains_key(s));
        }
        assert forall|s: u64| #[trigger] self@.channels.contains_key(s) implies self@.channels[s].value.no_duplicates() by {
            assert(old(self)@.channels.contains_key(s));
        }
    }

    /// Writes a fresh squad record under `squad` with room for `capacity`
    /// members, armed with the squad lifetime.
    pub fn build_squad(&mut self, squad: u64, capacity: u8, now: u64) -> (r: Result<(), SquadError>)
        requires
            old(self).wf(),
        ensures
            final(self).wf(),
            valid_capacity(capacity) ==> r == Ok::<(), SquadError>(())
                && final(self)@ == squad_built(at_time(old(self)@, now), squad, capacity, now),
            !valid_capacity(capacity) ==> r == Err::<(), SquadError>(SquadError::MalformedArgument)
                && final(self)@ == old(self)@,
    {
        if capacity < 1 || capacity > MAX_CAPACITY {
            return Err(SquadError::MalformedArgument);
        }
        self.advance(now);
        let ghost v = self@;
        let record = SquadRecord { capacity, posting: None, filled: false };
        self.squads.insert(squad, record, deadline(now, SQUAD_TTL));
        let ghost sets = self.member_sets@;
        let _ = self.member_sets.remove(&squad);
        proof {
            lemma_seq_entries_remove(sets, squad);
        }
        assert(self@ == squad_built(v, squad, capacity, now));
        Ok(())
    }


    /// Writes the posting record of `message` linking to `squad`, registers
    /// `channel` with the squad and makes the squad follow this posting.
    /// Writing the same message id again overwrites the record.
    pub fn build_posting(&mut self, channel: u64, message: u64, role: Option<u64>, squad: u64, now: u64)
        requires
            old(self).wf(),
        ensures
            final(self).wf(),
            final(self)@ == posting_built(at_time(old(self)@, now), channel, message, role, squad, now),
    {
        self.advance(now);
        let ghost v = self@;
        let dl = deadline(now, POSTING_TTL);
        self.postings.insert(message, PostingRecord { squad, channel, role }, dl);
        let ghost chans = self.channels@;
        let mut list: Vec<u64> = match self.channels.remove(&squad) {
            Some(t) => t.value,
            None => Vec::new(),
        };
        assert(list@ == channel_set(v, squad));
        if !holds(&list, channel) {
            list.push(channel);
        }
        self.channels.insert(squad, list, dl);
        proof {
            lemma_seq_entries_insert(chans.remove(squad), squad, list, dl);
            assert(chans.remove(squad).insert(squad, Timed { value: list, deadline: dl }) =~= chans.insert(
                squad,
                Timed { value: list, deadline: dl },
            ));
            lemma_seq_entries_insert(chans, squad, list, dl);
        }
        match self.squads.get(&squad) {
            Some(t) => {
                let record = SquadRecord { posting: Some(message), ..t.value };
                let kept = t.deadline;
                self.squads.insert(squad, record, kept);
            },
            None => {},
        }
        assert(self@ == posting_built(v, channel, message, role, squad, now));
    }

    /// The squad that the posting of `message` belongs to.
    pub fn get_squad_id(&mut self, message: u64, now: u64) -> (r: Result<u64, SquadError>)
        requires
            old(self).wf(),
        ensures
            final(self).wf(),
            final(self)@ == at_time(old(self)@, now),
            ({
                let v = at_time(old(self)@, now);
                if v.postings.contains_key(message) {
                    r == Ok::<u64, SquadError>(v.postings[message].value.squad)
                } else {
                    r == Err::<u64, SquadError>(SquadError::NotFound)
                }
            }),
    {
        self.advance(now);
        match self.postings.get(&message) {
            Some(t) => Ok(t.value.squad),
            None => Err(SquadError::NotFound),
        }
    }

    /// The number of members the squad was built for.
    pub fn get_capacity(&mut self, squad: u64, now: u64) -> (r: Result<u8, SquadError>)
        requires
            old(self).wf(),
        ensures
            final(self).wf(),
            final(self)@ == at_time(old(self)@, now),
            ({
                let v = at_time(old(self)@, now);
                if v.squads.contains_key(squad) {
                    r == Ok::<u8, SquadError>(v.squads[squad].value.capacity)
                } else {
                    r == Err::<u8, SquadError>(SquadError::NotFound)
                }
            }),
    {
        self.advance(now);
        match self.squads.get(&squad) {
            Some(t) => Ok(t.value.capacity),
            None => Err(SquadError::NotFound),
        }
    }

    /// Whether the squad has been marked filled (and its members told).
    pub fn get_filled(&mut self, squad: u64, now: u64) -> (r: Result<bool, SquadError>)
        requires
            old(self).wf(),
        ensures
            final(self).wf(),
            final(self)@ == at_time(old(self)@, now),
            ({
                let v = at_time(old(self)@, now);
                if v.squads.contains_key(squad) {
                    r == Ok::<bool, SquadError>(v.squads[squad].value.filled)
                } else {
                    r == Err::<bool, SquadError>(SquadError::NotFound)
                }
            }),
    {
        self.advance(now);
        match self.squads.get(&squad) {
            Some(t) => Ok(t.value.filled),
            None => Err(SquadError::NotFound),
        }
    }

    /// The role mentioned with the posting of `message`, if any.
    pub fn get_role_id(&mut self, message: u64, now: u64) -> (r: Result<Option<u64>, SquadError>)
        requires
            old(self).wf(),
        ensures
            final(self).wf(),
            final(self)@ == at_time(old(self)@, now),
            ({
                let v = at_time(old(self)@, now);
                if v.postings.contains_key(message) {
                    r == Ok::<Option<u64>, SquadError>(v.postings[message].value.role)
                } else {
                    r == Err::<Option<u64>, SquadError>(SquadError::NotFound)
                }
            }),
    {
        self.advance(now);
        match self.postings.get(&message) {
            Some(t) => Ok(t.value.role),
            None => Err(SquadError::NotFound),
        }
    }

    /// Seconds left before the posting of `message` expires.
    pub fn get_ttl(&mut self, message: u64, now: u64) -> (r: Result<u64, SquadError>)
        requires
            old(self).wf(),
        ensures
            final(self).wf(),
            final(self)@ == at_time(old(self)@, now),
            ({
                let v = at_time(old(self)@, now);
                if v.postings.contains_key(message) {
                    r == Ok::<u64, SquadError>((v.postings[message].deadline - now) as u64)
                        && 0 < v.postings[message].deadline - now
                } else {
                    r == Err::<u64, SquadError>(SquadError::NotFound)
                }
            }),
    {
        self.advance(now);
        match self.postings.get(&message) {
            Some(t) => Ok(t.deadline - now),
            None => Err(SquadError::NotFound),
        }
    }

    /// The channels the squad was posted in.
    pub fn get_channels(&mut self, squad: u64, now: u64) -> (r: Result<Vec<u64>, SquadError>)
        requires
            old(self).wf(),
        ensures
            final(self).wf(),
            final(self)@ == at_time(old(self)@, now),
            ({
                let v = at_time(old(self)@, now);
                if v.squads.contains_key(squad) {
                    r is Ok && r->Ok_0@ == channel_set(v, squad)
                } else {
                    r == Err::<Vec<u64>, SquadError>(SquadError::NotFound)
                }
            }),
    {
        self.advance(now);
        if self.squads.get(&squad).is_none() {
            return Err(SquadError::NotFound);
        }
        match self.channels.get(&squad) {
            Some(t) => Ok(copy_ids(&t.value)),
            None => Ok(Vec::new()),
        }
    }

    /// Sets the squad's filled flag; setting it again changes nothing.
    pub fn fill_squad(&mut self, squad: u64, now: u64) -> (r: Result<(), SquadError>)
        requires
            old(self).wf(),
        ensures
            final(self).wf(),
            ({
                let v = at_time(old(self)@, now);
                if v.squads.contains_key(squad) {
                    r == Ok::<(), SquadError>(()) && final(self)@ == marked_filled(v, squad)
                } else {
                    r == Err::<(), SquadError>(SquadError::NotFound) && final(self)@ == v
                }
            }),
    {
        self.advance(now);
        match self.squads.get(&squad) {
            Some(t) => {
                let record = SquadRecord { filled: true, ..t.value };
                let kept = t.deadline;
                self.squads.insert(squad, record, kept);
                Ok(())
            },
            None => Err(SquadError::NotFound),
        }
    }

    /// Status of the squad on a store already at the current time; a squad
    /// without a live posting loses its record.
    fn observe_status(&mut self, squad: u64) -> (r: SquadStatus)
        requires
            old(self).wf(),
        ensures
            final(self).wf(),
            r == status_of(old(self)@, squad),
            final(self)@ == status_observed(old(self)@, squad),
    {
        let ghost v = self@;
        let record = match self.squads.get(&squad) {
            Some(t) => t.value,
            None => {
                assert(v.squads.remove(squad) =~= v.squads);
                return SquadStatus::Expired;
            },
        };
        let live = match record.posting {
            Some(message) => match self.postings.get(&message) {
                Some(p) => p.value.squad == squad,
                None => false,
            },
            None => false,
        };
        if !live {
            let _ = self.squads.remove(&squad);
            assert(self@ == status_observed(v, squad));
            SquadStatus::Expired
        } else if record.filled {
            SquadStatus::Filled
        } else {
            SquadStatus::Forming
        }
    }

    /// The squad's lifecycle status at `now`: `Expired` once the posting it
    /// follows is gone, in which case its record is deleted; otherwise
    /// `Filled` or `Forming` by its flag. A filled squad whose posting expires
    /// is reported `Expired` too: expiry is keyed on the posting alone.
    pub fn get_squad_status(&mut self, squad: u64, now: u64) -> (r: SquadStatus)
        requires
            old(self).wf(),
        ensures
            final(self).wf(),
            r == status_of(at_time(old(self)@, now), squad),
            final(self)@ == status_observed(at_time(old(self)@, now), squad),
    {
        self.advance(now);
        self.observe_status(squad)
    }


    /// `user` asks to join `squad` for `expires` seconds.
    ///
    /// Nothing but the status check happens unless the squad is forming. An
    /// empty member set takes the user and the posting's remaining lifetime;
    /// a non-empty one takes the user only below capacity. The user's own
    /// member record is set to `expires` seconds whether or not the set took
    /// them.
    pub fn add_member(&mut self, squad: u64, user: u64, expires: u32, now: u64) -> (r: JoinOutcome)
        requires
            old(self).wf(),
        ensures
            final(self).wf(),
            (final(self)@, r) == joined(at_time(old(self)@, now), squad, user, expires, now),
    {
        self.advance(now);
        match self.observe_status(squad) {
            SquadStatus::Forming => {},
            _ => return JoinOutcome::Closed,
        }
        let record = match self.squads.get(&squad) {
            Some(t) => t.value,
            None => return JoinOutcome::Closed,
        };
        let message = match record.posting {
            Some(m) => m,
            None => return JoinOutcome::Closed,
        };
        let posting_deadline = match self.postings.get(&message) {
            Some(p) => p.deadline,
            None => return JoinOutcome::Closed,
        };
        let ghost sets = self.member_sets@;
        let outcome = match self.member_sets.remove(&squad) {
            None => {
                let mut list: Vec<u64> = Vec::new();
                list.push(user);
                self.member_sets.insert(squad, list, posting_deadline);
                proof {
                    lemma_seq_entries_replace(sets, squad, list, posting_deadline);
                    assert(list@ =~= seq![user]);
                }
                JoinOutcome::Joined
            },
            Some(t) => {
                let kept = t.deadline;
                let mut list = t.value;
                if list.len() == 0 {
                    list.push(user);
                    self.member_sets.insert(squad, list, posting_deadline);
                    proof {
                        lemma_seq_entries_replace(sets, squad, list, posting_deadline);
                        assert(list@ =~= seq![user]);
                    }
                    JoinOutcome::Joined
                } else if holds(&list, user) {
                    self.member_sets.insert(squad, list, kept);
                    proof {
                        lemma_seq_entries_replace(sets, squad, list, kept);
                        assert(seq_entries(sets).insert(squad, Timed { value: list@, deadline: kept })
                            =~= seq_entries(sets));
                    }
                    JoinOutcome::AlreadyMember
                } else if list.len() < record.capacity as usize {
                    list.push(user);
                    self.member_sets.insert(squad, list, kept);
                    proof {
                        lemma_seq_entries_replace(sets, squad, list, kept);
                    }
                    JoinOutcome::Joined
                } else {
                    self.member_sets.insert(squad, list, kept);
                    proof {
                        lemma_seq_entries_replace(sets, squad, list, kept);
                        assert(seq_entries(sets).insert(squad, Timed { value: list@, deadline: kept })
                            =~= seq_entries(sets));
                    }
                    JoinOutcome::Full
                }
            },
        };
        self.members.insert(MemberKey { squad, user }, (), deadline(now, expires as u64));
        outcome
    }

    /// Takes `user` out of the member set of `squad` and deletes its member
    /// record. `Ok(false)` when there was nothing to take away.
    pub fn delete_member(&mut self, squad: u64, user: u64, now: u64) -> (r: Result<bool, SquadError>)
        requires
            old(self).wf(),
        ensures
            final(self).wf(),
            (final(self)@, r) == left(at_time(old(self)@, now), squad, user),
    {
        self.advance(now);
        if self.squads.get(&squad).is_none() {
            return Err(SquadError::NotFound);
        }
        let had_record = self.members.remove(&MemberKey { squad, user }).is_some();
        let mut in_set = false;
        let ghost sets = self.member_sets@;
        if self.member_sets.get(&squad).is_some() {
            match self.member_sets.remove(&squad) {
                Some(t) => {
                    in_set = holds(&t.value, user);
                    let rest = without(&t.value, user);
                    proof {
                        assert(t.value@.no_duplicates());
                        lemma_filter_distinct(t.value@, other_than(user));
                    }
                    if rest.len() > 0 {
                        self.member_sets.insert(squad, rest, t.deadline);
                        proof {
                            lemma_seq_entries_replace(sets, squad, rest, t.deadline);
                        }
                    } else {
                        proof {
                            lemma_seq_entries_remove(sets, squad);
                        }
                    }
                },
                None => {},
            }
        }
        Ok(in_set || had_record)
    }

    /// The live members of `squad`, each with the seconds its member record
    /// has left, in member-set order. Users whose record expired on its own
    /// are taken out of the member set on the way. An absent squad or member
    /// set gives no members.
    pub fn get_members(&mut self, squad: u64, now: u64) -> (r: Vec<(u64, u64)>)
        requires
            old(self).wf(),
        ensures
            final(self).wf(),
            (final(self)@, r@) == members_read(at_time(old(self)@, now), squad, now),
    {
        self.advance(now);
        let ghost v = self@;
        if self.squads.get(&squad).is_none() || self.member_sets.get(&squad).is_none() {
            return Vec::new();
        }
        let ghost sets = self.member_sets@;
        let t = match self.member_sets.remove(&squad) {
            Some(t) => t,
            None => return Vec::new(),
        };
        proof {
            lemma_seq_entries_remove(sets, squad);
            assert(t.value@.no_duplicates());
            lemma_filter_distinct(t.value@, has_record(v, squad));
        }
        let ghost pred = has_record(v, squad);
        let ghost entry = with_ttl(v, squad, now);
        let mut live: Vec<u64> = Vec::new();
        let mut out: Vec<(u64, u64)> = Vec::new();
        let mut i: usize = 0;
        while i < t.value.len()
            invariant
                self.wf(),
                self.members@ == v.members,
                v == at_time(old(self)@, now),
                t.value@ == member_set(v, squad),
                i <= t.value@.len(),
                pred == has_record(v, squad),
                entry == with_ttl(v, squad, now),
                live@ == t.value@.subrange(0, i as int).filter(pred),
                out@ == live@.map_values(entry),
            decreases t.value@.len() - i,
        {
            let u = t.value[i];
            proof {
                assert(t.value@.subrange(0, i + 1).drop_last() =~= t.value@.subrange(0, i as int));
                reveal(Seq::filter);
            }
            match self.members.get(&MemberKey { squad, user: u }) {
                Some(rec) => {
                    live.push(u);
                    out.push((u, rec.deadline - now));
                    assert(out@ =~= live@.map_values(entry));
                },
                None => {},
            }
            i = i + 1;
        }
        assert(t.value@.subrange(0, t.value@.len() as int) =~= t.value@);
        if live.len() > 0 {
            self.member_sets.insert(squad, live, t.deadline);
            proof {
                lemma_seq_entries_replace(sets, squad, live, t.deadline);
            }
        } else {
            proof {
                lemma_seq_entries_remove(sets, squad);
            }
        }
        out
    }

    /// Every live posting as (message id, channel id), each message once.
    pub fn get_postings(&mut self, now: u64) -> (r: Vec<(u64, u64)>)
        requires
            old(self).wf(),
        ensures
            final(self).wf(),
            final(self)@ == at_time(old(self)@, now),
            forall|i: int| #![trigger r@[i]] 0 <= i < r@.len() ==> final(self)@.postings.contains_key(r@[i].0)
                && final(self)@.postings[r@[i].0].value.channel == r@[i].1,
            forall|m: u64| #[trigger] final(self)@.postings.contains_key(m) ==> exists|i: int|
                0 <= i < r@.len() && r@[i].0 == m,
            forall|i: int, j: int| 0 <= i < j < r@.len() ==> r@[i].0 != r@[j].0,
    {
        self.advance(now);
        let keys = self.postings.keys();
        let mut out: Vec<(u64, u64)> = Vec::new();
        let mut i: usize = 0;
        while i < keys.len()
            invariant
                self.wf(),
                i <= keys@.len(),
                out@.len() == i,
                keys@.no_duplicates(),
                forall|j: int| 0 <= j < keys@.len() ==> self@.postings.contains_key(#[trigger] keys@[j]),
                forall|j: int| #![trigger out@[j]] 0 <= j < i ==> out@[j].0 == keys@[j]
                    && self@.postings[keys@[j]].value.channel == out@[j].1,
            decreases keys@.len() - i,
        {
            let m = keys[i];
            match self.postings.get(&m) {
                Some(p) => out.push((m, p.value.channel)),
                None => return out,
            }
            i = i + 1;
        }
        assert forall|m: u64| #[trigger] self@.postings.contains_key(m) implies exists|i: int|
            0 <= i < out@.len() && out@[i].0 == m by {
            let w = choose|w: int| 0 <= w < keys@.len() && keys@[w] == m;
            assert(out@[w].0 == m);
        }
        out
    }

    /// Every squad whose member set has reached its capacity while its
    /// filled flag is still unset, each once.
    pub fn get_full_squads(&mut self, now: u64) -> (r: Vec<u64>)
        requires
            old(self).wf(),
        ensures
            final(self).wf(),
            final(self)@ == at_time(old(self)@, now),
            r@.no_duplicates(),
            forall|s: u64| r@.contains(s) <==> full(final(self)@, s),
    {
        self.advance(now);
        let keys = self.squads.keys();
        let mut out: Vec<u64> = Vec::new();
        let mut i: usize = 0;
        while i < keys.len()
            invariant
                self.wf(),
                i <= keys@.len(),
                keys@.no_duplicates(),
                forall|j: int| 0 <= j < keys@.len() ==> self@.squads.contains_key(#[trigger] keys@[j]),
                forall|s: u64| #[trigger] self@.squads.contains_key(s) ==> keys@.contains(s),
                out@.no_duplicates(),
                forall|s: u64| out@.contains(s) <==> (full(self@, s) && exists|j: int| 0 <= j < i && keys@[j] == s),
            decreases keys@.len() - i,
        {
            let s = keys[i];
            let record = match self.squads.get(&s) {
                Some(t) => t.value,
                None => return out,
            };
            let count: usize = match self.member_sets.get(&s) {
                Some(t) => t.value.len(),
                None => 0,
            };
            let ghost prev = out@;
            assert(full(self@, s) == (count >= record.capacity as usize && !record.filled));
            if count >= record.capacity as usize && !record.filled {
                proof {
                    assert(!out@.contains(s)) by {
                        if out@.contains(s) {
                            let j = choose|j: int| 0 <= j < i && keys@[j] == s;
                            assert(keys@[j] == keys@[i as int]);
                        }
                    }
                }
                out.push(s);
                assert(forall|q: u64| out@.contains(q) <==> (prev.contains(q) || q == s)) by {
                    assert forall|q: u64| out@.contains(q) implies (prev.contains(q) || q == s) by {
                        let j = choose|j: int| 0 <= j < out@.len() && out@[j] == q;
                        if j < prev.len() {
                            assert(prev[j] == q);
                        }
                    }
                    assert forall|q: u64| prev.contains(q) implies out@.contains(q) by {
                        let j = choose|j: int| 0 <= j < prev.len() && prev[j] == q;
                        assert(out@[j] == q);
                    }
                    assert(out@[prev.len() as int] == s);
                }
            }
            proof {
                assert forall|q: u64| out@.contains(q) <==> (full(self@, q) && exists|j: int| 0 <= j < i + 1 && keys@[j] == q) by {
                    if full(self@, q) && exists|j: int| 0 <= j < i + 1 && keys@[j] == q {
                        if q != s {
                            let j = choose|j: int| 0 <= j < i + 1 && keys@[j] == q;
                            assert(j < i);
                        }
                    }
                    if out@.contains(q) && q == s {
                        assert(keys@[i as int] == q);
                    }
                    if prev.contains(q) {
                        let j = choose|j: int| 0 <= j < i && keys@[j] == q;
                        assert(0 <= j < i + 1 && keys@[j] == q);
                    }
                }
            }
            i = i + 1;
        }
        proof {
            assert forall|q: u64| full(self@, q) implies exists|j: int| 0 <= j < keys@.len() && keys@[j] == q by {
                assert(keys@.contains(q));
            }
        }
        out
    }

    /// The squad a new posting goes to, with its capacity: the existing squad
    /// `cross` when one is named (any size asked for is then ignored),
    /// otherwise a new squad of the size asked for, under a random id.
    pub fn prepare_squad(&mut self, cross: Option<u64>, requested: Option<i64>, now: u64) -> (r: Result<(u64, u8), SquadError>)
        requires
            old(self).wf(),
        ensures
            final(self).wf(),
            match cross {
                Some(id) => {
                    let v = at_time(old(self)@, now);
                    &&& final(self)@ == v
                    &&& if v.squads.contains_key(id) {
                        r == Ok::<(u64, u8), SquadError>((id, v.squads[id].value.capacity))
                    } else {
                        r == Err::<(u64, u8), SquadError>(SquadError::NotFound)
                    }
                },
                None => match size_for(requested) {
                    Err(e) => r == Err::<(u64, u8), SquadError>(e) && final(self)@ == old(self)@,
                    Ok(c) => match r {
                        Ok((id, cap)) => cap == c && final(self)@ == squad_built(
                            at_time(old(self)@, now),
                            id,
                            c,
                            now,
                        ),
                        Err(_) => false,
                    },
                },
            },
    {
        match cross {
            Some(id) => match self.get_capacity(id, now) {
                Ok(capacity) => Ok((id, capacity)),
                Err(e) => Err(e),
            },
            None => {
                let capacity = match squad_size(requested) {
                    Ok(c) => c,
                    Err(e) => return Err(e),
                };
                match self.create_squad(capacity, now) {
                    Ok(id) => Ok((id, capacity)),
                    Err(e) => Err(e),
                }
            },
        }
    }

    /// Allocates a new squad with room for `capacity` members under an id
    /// drawn at random, and returns the id.
    pub fn create_squad(&mut self, capacity: u8, now: u64) -> (r: Result<u64, SquadError>)
        requires
            old(self).wf(),
        ensures
            final(self).wf(),
            valid_capacity(capacity) ==> match r {
                Ok(id) => final(self)@ == squad_built(at_time(old(self)@, now), id, capacity, now),
                Err(_) => false,
            },
            !valid_capacity(capacity) ==> r == Err::<u64, SquadError>(SquadError::MalformedArgument)
                && final(self)@ == old(self)@,
    {
        if capacity < 1 || capacity > MAX_CAPACITY {
            return Err(SquadError::MalformedArgument);
        }
        let id = generate_squad_id();
        match self.build_squad(id, capacity, now) {
            Ok(()) => Ok(id),
            Err(e) => Err(e),
        }
    }
}

} // verus!
