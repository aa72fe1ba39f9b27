//! Properties of the store that hold across operations and over time.
use vstd::prelude::*;
use crate::ttl_table::{MemberKey, alive};
use crate::store::{
    StoreView, SquadStatus, at_time, capacity_respected, deadline_after, has_record, joined, left,
    live_members, marked_filled, member_set, members_read, posting_built, posting_ref,
    squad_built, status_observed, status_of, valid_capacity, SQUAD_TTL,
};

verus! {

/// One request to join a squad: who, for how long, and when.
pub struct Join {
    pub user: u64,
    pub expires: u32,
    pub now: u64,
}

/// The store after the join requests `joins`, in order, on `squad`.
pub open spec fn joins_applied(v: StoreView, squad: u64, joins: Seq<Join>) -> StoreView
    decreases joins.len(),
{
    if joins.len() == 0 {
        v
    } else {
        let j = joins.last();
        let before = joins_applied(v, squad, joins.drop_last());
        joined(at_time(before, j.now), squad, j.user, j.expires, j.now).0
    }
}

/// Time passing keeps every member set within its squad's capacity.
pub proof fn lemma_time_keeps_capacity(v: StoreView, now: u64)
    requires
        capacity_respected(v),
    ensures
        capacity_respected(at_time(v, now)),
{
}

/// A join request keeps every member set within its squad's capacity.
pub proof fn lemma_join_keeps_capacity(v: StoreView, squad: u64, user: u64, expires: u32, now: u64)
    requires
        capacity_respected(v),
    ensures
        capacity_respected(joined(v, squad, user, expires, now).0),
{
    let w = joined(v, squad, user, expires, now).0;
    assert forall|s: u64| #[trigger] w.squads.contains_key(s) && w.member_sets.contains_key(s)
        implies w.member_sets[s].value.len() <= w.squads[s].value.capacity by {
        if s != squad {
            assert(v.squads.contains_key(s) && v.member_sets.contains_key(s));
        } else {
            assert(v.squads.contains_key(s));
        }
    }
}

/// However many join requests a squad receives, and whenever, its member set
/// never holds more users than its capacity.
pub proof fn lemma_joins_keep_capacity(v: StoreView, squad: u64, joins: Seq<Join>)
    requires
        capacity_respected(v),
    ensures
        capacity_respected(joins_applied(v, squad, joins)),
        joins_applied(v, squad, joins).squads.contains_key(squad) ==> member_set(
            joins_applied(v, squad, joins),
            squad,
        ).len() <= joins_applied(v, squad, joins).squads[squad].value.capacity,
    decreases joins.len(),
{
    if joins.len() > 0 {
        let j = joins.last();
        let before = joins_applied(v, squad, joins.drop_last());
        lemma_joins_keep_capacity(v, squad, joins.drop_last());
        lemma_time_keeps_capacity(before, j.now);
        lemma_join_keeps_capacity(at_time(before, j.now), squad, j.user, j.expires, j.now);
    }
}

/// The squad's flag after marking it filled at `first` and again at each
/// second of `again`, in order.
pub open spec fn fills_applied(v: StoreView, squad: u64, again: Seq<u64>) -> StoreView
    decreases again.len(),
{
    if again.len() == 0 {
        v
    } else {
        let w = at_time(fills_applied(v, squad, again.drop_last()), again.last());
        if w.squads.contains_key(squad) {
            marked_filled(w, squad)
        } else {
            w
        }
    }
}

/// Once a squad is marked filled, marking it again any number of times, at any
/// later seconds, never clears the flag; and while the squad exists its status
/// is never `Forming` again.
pub proof fn lemma_filled_is_monotonic(v: StoreView, squad: u64, first: u64, again: Seq<u64>)
    requires
        at_time(v, first).squads.contains_key(squad),
    ensures
        ({
            let w = fills_applied(marked_filled(at_time(v, first), squad), squad, again);
            w.squads.contains_key(squad) ==> w.squads[squad].value.filled && status_of(w, squad)
                != SquadStatus::Forming
        }),
    decreases again.len(),
{
    if again.len() > 0 {
        lemma_filled_is_monotonic(v, squad, first, again.drop_last());
    }
}

/// Joining, leaving, reading members, posting and observing the status never
/// clear a squad's filled flag.
pub proof fn lemma_operations_keep_flag(
    v: StoreView,
    squad: u64,
    other: u64,
    user: u64,
    expires: u32,
    channel: u64,
    message: u64,
    role: Option<u64>,
    now: u64,
)
    requires
        v.squads.contains_key(squad),
        v.squads[squad].value.filled,
    ensures
        ({
            let w = at_time(v, now);
            w.squads.contains_key(squad) ==> w.squads[squad].value.filled
        }),
        ({
            let w = joined(v, other, user, expires, now).0;
            w.squads.contains_key(squad) ==> w.squads[squad].value.filled
        }),
        ({
            let w = left(v, other, user).0;
            w.squads.contains_key(squad) ==> w.squads[squad].value.filled
        }),
        ({
            let w = members_read(v, other, now).0;
            w.squads.contains_key(squad) ==> w.squads[squad].value.filled
        }),
        ({
            let w = posting_built(v, channel, message, role, other, now);
            w.squads.contains_key(squad) ==> w.squads[squad].value.filled
        }),
        ({
            let w = status_observed(v, other);
            w.squads.contains_key(squad) ==> w.squads[squad].value.filled
        }),
        ({
            let w = marked_filled(v, other);
            w.squads.contains_key(squad) ==> w.squads[squad].value.filled
        }),
{
}

/// Once the posting a squad follows has expired, its status is `Expired` and
/// observing it deletes the squad record; observing it again, at any second,
/// again gives `Expired` and changes nothing.
pub proof fn lemma_expired_posting_collects(v: StoreView, squad: u64, now: u64, later: u64)
    requires
        forall|m: u64|
            posting_ref(v, squad) == Some(m) && #[trigger] v.postings.contains_key(m)
                ==> v.postings[m].deadline <= now,
    ensures
        status_of(at_time(v, now), squad) == SquadStatus::Expired,
        !status_observed(at_time(v, now), squad).squads.contains_key(squad),
        ({
            let w = at_time(status_observed(at_time(v, now), squad), later);
            &&& status_of(w, squad) == SquadStatus::Expired
            &&& status_observed(w, squad) == w
        }),
{
    let w = at_time(status_observed(at_time(v, now), squad), later);
    assert(w.squads.remove(squad) =~= w.squads);
}

/// A sequence loses length under a filter that rejects one of its elements.
proof fn lemma_filter_drops(s: Seq<u64>, pred: spec_fn(u64) -> bool, i: int)
    requires
        0 <= i < s.len(),
        !pred(s[i]),
    ensures
        s.filter(pred).len() < s.len(),
    decreases s.len(),
{
    reveal(Seq::filter);
    s.drop_last().lemma_filter_len(pred);
    if i < s.len() - 1 {
        lemma_filter_drops(s.drop_last(), pred, i);
    }
}

/// When a member's own record expires while it is still in the member set,
/// the next read of the members leaves it out, takes it out of the set, and
/// the set shrinks.
pub proof fn lemma_expired_member_heals(v: StoreView, squad: u64, user: u64, now: u64)
    requires
        v.squads.contains_key(squad) && alive(v.squads[squad], now),
        v.member_sets.contains_key(squad) && alive(v.member_sets[squad], now),
        v.member_sets[squad].value.contains(user),
        !v.members.contains_key(MemberKey { squad, user })
            || v.members[MemberKey { squad, user }].deadline <= now,
    ensures
        ({
            let w = at_time(v, now);
            let (after, read) = members_read(w, squad, now);
            &&& forall|i: int| 0 <= i < read.len() ==> (#[trigger] read[i]).0 != user
            &&& !member_set(after, squad).contains(user)
            &&& member_set(after, squad).len() < member_set(w, squad).len()
        }),
{
    let w = at_time(v, now);
    let set = member_set(w, squad);
    let pred = has_record(w, squad);
    let live = live_members(w, squad);
    let i = choose|i: int| 0 <= i < set.len() && set[i] == user;
    lemma_filter_drops(set, pred, i);
    assert(!live.contains(user)) by {
        if live.contains(user) {
            let j = choose|j: int| 0 <= j < live.len() && live[j] == user;
            set.lemma_filter_pred(pred, j);
        }
    }
    let (after, read) = members_read(w, squad, now);
    assert forall|i: int| 0 <= i < read.len() implies (#[trigger] read[i]).0 != user by {
        assert(read[i].0 == live[i]);
    }
}

/// A squad built with a valid capacity reports that capacity for as long as
/// its record lives.
pub proof fn lemma_capacity_round_trip(v: StoreView, squad: u64, capacity: u8, built: u64, read: u64)
    requires
        valid_capacity(capacity),
        built <= read,
        read < deadline_after(built, SQUAD_TTL),
    ensures
        ({
            let w = at_time(squad_built(at_time(v, built), squad, capacity, built), read);
            w.squads.contains_key(squad) && w.squads[squad].value.capacity == capacity
        }),
{
}

/// A user who joins a forming squad with room for them, for `expires`
/// seconds, is among its members on any read before that time runs out (and
/// before the squad, its posting and its member set expire), with between one
/// and `expires` seconds left.
pub proof fn lemma_member_round_trip(
    v: StoreView,
    squad: u64,
    user: u64,
    expires: u32,
    joined_at: u64,
    read: u64,
)
    requires
        status_of(at_time(v, joined_at), squad) == SquadStatus::Forming,
        member_set(at_time(v, joined_at), squad).len() < at_time(
            v,
            joined_at,
        ).squads[squad].value.capacity,
        joined_at <= read,
        read < joined_at + expires,
        read < v.squads[squad].deadline,
        read < v.postings[v.squads[squad].value.posting->Some_0].deadline,
        at_time(v, joined_at).member_sets.contains_key(squad) ==> read < v.member_sets[squad].deadline,
    ensures
        ({
            let after = joined(at_time(v, joined_at), squad, user, expires, joined_at).0;
            let found = members_read(at_time(after, read), squad, read).1;
            exists|i: int|
                0 <= i < found.len() && (#[trigger] found[i]).0 == user && 0 < found[i].1 <= expires
        }),
{
    let w = at_time(v, joined_at);
    let after = joined(w, squad, user, expires, joined_at).0;
    let u = at_time(after, read);
    let set = member_set(u, squad);
    assert(set.contains(user)) by {
        let before = member_set(w, squad);
        if before.len() == 0 {
            assert(set[0] == user);
        } else if !before.contains(user) {
            assert(set[before.len() as int] == user);
        }
    }
    let i = choose|i: int| 0 <= i < set.len() && set[i] == user;
    let pred = has_record(u, squad);
    assert(pred(user));
    set.lemma_filter_contains(pred, i);
    let live = live_members(u, squad);
    let j = choose|j: int| 0 <= j < live.len() && live[j] == user;
    let found = members_read(u, squad, read).1;
    assert(found[j].0 == user);
}

} // verus!
