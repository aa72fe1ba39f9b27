//! One pass of the periodic reconciliation: every live posting is rendered
//! anew, and the members of every squad that has just become full are told.
//!
//! The pass decides; sending the edits and the direct messages is left to the
//! caller.
use vstd::prelude::*;
use crate::store::{
    SquadStore, StoreView, SquadStatus, SquadError, at_time, settled, lemma_settled_stays, status_of,
    status_observed, members_read, marked_filled, channel_set, full, member_set,
};
use crate::text::{build_description, build_notice, description_for, notice_text};

verus! {

/// A posting's new content.
pub struct Render {
    pub channel: u64,
    pub message: u64,
    pub status: SquadStatus,
    pub description: String,
}

/// A direct message to a member of a squad that is ready.
pub struct Notice {
    pub squad: u64,
    pub user: u64,
    pub content: String,
}

/// What one pass asks the caller to send.
pub struct Tick {
    pub renders: Vec<Render>,
    pub notices: Vec<Notice>,
}

pub open spec fn notice_squad() -> spec_fn(Notice) -> u64 {
    |n: Notice| n.squad
}

/// What a pass does to the store's squads and whom it tells, from `before`
/// to `after` at `now`: no squad appears, no filled flag is cleared, every
/// squad told is marked filled afterwards, and only squads not yet filled
/// are told.
pub open spec fn tick_effect(before: StoreView, after: StoreView, now: u64, told: Seq<u64>) -> bool {
    let v = at_time(before, now);
    &&& forall|s: u64| #[trigger] after.squads.contains_key(s) ==> v.squads.contains_key(s) && (
    v.squads[s].value.filled ==> after.squads[s].value.filled)
    &&& forall|i: int| #![trigger told[i]] 0 <= i < told.len() ==> (after.squads.contains_key(told[i])
        ==> after.squads[told[i]].value.filled)
    &&& forall|i: int| #![trigger told[i]] 0 <= i < told.len() ==> v.squads.contains_key(told[i])
        && !v.squads[told[i]].value.filled
}

/// `after` keeps no squad that `v` lacks, nor clears a flag `v` had set.
pub open spec fn squads_narrowed(v: StoreView, after: StoreView) -> bool {
    forall|s: u64| #[trigger] after.squads.contains_key(s) ==> v.squads.contains_key(s) && (
    v.squads[s].value.filled ==> after.squads[s].value.filled)
}

/// A squad that ran a second pass after a first is never told twice: the
/// first pass marks it filled, and the second tells only squads not filled.
pub proof fn lemma_no_second_notice(
    first: StoreView,
    between: StoreView,
    last: StoreView,
    t1: u64,
    t2: u64,
    told1: Seq<u64>,
    told2: Seq<u64>,
)
    requires
        tick_effect(first, between, t1, told1),
        tick_effect(between, last, t2, told2),
    ensures
        forall|i: int, j: int| 0 <= i < told1.len() && 0 <= j < told2.len() ==> told1[i] != told2[j],
{
    assert forall|i: int, j: int| 0 <= i < told1.len() && 0 <= j < told2.len() implies told1[i]
        != told2[j] by {
        if told1[i] == told2[j] {
            let s = told2[j];
            assert(at_time(between, t2).squads.contains_key(s));
            assert(between.squads.contains_key(told1[i]));
        }
    }
}

impl SquadStore {
    /// The new content of the posting of `message` in `channel`: the squad's
    /// status and the description for it.
    pub fn render_posting(&mut self, message: u64, channel: u64, now: u64) -> (r: Result<Render, SquadError>)
        requires
            old(self).wf(),
        ensures
            final(self).wf(),
            ({
                let v = at_time(old(self)@, now);
                if !v.postings.contains_key(message) {
                    r == Err::<Render, SquadError>(SquadError::NotFound) && final(self)@ == v
                } else {
                    let squad = v.postings[message].value.squad;
                    let status = status_of(v, squad);
                    let ttl = (v.postings[message].deadline - now) as u64;
                    match r {
                        Ok(render) => {
                            &&& render.channel == channel
                            &&& render.message == message
                            &&& render.status == status
                            &&& if status == SquadStatus::Expired {
                                &&& final(self)@ == status_observed(v, squad)
                                &&& render.description@ == description_for(status, 0, Seq::empty(), ttl)
                            } else {
                                let (after, members) = members_read(v, squad, now);
                                &&& final(self)@ == after
                                &&& render.description@ == description_for(
                                    status,
                                    v.squads[squad].value.capacity,
                                    members,
                                    ttl,
                                )
                            }
                        },
                        Err(_) => false,
                    }
                }
            }),
    {
        let ghost v = at_time(old(self)@, now);
        let squad = match self.get_squad_id(message, now) {
            Ok(s) => s,
            Err(e) => return Err(e),
        };
        let ttl = match self.get_ttl(message, now) {
            Ok(t) => t,
            Err(e) => return Err(e),
        };
        proof {
            lemma_settled_stays(v, now);
        }
        let status = self.get_squad_status(squad, now);
        let mut capacity: u8 = 0;
        let mut members: Vec<(u64, u64)> = Vec::new();
        match status {
            SquadStatus::Expired => {},
            _ => {
                capacity = match self.get_capacity(squad, now) {
                    Ok(c) => c,
                    Err(e) => return Err(e),
                };
                members = self.get_members(squad, now);
            },
        }
        let description = build_description(status, capacity, &members, ttl);
        Ok(Render { channel, message, status, description })
    }

    /// Tells every live member of `squad` that the squad is ready, with the
    /// roster and the channels it was posted in, and marks it filled.
    pub fn notify_squad(&mut self, squad: u64, now: u64) -> (r: Result<Vec<Notice>, SquadError>)
        requires
            old(self).wf(),
        ensures
            final(self).wf(),
            ({
                let v = at_time(old(self)@, now);
                if !v.squads.contains_key(squad) {
                    r == Err::<Vec<Notice>, SquadError>(SquadError::NotFound) && final(self)@ == v
                } else {
                    let (after, members) = members_read(v, squad, now);
                    &&& final(self)@ == marked_filled(after, squad)
                    &&& r is Ok
                    &&& r->Ok_0@.len() == members.len()
                    &&& forall|i: int| #![trigger r->Ok_0@[i]] 0 <= i < members.len() ==> {
                        &&& r->Ok_0@[i].squad == squad
                        &&& r->Ok_0@[i].user == members[i].0
                        &&& r->Ok_0@[i].content@ == notice_text(members, channel_set(v, squad))
                    }
                }
            }),
    {
        let ghost v = at_time(old(self)@, now);
        match self.get_capacity(squad, now) {
            Ok(_) => {},
            Err(e) => return Err(e),
        }
        proof {
            lemma_settled_stays(v, now);
        }
        let members = self.get_members(squad, now);
        let ghost after = self@;
        proof {
            lemma_settled_stays(after, now);
        }
        let channels = match self.get_channels(squad, now) {
            Ok(c) => c,
            Err(e) => return Err(e),
        };
        let content = build_notice(&members, &channels);
        match self.fill_squad(squad, now) {
            Ok(()) => {},
            Err(e) => return Err(e),
        }
        let mut notices: Vec<Notice> = Vec::new();
        let mut i: usize = 0;
        while i < members.len()
            invariant
                i <= members@.len(),
                notices@.len() == i,
                forall|j: int| #![trigger notices@[j]] 0 <= j < i ==> {
                    &&& notices@[j].squad == squad
                    &&& notices@[j].user == members@[j].0
                    &&& notices@[j].content@ == content@
                },
            decreases members@.len() - i,
        {
            let (user, _ttl) = members[i];
            notices.push(Notice { squad, user, content: content.clone() });
            i = i + 1;
        }
        Ok(notices)
    }

    /// One reconciliation pass at `now`: renders every live posting, then
    /// tells the members of every squad that is full and not yet filled, and
    /// marks those squads filled. A posting or squad that cannot be handled
    /// is skipped; the pass goes on with the rest.
    pub fn reconcile(&mut self, now: u64) -> (r: Tick)
        requires
            old(self).wf(),
        ensures
            final(self).wf(),
            tick_effect(old(self)@, final(self)@, now, r.notices@.map_values(notice_squad())),
            forall|s: u64| !full(final(self)@, s),
            forall|m: u64| #[trigger] at_time(old(self)@, now).postings.contains_key(m) ==> exists|i: int|
                0 <= i < r.renders@.len() && r.renders@[i].message == m,
            forall|i: int| #![trigger r.renders@[i]] 0 <= i < r.renders@.len() ==> {
                let v = at_time(old(self)@, now);
                &&& v.postings.contains_key(r.renders@[i].message)
                &&& v.postings[r.renders@[i].message].value.channel == r.renders@[i].channel
            },
    {
        let ghost v = at_time(old(self)@, now);
        let postings = self.get_postings(now);
        proof {
            lemma_settled_stays(v, now);
        }
        let mut renders: Vec<Render> = Vec::new();
        let mut i: usize = 0;
        while i < postings.len()
            invariant
                self.wf(),
                settled(self@, now),
                squads_narrowed(v, self@),
                i <= postings@.len(),
                self@.postings == v.postings,
                renders@.len() == i,
                forall|j: int| #![trigger postings@[j]] 0 <= j < postings@.len() ==> v.postings.contains_key(
                    postings@[j].0,
                ) && v.postings[postings@[j].0].value.channel == postings@[j].1,
                forall|j: int| #![trigger renders@[j]] 0 <= j < i ==> renders@[j].message == postings@[j].0
                    && renders@[j].channel == postings@[j].1,
            decreases postings@.len() - i,
        {
            let (message, channel) = postings[i];
            proof {
                lemma_settled_stays(self@, now);
                assert(v.postings.contains_key(postings@[i as int].0));
            }
            match self.render_posting(message, channel, now) {
                Ok(render) => renders.push(render),
                Err(_) => {},
            }
            i = i + 1;
        }
        assert forall|m: u64| #[trigger] v.postings.contains_key(m) implies exists|j: int|
            0 <= j < renders@.len() && renders@[j].message == m by {
            let j = choose|j: int| 0 <= j < postings@.len() && postings@[j].0 == m;
            assert(renders@[j].message == m);
        }
        let ghost mid = self@;
        let full_squads = self.get_full_squads(now);
        proof {
            lemma_settled_stays(mid, now);
            assert forall|j: int| 0 <= j < full_squads@.len() implies v.squads.contains_key(
                #[trigger] full_squads@[j],
            ) && !v.squads[full_squads@[j]].value.filled by {
                assert(full_squads@.contains(full_squads@[j]));
                assert(full(mid, full_squads@[j]));
            }
            assert forall|q: u64| full(self@, q) implies exists|j: int|
                0 <= j < full_squads@.len() && full_squads@[j] == q by {
                assert(full_squads@.contains(q));
            }
        }
        let mut notices: Vec<Notice> = Vec::new();
        let mut k: usize = 0;
        while k < full_squads.len()
            invariant
                self.wf(),
                settled(self@, now),
                squads_narrowed(v, self@),
                forall|j: int| 0 <= j < full_squads@.len() ==> v.squads.contains_key(#[trigger] full_squads@[j])
                    && !v.squads[full_squads@[j]].value.filled,
                forall|j: int| #![trigger notices@[j]] 0 <= j < notices@.len() ==> (self@.squads.contains_key(
                    notices@[j].squad,
                ) ==> self@.squads[notices@[j].squad].value.filled),
                forall|j: int| #![trigger notices@[j]] 0 <= j < notices@.len() ==> v.squads.contains_key(
                    notices@[j].squad,
                ) && !v.squads[notices@[j].squad].value.filled,
                k <= full_squads@.len(),
                forall|q: u64| full(self@, q) ==> exists|j: int| k <= j < full_squads@.len() && full_squads@[j] == q,
            decreases full_squads@.len() - k,
        {
            let s = full_squads[k];
            let ghost cur = self@;
            proof {
                lemma_settled_stays(cur, now);
            }
            match self.notify_squad(s, now) {
                Ok(mut told) => notices.append(&mut told),
                Err(_) => {},
            }
            proof {
                assert forall|q: u64| full(self@, q) implies exists|j: int|
                    k + 1 <= j < full_squads@.len() && full_squads@[j] == q by {
                    assert(q != s);
                    assert(member_set(self@, q) == member_set(cur, q));
                    assert(full(cur, q));
                    let j = choose|j: int| k <= j < full_squads@.len() && full_squads@[j] == q;
                    assert(j != k);
                }
            }
            k = k + 1;
        }
        let tick = Tick { renders, notices };
        assert(tick_effect(old(self)@, self@, now, tick.notices@.map_values(notice_squad())));
        tick
    }
}

} // verus!
