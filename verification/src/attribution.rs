//! Attribution timeline — who did what, when, from which timezone.
//!
//! Every commit carries two identities: the **author** (who wrote the change)
//! and the **committer** (who applied it). This module flattens a set of
//! commits into a single time-ordered stream of identity events — the
//! who-did-what-when backbone an examiner builds a narrative on. The timezone
//! offset is retained because it can corroborate or contradict a claimed
//! location.
use vstd::prelude::*;
use vstd::utf8::*;

use crate::commit::{CommitModel, CommitObject, Signature};
use crate::error::{GitError, GitErrorModel};
use crate::hash::GitHash;
use crate::repo::{commits_model, spec_walk, GitRepo};
use crate::seqs::{first_occurrences, lemma_first_occurrences};

verus! {

/// Which identity an attribution event came from.
#[derive(Debug, Clone, Copy, PartialEq, Eq, Structural)]
pub enum Role {
    /// The author — who wrote the change.
    Author,
    /// The committer — who applied it to the repository.
    Committer,
}

/// Authors sort before committers at equal times.
pub open spec fn role_rank(r: Role) -> int {
    match r {
        Role::Author => 0,
        Role::Committer => 1,
    }
}

/// One identity event on the attribution timeline.
#[derive(Debug, Clone, PartialEq, Eq)]
pub struct AttributionEvent {
    /// The commit this identity is attached to.
    pub commit: GitHash,
    /// Author or committer.
    pub role: Role,
    /// Identity name.
    pub name: String,
    /// Identity email.
    pub email: String,
    /// Event time (epoch seconds).
    pub timestamp: i64,
    /// Timezone offset of the recorded time, in seconds east of UTC.
    pub tz_offset_secs: i32,
}

/// An attribution event with its text fields as UTF-8 bytes.
pub struct EventModel {
    pub commit: GitHash,
    pub role: Role,
    pub name: Seq<u8>,
    pub email: Seq<u8>,
    pub timestamp: i64,
    pub tz_offset_secs: i32,
}

impl AttributionEvent {
    pub open spec fn model(&self) -> EventModel {
        EventModel {
            commit: self.commit,
            role: self.role,
            name: encode_utf8(self.name@),
            email: encode_utf8(self.email@),
            timestamp: self.timestamp,
            tz_offset_secs: self.tz_offset_secs,
        }
    }
}

pub open spec fn events_model(v: Seq<AttributionEvent>) -> Seq<EventModel> {
    v.map_values(|e: AttributionEvent| e.model())
}

/// The event of commit `c`'s author or committer.
pub open spec fn event_of(c: CommitModel, role: Role) -> EventModel {
    let s = if role == Role::Author {
        c.author
    } else {
        c.committer
    };
    EventModel {
        commit: c.hash,
        role,
        name: s.name,
        email: s.email,
        timestamp: s.timestamp,
        tz_offset_secs: s.tz_offset_secs,
    }
}

/// Each commit's author event, then its committer event, commit by commit.
pub open spec fn commit_events(cs: Seq<CommitModel>) -> Seq<EventModel>
    decreases cs.len(),
{
    if cs.len() == 0 {
        seq![]
    } else {
        commit_events(cs.drop_last()) + seq![event_of(cs.last(), Role::Author), event_of(cs.last(), Role::Committer)]
    }
}

/// `a` sorts no later than `b`: an earlier time, or the same time and an
/// author no later than a committer.
pub open spec fn event_le(a: EventModel, b: EventModel) -> bool {
    a.timestamp < b.timestamp || (a.timestamp == b.timestamp && role_rank(a.role) <= role_rank(b.role))
}

/// Where `x` goes in the ordered `t`, from `k` on: after every event that
/// sorts no later than it.
pub open spec fn event_slot(t: Seq<EventModel>, x: EventModel, k: int) -> int
    decreases t.len() - k,
{
    if k >= t.len() || k < 0 {
        t.len() as int
    } else if event_le(t[k], x) {
        event_slot(t, x, k + 1)
    } else {
        k
    }
}

/// The events ordered by time, authors before committers at equal times, and
/// otherwise in their given order (a stable sort).
pub open spec fn sort_events(s: Seq<EventModel>) -> Seq<EventModel>
    decreases s.len(),
{
    if s.len() == 0 {
        seq![]
    } else {
        let t = sort_events(s.drop_last());
        t.insert(event_slot(t, s.last(), 0), s.last())
    }
}

/// The attribution timeline of the commits `cs`.
pub open spec fn timeline(cs: Seq<CommitModel>) -> Seq<EventModel> {
    sort_events(commit_events(cs))
}

/// The events of `s` never go back in time, and at equal times an author
/// comes no later than a committer.
pub open spec fn time_ordered(s: Seq<EventModel>) -> bool {
    forall|i: int, j: int| 0 <= i < j < s.len() ==> event_le(#[trigger] s[i], #[trigger] s[j])
}

/// Whether `a` sorts no later than `b` on the timeline.
fn sorts_no_later(a: &AttributionEvent, b: &AttributionEvent) -> (r: bool)
    ensures
        r == event_le(a.model(), b.model()),
{
    a.timestamp < b.timestamp || (a.timestamp == b.timestamp && (a.role == Role::Author || b.role
        == Role::Committer))
}

/// Insert `e` into the ordered `events` after every event that sorts no later.
fn insert_event(events: &mut Vec<AttributionEvent>, e: AttributionEvent)
    ensures
        events_model(final(events)@) == events_model(old(events)@).insert(
            event_slot(events_model(old(events)@), e.model(), 0),
            e.model(),
        ),
{
    let ghost m = events_model(events@);
    let ghost x = e.model();
    let mut k: usize = 0;
    while k < events.len() && sorts_no_later(&events[k], &e)
        invariant
            m == events_model(events@),
            m.len() == events@.len(),
            x == e.model(),
            0 <= k <= events@.len(),
            event_slot(m, x, k as int) == event_slot(m, x, 0),
        decreases events@.len() - k,
    {
        k = k + 1;
    }
    assert(event_slot(m, x, k as int) == k);
    events.insert(k, e);
    assert(events_model(events@) =~= m.insert(k as int, x));
}

/// The attribution event of a signature.
fn event(commit: GitHash, role: Role, sig: &Signature) -> (r: AttributionEvent)
    ensures
        r.model() == (EventModel {
            commit,
            role,
            name: sig.model().name,
            email: sig.model().email,
            timestamp: sig.timestamp,
            tz_offset_secs: sig.tz_offset_secs,
        }),
{
    AttributionEvent {
        commit,
        role,
        name: sig.name.clone(),
        email: sig.email.clone(),
        timestamp: sig.timestamp,
        tz_offset_secs: sig.tz_offset_secs,
    }
}

/// Build a time-ordered attribution timeline from a set of commits.
///
/// Each commit contributes two events (author, then committer). Events are
/// sorted by timestamp ascending; ties keep author before committer.
pub fn attribution_timeline(commits: &[CommitObject]) -> (r: Vec<AttributionEvent>)
    ensures
        events_model(r@) == timeline(commits_model(commits@)),
{
    let ghost cm = commits_model(commits@);
    let mut events: Vec<AttributionEvent> = Vec::new();
    let mut i: usize = 0;
    assert(cm.take(0) =~= Seq::<CommitModel>::empty());
    assert(events_model(events@) =~= seq![]);
    while i < commits.len()
        invariant
            cm == commits_model(commits@),
            cm.len() == commits@.len(),
            0 <= i <= commits@.len(),
            events_model(events@) == sort_events(commit_events(cm.take(i as int))),
        decreases commits@.len() - i,
    {
        let c = &commits[i];
        let ghost cmi = cm[i as int];
        assert(cmi == c.model());
        let ghost pre = commit_events(cm.take(i as int));
        assert(cm.take(i + 1).drop_last() =~= cm.take(i as int));
        assert(commit_events(cm.take(i + 1)) =~= pre.push(event_of(cmi, Role::Author)).push(
            event_of(cmi, Role::Committer),
        ));
        assert(pre.push(event_of(cmi, Role::Author)).push(event_of(cmi, Role::Committer)).drop_last()
            =~= pre.push(event_of(cmi, Role::Author)));
        assert(pre.push(event_of(cmi, Role::Author)).drop_last() =~= pre);
        let a = event(c.hash, Role::Author, &c.author);
        insert_event(&mut events, a);
        assert(events_model(events@) == sort_events(pre.push(event_of(cmi, Role::Author))));
        let b = event(c.hash, Role::Committer, &c.committer);
        insert_event(&mut events, b);
        assert(events_model(events@) == sort_events(pre.push(event_of(cmi, Role::Author)).push(event_of(cmi, Role::Committer))));
        i = i + 1;
    }
    assert(cm.take(cm.len() as int) =~= cm);
    events
}

/// An identity as plain values.
pub open spec fn identity_model(p: (String, String)) -> (Seq<u8>, Seq<u8>) {
    (encode_utf8(p.0@), encode_utf8(p.1@))
}

pub open spec fn identities_model(v: Seq<(String, String)>) -> Seq<(Seq<u8>, Seq<u8>)> {
    v.map_values(|p: (String, String)| identity_model(p))
}

/// Each commit's author identity, then its committer identity.
pub open spec fn commit_identities(cs: Seq<CommitModel>) -> Seq<(Seq<u8>, Seq<u8>)>
    decreases cs.len(),
{
    if cs.len() == 0 {
        seq![]
    } else {
        commit_identities(cs.drop_last()) + seq![
            (cs.last().author.name, cs.last().author.email),
            (cs.last().committer.name, cs.last().committer.email),
        ]
    }
}

/// Add identity `(name, email)` to `seen` unless it is there already.
fn note_identity(seen: &mut Vec<(String, String)>, sig: &Signature)
    ensures
        identities_model(final(seen)@) == if identities_model(old(seen)@).contains((sig.model().name, sig.model().email)) {
            identities_model(old(seen)@)
        } else {
            identities_model(old(seen)@).push((sig.model().name, sig.model().email))
        },
{
    let ghost m = identities_model(seen@);
    let ghost x = (sig.model().name, sig.model().email);
    let mut j: usize = 0;
    while j < seen.len()
        invariant
            m == identities_model(seen@),
            m.len() == seen@.len(),
            x == (sig.model().name, sig.model().email),
            0 <= j <= seen@.len(),
            forall|k: int| 0 <= k < j ==> m[k] != x,
        decreases seen@.len() - j,
    {
        assert(m[j as int] == identity_model(seen@[j as int]));
        if crate::files::bytes_equal(seen[j].0.as_str().as_bytes(), sig.name.as_str().as_bytes())
            && crate::files::bytes_equal(seen[j].1.as_str().as_bytes(), sig.email.as_str().as_bytes()) {
            assert(m[j as int] == x);
            return;
        }
        j = j + 1;
    }
    seen.push((sig.name.clone(), sig.email.clone()));
    assert(identities_model(seen@) =~= m.push(x));
}

/// Distinct `(name, email)` identities appearing across `commits`, in
/// first-seen order. A surprising count or unexpected identity is a lead, not
/// a conclusion.
pub fn distinct_identities(commits: &[CommitObject]) -> (r: Vec<(String, String)>)
    ensures
        identities_model(r@) == first_occurrences(commit_identities(commits_model(commits@))),
{
    let ghost cm = commits_model(commits@);
    let mut seen: Vec<(String, String)> = Vec::new();
    let mut i: usize = 0;
    assert(cm.take(0) =~= Seq::<CommitModel>::empty());
    assert(identities_model(seen@) =~= seq![]);
    while i < commits.len()
        invariant
            cm == commits_model(commits@),
            cm.len() == commits@.len(),
            0 <= i <= commits@.len(),
            identities_model(seen@) == first_occurrences(commit_identities(cm.take(i as int))),
        decreases commits@.len() - i,
    {
        let c = &commits[i];
        let ghost cmi = cm[i as int];
        assert(cmi == c.model());
        let ghost pre = commit_identities(cm.take(i as int));
        let ghost ia = (cmi.author.name, cmi.author.email);
        let ghost ic = (cmi.committer.name, cmi.committer.email);
        assert(cm.take(i + 1).drop_last() =~= cm.take(i as int));
        assert(commit_identities(cm.take(i + 1)) =~= pre.push(ia).push(ic));
        assert(pre.push(ia).push(ic).drop_last() =~= pre.push(ia));
        assert(pre.push(ia).drop_last() =~= pre);
        note_identity(&mut seen, &c.author);
        assert(identities_model(seen@) == first_occurrences(pre.push(ia)));
        note_identity(&mut seen, &c.committer);
        assert(identities_model(seen@) == first_occurrences(pre.push(ia).push(ic)));
        i = i + 1;
    }
    assert(cm.take(cm.len() as int) =~= cm);
    seen
}

pub open spec fn timeline_result(r: Result<Vec<AttributionEvent>, GitError>) -> Result<Seq<EventModel>, GitErrorModel> {
    match r {
        Ok(v) => Ok(events_model(v@)),
        Err(e) => Err(e.model()),
    }
}

/// Walk every commit reachable from `from` and build its attribution
/// timeline.
///
/// # Errors
/// Propagates any read error encountered while walking.
pub fn attribution_repo(repo: &GitRepo, from: GitHash) -> (r: Result<Vec<AttributionEvent>, GitError>)
    ensures
        timeline_result(r) == match spec_walk(repo@, from) {
            Ok(cs) => Ok(timeline(cs)),
            Err(k) => Err(k),
        },
{
    match repo.commit_chain(from) {
        Ok(commits) => Ok(attribution_timeline(commits.as_slice())),
        Err(e) => Err(e),
    }
}

/// The position of `x` in the ordered `t` is after every event that sorts no
/// later than it and before every other.
proof fn lemma_event_slot(t: Seq<EventModel>, x: EventModel, k: int)
    requires
        0 <= k <= t.len(),
    ensures
        k <= event_slot(t, x, k) <= t.len(),
        forall|i: int| k <= i < event_slot(t, x, k) ==> event_le(#[trigger] t[i], x),
        event_slot(t, x, k) < t.len() ==> !event_le(t[event_slot(t, x, k)], x),
    decreases t.len() - k,
{
    if k < t.len() && event_le(t[k], x) {
        lemma_event_slot(t, x, k + 1);
    }
}

/// Inserting an event at its slot keeps a time-ordered sequence time-ordered.
proof fn lemma_insert_ordered(t: Seq<EventModel>, x: EventModel)
    requires
        time_ordered(t),
    ensures
        time_ordered(t.insert(event_slot(t, x, 0), x)),
{
    let p = event_slot(t, x, 0);
    lemma_event_slot(t, x, 0);
    let u = t.insert(p, x);
    t.insert_ensures(p, x);
    assert forall|i: int, j: int| 0 <= i < j < u.len() implies event_le(#[trigger] u[i], #[trigger] u[j]) by {
        if j < p {
            assert(u[i] == t[i] && u[j] == t[j]);
        } else if j == p {
            assert(u[i] == t[i]);
        } else if i < p {
            assert(u[i] == t[i] && u[j] == t[j - 1]);
            assert(event_le(t[i], t[j - 1]));
        } else if i == p {
            assert(u[j] == t[j - 1]);
            assert(!event_le(t[p], x));
            if j - 1 > p {
                assert(event_le(t[p], t[j - 1]));
            }
        } else {
            assert(u[i] == t[i - 1] && u[j] == t[j - 1]);
            assert(event_le(t[i - 1], t[j - 1]));
        }
    }
}

/// Inserting an element adds it to the multiset of a sequence.
proof fn lemma_insert_multiset<A>(t: Seq<A>, p: int, x: A)
    requires
        0 <= p <= t.len(),
    ensures
        t.insert(p, x).to_multiset() =~= t.to_multiset().insert(x),
{
    broadcast use vstd::seq_lib::group_seq_properties;

    let a = t.subrange(0, p);
    let b = t.subrange(p, t.len() as int);
    assert(t =~= a + b);
    vstd::seq_lib::lemma_multiset_commutative(a, b);
    vstd::seq_lib::lemma_multiset_commutative(a.push(x), b);
    a.to_multiset_ensures();
}

/// The sorted events are time-ordered and are the given events rearranged.
proof fn lemma_sort_events(s: Seq<EventModel>)
    ensures
        time_ordered(sort_events(s)),
        sort_events(s).to_multiset() =~= s.to_multiset(),
        sort_events(s).len() == s.len(),
    decreases s.len(),
{
    broadcast use vstd::seq_lib::group_seq_properties;

    if s.len() > 0 {
        let d = s.drop_last();
        lemma_sort_events(d);
        let t = sort_events(d);
        lemma_event_slot(t, s.last(), 0);
        lemma_insert_ordered(t, s.last());
        lemma_insert_multiset(t, event_slot(t, s.last(), 0), s.last());
        assert(s =~= d.push(s.last()));
        d.to_multiset_ensures();
        t.insert_ensures(event_slot(t, s.last(), 0), s.last());
    }
}

/// Each commit contributes exactly two events.
proof fn lemma_commit_events_len(cs: Seq<CommitModel>)
    ensures
        commit_events(cs).len() == 2 * cs.len(),
    decreases cs.len(),
{
    if cs.len() > 0 {
        lemma_commit_events_len(cs.drop_last());
    }
}

/// The attribution timeline is time-ordered (authors before committers at
/// equal times), and it holds exactly the author and committer events of the
/// commits, two per commit.
pub proof fn law_timeline_ordered_permutation(cs: Seq<CommitModel>)
    ensures
        time_ordered(timeline(cs)),
        timeline(cs).to_multiset() =~= commit_events(cs).to_multiset(),
        timeline(cs).len() == 2 * cs.len(),
{
    lemma_sort_events(commit_events(cs));
    lemma_commit_events_len(cs);
}

/// The distinct identities name each identity once, and name exactly the
/// authors and committers of the commits.
pub proof fn law_distinct_identities(cs: Seq<CommitModel>)
    ensures
        first_occurrences(commit_identities(cs)).no_duplicates(),
        forall|id: (Seq<u8>, Seq<u8>)|
            #[trigger] first_occurrences(commit_identities(cs)).contains(id) <==> commit_identities(cs).contains(id),
{
    lemma_first_occurrences(commit_identities(cs));
}

} // verus!
