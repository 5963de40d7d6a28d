use vstd::prelude::*;
use crate::bytes::str_equal;
use crate::keyed::{lookup_keyed, lemma_keyed_update, lemma_index_of_unique};
use vstd::string::StringSliceAdditionalSpecFns;
use crate::clock::now_secs;
use crate::entropy::random_u64;
use crate::invite::{CODE_LIFETIME, code_seed, code_text, invite_code};
use crate::sorting::{sort_desc, stable_sort_desc};

verus! {

/// Invitations that earn the Preacher badge in the command-line book.
pub const RECORD_PREACHER_INVITES: u64 = 10;
/// Invitations that earn the Master badge in the command-line book.
pub const RECORD_MASTER_INVITES: u64 = 100;
/// Reputation for inviting a node.
pub const RECORD_INVITE_BONUS: u64 = 10;
/// Reputation for joining by invitation.
pub const RECORD_JOIN_BONUS: u64 = 5;
/// Reputation for a badge.
pub const RECORD_BADGE_BONUS: u64 = 50;

/// An invitation code as kept by the command-line tool.
#[derive(Debug, Clone)]
pub struct InviteRecord {
    pub code: String,
    pub inviter: String,
    pub created_at: u64,
    pub expires_at: u64,
    pub uses: u32,
    pub max_uses: u32,
    pub active: bool,
}

/// A history entry of the command-line reputation book.
#[derive(Debug, Clone)]
pub struct ReputationEvent {
    pub timestamp: String,
    pub event: String,
    pub delta: i64,
    pub description: String,
}

/// A node's reputation in the command-line book.
#[derive(Debug, Clone)]
pub struct ReputationRecord {
    pub score: u64,
    pub invites: u64,
    pub events: Vec<ReputationEvent>,
    pub badges: Vec<String>,
}

impl Default for ReputationRecord {
    fn default() -> (r: Self)
        ensures
            r.score == 0,
            r.invites == 0,
            r.events@.len() == 0,
            r.badges@.len() == 0,
    {
        Self { score: 0, invites: 0, events: Vec::new(), badges: Vec::new() }
    }
}

/// The rank name for a score: 凡 below 10, 士 below 50, 道 below 200, 玄 below
/// 1000, 圣 from 1000 on.
pub open spec fn spec_rank_name(score: u64) -> Seq<char> {
    if score <= 9 {
        "凡"@
    } else if score <= 49 {
        "士"@
    } else if score <= 199 {
        "道"@
    } else if score <= 999 {
        "玄"@
    } else {
        "圣"@
    }
}

/// The rank name for a score.
pub fn rank_name(score: u64) -> (name: &'static str)
    ensures
        name@ == spec_rank_name(score),
{
    if score <= 9 {
        "凡"
    } else if score <= 49 {
        "士"
    } else if score <= 199 {
        "道"
    } else if score <= 999 {
        "玄"
    } else {
        "圣"
    }
}

/// The texts of a list of strings.
pub open spec fn string_texts(s: Seq<String>) -> Seq<Seq<char>> {
    s.map_values(|x: String| x@)
}

/// An event with the given fields.
pub open spec fn record_event_is(e: ReputationEvent, ts: Seq<char>, ev: Seq<char>, delta: i64, desc: Seq<char>) -> bool {
    &&& e.timestamp@ == ts
    &&& e.event@ == ev
    &&& e.delta == delta
    &&& e.description@ == desc
}

/// Whether `text` is one of `badges`.
fn has_text(badges: &Vec<String>, text: &str) -> (r: bool)
    ensures
        r == string_texts(badges@).contains(text@),
{
    let mut i: usize = 0;
    while i < badges.len()
        invariant
            i <= badges@.len(),
            forall|j: int| 0 <= j < i ==> badges@[j]@ != text@,
        decreases badges@.len() - i,
    {
        if str_equal(badges[i].as_str(), text) {
            assert(string_texts(badges@)[i as int] == text@);
            return true;
        }
        i = i + 1;
    }
    proof {
        if string_texts(badges@).contains(text@) {
            let j = choose|j: int| 0 <= j < string_texts(badges@).len() && string_texts(badges@)[j] == text@;
            assert(badges@[j]@ == text@);
        }
    }
    false
}

/// The badge a node with `invites` invitations and badges `badges` is due:
/// at 100 invitations the Master badge (宗师), else at 10 the Preacher badge
/// (传道者), each only when not held yet; with the text of its event.
pub open spec fn badge_due_of(invites: u64, badges: Seq<Seq<char>>) -> Option<(Seq<char>, Seq<char>)> {
    if invites >= RECORD_MASTER_INVITES && !badges.contains("宗师"@) {
        Some(("宗师"@, "获得徽章: 宗师 (邀请100人)"@))
    } else if invites >= RECORD_PREACHER_INVITES && !badges.contains("传道者"@) {
        Some(("传道者"@, "获得徽章: 传道者 (邀请10人)"@))
    } else {
        None
    }
}

/// What the badge check does to a record: the badge that is due (see
/// `badge_due_of`), with the badge bonus and a "badge" event.
pub open spec fn badge_due(r: ReputationRecord) -> Option<(Seq<char>, Seq<char>)> {
    badge_due_of(r.invites, string_texts(r.badges@))
}

/// The badge due, as a list of none or one (badge, event text).
pub open spec fn due_list(invites: u64, badges: Seq<Seq<char>>) -> Seq<(Seq<char>, Seq<char>)> {
    match badge_due_of(invites, badges) {
        Some(p) => seq![p],
        None => Seq::empty(),
    }
}

/// The badges of a list of (badge, event text).
pub open spec fn badge_names(d: Seq<(Seq<char>, Seq<char>)>) -> Seq<Seq<char>> {
    d.map_values(|p: (Seq<char>, Seq<char>)| p.0)
}

/// The badges due from two badge checks in a row.
pub open spec fn due_twice(invites: u64, badges: Seq<Seq<char>>) -> Seq<(Seq<char>, Seq<char>)> {
    let d1 = due_list(invites, badges);
    d1 + due_list(invites, badges + badge_names(d1))
}

/// History `h` is `h0` followed by the events `pre` (timestamp, kind,
/// delta, description) and then one "badge" event written `bts` per
/// badge of `due`.
pub open spec fn events_extended(
    h0: Seq<ReputationEvent>,
    h: Seq<ReputationEvent>,
    pre: Seq<(Seq<char>, Seq<char>, i64, Seq<char>)>,
    due: Seq<(Seq<char>, Seq<char>)>,
    bts: Seq<char>,
) -> bool {
    &&& h.len() == h0.len() + pre.len() + due.len()
    &&& h.take(h0.len() as int) == h0
    &&& forall|i: int|
        0 <= i < pre.len() ==> record_event_is(#[trigger] h[h0.len() + i], pre[i].0, pre[i].1, pre[i].2, pre[i].3)
    &&& forall|i: int|
        0 <= i < due.len() ==> record_event_is(
            #[trigger] h[h0.len() + pre.len() + i],
            bts,
            "badge"@,
            RECORD_BADGE_BONUS as i64,
            due[i].1,
        )
}

/// Node `id` is known in `after`, with `delta` more score than in `before`
/// plus the bonus of each badge of `due`, `invites` more invitations, the
/// badges of `due` added, and its history extended by `pre` and the badge
/// events of `due` (see `events_extended`).
pub open spec fn node_after(
    before: ReputationDb,
    after: ReputationDb,
    id: Seq<char>,
    delta: int,
    invites: int,
    pre: Seq<(Seq<char>, Seq<char>, i64, Seq<char>)>,
    due: Seq<(Seq<char>, Seq<char>)>,
    bts: Seq<char>,
) -> bool {
    &&& after.get(id) is Some
    &&& after.score_of(id) == before.score_of(id) + delta + RECORD_BADGE_BONUS * due.len()
    &&& after.invites_of(id) == before.invites_of(id) + invites
    &&& after.badges_of(id) == before.badges_of(id) + badge_names(due)
    &&& events_extended(before.events_of(id), after.events_of(id), pre, due, bts)
}

/// Two steps of which the first adds no badge compose into one.
proof fn lemma_node_after_then(
    d0: ReputationDb,
    d1: ReputationDb,
    d2: ReputationDb,
    id: Seq<char>,
    delta1: int,
    inv1: int,
    pre1: Seq<(Seq<char>, Seq<char>, i64, Seq<char>)>,
    delta2: int,
    inv2: int,
    pre2: Seq<(Seq<char>, Seq<char>, i64, Seq<char>)>,
    due2: Seq<(Seq<char>, Seq<char>)>,
    bts: Seq<char>,
)
    requires
        node_after(d0, d1, id, delta1, inv1, pre1, Seq::empty(), bts),
        node_after(d1, d2, id, delta2, inv2, pre2, due2, bts),
    ensures
        node_after(d0, d2, id, delta1 + delta2, inv1 + inv2, pre1 + pre2, due2, bts),
{
    let h0 = d0.events_of(id);
    let h1 = d1.events_of(id);
    let h2 = d2.events_of(id);
    let pre = pre1 + pre2;
    assert(badge_names(Seq::<(Seq<char>, Seq<char>)>::empty()) =~= Seq::<Seq<char>>::empty());
    assert(d1.badges_of(id) =~= d0.badges_of(id));
    assert forall|j: int| 0 <= j < h0.len() implies h2[j] == h0[j] by {
        assert(h2.take(h1.len() as int)[j] == h2[j]);
        assert(h1.take(h0.len() as int)[j] == h1[j]);
    }
    assert(h2.take(h0.len() as int) =~= h0);
    assert forall|i: int| 0 <= i < pre.len() implies record_event_is(
        #[trigger] h2[h0.len() + i],
        pre[i].0,
        pre[i].1,
        pre[i].2,
        pre[i].3,
    ) by {
        if i < pre1.len() {
            assert(h2.take(h1.len() as int)[h0.len() + i] == h2[h0.len() + i]);
            assert(record_event_is(h1[h0.len() + i], pre1[i].0, pre1[i].1, pre1[i].2, pre1[i].3));
        } else {
            let k = i - pre1.len();
            assert(record_event_is(h2[h1.len() + k], pre2[k].0, pre2[k].1, pre2[k].2, pre2[k].3));
        }
    }
    assert forall|i: int| 0 <= i < due2.len() implies record_event_is(
        #[trigger] h2[h0.len() + pre.len() + i],
        bts,
        "badge"@,
        RECORD_BADGE_BONUS as i64,
        due2[i].1,
    ) by {
        assert(record_event_is(h2[h1.len() + pre2.len() + i], bts, "badge"@, RECORD_BADGE_BONUS as i64, due2[i].1));
    }
}

/// A step that adds only badges, after one that may have added badges too,
/// compose into one.
proof fn lemma_node_after_more_badges(
    d0: ReputationDb,
    d1: ReputationDb,
    d2: ReputationDb,
    id: Seq<char>,
    delta1: int,
    inv1: int,
    pre1: Seq<(Seq<char>, Seq<char>, i64, Seq<char>)>,
    due1: Seq<(Seq<char>, Seq<char>)>,
    due2: Seq<(Seq<char>, Seq<char>)>,
    bts: Seq<char>,
)
    requires
        node_after(d0, d1, id, delta1, inv1, pre1, due1, bts),
        node_after(d1, d2, id, 0, 0, Seq::empty(), due2, bts),
    ensures
        node_after(d0, d2, id, delta1, inv1, pre1, due1 + due2, bts),
{
    let h0 = d0.events_of(id);
    let h1 = d1.events_of(id);
    let h2 = d2.events_of(id);
    let due = due1 + due2;
    assert(badge_names(due) =~= badge_names(due1) + badge_names(due2));
    assert(d2.badges_of(id) =~= d0.badges_of(id) + badge_names(due));
    assert forall|j: int| 0 <= j < h1.len() implies h2[j] == h1[j] by {
        assert(h2.take(h1.len() as int)[j] == h2[j]);
    }
    assert forall|j: int| 0 <= j < h0.len() implies h2[j] == h0[j] by {
        assert(h1.take(h0.len() as int)[j] == h1[j]);
    }
    assert(h2.take(h0.len() as int) =~= h0);
    assert forall|i: int| 0 <= i < pre1.len() implies record_event_is(
        #[trigger] h2[h0.len() + i],
        pre1[i].0,
        pre1[i].1,
        pre1[i].2,
        pre1[i].3,
    ) by {
        assert(record_event_is(h1[h0.len() + i], pre1[i].0, pre1[i].1, pre1[i].2, pre1[i].3));
    }
    assert forall|i: int| 0 <= i < due.len() implies record_event_is(
        #[trigger] h2[h0.len() + pre1.len() + i],
        bts,
        "badge"@,
        RECORD_BADGE_BONUS as i64,
        due[i].1,
    ) by {
        if i < due1.len() {
            assert(record_event_is(h1[h0.len() + pre1.len() + i], bts, "badge"@, RECORD_BADGE_BONUS as i64, due1[i].1));
        } else {
            let k = i - due1.len();
            assert(h2[h1.len() + 0 + k] == h2[h0.len() + pre1.len() + i]);
            assert(record_event_is(h2[h1.len() + 0 + k], bts, "badge"@, RECORD_BADGE_BONUS as i64, due2[k].1));
        }
    }
}

/// Outcome of using an invitation code.
#[derive(Debug, Clone)]
pub enum CodeUse {
    /// No such code.
    Unknown,
    /// The code was deactivated.
    Inactive,
    /// The code expired; it is now deactivated.
    Expired,
    /// The code was accepted; the inviter's id.
    Accepted(String),
}

/// Invitation codes by code text.
pub struct InviteDb {
    pub entries: Vec<(String, InviteRecord)>,
}

/// Reputations by node id.
pub struct ReputationDb {
    pub entries: Vec<(String, ReputationRecord)>,
}

/// The code texts, in order.
pub open spec fn invite_keys(s: Seq<(String, InviteRecord)>) -> Seq<Seq<char>> {
    s.map_values(|p: (String, InviteRecord)| p.0@)
}

/// The node ids, in order.
pub open spec fn record_keys(s: Seq<(String, ReputationRecord)>) -> Seq<Seq<char>> {
    s.map_values(|p: (String, ReputationRecord)| p.0@)
}

impl InviteDb {
    /// One entry per code.
    pub open spec fn wf(&self) -> bool {
        invite_keys(self.entries@).no_duplicates()
    }

    /// The record under `code`, if any.
    pub open spec fn get(&self, code: Seq<char>) -> Option<InviteRecord> {
        match lookup_keyed(self.entries@, invite_keys(self.entries@), code) {
            Some(p) => Some(p.1),
            None => None,
        }
    }

    /// An empty book.
    pub fn new() -> (db: Self)
        ensures
            db.wf(),
            db.entries@.len() == 0,
    {
        let db = Self { entries: Vec::new() };
        assert(invite_keys(db.entries@) =~= Seq::<Seq<char>>::empty());
        db
    }

    /// Position of the entry for `code`.
    fn index_of(&self, code: &str) -> (r: Option<usize>)
        ensures
            match r {
                Some(i) => i < self.entries@.len() && self.entries@[i as int].0@ == code@,
                None => !invite_keys(self.entries@).contains(code@),
            },
    {
        let mut i: usize = 0;
        while i < self.entries.len()
            invariant
                i <= self.entries@.len(),
                forall|j: int| 0 <= j < i ==> self.entries@[j].0@ != code@,
            decreases self.entries@.len() - i,
        {
            if str_equal(self.entries[i].0.as_str(), code) {
                return Some(i);
            }
            i = i + 1;
        }
        proof {
            if invite_keys(self.entries@).contains(code@) {
                let j = invite_keys(self.entries@).index_of(code@);
                assert(self.entries@[j].0@ == code@);
            }
        }
        None
    }

    /// Stores `record` under its code text, replacing an entry with that text.
    pub fn insert(&mut self, record: InviteRecord)
        requires
            old(self).wf(),
        ensures
            final(self).wf(),
            final(self).get(record.code@) == Some(record),
            forall|o: Seq<char>| o != record.code@ ==> #[trigger] final(self).get(o) == old(self).get(o),
    {
        let ghost before = self.entries@;
        let ghost k = record.code@;
        let key = record.code.clone();
        let slot = self.index_of(key.as_str());
        let ghost idx: int = match slot {
            Some(i) => i as int,
            None => before.len() as int,
        };
        match slot {
            Some(i) => {
                self.entries.set(i, (key, record));
            },
            None => {
                self.entries.push((key, record));
            },
        }
        proof {
            let kb = invite_keys(before);
            let ka = invite_keys(self.entries@);
            lemma_keyed_update(before, self.entries@, kb, ka, idx, k);
            assert forall|o: Seq<char>| o != k implies #[trigger] self.get(o) == old(self).get(o) by {
                assert(lookup_keyed(self.entries@, ka, o) == lookup_keyed(before, kb, o));
            }
        }
    }
}

impl ReputationDb {
    /// One entry per node.
    pub open spec fn wf(&self) -> bool {
        record_keys(self.entries@).no_duplicates()
    }

    /// The record of node `id`, if any.
    pub open spec fn get(&self, id: Seq<char>) -> Option<ReputationRecord> {
        match lookup_keyed(self.entries@, record_keys(self.entries@), id) {
            Some(p) => Some(p.1),
            None => None,
        }
    }

    /// Score of node `id`; 0 when unknown.
    pub open spec fn score_of(&self, id: Seq<char>) -> u64 {
        match self.get(id) {
            Some(r) => r.score,
            None => 0,
        }
    }

    /// Invitations of node `id`; 0 when unknown.
    pub open spec fn invites_of(&self, id: Seq<char>) -> u64 {
        match self.get(id) {
            Some(r) => r.invites,
            None => 0,
        }
    }

    /// Events of node `id`; none when unknown.
    pub open spec fn events_of(&self, id: Seq<char>) -> Seq<ReputationEvent> {
        match self.get(id) {
            Some(r) => r.events@,
            None => Seq::empty(),
        }
    }

    /// Badges of node `id`; none when unknown.
    pub open spec fn badges_of(&self, id: Seq<char>) -> Seq<Seq<char>> {
        match self.get(id) {
            Some(r) => string_texts(r.badges@),
            None => Seq::empty(),
        }
    }

    /// An empty book.
    pub fn new() -> (db: Self)
        ensures
            db.wf(),
            db.entries@.len() == 0,
    {
        let db = Self { entries: Vec::new() };
        assert(record_keys(db.entries@) =~= Seq::<Seq<char>>::empty());
        db
    }

    /// Position of the entry for `id`.
    fn index_of(&self, id: &str) -> (r: Option<usize>)
        ensures
            match r {
                Some(i) => i < self.entries@.len() && self.entries@[i as int].0@ == id@,
                None => !record_keys(self.entries@).contains(id@),
            },
    {
        let mut i: usize = 0;
        while i < self.entries.len()
            invariant
                i <= self.entries@.len(),
                forall|j: int| 0 <= j < i ==> self.entries@[j].0@ != id@,
            decreases self.entries@.len() - i,
        {
            if str_equal(self.entries[i].0.as_str(), id) {
                return Some(i);
            }
            i = i + 1;
        }
        proof {
            if record_keys(self.entries@).contains(id@) {
                let j = record_keys(self.entries@).index_of(id@);
                assert(self.entries@[j].0@ == id@);
            }
        }
        None
    }

    /// Position of the entry for `id`, appending a default record when absent.
    fn index_or_insert(&mut self, id: &str) -> (i: usize)
        requires
            old(self).wf(),
        ensures
            final(self).wf(),
            i < final(self).entries@.len(),
            final(self).entries@[i as int].0@ == id@,
            final(self).get(id@) == Some(final(self).entries@[i as int].1),
            old(self).get(id@) matches Some(r) ==> final(self).entries@[i as int].1 == r,
            old(self).get(id@) is None ==> ({
                let r = final(self).entries@[i as int].1;
                r.score == 0 && r.invites == 0 && r.events@.len() == 0 && r.badges@.len() == 0
            }),
            forall|o: Seq<char>| o != id@ ==> #[trigger] final(self).get(o) == old(self).get(o),
            final(self).entries@.len() >= old(self).entries@.len(),
            forall|j: int| 0 <= j < old(self).entries@.len() ==> final(self).entries@[j] == old(self).entries@[j],
    {
        match self.index_of(id) {
            Some(i) => {
                proof {
                    lemma_index_of_unique(record_keys(self.entries@), i as int);
                }
                i
            },
            None => {
                let ghost before = self.entries@;
                let n = self.entries.len();
                self.entries.push((String::from_str(id), ReputationRecord::default()));
                proof {
                    let kb = record_keys(before);
                    let ka = record_keys(self.entries@);
                    lemma_keyed_update(before, self.entries@, kb, ka, n as int, id@);
                    assert forall|o: Seq<char>| o != id@ implies #[trigger] self.get(o) == old(self).get(o) by {
                        assert(lookup_keyed(self.entries@, ka, o) == lookup_keyed(before, kb, o));
                    }
                }
                n
            },
        }
    }

    /// After the record at `i` changed (its key kept): `id` finds the new
    /// record and every other key what it found before.
    proof fn lemma_record_updated(&self, before: Seq<(String, ReputationRecord)>, i: int, id: Seq<char>)
        requires
            record_keys(before).no_duplicates(),
            0 <= i < before.len(),
            before[i].0@ == id,
            self.entries@.len() == before.len(),
            self.entries@[i].0@ == id,
            forall|j: int| 0 <= j < before.len() && j != i ==> self.entries@[j] == before[j],
        ensures
            self.wf(),
            self.get(id) == Some(self.entries@[i].1),
            forall|o: Seq<char>|
                o != id ==> #[trigger] self.get(o) == match lookup_keyed(before, record_keys(before), o) {
                    Some(p) => Some(p.1),
                    None => None,
                },
    {
        let kb = record_keys(before);
        let ka = record_keys(self.entries@);
        lemma_keyed_update(before, self.entries@, kb, ka, i, id);
        assert forall|o: Seq<char>| o != id implies #[trigger] self.get(o) == match lookup_keyed(before, kb, o) {
            Some(p) => Some(p.1),
            None => None,
        } by {
            assert(lookup_keyed(self.entries@, ka, o) == lookup_keyed(before, kb, o));
        }
    }

    /// Adds `delta` to node `id`'s score (and `invites` to its invitations)
    /// with an event; an unknown node starts from a default record.
    fn credit(&mut self, id: &str, delta: u64, invites: u64, timestamp: &str, event: &str, description: &str)
        requires
            old(self).wf(),
            old(self).score_of(id@) + delta <= u64::MAX,
            old(self).invites_of(id@) + invites <= u64::MAX,
            delta <= i64::MAX,
        ensures
            final(self).wf(),
            final(self).score_of(id@) == old(self).score_of(id@) + delta,
            final(self).invites_of(id@) == old(self).invites_of(id@) + invites,
            final(self).badges_of(id@) == old(self).badges_of(id@),
            final(self).events_of(id@).len() == old(self).events_of(id@).len() + 1,
            final(self).events_of(id@).drop_last() == old(self).events_of(id@),
            record_event_is(final(self).events_of(id@).last(), timestamp@, event@, delta as i64, description@),
            forall|bts: Seq<char>|
                #[trigger] node_after(
                    *old(self),
                    *final(self),
                    id@,
                    delta as int,
                    invites as int,
                    seq![(timestamp@, event@, delta as i64, description@)],
                    Seq::empty(),
                    bts,
                ),
            forall|o: Seq<char>| o != id@ ==> #[trigger] final(self).get(o) == old(self).get(o),
    {
        let i = self.index_or_insert(id);
        let ghost mid = self.entries@;
        let ghost mid_db = *self;
        let entry = &mut self.entries[i];
        let ghost ev0 = entry.1.events@;
        entry.1.score = entry.1.score + delta;
        entry.1.invites = entry.1.invites + invites;
        entry.1.events.push(
            ReputationEvent {
                timestamp: String::from_str(timestamp),
                event: String::from_str(event),
                delta: delta as i64,
                description: String::from_str(description),
            },
        );
        proof {
            assert(self.entries@[i as int].1.events@.drop_last() =~= ev0);
            self.lemma_record_updated(mid, i as int, id@);
            assert forall|o: Seq<char>| o != id@ implies #[trigger] self.get(o) == old(self).get(o) by {
                assert(mid_db.get(o) == old(self).get(o));
            }
            let h0 = old(self).events_of(id@);
            let h = self.events_of(id@);
            assert(h.take(h0.len() as int) =~= h0) by {
                assert(h.drop_last() == h0);
            }
            assert(badge_names(Seq::<(Seq<char>, Seq<char>)>::empty()) =~= Seq::<Seq<char>>::empty());
            assert(self.badges_of(id@) =~= old(self).badges_of(id@) + Seq::<Seq<char>>::empty());
        }
    }

    /// Awards node `id` the badge that is due (see `badge_due`) at the time
    /// written `timestamp`; nothing for an unknown node.
    pub fn check_badges(&mut self, id: &str, timestamp: &str)
        requires
            old(self).wf(),
            old(self).score_of(id@) + RECORD_BADGE_BONUS <= u64::MAX,
        ensures
            final(self).wf(),
            match old(self).get(id@) {
                None => final(self).entries@ == old(self).entries@,
                Some(r) => match badge_due(r) {
                    None => final(self).entries@ == old(self).entries@,
                    Some((badge, text)) => final(self).get(id@) matches Some(n) && n.score == r.score
                        + RECORD_BADGE_BONUS && n.invites == r.invites && string_texts(n.badges@) == string_texts(
                        r.badges@,
                    ).push(badge) && n.events@.drop_last() == r.events@ && n.events@.len() == r.events@.len() + 1
                        && record_event_is(n.events@.last(), timestamp@, "badge"@, RECORD_BADGE_BONUS as i64, text),
                },
            },
            old(self).get(id@) is Some ==> node_after(
                *old(self),
                *final(self),
                id@,
                0,
                0,
                Seq::empty(),
                due_list(old(self).invites_of(id@), old(self).badges_of(id@)),
                timestamp@,
            ),
            forall|o: Seq<char>| o != id@ ==> #[trigger] final(self).get(o) == old(self).get(o),
    {
        let i = match self.index_of(id) {
            Some(i) => i,
            None => {
                return;
            },
        };
        proof {
            lemma_index_of_unique(record_keys(self.entries@), i as int);
        }
        let invites = self.entries[i].1.invites;
        let (badge, text) = if invites >= RECORD_MASTER_INVITES && !has_text(&self.entries[i].1.badges, "宗师") {
            ("宗师", "获得徽章: 宗师 (邀请100人)")
        } else if invites >= RECORD_PREACHER_INVITES && !has_text(&self.entries[i].1.badges, "传道者") {
            ("传道者", "获得徽章: 传道者 (邀请10人)")
        } else {
            proof {
                lemma_node_unchanged(*self, id@, timestamp@);
            }
            return;
        };
        let ghost before = self.entries@;
        let ghost db0 = *self;
        let entry = &mut self.entries[i];
        let ghost ev0 = entry.1.events@;
        let ghost b0 = entry.1.badges@;
        entry.1.badges.push(String::from_str(badge));
        entry.1.score = entry.1.score + RECORD_BADGE_BONUS;
        entry.1.events.push(
            ReputationEvent {
                timestamp: String::from_str(timestamp),
                event: String::from_str("badge"),
                delta: RECORD_BADGE_BONUS as i64,
                description: String::from_str(text),
            },
        );
        proof {
            assert(self.entries@[i as int].1.events@.drop_last() =~= ev0);
            assert(string_texts(self.entries@[i as int].1.badges@) =~= string_texts(b0).push(badge@));
            self.lemma_record_updated(before, i as int, id@);
            assert forall|o: Seq<char>| o != id@ implies #[trigger] self.get(o) == old(self).get(o) by {
                assert(db0.get(o) == old(self).get(o));
            }
            let h0 = old(self).events_of(id@);
            let h = self.events_of(id@);
            let due = due_list(old(self).invites_of(id@), old(self).badges_of(id@));
            assert(due == seq![(badge@, text@)]);
            assert(h.take(h0.len() as int) =~= h0) by {
                assert(h.drop_last() == h0);
            }
            assert(badge_names(due) =~= seq![badge@]);
            assert(string_texts(b0).push(badge@) =~= string_texts(b0) + seq![badge@]);
            assert(old(self).badges_of(id@) == string_texts(b0));
            assert(self.get(id@) == Some(self.entries@[i as int].1));
            assert(self.badges_of(id@) =~= old(self).badges_of(id@) + badge_names(due));
            assert(h[h0.len() + 0int + 0int] == h.last());
        }
    }
}

/// A node that is known and left as it was.
proof fn lemma_node_unchanged(db: ReputationDb, id: Seq<char>, bts: Seq<char>)
    requires
        db.get(id) is Some,
        badge_due_of(db.invites_of(id), db.badges_of(id)) is None,
    ensures
        node_after(db, db, id, 0, 0, Seq::empty(), due_list(db.invites_of(id), db.badges_of(id)), bts),
{
    assert(badge_names(Seq::<(Seq<char>, Seq<char>)>::empty()) =~= Seq::<Seq<char>>::empty());
    assert(db.badges_of(id) + Seq::<Seq<char>>::empty() =~= db.badges_of(id));
    assert(db.events_of(id).take(db.events_of(id).len() as int) =~= db.events_of(id));
}

/// Uses invitation code `code` for `new_node_id` at time `now` (written
/// `timestamp` in the history, and `badge_timestamp` for badges): unknown or
/// inactive codes are refused, an expired one is deactivated and refused;
/// otherwise the use is counted, the inviter gains the invitation bonus and
/// one invitation, the new node the joining bonus, and the badge check runs
/// on the inviter and then on the new node (twice on one node that invited
/// itself); `node_after` states each node's resulting score, invitations,
/// badges and history.
pub fn use_invite_code(
    invites: &mut InviteDb,
    reps: &mut ReputationDb,
    code: &str,
    new_node_id: &str,
    now: u64,
    timestamp: &str,
    badge_timestamp: &str,
) -> (outcome: CodeUse)
    requires
        old(invites).wf(),
        old(reps).wf(),
        match old(invites).get(code@) {
            Some(r) => r.active && now <= r.expires_at ==> r.uses < u32::MAX && old(reps).score_of(r.inviter@)
                + RECORD_INVITE_BONUS + RECORD_JOIN_BONUS + 2 * RECORD_BADGE_BONUS <= u64::MAX && old(
                reps,
            ).score_of(new_node_id@) + RECORD_INVITE_BONUS + RECORD_JOIN_BONUS + 2 * RECORD_BADGE_BONUS
                <= u64::MAX && old(reps).invites_of(r.inviter@) < u64::MAX,
            None => true,
        },
    ensures
        final(invites).wf(),
        final(reps).wf(),
        forall|o: Seq<char>| o != code@ ==> #[trigger] final(invites).get(o) == old(invites).get(o),
        match old(invites).get(code@) {
            None => outcome is Unknown && final(invites).entries@ == old(invites).entries@ && final(reps).entries@
                == old(reps).entries@,
            Some(r) => if !r.active {
                outcome is Inactive && final(invites).entries@ == old(invites).entries@ && final(reps).entries@
                    == old(reps).entries@
            } else if now > r.expires_at {
                outcome is Expired && final(invites).get(code@) == Some((InviteRecord { active: false, ..r }))
                    && final(reps).entries@ == old(reps).entries@
            } else {
                &&& outcome matches CodeUse::Accepted(inviter) && inviter@ == r.inviter@
                &&& final(invites).get(code@) == Some((InviteRecord { uses: (r.uses + 1) as u32, ..r }))
                &&& r.inviter@ != new_node_id@ ==> node_after(
                    *old(reps),
                    *final(reps),
                    r.inviter@,
                    RECORD_INVITE_BONUS as int,
                    1,
                    seq![(timestamp@, "invite"@, RECORD_INVITE_BONUS as i64, "邀请节点 "@ + new_node_id@)],
                    due_list((old(reps).invites_of(r.inviter@) + 1) as u64, old(reps).badges_of(r.inviter@)),
                    badge_timestamp@,
                )
                &&& r.inviter@ != new_node_id@ ==> node_after(
                    *old(reps),
                    *final(reps),
                    new_node_id@,
                    RECORD_JOIN_BONUS as int,
                    0,
                    seq![(timestamp@, "joined"@, RECORD_JOIN_BONUS as i64, "通过邀请码 "@ + code@ + " 加入"@)],
                    due_list(old(reps).invites_of(new_node_id@), old(reps).badges_of(new_node_id@)),
                    badge_timestamp@,
                )
                &&& r.inviter@ == new_node_id@ ==> node_after(
                    *old(reps),
                    *final(reps),
                    r.inviter@,
                    RECORD_INVITE_BONUS + RECORD_JOIN_BONUS,
                    1,
                    seq![
                        (timestamp@, "invite"@, RECORD_INVITE_BONUS as i64, "邀请节点 "@ + new_node_id@),
                        (timestamp@, "joined"@, RECORD_JOIN_BONUS as i64, "通过邀请码 "@ + code@ + " 加入"@),
                    ],
                    due_twice((old(reps).invites_of(r.inviter@) + 1) as u64, old(reps).badges_of(r.inviter@)),
                    badge_timestamp@,
                )
                &&& forall|o: Seq<char>|
                    o != r.inviter@ && o != new_node_id@ ==> #[trigger] final(reps).get(o) == old(reps).get(o)
            },
        },
{
    let i = match invites.index_of(code) {
        Some(i) => i,
        None => {
            return CodeUse::Unknown;
        },
    };
    proof {
        lemma_index_of_unique(invite_keys(invites.entries@), i as int);
    }
    let ghost r = invites.entries@[i as int].1;
    let ghost before = invites.entries@;
    let ghost inv0 = *invites;
    if !invites.entries[i].1.active {
        return CodeUse::Inactive;
    }
    if now > invites.entries[i].1.expires_at {
        let entry = &mut invites.entries[i];
        entry.1.active = false;
        proof {
            lemma_invite_updated(inv0, *invites, i as int);
        }
        return CodeUse::Expired;
    }
    let entry = &mut invites.entries[i];
    entry.1.uses = entry.1.uses + 1;
    let inviter = entry.1.inviter.clone();
    proof {
        lemma_invite_updated(inv0, *invites, i as int);
    }
    let ghost reps0 = *reps;
    let mut joined_text = String::from_str("邀请节点 ");
    joined_text.append(new_node_id);
    reps.credit(inviter.as_str(), RECORD_INVITE_BONUS, 1, timestamp, "invite", joined_text.as_str());
    let ghost reps1 = *reps;
    let mut join_text = String::from_str("通过邀请码 ");
    join_text.append(code);
    join_text.append(" 加入");
    reps.credit(new_node_id, RECORD_JOIN_BONUS, 0, timestamp, "joined", join_text.as_str());
    let ghost reps2 = *reps;
    reps.check_badges(inviter.as_str(), badge_timestamp);
    let ghost reps3 = *reps;
    reps.check_badges(new_node_id, badge_timestamp);
    proof {
        let a = inviter@;
        let b = new_node_id@;
        assert forall|o: Seq<char>| o != a && o != b implies #[trigger] reps.get(o) == reps0.get(o) by {
            assert(reps3.get(o) == reps2.get(o));
            assert(reps2.get(o) == reps1.get(o));
            assert(reps1.get(o) == reps0.get(o));
        }
        let bts = badge_timestamp@;
        let pre_a = seq![(timestamp@, "invite"@, RECORD_INVITE_BONUS as i64, "邀请节点 "@ + b)];
        let pre_b = seq![(timestamp@, "joined"@, RECORD_JOIN_BONUS as i64, "通过邀请码 "@ + code@ + " 加入"@)];
        assert(node_after(reps0, reps1, a, RECORD_INVITE_BONUS as int, 1, pre_a, Seq::empty(), bts));
        if a != b {
            assert(reps2.get(a) == reps1.get(a));
            assert(reps3.get(b) == reps2.get(b));
            assert(reps1.get(b) == reps0.get(b));
            assert(node_after(reps1, reps2, b, RECORD_JOIN_BONUS as int, 0, pre_b, Seq::empty(), bts));
            assert(node_after(reps0, reps2, a, RECORD_INVITE_BONUS as int, 1, pre_a, Seq::empty(), bts));
            lemma_node_after_then(
                reps0, reps2, reps3, a, RECORD_INVITE_BONUS as int, 1, pre_a, 0, 0, Seq::empty(),
                due_list(reps2.invites_of(a), reps2.badges_of(a)), bts,
            );
            assert(pre_a + Seq::<(Seq<char>, Seq<char>, i64, Seq<char>)>::empty() =~= pre_a);
            assert(node_after(reps0, reps3, b, RECORD_JOIN_BONUS as int, 0, pre_b, Seq::empty(), bts));
            lemma_node_after_then(
                reps0, reps3, *reps, b, RECORD_JOIN_BONUS as int, 0, pre_b, 0, 0, Seq::empty(),
                due_list(reps3.invites_of(b), reps3.badges_of(b)), bts,
            );
            assert(pre_b + Seq::<(Seq<char>, Seq<char>, i64, Seq<char>)>::empty() =~= pre_b);
        } else {
            assert(node_after(reps1, reps2, a, RECORD_JOIN_BONUS as int, 0, pre_b, Seq::empty(), bts));
            lemma_node_after_then(
                reps0, reps1, reps2, a, RECORD_INVITE_BONUS as int, 1, pre_a, RECORD_JOIN_BONUS as int, 0, pre_b,
                Seq::empty(), bts,
            );
            let d1 = due_list(reps2.invites_of(a), reps2.badges_of(a));
            lemma_node_after_then(
                reps0, reps2, reps3, a, RECORD_INVITE_BONUS + RECORD_JOIN_BONUS, 1, pre_a + pre_b, 0, 0,
                Seq::empty(), d1, bts,
            );
            assert(pre_a + pre_b + Seq::<(Seq<char>, Seq<char>, i64, Seq<char>)>::empty() =~= pre_a + pre_b);
            let d2 = due_list(reps3.invites_of(a), reps3.badges_of(a));
            lemma_node_after_more_badges(
                reps0, reps3, *reps, a, RECORD_INVITE_BONUS + RECORD_JOIN_BONUS, 1, pre_a + pre_b, d1, d2, bts,
            );
            assert(pre_a + pre_b =~= seq![
                (timestamp@, "invite"@, RECORD_INVITE_BONUS as i64, "邀请节点 "@ + b),
                (timestamp@, "joined"@, RECORD_JOIN_BONUS as i64, "通过邀请码 "@ + code@ + " 加入"@),
            ]);
        }
    }
    CodeUse::Accepted(inviter)
}

/// After the record at `i` changed without changing its key: the book is
/// well formed, the key finds the new record, other keys what they found.
proof fn lemma_invite_updated(before: InviteDb, after: InviteDb, i: int)
    requires
        before.wf(),
        0 <= i < before.entries@.len(),
        after.entries@.len() == before.entries@.len(),
        after.entries@[i].0 == before.entries@[i].0,
        forall|j: int| 0 <= j < before.entries@.len() && j != i ==> after.entries@[j] == before.entries@[j],
    ensures
        after.wf(),
        after.get(before.entries@[i].0@) == Some(after.entries@[i].1),
        forall|o: Seq<char>| o != before.entries@[i].0@ ==> #[trigger] after.get(o) == before.get(o),
{
    let kb = invite_keys(before.entries@);
    let ka = invite_keys(after.entries@);
    lemma_keyed_update(before.entries@, after.entries@, kb, ka, i, before.entries@[i].0@);
    assert forall|o: Seq<char>| o != before.entries@[i].0@ implies #[trigger] after.get(o) == before.get(o) by {
        assert(lookup_keyed(after.entries@, ka, o) == lookup_keyed(before.entries@, kb, o));
    }
}

/// A new invitation record for `node_id`, issued at `now` with random
/// number `nonce`: its code is `code_text` of the seed, it expires a week
/// later, unused, unlimited and active.
pub fn new_invite_record(node_id: &str, now: u64, nonce: u64) -> (r: InviteRecord)
    requires
        now + CODE_LIFETIME <= u64::MAX,
    ensures
        r.code@ == code_text(code_seed(node_id.spec_bytes(), now, nonce)),
        r.code@.len() == 8,
        r.inviter@ == node_id@,
        r.created_at == now,
        r.expires_at == now + CODE_LIFETIME,
        r.uses == 0,
        r.max_uses == 0,
        r.active,
{
    InviteRecord {
        code: invite_code(node_id, now, nonce),
        inviter: String::from_str(node_id),
        created_at: now,
        expires_at: now + CODE_LIFETIME,
        uses: 0,
        max_uses: 0,
        active: true,
    }
}

/// Issues an invitation record for `node_id` at the time of the system
/// clock and from a random number (see `new_invite_record`).
pub fn issue_invite_record(node_id: &str) -> (r: InviteRecord)
    ensures
        exists|nonce: u64| r.code@ == code_text(#[trigger] code_seed(node_id.spec_bytes(), r.created_at, nonce)),
        r.code@.len() == 8,
        r.inviter@ == node_id@,
        r.expires_at == r.created_at + CODE_LIFETIME,
        r.uses == 0,
        r.max_uses == 0,
        r.active,
{
    let clock = now_secs();
    let now = if clock <= u64::MAX - CODE_LIFETIME { clock } else { u64::MAX - CODE_LIFETIME };
    let nonce = random_u64();
    new_invite_record(node_id, now, nonce)
}

/// Each record's score paired with its position.
pub open spec fn record_scores(s: Seq<(String, ReputationRecord)>) -> Seq<(u64, usize)> {
    Seq::new(s.len(), |i: int| (s[i].1.score, i as usize))
}

impl ReputationDb {
    /// The `top_n` nodes with the highest scores, highest first; nodes with
    /// equal scores keep the book's order. Each node is listed at most once,
    /// and every node left out scores at most the last one listed.
    pub fn leaderboard(&self, top_n: usize) -> (board: Vec<(&str, &ReputationRecord)>)
        ensures
            ({
                let order = sort_desc(record_scores(self.entries@));
                let n = if top_n < self.entries@.len() { top_n as int } else { self.entries@.len() as int };
                &&& board@.len() == n
                &&& forall|t: int|
                    0 <= t < n ==> *(#[trigger] board@[t]).1 == self.entries@[order[t].1 as int].1 && board@[t].0@
                        == self.entries@[order[t].1 as int].0@
                &&& forall|a: int, b: int| 0 <= a < b < n ==> board@[a].1.score >= board@[b].1.score
                &&& forall|a: int, b: int| 0 <= a < b < n ==> order[a].1 != order[b].1
                &&& forall|i: int|
                    0 <= i < self.entries@.len() && (forall|t: int| 0 <= t < n ==> order[t].1 != i) ==> n == 0
                        || self.entries@[i].1.score <= board@[n - 1].1.score
            }),
    {
        let mut keyed: Vec<(u64, usize)> = Vec::new();
        let mut i: usize = 0;
        while i < self.entries.len()
            invariant
                i <= self.entries@.len(),
                keyed@ == record_scores(self.entries@).take(i as int),
            decreases self.entries@.len() - i,
        {
            keyed.push((self.entries[i].1.score, i));
            i = i + 1;
            assert(keyed@ =~= record_scores(self.entries@).take(i as int));
        }
        assert(keyed@ =~= record_scores(self.entries@));
        let sorted = stable_sort_desc(keyed);
        let ghost order = sort_desc(record_scores(self.entries@));
        proof {
            crate::sorting::lemma_sort_desc_is_desc(record_scores(self.entries@));
            lemma_record_positions(record_scores(self.entries@), self.entries@);
            let keyed = record_scores(self.entries@);
            crate::sorting::lemma_sort_desc_ranks_positions(keyed);
            assert forall|i: int| #![trigger self.entries@[i]] 0 <= i < self.entries@.len() implies exists|t: int|
                0 <= t < order.len() && (#[trigger] order[t]).1 == i && order[t].0 == self.entries@[i].1.score by {
                let t = crate::sorting::rank_of(keyed, i);
                assert(keyed[i] == (self.entries@[i].1.score, i as usize));
                assert(0 <= t < order.len() && order[t] == keyed[i]);
            }
        }
        let limit = if top_n < sorted.len() { top_n } else { sorted.len() };
        let mut board: Vec<(&str, &ReputationRecord)> = Vec::new();
        let mut j: usize = 0;
        while j < limit
            invariant
                limit <= sorted@.len(),
                sorted@ == order,
                sorted@.len() == self.entries@.len(),
                forall|t: int|
                    0 <= t < sorted@.len() ==> (#[trigger] sorted@[t]).1 < self.entries@.len() && sorted@[t].0
                        == self.entries@[sorted@[t].1 as int].1.score,
                j <= limit,
                board@.len() == j,
                forall|t: int|
                    0 <= t < j ==> *(#[trigger] board@[t]).1 == self.entries@[order[t].1 as int].1 && board@[t].0@
                        == self.entries@[order[t].1 as int].0@,
            decreases limit - j,
        {
            let k = sorted[j].1;
            let entry = &self.entries[k];
            board.push((entry.0.as_str(), &entry.1));
            j = j + 1;
        }
        board
    }
}

/// Sorting keeps each entry's score equal to the score of the record at the
/// position it names.
proof fn lemma_record_positions(keyed: Seq<(u64, usize)>, entries: Seq<(String, ReputationRecord)>)
    requires
        keyed == record_scores(entries),
        entries.len() <= usize::MAX,
    ensures
        sort_desc(keyed).len() == entries.len(),
        forall|t: int|
            0 <= t < sort_desc(keyed).len() ==> (#[trigger] sort_desc(keyed)[t]).1 < entries.len() && sort_desc(
                keyed,
            )[t].0 == entries[sort_desc(keyed)[t].1 as int].1.score,
{
    crate::sorting::lemma_sort_desc_members(keyed);
    assert forall|t: int| 0 <= t < sort_desc(keyed).len() implies (#[trigger] sort_desc(keyed)[t]).1
        < entries.len() && sort_desc(keyed)[t].0 == entries[sort_desc(keyed)[t].1 as int].1.score by {
        assert(keyed.contains(sort_desc(keyed)[t]));
        let i = choose|i: int| 0 <= i < keyed.len() && keyed[i] == sort_desc(keyed)[t];
        assert(keyed[i] == (entries[i].1.score, i as usize));
    }
}

} // verus!
