use vstd::prelude::*;
use crate::bytes::{append_bytes, ascii_upper, dec_digits, push_decimal, str_equal, to_ascii_upper};
use vstd::string::StringSliceAdditionalSpecFns;
use crate::clock::now_secs;
use crate::digest::{hex_encode, sha256, spec_hex, spec_sha256};
use crate::entropy::random_u64;
use crate::keyed::{lookup_keyed, lemma_keyed_update, lemma_index_of_unique};
use crate::rewards::{BADGE_BONUS, INVITE_BONUS, JOIN_BONUS};
use crate::sorting::{sort_desc, stable_sort_desc, is_desc};

verus! {

/// Seconds an invitation code stays valid: seven days.
pub const CODE_LIFETIME: u64 = 604800;
/// Invitations needed for the Preacher badge.
pub const PREACHER_INVITES: u64 = 10;
/// Invitations needed for the Master badge.
pub const MASTER_INVITES: u64 = 100;
/// Seconds online needed for the Longevity badge: thirty days.
pub const LONGEVITY_SECS: u64 = 2592000;
/// Bytes stored needed for the StorageMaster badge.
pub const STORAGE_MASTER_BYTES: u64 = 1000000000;

/// An invitation code.
#[derive(Debug, Clone)]
pub struct InviteCode {
    /// Eight upper-case hexadecimal characters.
    pub code: String,
    pub inviter_id: String,
    pub created_at: u64,
    pub expires_at: u64,
    pub use_count: u32,
    /// Largest number of uses; 0 for no limit.
    pub max_uses: u32,
    pub active: bool,
}

/// Rank of a node by its reputation score.
#[derive(Debug, Clone, Copy, PartialEq, Eq, Structural, PartialOrd, Ord)]
pub enum Rank {
    Fan,
    Shi,
    Dao,
    Xuan,
    Sheng,
}

/// Badges a node can earn.
#[derive(Debug, Clone, Copy, PartialEq, Eq, Structural)]
pub enum Badge {
    Genesis,
    Preacher,
    Master,
    StorageMaster,
    Longevity,
    Tai,
}

/// One entry of a node's reputation history.
#[derive(Debug, Clone)]
pub struct ReputationEvent {
    pub timestamp: u64,
    pub event_type: String,
    pub delta: i64,
    pub description: String,
}

/// A node's reputation.
#[derive(Debug, Clone)]
pub struct NodeReputation {
    pub node_id: String,
    pub score: u64,
    pub invites_sent: u64,
    pub storage_bytes: u64,
    pub uptime_secs: u64,
    pub rank: Rank,
    pub badges: Vec<Badge>,
    pub history: Vec<ReputationEvent>,
}

/// The rank for a score: Fan below 10, Shi below 50, Dao below 200, Xuan
/// below 1000, Sheng from 1000 on.
pub open spec fn spec_rank(score: u64) -> Rank {
    if score <= 9 {
        Rank::Fan
    } else if score <= 49 {
        Rank::Shi
    } else if score <= 199 {
        Rank::Dao
    } else if score <= 999 {
        Rank::Xuan
    } else {
        Rank::Sheng
    }
}

impl Rank {
    /// The rank for a score.
    pub fn from_score(score: u64) -> (r: Self)
        ensures
            r == spec_rank(score),
    {
        if score <= 9 {
            Rank::Fan
        } else if score <= 49 {
            Rank::Shi
        } else if score <= 199 {
            Rank::Dao
        } else if score <= 999 {
            Rank::Xuan
        } else {
            Rank::Sheng
        }
    }

    /// The rank's title.
    pub fn title(&self) -> (t: &str)
        ensures
            t@ == match *self {
                Rank::Fan => "凡 (学徒)"@,
                Rank::Shi => "士 (修士)"@,
                Rank::Dao => "道 (得道者)"@,
                Rank::Xuan => "玄 (玄妙境)"@,
                Rank::Sheng => "圣 (圣人)"@,
            },
    {
        match self {
            Rank::Fan => "凡 (学徒)",
            Rank::Shi => "士 (修士)",
            Rank::Dao => "道 (得道者)",
            Rank::Xuan => "玄 (玄妙境)",
            Rank::Sheng => "圣 (圣人)",
        }
    }
}

/// The invitation and reputation book of the network.
pub struct InviteSystem {
    /// Invitation codes, one per code text.
    pub codes: Vec<InviteCode>,
    /// Reputations, one per node.
    pub reputations: Vec<NodeReputation>,
}

/// The code texts, in order.
pub open spec fn code_keys(s: Seq<InviteCode>) -> Seq<Seq<char>> {
    s.map_values(|c: InviteCode| c.code@)
}

/// The node ids, in order.
pub open spec fn rep_keys(s: Seq<NodeReputation>) -> Seq<Seq<char>> {
    s.map_values(|r: NodeReputation| r.node_id@)
}

/// A history event with the given fields.
pub open spec fn event_is(e: ReputationEvent, ts: u64, ty: Seq<char>, delta: i64, desc: Seq<char>) -> bool {
    &&& e.timestamp == ts
    &&& e.event_type@ == ty
    &&& e.delta == delta
    &&& e.description@ == desc
}

/// `after` is `before` with one more event at its end.
pub open spec fn appended(before: Seq<ReputationEvent>, after: Seq<ReputationEvent>) -> bool {
    after.len() == before.len() + 1 && after.drop_last() == before
}

/// The fields of a reputation besides its id and history: score, invites,
/// bytes stored, seconds online, rank and badges.
pub struct RepFields {
    pub score: u64,
    pub invites_sent: u64,
    pub storage_bytes: u64,
    pub uptime_secs: u64,
    pub rank: Rank,
    pub badges: Seq<Badge>,
}

/// The fields of `r` besides its id and history.
pub open spec fn fields_of(r: NodeReputation) -> RepFields {
    RepFields {
        score: r.score,
        invites_sent: r.invites_sent,
        storage_bytes: r.storage_bytes,
        uptime_secs: r.uptime_secs,
        rank: r.rank,
        badges: r.badges@,
    }
}

/// The badges a reputation earns now, in the order they are checked:
/// Preacher (10 invitations), Master (100 invitations), Longevity (30 days
/// online), StorageMaster (10^9 bytes stored); each only when not held yet.
pub open spec fn earned(b: RepFields) -> Seq<Badge> {
    (if b.invites_sent >= PREACHER_INVITES && !b.badges.contains(Badge::Preacher) {
        seq![Badge::Preacher]
    } else {
        Seq::empty()
    }) + (if b.invites_sent >= MASTER_INVITES && !b.badges.contains(Badge::Master) {
        seq![Badge::Master]
    } else {
        Seq::empty()
    }) + (if b.uptime_secs >= LONGEVITY_SECS && !b.badges.contains(Badge::Longevity) {
        seq![Badge::Longevity]
    } else {
        Seq::empty()
    }) + (if b.storage_bytes >= STORAGE_MASTER_BYTES && !b.badges.contains(Badge::StorageMaster) {
        seq![Badge::StorageMaster]
    } else {
        Seq::empty()
    })
}

/// Badges are awarded once: adding the badges a reputation has earned keeps
/// its badges free of repeats, and a second check (with nothing else
/// changed) earns nothing more.
pub proof fn lemma_badges_awarded_once(b: RepFields)
    ensures
        b.badges.no_duplicates() ==> (b.badges + earned(b)).no_duplicates(),
        earned(RepFields { badges: b.badges + earned(b), ..b }).len() == 0,
{
    let e = earned(b);
    let all = b.badges + e;
    assert forall|x: Badge| e.contains(x) implies !b.badges.contains(x) by {
        let i = choose|i: int| 0 <= i < e.len() && e[i] == x;
    }
    assert forall|i: int, j: int| 0 <= i < j < e.len() implies e[i] != e[j] by {}
    if b.badges.no_duplicates() {
        assert forall|i: int, j: int| 0 <= i < j < all.len() implies all[i] != all[j] by {
            if j >= b.badges.len() {
                if i < b.badges.len() {
                    assert(e.contains(all[j]));
                    assert(b.badges.contains(all[i]));
                } else {
                    assert(all[i] == e[i - b.badges.len()]);
                    assert(all[j] == e[j - b.badges.len()]);
                }
            }
        }
    }
    let after = RepFields { badges: all, ..b };
    assert forall|x: Badge| e.contains(x) implies #[trigger] all.contains(x) by {
        let i = choose|i: int| 0 <= i < e.len() && e[i] == x;
        assert(all[b.badges.len() + i] == x);
    }
    assert forall|x: Badge| b.badges.contains(x) implies #[trigger] all.contains(x) by {
        let i = choose|i: int| 0 <= i < b.badges.len() && b.badges[i] == x;
        assert(all[i] == x);
    }
    let p1 = if b.invites_sent >= PREACHER_INVITES && !b.badges.contains(Badge::Preacher) {
        seq![Badge::Preacher]
    } else {
        Seq::empty()
    };
    let p2 = if b.invites_sent >= MASTER_INVITES && !b.badges.contains(Badge::Master) {
        seq![Badge::Master]
    } else {
        Seq::empty()
    };
    let p3 = if b.uptime_secs >= LONGEVITY_SECS && !b.badges.contains(Badge::Longevity) {
        seq![Badge::Longevity]
    } else {
        Seq::empty()
    };
    let p4 = if b.storage_bytes >= STORAGE_MASTER_BYTES && !b.badges.contains(Badge::StorageMaster) {
        seq![Badge::StorageMaster]
    } else {
        Seq::empty()
    };
    assert(e =~= p1 + p2 + p3 + p4);
    if p1.len() > 0 {
        assert(e[0] == Badge::Preacher);
    }
    if p2.len() > 0 {
        assert(e[p1.len() as int] == Badge::Master);
    }
    if p3.len() > 0 {
        assert(e[(p1.len() + p2.len()) as int] == Badge::Longevity);
    }
    if p4.len() > 0 {
        assert(e[(p1.len() + p2.len() + p3.len()) as int] == Badge::StorageMaster);
    }
    assert(earned(after) =~= Seq::<Badge>::empty());
}

/// The name of a badge.
pub open spec fn badge_name(b: Badge) -> Seq<char> {
    match b {
        Badge::Genesis => "Genesis"@,
        Badge::Preacher => "Preacher"@,
        Badge::Master => "Master"@,
        Badge::StorageMaster => "StorageMaster"@,
        Badge::Longevity => "Longevity"@,
        Badge::Tai => "Tai"@,
    }
}

/// The history text of earning a badge.
pub open spec fn badge_text(b: Badge) -> Seq<char> {
    "获得徽章: "@ + badge_name(b)
}

/// The bytes hashed for a new code: the inviter's id, the time and a random
/// number in decimal, separated by colons.
pub open spec fn code_seed(inviter: Seq<u8>, now: u64, nonce: u64) -> Seq<u8> {
    inviter + seq![58u8] + dec_digits(now as nat) + seq![58u8] + dec_digits(nonce as nat)
}

/// The code text for a seed: the first four bytes of its SHA-256 digest in
/// upper-case hexadecimal.
pub open spec fn code_text(seed: Seq<u8>) -> Seq<char> {
    ascii_upper(spec_hex(spec_sha256(seed).take(4)))
}

/// The code text issued to `inviter_id` at time `now` with random number
/// `nonce` (see `code_text` and `code_seed`).
pub fn invite_code(inviter_id: &str, now: u64, nonce: u64) -> (code: String)
    ensures
        code@ == code_text(code_seed(inviter_id.spec_bytes(), now, nonce)),
        code@.len() == 8,
{
    let mut seed: Vec<u8> = Vec::new();
    append_bytes(&mut seed, inviter_id.as_bytes());
    seed.push(58u8);
    push_decimal(&mut seed, now);
    seed.push(58u8);
    push_decimal(&mut seed, nonce);
    assert(seed@ =~= code_seed(inviter_id.spec_bytes(), now, nonce));
    let digest = sha256(seed.as_slice());
    let mut head: Vec<u8> = Vec::new();
    let mut i: usize = 0;
    while i < 4
        invariant
            i <= 4,
            digest@.len() == 32,
            head@ == digest@.take(i as int),
        decreases 4 - i,
    {
        head.push(digest[i]);
        i = i + 1;
        assert(head@ =~= digest@.take(i as int));
    }
    let hex = hex_encode(head.as_slice());
    proof {
        crate::digest::lemma_hex_len(head@);
    }
    to_ascii_upper(hex.as_str())
}

/// Each reputation's score paired with its position.
pub open spec fn score_keyed(s: Seq<NodeReputation>) -> Seq<(u64, usize)> {
    Seq::new(s.len(), |i: int| (s[i].score, i as usize))
}

/// Sorting keeps each entry's score equal to the score at the position it
/// names.
proof fn lemma_sort_desc_positions(keyed: Seq<(u64, usize)>, reps: Seq<NodeReputation>)
    requires
        keyed == score_keyed(reps),
        reps.len() <= usize::MAX,
    ensures
        sort_desc(keyed).len() == reps.len(),
        forall|t: int|
            0 <= t < sort_desc(keyed).len() ==> (#[trigger] sort_desc(keyed)[t]).1 < reps.len() && sort_desc(
                keyed,
            )[t].0 == reps[sort_desc(keyed)[t].1 as int].score,
{
    crate::sorting::lemma_sort_desc_members(keyed);
    assert forall|t: int| 0 <= t < sort_desc(keyed).len() implies (#[trigger] sort_desc(keyed)[t]).1 < reps.len()
        && sort_desc(keyed)[t].0 == reps[sort_desc(keyed)[t].1 as int].score by {
        assert(keyed.contains(sort_desc(keyed)[t]));
        let i = choose|i: int| 0 <= i < keyed.len() && keyed[i] == sort_desc(keyed)[t];
        assert(keyed[i] == (reps[i].score, i as usize));
    }
}

/// The descending order of the book's scores lists every node exactly once.
proof fn lemma_sort_desc_ranks(keyed: Seq<(u64, usize)>, reps: Seq<NodeReputation>)
    requires
        keyed == score_keyed(reps),
        reps.len() <= usize::MAX,
    ensures
        forall|a: int, b: int|
            0 <= a < b < sort_desc(keyed).len() ==> (#[trigger] sort_desc(keyed)[a]).1 != (#[trigger] sort_desc(
                keyed,
            )[b]).1,
        forall|i: int|
            #![trigger reps[i]]
            0 <= i < reps.len() ==> exists|t: int|
                0 <= t < sort_desc(keyed).len() && (#[trigger] sort_desc(keyed)[t]).1 == i && sort_desc(keyed)[t].0
                    == reps[i].score,
{
    crate::sorting::lemma_sort_desc_ranks_positions(keyed);
    assert forall|i: int| #![trigger reps[i]] 0 <= i < reps.len() implies exists|t: int|
        0 <= t < sort_desc(keyed).len() && (#[trigger] sort_desc(keyed)[t]).1 == i && sort_desc(keyed)[t].0
            == reps[i].score by {
        let t = crate::sorting::rank_of(keyed, i);
        assert(keyed[i] == (reps[i].score, i as usize));
        assert(0 <= t < sort_desc(keyed).len() && sort_desc(keyed)[t] == keyed[i]);
    }
}

/// `cur` is the reputation `b` (with history `h0`) after the badges `got`
/// were awarded at `now`, in order.
pub open spec fn awarded(b: RepFields, h0: Seq<ReputationEvent>, cur: NodeReputation, got: Seq<Badge>, now: u64) -> bool {
    &&& cur.score == b.score + BADGE_BONUS * got.len()
    &&& cur.rank == spec_rank(cur.score)
    &&& cur.invites_sent == b.invites_sent
    &&& cur.storage_bytes == b.storage_bytes
    &&& cur.uptime_secs == b.uptime_secs
    &&& cur.badges@ == b.badges + got
    &&& cur.history@.len() == h0.len() + got.len()
    &&& cur.history@.take(h0.len() as int) == h0
    &&& forall|i: int|
        0 <= i < got.len() ==> event_is(
            #[trigger] cur.history@[h0.len() + i],
            now,
            "badge_earned"@,
            BADGE_BONUS as i64,
            badge_text(got[i]),
        )
}

/// The name of a badge.
pub fn badge_label(b: Badge) -> (s: &'static str)
    ensures
        s@ == badge_name(b),
{
    match b {
        Badge::Genesis => "Genesis",
        Badge::Preacher => "Preacher",
        Badge::Master => "Master",
        Badge::StorageMaster => "StorageMaster",
        Badge::Longevity => "Longevity",
        Badge::Tai => "Tai",
    }
}

/// Whether `badge` is among `badges`.
fn has_badge(badges: &Vec<Badge>, badge: Badge) -> (r: bool)
    ensures
        r == badges@.contains(badge),
{
    let mut i: usize = 0;
    while i < badges.len()
        invariant
            i <= badges@.len(),
            forall|j: int| 0 <= j < i ==> badges@[j] != badge,
        decreases badges@.len() - i,
    {
        if badges[i] == badge {
            assert(badges@[i as int] == badge);
            return true;
        }
        i = i + 1;
    }
    false
}

/// Awards `badge` at `now`: the badge, a "badge_earned" event, and the bonus.
fn award(rep: &mut NodeReputation, badge: Badge, now: u64, Ghost(b): Ghost<RepFields>, Ghost(h0): Ghost<
    Seq<ReputationEvent>,
>, Ghost(got): Ghost<Seq<Badge>>)
    requires
        awarded(b, h0, *old(rep), got, now),
        old(rep).score + BADGE_BONUS <= u64::MAX,
    ensures
        awarded(b, h0, *final(rep), got.push(badge), now),
        final(rep).node_id == old(rep).node_id,
{
    let ghost hist = rep.history@;
    rep.badges.push(badge);
    let mut description = String::from_str("获得徽章: ");
    description.append(badge_label(badge));
    rep.history.push(
        ReputationEvent {
            timestamp: now,
            event_type: String::from_str("badge_earned"),
            delta: BADGE_BONUS as i64,
            description,
        },
    );
    rep.score = rep.score + BADGE_BONUS;
    rep.rank = Rank::from_score(rep.score);
    proof {
        let g2 = got.push(badge);
        assert(rep.badges@ =~= b.badges + g2);
        assert(rep.history@.take(h0.len() as int) =~= h0) by {
            assert(hist.take(h0.len() as int) == h0);
        }
        assert forall|i: int| 0 <= i < g2.len() implies event_is(
            #[trigger] rep.history@[h0.len() + i],
            now,
            "badge_earned"@,
            BADGE_BONUS as i64,
            badge_text(g2[i]),
        ) by {
            if i < got.len() {
                assert(rep.history@[h0.len() + i] == hist[h0.len() + i]);
            }
        }
    }
}

/// The fields `b` with one more invitation sent.
pub open spec fn with_invite(b: RepFields) -> RepFields {
    RepFields { invites_sent: (b.invites_sent + 1) as u64, ..b }
}

/// From position `start` on, `h` holds exactly one "badge_earned" event at
/// `now` for each badge of `got`, in order.
pub open spec fn badge_events(h: Seq<ReputationEvent>, start: int, got: Seq<Badge>, now: u64) -> bool {
    &&& h.len() == start + got.len()
    &&& forall|i: int|
        0 <= i < got.len() ==> event_is(
            #[trigger] h[start + i],
            now,
            "badge_earned"@,
            BADGE_BONUS as i64,
            badge_text(got[i]),
        )
}

/// What using code `code` for `new_node` at time `now` does to the system
/// `before`, giving `after` and the outcome `r`: refused, in this order, when
/// the code is unknown ("邀请码无效"), inactive ("邀请码已失效"), expired
/// ("邀请码已过期"; the code is then deactivated) or used up ("邀请码已达使用上限");
/// otherwise the use is counted, the inviter's invitations grow by one, the
/// inviter gains the invitation bonus and then the badges it has earned with
/// that invitation counted, the new node the joining bonus, each with its
/// history entries, and the inviter's id is returned.
pub open spec fn use_code_outcome(
    before: InviteSystem,
    after: InviteSystem,
    code: Seq<char>,
    new_node: Seq<char>,
    now: u64,
    r: Result<String, String>,
) -> bool {
    match before.code_of(code) {
        None => (r matches Err(e) && e@ == "邀请码无效"@) && after.codes@ == before.codes@
            && after.reputations@ == before.reputations@,
        Some(c) => if !c.active {
            (r matches Err(e) && e@ == "邀请码已失效"@) && after.codes@ == before.codes@
                && after.reputations@ == before.reputations@
        } else if now > c.expires_at {
            (r matches Err(e) && e@ == "邀请码已过期"@) && after.code_of(code) == Some(
                (InviteCode { active: false, ..c }),
            ) && after.reputations@ == before.reputations@
        } else if c.max_uses > 0 && c.use_count >= c.max_uses {
            (r matches Err(e) && e@ == "邀请码已达使用上限"@) && after.codes@ == before.codes@
                && after.reputations@ == before.reputations@
        } else {
            let inv = c.inviter_id@;
            let nw = new_node;
            let b = with_invite(before.fields(inv));
            let bn = before.fields(nw);
            let got = earned(b);
            let k = got.len();
            let hi = before.history(inv);
            let hn = before.history(nw);
            &&& r matches Ok(i) && i@ == inv
            &&& after.code_of(code) == Some((InviteCode { use_count: (c.use_count + 1) as u32, ..c }))
            &&& inv != nw ==> after.fields(inv) == (RepFields {
                score: (b.score + INVITE_BONUS + BADGE_BONUS * k) as u64,
                rank: spec_rank((b.score + INVITE_BONUS + BADGE_BONUS * k) as u64),
                badges: b.badges + got,
                ..b
            })
            &&& inv != nw ==> after.fields(nw) == (RepFields {
                score: (bn.score + JOIN_BONUS) as u64,
                rank: spec_rank((bn.score + JOIN_BONUS) as u64),
                ..bn
            })
            &&& inv == nw ==> after.fields(inv) == (RepFields {
                score: (b.score + INVITE_BONUS + JOIN_BONUS + BADGE_BONUS * k) as u64,
                rank: spec_rank((b.score + INVITE_BONUS + JOIN_BONUS + BADGE_BONUS * k) as u64),
                badges: b.badges + got,
                ..b
            })
            &&& inv != nw ==> appended(hn, after.history(nw)) && event_is(
                after.history(nw).last(),
                now,
                "reputation_gained"@,
                JOIN_BONUS as i64,
                "通过邀请码 "@ + code + " 加入"@,
            )
            &&& inv != nw ==> after.history(inv).take(hi.len() as int) == hi && event_is(
                after.history(inv)[hi.len() as int],
                now,
                "reputation_gained"@,
                INVITE_BONUS as i64,
                "邀请节点 "@ + nw,
            ) && badge_events(after.history(inv), hi.len() as int + 1, got, now)
            &&& inv == nw ==> after.history(inv).take(hi.len() as int) == hi && event_is(
                after.history(inv)[hi.len() as int],
                now,
                "reputation_gained"@,
                INVITE_BONUS as i64,
                "邀请节点 "@ + nw,
            ) && event_is(
                after.history(inv)[hi.len() as int + 1],
                now,
                "reputation_gained"@,
                JOIN_BONUS as i64,
                "通过邀请码 "@ + code + " 加入"@,
            ) && badge_events(after.history(inv), hi.len() as int + 2, got, now)
            &&& forall|o: Seq<char>|
                o != inv && o != nw ==> #[trigger] after.rep_of(o) == before.rep_of(o)
        },
    }
}

impl InviteSystem {
    /// Code texts are distinct, node ids are distinct, and every rank agrees
    /// with its score.
    pub open spec fn wf(&self) -> bool {
        &&& code_keys(self.codes@).no_duplicates()
        &&& rep_keys(self.reputations@).no_duplicates()
        &&& forall|i: int|
            0 <= i < self.reputations@.len() ==> (#[trigger] self.reputations@[i]).rank == spec_rank(
                self.reputations@[i].score,
            )
    }

    /// The code with text `code`, if any.
    pub open spec fn code_of(&self, code: Seq<char>) -> Option<InviteCode> {
        lookup_keyed(self.codes@, code_keys(self.codes@), code)
    }

    /// The reputation of node `id`, if any.
    pub open spec fn rep_of(&self, id: Seq<char>) -> Option<NodeReputation> {
        lookup_keyed(self.reputations@, rep_keys(self.reputations@), id)
    }

    /// The fields of node `id`'s reputation; those of a fresh one (all zero,
    /// rank Fan, no badges) when the node is unknown.
    pub open spec fn fields(&self, id: Seq<char>) -> RepFields {
        match self.rep_of(id) {
            Some(r) => fields_of(r),
            None => RepFields {
                score: 0,
                invites_sent: 0,
                storage_bytes: 0,
                uptime_secs: 0,
                rank: Rank::Fan,
                badges: Seq::empty(),
            },
        }
    }

    /// Node `id`'s history; empty when the node is unknown.
    pub open spec fn history(&self, id: Seq<char>) -> Seq<ReputationEvent> {
        match self.rep_of(id) {
            Some(r) => r.history@,
            None => Seq::empty(),
        }
    }

    /// An empty book.
    pub fn new() -> (s: Self)
        ensures
            s.wf(),
            s.codes@.len() == 0,
            s.reputations@.len() == 0,
    {
        let s = Self { codes: Vec::new(), reputations: Vec::new() };
        assert(code_keys(s.codes@) =~= Seq::<Seq<char>>::empty());
        assert(rep_keys(s.reputations@) =~= Seq::<Seq<char>>::empty());
        s
    }

    /// Position of the code with text `code`.
    fn code_index(&self, code: &str) -> (r: Option<usize>)
        ensures
            match r {
                Some(i) => i < self.codes@.len() && self.codes@[i as int].code@ == code@,
                None => !code_keys(self.codes@).contains(code@),
            },
    {
        let mut i: usize = 0;
        while i < self.codes.len()
            invariant
                i <= self.codes@.len(),
                forall|j: int| 0 <= j < i ==> self.codes@[j].code@ != code@,
            decreases self.codes@.len() - i,
        {
            if str_equal(self.codes[i].code.as_str(), code) {
                return Some(i);
            }
            i = i + 1;
        }
        proof {
            if code_keys(self.codes@).contains(code@) {
                let j = code_keys(self.codes@).index_of(code@);
                assert(self.codes@[j].code@ == code@);
            }
        }
        None
    }

    /// Position of the reputation of node `id`.
    fn rep_index(&self, id: &str) -> (r: Option<usize>)
        ensures
            match r {
                Some(i) => i < self.reputations@.len() && self.reputations@[i as int].node_id@ == id@,
                None => !rep_keys(self.reputations@).contains(id@),
            },
    {
        let mut i: usize = 0;
        while i < self.reputations.len()
            invariant
                i <= self.reputations@.len(),
                forall|j: int| 0 <= j < i ==> self.reputations@[j].node_id@ != id@,
            decreases self.reputations@.len() - i,
        {
            if str_equal(self.reputations[i].node_id.as_str(), id) {
                return Some(i);
            }
            i = i + 1;
        }
        proof {
            if rep_keys(self.reputations@).contains(id@) {
                let j = rep_keys(self.reputations@).index_of(id@);
                assert(self.reputations@[j].node_id@ == id@);
            }
        }
        None
    }

    /// The reputation of node `id`, created fresh (all zero, rank Fan, no
    /// badges, no history) when the node is unknown.
    fn rep_entry(&mut self, id: &str) -> (r: &mut NodeReputation)
        requires
            old(self).wf(),
        ensures
            r.node_id@ == id@,
            fields_of(*r) == old(self).fields(id@),
            r.history@ == old(self).history(id@),
            final(self).codes@ == old(self).codes@,
            ({
                let ks = rep_keys(old(self).reputations@);
                let idx = if ks.contains(id@) { ks.index_of(id@) } else { old(self).reputations@.len() as int };
                &&& 0 <= idx <= old(self).reputations@.len()
                &&& final(self).reputations@.len() == if idx < old(self).reputations@.len() {
                    old(self).reputations@.len()
                } else {
                    old(self).reputations@.len() + 1
                }
                &&& final(self).reputations@[idx] == *final(r)
                &&& forall|j: int|
                    0 <= j < old(self).reputations@.len() && j != idx ==> final(self).reputations@[j]
                        == old(self).reputations@[j]
            }),
    {
        match self.rep_index(id) {
            Some(i) => {
                proof {
                    lemma_index_of_unique(rep_keys(self.reputations@), i as int);
                }
                &mut self.reputations[i]
            },
            None => {
                let fresh = NodeReputation {
                    node_id: String::from_str(id),
                    score: 0,
                    invites_sent: 0,
                    storage_bytes: 0,
                    uptime_secs: 0,
                    rank: Rank::Fan,
                    badges: Vec::new(),
                    history: Vec::new(),
                };
                proof {
                    assert(fields_of(fresh).badges =~= Seq::<Badge>::empty());
                }
                let n = self.reputations.len();
                self.reputations.push(fresh);
                &mut self.reputations[n]
            },
        }
    }

    /// After `rep_entry(id)` and an update of the returned reputation that
    /// kept its id and a rank that agrees with its score: the book is well
    /// formed, `id` finds the updated reputation and every other node finds
    /// what it found before.
    proof fn lemma_rep_updated(&self, before: Seq<NodeReputation>, id: Seq<char>)
        requires
            rep_keys(before).no_duplicates(),
            forall|i: int| 0 <= i < before.len() ==> (#[trigger] before[i]).rank == spec_rank(before[i].score),
            code_keys(self.codes@).no_duplicates(),
            ({
                let ks = rep_keys(before);
                let idx = if ks.contains(id) { ks.index_of(id) } else { before.len() as int };
                &&& self.reputations@.len() == if idx < before.len() { before.len() } else { before.len() + 1 }
                &&& self.reputations@[idx].node_id@ == id
                &&& self.reputations@[idx].rank == spec_rank(self.reputations@[idx].score)
                &&& forall|j: int| 0 <= j < before.len() && j != idx ==> self.reputations@[j] == before[j]
            }),
        ensures
            self.wf(),
            self.rep_of(id) == Some(self.reputations@[if rep_keys(before).contains(id) {
                rep_keys(before).index_of(id)
            } else {
                before.len() as int
            }]),
            forall|o: Seq<char>| o != id ==> #[trigger] self.rep_of(o) == lookup_keyed(before, rep_keys(before), o),
    {
        let ks = rep_keys(before);
        let ka = rep_keys(self.reputations@);
        let idx = if ks.contains(id) { ks.index_of(id) } else { before.len() as int };
        if ks.contains(id) {
            assert(ks[idx] == id);
        }
        lemma_keyed_update(before, self.reputations@, ks, ka, idx, id);
        assert forall|i: int| 0 <= i < self.reputations@.len() implies (#[trigger] self.reputations@[i]).rank == spec_rank(
            self.reputations@[i].score,
        ) by {
            if i != idx {
                assert(self.reputations@[i] == before[i]);
            }
        }
        assert forall|o: Seq<char>| o != id implies #[trigger] self.rep_of(o) == lookup_keyed(before, rep_keys(before), o) by {
            assert(lookup_keyed(self.reputations@, ka, o) == lookup_keyed(before, ks, o));
        }
    }

    /// Adds `delta` to node `id`'s score at time `now`, records a
    /// "reputation_gained" event with `reason`, and updates the rank; an
    /// unknown node starts fresh.
    pub fn add_reputation_at(&mut self, node_id: &str, delta: u64, reason: &str, now: u64)
        requires
            old(self).wf(),
            old(self).fields(node_id@).score + delta <= u64::MAX,
        ensures
            final(self).wf(),
            final(self).codes@ == old(self).codes@,
            ({
                let b = old(self).fields(node_id@);
                let score = (b.score + delta) as u64;
                &&& final(self).rep_of(node_id@) matches Some(r) && r.node_id@ == node_id@
                &&& final(self).fields(node_id@) == (RepFields { score, rank: spec_rank(score), ..b })
                &&& appended(old(self).history(node_id@), final(self).history(node_id@))
                &&& event_is(
                    final(self).history(node_id@).last(),
                    now,
                    "reputation_gained"@,
                    delta as i64,
                    reason@,
                )
            }),
            forall|o: Seq<char>| o != node_id@ ==> #[trigger] final(self).rep_of(o) == old(self).rep_of(o),
    {
        let ghost before = self.reputations@;
        let rep = self.rep_entry(node_id);
        rep.score = rep.score + delta;
        let ghost h0 = rep.history@;
        rep.history.push(
            ReputationEvent {
                timestamp: now,
                event_type: String::from_str("reputation_gained"),
                delta: delta as i64,
                description: String::from_str(reason),
            },
        );
        rep.rank = Rank::from_score(rep.score);
        assert(rep.history@.drop_last() =~= h0);
        proof {
            self.lemma_rep_updated(before, node_id@);
        }
    }

    /// Adds `delta` to node `id`'s score now, by the system clock.
    pub fn add_reputation(&mut self, node_id: &str, delta: u64, reason: &str)
        requires
            old(self).wf(),
            old(self).fields(node_id@).score + delta <= u64::MAX,
        ensures
            final(self).wf(),
            final(self).codes@ == old(self).codes@,
            ({
                let b = old(self).fields(node_id@);
                let score = (b.score + delta) as u64;
                &&& final(self).rep_of(node_id@) matches Some(r) && r.node_id@ == node_id@
                &&& final(self).fields(node_id@) == (RepFields { score, rank: spec_rank(score), ..b })
                &&& appended(old(self).history(node_id@), final(self).history(node_id@))
                &&& final(self).history(node_id@).last().event_type@ == "reputation_gained"@
                &&& final(self).history(node_id@).last().delta == delta as i64
                &&& final(self).history(node_id@).last().description@ == reason@
            }),
            forall|o: Seq<char>| o != node_id@ ==> #[trigger] final(self).rep_of(o) == old(self).rep_of(o),
    {
        let now = now_secs();
        self.add_reputation_at(node_id, delta, reason, now);
    }

    /// Counts one more invitation sent by node `id`; an unknown node starts
    /// fresh.
    pub fn record_invite(&mut self, node_id: &str)
        requires
            old(self).wf(),
            old(self).fields(node_id@).invites_sent < u64::MAX,
        ensures
            final(self).wf(),
            final(self).codes@ == old(self).codes@,
            ({
                let b = old(self).fields(node_id@);
                &&& final(self).rep_of(node_id@) matches Some(r) && r.node_id@ == node_id@
                &&& final(self).fields(node_id@) == (RepFields { invites_sent: (b.invites_sent + 1) as u64, ..b })
                &&& final(self).history(node_id@) == old(self).history(node_id@)
            }),
            forall|o: Seq<char>| o != node_id@ ==> #[trigger] final(self).rep_of(o) == old(self).rep_of(o),
    {
        let ghost before = self.reputations@;
        let rep = self.rep_entry(node_id);
        rep.invites_sent = rep.invites_sent + 1;
        proof {
            self.lemma_rep_updated(before, node_id@);
        }
    }

    /// Records an event for node `id` at time `now`; a positive `delta` is
    /// added to the score (which then wraps at 2^64) and the rank follows.
    pub fn add_event_at(&mut self, node_id: &str, event_type: &str, delta: i64, description: &str, now: u64)
        requires
            old(self).wf(),
            delta > 0 && old(self).fields(node_id@).score <= i64::MAX ==> old(self).fields(node_id@).score + delta
                <= i64::MAX,
        ensures
            final(self).wf(),
            final(self).codes@ == old(self).codes@,
            ({
                let b = old(self).fields(node_id@);
                let score = if delta > 0 { (b.score as u64).wrapping_add(delta as u64) } else { b.score };
                &&& final(self).rep_of(node_id@) matches Some(r) && r.node_id@ == node_id@
                &&& final(self).fields(node_id@) == (if delta > 0 {
                    RepFields { score, rank: spec_rank(score), ..b }
                } else {
                    b
                })
                &&& appended(old(self).history(node_id@), final(self).history(node_id@))
                &&& event_is(final(self).history(node_id@).last(), now, event_type@, delta, description@)
            }),
            forall|o: Seq<char>| o != node_id@ ==> #[trigger] final(self).rep_of(o) == old(self).rep_of(o),
    {
        let ghost before = self.reputations@;
        let rep = self.rep_entry(node_id);
        let ghost h0 = rep.history@;
        rep.history.push(
            ReputationEvent {
                timestamp: now,
                event_type: String::from_str(event_type),
                delta,
                description: String::from_str(description),
            },
        );
        if delta > 0 {
            rep.score = rep.score.wrapping_add(delta as u64);
            rep.rank = Rank::from_score(rep.score);
        }
        assert(rep.history@.drop_last() =~= h0);
        proof {
            self.lemma_rep_updated(before, node_id@);
        }
    }

    /// Records an event for node `id` now, by the system clock.
    pub fn add_event(&mut self, node_id: &str, event_type: &str, delta: i64, description: &str)
        requires
            old(self).wf(),
            delta > 0 && old(self).fields(node_id@).score <= i64::MAX ==> old(self).fields(node_id@).score + delta
                <= i64::MAX,
        ensures
            final(self).wf(),
            final(self).codes@ == old(self).codes@,
            ({
                let b = old(self).fields(node_id@);
                let score = if delta > 0 { (b.score as u64).wrapping_add(delta as u64) } else { b.score };
                &&& final(self).rep_of(node_id@) matches Some(r) && r.node_id@ == node_id@
                &&& final(self).fields(node_id@) == (if delta > 0 {
                    RepFields { score, rank: spec_rank(score), ..b }
                } else {
                    b
                })
                &&& appended(old(self).history(node_id@), final(self).history(node_id@))
                &&& final(self).history(node_id@).last().event_type@ == event_type@
                &&& final(self).history(node_id@).last().delta == delta
                &&& final(self).history(node_id@).last().description@ == description@
            }),
            forall|o: Seq<char>| o != node_id@ ==> #[trigger] final(self).rep_of(o) == old(self).rep_of(o),
    {
        let now = now_secs();
        self.add_event_at(node_id, event_type, delta, description, now);
    }

    /// The code with text `code`, if any.
    pub fn get_code_info(&self, code: &str) -> (r: Option<&InviteCode>)
        requires
            self.wf(),
        ensures
            match r {
                Some(c) => self.code_of(code@) == Some(*c),
                None => self.code_of(code@) is None,
            },
    {
        match self.code_index(code) {
            Some(i) => {
                proof {
                    lemma_index_of_unique(code_keys(self.codes@), i as int);
                }
                Some(&self.codes[i])
            },
            None => None,
        }
    }

    /// The reputation of node `id`, if any.
    pub fn get_reputation(&self, node_id: &str) -> (r: Option<&NodeReputation>)
        requires
            self.wf(),
        ensures
            match r {
                Some(rep) => self.rep_of(node_id@) == Some(*rep),
                None => self.rep_of(node_id@) is None,
            },
    {
        match self.rep_index(node_id) {
            Some(i) => {
                proof {
                    lemma_index_of_unique(rep_keys(self.reputations@), i as int);
                }
                Some(&self.reputations[i])
            },
            None => None,
        }
    }

    /// Awards node `id`, at time `now`, every badge it has earned and not
    /// yet holds (see `earned`), each with a "badge_earned" event and the
    /// badge bonus; nothing happens for an unknown node.
    pub fn check_badges_at(&mut self, node_id: &str, now: u64)
        requires
            old(self).wf(),
            old(self).fields(node_id@).score + BADGE_BONUS * earned(old(self).fields(node_id@)).len() <= u64::MAX,
        ensures
            final(self).wf(),
            final(self).codes@ == old(self).codes@,
            old(self).rep_of(node_id@) is None ==> final(self).reputations@ == old(self).reputations@,
            old(self).rep_of(node_id@) is Some ==> (final(self).rep_of(node_id@) matches Some(r) && r.node_id@
                == node_id@ && awarded(
                old(self).fields(node_id@),
                old(self).history(node_id@),
                r,
                earned(old(self).fields(node_id@)),
                now,
            )),
            forall|o: Seq<char>| o != node_id@ ==> #[trigger] final(self).rep_of(o) == old(self).rep_of(o),
    {
        let i = match self.rep_index(node_id) {
            Some(i) => i,
            None => {
                return;
            },
        };
        proof {
            lemma_index_of_unique(rep_keys(self.reputations@), i as int);
        }
        let ghost before = self.reputations@;
        let ghost b = fields_of(self.reputations@[i as int]);
        let ghost h0 = self.reputations@[i as int].history@;
        let invites = self.reputations[i].invites_sent;
        let uptime = self.reputations[i].uptime_secs;
        let storage = self.reputations[i].storage_bytes;
        let preacher = invites >= PREACHER_INVITES && !has_badge(&self.reputations[i].badges, Badge::Preacher);
        let master = invites >= MASTER_INVITES && !has_badge(&self.reputations[i].badges, Badge::Master);
        let longevity = uptime >= LONGEVITY_SECS && !has_badge(&self.reputations[i].badges, Badge::Longevity);
        let storage_master = storage >= STORAGE_MASTER_BYTES && !has_badge(
            &self.reputations[i].badges,
            Badge::StorageMaster,
        );
        let ghost e = earned(b);
        proof {
            assert(self.reputations@[i as int].history@.take(h0.len() as int) =~= h0);
            assert(b.badges + Seq::<Badge>::empty() =~= b.badges);
        }
        let ghost mut got: Seq<Badge> = Seq::empty();
        if preacher {
            award(&mut self.reputations[i], Badge::Preacher, now, Ghost(b), Ghost(h0), Ghost(got));
            proof {
                got = got.push(Badge::Preacher);
            }
        }
        if master {
            award(&mut self.reputations[i], Badge::Master, now, Ghost(b), Ghost(h0), Ghost(got));
            proof {
                got = got.push(Badge::Master);
            }
        }
        if longevity {
            award(&mut self.reputations[i], Badge::Longevity, now, Ghost(b), Ghost(h0), Ghost(got));
            proof {
                got = got.push(Badge::Longevity);
            }
        }
        if storage_master {
            award(&mut self.reputations[i], Badge::StorageMaster, now, Ghost(b), Ghost(h0), Ghost(got));
            proof {
                got = got.push(Badge::StorageMaster);
            }
        }
        proof {
            assert(got =~= e);
            self.lemma_rep_updated(before, node_id@);
        }
    }

    /// Checks node `id`'s badges now, by the system clock.
    pub fn check_badges(&mut self, node_id: &str)
        requires
            old(self).wf(),
            old(self).fields(node_id@).score + BADGE_BONUS * earned(old(self).fields(node_id@)).len() <= u64::MAX,
        ensures
            final(self).wf(),
            final(self).codes@ == old(self).codes@,
            old(self).rep_of(node_id@) is None ==> final(self).reputations@ == old(self).reputations@,
            old(self).rep_of(node_id@) is Some ==> (final(self).rep_of(node_id@) matches Some(r) && fields_of(r)
                == (RepFields {
                score: (old(self).fields(node_id@).score + BADGE_BONUS * earned(old(self).fields(node_id@)).len()) as u64,
                rank: spec_rank(
                    (old(self).fields(node_id@).score + BADGE_BONUS * earned(old(self).fields(node_id@)).len()) as u64,
                ),
                badges: old(self).fields(node_id@).badges + earned(old(self).fields(node_id@)),
                ..old(self).fields(node_id@)
            })),
            old(self).rep_of(node_id@) is Some ==> (final(self).rep_of(node_id@) matches Some(r) && exists|now: u64|
                #[trigger] awarded(
                    old(self).fields(node_id@),
                    old(self).history(node_id@),
                    r,
                    earned(old(self).fields(node_id@)),
                    now,
                )),
            forall|o: Seq<char>| o != node_id@ ==> #[trigger] final(self).rep_of(o) == old(self).rep_of(o),
    {
        let now = now_secs();
        self.check_badges_at(node_id, now);
    }

    /// Stores `invite` under its code text, replacing a code with the same
    /// text.
    fn put_code(&mut self, invite: InviteCode)
        requires
            old(self).wf(),
        ensures
            final(self).wf(),
            final(self).reputations@ == old(self).reputations@,
            final(self).code_of(invite.code@) == Some(invite),
            forall|o: Seq<char>| o != invite.code@ ==> #[trigger] final(self).code_of(o) == old(self).code_of(o),
    {
        let ghost before = self.codes@;
        let ghost k = invite.code@;
        let found = self.code_index(invite.code.as_str());
        let ghost idx: int;
        match found {
            Some(i) => {
                proof {
                    idx = i as int;
                }
                self.codes.set(i, invite);
            },
            None => {
                proof {
                    idx = before.len() as int;
                }
                self.codes.push(invite);
            },
        }
        proof {
            let kb = code_keys(before);
            let ka = code_keys(self.codes@);
            lemma_keyed_update(before, self.codes@, kb, ka, idx, k);
            assert forall|o: Seq<char>| o != k implies #[trigger] self.code_of(o) == lookup_keyed(before, kb, o) by {
                assert(lookup_keyed(self.codes@, ka, o) == lookup_keyed(before, kb, o));
            }
        }
    }

    /// Issues a new invitation code for `inviter_id` at time `now`, from the
    /// random number `nonce`: the code text is the first four bytes of the
    /// SHA-256 of "inviter:now:nonce" in upper-case hexadecimal; it is valid
    /// for seven days, without a use limit. The code is stored (replacing
    /// one with the same text) and an "invite_generated" event is recorded
    /// for the inviter.
    pub fn generate_code_with(&mut self, inviter_id: &str, now: u64, nonce: u64) -> (invite: InviteCode)
        requires
            old(self).wf(),
            now + CODE_LIFETIME <= u64::MAX,
        ensures
            final(self).wf(),
            invite.code@ == code_text(code_seed(inviter_id.spec_bytes(), now, nonce)),
            invite.code@.len() == 8,
            invite.inviter_id@ == inviter_id@,
            invite.created_at == now,
            invite.expires_at == now + CODE_LIFETIME,
            invite.use_count == 0,
            invite.max_uses == 0,
            invite.active,
            final(self).code_of(invite.code@) matches Some(c) && c.code@ == invite.code@ && c.inviter_id@
                == inviter_id@ && c.created_at == now && c.expires_at == now + CODE_LIFETIME && c.use_count == 0
                && c.max_uses == 0 && c.active,
            forall|o: Seq<char>| o != invite.code@ ==> #[trigger] final(self).code_of(o) == old(self).code_of(o),
            final(self).fields(inviter_id@) == old(self).fields(inviter_id@),
            appended(old(self).history(inviter_id@), final(self).history(inviter_id@)),
            event_is(final(self).history(inviter_id@).last(), now, "invite_generated"@, 0, "生成邀请码"@),
            forall|o: Seq<char>| o != inviter_id@ ==> #[trigger] final(self).rep_of(o) == old(self).rep_of(o),
    {
        let code = invite_code(inviter_id, now, nonce);
        let stored = InviteCode {
            code: code.clone(),
            inviter_id: String::from_str(inviter_id),
            created_at: now,
            expires_at: now + CODE_LIFETIME,
            use_count: 0,
            max_uses: 0,
            active: true,
        };
        let ghost s0 = *self;
        self.put_code(stored);
        let ghost s1 = *self;
        self.add_event_at(inviter_id, "invite_generated", 0, "生成邀请码", now);
        assert forall|o: Seq<char>| o != code@ implies #[trigger] self.code_of(o) == s0.code_of(o) by {
            assert(s1.code_of(o) == s0.code_of(o));
        }
        InviteCode {
            code,
            inviter_id: String::from_str(inviter_id),
            created_at: now,
            expires_at: now + CODE_LIFETIME,
            use_count: 0,
            max_uses: 0,
            active: true,
        }
    }

    /// Issues a new invitation code for `inviter_id`, at the time of the
    /// system clock and from a random number.
    pub fn generate_code(&mut self, inviter_id: &str) -> (invite: InviteCode)
        requires
            old(self).wf(),
        ensures
            final(self).wf(),
            exists|nonce: u64|
                invite.code@ == code_text(#[trigger] code_seed(inviter_id.spec_bytes(), invite.created_at, nonce)),
            invite.code@.len() == 8,
            invite.inviter_id@ == inviter_id@,
            invite.expires_at == invite.created_at + CODE_LIFETIME,
            invite.use_count == 0,
            invite.max_uses == 0,
            invite.active,
            final(self).code_of(invite.code@) matches Some(c) && c.code@ == invite.code@ && c.inviter_id@
                == inviter_id@ && c.created_at == invite.created_at && c.expires_at == invite.expires_at
                && c.use_count == 0 && c.max_uses == 0 && c.active,
            forall|o: Seq<char>| o != invite.code@ ==> #[trigger] final(self).code_of(o) == old(self).code_of(o),
            final(self).fields(inviter_id@) == old(self).fields(inviter_id@),
            appended(old(self).history(inviter_id@), final(self).history(inviter_id@)),
            event_is(
                final(self).history(inviter_id@).last(),
                invite.created_at,
                "invite_generated"@,
                0,
                "生成邀请码"@,
            ),
            forall|o: Seq<char>| o != inviter_id@ ==> #[trigger] final(self).rep_of(o) == old(self).rep_of(o),
    {
        let clock = now_secs();
        let now = if clock <= u64::MAX - CODE_LIFETIME { clock } else { u64::MAX - CODE_LIFETIME };
        let nonce = random_u64();
        self.generate_code_with(inviter_id, now, nonce)
    }

    /// After the code at `i` was changed without changing its text: the
    /// codes stay well formed, that text finds the changed code, and every
    /// other text finds what it found before.
    proof fn lemma_code_updated(&self, before: Seq<InviteCode>, i: int)
        requires
            code_keys(before).no_duplicates(),
            0 <= i < before.len(),
            self.codes@.len() == before.len(),
            self.codes@[i].code@ == before[i].code@,
            forall|j: int| 0 <= j < before.len() && j != i ==> self.codes@[j] == before[j],
        ensures
            code_keys(self.codes@).no_duplicates(),
            self.code_of(before[i].code@) == Some(self.codes@[i]),
            forall|o: Seq<char>|
                o != before[i].code@ ==> #[trigger] self.code_of(o) == lookup_keyed(before, code_keys(before), o),
    {
        let kb = code_keys(before);
        let ka = code_keys(self.codes@);
        lemma_keyed_update(before, self.codes@, kb, ka, i, before[i].code@);
        assert forall|o: Seq<char>| o != before[i].code@ implies #[trigger] self.code_of(o) == lookup_keyed(
            before,
            kb,
            o,
        ) by {
            assert(lookup_keyed(self.codes@, ka, o) == lookup_keyed(before, kb, o));
        }
    }

    /// Uses invitation code `code` for the new node `new_node_id` at time
    /// `now`. Refused, in this order, when the code is unknown ("邀请码无效"),
    /// inactive ("邀请码已失效"), expired ("邀请码已过期"; the code is then
    /// deactivated) or used up ("邀请码已达使用上限"). Otherwise the use is
    /// counted, the inviter's invitations grow by one and it gains the
    /// invitation bonus, the new node the joining bonus, the inviter's badges
    /// are checked on the new count, and the inviter's id is returned (see
    /// `use_code_outcome`).
    pub fn use_code_at(&mut self, code: &str, new_node_id: &str, now: u64) -> (r: Result<String, String>)
        requires
            old(self).wf(),
            match old(self).code_of(code@) {
                Some(c) => c.active && now <= c.expires_at && !(c.max_uses > 0 && c.use_count >= c.max_uses) ==> (
                c.use_count < u32::MAX && old(self).fields(c.inviter_id@).invites_sent < u64::MAX && old(
                    self,
                ).fields(c.inviter_id@).score + INVITE_BONUS + JOIN_BONUS + BADGE_BONUS * earned(
                    with_invite(old(self).fields(c.inviter_id@)),
                ).len() <= u64::MAX && old(self).fields(new_node_id@).score + JOIN_BONUS <= u64::MAX),
                None => true,
            },
        ensures
            final(self).wf(),
            forall|o: Seq<char>| o != code@ ==> #[trigger] final(self).code_of(o) == old(self).code_of(o),
            use_code_outcome(*old(self), *final(self), code@, new_node_id@, now, r),
    {
        let i = match self.code_index(code) {
            Some(i) => i,
            None => {
                return Err(String::from_str("邀请码无效"));
            },
        };
        proof {
            lemma_index_of_unique(code_keys(self.codes@), i as int);
        }
        let ghost s0 = *self;
        let ghost c = self.codes@[i as int];
        if !self.codes[i].active {
            return Err(String::from_str("邀请码已失效"));
        }
        if now > self.codes[i].expires_at {
            let entry = &mut self.codes[i];
            entry.active = false;
            proof {
                self.lemma_code_updated(s0.codes@, i as int);
                assert(self.codes@[i as int] == InviteCode { active: false, ..c });
            }
            return Err(String::from_str("邀请码已过期"));
        }
        if self.codes[i].max_uses > 0 && self.codes[i].use_count >= self.codes[i].max_uses {
            return Err(String::from_str("邀请码已达使用上限"));
        }
        let entry = &mut self.codes[i];
        entry.use_count = entry.use_count + 1;
        proof {
            self.lemma_code_updated(s0.codes@, i as int);
            assert(self.codes@[i as int] == InviteCode { use_count: (c.use_count + 1) as u32, ..c });
        }
        let ghost s1 = *self;
        let inviter_id = self.codes[i].inviter_id.clone();
        self.record_invite(inviter_id.as_str());
        let ghost s1b = *self;
        let mut reason1 = String::from_str("邀请节点 ");
        reason1.append(new_node_id);
        self.add_reputation_at(inviter_id.as_str(), INVITE_BONUS, reason1.as_str(), now);
        let ghost s2 = *self;
        let mut reason2 = String::from_str("通过邀请码 ");
        reason2.append(code);
        reason2.append(" 加入");
        self.add_reputation_at(new_node_id, JOIN_BONUS, reason2.as_str(), now);
        let ghost s3 = *self;
        proof {
            assert(s1.fields(inviter_id@) == s0.fields(inviter_id@));
            assert(s1.history(inviter_id@) == s0.history(inviter_id@));
            if inviter_id@ != new_node_id@ {
                assert(s1b.rep_of(new_node_id@) == s1.rep_of(new_node_id@));
                assert(s2.rep_of(new_node_id@) == s1b.rep_of(new_node_id@));
                assert(s3.rep_of(inviter_id@) == s2.rep_of(inviter_id@));
            }
            assert(earned(s3.fields(inviter_id@)) == earned(with_invite(s0.fields(inviter_id@))));
        }
        self.check_badges_at(inviter_id.as_str(), now);
        proof {
            let inv = inviter_id@;
            let nw = new_node_id@;
            let hi = s0.history(inv);
            let got = earned(with_invite(s0.fields(inv)));
            assert forall|o: Seq<char>| o != inv && o != nw implies #[trigger] self.rep_of(o) == s0.rep_of(o) by {
                assert(s3.rep_of(o) == s2.rep_of(o));
                assert(s2.rep_of(o) == s1b.rep_of(o));
                assert(s1b.rep_of(o) == s1.rep_of(o));
            }
            assert forall|o: Seq<char>| o != code@ implies #[trigger] self.code_of(o) == s0.code_of(o) by {
                assert(s1.code_of(o) == s0.code_of(o));
            }
            let h3 = s3.history(inv);
            let hf = self.history(inv);
            assert(hf.take(h3.len() as int) == h3);
            assert forall|j: int| 0 <= j < h3.len() implies hf[j] == h3[j] by {
                assert(hf.take(h3.len() as int)[j] == hf[j]);
            }
            assert forall|i: int| 0 <= i < got.len() implies event_is(
                #[trigger] hf[h3.len() + i],
                now,
                "badge_earned"@,
                BADGE_BONUS as i64,
                badge_text(got[i]),
            ) by {}
            if inv != nw {
                assert(self.rep_of(nw) == s3.rep_of(nw));
                assert(h3 == s2.history(inv));
                assert(s1b.history(inv) == hi);
                assert(h3.drop_last() == hi);
                assert(h3.len() == hi.len() as int + 1);
                assert(hf[hi.len() as int] == h3[hi.len() as int]);
                assert(hf.take(hi.len() as int) =~= hi) by {
                    assert forall|j: int| 0 <= j < hi.len() implies hf.take(hi.len() as int)[j] == hi[j] by {
                        assert(hf[j] == h3[j]);
                        assert(h3.drop_last()[j] == h3[j]);
                    }
                }
                assert(badge_events(hf, hi.len() as int + 1, got, now));
            } else {
                let h2 = s2.history(inv);
                assert(s1b.history(inv) == hi);
                assert(h2.drop_last() == hi);
                assert(h3.drop_last() == h2);
                assert(h3.len() == hi.len() as int + 2);
                assert(hf[hi.len() as int] == h3[hi.len() as int]);
                assert(h3[hi.len() as int] == h2[hi.len() as int]) by {
                    assert(h3.drop_last()[hi.len() as int] == h3[hi.len() as int]);
                }
                assert(hf[hi.len() as int + 1] == h3[hi.len() as int + 1]);
                assert(hf.take(hi.len() as int) =~= hi) by {
                    assert forall|j: int| 0 <= j < hi.len() implies hf.take(hi.len() as int)[j] == hi[j] by {
                        assert(hf[j] == h3[j]);
                        assert(h3.drop_last()[j] == h3[j]);
                        assert(h2.drop_last()[j] == h2[j]);
                    }
                }
                assert(badge_events(hf, hi.len() as int + 2, got, now));
            }
        }
        Ok(inviter_id)
    }

    /// Uses invitation code `code` for `new_node_id` at the time of the
    /// system clock.
    pub fn use_code(&mut self, code: &str, new_node_id: &str) -> (r: Result<String, String>)
        requires
            old(self).wf(),
            match old(self).code_of(code@) {
                Some(c) => c.active && !(c.max_uses > 0 && c.use_count >= c.max_uses) ==> (c.use_count < u32::MAX
                    && old(self).fields(c.inviter_id@).invites_sent < u64::MAX && old(self).fields(
                    c.inviter_id@,
                ).score + INVITE_BONUS + JOIN_BONUS + BADGE_BONUS * earned(
                    with_invite(old(self).fields(c.inviter_id@)),
                ).len() <= u64::MAX && old(self).fields(new_node_id@).score + JOIN_BONUS <= u64::MAX),
                None => true,
            },
        ensures
            final(self).wf(),
            exists|now: u64| #[trigger] use_code_outcome(*old(self), *final(self), code@, new_node_id@, now, r),
            forall|o: Seq<char>| o != code@ ==> #[trigger] final(self).code_of(o) == old(self).code_of(o),
    {
        let now = now_secs();
        self.use_code_at(code, new_node_id, now)
    }

    /// The `top_n` nodes with the highest scores, highest first; nodes with
    /// equal scores keep the book's order. Each node is listed at most once,
    /// and every node left out scores at most the last one listed.
    pub fn leaderboard(&self, top_n: usize) -> (board: Vec<(&str, &NodeReputation)>)
        ensures
            ({
                let order = sort_desc(score_keyed(self.reputations@));
                let n = if top_n < self.reputations@.len() { top_n as int } else { self.reputations@.len() as int };
                &&& board@.len() == n
                &&& forall|t: int|
                    0 <= t < n ==> *(#[trigger] board@[t]).1 == self.reputations@[order[t].1 as int] && board@[t].0@
                        == self.reputations@[order[t].1 as int].node_id@
                &&& forall|a: int, b: int| 0 <= a < b < n ==> board@[a].1.score >= board@[b].1.score
                &&& forall|a: int, b: int| 0 <= a < b < n ==> order[a].1 != order[b].1
                &&& forall|i: int|
                    0 <= i < self.reputations@.len() && (forall|t: int| 0 <= t < n ==> order[t].1 != i) ==> n == 0
                        || self.reputations@[i].score <= board@[n - 1].1.score
            }),
    {
        let mut keyed: Vec<(u64, usize)> = Vec::new();
        let mut i: usize = 0;
        while i < self.reputations.len()
            invariant
                i <= self.reputations@.len(),
                keyed@ == score_keyed(self.reputations@).take(i as int),
            decreases self.reputations@.len() - i,
        {
            keyed.push((self.reputations[i].score, i));
            i = i + 1;
            assert(keyed@ =~= score_keyed(self.reputations@).take(i as int));
        }
        assert(keyed@ =~= score_keyed(self.reputations@));
        let sorted = stable_sort_desc(keyed);
        let ghost order = sort_desc(score_keyed(self.reputations@));
        proof {
            crate::sorting::lemma_sort_desc_is_desc(score_keyed(self.reputations@));
            lemma_sort_desc_positions(score_keyed(self.reputations@), self.reputations@);
            lemma_sort_desc_ranks(score_keyed(self.reputations@), self.reputations@);
        }
        let limit = if top_n < sorted.len() { top_n } else { sorted.len() };
        let mut board: Vec<(&str, &NodeReputation)> = Vec::new();
        let mut j: usize = 0;
        while j < limit
            invariant
                limit <= sorted@.len(),
                sorted@ == order,
                sorted@.len() == self.reputations@.len(),
                forall|t: int|
                    0 <= t < sorted@.len() ==> (#[trigger] sorted@[t]).1 < self.reputations@.len() && sorted@[t].0
                        == self.reputations@[sorted@[t].1 as int].score,
                j <= limit,
                board@.len() == j,
                forall|t: int|
                    0 <= t < j ==> *(#[trigger] board@[t]).1 == self.reputations@[order[t].1 as int] && board@[t].0@
                        == self.reputations@[order[t].1 as int].node_id@,
            decreases limit - j,
        {
            let k = sorted[j].1;
            let rep = &self.reputations[k];
            board.push((rep.node_id.as_str(), rep));
            j = j + 1;
        }
        board
    }
}

} // verus!
