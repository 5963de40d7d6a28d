use vstd::prelude::*;
use crate::bytes::{append_bytes, bytes_equal};
use crate::clock::now_secs;
use crate::digest::{sha256, spec_sha256};
use crate::entropy::os_random_array;

verus! {

/// Seconds a guardian has to answer an audit challenge.
pub const AUDIT_RESPONSE_WINDOW: u64 = 3600;

/// The bytes of a list of keys, one after the other.
pub open spec fn concat_keys(keys: Seq<[u8; 32]>) -> Seq<u8>
    decreases keys.len(),
{
    if keys.len() == 0 {
        Seq::empty()
    } else {
        concat_keys(keys.drop_last()) + keys.last()@
    }
}

/// The identifier of a contract: SHA-256 over the content hash followed by
/// every guardian key in order.
pub open spec fn contract_id(content_hash: [u8; 32], guardians: Seq<[u8; 32]>) -> Seq<u8> {
    spec_sha256(content_hash@ + concat_keys(guardians))
}

/// The keys under which signatures are held, in order.
pub open spec fn signer_keys(sigs: Seq<([u8; 32], Vec<u8>)>) -> Seq<Seq<u8>> {
    sigs.map_values(|p: ([u8; 32], Vec<u8>)| p.0@)
}

/// Whether `key` is one of `guardians`.
pub open spec fn is_guardian(guardians: Seq<[u8; 32]>, key: Seq<u8>) -> bool {
    exists|i: int| 0 <= i < guardians.len() && guardians[i]@ == key
}

/// The distinct guardian keys.
pub open spec fn guardian_keys(guardians: Seq<[u8; 32]>) -> Set<Seq<u8>> {
    guardians.map_values(|g: [u8; 32]| g@).to_set()
}

/// A contract's id is fixed by its content hash and guardians alone: two
/// contracts made for the same content hash and guardian list carry the same
/// id, whatever their threshold, audit interval or time of creation.
pub proof fn lemma_contract_id_determined(a: CommunityContract, b: CommunityContract)
    requires
        a.id@ == contract_id(a.content_hash, a.guardians@),
        b.id@ == contract_id(b.content_hash, b.guardians@),
        a.content_hash == b.content_hash,
        a.guardians@ == b.guardians@,
    ensures
        a.id@ == b.id@,
{
}

/// In a well-formed contract no more guardians have signed than there are
/// distinct guardians.
pub proof fn lemma_signers_within_guardians(c: CommunityContract)
    requires
        c.wf(),
    ensures
        c.signed().len() == c.signatures@.len(),
        c.signatures@.len() <= guardian_keys(c.guardians@).len(),
{
    let s = signer_keys(c.signatures@);
    let g = c.guardians@.map_values(|x: [u8; 32]| x@);
    s.unique_seq_to_set();
    assert forall|k: Seq<u8>| s.to_set().contains(k) implies g.to_set().contains(k) by {
        let i = choose|i: int| 0 <= i < s.len() && s[i] == k;
        assert(is_guardian(c.guardians@, c.signatures@[i].0@));
        let j = choose|j: int| 0 <= j < c.guardians@.len() && c.guardians@[j]@ == c.signatures@[i].0@;
        assert(g[j] == k);
    }
    vstd::set_lib::lemma_len_subset(s.to_set(), g.to_set());
}

/// A community contract: a group of guardians jointly declares that it keeps
/// a data set; the contract holds once `threshold` distinct guardians signed,
/// and it is audited every `audit_interval` seconds.
pub struct CommunityContract {
    pub id: [u8; 32],
    pub content_hash: [u8; 32],
    pub guardians: Vec<[u8; 32]>,
    pub threshold: usize,
    /// One signature per guardian key, in the order of first signing.
    pub signatures: Vec<([u8; 32], Vec<u8>)>,
    pub created_at: u64,
    pub last_audit: u64,
    pub audit_interval: u64,
    pub active: bool,
}

impl CommunityContract {
    /// No key signed twice, and only guardians signed.
    pub open spec fn wf(&self) -> bool {
        &&& signer_keys(self.signatures@).no_duplicates()
        &&& forall|i: int|
            0 <= i < self.signatures@.len() ==> is_guardian(self.guardians@, #[trigger] self.signatures@[i].0@)
    }

    /// The guardian keys that signed.
    pub open spec fn signed(&self) -> Set<Seq<u8>> {
        signer_keys(self.signatures@).to_set()
    }

    /// The signature held for `key`, if that key signed.
    pub open spec fn signature_of(&self, key: Seq<u8>) -> Option<Seq<u8>> {
        if signer_keys(self.signatures@).contains(key) {
            Some(self.signatures@[signer_keys(self.signatures@).index_of(key)].1@)
        } else {
            None
        }
    }

    /// A new, active contract created at `now`, with no signatures; its id is
    /// the SHA-256 of the content hash and the guardian keys.
    pub fn new_at(
        content_hash: [u8; 32],
        guardians: Vec<[u8; 32]>,
        threshold: usize,
        audit_interval: u64,
        now: u64,
    ) -> (c: Self)
        requires
            32 * guardians@.len() + 32 <= usize::MAX,
        ensures
            c.wf(),
            c.id@ == contract_id(content_hash, guardians@),
            c.content_hash == content_hash,
            c.guardians@ == guardians@,
            c.threshold == threshold,
            c.signatures@.len() == 0,
            c.created_at == now,
            c.last_audit == now,
            c.audit_interval == audit_interval,
            c.active,
    {
        let mut buf: Vec<u8> = Vec::new();
        append_bytes(&mut buf, &content_hash);
        let mut i: usize = 0;
        while i < guardians.len()
            invariant
                i <= guardians@.len(),
                32 * guardians@.len() + 32 <= usize::MAX,
                buf@ == content_hash@ + concat_keys(guardians@.take(i as int)),
                buf@.len() == 32 + 32 * i,
            decreases guardians@.len() - i,
        {
            let ghost prev = buf@;
            append_bytes(&mut buf, &guardians[i]);
            proof {
                assert(guardians@.take(i + 1).drop_last() =~= guardians@.take(i as int));
                assert(buf@ =~= content_hash@ + concat_keys(guardians@.take(i + 1)));
            }
            i = i + 1;
        }
        proof {
            assert(guardians@.take(guardians@.len() as int) =~= guardians@);
        }
        let id = sha256(&buf);
        let c = Self {
            id,
            content_hash,
            guardians,
            threshold,
            signatures: Vec::new(),
            created_at: now,
            last_audit: now,
            audit_interval,
            active: true,
        };
        proof {
            assert(signer_keys(c.signatures@) =~= Seq::<Seq<u8>>::empty());
        }
        c
    }

    /// A new, active contract created now, by the system clock.
    pub fn new(content_hash: [u8; 32], guardians: Vec<[u8; 32]>, threshold: usize, audit_interval: u64) -> (c: Self)
        requires
            32 * guardians@.len() + 32 <= usize::MAX,
        ensures
            c.wf(),
            c.id@ == contract_id(content_hash, guardians@),
            c.content_hash == content_hash,
            c.guardians@ == guardians@,
            c.threshold == threshold,
            c.signatures@.len() == 0,
            c.created_at == c.last_audit,
            c.audit_interval == audit_interval,
            c.active,
    {
        let now = now_secs();
        Self::new_at(content_hash, guardians, threshold, audit_interval, now)
    }

    /// Whether `key` is one of the guardians.
    fn has_guardian(&self, key: &[u8; 32]) -> (r: bool)
        ensures
            r == is_guardian(self.guardians@, key@),
    {
        let mut i: usize = 0;
        while i < self.guardians.len()
            invariant
                i <= self.guardians@.len(),
                forall|j: int| 0 <= j < i ==> self.guardians@[j]@ != key@,
            decreases self.guardians@.len() - i,
        {
            if bytes_equal(&self.guardians[i], key) {
                return true;
            }
            i = i + 1;
        }
        false
    }

    /// Position of the signature held for `key`, if any.
    fn signature_index(&self, key: &[u8; 32]) -> (r: Option<usize>)
        ensures
            match r {
                Some(k) => k < self.signatures@.len() && self.signatures@[k as int].0@ == key@,
                None => !signer_keys(self.signatures@).contains(key@),
            },
    {
        let mut i: usize = 0;
        while i < self.signatures.len()
            invariant
                i <= self.signatures@.len(),
                forall|j: int| 0 <= j < i ==> self.signatures@[j].0@ != key@,
            decreases self.signatures@.len() - i,
        {
            if bytes_equal(&self.signatures[i].0, key) {
                return Some(i);
            }
            i = i + 1;
        }
        proof {
            if signer_keys(self.signatures@).contains(key@) {
                let j = choose|j: int| 0 <= j < signer_keys(self.signatures@).len() && signer_keys(self.signatures@)[j] == key@;
                assert(self.signatures@[j].0@ == key@);
            }
        }
        None
    }

    /// Records a guardian's signature, replacing an earlier one by the same
    /// key; a key that is not a guardian's is ignored.
    pub fn sign(&mut self, guardian_pubkey: &[u8; 32], signature: Vec<u8>)
        requires
            old(self).wf(),
        ensures
            final(self).wf(),
            final(self).id == old(self).id,
            final(self).content_hash == old(self).content_hash,
            final(self).guardians@ == old(self).guardians@,
            final(self).threshold == old(self).threshold,
            final(self).created_at == old(self).created_at,
            final(self).last_audit == old(self).last_audit,
            final(self).audit_interval == old(self).audit_interval,
            final(self).active == old(self).active,
            is_guardian(old(self).guardians@, guardian_pubkey@) ==> final(self).signed() == old(self).signed().insert(
                guardian_pubkey@,
            ),
            is_guardian(old(self).guardians@, guardian_pubkey@) ==> forall|k: Seq<u8>| #[trigger]
                final(self).signature_of(k) == if k == guardian_pubkey@ {
                    Some(signature@)
                } else {
                    old(self).signature_of(k)
                },
            !is_guardian(old(self).guardians@, guardian_pubkey@) ==> final(self).signatures@ == old(
                self,
            ).signatures@,
    {
        if !self.has_guardian(guardian_pubkey) {
            return;
        }
        let ghost before = self.signatures@;
        let ghost c0 = *self;
        let ghost g = guardian_pubkey@;
        let ghost sig = signature@;
        match self.signature_index(guardian_pubkey) {
            Some(k) => {
                self.signatures.set(k, (*guardian_pubkey, signature));
                proof {
                    lemma_replace_signature(before, self.signatures@, k as int, g, sig);
                }
            },
            None => {
                self.signatures.push((*guardian_pubkey, signature));
                proof {
                    lemma_push_signature(before, self.signatures@, g, sig);
                }
            },
        }
        proof {
            assert forall|i: int|
                0 <= i < self.signatures@.len() implies is_guardian(self.guardians@, #[trigger] self.signatures@[i].0@) by {
                if i < before.len() && self.signatures@[i] == before[i] {
                } else {
                    assert(self.signatures@[i].0@ == g);
                }
            }
            assert forall|k: Seq<u8>| #[trigger] self.signature_of(k) == if k == g {
                Some(sig)
            } else {
                c0.signature_of(k)
            } by {
                assert(c0.signatures@ == before);
                if signer_keys(self.signatures@).contains(k) {
                    assert(k == g || signer_keys(before).contains(k));
                    if k == g {
                        assert(self.signature_of(k) == Some(sig));
                    }
                } else {
                    assert(k != g);
                    assert(!signer_keys(before).contains(k));
                }
            }
        }
    }

    /// Whether at least `threshold` distinct guardians signed.
    pub fn is_fulfilled(&self) -> (r: bool)
        requires
            self.wf(),
        ensures
            r == (self.signed().len() >= self.threshold),
    {
        proof {
            signer_keys(self.signatures@).unique_seq_to_set();
        }
        self.signatures.len() >= self.threshold
    }

    /// Whether the contract is due for an audit at time `now`: it is active and
    /// a full interval has passed since the last audit.
    pub fn needs_audit_at(&self, now: u64) -> (r: bool)
        requires
            self.last_audit + self.audit_interval <= u64::MAX,
        ensures
            r == (self.active && now >= self.last_audit + self.audit_interval),
    {
        self.active && now >= self.last_audit + self.audit_interval
    }

    /// Whether the contract is due for an audit at time `now`.
    pub open spec fn due_at(&self, now: u64) -> bool {
        self.active && now >= self.last_audit + self.audit_interval
    }

    /// Whether the contract is due for an audit now, by the system clock.
    pub fn needs_audit(&self) -> (r: bool)
        requires
            self.last_audit + self.audit_interval <= u64::MAX,
        ensures
            exists|now: u64| r == #[trigger] self.due_at(now),
            r ==> self.active,
    {
        let now = now_secs();
        let r = self.needs_audit_at(now);
        assert(r == self.due_at(now));
        r
    }

    /// Records an audit that passed at time `now`.
    pub fn audit_passed_at(&mut self, now: u64)
        ensures
            *final(self) == (CommunityContract { last_audit: now, ..*old(self) }),
    {
        self.last_audit = now;
    }

    /// Records an audit that passed now, by the system clock.
    pub fn audit_passed(&mut self)
        ensures
            *final(self) == (CommunityContract { last_audit: final(self).last_audit, ..*old(self) }),
    {
        let now = now_secs();
        self.audit_passed_at(now);
    }

    /// Deactivates the contract (a failed audit).
    pub fn deactivate(&mut self)
        ensures
            *final(self) == (CommunityContract { active: false, ..*old(self) }),
    {
        self.active = false;
    }

    /// The number of guardians that signed.
    pub fn active_guardian_count(&self) -> (n: usize)
        requires
            self.wf(),
        ensures
            n == self.signed().len(),
    {
        proof {
            signer_keys(self.signatures@).unique_seq_to_set();
        }
        self.signatures.len()
    }
}

/// Replacing the signature at `k` (whose key is `g`) keeps the keys, so the
/// set of signers is unchanged, and changes only what is held for `g`.
proof fn lemma_replace_signature(
    before: Seq<([u8; 32], Vec<u8>)>,
    after: Seq<([u8; 32], Vec<u8>)>,
    k: int,
    g: Seq<u8>,
    sig: Seq<u8>,
)
    requires
        signer_keys(before).no_duplicates(),
        0 <= k < before.len(),
        before[k].0@ == g,
        after.len() == before.len(),
        after[k].0@ == g,
        after[k].1@ == sig,
        forall|j: int| 0 <= j < before.len() && j != k ==> after[j] == before[j],
    ensures
        signer_keys(after) == signer_keys(before),
        signer_keys(after).contains(g),
        signer_keys(after).to_set() == signer_keys(before).to_set().insert(g),
        forall|key: Seq<u8>|
            #![trigger signer_keys(after).contains(key)]
            signer_keys(after).contains(key) == signer_keys(before).contains(key) && (signer_keys(after).contains(key)
                ==> after[signer_keys(after).index_of(key)].1@ == if key == g {
                sig
            } else {
                before[signer_keys(before).index_of(key)].1@
            }),
{
    let ka = signer_keys(after);
    let kb = signer_keys(before);
    assert(ka =~= kb);
    assert(kb[k] == g);
    assert(ka[k] == g);
    assert(kb.to_set() =~= kb.to_set().insert(g));
    assert forall|key: Seq<u8>| #![trigger ka.contains(key)] ka.contains(key) implies after[ka.index_of(key)].1@ == if key == g {
        sig
    } else {
        before[kb.index_of(key)].1@
    } by {
        let i = ka.index_of(key);
        assert(ka[i] == key);
        if key == g {
            assert(i == k);
        } else {
            assert(i != k);
        }
    }
}

/// Appending a signature for a key `g` that had none adds `g` to the signers
/// and changes nothing held for any other key.
proof fn lemma_push_signature(
    before: Seq<([u8; 32], Vec<u8>)>,
    after: Seq<([u8; 32], Vec<u8>)>,
    g: Seq<u8>,
    sig: Seq<u8>,
)
    requires
        signer_keys(before).no_duplicates(),
        !signer_keys(before).contains(g),
        after.len() == before.len() + 1,
        after[before.len() as int].0@ == g,
        after[before.len() as int].1@ == sig,
        forall|j: int| 0 <= j < before.len() ==> after[j] == before[j],
    ensures
        signer_keys(after) == signer_keys(before).push(g),
        signer_keys(after).no_duplicates(),
        signer_keys(after).contains(g),
        signer_keys(after).to_set() == signer_keys(before).to_set().insert(g),
        forall|key: Seq<u8>|
            #![trigger signer_keys(after).contains(key)]
            signer_keys(after).contains(key) == (key == g || signer_keys(before).contains(key)) && (signer_keys(
                after,
            ).contains(key) ==> after[signer_keys(after).index_of(key)].1@ == if key == g {
                sig
            } else {
                before[signer_keys(before).index_of(key)].1@
            }),
{
    let ka = signer_keys(after);
    let kb = signer_keys(before);
    let n = before.len() as int;
    assert(ka =~= kb.push(g));
    assert(ka[n] == g);
    assert forall|key: Seq<u8>| #![trigger ka.contains(key)] ka.contains(key) == (key == g || kb.contains(key)) && (
    ka.contains(key) ==> after[ka.index_of(key)].1@ == if key == g {
        sig
    } else {
        before[kb.index_of(key)].1@
    }) by {
        if key == g {
            assert(ka[n] == g);
        }
        if kb.contains(key) {
            let j = kb.index_of(key);
            assert(ka[j] == key);
        }
        if ka.contains(key) {
            let i = ka.index_of(key);
            assert(ka[i] == key);
            if key == g {
                assert(i == n);
            } else {
                assert(i < n);
                assert(kb[i] == key);
                assert(kb.index_of(key) == i);
            }
        }
    }
    assert(ka.to_set() =~= kb.to_set().insert(g));
}

/// A challenge sent to a guardian of a contract: it must answer before the
/// deadline with a proof that it still holds the data.
#[derive(Debug, Clone, Copy)]
pub struct AuditChallenge {
    pub contract_id: [u8; 32],
    pub challenge: [u8; 32],
    pub issued_at: u64,
    pub deadline: u64,
}

impl AuditChallenge {
    /// A challenge issued at `now` with the given random value; the deadline
    /// is one response window later.
    pub fn new_at(contract_id: [u8; 32], challenge: [u8; 32], now: u64) -> (c: Self)
        requires
            now + AUDIT_RESPONSE_WINDOW <= u64::MAX,
        ensures
            c.contract_id == contract_id,
            c.challenge == challenge,
            c.issued_at == now,
            c.deadline == now + AUDIT_RESPONSE_WINDOW,
    {
        Self { contract_id, challenge, issued_at: now, deadline: now + AUDIT_RESPONSE_WINDOW }
    }

    /// A challenge with a random value from the operating system, issued now
    /// by the system clock; the deadline is one response window later (it
    /// stays at the largest time for a clock within a window of it).
    pub fn new(contract_id: [u8; 32]) -> (c: Self)
        ensures
            c.contract_id == contract_id,
            c.deadline == if c.issued_at + AUDIT_RESPONSE_WINDOW <= u64::MAX {
                (c.issued_at + AUDIT_RESPONSE_WINDOW) as u64
            } else {
                u64::MAX
            },
    {
        let challenge: [u8; 32] = os_random_array();
        let now = now_secs();
        if now <= u64::MAX - AUDIT_RESPONSE_WINDOW {
            Self::new_at(contract_id, challenge, now)
        } else {
            Self { contract_id, challenge, issued_at: now, deadline: u64::MAX }
        }
    }

    /// Whether the deadline has passed at time `now`.
    pub fn is_expired_at(&self, now: u64) -> (r: bool)
        ensures
            r == (now > self.deadline),
    {
        now > self.deadline
    }

    /// Whether the deadline has passed at time `now`.
    pub open spec fn expired_at(&self, now: u64) -> bool {
        now > self.deadline
    }

    /// Whether the deadline has passed now, by the system clock.
    pub fn is_expired(&self) -> (r: bool)
        ensures
            exists|now: u64| r == #[trigger] self.expired_at(now),
            self.deadline == u64::MAX ==> !r,
    {
        let now = now_secs();
        let r = self.is_expired_at(now);
        assert(r == self.expired_at(now));
        r
    }
}

/// The proof of an audit answer: SHA-256 over the data, the challenge value
/// and the guardian's key, in that order.
pub open spec fn audit_proof(data: Seq<u8>, challenge: [u8; 32], guardian: [u8; 32]) -> Seq<u8> {
    spec_sha256(data + challenge@ + guardian@)
}

/// A guardian's answer to an audit challenge.
#[derive(Debug, Clone)]
pub struct AuditResponse {
    pub challenge: AuditChallenge,
    pub proof: [u8; 32],
    pub guardian: [u8; 32],
}

impl AuditResponse {
    /// The answer of `guardian`, holding `data`, to `challenge`.
    pub fn generate(data: &[u8], challenge: &AuditChallenge, guardian: &[u8; 32]) -> (r: Self)
        requires
            data@.len() + 64 <= usize::MAX,
        ensures
            r.challenge == *challenge,
            r.guardian == *guardian,
            r.proof@ == audit_proof(data@, challenge.challenge, *guardian),
    {
        let mut buf: Vec<u8> = Vec::new();
        append_bytes(&mut buf, data);
        append_bytes(&mut buf, &challenge.challenge);
        append_bytes(&mut buf, guardian);
        let proof = sha256(&buf);
        Self { challenge: *challenge, proof, guardian: *guardian }
    }
}

} // verus!
