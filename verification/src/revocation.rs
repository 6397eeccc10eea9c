//! Session revocation: tokens recorded as dead before their own expiry.
//! A record outlives the token it kills by a grace window; expired records
//! are simply ignored when queried, so nothing depends on eager deletion.

use vstd::prelude::*;
use vstd::string::StrSliceExecFns;

verus! {

/// One revocation: a token recorded as dead until its purge time.
pub struct RevokedTokenRecord {
    pub token: String,
    pub subject: String,
    pub revoked_at: u64,
    pub purge_after: u64,
}

/// A token is revoked by `records` at `now` when some record names it and
/// has not yet reached its purge time.
pub open spec fn revoked_spec(records: Seq<RevokedTokenRecord>, token: Seq<char>, now: u64) -> bool {
    exists|k: int|
        0 <= k < records.len() && (#[trigger] records[k]).token@ == token
            && records[k].purge_after > now
}

/// Every record is purged strictly after it was made.
pub open spec fn store_wf(records: Seq<RevokedTokenRecord>) -> bool {
    forall|k: int|
        0 <= k < records.len() ==> (#[trigger] records[k]).purge_after > records[k].revoked_at
}

/// The store of revoked-but-not-yet-expired tokens.
pub struct RevocationStore {
    records: Vec<RevokedTokenRecord>,
}

impl View for RevocationStore {
    type V = Seq<RevokedTokenRecord>;

    closed spec fn view(&self) -> Seq<RevokedTokenRecord> {
        self.records@
    }
}

impl RevocationStore {
    /// An empty store: nothing is revoked.
    pub fn new() -> (r: Self)
        ensures
            r@ == Seq::<RevokedTokenRecord>::empty(),
            store_wf(r@),
    {
        let r = RevocationStore { records: Vec::new() };
        proof {
            assert(r@ =~= Seq::<RevokedTokenRecord>::empty());
        }
        r
    }

    /// Record a revocation of `token` for `subject`, purged `grace_window`
    /// seconds from `now`.  Duplicates are welcome: every call appends its
    /// own record.
    pub fn record_revocation(&mut self, subject: &str, token: &str, grace_window: u64, now: u64)
        requires
            grace_window > 0,
            now + grace_window <= u64::MAX,
        ensures
            final(self)@.len() == old(self)@.len() + 1,
            final(self)@.drop_last() == old(self)@,
            final(self)@.last().token@ == token@,
            final(self)@.last().subject@ == subject@,
            final(self)@.last().revoked_at == now,
            final(self)@.last().purge_after == now + grace_window,
            store_wf(old(self)@) ==> store_wf(final(self)@),
    {
        let rec = RevokedTokenRecord {
            token: token.to_owned(),
            subject: subject.to_owned(),
            revoked_at: now,
            purge_after: now + grace_window,
        };
        self.records.push(rec);
        proof {
            assert(self@.drop_last() =~= old(self)@);
            if store_wf(old(self)@) {
                assert forall|k: int| 0 <= k < self@.len() implies (#[trigger] self@[k]).purge_after
                    > self@[k].revoked_at by {
                    if k < self@.len() - 1 {
                        assert(self@[k] == old(self)@[k]);
                    }
                }
            }
        }
    }

    /// Whether `token` is revoked at `now`: some record names it and has
    /// not yet been purged.
    pub fn is_revoked(&self, token: &str, now: u64) -> (r: bool)
        ensures
            r == revoked_spec(self@, token@, now),
    {
        let n = self.records.len();
        let mut i: usize = 0;
        while i < n
            invariant
                i <= n,
                n == self@.len(),
                forall|k: int|
                    0 <= k < i ==> !((#[trigger] self@[k]).token@ == token@
                        && self@[k].purge_after > now),
            decreases n - i,
        {
            let rec = &self.records[i];
            if rec.purge_after > now && eq_str(rec.token.as_str(), token) {
                proof {
                    assert(self@[i as int].token@ == token@ && self@[i as int].purge_after > now);
                }
                return true;
            }
            i = i + 1;
        }
        false
    }
}

/// Character-for-character equality of two strings.
fn eq_str(a: &str, b: &str) -> (r: bool)
    ensures
        r == (a@ == b@),
{
    let al = a.unicode_len();
    let bl = b.unicode_len();
    if al != bl {
        proof {
            assert(a@ != b@);
        }
        return false;
    }
    let mut i: usize = 0;
    while i < al
        invariant
            i <= al,
            al == a@.len(),
            a@.len() == b@.len(),
            forall|k: int| 0 <= k < i ==> a@[k] == b@[k],
        decreases al - i,
    {
        if a.get_char(i) != b.get_char(i) {
            proof {
                assert(a@[i as int] != b@[i as int]);
            }
            return false;
        }
        i = i + 1;
    }
    proof {
        assert(a@ =~= b@);
    }
    true
}

/// Recording a revocation a second (or third) time changes nothing that
/// matters: the token stays revoked while its records stand, and a token
/// never recorded keeps the standing it had.
pub proof fn lemma_revocation_idempotent(
    records: Seq<RevokedTokenRecord>,
    r1: RevokedTokenRecord,
    r2: RevokedTokenRecord,
    token: Seq<char>,
    other: Seq<char>,
    now: u64,
)
    requires
        r1.token@ == token,
        r2.token@ == token,
        r1.purge_after > now,
        r2.purge_after > now,
        other != token,
    ensures
        revoked_spec(records.push(r1), token, now),
        revoked_spec(records.push(r1).push(r2), token, now),
        revoked_spec(records.push(r1).push(r2), other, now) == revoked_spec(records, other, now),
{
    let once = records.push(r1);
    let twice = once.push(r2);
    assert(once[records.len() as int] == r1);
    assert(revoked_spec(once, token, now));
    assert(twice[once.len() as int] == r2);
    assert(revoked_spec(twice, token, now));
    if revoked_spec(twice, other, now) {
        let k = choose|k: int|
            0 <= k < twice.len() && (#[trigger] twice[k]).token@ == other
                && twice[k].purge_after > now;
        assert(k < records.len());
        assert(records[k] == twice[k]);
        assert(revoked_spec(records, other, now));
    }
    if revoked_spec(records, other, now) {
        let k = choose|k: int|
            0 <= k < records.len() && (#[trigger] records[k]).token@ == other
                && records[k].purge_after > now;
        assert(twice[k] == records[k]);
        assert(revoked_spec(twice, other, now));
    }
}

} // verus!
