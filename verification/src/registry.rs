use crate::errors::Error;
use vstd::pervasive::VecAdditionalExecFns;
use vstd::prelude::*;

verus! {

/// One immutable study record, keyed by its 32-byte content hash.
///
/// `timestamp` is caller-supplied and not validated against a clock;
/// `attestation_hash` is an opaque digest and not validated either.
#[derive(Debug)]
pub struct StudyData {
    pub study_hash: [u8; 32],
    pub owner: u64,
    pub timestamp: u64,
    pub lab_identifier: String,
    pub attestation_hash: [u8; 32],
}

/// The event reported by a successful registration: the registered hash
/// together with the full payload of the new record.
#[derive(Debug)]
pub struct StudyRegisteredEvent {
    pub study_hash: [u8; 32],
    pub owner: u64,
    pub timestamp: u64,
    pub lab_identifier: String,
    pub attestation_hash: [u8; 32],
}

/// One row of the owner projection: a registered hash with the metadata of
/// its record.
#[derive(Debug)]
pub struct StudyMetadata {
    pub study_hash: [u8; 32],
    pub timestamp: u64,
    pub lab_identifier: String,
}

/// The record of `s` whose content hash is `h`, scanning from the most
/// recent entry; `None` when no record carries `h`.
pub open spec fn find_study(s: Seq<StudyData>, h: Seq<u8>) -> Option<StudyData>
    decreases s.len(),
{
    if s.len() == 0 {
        None
    } else if s.last().study_hash@ == h {
        Some(s.last())
    } else {
        find_study(s.drop_last(), h)
    }
}

/// No two records of `s` carry the same content hash.
pub open spec fn distinct_hashes(s: Seq<StudyData>) -> bool {
    forall|i: int, j: int| 0 <= i < j < s.len() ==> s[i].study_hash@ != s[j].study_hash@
}

/// The hashes of the records of `s` owned by `o`, in registration order.
pub open spec fn owner_hashes(s: Seq<StudyData>, o: u64) -> Seq<Seq<u8>>
    decreases s.len(),
{
    if s.len() == 0 {
        Seq::empty()
    } else {
        let prev = owner_hashes(s.drop_last(), o);
        if s.last().owner == o {
            prev.push(s.last().study_hash@)
        } else {
            prev
        }
    }
}

/// How many records of `s` are owned by `o`: since the log holds one record
/// per successful registration, this is the number of successful
/// registrations by `o`.
pub open spec fn owned_count(s: Seq<StudyData>, o: u64) -> int
    decreases s.len(),
{
    if s.len() == 0 {
        0
    } else {
        owned_count(s.drop_last(), o) + if s.last().owner == o {
            1int
        } else {
            0int
        }
    }
}

/// The views of a list of stored hashes.
pub open spec fn hash_views(hs: Seq<[u8; 32]>) -> Seq<Seq<u8>> {
    hs.map_values(|h: [u8; 32]| h@)
}

/// The hash list that the stored index `ix` assigns to owner `o`; empty when
/// the owner has no entry.
pub open spec fn indexed_hashes(ix: Seq<(u64, Vec<[u8; 32]>)>, o: u64) -> Seq<Seq<u8>>
    decreases ix.len(),
{
    if ix.len() == 0 {
        Seq::empty()
    } else if ix.last().0 == o {
        hash_views(ix.last().1@)
    } else {
        indexed_hashes(ix.drop_last(), o)
    }
}

/// No two index entries carry the same owner.
pub open spec fn distinct_owners(ix: Seq<(u64, Vec<[u8; 32]>)>) -> bool {
    forall|i: int, j: int| 0 <= i < j < ix.len() ==> ix[i].0 != ix[j].0
}

proof fn lemma_distinct_hashes_drop_last(s: Seq<StudyData>)
    requires
        distinct_hashes(s),
        s.len() > 0,
    ensures
        distinct_hashes(s.drop_last()),
{
    assert forall|i: int, j: int| 0 <= i < j < s.drop_last().len() implies s.drop_last()[i].study_hash@
        != s.drop_last()[j].study_hash@ by {
        assert(s.drop_last()[i] == s[i]);
        assert(s.drop_last()[j] == s[j]);
    }
}

/// With distinct hashes, a record found at position `i` is the one
/// `find_study` returns.
proof fn lemma_find_study_found(s: Seq<StudyData>, h: Seq<u8>, i: int)
    requires
        distinct_hashes(s),
        0 <= i < s.len(),
        s[i].study_hash@ == h,
    ensures
        find_study(s, h) == Some(s[i]),
    decreases s.len(),
{
    if i < s.len() - 1 {
        lemma_distinct_hashes_drop_last(s);
        assert(s.drop_last()[i] == s[i]);
        lemma_find_study_found(s.drop_last(), h, i);
    }
}

/// When no record carries `h`, `find_study` reports none.
proof fn lemma_find_study_absent(s: Seq<StudyData>, h: Seq<u8>)
    requires
        forall|i: int| 0 <= i < s.len() ==> s[i].study_hash@ != h,
    ensures
        find_study(s, h) is None,
    decreases s.len(),
{
    if s.len() > 0 {
        assert(forall|i: int|
            0 <= i < s.drop_last().len() ==> s.drop_last()[i] == s[i]);
        lemma_find_study_absent(s.drop_last(), h);
    }
}

/// Every hash that the owner projection lists belongs to a record of `s`
/// owned by `o`.
proof fn lemma_owner_hashes_member(s: Seq<StudyData>, o: u64, i: int)
    requires
        0 <= i < owner_hashes(s, o).len(),
    ensures
        exists|t: int|
            0 <= t < s.len() && s[t].study_hash@ == owner_hashes(s, o)[i] && s[t].owner == o,
    decreases s.len(),
{
    if s.len() > 0 {
        let prev = owner_hashes(s.drop_last(), o);
        if s.last().owner == o && i == prev.len() {
            assert(s[s.len() - 1].study_hash@ == owner_hashes(s, o)[i]);
        } else {
            lemma_owner_hashes_member(s.drop_last(), o, i);
            let t = choose|t: int|
                0 <= t < s.drop_last().len() && s.drop_last()[t].study_hash@ == prev[i]
                    && s.drop_last()[t].owner == o;
            assert(s.drop_last()[t] == s[t]);
            assert(owner_hashes(s, o)[i] == prev[i]);
        }
    }
}

/// With distinct record hashes, the owner projection repeats no hash.
proof fn lemma_owner_hashes_distinct(s: Seq<StudyData>, o: u64)
    requires
        distinct_hashes(s),
    ensures
        forall|i: int, j: int|
            0 <= i < j < owner_hashes(s, o).len() ==> owner_hashes(s, o)[i] != owner_hashes(
                s,
                o,
            )[j],
    decreases s.len(),
{
    if s.len() > 0 {
        lemma_distinct_hashes_drop_last(s);
        lemma_owner_hashes_distinct(s.drop_last(), o);
        let prev = owner_hashes(s.drop_last(), o);
        let cur = owner_hashes(s, o);
        if s.last().owner == o {
            assert forall|i: int, j: int| 0 <= i < j < cur.len() implies cur[i] != cur[j] by {
                if j == cur.len() - 1 {
                    lemma_owner_hashes_member(s.drop_last(), o, i);
                    let t = choose|t: int|
                        0 <= t < s.drop_last().len() && s.drop_last()[t].study_hash@ == prev[i]
                            && s.drop_last()[t].owner == o;
                    assert(s.drop_last()[t] == s[t]);
                    assert(s[t].study_hash@ != s[s.len() - 1].study_hash@);
                    assert(cur[i] == prev[i]);
                } else {
                    assert(cur[i] == prev[i]);
                    assert(cur[j] == prev[j]);
                }
            }
        }
    }
}

/// Law: appending a record to the registration log extends exactly its
/// owner's hash list, by exactly the record's hash at the end; every other
/// owner's list is untouched. Chained over a run of registrations, an
/// owner's list is as long as the number of records that owner registered,
/// in registration order.
pub proof fn lemma_owner_hashes_push(s: Seq<StudyData>, d: StudyData, o: u64)
    ensures
        owner_hashes(s.push(d), o) == if d.owner == o {
            owner_hashes(s, o).push(d.study_hash@)
        } else {
            owner_hashes(s, o)
        },
{
    assert(s.push(d).drop_last() =~= s);
    assert(s.push(d).last() == d);
}

/// Law: an owner's hash list is exactly as long as the number of records
/// that owner registered.
pub proof fn lemma_owner_index_counts(s: Seq<StudyData>, o: u64)
    ensures
        owner_hashes(s, o).len() == owned_count(s, o),
    decreases s.len(),
{
    if s.len() > 0 {
        lemma_owner_index_counts(s.drop_last(), o);
    }
}

proof fn lemma_distinct_owners_drop_last(ix: Seq<(u64, Vec<[u8; 32]>)>)
    requires
        distinct_owners(ix),
        ix.len() > 0,
    ensures
        distinct_owners(ix.drop_last()),
{
    assert forall|i: int, j: int| 0 <= i < j < ix.drop_last().len() implies ix.drop_last()[i].0
        != ix.drop_last()[j].0 by {
        assert(ix.drop_last()[i] == ix[i]);
        assert(ix.drop_last()[j] == ix[j]);
    }
}

/// With distinct owners, the index entry at position `i` is the one the
/// stored index assigns to its owner.
proof fn lemma_indexed_found(ix: Seq<(u64, Vec<[u8; 32]>)>, i: int)
    requires
        distinct_owners(ix),
        0 <= i < ix.len(),
    ensures
        indexed_hashes(ix, ix[i].0) == hash_views(ix[i].1@),
    decreases ix.len(),
{
    if i < ix.len() - 1 {
        lemma_distinct_owners_drop_last(ix);
        assert(ix.drop_last()[i] == ix[i]);
        lemma_indexed_found(ix.drop_last(), i);
    }
}

/// An owner without an index entry has the empty hash list.
proof fn lemma_indexed_absent(ix: Seq<(u64, Vec<[u8; 32]>)>, o: u64)
    requires
        forall|i: int| 0 <= i < ix.len() ==> ix[i].0 != o,
    ensures
        indexed_hashes(ix, o) == Seq::<Seq<u8>>::empty(),
    decreases ix.len(),
{
    if ix.len() > 0 {
        assert(forall|i: int| 0 <= i < ix.drop_last().len() ==> ix.drop_last()[i] == ix[i]);
        lemma_indexed_absent(ix.drop_last(), o);
    }
}

/// With distinct owners, rewriting the entry at position `i` (keeping its
/// owner) moves that owner's hash list and leaves every other owner's
/// untouched.
proof fn lemma_indexed_update(
    ix: Seq<(u64, Vec<[u8; 32]>)>,
    i: int,
    o: u64,
    hs: Vec<[u8; 32]>,
    k: u64,
)
    requires
        distinct_owners(ix),
        0 <= i < ix.len(),
        ix[i].0 == o,
    ensures
        indexed_hashes(ix.update(i, (o, hs)), k) == if k == o {
            hash_views(hs@)
        } else {
            indexed_hashes(ix, k)
        },
    decreases ix.len(),
{
    let t = ix.update(i, (o, hs));
    if i == ix.len() - 1 {
        assert(t.last() == (o, hs));
        if k != o {
            assert(t.drop_last() =~= ix.drop_last());
        }
    } else {
        assert(t.last() == ix.last());
        assert(t.drop_last() =~= ix.drop_last().update(i, (o, hs)));
        lemma_distinct_owners_drop_last(ix);
        assert(ix.drop_last()[i] == ix[i]);
        if ix.last().0 == k {
            assert(ix[i].0 != ix[ix.len() - 1].0);
        } else {
            lemma_indexed_update(ix.drop_last(), i, o, hs, k);
        }
    }
}

/// Appending an index entry sets that owner's hash list and leaves every
/// other owner's untouched.
proof fn lemma_indexed_push(ix: Seq<(u64, Vec<[u8; 32]>)>, o: u64, hs: Vec<[u8; 32]>, k: u64)
    ensures
        indexed_hashes(ix.push((o, hs)), k) == if k == o {
            hash_views(hs@)
        } else {
            indexed_hashes(ix, k)
        },
{
    let t = ix.push((o, hs));
    assert(t.last() == (o, hs));
    assert(t.drop_last() =~= ix);
}

/// Compares two 32-byte content hashes.
fn bytes_eq(a: &[u8; 32], b: &[u8; 32]) -> (r: bool)
    ensures
        r == (a@ == b@),
{
    let mut i: usize = 0;
    while i < 32
        invariant
            i <= 32,
            forall|k: int| 0 <= k < i ==> a@[k] == b@[k],
        decreases 32 - i,
    {
        if a[i] != b[i] {
            return false;
        }
        i = i + 1;
    }
    proof {
        assert(a@ =~= b@);
    }
    true
}

/// The immutable, content-addressed study archive with its owner index.
///
/// A record, once registered, never changes and is never removed; the owner
/// index lists, for each owner, exactly the hashes that owner registered, in
/// registration order.
pub struct StudyRegistry {
    studies: Vec<StudyData>,
    owner_index: Vec<(u64, Vec<[u8; 32]>)>,
}

impl StudyRegistry {
    /// The full registration log, in call order.
    pub closed spec fn studies_log(self) -> Seq<StudyData> {
        self.studies@
    }

    /// The record registered under `h`, if any.
    pub open spec fn spec_get_study(self, h: Seq<u8>) -> Option<StudyData> {
        find_study(self.studies_log(), h)
    }

    /// Whether a record is registered under `h`.
    pub open spec fn has_study(self, h: Seq<u8>) -> bool {
        self.spec_get_study(h) is Some
    }

    /// The hashes registered by `o`, in registration order.
    pub open spec fn hashes_of(self, o: u64) -> Seq<Seq<u8>> {
        owner_hashes(self.studies_log(), o)
    }

    /// Hashes are unique, index owners are unique, and the stored index
    /// agrees with the owner projection of the registration log.
    pub closed spec fn wf(self) -> bool {
        &&& distinct_hashes(self.studies@)
        &&& distinct_owners(self.owner_index@)
        &&& forall|o: u64| indexed_hashes(self.owner_index@, o) == owner_hashes(self.studies@, o)
    }

    /// An empty registry: nothing is registered yet.
    pub fn new() -> (r: StudyRegistry)
        ensures
            r.wf(),
            r.studies_log() == Seq::<StudyData>::empty(),
            forall|h: Seq<u8>| !r.has_study(h),
            forall|o: u64| r.hashes_of(o) == Seq::<Seq<u8>>::empty(),
    {
        let r = StudyRegistry { studies: Vec::new(), owner_index: Vec::new() };
        proof {
            assert(forall|o: u64|
                indexed_hashes(r.owner_index@, o) == owner_hashes(r.studies@, o));
        }
        r
    }

    /// Registers a new study record under `study_hash`.
    ///
    /// Fails with [`Error::DuplicateStudy`], changing nothing, exactly when
    /// a record already exists under that hash. On success the record is
    /// appended to the log, the owner's index gains the hash at its end, no
    /// other owner's index changes, no existing record changes, and the
    /// event reporting the registration is returned.
    pub fn register_study(
        &mut self,
        study_hash: [u8; 32],
        owner_wallet: u64,
        timestamp: u64,
        lab_identifier: String,
        attestation_hash: [u8; 32],
    ) -> (r: Result<StudyRegisteredEvent, Error>)
        requires
            old(self).wf(),
        ensures
            final(self).wf(),
            r is Err <==> old(self).has_study(study_hash@),
            r is Err ==> r == Err::<StudyRegisteredEvent, Error>(Error::DuplicateStudy)
                && *final(self) == *old(self),
            r is Ok ==> final(self).studies_log() == old(self).studies_log().push(
                (StudyData {
                    study_hash,
                    owner: owner_wallet,
                    timestamp,
                    lab_identifier,
                    attestation_hash,
                }),
            ),
            r is Ok ==> final(self).spec_get_study(study_hash@) == Some(
                (StudyData {
                    study_hash,
                    owner: owner_wallet,
                    timestamp,
                    lab_identifier,
                    attestation_hash,
                }),
            ),
            forall|h: Seq<u8>|
                old(self).has_study(h) ==> final(self).spec_get_study(h) == old(
                    self,
                ).spec_get_study(h),
            r is Ok ==> final(self).hashes_of(owner_wallet) == old(self).hashes_of(
                owner_wallet,
            ).push(study_hash@),
            forall|o: u64| o != owner_wallet ==> final(self).hashes_of(o) == old(self).hashes_of(o),
            r is Ok ==> r == Ok::<StudyRegisteredEvent, Error>(
                (StudyRegisteredEvent {
                    study_hash,
                    owner: owner_wallet,
                    timestamp,
                    lab_identifier,
                    attestation_hash,
                }),
            ),
    {
        let n = self.studies.len();
        let mut i: usize = 0;
        while i < n
            invariant
                i <= n,
                n == self.studies@.len(),
                *self == *old(self),
                old(self).wf(),
                distinct_hashes(self.studies@),
                forall|k: int| 0 <= k < i ==> self.studies@[k].study_hash@ != study_hash@,
            decreases n - i,
        {
            let candidate = &self.studies[i];
            if bytes_eq(&candidate.study_hash, &study_hash) {
                proof {
                    lemma_find_study_found(self.studies@, study_hash@, i as int);
                }
                return Err(Error::DuplicateStudy);
            }
            i = i + 1;
        }
        proof {
            lemma_find_study_absent(self.studies@, study_hash@);
        }
        let event = StudyRegisteredEvent {
            study_hash,
            owner: owner_wallet,
            timestamp,
            lab_identifier: lab_identifier.clone(),
            attestation_hash,
        };
        let record = StudyData {
            study_hash,
            owner: owner_wallet,
            timestamp,
            lab_identifier,
            attestation_hash,
        };
        let ghost record_spec = record;
        self.studies.push(record);
        proof {
            assert forall|a: int, b: int|
                0 <= a < b < self.studies@.len() implies self.studies@[a].study_hash@
                != self.studies@[b].study_hash@ by {
                assert(self.studies@[a] == old(self).studies@.push(record_spec)[a]);
                if b < self.studies@.len() - 1 {
                    assert(self.studies@[b] == old(self).studies@[b]);
                } else {
                    assert(self.studies@[b] == record_spec);
                }
            }
            assert forall|h: Seq<u8>| old(self).has_study(h) implies find_study(self.studies@, h)
                == find_study(old(self).studies@, h) by {
                assert(self.studies@.drop_last() =~= old(self).studies@);
            }
            assert forall|o: u64|
                owner_hashes(self.studies@, o) == if o == owner_wallet {
                    owner_hashes(old(self).studies@, o).push(study_hash@)
                } else {
                    owner_hashes(old(self).studies@, o)
                } by {
                lemma_owner_hashes_push(old(self).studies@, record_spec, o);
            }
        }
        proof {
            assert(find_study(self.studies@, study_hash@) == Some(record_spec));
        }
        let ghost studies1 = self.studies@;
        let ghost ix0 = self.owner_index@;
        let m = self.owner_index.len();
        let mut j: usize = 0;
        while j < m
            invariant
                j <= m,
                m == ix0.len(),
                self.studies@ == studies1,
                self.owner_index@ == ix0,
                ix0 == old(self).owner_index@,
                old(self).wf(),
                record_spec == (StudyData {
                    study_hash,
                    owner: owner_wallet,
                    timestamp,
                    lab_identifier,
                    attestation_hash,
                }),
                studies1 == old(self).studies@.push(record_spec),
                !old(self).has_study(study_hash@),
                event == (StudyRegisteredEvent {
                    study_hash,
                    owner: owner_wallet,
                    timestamp,
                    lab_identifier,
                    attestation_hash,
                }),
                distinct_hashes(studies1),
                find_study(studies1, study_hash@) == Some(record_spec),
                forall|h: Seq<u8>|
                    old(self).has_study(h) ==> find_study(studies1, h) == find_study(
                        old(self).studies@,
                        h,
                    ),
                forall|o: u64|
                    owner_hashes(studies1, o) == if o == owner_wallet {
                        owner_hashes(old(self).studies@, o).push(study_hash@)
                    } else {
                        owner_hashes(old(self).studies@, o)
                    },
                forall|k: int| 0 <= k < j ==> ix0[k].0 != owner_wallet,
            decreases m - j,
        {
            if self.owner_index[j].0 == owner_wallet {
                let mut moved: (u64, Vec<[u8; 32]>) = (owner_wallet, Vec::new());
                self.owner_index.set_and_swap(j, &mut moved);
                moved.1.push(study_hash);
                let ghost entry1 = moved;
                self.owner_index.set(j, moved);
                proof {
                    assert(entry1.0 == owner_wallet);
                    assert(entry1 == (owner_wallet, entry1.1));
                    assert(self.owner_index@ =~= ix0.update(j as int, entry1));
                    assert(entry1.1@ == ix0[j as int].1@.push(study_hash));
                    assert forall|a: int, b: int|
                        0 <= a < b < self.owner_index@.len() implies self.owner_index@[a].0
                        != self.owner_index@[b].0 by {
                        assert(self.owner_index@[a].0 == ix0[a].0);
                        assert(self.owner_index@[b].0 == ix0[b].0);
                    }
                    assert(hash_views(entry1.1@) =~= hash_views(ix0[j as int].1@).push(
                        study_hash@,
                    ));
                    lemma_indexed_found(ix0, j as int);
                    assert forall|o: u64|
                        indexed_hashes(self.owner_index@, o) == owner_hashes(studies1, o) by {
                        lemma_indexed_update(ix0, j as int, owner_wallet, entry1.1, o);
                    }
                }
                return Ok(event);
            }
            j = j + 1;
        }
        let mut fresh_hashes: Vec<[u8; 32]> = Vec::new();
        fresh_hashes.push(study_hash);
        let ghost fresh = fresh_hashes;
        self.owner_index.push((owner_wallet, fresh_hashes));
        proof {
            assert(self.owner_index@ == ix0.push((owner_wallet, fresh)));
            assert forall|a: int, b: int|
                0 <= a < b < self.owner_index@.len() implies self.owner_index@[a].0
                != self.owner_index@[b].0 by {
                assert(self.owner_index@[a].0 == ix0[a].0);
                if b < self.owner_index@.len() - 1 {
                    assert(self.owner_index@[b].0 == ix0[b].0);
                }
            }
            lemma_indexed_absent(ix0, owner_wallet);
            assert(hash_views(fresh@) =~= Seq::<Seq<u8>>::empty().push(study_hash@));
            assert forall|o: u64|
                indexed_hashes(self.owner_index@, o) == owner_hashes(studies1, o) by {
                lemma_indexed_push(ix0, owner_wallet, fresh, o);
            }
        }
        Ok(event)
    }

    /// The hashes registered by `owner`, in registration order; empty when
    /// the owner never registered. No side effects.
    pub fn get_study_hashes_by_owner(&self, owner: u64) -> (r: Vec<[u8; 32]>)
        requires
            self.wf(),
        ensures
            hash_views(r@) == self.hashes_of(owner),
    {
        let m = self.owner_index.len();
        let mut j: usize = 0;
        while j < m
            invariant
                j <= m,
                m == self.owner_index@.len(),
                self.wf(),
                forall|k: int| 0 <= k < j ==> self.owner_index@[k].0 != owner,
            decreases m - j,
        {
            if self.owner_index[j].0 == owner {
                let entry = &self.owner_index[j];
                let len = entry.1.len();
                let mut out: Vec<[u8; 32]> = Vec::new();
                let mut t: usize = 0;
                while t < len
                    invariant
                        t <= len,
                        len == entry.1@.len(),
                        out@ == entry.1@.take(t as int),
                    decreases len - t,
                {
                    out.push(entry.1[t]);
                    proof {
                        assert(entry.1@.take(t as int + 1) =~= entry.1@.take(t as int).push(
                            entry.1@[t as int],
                        ));
                    }
                    t = t + 1;
                }
                proof {
                    assert(out@ =~= entry.1@);
                    lemma_indexed_found(self.owner_index@, j as int);
                }
                return out;
            }
            j = j + 1;
        }
        proof {
            lemma_indexed_absent(self.owner_index@, owner);
            assert(hash_views(Seq::<[u8; 32]>::empty()) =~= Seq::<Seq<u8>>::empty());
        }
        let out: Vec<[u8; 32]> = Vec::new();
        proof {
            assert(out@ =~= Seq::<[u8; 32]>::empty());
        }
        out
    }

    /// The full record registered under `study_hash`.
    ///
    /// Fails with [`Error::StudyNotFound`] exactly when no record carries
    /// that hash. No side effects.
    pub fn get_study_data(&self, study_hash: [u8; 32]) -> (r: Result<StudyData, Error>)
        requires
            self.wf(),
        ensures
            r is Err <==> !self.has_study(study_hash@),
            r is Err ==> r == Err::<StudyData, Error>(Error::StudyNotFound),
            r is Ok ==> Some(r->Ok_0) == self.spec_get_study(study_hash@),
    {
        let n = self.studies.len();
        let mut i: usize = 0;
        while i < n
            invariant
                i <= n,
                n == self.studies@.len(),
                self.wf(),
                forall|k: int| 0 <= k < i ==> self.studies@[k].study_hash@ != study_hash@,
            decreases n - i,
        {
            let candidate = &self.studies[i];
            if bytes_eq(&candidate.study_hash, &study_hash) {
                proof {
                    lemma_find_study_found(self.studies@, study_hash@, i as int);
                }
                return Ok(
                    StudyData {
                        study_hash: candidate.study_hash,
                        owner: candidate.owner,
                        timestamp: candidate.timestamp,
                        lab_identifier: candidate.lab_identifier.clone(),
                        attestation_hash: candidate.attestation_hash,
                    },
                );
            }
            i = i + 1;
        }
        proof {
            lemma_find_study_absent(self.studies@, study_hash@);
        }
        Err(Error::StudyNotFound)
    }

    /// The `(timestamp, lab_identifier)` projection of one record; fails the
    /// same way [`Self::get_study_data`] does. No side effects.
    pub fn get_study_metadata(&self, study_hash: [u8; 32]) -> (r: Result<(u64, String), Error>)
        requires
            self.wf(),
        ensures
            r is Err <==> !self.has_study(study_hash@),
            r is Err ==> r == Err::<(u64, String), Error>(Error::StudyNotFound),
            r is Ok ==> r->Ok_0.0 == self.spec_get_study(study_hash@)->Some_0.timestamp
                && r->Ok_0.1 == self.spec_get_study(study_hash@)->Some_0.lab_identifier,
    {
        match self.get_study_data(study_hash) {
            Ok(study_data) => Ok((study_data.timestamp, study_data.lab_identifier)),
            Err(e) => Err(e),
        }
    }

    /// One metadata row per hash registered by `owner`, in registration
    /// order, with no hash repeated.
    ///
    /// Each row is looked up in the record store; a hash indexed without a
    /// record would fail as [`Self::get_study_data`] does and abort the whole
    /// projection, but the registry's invariant rules that divergence out,
    /// so the projection always succeeds. No side effects.
    pub fn get_studies_by_owner(&self, owner: u64) -> (r: Result<Vec<StudyMetadata>, Error>)
        requires
            self.wf(),
        ensures
            r is Ok,
            r->Ok_0@.len() == self.hashes_of(owner).len(),
            forall|i: int|
                0 <= i < r->Ok_0@.len() ==> r->Ok_0@[i].study_hash@ == self.hashes_of(owner)[i]
                    && self.has_study(self.hashes_of(owner)[i]) && r->Ok_0@[i].timestamp
                    == self.spec_get_study(self.hashes_of(owner)[i])->Some_0.timestamp
                    && r->Ok_0@[i].lab_identifier == self.spec_get_study(
                    self.hashes_of(owner)[i],
                )->Some_0.lab_identifier,
            forall|i: int, j: int|
                0 <= i < j < r->Ok_0@.len() ==> r->Ok_0@[i].study_hash@ != r->Ok_0@[j].study_hash@,
    {
        let hashes = self.get_study_hashes_by_owner(owner);
        let n = hashes.len();
        let mut out: Vec<StudyMetadata> = Vec::new();
        let mut i: usize = 0;
        while i < n
            invariant
                i <= n,
                n == hashes@.len(),
                self.wf(),
                hash_views(hashes@) == self.hashes_of(owner),
                out@.len() == i,
                forall|k: int|
                    0 <= k < i ==> out@[k].study_hash@ == self.hashes_of(owner)[k]
                        && self.has_study(self.hashes_of(owner)[k]) && out@[k].timestamp
                        == self.spec_get_study(self.hashes_of(owner)[k])->Some_0.timestamp
                        && out@[k].lab_identifier == self.spec_get_study(
                        self.hashes_of(owner)[k],
                    )->Some_0.lab_identifier,
            decreases n - i,
        {
            let h = hashes[i];
            proof {
                assert(h@ == hash_views(hashes@)[i as int]);
                lemma_owner_hashes_member(self.studies@, owner, i as int);
                let t = choose|t: int|
                    0 <= t < self.studies@.len() && self.studies@[t].study_hash@
                        == owner_hashes(self.studies@, owner)[i as int] && self.studies@[t].owner
                        == owner;
                lemma_find_study_found(self.studies@, h@, t);
            }
            match self.get_study_data(h) {
                Ok(study_data) => {
                    out.push(
                        StudyMetadata {
                            study_hash: h,
                            timestamp: study_data.timestamp,
                            lab_identifier: study_data.lab_identifier,
                        },
                    );
                },
                Err(e) => {
                    return Err(e);
                },
            }
            i = i + 1;
        }
        proof {
            lemma_owner_hashes_distinct(self.studies@, owner);
            assert(self.hashes_of(owner) == owner_hashes(self.studies@, owner));
            assert forall|a: int, b: int|
                0 <= a < b < out@.len() implies out@[a].study_hash@ != out@[b].study_hash@ by {
                assert(out@[a].study_hash@ == owner_hashes(self.studies@, owner)[a]);
                assert(out@[b].study_hash@ == owner_hashes(self.studies@, owner)[b]);
            }
        }
        Ok(out)
    }
}

} // verus!
