//! The record store: an ordered sequence of credential records, and the
//! query-derived view that groups matching records by exact service name.

use vstd::prelude::*;
use crate::encoding::{Encoding, EncodingV};
use crate::subseq::subseq_match;
use crate::text::lex_lt;

verus! {

/// One stored credential record: the service it belongs to, the user name,
/// the already-encoded secret text, the number of raw bytes that were
/// encoded, and the encoding that produced the secret.
pub struct Password {
    pub service: String,
    pub username: String,
    pub secret: String,
    pub length: usize,
    pub encoding: Encoding,
}

/// The mathematical form of a record.
pub ghost struct PasswordV {
    pub service: Seq<char>,
    pub username: Seq<char>,
    pub secret: Seq<char>,
    pub length: usize,
    pub encoding: EncodingV,
}

impl View for Password {
    type V = PasswordV;

    open spec fn view(&self) -> PasswordV {
        PasswordV {
            service: self.service@,
            username: self.username@,
            secret: self.secret@,
            length: self.length,
            encoding: self.encoding@,
        }
    }
}

/// One group of a query view: whether the group is unfolded for display,
/// and the positions, in scan order, of the records that share the group's
/// service name.
pub struct DatabaseView {
    pub expanded: bool,
    pub members: Vec<usize>,
}

/// The record store itself: records in insertion order, which is also the
/// order of lines in the stored file.
pub struct Database {
    pub passwords: Vec<Password>,
}

/// The positions below `n` whose record carries exactly the service `key`,
/// in increasing order.
pub open spec fn service_indices(db: Seq<Password>, key: Seq<char>, n: int) -> Seq<usize>
    decreases n,
{
    if n <= 0 {
        Seq::empty()
    } else if db[n - 1].service@ == key {
        service_indices(db, key, n - 1).push((n - 1) as usize)
    } else {
        service_indices(db, key, n - 1)
    }
}

/// Group membership is exact: a position is listed under `key` when and only
/// when its record carries that service, every listed position is in range,
/// and listed positions keep their original scan order.
pub proof fn lemma_service_indices_props(db: Seq<Password>, key: Seq<char>, n: int)
    requires
        n <= db.len() <= usize::MAX,
    ensures
        forall|j: int|
            0 <= j < service_indices(db, key, n).len() ==> 0 <= #[trigger] service_indices(
                db,
                key,
                n,
            )[j] < n,
        forall|j1: int, j2: int|
            0 <= j1 < j2 < service_indices(db, key, n).len() ==> #[trigger] service_indices(
                db,
                key,
                n,
            )[j1] < #[trigger] service_indices(db, key, n)[j2],
        forall|i: int|
            0 <= i < n ==> (service_indices(db, key, n).contains(i as usize) <==> db[i].service@
                == key),
    decreases n,
{
    if n > 0 {
        lemma_service_indices_props(db, key, n - 1);
        let prev = service_indices(db, key, n - 1);
        let cur = service_indices(db, key, n);
        if db[n - 1].service@ == key {
            assert(cur == prev.push((n - 1) as usize));
        } else {
            assert(cur == prev);
        }
        assert forall|j: int| 0 <= j < cur.len() implies 0 <= #[trigger] cur[j] < n by {
            if j < prev.len() {
                assert(prev[j] < n - 1);
            }
        }
        assert forall|j1: int, j2: int| 0 <= j1 < j2 < cur.len() implies #[trigger] cur[j1]
            < #[trigger] cur[j2] by {
            if j2 < prev.len() {
                assert(prev[j1] < prev[j2]);
            } else {
                assert(prev[j1] < n - 1);
            }
        }
        assert forall|i: int| 0 <= i < n implies (cur.contains(i as usize) <==> db[i].service@
            == key) by {
            if db[i].service@ == key {
                if i == n - 1 {
                    assert(cur[cur.len() - 1] == i as usize);
                    assert(cur.contains(i as usize));
                } else {
                    assert(prev.contains(i as usize));
                    let j = choose|j: int| 0 <= j < prev.len() && prev[j] == i as usize;
                    assert(cur[j] == i as usize);
                    assert(cur.contains(i as usize));
                }
            } else {
                if cur.contains(i as usize) {
                    let j = choose|j: int| 0 <= j < cur.len() && cur[j] == i as usize;
                    if j < prev.len() {
                        assert(prev.contains(i as usize));
                        assert(prev[j] < n - 1);
                    } else {
                        assert(db[n - 1].service@ == key);
                        assert(cur[j] == (n - 1) as usize);
                    }
                }
            }
        }
    }
}

/// If some position below `n` carries the service `key`, its group is not
/// empty.
proof fn lemma_service_indices_nonempty(db: Seq<Password>, key: Seq<char>, i: int, n: int)
    requires
        0 <= i < n <= db.len() <= usize::MAX,
        db[i].service@ == key,
    ensures
        service_indices(db, key, n).len() > 0,
    decreases n,
{
    if i < n - 1 {
        lemma_service_indices_nonempty(db, key, i, n - 1);
    }
}

/// Whether some record before `bound` carries exactly the service `key`.
pub open spec fn key_from_scan(key: Seq<char>, db: Seq<Password>, bound: int) -> bool {
    exists|i: int| 0 <= i < bound && #[trigger] db[i].service@ == key
}

/// Whether the sorted key list holds the service `key`.
spec fn key_listed(key: Seq<char>, keys: Seq<(String, Vec<char>)>) -> bool {
    exists|k: int| 0 <= k < keys.len() && (#[trigger] keys[k]).0@ == key
}

/// Whether the finished view holds a group keyed by the service `key`.
pub open spec fn group_listed(key: Seq<char>, r: Seq<(String, DatabaseView)>) -> bool {
    exists|k: int| 0 <= k < r.len() && (#[trigger] r[k]).0@ == key
}

/// Places `svc` into the sorted list of distinct keys, keeping it sorted; a
/// key already present is left alone.
fn insert_key(keys: &mut Vec<(String, Vec<char>)>, svc: &String, svc_chars: Vec<char>)
    requires
        svc@ == svc_chars@,
        forall|k: int|
            0 <= k < old(keys)@.len() ==> (#[trigger] old(keys)@[k]).0@ == old(keys)@[k].1@,
        forall|k: int|
            0 <= k < old(keys)@.len() - 1 ==> lex_lt(
                #[trigger] old(keys)@[k].0@,
                old(keys)@[k + 1].0@,
            ),
    ensures
        forall|k: int|
            0 <= k < final(keys)@.len()
                ==> (#[trigger] final(keys)@[k]).0@ == final(keys)@[k].1@,
        forall|k: int|
            0 <= k < final(keys)@.len() - 1 ==> lex_lt(
                #[trigger] final(keys)@[k].0@,
                final(keys)@[k + 1].0@,
            ),
        key_listed(svc@, final(keys)@),
        forall|k: int|
            0 <= k < final(keys)@.len() ==> ((#[trigger] final(keys)@[k]).0@ == svc@ || key_listed(
                final(keys)@[k].0@,
                old(keys)@,
            )),
        forall|k2: int|
            0 <= k2 < old(keys)@.len() ==> key_listed(
                (#[trigger] old(keys)@[k2]).0@,
                final(keys)@,
            ),
{
    let mut i: usize = 0;
    loop
        invariant
            svc@ == svc_chars@,
            i <= keys.len(),
            forall|k: int| 0 <= k < keys@.len() ==> (#[trigger] keys@[k]).0@ == keys@[k].1@,
            forall|k: int|
                0 <= k < keys@.len() - 1 ==> lex_lt(#[trigger] keys@[k].0@, keys@[k + 1].0@),
            forall|k: int| 0 <= k < i ==> lex_lt((#[trigger] keys@[k]).0@, svc@),
        ensures
            i <= keys.len(),
            forall|k: int| 0 <= k < i ==> lex_lt((#[trigger] keys@[k]).0@, svc@),
            i < keys.len() ==> !lex_lt(keys@[i as int].0@, svc@),
        decreases keys.len() - i,
    {
        if i == keys.len() {
            break;
        }
        if crate::text::str_lt(&keys[i].1, &svc_chars) {
            i = i + 1;
        } else {
            break;
        }
    }
    if i < keys.len() {
        if crate::text::chars_eq(&keys[i].1, &svc_chars) {
            proof {
                assert(keys@[i as int].0@ =~= svc@);
                assert(key_listed(svc@, keys@));
                assert forall|k2: int| 0 <= k2 < keys@.len() implies key_listed(
                    (#[trigger] keys@[k2]).0@,
                    keys@,
                ) by {
                    assert(0 <= k2 < keys@.len() && keys@[k2].0@ == keys@[k2].0@);
                }
            }
            return ;
        }
    }
    let ghost old_keys = keys@;
    proof {
        if i < keys@.len() {
            crate::text::lemma_lex_trichotomy(keys@[i as int].0@, svc@);
            assert(lex_lt(svc@, keys@[i as int].0@));
        }
    }
    keys.insert(i, (svc.clone(), svc_chars));
    proof {
        let ks = keys@;
        assert(ks[i as int].0@ == svc@);
        assert(key_listed(svc@, ks));
        assert forall|k: int| 0 <= k < ks.len() - 1 implies lex_lt(
            (#[trigger] ks[k]).0@,
            ks[k + 1].0@,
        ) by {
            if k < i as int - 1 {
                assert(ks[k] == old_keys[k] && ks[k + 1] == old_keys[k + 1]);
            } else if k == i as int - 1 {
                assert(ks[k] == old_keys[k]);
            } else if k == i as int {
                assert(ks[k + 1] == old_keys[k]);
            } else {
                assert(ks[k] == old_keys[k - 1] && ks[k + 1] == old_keys[k]);
            }
        }
        assert forall|k: int| 0 <= k < ks.len() implies ((#[trigger] ks[k]).0@ == svc@
            || key_listed(ks[k].0@, old_keys)) by {
            if k < i as int {
                assert(old_keys[k].0@ == ks[k].0@);
            } else if k > i as int {
                assert(old_keys[k - 1].0@ == ks[k].0@);
            }
        }
        assert forall|k2: int| 0 <= k2 < old_keys.len() implies key_listed(
            (#[trigger] old_keys[k2]).0@,
            ks,
        ) by {
            if k2 < i as int {
                assert(ks[k2].0@ == old_keys[k2].0@);
            } else {
                assert(ks[k2 + 1].0@ == old_keys[k2].0@);
            }
        }
    }
}

/// The positions of all records carrying exactly the given service text.
fn collect_members(passwords: &Vec<Password>, key_chars: &Vec<char>) -> (members: Vec<usize>)
    ensures
        members@ == service_indices(passwords@, key_chars@, passwords@.len() as int),
{
    let n = passwords.len();
    let mut members: Vec<usize> = Vec::new();
    for idx in 0..n
        invariant
            n == passwords@.len(),
            members@ == service_indices(passwords@, key_chars@, idx as int),
    {
        let svc_chars = crate::text::str_chars(passwords[idx].service.as_str());
        if crate::text::chars_eq(key_chars, &svc_chars) {
            proof {
                assert(passwords@[idx as int].service@ =~= key_chars@);
            }
            members.push(idx);
        } else {
            proof {
                assert(passwords@[idx as int].service@ != key_chars@);
            }
        }
    }
    members
}

impl Database {
    /// Initializes a new, empty database.
    pub fn new() -> (db: Database)
        ensures
            db.passwords@.len() == 0,
    {
        Database { passwords: Vec::new() }
    }

    /// Appends a record; nothing is validated and duplicates are kept.
    pub fn insert(&mut self, data: Password)
        ensures
            final(self).passwords@ == old(self).passwords@.push(data),
    {
        self.passwords.push(data);
    }

    /// Builds the query view: the records whose service the query matches as
    /// a case-insensitive subsequence, grouped by exact service name. Groups
    /// come out keyed in increasing text order, each group lists the
    /// positions of its records in scan order, and every group starts
    /// folded.
    #[verifier::rlimit(100)]
    pub fn view(&self, service: &str) -> (r: Vec<(String, DatabaseView)>)
        ensures
            forall|k: int| 0 <= k < r@.len() ==> (#[trigger] r@[k]).1.expanded == false,
            forall|k: int| 0 <= k < r@.len() ==> subseq_match(service@, (#[trigger] r@[k]).0@),
            forall|k: int| 0 <= k < r@.len() - 1 ==> lex_lt((#[trigger] r@[k]).0@, r@[k + 1].0@),
            forall|k: int|
                0 <= k < r@.len() ==> (#[trigger] r@[k]).1.members@ == service_indices(
                    self.passwords@,
                    r@[k].0@,
                    self.passwords@.len() as int,
                ),
            forall|k: int| 0 <= k < r@.len() ==> (#[trigger] r@[k]).1.members@.len() > 0,
            forall|i: int|
                0 <= i < self.passwords@.len() && subseq_match(
                    service@,
                    #[trigger] self.passwords@[i].service@,
                ) ==> group_listed(self.passwords@[i].service@, r@),
    {
        let ghost db = self.passwords@;
        let n = self.passwords.len();
        let mut keys: Vec<(String, Vec<char>)> = Vec::new();
        for idx in 0..n
            invariant
                n == db.len(),
                db == self.passwords@,
                forall|k: int| 0 <= k < keys@.len() ==> (#[trigger] keys@[k]).0@ == keys@[k].1@,
                forall|k: int|
                    0 <= k < keys@.len() - 1 ==> lex_lt(#[trigger] keys@[k].0@, keys@[k + 1].0@),
                forall|k: int|
                    0 <= k < keys@.len() ==> subseq_match(service@, (#[trigger] keys@[k]).0@),
                forall|k: int|
                    0 <= k < keys@.len() ==> key_from_scan((#[trigger] keys@[k]).0@, db, idx as int),
                forall|i: int|
                    0 <= i < idx && subseq_match(service@, #[trigger] db[i].service@)
                        ==> key_listed(db[i].service@, keys@),
        {
            let ghost old_keys = keys@;
            let svc = &self.passwords[idx].service;
            if crate::subseq::subsequence(service, svc.as_str()) {
                let svc_chars = crate::text::str_chars(svc.as_str());
                insert_key(&mut keys, svc, svc_chars);
                proof {
                    assert(db[idx as int].service@ == svc@);
                    assert forall|k: int| 0 <= k < keys@.len() implies key_from_scan(
                        (#[trigger] keys@[k]).0@,
                        db,
                        idx + 1,
                    ) by {
                        if keys@[k].0@ == svc@ {
                            assert(db[idx as int].service@ == keys@[k].0@);
                        } else {
                            assert(key_listed(keys@[k].0@, old_keys));
                            let k2 = choose|k2: int|
                                0 <= k2 < old_keys.len() && (#[trigger] old_keys[k2]).0@
                                    == keys@[k].0@;
                            assert(key_from_scan(old_keys[k2].0@, db, idx as int));
                            let i = choose|i: int|
                                0 <= i < idx && #[trigger] db[i].service@ == old_keys[k2].0@;
                            assert(db[i].service@ == keys@[k].0@);
                        }
                    }
                    assert forall|i: int|
                        0 <= i < idx + 1 && subseq_match(
                            service@,
                            #[trigger] db[i].service@,
                        ) implies key_listed(db[i].service@, keys@) by {
                        if i == idx as int {
                            assert(key_listed(svc@, keys@));
                        } else {
                            assert(key_listed(db[i].service@, old_keys));
                            let k_old = choose|k: int|
                                0 <= k < old_keys.len() && (#[trigger] old_keys[k]).0@ == db[
                                    i
                                ].service@;
                            assert(key_listed(old_keys[k_old].0@, keys@));
                        }
                    }
                }
            } else {
                proof {
                    assert(!subseq_match(service@, db[idx as int].service@));
                    assert forall|k: int| 0 <= k < keys@.len() implies key_from_scan(
                        (#[trigger] keys@[k]).0@,
                        db,
                        idx + 1,
                    ) by {
                        let i = choose|i: int|
                            0 <= i < idx && #[trigger] db[i].service@ == keys@[k].0@;
                        assert(db[i].service@ == keys@[k].0@);
                    }
                }
            }
        }
        let mut r: Vec<(String, DatabaseView)> = Vec::new();
        let m = keys.len();
        for k in 0..m
            invariant
                n == db.len(),
                db == self.passwords@,
                m == keys@.len(),
                r@.len() == k,
                forall|j: int| 0 <= j < keys@.len() ==> (#[trigger] keys@[j]).0@ == keys@[j].1@,
                forall|j: int|
                    0 <= j < keys@.len() - 1 ==> lex_lt(#[trigger] keys@[j].0@, keys@[j + 1].0@),
                forall|j: int|
                    0 <= j < keys@.len() ==> subseq_match(service@, (#[trigger] keys@[j]).0@),
                forall|j: int|
                    0 <= j < keys@.len() ==> key_from_scan((#[trigger] keys@[j]).0@, db, n as int),
                forall|i: int|
                    0 <= i < n && subseq_match(service@, #[trigger] db[i].service@)
                        ==> key_listed(db[i].service@, keys@),
                forall|j: int| 0 <= j < k ==> (#[trigger] r@[j]).0@ == keys@[j].0@,
                forall|j: int| 0 <= j < k ==> (#[trigger] r@[j]).1.expanded == false,
                forall|j: int|
                    0 <= j < k ==> (#[trigger] r@[j]).1.members@ == service_indices(
                        db,
                        r@[j].0@,
                        n as int,
                    ),
                forall|j: int| 0 <= j < k ==> (#[trigger] r@[j]).1.members@.len() > 0,
        {
            let key_string = keys[k].0.clone();
            let ghost kv = keys@[k as int].0@;
            proof {
                assert(key_string@ == kv);
            }
            let members = collect_members(&self.passwords, &keys[k].1);
            proof {
                assert(key_from_scan(kv, db, n as int));
                let i0 = choose|i: int| 0 <= i < n && #[trigger] db[i].service@ == kv;
                lemma_service_indices_nonempty(db, kv, i0, n as int);
            }
            r.push((key_string, DatabaseView { expanded: false, members }));
        }
        proof {
            assert forall|i: int|
                0 <= i < n && subseq_match(service@, #[trigger] db[i].service@) implies
                group_listed(db[i].service@, r@) by {
                assert(key_listed(db[i].service@, keys@));
                let j = choose|j: int|
                    0 <= j < keys@.len() && (#[trigger] keys@[j]).0@ == db[i].service@;
                assert((r@[j]).0@ == db[i].service@);
            }
        }
        r
    }
}

} // verus!
