//! The index for discovery: for each protocol, the sessions that serve it and
//! the address of each.

use crate::identity::{same_text, Session};
use vstd::prelude::*;

verus! {

/// A session that serves a protocol, with the address it registered.
struct Member {
    session: Session,
    address: String,
}

/// The sessions that serve one protocol.
struct Bucket {
    name: String,
    members: Vec<Member>,
}

/// The index: a bucket for each protocol that was ever served.
pub struct ProtocolIndex {
    buckets: Vec<Bucket>,
}

/// The index as contracts see it: for each protocol, the address of each
/// session that serves it.
pub type IndexView = Map<Seq<char>, Map<Session, Seq<char>>>;

/// Whether `session` serves some protocol of the index.
pub open spec fn serves(index: IndexView, session: Session) -> bool {
    exists|protocol: Seq<char>| #[trigger]
        index.contains_key(protocol) && index[protocol].contains_key(session)
}

/// Whether `list` holds the addresses of `members`, one for each session.
pub open spec fn lists(members: Map<Session, Seq<char>>, list: Seq<String>) -> bool {
    exists|order: Seq<Session>|
        {
            &&& order.no_duplicates()
            &&& order.len() == list.len()
            &&& #[trigger] order.to_set() == members.dom()
            &&& forall|i: int| 0 <= i < list.len() ==> (#[trigger] list[i])@ == members[order[i]]
        }
}

/// Whether no session stands twice among `members`.
spec fn distinct(members: Seq<Member>) -> bool {
    forall|i: int, j: int|
        0 <= i < j < members.len() ==> (#[trigger] members[i]).session
            != (#[trigger] members[j]).session
}

/// Whether `session` stands among `members`.
spec fn has_member(members: Seq<Member>, session: Session) -> bool {
    exists|i: int| 0 <= i < members.len() && (#[trigger] members[i]).session == session
}

/// Where `session` stands among `members`.
spec fn member_at(members: Seq<Member>, session: Session) -> int {
    choose|i: int| 0 <= i < members.len() && (#[trigger] members[i]).session == session
}

/// The address of each session among `members`.
spec fn addresses(members: Seq<Member>) -> Map<Session, Seq<char>> {
    Map::new(
        |session: Session| has_member(members, session),
        |session: Session| members[member_at(members, session)].address@,
    )
}

/// Whether `buckets` has one for `protocol`.
spec fn has_bucket(buckets: Seq<Bucket>, protocol: Seq<char>) -> bool {
    exists|b: int| 0 <= b < buckets.len() && (#[trigger] buckets[b]).name@ == protocol
}

/// Where the bucket of `protocol` stands.
spec fn bucket_at(buckets: Seq<Bucket>, protocol: Seq<char>) -> int {
    choose|b: int| 0 <= b < buckets.len() && (#[trigger] buckets[b]).name@ == protocol
}

/// Whether every protocol has one bucket, and every bucket each session once.
spec fn tidy(buckets: Seq<Bucket>) -> bool {
    &&& forall|a: int, b: int|
        0 <= a < b < buckets.len() ==> (#[trigger] buckets[a]).name@ != (#[trigger] buckets[b]).name@
    &&& forall|b: int| 0 <= b < buckets.len() ==> distinct((#[trigger] buckets[b]).members@)
}

/// What a list of buckets stands for.
spec fn contents(buckets: Seq<Bucket>) -> IndexView {
    Map::new(
        |protocol: Seq<char>| has_bucket(buckets, protocol),
        |protocol: Seq<char>| addresses(buckets[bucket_at(buckets, protocol)].members@),
    )
}

proof fn lemma_member(members: Seq<Member>, i: int)
    requires
        distinct(members),
        0 <= i < members.len(),
    ensures
        has_member(members, members[i].session),
        member_at(members, members[i].session) == i,
        addresses(members).contains_key(members[i].session),
        addresses(members)[members[i].session] == members[i].address@,
{
    let at = member_at(members, members[i].session);
    assert(members[at].session == members[i].session);
}

proof fn lemma_bucket(buckets: Seq<Bucket>, b: int)
    requires
        tidy(buckets),
        0 <= b < buckets.len(),
    ensures
        has_bucket(buckets, buckets[b].name@),
        bucket_at(buckets, buckets[b].name@) == b,
        contents(buckets).contains_key(buckets[b].name@),
        contents(buckets)[buckets[b].name@] == addresses(buckets[b].members@),
{
    let at = bucket_at(buckets, buckets[b].name@);
    assert(buckets[at].name@ == buckets[b].name@);
}

/// A session put behind the others, or in the place it had, changes its own
/// address and no other.
proof fn lemma_members_put(before: Seq<Member>, after: Seq<Member>, at: int)
    requires
        distinct(before),
        0 <= at < after.len(),
        at < before.len() ==> after.len() == before.len() && before[at].session
            == after[at].session,
        at >= before.len() ==> at == before.len() && after.len() == before.len() + 1
            && !has_member(before, after[at].session),
        forall|i: int| 0 <= i < before.len() && i != at ==> before[i] == after[i],
    ensures
        distinct(after),
        addresses(after) == addresses(before).insert(after[at].session, after[at].address@),
{
    assert forall|i: int, j: int| 0 <= i < j < after.len() implies (#[trigger] after[i]).session != (
    #[trigger] after[j]).session by {
        if i < before.len() && j < before.len() {
            assert(before[i].session == after[i].session);
            assert(before[j].session == after[j].session);
        } else {
            assert(before[i].session == after[i].session);
        }
    }
    let wanted = addresses(before).insert(after[at].session, after[at].address@);
    assert forall|s: Session| addresses(after).contains_key(s) <==> wanted.contains_key(s) by {
        if has_member(before, s) {
            let i = member_at(before, s);
            assert(after[i].session == s);
        }
        if s == after[at].session {
            assert(after[at].session == s);
        }
        if has_member(after, s) {
            let i = member_at(after, s);
            if i != at {
                assert(before[i].session == s);
            }
        }
    }
    assert forall|s: Session| addresses(after).contains_key(s) implies addresses(after)[s]
        == wanted[s] by {
        let i = member_at(after, s);
        lemma_member(after, i);
        if i != at {
            assert(before[i] == after[i]);
            lemma_member(before, i);
        }
    }
    assert(addresses(after) =~= wanted);
}

/// A session taken out leaves the others as they were.
proof fn lemma_members_cut(before: Seq<Member>, at: int)
    requires
        distinct(before),
        0 <= at < before.len(),
    ensures
        distinct(before.remove(at)),
        addresses(before.remove(at)) == addresses(before).remove(before[at].session),
{
    let after = before.remove(at);
    assert forall|i: int, j: int| 0 <= i < j < after.len() implies (#[trigger] after[i]).session != (
    #[trigger] after[j]).session by {
        let a = if i < at {
            i
        } else {
            i + 1
        };
        let b = if j < at {
            j
        } else {
            j + 1
        };
        assert(after[i] == before[a]);
        assert(after[j] == before[b]);
    }
    let wanted = addresses(before).remove(before[at].session);
    assert forall|s: Session| addresses(after).contains_key(s) <==> wanted.contains_key(s) by {
        if has_member(before, s) && s != before[at].session {
            let i = member_at(before, s);
            if i < at {
                assert(after[i].session == s);
            } else {
                assert(after[i - 1].session == s);
            }
        }
        if has_member(after, s) {
            let i = member_at(after, s);
            let a = if i < at {
                i
            } else {
                i + 1
            };
            assert(before[a].session == s);
            assert(before[a].session != before[at].session);
        }
    }
    assert forall|s: Session| addresses(after).contains_key(s) implies addresses(after)[s]
        == wanted[s] by {
        let i = member_at(after, s);
        lemma_member(after, i);
        let a = if i < at {
            i
        } else {
            i + 1
        };
        assert(after[i] == before[a]);
        lemma_member(before, a);
    }
    assert(addresses(after) =~= wanted);
}

/// A bucket that changes its members, or a new one behind the others, changes
/// what its own protocol maps to and nothing else.
proof fn lemma_buckets_put(before: Seq<Bucket>, after: Seq<Bucket>, at: int)
    requires
        tidy(before),
        0 <= at < after.len(),
        distinct(after[at].members@),
        at < before.len() ==> after.len() == before.len() && before[at].name@ == after[at].name@,
        at >= before.len() ==> at == before.len() && after.len() == before.len() + 1
            && !has_bucket(before, after[at].name@),
        forall|b: int| 0 <= b < before.len() && b != at ==> before[b] == after[b],
    ensures
        tidy(after),
        contents(after) == contents(before).insert(after[at].name@, addresses(after[at].members@)),
{
    assert forall|a: int, b: int| 0 <= a < b < after.len() implies (#[trigger] after[a]).name@ != (
    #[trigger] after[b]).name@ by {
        if a < before.len() && b < before.len() {
            assert(before[a].name@ == after[a].name@);
            assert(before[b].name@ == after[b].name@);
        } else {
            assert(before[a].name@ == after[a].name@);
        }
    }
    assert forall|b: int| 0 <= b < after.len() implies distinct((#[trigger] after[b]).members@) by {
        if b != at {
            assert(before[b] == after[b]);
        }
    }
    let wanted = contents(before).insert(after[at].name@, addresses(after[at].members@));
    assert forall|p: Seq<char>| contents(after).contains_key(p) <==> wanted.contains_key(p) by {
        if has_bucket(before, p) {
            let b = bucket_at(before, p);
            assert(after[b].name@ == p);
        }
        if p == after[at].name@ {
            assert(after[at].name@ == p);
        }
        if has_bucket(after, p) {
            let b = bucket_at(after, p);
            if b != at {
                assert(before[b].name@ == p);
            }
        }
    }
    assert forall|p: Seq<char>| contents(after).contains_key(p) implies contents(after)[p]
        == wanted[p] by {
        let b = bucket_at(after, p);
        lemma_bucket(after, b);
        if b != at {
            assert(before[b] == after[b]);
            lemma_bucket(before, b);
        }
    }
    assert(contents(after) =~= wanted);
}

/// Whether place `k` of bucket `c` comes before place `i` of bucket `b`, and
/// holds `session`.
spec fn seen_at(
    buckets: Seq<Bucket>,
    b: int,
    i: int,
    c: int,
    k: int,
    session: Session,
) -> bool {
    &&& 0 <= c < buckets.len()
    &&& 0 <= k < buckets[c].members@.len()
    &&& c < b || (c == b && k < i)
    &&& buckets[c].members@[k].session == session
}

/// Whether `buckets` holds `session` before place `i` of bucket `b`.
spec fn seen_before(buckets: Seq<Bucket>, b: int, i: int, session: Session) -> bool {
    exists|c: int, k: int| seen_at(buckets, b, i, c, k, session)
}

/// Where `session` stands among the members.
fn find_member(members: &Vec<Member>, session: Session) -> (at: Option<usize>)
    ensures
        match at {
            Some(i) => i < members@.len() && members@[i as int].session == session,
            None => !has_member(members@, session),
        },
{
    let mut i: usize = 0;
    while i < members.len()
        invariant
            i <= members@.len(),
            forall|k: int| 0 <= k < i ==> (#[trigger] members@[k]).session != session,
        decreases members@.len() - i,
    {
        if members[i].session.token == session.token {
            return Some(i);
        }
        i += 1;
    }
    None
}

impl View for ProtocolIndex {
    type V = IndexView;

    closed spec fn view(&self) -> IndexView {
        contents(self.buckets@)
    }
}

impl ProtocolIndex {
    /// Every protocol has one bucket, and every bucket holds each session once.
    pub closed spec fn wf(&self) -> bool {
        tidy(self.buckets@)
    }

    /// An index without protocols.
    pub fn new() -> (index: ProtocolIndex)
        ensures
            index.wf(),
            index@ == IndexView::empty(),
    {
        let index = ProtocolIndex { buckets: Vec::new() };
        assert(index@ =~= IndexView::empty());
        index
    }

    /// Which bucket is that of `protocol`.
    fn find_bucket(&self, protocol: &str) -> (at: Option<usize>)
        ensures
            match at {
                Some(b) => b < self.buckets@.len() && self.buckets@[b as int].name@ == protocol@,
                None => !has_bucket(self.buckets@, protocol@),
            },
    {
        let mut b: usize = 0;
        while b < self.buckets.len()
            invariant
                b <= self.buckets@.len(),
                forall|k: int| 0 <= k < b ==> (#[trigger] self.buckets@[k]).name@ != protocol@,
            decreases self.buckets@.len() - b,
        {
            if same_text(self.buckets[b].name.as_str(), protocol) {
                return Some(b);
            }
            b += 1;
        }
        None
    }

    /// Enters `session` under `protocol` with `address`, in place of the
    /// address it had there, if any. A protocol that is new to the index gets
    /// its bucket.
    pub fn insert(&mut self, protocol: String, session: Session, address: String)
        requires
            old(self).wf(),
        ensures
            final(self).wf(),
            final(self)@ == old(self)@.insert(
                protocol@,
                if old(self)@.contains_key(protocol@) {
                    old(self)@[protocol@].insert(session, address@)
                } else {
                    Map::<Session, Seq<char>>::empty().insert(session, address@)
                },
            ),
    {
        let ghost before = self.buckets@;
        let member = Member { session, address };
        match self.find_bucket(protocol.as_str()) {
            Some(b) => {
                let ghost members = before[b as int].members@;
                proof {
                    lemma_bucket(before, b as int);
                }
                match find_member(&self.buckets[b].members, session) {
                    Some(i) => {
                        self.buckets[b].members.set(i, member);
                        proof {
                            lemma_members_put(members, self.buckets@[b as int].members@, i as int);
                        }
                    },
                    None => {
                        self.buckets[b].members.push(member);
                        proof {
                            lemma_members_put(
                                members,
                                self.buckets@[b as int].members@,
                                members.len() as int,
                            );
                        }
                    },
                }
                proof {
                    lemma_buckets_put(before, self.buckets@, b as int);
                }
            },
            None => {
                let mut members: Vec<Member> = Vec::new();
                members.push(member);
                self.buckets.push(Bucket { name: protocol, members });
                proof {
                    lemma_members_put(Seq::<Member>::empty(), members@, 0);
                    assert(addresses(Seq::<Member>::empty()) =~= Map::<
                        Session,
                        Seq<char>,
                    >::empty());
                    lemma_buckets_put(before, self.buckets@, before.len() as int);
                }
            },
        }
    }

    /// Takes `session` out of the bucket of `protocol`. The bucket stays, even
    /// when it is empty then.
    pub fn remove(&mut self, protocol: &str, session: Session)
        requires
            old(self).wf(),
        ensures
            final(self).wf(),
            final(self)@ == if old(self)@.contains_key(protocol@) {
                old(self)@.insert(protocol@, old(self)@[protocol@].remove(session))
            } else {
                old(self)@
            },
    {
        let ghost before = self.buckets@;
        match self.find_bucket(protocol) {
            Some(b) => {
                let ghost members = before[b as int].members@;
                proof {
                    lemma_bucket(before, b as int);
                }
                match find_member(&self.buckets[b].members, session) {
                    Some(i) => {
                        self.buckets[b].members.remove(i);
                        proof {
                            lemma_members_cut(members, i as int);
                            lemma_buckets_put(before, self.buckets@, b as int);
                        }
                    },
                    None => {
                        proof {
                            assert(addresses(members).remove(session) =~= addresses(members));
                            assert(self@ =~= old(self)@.insert(protocol@, old(self)@[protocol@]));
                        }
                    },
                }
            },
            None => {},
        }
    }

    /// The addresses that are entered under `protocol`, one for each session
    /// and in no particular order; `None` where the protocol has no bucket.
    pub fn get(&self, protocol: &str) -> (found: Option<Vec<String>>)
        requires
            self.wf(),
        ensures
            found is Some <==> self@.contains_key(protocol@),
            found matches Some(list) ==> lists(self@[protocol@], list@),
    {
        let b = match self.find_bucket(protocol) {
            Some(b) => b,
            None => {
                return None;
            },
        };
        let members = &self.buckets[b].members;
        let mut list: Vec<String> = Vec::new();
        let mut i: usize = 0;
        while i < members.len()
            invariant
                i <= members@.len(),
                list@.len() == i,
                forall|k: int| 0 <= k < i ==> (#[trigger] list@[k])@ == members@[k].address@,
            decreases members@.len() - i,
        {
            list.push(members[i].address.clone());
            i += 1;
        }
        proof {
            lemma_bucket(self.buckets@, b as int);
            let order = Seq::new(members@.len(), |k: int| members@[k].session);
            assert forall|k: int| 0 <= k < list@.len() implies (#[trigger] list@[k])@
                == self@[protocol@][order[k]] by {
                lemma_member(members@, k);
            }
            assert forall|s: Session| order.to_set().contains(s) <==> self@[protocol@].dom().contains(
                s,
            ) by {
                if order.to_set().contains(s) {
                    let k = choose|k: int| 0 <= k < order.len() && order[k] == s;
                    lemma_member(members@, k);
                }
                if has_member(members@, s) {
                    let k = member_at(members@, s);
                    assert(order[k] == s);
                }
            }
            assert(order.to_set() =~= self@[protocol@].dom());
        }
        Some(list)
    }

    /// The sessions that serve some protocol, in no particular order.
    pub fn sessions(&self) -> (all: Vec<Session>)
        requires
            self.wf(),
        ensures
            forall|session: Session| all@.contains(session) <==> serves(self@, session),
    {
        let ghost buckets = self.buckets@;
        let mut all: Vec<Session> = Vec::new();
        let mut b: usize = 0;
        while b < self.buckets.len()
            invariant
                buckets == self.buckets@,
                b <= buckets.len(),
                forall|s: Session| all@.contains(s) <==> seen_before(buckets, b as int, 0, s),
            decreases buckets.len() - b,
        {
            let members = &self.buckets[b].members;
            let mut i: usize = 0;
            while i < members.len()
                invariant
                    buckets == self.buckets@,
                    b < buckets.len(),
                    members@ == buckets[b as int].members@,
                    i <= members@.len(),
                    forall|s: Session|
                        all@.contains(s) <==> seen_before(buckets, b as int, i as int, s),
                decreases members@.len() - i,
            {
                let session = members[i].session;
                let ghost earlier = all@;
                all.push(session);
                proof {
                    let bucket = b as int;
                    let here = i as int;
                    let next = i + 1;
                    assert forall|s: Session|
                        all@.contains(s) <==> seen_before(buckets, bucket, next, s) by {
                        if earlier.contains(s) {
                            let k = choose|k: int| 0 <= k < earlier.len() && earlier[k] == s;
                            assert(all@[k] == s);
                        }
                        if s == session {
                            assert(all@[earlier.len() as int] == s);
                            assert(seen_at(buckets, bucket, next, bucket, here, s));
                        }
                        if seen_before(buckets, bucket, here, s) {
                            let (c, k) = choose|c: int, k: int|
                                seen_at(buckets, bucket, here, c, k, s);
                            assert(seen_at(buckets, bucket, next, c, k, s));
                        }
                        if seen_before(buckets, bucket, next, s) {
                            let (c, k) = choose|c: int, k: int|
                                seen_at(buckets, bucket, next, c, k, s);
                            if c == bucket && k == here {
                            } else {
                                assert(seen_at(buckets, bucket, here, c, k, s));
                            }
                        }
                    }
                }
                i += 1;
            }
            proof {
                let bucket = b as int;
                let next = b + 1;
                let end = members@.len() as int;
                assert forall|s: Session|
                    seen_before(buckets, next, 0, s) <==> seen_before(buckets, bucket, end, s) by {
                    if seen_before(buckets, next, 0, s) {
                        let (c, k) = choose|c: int, k: int| seen_at(buckets, next, 0, c, k, s);
                        assert(seen_at(buckets, bucket, end, c, k, s));
                    }
                    if seen_before(buckets, bucket, end, s) {
                        let (c, k) = choose|c: int, k: int| seen_at(buckets, bucket, end, c, k, s);
                        assert(seen_at(buckets, next, 0, c, k, s));
                    }
                }
            }
            b += 1;
        }
        proof {
            let end = b as int;
            assert forall|s: Session| seen_before(buckets, end, 0, s) <==> serves(self@, s) by {
                if seen_before(buckets, end, 0, s) {
                    let (c, k) = choose|c: int, k: int| seen_at(buckets, end, 0, c, k, s);
                    lemma_bucket(buckets, c);
                    lemma_member(buckets[c].members@, k);
                    assert(self@.contains_key(buckets[c].name@));
                }
                if serves(self@, s) {
                    let p = choose|p: Seq<char>| #[trigger]
                        self@.contains_key(p) && self@[p].contains_key(s);
                    let c = bucket_at(buckets, p);
                    let k = member_at(buckets[c].members@, s);
                    assert(seen_at(buckets, end, 0, c, k, s));
                }
            }
        }
        all
    }
}

} // verus!
