//! The registry in memory: who is registered, under which session, and which
//! addresses serve each protocol.

use crate::book::{
    lemma_dropped_knows, lemma_operations_keep_wf, lemma_pinged_knows, lemma_registered_knows,
    stale, BookView, EntryView,
};
use crate::clock::elapsed_nanos;
use crate::identity::{new_v4_session, IdentityView, ServiceIdentity, Session};
use crate::index::{serves, IndexView, ProtocolIndex};
use crate::known::KnownSet;
use std::collections::HashMap;
use std::time::Instant;
use vstd::prelude::*;

verus! {

broadcast use vstd::std_specs::hash::group_hash_axioms;

/// One live registration.
pub struct Service {
    /// When the service was last heard of, in nanoseconds on the registry's
    /// clock.
    pub last_seen: u128,
    pub id: ServiceIdentity,
}

impl View for Service {
    type V = EntryView;

    open spec fn view(&self) -> EntryView {
        EntryView { id: self.id@, last_seen: self.last_seen as nat }
    }
}

/// The registry. It keeps three containers in step: the identities that are
/// registered, the registration of each session, and for each protocol the
/// sessions that serve it.
pub struct ServiceBook {
    started: Instant,
    trusted: HashMap<u128, Service>,
    known: KnownSet,
    protocol: ProtocolIndex,
}

/// The characters of each string of a list.
pub open spec fn texts(list: Seq<String>) -> Seq<Seq<char>> {
    list.map_values(|text: String| text@)
}

impl View for ServiceBook {
    type V = BookView;

    closed spec fn view(&self) -> BookView {
        BookView {
            sessions: Map::new(
                |s: Session| self.trusted@.contains_key(s.token),
                |s: Session| self.trusted@[s.token]@,
            ),
            protocols: self.protocol@.dom(),
        }
    }
}

impl ServiceBook {
    /// The identities that the set of known identities holds.
    pub closed spec fn known(&self) -> Set<IdentityView> {
        self.known@
    }

    /// What the index for discovery holds.
    pub closed spec fn by_protocol(&self) -> IndexView {
        self.protocol@
    }

    /// The registry is in one of its states, and the known identities and the
    /// index hold what the live sessions say they should.
    pub closed spec fn wf(&self) -> bool {
        &&& self@.wf()
        &&& self.known.wf()
        &&& self.known@ == self@.known()
        &&& self.protocol.wf()
        &&& self.protocol@ == self@.by_protocol()
    }

    /// In a registry that is well kept the three containers agree: the known
    /// identities and the index are what the model derives from the live
    /// sessions.
    pub proof fn lemma_well_kept(&self)
        requires
            self.wf(),
        ensures
            self@.wf(),
            self.known() == self@.known(),
            self.by_protocol() == self@.by_protocol(),
    {
    }

    /// An empty registry, whose clock starts now.
    pub fn new() -> (book: ServiceBook)
        ensures
            book.wf(),
            book@ == BookView::empty(),
    {
        let book = ServiceBook {
            started: Instant::now(),
            trusted: HashMap::new(),
            known: KnownSet::new(),
            protocol: ProtocolIndex::new(),
        };
        proof {
            assert(book@.sessions =~= Map::<Session, EntryView>::empty());
            assert(book@.protocols =~= Set::<Seq<char>>::empty());
            assert forall|id: IdentityView| !book@.knows(id) by {
                assert forall|s: Session| !book@.holds(s, id) by {}
            }
            assert(book.known@ =~= book@.known());
            assert(book.protocol@ =~= book@.by_protocol());
        }
        book
    }

    /// Refreshes the registration of `session` at the time `now`. It returns
    /// whether the session is live; a session that is not changes nothing.
    pub fn ping_at(&mut self, session: &Session, now: u128) -> (alive: bool)
        requires
            old(self).wf(),
        ensures
            final(self).wf(),
            alive == old(self)@.sessions.contains_key(*session),
            final(self)@ == if alive {
                old(self)@.pinged(*session, now as nat)
            } else {
                old(self)@
            },
    {
        let ghost before = self@;
        match self.trusted.remove(&session.token) {
            None => {
                proof {
                    assert(self.trusted@ =~= old(self).trusted@);
                }
                false
            },
            Some(service) => {
                self.trusted.insert(session.token, Service { last_seen: now, id: service.id });
                proof {
                    let after = before.pinged(*session, now as nat);
                    assert(self@.sessions =~= after.sessions);
                    lemma_operations_keep_wf(before, service.id@, *session, now as nat, 0);
                    assert forall|id: IdentityView| before.knows(id) <==> after.knows(id) by {
                        lemma_pinged_knows(before, *session, now as nat, id);
                    }
                    assert(after.known() =~= before.known());
                    assert(after.by_protocol() =~~= before.by_protocol());
                }
                true
            },
        }
    }

    /// Registers `id` under `session` at the time `now`, unless the identity is
    /// registered already or the session is in use; then nothing changes.
    pub fn add_address_at(&mut self, id: ServiceIdentity, session: Session, now: u128) -> (granted:
        Option<Session>)
        requires
            old(self).wf(),
        ensures
            final(self).wf(),
            granted == old(self)@.grants(id@, session),
            granted is Some ==> final(self)@ == old(self)@.registered(id@, session, now as nat),
            granted is None ==> final(self)@ == old(self)@,
    {
        if self.known.contains(&id) {
            return None;
        }
        if self.trusted.contains_key(&session.token) {
            return None;
        }
        let ghost before = self@;
        let service = Service { last_seen: now, id: id.duplicate() };
        self.protocol.insert(id.protocol.clone(), session, id.address.clone());
        self.known.insert(id);
        self.trusted.insert(session.token, service);
        proof {
            let after = before.registered(id@, session, now as nat);
            assert(self@.sessions =~= after.sessions);
            assert(self@.protocols =~= after.protocols);
            lemma_operations_keep_wf(before, id@, session, now as nat, 0);
            assert forall|x: IdentityView| after.knows(x) <==> before.knows(x) || x == id@ by {
                lemma_registered_knows(before, id@, session, now as nat, x);
            }
            assert(self.known@ =~= after.known());
            assert(self.protocol@ =~~= after.by_protocol());
        }
        Some(session)
    }

    /// Takes `session` out of all three containers, if it is live.
    fn drop_session(&mut self, session: Session)
        requires
            old(self).wf(),
        ensures
            final(self).wf(),
            final(self)@ == old(self)@.dropped(session),
    {
        let ghost before = self@;
        let service = match self.trusted.remove(&session.token) {
            Some(service) => service,
            None => {
                proof {
                    assert(self.trusted@ =~= old(self).trusted@);
                    assert(self@.sessions =~= before.dropped(session).sessions);
                }
                return ;
            },
        };
        self.known.remove(&service.id);
        self.protocol.remove(service.id.protocol.as_str(), session);
        proof {
            let after = before.dropped(session);
            assert(self@.sessions =~= after.sessions);
            assert(self@.protocols =~= after.protocols);
            lemma_operations_keep_wf(before, service.id@, session, 0, 0);
            assert forall|x: IdentityView|
                after.knows(x) <==> before.knows(x) && x != service.id@ by {
                lemma_dropped_knows(before, session, x);
            }
            assert(self.known@ =~= after.known());
            assert(self.protocol@ =~~= after.by_protocol());
        }
    }

    /// The sessions that were silent for longer than `older_than` at the time
    /// `now`.
    fn stale_sessions(&self, now: u128, older_than: u128) -> (doomed: Vec<Session>)
        requires
            self.wf(),
        ensures
            forall|s: Session|
                doomed@.contains(s) <==> self@.sessions.contains_key(s) && stale(
                    self@.sessions[s].last_seen,
                    now as nat,
                    older_than as nat,
                ),
    {
        let all = self.protocol.sessions();
        let mut doomed: Vec<Session> = Vec::new();
        let mut i: usize = 0;
        proof {
            assert forall|s: Session| serves(self.protocol@, s) <==> self@.sessions.contains_key(
                s,
            ) by {
                if self@.sessions.contains_key(s) {
                    let p = self@.sessions[s].id.protocol;
                    assert(self.protocol@.contains_key(p) && self.protocol@[p].contains_key(s));
                }
            }
        }
        while i < all.len()
            invariant
                i <= all@.len(),
                forall|s: Session| all@.contains(s) <==> self@.sessions.contains_key(s),
                forall|s: Session|
                    doomed@.contains(s) <==> all@.take(i as int).contains(s) && stale(
                        self@.sessions[s].last_seen,
                        now as nat,
                        older_than as nat,
                    ),
            decreases all@.len() - i,
        {
            let session = all[i];
            let ghost earlier = doomed@;
            let ghost sofar = all@.take(i as int);
            let ghost upto = all@.take(i + 1);
            let silent = match self.trusted.get(&session.token) {
                Some(service) => now > service.last_seen && now - service.last_seen > older_than,
                None => false,
            };
            if silent {
                doomed.push(session);
            }
            proof {
                assert(all@.contains(session));
                assert(silent <==> stale(
                    self@.sessions[session].last_seen,
                    now as nat,
                    older_than as nat,
                ));
                assert forall|s: Session| upto.contains(s) <==> sofar.contains(s) || s
                    == session by {
                    if sofar.contains(s) {
                        let k = choose|k: int| 0 <= k < sofar.len() && sofar[k] == s;
                        assert(upto[k] == s);
                    }
                    if s == session {
                        assert(upto[i as int] == s);
                    }
                    if upto.contains(s) {
                        let k = choose|k: int| 0 <= k < upto.len() && upto[k] == s;
                        if k < i {
                            assert(sofar[k] == s);
                        }
                    }
                }
                assert forall|s: Session|
                    doomed@.contains(s) <==> earlier.contains(s) || (silent && s == session) by {
                    if earlier.contains(s) {
                        let k = choose|k: int| 0 <= k < earlier.len() && earlier[k] == s;
                        assert(doomed@[k] == s);
                    }
                    if silent && s == session {
                        assert(doomed@[earlier.len() as int] == s);
                    }
                }
                assert forall|s: Session|
                    doomed@.contains(s) <==> upto.contains(s) && stale(
                        self@.sessions[s].last_seen,
                        now as nat,
                        older_than as nat,
                    ) by {
                    assert(doomed@.contains(s) <==> earlier.contains(s) || (silent && s
                        == session));
                    assert(upto.contains(s) <==> sofar.contains(s) || s == session);
                }
            }
            i += 1;
        }
        proof {
            assert(all@.take(i as int) =~= all@);
        }
        doomed
    }

    /// Sweeps the registry at the time `now`: every registration that was
    /// silent for longer than `older_than` leaves all three containers, and its
    /// identity is free again. The others stay as they are.
    pub fn clean_at(&mut self, now: u128, older_than: u128)
        requires
            old(self).wf(),
        ensures
            final(self).wf(),
            final(self)@ == old(self)@.evicted(now as nat, older_than as nat),
    {
        let ghost before = self@;
        let doomed = self.stale_sessions(now, older_than);
        let mut k: usize = 0;
        proof {
            assert(doomed@.take(0).to_set() =~= Set::<Session>::empty());
            assert(before.sessions.remove_keys(Set::<Session>::empty()) =~= before.sessions);
        }
        while k < doomed.len()
            invariant
                self.wf(),
                k <= doomed@.len(),
                self@.protocols == before.protocols,
                self@.sessions == before.sessions.remove_keys(doomed@.take(k as int).to_set()),
            decreases doomed@.len() - k,
        {
            let ghost gone = doomed@.take(k as int).to_set();
            self.drop_session(doomed[k]);
            proof {
                let sofar = doomed@.take(k as int);
                let upto = doomed@.take(k + 1);
                let next = upto.to_set();
                assert forall|s: Session| next.contains(s) <==> gone.contains(s) || s
                    == doomed@[k as int] by {
                    if gone.contains(s) {
                        let i = choose|i: int| 0 <= i < sofar.len() && sofar[i] == s;
                        assert(upto[i] == s);
                    }
                    if s == doomed@[k as int] {
                        assert(upto[k as int] == s);
                    }
                    if next.contains(s) {
                        let i = choose|i: int| 0 <= i < upto.len() && upto[i] == s;
                        if i < k {
                            assert(sofar[i] == s);
                        }
                    }
                }
                assert(self@.sessions =~= before.sessions.remove_keys(next));
            }
            k += 1;
        }
        proof {
            let swept = before.evicted(now as nat, older_than as nat);
            assert(doomed@.take(k as int) =~= doomed@);
            assert forall|s: Session| doomed@.to_set().contains(s) <==> doomed@.contains(s) by {}
            assert(self@.sessions =~= swept.sessions);
        }
    }

    /// The nanoseconds that the registry's clock shows.
    fn now(&self) -> (now: u128) {
        elapsed_nanos(&self.started)
    }

    /// Sweeps the registry by its own clock: every registration that has been
    /// silent for more than `older_than` nanoseconds is gone afterwards.
    pub fn clean(&mut self, older_than: u128)
        requires
            old(self).wf(),
        ensures
            final(self).wf(),
            exists|now: nat| final(self)@ == #[trigger] old(self)@.evicted(now, older_than as nat),
    {
        let now = self.now();
        self.clean_at(now, older_than);
    }

    /// Refreshes the registration of `session` by the registry's own clock. It
    /// returns whether the session is live; a session that is not changes
    /// nothing.
    pub fn ping(&mut self, session: &Session) -> (alive: bool)
        requires
            old(self).wf(),
        ensures
            final(self).wf(),
            alive == old(self)@.sessions.contains_key(*session),
            alive ==> exists|now: nat| final(self)@ == #[trigger] old(self)@.pinged(*session, now),
            !alive ==> final(self)@ == old(self)@,
    {
        let now = self.now();
        self.ping_at(session, now)
    }

    /// Registers `id` under a session drawn at random, by the registry's own
    /// clock. The answer is what the draw is granted: the drawn session, unless
    /// the identity is registered already or, with a chance that is next to
    /// nothing, the draw hits a session in use. A registration that is turned
    /// away changes nothing. So an identity that is registered is always turned
    /// away, and one that is not is always granted while no session is in use.
    pub fn add_address(&mut self, id: ServiceIdentity) -> (granted: Option<Session>)
        requires
            old(self).wf(),
        ensures
            final(self).wf(),
            exists|session: Session| granted == #[trigger] old(self)@.grants(id@, session),
            old(self)@.knows(id@) ==> granted is None,
            granted is None ==> final(self)@ == old(self)@,
            granted is Some ==> exists|now: nat|
                final(self)@ == #[trigger] old(self)@.registered(id@, granted->0, now),
    {
        let ghost before = self@;
        let ghost who = id@;
        let session = new_v4_session();
        let now = self.now();
        let granted = self.add_address_at(id, session, now);
        proof {
            assert(granted == before.grants(who, session));
            if granted is Some {
                let at = now as nat;
                assert(self@ == before.registered(who, granted->0, at));
                assert(exists|now: nat| self@ == #[trigger] before.registered(who, granted->0, now));
            }
        }
        granted
    }

    /// The addresses that are live under `protocol`, each once and in no
    /// particular order: `None` where the registry has no index for the
    /// protocol, an empty list where all who served it are gone.
    pub fn get(&self, protocol: &str) -> (found: Option<Vec<String>>)
        requires
            self.wf(),
        ensures
            found is Some <==> self@.protocols.contains(protocol@),
            found matches Some(list) ==> {
                &&& texts(list@).no_duplicates()
                &&& texts(list@).to_set() == self@.addresses(protocol@)
            },
    {
        let found = self.protocol.get(protocol);
        proof {
            if found is Some {
                let list = found->0;
                let members = self@.by_protocol()[protocol@];
                let order = choose|order: Seq<Session>|
                    {
                        &&& order.no_duplicates()
                        &&& order.len() == list@.len()
                        &&& #[trigger] order.to_set() == members.dom()
                        &&& forall|i: int|
                            0 <= i < list@.len() ==> (#[trigger] list@[i])@ == members[order[i]]
                    };
                let found = texts(list@);
                assert forall|i: int| 0 <= i < found.len() implies self@.holds(
                    order[i],
                    IdentityView { protocol: protocol@, address: found[i] },
                ) by {
                    assert(order.to_set().contains(order[i]));
                    assert(list@[i]@ == members[order[i]]);
                }
                assert forall|i: int, j: int| 0 <= i < j < found.len() implies found[i]
                    != found[j] by {
                    assert(self@.sessions[order[i]].id.address == found[i]);
                    assert(self@.sessions[order[j]].id.address == found[j]);
                }
                assert forall|address: Seq<char>|
                    found.to_set().contains(address) <==> self@.addresses(protocol@).contains(
                        address,
                    ) by {
                    let id = IdentityView { protocol: protocol@, address };
                    if found.to_set().contains(address) {
                        let i = choose|i: int| 0 <= i < found.len() && found[i] == address;
                        assert(self@.holds(order[i], id));
                    }
                    if self@.knows(id) {
                        let s = choose|s: Session| self@.holds(s, id);
                        assert(members.dom().contains(s));
                        assert(order.to_set().contains(s));
                        let i = choose|i: int| 0 <= i < order.len() && order[i] == s;
                        assert(list@[i]@ == members[order[i]]);
                        assert(found[i] == address);
                    }
                }
                assert(found.to_set() =~= self@.addresses(protocol@));
            }
        }
        found
    }
}

} // verus!
