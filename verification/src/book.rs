//! The registry as contracts see it: a map from sessions to the services they
//! stand for, and what each operation makes of it.

use crate::identity::{IdentityView, Session};
use crate::index::IndexView;
use vstd::prelude::*;

verus! {

/// One live registration: who registered, and when it was last heard of.
pub struct EntryView {
    pub id: IdentityView,
    pub last_seen: nat,
}

/// The state of a registry.
pub struct BookView {
    /// The live registrations, by the session that was handed out for each.
    pub sessions: Map<Session, EntryView>,
    /// The protocols that the registry keeps an index for: those of the live
    /// registrations, and those that had one before.
    pub protocols: Set<Seq<char>>,
}

/// Whether a registration that was last heard of at `last_seen` has been silent
/// for longer than `ttl` at the time `now`.
pub open spec fn stale(last_seen: nat, now: nat, ttl: nat) -> bool {
    now - last_seen > ttl
}

impl BookView {
    /// A registry without registrations.
    pub open spec fn empty() -> BookView {
        BookView { sessions: Map::empty(), protocols: Set::empty() }
    }

    /// The states a registry can be in: finitely many registrations, no two of
    /// them for one identity, and an index for the protocol of each.
    pub open spec fn wf(self) -> bool {
        &&& self.sessions.dom().finite()
        &&& forall|a: Session, b: Session|
            #![trigger self.sessions[a], self.sessions[b]]
            self.sessions.contains_key(a) && self.sessions.contains_key(b) && a != b
                ==> self.sessions[a].id != self.sessions[b].id
        &&& forall|s: Session| #[trigger]
            self.sessions.contains_key(s) ==> self.protocols.contains(self.sessions[s].id.protocol)
    }

    /// Whether `session` stands for `id`.
    pub open spec fn holds(self, session: Session, id: IdentityView) -> bool {
        self.sessions.contains_key(session) && self.sessions[session].id == id
    }

    /// Whether `id` is registered.
    pub open spec fn knows(self, id: IdentityView) -> bool {
        exists|session: Session| self.holds(session, id)
    }

    /// The identities that are registered: what keeps an identity from being
    /// registered twice.
    pub open spec fn known(self) -> Set<IdentityView> {
        Set::new(|id: IdentityView| self.knows(id))
    }

    /// For each protocol with an index, the sessions that serve it and the
    /// address of each: what discovery looks up.
    pub open spec fn by_protocol(self) -> IndexView {
        Map::new(
            |protocol: Seq<char>| self.protocols.contains(protocol),
            |protocol: Seq<char>|
                Map::new(
                    |s: Session|
                        self.sessions.contains_key(s) && self.sessions[s].id.protocol == protocol,
                    |s: Session| self.sessions[s].id.address,
                ),
        )
    }

    /// The addresses that are live under `protocol`.
    pub open spec fn addresses(self, protocol: Seq<char>) -> Set<Seq<char>> {
        Set::new(|address: Seq<char>| self.knows(IdentityView { protocol, address }))
    }

    /// What a registration of `id` is answered with when `session` is the one
    /// that was drawn for it: that session, unless the identity is registered
    /// already or the session is in use.
    pub open spec fn grants(self, id: IdentityView, session: Session) -> Option<Session> {
        if self.knows(id) || self.sessions.contains_key(session) {
            None
        } else {
            Some(session)
        }
    }

    /// The registry after `id` was registered under `session` at the time `now`.
    pub open spec fn registered(self, id: IdentityView, session: Session, now: nat) -> BookView {
        BookView {
            sessions: self.sessions.insert(session, EntryView { id, last_seen: now }),
            protocols: self.protocols.insert(id.protocol),
        }
    }

    /// The registry after `session` was heard of at the time `now`.
    pub open spec fn pinged(self, session: Session, now: nat) -> BookView {
        BookView {
            sessions: self.sessions.insert(
                session,
                EntryView { id: self.sessions[session].id, last_seen: now },
            ),
            ..self
        }
    }

    /// The registry without `session`.
    pub open spec fn dropped(self, session: Session) -> BookView {
        BookView { sessions: self.sessions.remove(session), ..self }
    }

    /// The registry after a sweep at the time `now`: the registrations that were
    /// silent for longer than `ttl` are gone, the others are as they were.
    pub open spec fn evicted(self, now: nat, ttl: nat) -> BookView {
        BookView {
            sessions: Map::new(
                |s: Session|
                    self.sessions.contains_key(s) && !stale(self.sessions[s].last_seen, now, ttl),
                |s: Session| self.sessions[s],
            ),
            ..self
        }
    }
}

/// Registering under a session that is not in use adds the identity to those
/// that are known, and changes nothing else.
pub proof fn lemma_registered_knows(
    book: BookView,
    id: IdentityView,
    session: Session,
    now: nat,
    other: IdentityView,
)
    requires
        !book.sessions.contains_key(session),
    ensures
        book.registered(id, session, now).knows(other) <==> book.knows(other) || other == id,
{
    let after = book.registered(id, session, now);
    if book.knows(other) {
        let s = choose|s: Session| book.holds(s, other);
        assert(after.holds(s, other));
    }
    if other == id {
        assert(after.holds(session, other));
    }
    if after.knows(other) {
        let s = choose|s: Session| after.holds(s, other);
        if s != session {
            assert(book.holds(s, other));
        }
    }
}

/// A ping changes no identity.
pub proof fn lemma_pinged_knows(book: BookView, session: Session, now: nat, other: IdentityView)
    requires
        book.sessions.contains_key(session),
    ensures
        book.pinged(session, now).knows(other) <==> book.knows(other),
{
    let after = book.pinged(session, now);
    if book.knows(other) {
        let s = choose|s: Session| book.holds(s, other);
        assert(after.holds(s, other));
    }
    if after.knows(other) {
        let s = choose|s: Session| after.holds(s, other);
        assert(book.holds(s, other));
    }
}

/// Dropping a session frees its identity, and no other.
pub proof fn lemma_dropped_knows(book: BookView, session: Session, other: IdentityView)
    requires
        book.wf(),
        book.sessions.contains_key(session),
    ensures
        book.dropped(session).knows(other) <==> book.knows(other) && other
            != book.sessions[session].id,
{
    let after = book.dropped(session);
    if book.knows(other) && other != book.sessions[session].id {
        let s = choose|s: Session| book.holds(s, other);
        assert(after.holds(s, other));
    }
    if after.knows(other) {
        let s = choose|s: Session| after.holds(s, other);
        assert(book.holds(s, other));
        assert(book.sessions[s].id != book.sessions[session].id);
    }
}

/// A registration shows up under its own protocol, and under no other: the
/// addresses of its protocol gain its address, those of every other protocol
/// stay as they were. The identity is known from then on, so that registering
/// it once more is turned away.
pub proof fn lemma_registered_addresses(
    book: BookView,
    id: IdentityView,
    session: Session,
    now: nat,
    protocol: Seq<char>,
)
    requires
        !book.sessions.contains_key(session),
    ensures
        book.registered(id, session, now).knows(id),
        book.registered(id, session, now).addresses(protocol) == if protocol == id.protocol {
            book.addresses(protocol).insert(id.address)
        } else {
            book.addresses(protocol)
        },
{
    let after = book.registered(id, session, now);
    lemma_registered_knows(book, id, session, now, id);
    assert forall|address: Seq<char>|
        after.addresses(protocol).contains(address) <==> book.addresses(protocol).contains(address)
            || (protocol == id.protocol && address == id.address) by {
        lemma_registered_knows(book, id, session, now, IdentityView { protocol, address });
    }
    if protocol == id.protocol {
        assert(after.addresses(protocol) =~= book.addresses(protocol).insert(id.address));
    } else {
        assert(after.addresses(protocol) =~= book.addresses(protocol));
    }
}

/// A sweep takes exactly the sessions that were silent for too long. Such a
/// session is no longer live, so a ping of it fails, and its identity is free
/// to be registered again; every other registration is as it was.
pub proof fn lemma_evicted_frees(book: BookView, session: Session, now: nat, ttl: nat)
    requires
        book.wf(),
        book.sessions.contains_key(session),
    ensures
        stale(book.sessions[session].last_seen, now, ttl) ==> {
            &&& !book.evicted(now, ttl).sessions.contains_key(session)
            &&& !book.evicted(now, ttl).knows(book.sessions[session].id)
            &&& !book.evicted(now, ttl).addresses(book.sessions[session].id.protocol).contains(
                book.sessions[session].id.address,
            )
        },
        !stale(book.sessions[session].last_seen, now, ttl) ==> {
            &&& book.evicted(now, ttl).sessions.contains_key(session)
            &&& book.evicted(now, ttl).sessions[session] == book.sessions[session]
        },
{
    let swept = book.evicted(now, ttl);
    let id = book.sessions[session].id;
    if stale(book.sessions[session].last_seen, now, ttl) {
        if swept.knows(id) {
            let other = choose|other: Session| swept.holds(other, id);
            assert(book.sessions[other].id == book.sessions[session].id);
        }
    }
}

/// The three containers of a registry agree. The known identities are those of
/// the live sessions. Every session in the index of a protocol is live and
/// registered under that protocol with that address, and every live session
/// is in the index of its protocol. No two live sessions share an identity.
pub proof fn lemma_containers_agree(book: BookView)
    requires
        book.wf(),
    ensures
        forall|id: IdentityView|
            book.known().contains(id) <==> exists|s: Session| #[trigger]
                book.sessions.contains_key(s) && book.sessions[s].id == id,
        forall|protocol: Seq<char>, s: Session|
            #![trigger book.by_protocol()[protocol].contains_key(s)]
            book.by_protocol().contains_key(protocol) && book.by_protocol()[protocol].contains_key(
                s,
            ) ==> book.sessions.contains_key(s) && book.sessions[s].id == (IdentityView {
                protocol,
                address: book.by_protocol()[protocol][s],
            }),
        forall|s: Session| #[trigger]
            book.sessions.contains_key(s) ==> book.by_protocol().contains_key(
                book.sessions[s].id.protocol,
            ) && book.by_protocol()[book.sessions[s].id.protocol].contains_key(s),
        forall|a: Session, b: Session|
            #![trigger book.sessions[a], book.sessions[b]]
            book.sessions.contains_key(a) && book.sessions.contains_key(b) && a != b
                ==> book.sessions[a].id != book.sessions[b].id,
{
    assert forall|id: IdentityView| book.known().contains(id) implies exists|s: Session| #[trigger]
        book.sessions.contains_key(s) && book.sessions[s].id == id by {
        let s = choose|s: Session| book.holds(s, id);
        assert(book.sessions.contains_key(s) && book.sessions[s].id == id);
    }
    assert forall|id: IdentityView|
        (exists|s: Session| #[trigger] book.sessions.contains_key(s) && book.sessions[s].id
            == id) implies book.known().contains(id) by {
        let s = choose|s: Session| #[trigger]
            book.sessions.contains_key(s) && book.sessions[s].id == id;
        assert(book.holds(s, id));
    }
}

/// Every operation leaves a registry in one of its states.
pub proof fn lemma_operations_keep_wf(
    book: BookView,
    id: IdentityView,
    session: Session,
    now: nat,
    ttl: nat,
)
    requires
        book.wf(),
    ensures
        BookView::empty().wf(),
        !book.knows(id) && !book.sessions.contains_key(session) ==> book.registered(
            id,
            session,
            now,
        ).wf(),
        book.sessions.contains_key(session) ==> book.pinged(session, now).wf(),
        book.dropped(session).wf(),
        book.evicted(now, ttl).wf(),
{
    if !book.knows(id) && !book.sessions.contains_key(session) {
        let after = book.registered(id, session, now);
        assert forall|a: Session, b: Session|
            #![trigger after.sessions[a], after.sessions[b]]
            after.sessions.contains_key(a) && after.sessions.contains_key(b) && a != b implies
            after.sessions[a].id != after.sessions[b].id by {
            if a == session {
                assert(!book.holds(b, id));
            } else if b == session {
                assert(!book.holds(a, id));
            }
        }
    }
    let swept = book.evicted(now, ttl);
    assert(swept.sessions.dom().subset_of(book.sessions.dom()));
    vstd::set_lib::lemma_len_subset(swept.sessions.dom(), book.sessions.dom());
}

} // verus!
