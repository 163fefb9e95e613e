//! The pairing table and the handshake decision that consults it.
//!
//! A connection that presents a session identifier either finds a partner
//! waiting under that identifier, and the two are paired, or waits in the
//! table itself. The table holds at most one waiting connection per
//! identifier; the check and the removal happen in one call, so of two
//! arrivals for one identifier exactly one finds the other.
//!
//! Each waiting connection gets a ticket, never issued twice by one table.
//! When its wait ends, only the entry with that ticket is removed: a newer
//! connection that waits under the same identifier is left alone.

use vstd::prelude::*;

verus! {

/// The first message of a connection, as far as the relay reads it.
pub enum Handshake {
    /// A request to be relayed under the session `uuid`.
    RequestRelay { uuid: String, licence_key: String },
    /// Any other message.
    Other,
}

/// What became of an arriving connection.
pub enum Arrival<C> {
    /// Not admitted; the connection is handed back to be closed.
    Rejected(C),
    /// A partner was waiting: the arriving connection and the partner, to be relayed.
    Paired(C, C),
    /// No partner was waiting: the connection now waits in the table under
    /// the given ticket.
    Waiting(u64),
}

/// The session that a handshake asks to join, when the token admits it:
/// a relay request whose licence matches a non-empty token, with a
/// non-empty session identifier.
pub open spec fn admitted_session(token: Seq<char>, msg: Handshake) -> Option<Seq<char>> {
    match msg {
        Handshake::RequestRelay { uuid, licence_key } => {
            if token.len() > 0 && licence_key@ != token {
                None
            } else if uuid@.len() == 0 {
                None
            } else {
                Some(uuid@)
            }
        },
        Handshake::Other => None,
    }
}

/// The table and the outcome after a connection arrives with a handshake,
/// where `ticket` is the ticket it gets if it has to wait.
pub open spec fn arrival_spec<C>(
    m: Map<Seq<char>, (u64, C)>,
    token: Seq<char>,
    msg: Handshake,
    conn: C,
    ticket: u64,
) -> (Map<Seq<char>, (u64, C)>, Arrival<C>) {
    match admitted_session(token, msg) {
        None => (m, Arrival::Rejected(conn)),
        Some(s) => if m.contains_key(s) {
            (m.remove(s), Arrival::Paired(conn, m[s].1))
        } else {
            (m.insert(s, (ticket, conn)), Arrival::Waiting(ticket))
        },
    }
}

/// The table after the wait of ticket `ticket` under `id` ends: the entry
/// leaves only if it is still the one with that ticket.
pub open spec fn expiry_spec<C>(m: Map<Seq<char>, (u64, C)>, id: Seq<char>, ticket: u64) -> Map<
    Seq<char>,
    (u64, C),
> {
    if m.contains_key(id) && m[id].0 == ticket {
        m.remove(id)
    } else {
        m
    }
}

/// The session identifier that a handshake asks to join, if the token admits it.
pub fn admitted(token: &String, msg: &Handshake) -> (r: Option<String>)
    ensures
        match r {
            Some(s) => admitted_session(token@, *msg) == Some(s@),
            None => admitted_session(token@, *msg) is None,
        },
{
    match msg {
        Handshake::RequestRelay { uuid, licence_key } => {
            if !token.as_str().is_empty() && !(*licence_key == *token) {
                None
            } else if uuid.as_str().is_empty() {
                None
            } else {
                Some(uuid.clone())
            }
        },
        Handshake::Other => None,
    }
}

/// Connections waiting for a partner, each under its session identifier and
/// with the ticket it was given.
pub struct PairingTable<C> {
    entries: Vec<(String, u64, C)>,
    next_ticket: u64,
}

impl<C> PairingTable<C> {
    /// No identifier appears twice, and every ticket in the table was issued
    /// before the next one.
    pub closed spec fn wf(&self) -> bool {
        &&& forall|i: int, j: int|
            0 <= i < j < self.entries@.len() ==> self.entries@[i].0@ != self.entries@[j].0@
        &&& forall|i: int| 0 <= i < self.entries@.len() ==> self.entries@[i].1 < self.next_ticket
    }

    closed spec fn holds_at(&self, k: Seq<char>, i: int) -> bool {
        0 <= i < self.entries@.len() && self.entries@[i].0@ == k
    }

    /// The ticket and the waiting connection under each session identifier.
    pub closed spec fn view(&self) -> Map<Seq<char>, (u64, C)> {
        Map::new(
            |k: Seq<char>| exists|i: int| self.holds_at(k, i),
            |k: Seq<char>|
                {
                    let e = self.entries@[choose|i: int| self.holds_at(k, i)];
                    (e.1, e.2)
                },
        )
    }

    /// The ticket that the next waiting connection gets.
    pub closed spec fn next_ticket_spec(&self) -> u64 {
        self.next_ticket
    }

    proof fn lemma_entry(&self, i: int)
        requires
            self.wf(),
            0 <= i < self.entries@.len(),
        ensures
            self.view().contains_key(self.entries@[i].0@),
            self.view()[self.entries@[i].0@] == (self.entries@[i].1, self.entries@[i].2),
    {
        let k = self.entries@[i].0@;
        assert(self.holds_at(k, i));
        let j = choose|j: int| self.holds_at(k, j);
        assert(j == i);
    }

    proof fn lemma_remove(before: Self, after: Self, i: int)
        requires
            before.wf(),
            0 <= i < before.entries@.len(),
            after.entries@ == before.entries@.remove(i),
            after.next_ticket == before.next_ticket,
        ensures
            after.wf(),
            after.view() =~= before.view().remove(before.entries@[i].0@),
    {
        let id = before.entries@[i].0@;
        assert forall|a: int, b: int|
            0 <= a < b < after.entries@.len() implies after.entries@[a].0@
            != after.entries@[b].0@ by {
            let a0 = if a < i { a } else { a + 1 };
            let b0 = if b < i { b } else { b + 1 };
            assert(after.entries@[a] == before.entries@[a0]);
            assert(after.entries@[b] == before.entries@[b0]);
        }
        assert forall|a: int| 0 <= a < after.entries@.len() implies after.entries@[a].1
            < after.next_ticket by {
            let a0 = if a < i { a } else { a + 1 };
            assert(after.entries@[a] == before.entries@[a0]);
        }
        assert forall|k: Seq<char>|
            #[trigger] after.view().dom().contains(k) implies before.view().remove(id).dom().contains(k)
            && after.view()[k] == before.view().remove(id)[k] by {
            let j = choose|j: int| after.holds_at(k, j);
            let j0 = if j < i { j } else { j + 1 };
            assert(after.entries@[j] == before.entries@[j0]);
            before.lemma_entry(j0);
            after.lemma_entry(j);
        }
        assert forall|k: Seq<char>|
            #[trigger] before.view().remove(id).dom().contains(k) implies after.view().dom().contains(k) by {
            let j0 = choose|j: int| before.holds_at(k, j);
            assert(j0 != i);
            let j = if j0 < i { j0 } else { j0 - 1 };
            assert(after.entries@[j] == before.entries@[j0]);
            assert(after.holds_at(k, j));
        }
        assert(after.view().dom() =~= before.view().remove(id).dom());
    }

    proof fn lemma_push(before: Self, after: Self, k: Seq<char>, conn: C)
        requires
            before.wf(),
            !before.view().contains_key(k),
            before.next_ticket < u64::MAX,
            after.next_ticket == before.next_ticket + 1,
            after.entries@.len() == before.entries@.len() + 1,
            after.entries@.last() == (after.entries@.last().0, before.next_ticket, conn),
            after.entries@.last().0@ == k,
            forall|j: int| 0 <= j < before.entries@.len() ==> after.entries@[j] == before.entries@[j],
        ensures
            after.wf(),
            after.view() =~= before.view().insert(k, (before.next_ticket, conn)),
    {
        let n = before.entries@.len() as int;
        assert forall|a: int, b: int|
            0 <= a < b < after.entries@.len() implies after.entries@[a].0@
            != after.entries@[b].0@ by {
            if b == n {
                before.lemma_entry(a);
            } else {
                assert(after.entries@[a] == before.entries@[a]);
                assert(after.entries@[b] == before.entries@[b]);
            }
        }
        assert forall|a: int| 0 <= a < after.entries@.len() implies after.entries@[a].1
            < after.next_ticket by {
            if a < n {
                assert(after.entries@[a] == before.entries@[a]);
            }
        }
        assert(after.holds_at(k, n));
        after.lemma_entry(n);
        assert forall|x: Seq<char>|
            #[trigger] after.view().dom().contains(x) && x != k implies before.view().dom().contains(x)
            && after.view()[x] == before.view()[x] by {
            let j = choose|j: int| after.holds_at(x, j);
            assert(after.entries@[j] == before.entries@[j]);
            before.lemma_entry(j);
            after.lemma_entry(j);
        }
        assert forall|x: Seq<char>|
            #[trigger] before.view().dom().contains(x) implies after.view().dom().contains(x) by {
            let j = choose|j: int| before.holds_at(x, j);
            assert(after.entries@[j] == before.entries@[j]);
            assert(after.holds_at(x, j));
        }
        assert(after.view().dom() =~= before.view().insert(k, (before.next_ticket, conn)).dom());
    }

    /// An empty table.
    pub fn new() -> (r: Self)
        ensures
            r.wf(),
            r.view() == Map::<Seq<char>, (u64, C)>::empty(),
            r.next_ticket_spec() == 0,
    {
        let r = PairingTable { entries: Vec::new(), next_ticket: 0 };
        assert(r.view() =~= Map::<Seq<char>, (u64, C)>::empty());
        r
    }

    /// Number of waiting connections.
    pub fn len(&self) -> (r: usize)
        requires
            self.wf(),
        ensures
            r == self.view().len(),
    {
        proof { self.lemma_len(); }
        self.entries.len()
    }

    /// The ticket that the next waiting connection gets.
    pub fn next_ticket(&self) -> (r: u64)
        ensures
            r == self.next_ticket_spec(),
    {
        self.next_ticket
    }

    proof fn lemma_len(&self)
        requires
            self.wf(),
        ensures
            self.view().dom().len() == self.entries@.len(),
            self.view().dom().finite(),
    {
        let keys = self.entries@.map_values(|e: (String, u64, C)| e.0@);
        assert forall|i: int, j: int| 0 <= i < j < keys.len() implies keys[i] != keys[j] by {}
        assert(keys.no_duplicates());
        assert(self.view().dom() =~= keys.to_set()) by {
            assert forall|k: Seq<char>| self.view().dom().contains(k) implies keys.to_set().contains(k) by {
                let i = choose|i: int| self.holds_at(k, i);
                assert(keys[i] == k);
            }
            assert forall|k: Seq<char>| keys.to_set().contains(k) implies self.view().dom().contains(k) by {
                let i = choose|i: int| 0 <= i < keys.len() && keys[i] == k;
                assert(self.holds_at(k, i));
            }
        }
        keys.unique_seq_to_set();
    }

    /// Position of the entry under `id`, if there is one.
    fn find(&self, id: &String) -> (r: Option<usize>)
        requires
            self.wf(),
        ensures
            match r {
                Some(i) => i < self.entries@.len() && self.entries@[i as int].0@ == id@,
                None => !self.view().contains_key(id@),
            },
    {
        let mut i: usize = 0;
        while i < self.entries.len()
            invariant
                i <= self.entries@.len(),
                forall|j: int| 0 <= j < i ==> self.entries@[j].0@ != id@,
            decreases self.entries@.len() - i,
        {
            if self.entries[i].0 == *id {
                return Some(i);
            }
            i = i + 1;
        }
        None
    }

    /// Removes and returns the connection waiting under `id`, if any.
    fn take(&mut self, id: &String) -> (r: Option<C>)
        requires
            old(self).wf(),
        ensures
            final(self).wf(),
            final(self).next_ticket_spec() == old(self).next_ticket_spec(),
            match r {
                Some(c) => old(self).view().contains_key(id@) && c == old(self).view()[id@].1,
                None => !old(self).view().contains_key(id@),
            },
            final(self).view() == old(self).view().remove(id@),
    {
        match self.find(id) {
            None => {
                assert(self.view() =~= self.view().remove(id@));
                None
            },
            Some(i) => {
                let ghost before = *self;
                let (_, _, c) = self.entries.remove(i);
                proof {
                    before.lemma_entry(i as int);
                    Self::lemma_remove(before, *self, i as int);
                }
                Some(c)
            },
        }
    }

    /// Puts `conn` to wait under `id`, which no connection waits under, with
    /// the next ticket, and returns that ticket.
    fn push_waiting(&mut self, id: String, conn: C) -> (r: u64)
        requires
            old(self).wf(),
            !old(self).view().contains_key(id@),
            old(self).next_ticket_spec() < u64::MAX,
        ensures
            final(self).wf(),
            r == old(self).next_ticket_spec(),
            final(self).next_ticket_spec() == old(self).next_ticket_spec() + 1,
            final(self).view() == old(self).view().insert(id@, (r, conn)),
    {
        let ghost before = *self;
        let ghost k = id@;
        let ticket = self.next_ticket;
        self.entries.push((id, ticket, conn));
        self.next_ticket = ticket + 1;
        proof { Self::lemma_push(before, *self, k, conn); }
        ticket
    }

    /// Handles a connection that arrived with handshake `msg`.
    ///
    /// A connection that the token does not admit is handed back and the
    /// table is left as it was. An admitted one takes the partner waiting
    /// under its session identifier, which leaves the table, or else waits
    /// in the table itself under a fresh ticket.
    pub fn arrive(&mut self, token: &String, msg: &Handshake, conn: C) -> (r: Arrival<C>)
        requires
            old(self).wf(),
            old(self).next_ticket_spec() < u64::MAX,
        ensures
            final(self).wf(),
            (final(self).view(), r) == arrival_spec(
                old(self).view(),
                token@,
                *msg,
                conn,
                old(self).next_ticket_spec(),
            ),
            final(self).next_ticket_spec() == if r is Waiting {
                old(self).next_ticket_spec() + 1
            } else {
                old(self).next_ticket_spec() as int
            },
    {
        match admitted(token, msg) {
            None => Arrival::Rejected(conn),
            Some(id) => match self.take(&id) {
                Some(peer) => Arrival::Paired(conn, peer),
                None => {
                    let ticket = self.push_waiting(id, conn);
                    Arrival::Waiting(ticket)
                },
            },
        }
    }

    /// Ends the wait that began with `ticket` under `id`. The entry leaves
    /// the table and is returned only if it is still the one with that
    /// ticket; when the partner took it, or a newer connection waits there,
    /// the table is left as it was.
    pub fn expire(&mut self, id: &String, ticket: u64) -> (r: Option<C>)
        requires
            old(self).wf(),
        ensures
            final(self).wf(),
            final(self).next_ticket_spec() == old(self).next_ticket_spec(),
            final(self).view() == expiry_spec(old(self).view(), id@, ticket),
            match r {
                Some(c) => old(self).view().contains_key(id@) && old(self).view()[id@] == (
                ticket,
                c,
                ),
                None => !(old(self).view().contains_key(id@) && old(self).view()[id@].0 == ticket),
            },
    {
        match self.find(id) {
            None => None,
            Some(i) => {
                proof { self.lemma_entry(i as int); }
                if self.entries[i].1 == ticket {
                    let ghost before = *self;
                    let (_, _, c) = self.entries.remove(i);
                    proof { Self::lemma_remove(before, *self, i as int); }
                    Some(c)
                } else {
                    None
                }
            },
        }
    }
}

/// Two arrivals under the same admitted session, onto a table where that
/// session is free, are paired with each other: the first waits, the second
/// takes it. The pair leaves no entry behind, so a third arrival under the
/// same session is not served by the consumed pair but waits anew.
pub proof fn lemma_same_session_pairs_once<C>(
    m: Map<Seq<char>, (u64, C)>,
    token: Seq<char>,
    s: Seq<char>,
    a: Handshake,
    ca: C,
    b: Handshake,
    cb: C,
    c: Handshake,
    cc: C,
    t1: u64,
    t2: u64,
    t3: u64,
)
    requires
        !m.contains_key(s),
        admitted_session(token, a) == Some(s),
        admitted_session(token, b) == Some(s),
        admitted_session(token, c) == Some(s),
    ensures
        ({
            let first = arrival_spec(m, token, a, ca, t1);
            let second = arrival_spec(first.0, token, b, cb, t2);
            let third = arrival_spec(second.0, token, c, cc, t3);
            &&& first.1 == Arrival::<C>::Waiting(t1)
            &&& second.1 == Arrival::Paired(cb, ca)
            &&& second.0 == m
            &&& third.1 == Arrival::<C>::Waiting(t3)
            &&& third.0 == m.insert(s, (t3, cc))
        }),
{
    let first = arrival_spec(m, token, a, ca, t1);
    assert(first.0.remove(s) =~= m);
}

/// When the wait of a first arrival ends without a partner, its entry
/// leaves and the table is as before; ending the wait again changes nothing,
/// and a later arrival under the same session waits as a first arrival.
pub proof fn lemma_expired_session_reusable<C>(
    m: Map<Seq<char>, (u64, C)>,
    token: Seq<char>,
    s: Seq<char>,
    a: Handshake,
    ca: C,
    t1: u64,
    b: Handshake,
    cb: C,
    t2: u64,
)
    requires
        !m.contains_key(s),
        admitted_session(token, a) == Some(s),
        admitted_session(token, b) == Some(s),
    ensures
        ({
            let waiting = arrival_spec(m, token, a, ca, t1).0;
            let expired = expiry_spec(waiting, s, t1);
            &&& expired == m
            &&& expiry_spec(expired, s, t1) == expired
            &&& arrival_spec(expired, token, b, cb, t2) == (
            m.insert(s, (t2, cb)),
            Arrival::<C>::Waiting(t2),
            )
        }),
{
    let waiting = arrival_spec(m, token, a, ca, t1).0;
    assert(waiting.remove(s) =~= m);
}

/// The end of a wait removes an entry at most once: after a first arrival
/// was paired, and a newer connection with another ticket waits under the
/// same session, the end of the first arrival's wait leaves the newer one in
/// place, still ready to be paired.
pub proof fn lemma_stale_expiry_keeps_newer_waiter<C>(
    m: Map<Seq<char>, (u64, C)>,
    token: Seq<char>,
    s: Seq<char>,
    a: Handshake,
    ca: C,
    t1: u64,
    b: Handshake,
    cb: C,
    t2: u64,
    c: Handshake,
    cc: C,
    t3: u64,
    d: Handshake,
    cd: C,
    t4: u64,
)
    requires
        !m.contains_key(s),
        admitted_session(token, a) == Some(s),
        admitted_session(token, b) == Some(s),
        admitted_session(token, c) == Some(s),
        admitted_session(token, d) == Some(s),
        t1 != t3,
    ensures
        ({
            let first = arrival_spec(m, token, a, ca, t1);
            let second = arrival_spec(first.0, token, b, cb, t2);
            let third = arrival_spec(second.0, token, c, cc, t3);
            let expired = expiry_spec(third.0, s, t1);
            &&& expired == third.0
            &&& expired[s] == (t3, cc)
            &&& arrival_spec(expired, token, d, cd, t4) == (m, Arrival::Paired(cd, cc))
        }),
{
    let first = arrival_spec(m, token, a, ca, t1);
    assert(first.0.remove(s) =~= m);
    assert(m.insert(s, (t3, cc)).remove(s) =~= m);
}

/// With a non-empty token, a relay request whose licence differs from it is
/// handed back and leaves the table as it was, whatever its session.
pub proof fn lemma_wrong_licence_rejected<C>(
    m: Map<Seq<char>, (u64, C)>,
    token: Seq<char>,
    uuid: String,
    licence_key: String,
    conn: C,
    ticket: u64,
)
    requires
        token.len() > 0,
        licence_key@ != token,
    ensures
        arrival_spec(m, token, Handshake::RequestRelay { uuid, licence_key }, conn, ticket) == (
        m,
        Arrival::Rejected(conn),
        ),
{
}

/// An arrival under one session, and the end of a wait under it, leave the
/// entries of every other session as they were; when an arrival is paired,
/// its partner is the connection that waited under its own session.
pub proof fn lemma_sessions_isolated<C>(
    m: Map<Seq<char>, (u64, C)>,
    token: Seq<char>,
    msg: Handshake,
    conn: C,
    ticket: u64,
    s: Seq<char>,
    other: Seq<char>,
)
    requires
        admitted_session(token, msg) != Some(other),
        s != other,
    ensures
        ({
            let (m1, out) = arrival_spec(m, token, msg, conn, ticket);
            let m2 = expiry_spec(m, s, ticket);
            &&& m1.contains_key(other) == m.contains_key(other)
            &&& m.contains_key(other) ==> m1[other] == m[other]
            &&& m2.contains_key(other) == m.contains_key(other)
            &&& m.contains_key(other) ==> m2[other] == m[other]
            &&& (out matches Arrival::Paired(x, p) ==> {
                &&& x == conn
                &&& admitted_session(token, msg) matches Some(k)
                &&& m.contains_key(k)
                &&& p == m[k].1
            })
        }),
{
}

} // verus!
