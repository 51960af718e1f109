//! Signed-in sessions: their ids and the table that maps an id, sent in the
//! `X-Session` header, to the session's Milvus client.

use vstd::prelude::*;
use crate::api::{ApiError, UNAUTHORIZED};
use crate::keyed::KeyedList;
use crate::text::{format_hex, hex, push_char, lemma_hex_digits, lemma_hex_injective};

verus! {

/// `UNIX_EPOCH.elapsed()`: the nanoseconds since the Unix epoch on the system
/// clock, or `None` when the clock is set before it. Nothing is promised of
/// the value, which depends on the time.
#[verifier::external_body]
fn nanos_since_epoch() -> (r: Option<u128>) {
    std::time::UNIX_EPOCH.elapsed().ok().map(|d| d.as_nanos())
}

/// The text of a session id: the clock reading and a counter, both in
/// lower-case hexadecimal, joined by `-`.
pub open spec fn session_id_text(nanos: nat, counter: nat) -> Seq<char> {
    hex(nanos) + seq!['-'] + hex(counter)
}

/// Session ids are unique: two ids are equal only when both their clock
/// readings and their counter values are, so ids made with different counter
/// values never collide.
pub proof fn law_session_ids_distinct(n1: nat, c1: nat, n2: nat, c2: nat)
    ensures
        session_id_text(n1, c1) == session_id_text(n2, c2) ==> n1 == n2 && c1 == c2,
{
    if session_id_text(n1, c1) == session_id_text(n2, c2) {
        let t = session_id_text(n1, c1);
        let a = hex(n1);
        let b = hex(n2);
        lemma_hex_digits(n1);
        lemma_hex_digits(n2);
        lemma_hex_digits(c1);
        lemma_hex_digits(c2);
        assert(t[a.len() as int] == '-');
        assert(session_id_text(n2, c2)[b.len() as int] == '-');
        if a.len() < b.len() {
            assert(t[a.len() as int] == b[a.len() as int]);
        } else if b.len() < a.len() {
            assert(t[b.len() as int] == a[b.len() as int]);
        }
        assert(a =~= t.take(a.len() as int));
        assert(b =~= t.take(b.len() as int));
        assert(hex(c1) =~= t.skip(a.len() as int + 1));
        assert(hex(c2) =~= t.skip(b.len() as int + 1));
        lemma_hex_injective(n1, n2);
        lemma_hex_injective(c1, c2);
    }
}

/// Signing in makes the session's id resolve to its client and leaves the
/// other sessions as they were; signing out then makes the id unknown, so it
/// resolves to the expired-session error.
pub proof fn law_sign_in_and_out<C>(sessions: Map<Seq<char>, C>, id: Seq<char>, client: C)
    ensures
        sessions.insert(id, client).contains_key(id),
        sessions.insert(id, client)[id] == client,
        forall|other: Seq<char>| other != id ==> (#[trigger] sessions.insert(id, client).contains_key(other)
            == sessions.contains_key(other)),
        !sessions.insert(id, client).remove(id).contains_key(id),
{
}

/// Renders a session id from a clock reading and a counter value.
pub fn format_session_id(nanos: u128, counter: u64) -> (r: String)
    ensures
        r@ == session_id_text(nanos as nat, counter as nat),
{
    let mut s = format_hex(nanos);
    push_char(&mut s, '-');
    let c = format_hex(counter as u128);
    s.append(c.as_str());
    s
}

/// A new session id from the current time (0 when the clock reads before the
/// epoch) and the value `counter` of the session counter.
pub fn new_session_id(counter: u64) -> (r: String)
    ensures
        exists|nanos: u128| r@ == session_id_text(nanos as nat, counter as nat),
{
    let nanos: u128 = match nanos_since_epoch() {
        Some(n) => n,
        None => 0,
    };
    format_session_id(nanos, counter)
}

/// The signed-in sessions by id.
pub struct SessionTable<C> {
    sessions: KeyedList<C>,
}

impl<C> View for SessionTable<C> {
    type V = Map<Seq<char>, C>;

    closed spec fn view(&self) -> Map<Seq<char>, C> {
        self.sessions@
    }
}

impl<C> SessionTable<C> {
    /// No sessions.
    pub fn new() -> (r: Self)
        ensures
            r@ == Map::<Seq<char>, C>::empty(),
    {
        SessionTable { sessions: KeyedList::new() }
    }

    /// Registers a signed-in session.
    pub fn insert(&mut self, id: String, client: C)
        ensures
            final(self)@ == old(self)@.insert(id@, client),
    {
        self.sessions.insert(id, client);
    }

    /// Signs out the session named by the `X-Session` header, if any.
    pub fn disconnect(&mut self, header: Option<&str>)
        ensures
            match header {
                Some(id) => final(self)@ == old(self)@.remove(id@),
                None => final(self)@ == old(self)@,
            },
    {
        match header {
            Some(id) => {
                let _ = self.sessions.remove(id);
            },
            None => {},
        }
    }

    /// The client of the session named by the `X-Session` header: `401` when
    /// the header is missing, or when no such session is signed in.
    pub fn resolve(&self, header: Option<&str>) -> (r: Result<&C, ApiError>)
        ensures
            header is None ==> (r matches Err(e) && e.0 == UNAUTHORIZED && e.1@ == "missing X-Session header"@),
            header is Some && !self@.contains_key(header->0@) ==> (r matches Err(e) && e.0 == UNAUTHORIZED
                && e.1@ == "session expired, sign in again"@),
            header is Some && self@.contains_key(header->0@) ==> (r matches Ok(c) && *c == self@[header->0@]),
    {
        match header {
            None => Err(ApiError::unauthorized("missing X-Session header")),
            Some(id) => match self.sessions.get(id) {
                Some(c) => Ok(c),
                None => Err(ApiError::unauthorized("session expired, sign in again")),
            },
        }
    }
}

} // verus!
