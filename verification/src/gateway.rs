use vstd::prelude::*;
use crate::errors::Error;

verus! {

/// One accepted real-time connection: the framework-assigned connection id,
/// the identity the handshake established, and the room the connection is in,
/// if any. Joining a room always leaves every previously joined room first,
/// so a connection is in at most one room at a time.
pub struct Session {
    pub conn: u64,
    pub identity: u128,
    pub room: Option<String>,
}

/// The mathematical image of a session: the room is a character sequence.
pub struct SessionModel {
    pub conn: u64,
    pub identity: u128,
    pub room: Option<Seq<char>>,
}

impl View for Session {
    type V = SessionModel;

    open spec fn view(&self) -> SessionModel {
        SessionModel {
            conn: self.conn,
            identity: self.identity,
            room: match self.room {
                Some(r) => Some(r@),
                None => None,
            },
        }
    }
}

/// What the user-storage collaborator answered when asked whether an
/// identity still exists: found, gone, or the store could not be reached.
pub enum LookupResult {
    Found,
    NotFound,
    Unavailable(String),
}

/// An incoming chat message: its text, the author, and the room it goes to.
pub struct Chat {
    pub content: String,
    pub user_id: u128,
    pub group_id: String,
}

/// The reply broadcast to the room for a chat message, carrying the
/// gateway-assigned timestamp.
pub struct MessageOut {
    pub content: String,
    pub user_id: u128,
    pub group_id: String,
    pub created_at: u64,
}

/// The record handed to the persistence collaborator, carrying the same
/// gateway-assigned timestamp that is broadcast.
pub struct ChatMessage {
    pub content: String,
    pub author_id: u128,
    pub room_id: String,
    pub created_at: u64,
}

/// Everything a `message` event produces: who receives the reply, the reply
/// itself, and the record to persist. Persistence is best-effort and its
/// outcome plays no part here: the recipients and the reply are fixed before
/// any write is attempted.
pub struct MessageOutcome {
    pub recipients: Vec<u64>,
    pub reply: MessageOut,
    pub record: ChatMessage,
}

/// No two sessions share a connection id.
pub open spec fn wf_sessions(s: Seq<SessionModel>) -> bool {
    forall|i: int, j: int| 0 <= i < j < s.len() ==> s[i].conn != s[j].conn
}

/// Some session belongs to connection `conn`.
pub open spec fn has_conn(s: Seq<SessionModel>, conn: u64) -> bool {
    exists|i: int| 0 <= i < s.len() && s[i].conn == conn
}

/// The session is currently a member of `room`.
pub open spec fn in_room(sess: SessionModel, room: Seq<char>) -> bool {
    sess.room matches Some(r) && r == room
}

/// The connections currently in `room`.
pub open spec fn members(s: Seq<SessionModel>, room: Seq<char>) -> Set<u64> {
    Set::new(|c: u64| exists|i: int| 0 <= i < s.len() && s[i].conn == c && in_room(s[i], room))
}

/// The rooms connection `conn` is currently in.
pub open spec fn rooms_of(s: Seq<SessionModel>, conn: u64) -> Set<Seq<char>> {
    Set::new(|room: Seq<char>| exists|i: int| 0 <= i < s.len() && s[i].conn == conn && in_room(s[i], room))
}

/// Connection `conn` leaves every room it is in; everyone else is untouched.
pub open spec fn leave_all_t(s: Seq<SessionModel>, conn: u64) -> Seq<SessionModel> {
    Seq::new(s.len(), |i: int| if s[i].conn == conn {
        SessionModel { conn: s[i].conn, identity: s[i].identity, room: None }
    } else {
        s[i]
    })
}

/// Connection `conn` enters `room`; everyone else is untouched.
pub open spec fn join_one_t(s: Seq<SessionModel>, conn: u64, room: Seq<char>) -> Seq<SessionModel> {
    Seq::new(s.len(), |i: int| if s[i].conn == conn {
        SessionModel { conn: s[i].conn, identity: s[i].identity, room: Some(room) }
    } else {
        s[i]
    })
}

/// A join event: leave every current room first, then enter exactly the
/// requested room.
pub open spec fn join_t(s: Seq<SessionModel>, conn: u64, room: Seq<char>) -> Seq<SessionModel> {
    join_one_t(leave_all_t(s, conn), conn, room)
}

/// The sessions that survive a disconnect of `conn`: all the others, in order.
pub open spec fn remove_conn_t(s: Seq<SessionModel>, conn: u64) -> Seq<SessionModel>
    decreases s.len(),
{
    if s.len() == 0 {
        Seq::empty()
    } else if s.last().conn == conn {
        remove_conn_t(s.drop_last(), conn)
    } else {
        remove_conn_t(s.drop_last(), conn).push(s.last())
    }
}

/// The connections in `room`, in session order.
pub open spec fn member_list(s: Seq<SessionModel>, room: Seq<char>) -> Seq<u64>
    decreases s.len(),
{
    if s.len() == 0 {
        Seq::empty()
    } else if in_room(s.last(), room) {
        member_list(s.drop_last(), room).push(s.last().conn)
    } else {
        member_list(s.drop_last(), room)
    }
}

/// Relies on `std::time::SystemTime::now`: the gateway clock, read as whole
/// seconds since the epoch. Nothing is assumed of the value; an instant
/// before the epoch comes back as zero.
#[verifier::external_body]
fn now_seconds() -> (t: u64) {
    match std::time::SystemTime::now().duration_since(std::time::UNIX_EPOCH) {
        Ok(d) => d.as_secs(),
        Err(_) => 0,
    }
}

/// The live connection sessions of one gateway process: room membership is
/// the in-memory mapping these sessions induce, scoped to this process.
pub struct Gateway {
    sessions: Vec<Session>,
}

impl View for Gateway {
    type V = Seq<SessionModel>;

    closed spec fn view(&self) -> Seq<SessionModel> {
        Seq::new(self.sessions@.len(), |i: int| self.sessions@[i]@)
    }
}

impl Gateway {
    pub open spec fn wf(&self) -> bool {
        wf_sessions(self@)
    }

    /// A gateway with no connections yet.
    pub fn new() -> (g: Gateway)
        ensures
            g@ =~= Seq::<SessionModel>::empty(),
            g.wf(),
    {
        Gateway { sessions: Vec::new() }
    }

    /// Complete a handshake: `identity` came out of the credential gate, and
    /// `lookup` is the user store's answer about it. Only a found identity
    /// gets a session; any other answer leaves the gateway exactly as it was
    /// and no session is created.
    pub fn register(&mut self, conn: u64, identity: u128, lookup: LookupResult) -> (r: Result<(), Error>)
        requires
            old(self).wf(),
            !has_conn(old(self)@, conn),
        ensures
            final(self).wf(),
            r is Ok <==> lookup is Found,
            r is Ok ==> final(self)@ == old(self)@.push(
                (SessionModel { conn, identity, room: None }),
            ),
            r is Ok ==> has_conn(final(self)@, conn),
            r is Err ==> final(self)@ == old(self)@,
            lookup is NotFound ==> (r matches Err(e) && e is RecordNotFound),
            lookup matches LookupResult::Unavailable(m) ==> (r matches Err(e) && e matches Error::QueryFailed(m2)
                && m2 == m),
    {
        match lookup {
            LookupResult::Found => {
                let ghost prev = self@;
                self.sessions.push(Session { conn, identity, room: None });
                proof {
                    assert(self@ =~= prev.push(SessionModel { conn, identity, room: None }));
                    assert(has_conn(self@, conn)) by {
                        assert(self@[prev.len() as int].conn == conn);
                    }
                }
                Ok(())
            },
            LookupResult::NotFound => {
                proof {
                    assert(self@ =~= old(self)@);
                }
                Err(Error::RecordNotFound)
            },
            LookupResult::Unavailable(m) => {
                proof {
                    assert(self@ =~= old(self)@);
                }
                Err(Error::QueryFailed(m))
            },
        }
    }

    /// Whether a session for `conn` is currently registered.
    pub fn has_connection(&self, conn: u64) -> (b: bool)
        ensures
            b == has_conn(self@, conn),
    {
        let n = self.sessions.len();
        let mut i: usize = 0;
        while i < n
            invariant
                i <= n,
                n == self.sessions@.len(),
                self@.len() == n,
                forall|k: int| 0 <= k < i ==> self@[k].conn != conn,
            decreases n - i,
        {
            if self.sessions[i].conn == conn {
                proof {
                    assert(self@[i as int] == self.sessions@[i as int]@);
                }
                return true;
            }
            proof {
                assert(self@[i as int] == self.sessions@[i as int]@);
            }
            i += 1;
        }
        proof {
            if has_conn(self@, conn) {
                let k = choose|k: int| 0 <= k < self@.len() && self@[k].conn == conn;
                assert(false);
            }
        }
        false
    }

    /// The connections currently in `room`, in session order.
    pub fn members_of(&self, room: &String) -> (r: Vec<u64>)
        ensures
            r@ == member_list(self@, room@),
    {
        let mut out: Vec<u64> = Vec::new();
        let n = self.sessions.len();
        proof {
            assert(self@.take(0) =~= Seq::<SessionModel>::empty());
        }
        let mut i: usize = 0;
        while i < n
            invariant
                i <= n,
                n == self.sessions@.len(),
                self@.len() == n,
                out@ == member_list(self@.take(i as int), room@),
            decreases n - i,
        {
            let matched = match &self.sessions[i].room {
                Some(rm) => *rm == *room,
                None => false,
            };
            proof {
                assert(self@.take(i + 1).drop_last() =~= self@.take(i as int));
                assert(self@.take(i + 1).last() == self@[i as int]);
                assert(self@[i as int] == self.sessions@[i as int]@);
                assert(matched == in_room(self@[i as int], room@));
            }
            if matched {
                out.push(self.sessions[i].conn);
                proof {
                    assert(self@[i as int].conn == self.sessions@[i as int].conn);
                }
            }
            i += 1;
        }
        proof {
            assert(self@.take(n as int) =~= self@);
        }
        out
    }

    /// A join event from `conn`: leave every current room, enter exactly
    /// `room`, and report who must see the join confirmation — every current
    /// member of `room`, the joiner included.
    pub fn handle_join(&mut self, conn: u64, room: String) -> (recipients: Vec<u64>)
        requires
            old(self).wf(),
        ensures
            final(self).wf(),
            final(self)@ == join_t(old(self)@, conn, room@),
            recipients@ == member_list(final(self)@, room@),
    {
        let n = self.sessions.len();
        let mut i: usize = 0;
        while i < n
            invariant
                i <= n,
                n == self.sessions@.len(),
                self@.len() == n,
                old(self)@.len() == n,
                forall|k: int| 0 <= k < i ==> #[trigger] join_t(old(self)@, conn, room@)[k] == self@[k],
                forall|k: int| i <= k < n ==> self@[k] == old(self)@[k],
            decreases n - i,
        {
            let ghost s0 = old(self)@;
            let ghost pre = self@;
            let here = self.sessions[i].conn == conn;
            proof {
                assert(self@[i as int] == self.sessions@[i as int]@);
                assert(here == (s0[i as int].conn == conn));
            }
            if here {
                let ident = self.sessions[i].identity;
                proof {
                    assert(ident == s0[i as int].identity);
                }
                self.sessions[i] = Session { conn, identity: ident, room: Some(room.clone()) };
            }
            proof {
                assert(forall|k: int| 0 <= k < n && k != i ==> self@[k] == #[trigger] pre[k]);
                assert(self@[i as int] == self.sessions@[i as int]@);
                assert(leave_all_t(s0, conn).len() == s0.len());
                if s0[i as int].conn == conn {
                    assert(leave_all_t(s0, conn)[i as int]
                        == (SessionModel { conn: s0[i as int].conn, identity: s0[i as int].identity, room: None }));
                    assert(join_t(s0, conn, room@)[i as int]
                        == (SessionModel { conn: s0[i as int].conn, identity: s0[i as int].identity, room: Some(room@) }));
                } else {
                    assert(leave_all_t(s0, conn)[i as int] == s0[i as int]);
                    assert(join_t(s0, conn, room@)[i as int] == s0[i as int]);
                }
                assert(self@[i as int] == join_t(s0, conn, room@)[i as int]);
                assert forall|k: int| 0 <= k < i implies #[trigger] join_t(s0, conn, room@)[k] == self@[k] by {
                    assert(join_t(s0, conn, room@)[k] == pre[k]);
                    assert(self@[k] == pre[k]);
                }
            }
            i += 1;
        }
        proof {
            assert(self@ =~= join_t(old(self)@, conn, room@));
            assert(wf_sessions(self@)) by {
                assert forall|p: int, q: int| 0 <= p < q < self@.len()
                    implies self@[p].conn != self@[q].conn by {
                    assert(self@[p].conn == old(self)@[p].conn);
                    assert(self@[q].conn == old(self)@[q].conn);
                }
            }
        }
        let recipients = self.members_of(&room);
        recipients
    }

    /// A message event: the reply goes to every current member of the
    /// message's room (the sender included when it is a member), stamped with
    /// the gateway clock value `now`, and the record to persist carries that
    /// same stamp. Membership does not change, and nothing here waits on, or
    /// varies with, the outcome of persisting the record.
    pub fn handle_message(&self, msg: Chat, now: u64) -> (out: MessageOutcome)
        ensures
            out.recipients@ == member_list(self@, msg.group_id@),
            out.reply.content@ == msg.content@,
            out.reply.user_id == msg.user_id,
            out.reply.group_id@ == msg.group_id@,
            out.reply.created_at == now,
            out.record.content@ == msg.content@,
            out.record.author_id == msg.user_id,
            out.record.room_id@ == msg.group_id@,
            out.record.created_at == now,
    {
        let recipients = self.members_of(&msg.group_id);
        let reply = MessageOut {
            content: msg.content.clone(),
            user_id: msg.user_id,
            group_id: msg.group_id.clone(),
            created_at: now,
        };
        let record = ChatMessage {
            content: msg.content,
            author_id: msg.user_id,
            room_id: msg.group_id,
            created_at: now,
        };
        MessageOutcome { recipients, reply, record }
    }

    /// A message event stamped with the gateway's own clock at receipt: the
    /// same outcome as `handle_message`, with the broadcast and the record
    /// carrying one and the same clock reading.
    pub fn handle_message_now(&self, msg: Chat) -> (out: MessageOutcome)
        ensures
            out.recipients@ == member_list(self@, msg.group_id@),
            out.reply.content@ == msg.content@,
            out.reply.user_id == msg.user_id,
            out.reply.group_id@ == msg.group_id@,
            out.record.content@ == msg.content@,
            out.record.author_id == msg.user_id,
            out.record.room_id@ == msg.group_id@,
            out.record.created_at == out.reply.created_at,
    {
        let now = now_seconds();
        self.handle_message(msg, now)
    }

    /// A disconnect of `conn`: its session and all its room memberships go;
    /// every other session stays, in order. No event is emitted for this.
    pub fn handler_disconnect(&mut self, conn: u64)
        requires
            old(self).wf(),
        ensures
            final(self).wf(),
            final(self)@ == remove_conn_t(old(self)@, conn),
    {
        let n = self.sessions.len();
        let mut i: usize = 0;
        let mut found: Option<usize> = None;
        while i < n
            invariant
                i <= n,
                n == self.sessions@.len(),
                found matches Some(j) ==> j < n && self@[j as int].conn == conn,
                found is None ==> forall|k: int| 0 <= k < i ==> self@[k].conn != conn,
            decreases n - i,
        {
            if found.is_none() && self.sessions[i].conn == conn {
                found = Some(i);
            }
            i += 1;
        }
        match found {
            Some(j) => {
                let ghost prev = self@;
                self.sessions.remove(j);
                proof {
                    assert(self@ =~= prev.remove(j as int));
                    lemma_remove_conn_at(prev, conn, j as int);
                    lemma_remove_preserves_wf(prev, conn);
                }
            },
            None => {
                proof {
                    assert(!has_conn(self@, conn));
                    lemma_remove_conn_absent(self@, conn);
                }
            },
        }
    }
}

/// Dropping the last session keeps the sessions well formed.
proof fn lemma_wf_drop_last(s: Seq<SessionModel>)
    requires
        wf_sessions(s),
        s.len() > 0,
    ensures
        wf_sessions(s.drop_last()),
{
}

/// A connection nobody holds is not taken away by a disconnect: the sessions
/// stand as they were.
pub proof fn lemma_remove_conn_absent(s: Seq<SessionModel>, conn: u64)
    requires
        !has_conn(s, conn),
    ensures
        remove_conn_t(s, conn) =~= s,
    decreases s.len(),
{
    if s.len() > 0 {
        assert(s.last().conn != conn) by {
            assert(s[s.len() - 1].conn != conn);
        }
        assert(!has_conn(s.drop_last(), conn)) by {
            assert(forall|i: int| 0 <= i < s.len() - 1 ==> s.drop_last()[i] == s[i]);
        }
        lemma_remove_conn_absent(s.drop_last(), conn);
    }
}

/// With connection ids unique, a disconnect takes out exactly the one session
/// at the index where the connection sits.
pub proof fn lemma_remove_conn_at(s: Seq<SessionModel>, conn: u64, i: int)
    requires
        wf_sessions(s),
        0 <= i < s.len(),
        s[i].conn == conn,
    ensures
        remove_conn_t(s, conn) =~= s.remove(i),
    decreases s.len(),
{
    lemma_wf_drop_last(s);
    if i == s.len() - 1 {
        assert(!has_conn(s.drop_last(), conn)) by {
            assert(forall|k: int| 0 <= k < s.len() - 1 ==> s.drop_last()[k] == s[k]);
        }
        lemma_remove_conn_absent(s.drop_last(), conn);
        assert(remove_conn_t(s, conn) =~= s.remove(i));
    } else {
        assert(s.last().conn != conn);
        assert(s.drop_last()[i] == s[i]);
        lemma_remove_conn_at(s.drop_last(), conn, i);
        assert(remove_conn_t(s, conn) =~= s.drop_last().remove(i).push(s.last()));
        assert(remove_conn_t(s, conn) =~= s.remove(i));
    }
}

/// A connection held after a disconnect was held before it.
pub proof fn lemma_remove_subset_conns(s: Seq<SessionModel>, conn: u64)
    ensures
        forall|c: u64| #[trigger] has_conn(remove_conn_t(s, conn), c) ==> has_conn(s, c),
    decreases s.len(),
{
    if s.len() == 0 {
        assert forall|c: u64| #[trigger] has_conn(remove_conn_t(s, conn), c) implies has_conn(s, c) by {
            assert(remove_conn_t(s, conn).len() == 0);
        }
    } else {
        let rest = remove_conn_t(s.drop_last(), conn);
        lemma_remove_subset_conns(s.drop_last(), conn);
        assert forall|c: u64| #[trigger] has_conn(remove_conn_t(s, conn), c) implies has_conn(s, c) by {
            let k = choose|k: int| 0 <= k < remove_conn_t(s, conn).len()
                && remove_conn_t(s, conn)[k].conn == c;
            if s.last().conn != conn && k == rest.len() {
                assert(s[s.len() - 1].conn == c);
            } else {
                assert(rest[k].conn == c);
                assert(has_conn(rest, c));
                assert(has_conn(s.drop_last(), c));
                let m = choose|m: int| 0 <= m < s.drop_last().len() && s.drop_last()[m].conn == c;
                assert(s[m].conn == c);
            }
        }
    }
}

/// A disconnect keeps the surviving sessions well formed.
pub proof fn lemma_remove_preserves_wf(s: Seq<SessionModel>, conn: u64)
    requires
        wf_sessions(s),
    ensures
        wf_sessions(remove_conn_t(s, conn)),
    decreases s.len(),
{
    if s.len() > 0 {
        lemma_wf_drop_last(s);
        lemma_remove_preserves_wf(s.drop_last(), conn);
        if s.last().conn != conn {
            let rest = remove_conn_t(s.drop_last(), conn);
            lemma_remove_subset_conns(s.drop_last(), conn);
            let whole = remove_conn_t(s, conn);
            assert forall|p: int, q: int| 0 <= p < q < whole.len()
                implies whole[p].conn != whole[q].conn by {
                if q == rest.len() {
                    if rest[p].conn == s.last().conn {
                        assert(has_conn(rest, s.last().conn));
                        assert(has_conn(s.drop_last(), s.last().conn));
                        let m = choose|m: int| 0 <= m < s.drop_last().len()
                            && s.drop_last()[m].conn == s.last().conn;
                        assert(s[m].conn == s[s.len() - 1].conn);
                        assert(false);
                    }
                } else {
                    assert(whole[p] == rest[p] && whole[q] == rest[q]);
                }
            }
        }
    }
}

/// A membership fact decomposes over the last session: `c` is in `room`
/// exactly when an earlier session puts it there or the last one does.
proof fn lemma_members_last(s: Seq<SessionModel>, room: Seq<char>, c: u64)
    requires
        s.len() > 0,
    ensures
        members(s, room).contains(c) <==> (members(s.drop_last(), room).contains(c)
            || (s.last().conn == c && in_room(s.last(), room))),
{
    if members(s, room).contains(c) {
        let i = choose|i: int| 0 <= i < s.len() && s[i].conn == c && in_room(s[i], room);
        if i < s.len() - 1 {
            assert(s.drop_last()[i] == s[i]);
            assert(members(s.drop_last(), room).contains(c));
        }
    }
    if members(s.drop_last(), room).contains(c) {
        let i = choose|i: int| 0 <= i < s.drop_last().len() && s.drop_last()[i].conn == c
            && in_room(s.drop_last()[i], room);
        assert(s[i] == s.drop_last()[i]);
        assert(members(s, room).contains(c));
    }
    if s.last().conn == c && in_room(s.last(), room) {
        assert(s[s.len() - 1].conn == c && in_room(s[s.len() - 1], room));
        assert(members(s, room).contains(c));
    }
}

/// Joining a room never changes which connection a session belongs to.
proof fn lemma_join_keeps_conns(s: Seq<SessionModel>, conn: u64, room: Seq<char>)
    ensures
        join_t(s, conn, room).len() == s.len(),
        forall|k: int| 0 <= k < s.len() ==> (#[trigger] join_t(s, conn, room)[k]).conn == s[k].conn,
{
    assert forall|k: int| 0 <= k < s.len()
        implies (#[trigger] join_t(s, conn, room)[k]).conn == s[k].conn by {
        assert(leave_all_t(s, conn)[k].conn == s[k].conn);
    }
}

/// After a join, the joining connection is in exactly the room it asked for:
/// every room it was in before has been left.
pub proof fn lemma_join_sets_room(s: Seq<SessionModel>, conn: u64, room: Seq<char>)
    requires
        has_conn(s, conn),
    ensures
        rooms_of(join_t(s, conn, room), conn) =~= set![room],
{
    let j = join_t(s, conn, room);
    lemma_join_keeps_conns(s, conn, room);
    assert forall|rm: Seq<char>| rooms_of(j, conn).contains(rm) implies set![room].contains(rm) by {
        let i = choose|i: int| 0 <= i < j.len() && j[i].conn == conn && in_room(j[i], rm);
        assert(leave_all_t(s, conn)[i].conn == s[i].conn);
        assert(j[i].room == Some(room));
        assert(rm == room);
    }
    let w = choose|i: int| 0 <= i < s.len() && s[i].conn == conn;
    assert(leave_all_t(s, conn)[w].conn == conn);
    assert(j[w].conn == conn && in_room(j[w], room));
    assert(rooms_of(j, conn).contains(room));
}

/// Joining the same room twice in a row is the same as joining it once: the
/// repeated join neither errors nor duplicates the membership.
pub proof fn lemma_join_idempotent(s: Seq<SessionModel>, conn: u64, room: Seq<char>)
    ensures
        join_t(join_t(s, conn, room), conn, room) =~= join_t(s, conn, room),
{
    let once = join_t(s, conn, room);
    assert forall|k: int| 0 <= k < once.len()
        implies join_t(once, conn, room)[k] == once[k] by {
        assert(leave_all_t(s, conn)[k].conn == s[k].conn);
        assert(leave_all_t(once, conn)[k].conn == once[k].conn);
    }
}

/// Joining room `b` after room `a` leaves the connection a member of `b`
/// alone: the first join is wholly undone by the second, never accumulated.
pub proof fn lemma_leave_before_join(s: Seq<SessionModel>, conn: u64, a: Seq<char>, b: Seq<char>)
    requires
        has_conn(s, conn),
    ensures
        rooms_of(join_t(join_t(s, conn, a), conn, b), conn) =~= set![b],
        a != b ==> !members(join_t(join_t(s, conn, a), conn, b), a).contains(conn),
{
    let s1 = join_t(s, conn, a);
    let s2 = join_t(s1, conn, b);
    lemma_join_keeps_conns(s, conn, a);
    lemma_join_keeps_conns(s1, conn, b);
    assert(has_conn(s1, conn)) by {
        let i = choose|i: int| 0 <= i < s.len() && s[i].conn == conn;
        assert(s1[i].conn == conn);
    }
    lemma_join_sets_room(s1, conn, b);
    if a != b && members(s2, a).contains(conn) {
        let i = choose|i: int| 0 <= i < s2.len() && s2[i].conn == conn && in_room(s2[i], a);
        assert(leave_all_t(s1, conn)[i].conn == s1[i].conn);
        assert(s2[i].room == Some(b));
        assert(false);
    }
}

/// The fan-out list for a room names exactly the room's current members: a
/// broadcast reaches every member and nobody else.
pub proof fn lemma_member_list_members(s: Seq<SessionModel>, room: Seq<char>)
    ensures
        forall|c: u64| #[trigger] member_list(s, room).contains(c) <==> members(s, room).contains(c),
    decreases s.len(),
{
    if s.len() == 0 {
        assert forall|c: u64| !(#[trigger] member_list(s, room).contains(c)) by {
            assert(member_list(s, room).len() == 0);
        }
        assert forall|c: u64| !members(s, room).contains(c) by {}
    } else {
        let rest = s.drop_last();
        let restl = member_list(rest, room);
        lemma_member_list_members(rest, room);
        assert forall|c: u64| #[trigger] member_list(s, room).contains(c)
            implies members(s, room).contains(c) by {
            lemma_members_last(s, room, c);
            let k = choose|k: int| 0 <= k < member_list(s, room).len()
                && member_list(s, room)[k] == c;
            if in_room(s.last(), room) && k == restl.len() {
                assert(c == s.last().conn);
            } else {
                assert(restl[k] == c);
                assert(restl.contains(c));
            }
        }
        assert forall|c: u64| members(s, room).contains(c)
            implies #[trigger] member_list(s, room).contains(c) by {
            lemma_members_last(s, room, c);
            if members(rest, room).contains(c) {
                assert(restl.contains(c));
                let k = choose|k: int| 0 <= k < restl.len() && restl[k] == c;
                assert(member_list(s, room)[k] == c);
            } else {
                assert(s.last().conn == c && in_room(s.last(), room));
                assert(member_list(s, room)[restl.len() as int] == c);
            }
        }
    }
}

/// No session that survives a disconnect belongs to the disconnected
/// connection.
proof fn lemma_remove_no_conn(s: Seq<SessionModel>, conn: u64)
    ensures
        forall|k: int| 0 <= k < remove_conn_t(s, conn).len()
            ==> (#[trigger] remove_conn_t(s, conn)[k]).conn != conn,
    decreases s.len(),
{
    if s.len() > 0 {
        lemma_remove_no_conn(s.drop_last(), conn);
    }
}

/// For any connection other than the disconnected one, a disconnect changes
/// no room membership.
proof fn lemma_remove_members_other(s: Seq<SessionModel>, conn: u64, c: u64, room: Seq<char>)
    requires
        c != conn,
    ensures
        members(remove_conn_t(s, conn), room).contains(c) <==> members(s, room).contains(c),
    decreases s.len(),
{
    if s.len() == 0 {
        assert(remove_conn_t(s, conn).len() == 0);
    } else {
        let rest = s.drop_last();
        lemma_remove_members_other(rest, conn, c, room);
        lemma_members_last(s, room, c);
        if s.last().conn == conn {
            assert(remove_conn_t(s, conn) == remove_conn_t(rest, conn));
        } else {
            let rr = remove_conn_t(s, conn);
            assert(rr.drop_last() =~= remove_conn_t(rest, conn));
            assert(rr.last() == s.last());
            lemma_members_last(rr, room, c);
        }
    }
}

/// After a disconnect nothing is left of the connection: it holds no session
/// and is a member of no room, and every other connection's memberships stand
/// exactly as they were.
pub proof fn lemma_disconnect_cleans(s: Seq<SessionModel>, conn: u64)
    ensures
        !has_conn(remove_conn_t(s, conn), conn),
        forall|room: Seq<char>| !(#[trigger] members(remove_conn_t(s, conn), room)).contains(conn),
        forall|c: u64, room: Seq<char>| c != conn ==>
            (members(remove_conn_t(s, conn), room).contains(c)
                <==> #[trigger] members(s, room).contains(c)),
{
    lemma_remove_no_conn(s, conn);
    if has_conn(remove_conn_t(s, conn), conn) {
        let i = choose|i: int| 0 <= i < remove_conn_t(s, conn).len()
            && remove_conn_t(s, conn)[i].conn == conn;
        assert(false);
    }
    assert forall|room: Seq<char>|
        !(#[trigger] members(remove_conn_t(s, conn), room)).contains(conn) by {
        if members(remove_conn_t(s, conn), room).contains(conn) {
            let i = choose|i: int| 0 <= i < remove_conn_t(s, conn).len()
                && remove_conn_t(s, conn)[i].conn == conn
                && in_room(remove_conn_t(s, conn)[i], room);
            assert(false);
        }
    }
    assert forall|c: u64, room: Seq<char>| c != conn
        implies (members(remove_conn_t(s, conn), room).contains(c)
            <==> #[trigger] members(s, room).contains(c)) by {
        lemma_remove_members_other(s, conn, c, room);
    }
}

/// The joining connection itself is among the members who see its join
/// confirmation.
pub proof fn lemma_join_confirmation_reaches_joiner(s: Seq<SessionModel>, conn: u64, room: Seq<char>)
    requires
        has_conn(s, conn),
    ensures
        members(join_t(s, conn, room), room).contains(conn),
{
    let i = choose|i: int| 0 <= i < s.len() && s[i].conn == conn;
    assert(leave_all_t(s, conn)[i].conn == s[i].conn);
    assert(join_t(s, conn, room)[i].conn == conn && in_room(join_t(s, conn, room)[i], room));
}

/// With connection ids unique, the fan-out list repeats nobody: each member
/// of the room is delivered to exactly once.
pub proof fn lemma_member_list_distinct(s: Seq<SessionModel>, room: Seq<char>)
    requires
        wf_sessions(s),
    ensures
        forall|p: int, q: int| 0 <= p < q < member_list(s, room).len()
            ==> member_list(s, room)[p] != member_list(s, room)[q],
    decreases s.len(),
{
    if s.len() > 0 {
        let rest = s.drop_last();
        let restl = member_list(rest, room);
        lemma_wf_drop_last(s);
        lemma_member_list_distinct(rest, room);
        if in_room(s.last(), room) {
            assert forall|p: int| 0 <= p < restl.len() implies restl[p] != s.last().conn by {
                if restl[p] == s.last().conn {
                    assert(restl.contains(s.last().conn));
                    lemma_member_list_members(rest, room);
                    let m = choose|m: int| 0 <= m < rest.len() && rest[m].conn == s.last().conn
                        && in_room(rest[m], room);
                    assert(s[m].conn == s[s.len() - 1].conn);
                    assert(false);
                }
            }
            assert forall|p: int, q: int| 0 <= p < q < member_list(s, room).len()
                implies member_list(s, room)[p] != member_list(s, room)[q] by {
                if q < restl.len() {
                    assert(member_list(s, room)[p] == restl[p]);
                    assert(member_list(s, room)[q] == restl[q]);
                } else {
                    assert(member_list(s, room)[p] == restl[p]);
                    assert(member_list(s, room)[q] == s.last().conn);
                }
            }
        }
    }
}

} // verus!
