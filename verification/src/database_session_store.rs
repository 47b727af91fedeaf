#![verifier::loop_isolation(false)]

use vstd::prelude::*;
use crate::db_tables::{DbTableSession, SessionRowV};
use crate::util::str_eq;

verus! {

broadcast use vstd::seq_lib::group_filter_ensures;

/// Mathematical image of the session store: the session table of the system
/// of record, the in-memory mirror of it, and the next generated row id.
pub ghost struct SessionStoreV {
    pub sessions: Seq<SessionRowV>,
    pub cache: Seq<SessionRowV>,
    pub next_session_id: usize,
}

/// Whether a session with this token exists.
pub open spec fn has_session(s: Seq<SessionRowV>, tok: Seq<char>) -> bool {
    exists|i: int| 0 <= i < s.len() && #[trigger] s[i].id_string == tok
}

/// The session row with this token.
pub open spec fn session_by_token(s: Seq<SessionRowV>, tok: Seq<char>) -> SessionRowV {
    s[choose|i: int| 0 <= i < s.len() && #[trigger] s[i].id_string == tok]
}

/// Store a session payload: any prior row of the same token is replaced, the
/// new row gets a fresh id.
pub open spec fn store_session_t(v: SessionStoreV, tok: Seq<char>, json: Seq<char>) -> SessionStoreV {
    let keep = |x: SessionRowV| x.id_string != tok;
    let row = SessionRowV { id: v.next_session_id, id_string: tok, json };
    SessionStoreV {
        sessions: v.sessions.filter(keep).push(row),
        cache: v.cache.filter(keep).push(row),
        next_session_id: (v.next_session_id + 1) as usize,
    }
}

/// Destroy a session: the row of the token is deleted; absence is no error.
pub open spec fn destroy_session_t(v: SessionStoreV, tok: Seq<char>) -> SessionStoreV {
    let keep = |x: SessionRowV| x.id_string != tok;
    SessionStoreV {
        sessions: v.sessions.filter(keep),
        cache: v.cache.filter(keep),
        next_session_id: v.next_session_id,
    }
}

/// The session store: an independently mirrored key-value table from session
/// token to opaque payload. Every write goes to the session table first and,
/// after it succeeded, to the mirror; reads are served from the mirror alone.
/// It is deliberately decoupled from the engine's own state, as sessions are
/// touched on every request.
pub struct DatabaseSessionStore {
    /// the session table of the system of record
    pub sessions: Vec<DbTableSession>,
    /// the in-memory mirror
    cache: Vec<DbTableSession>,
    /// the next generated row id
    pub next_session_id: usize,
}

impl View for DatabaseSessionStore {
    type V = SessionStoreV;

    closed spec fn view(&self) -> SessionStoreV {
        SessionStoreV {
            sessions: self.sessions@.map_values(|x: DbTableSession| x@),
            cache: self.cache@.map_values(|x: DbTableSession| x@),
            next_session_id: self.next_session_id,
        }
    }
}

/// Delete every row whose token equals `tok`, keeping the rest in order.
fn remove_sessions_matching(v: &mut Vec<DbTableSession>, tok: &str)
    ensures
        final(v)@.map_values(|x: DbTableSession| x@) == old(v)@.map_values(
            |x: DbTableSession| x@,
        ).filter(|x: SessionRowV| x.id_string != tok@),
{
    let ghost in_v = v@.map_values(|x: DbTableSession| x@);
    let ghost keep = |x: SessionRowV| x.id_string != tok@;
    let mut out: Vec<DbTableSession> = Vec::new();
    let mut i: usize = 0;
    while i < v.len()
        invariant
            0 <= i <= v@.len(),
            in_v == v@.map_values(|x: DbTableSession| x@),
            out@.map_values(|x: DbTableSession| x@) == in_v.take(i as int).filter(keep),
        decreases v@.len() - i,
    {
        let ghost out_v = out@.map_values(|x: DbTableSession| x@);
        proof {
            reveal(Seq::filter);
            assert(in_v.take(i + 1 as int).drop_last() =~= in_v.take(i as int));
            assert(in_v.take(i + 1 as int).last() == in_v[i as int]);
        }
        if !str_eq(v[i].id_string.as_str(), tok) {
            out.push(v[i].duplicate());
            proof {
                assert(out@.map_values(|x: DbTableSession| x@) =~= out_v.push(in_v[i as int]));
            }
        }
        i += 1;
    }
    proof {
        reveal(Seq::filter);
        assert(in_v.take(in_v.len() as int) =~= in_v);
    }
    *v = out;
}

impl DatabaseSessionStore {
    /// Well-formedness: row ids are unique and below the id generator,
    /// tokens are unique, and the mirror holds exactly the table.
    pub open spec fn wf(&self) -> bool {
        &&& forall|i: int|
            0 <= i < self@.sessions.len() ==> #[trigger] self@.sessions[i].id
                < self@.next_session_id
        &&& forall|i: int, j: int|
            0 <= i < j < self@.sessions.len() ==> #[trigger] self@.sessions[i].id
                != #[trigger] self@.sessions[j].id
        &&& forall|i: int, j: int|
            0 <= i < j < self@.sessions.len() ==> #[trigger] self@.sessions[i].id_string
                != #[trigger] self@.sessions[j].id_string
        &&& self@.cache == self@.sessions
    }

    /// A fresh, empty session store.
    pub fn new() -> (r: Self)
        ensures
            r.wf(),
            r@.sessions == Seq::<SessionRowV>::empty(),
            r@.next_session_id == 0,
    {
        let r = DatabaseSessionStore { sessions: Vec::new(), cache: Vec::new(), next_session_id: 0 };
        proof {
            assert(r@.sessions =~= Seq::<SessionRowV>::empty());
            assert(r@.cache =~= Seq::<SessionRowV>::empty());
        }
        r
    }

    /// Load one session row as handed over by the relational store at
    /// start-up; it enters the table and the mirror alike. The row is
    /// refused when its id or token is taken.
    pub fn load_session_row(&mut self, row: DbTableSession) -> (ok: bool)
        requires
            old(self).wf(),
        ensures
            final(self).wf(),
            ok == (row.id < usize::MAX && !has_session(old(self)@.sessions, row.id_string@)
                && !exists|i: int|
                0 <= i < old(self)@.sessions.len() && #[trigger] old(self)@.sessions[i].id
                    == row.id),
            ok ==> final(self)@ == (SessionStoreV {
                sessions: old(self)@.sessions.push(row@),
                cache: old(self)@.sessions.push(row@),
                next_session_id: if row.id >= old(self)@.next_session_id {
                    (row.id + 1) as usize
                } else {
                    old(self)@.next_session_id
                },
            }),
            !ok ==> final(self)@ == old(self)@,
    {
        if row.id == usize::MAX {
            return false;
        }
        let mut i: usize = 0;
        while i < self.sessions.len()
            invariant
                0 <= i <= self.sessions@.len(),
                forall|j: int| 0 <= j < i ==> #[trigger] self@.sessions[j].id != row.id,
                forall|j: int|
                    0 <= j < i ==> #[trigger] self@.sessions[j].id_string != row.id_string@,
            decreases self.sessions@.len() - i,
        {
            if self.sessions[i].id == row.id {
                assert(self@.sessions[i as int].id == row.id);
                return false;
            }
            if str_eq(self.sessions[i].id_string.as_str(), row.id_string.as_str()) {
                assert(self@.sessions[i as int].id_string == row.id_string@);
                return false;
            }
            i += 1;
        }
        if row.id >= self.next_session_id {
            self.next_session_id = row.id + 1;
        }
        let ghost old_rows = self@.sessions;
        let copy = row.duplicate();
        self.sessions.push(row);
        self.cache.push(copy);
        proof {
            assert(self@.sessions =~= old_rows.push(self@.sessions.last()));
            assert(self@.cache =~= old_rows.push(self@.sessions.last()));
        }
        true
    }

    /// The payload stored under this token, if any — a mirror-only read.
    pub fn load_session(&self, id_string: &str) -> (r: Option<String>)
        requires
            self.wf(),
        ensures
            match r {
                Some(json) => has_session(self@.sessions, id_string@) && json@ == session_by_token(
                    self@.sessions,
                    id_string@,
                ).json,
                None => !has_session(self@.sessions, id_string@),
            },
    {
        let mut i: usize = 0;
        while i < self.cache.len()
            invariant
                0 <= i <= self.cache@.len(),
                forall|j: int| 0 <= j < i ==> #[trigger] self@.cache[j].id_string != id_string@,
            decreases self.cache@.len() - i,
        {
            if str_eq(self.cache[i].id_string.as_str(), id_string) {
                proof {
                    assert(self@.cache[i as int].id_string == id_string@);
                    let k = choose|k: int|
                        0 <= k < self@.sessions.len() && #[trigger] self@.sessions[k].id_string
                            == id_string@;
                    assert(k == i as int);
                }
                return Some(self.cache[i].json.clone());
            }
            i += 1;
        }
        None
    }

    /// Store a payload under a token: the table row is written first, then
    /// the mirror entry; a prior row of the same token is replaced in both.
    pub fn store_session(&mut self, id_string: &str, json: &str) -> (r: Result<(), crate::error::RingError>)
        requires
            old(self).wf(),
            old(self)@.next_session_id < usize::MAX,
        ensures
            final(self).wf(),
            r is Ok,
            final(self)@ == store_session_t(old(self)@, id_string@, json@),
    {
        let id = self.next_session_id;
        self.next_session_id = id + 1;
        remove_sessions_matching(&mut self.sessions, id_string);
        let row = DbTableSession {
            id,
            id_string: id_string.to_owned(),
            json: json.to_owned(),
        };
        let copy = row.duplicate();
        let ghost table = self@.sessions;
        self.sessions.push(row);
        proof {
            assert(self@.sessions =~= table.push(self@.sessions.last()));
        }
        remove_sessions_matching(&mut self.cache, id_string);
        let ghost mirror = self@.cache;
        self.cache.push(copy);
        proof {
            assert(self@.cache =~= mirror.push(self@.cache.last()));
            assert(final(self)@.cache == final(self)@.sessions);
            let s0 = old(self)@.sessions;
            let keep = |x: SessionRowV| x.id_string != id_string@;
            crate::util::lemma_filter_distinct(s0, keep, |x: SessionRowV| x.id);
            crate::util::lemma_filter_distinct(s0, keep, |x: SessionRowV| x.id_string);
            // replaced rows stay unique and below the advanced id generator
            assert forall|i: int| 0 <= i < s0.filter(keep).len() implies #[trigger] s0.filter(
                keep,
            )[i].id < old(self)@.next_session_id by {
                let v = s0.filter(keep)[i];
                let k = choose|k: int| 0 <= k < s0.len() && #[trigger] s0[k] == v;
            }
        }
        Ok(())
    }

    /// Destroy the session of this token: table delete, then mirror removal.
    pub fn destroy_session(&mut self, id_string: &str)
        requires
            old(self).wf(),
        ensures
            final(self).wf(),
            final(self)@ == destroy_session_t(old(self)@, id_string@),
    {
        remove_sessions_matching(&mut self.sessions, id_string);
        remove_sessions_matching(&mut self.cache, id_string);
        proof {
            let s0 = old(self)@.sessions;
            let keep = |x: SessionRowV| x.id_string != id_string@;
            crate::util::lemma_filter_distinct(s0, keep, |x: SessionRowV| x.id);
            crate::util::lemma_filter_distinct(s0, keep, |x: SessionRowV| x.id_string);
            assert forall|i: int| 0 <= i < s0.filter(keep).len() implies #[trigger] s0.filter(
                keep,
            )[i].id < old(self)@.next_session_id by {
                let v = s0.filter(keep)[i];
                let k = choose|k: int| 0 <= k < s0.len() && #[trigger] s0[k] == v;
            }
        }
    }

    /// Drop every session: store-wide delete, then mirror clear.
    pub fn clear_store(&mut self)
        requires
            old(self).wf(),
        ensures
            final(self).wf(),
            final(self)@.sessions == Seq::<SessionRowV>::empty(),
            final(self)@.cache == Seq::<SessionRowV>::empty(),
            final(self)@.next_session_id == old(self)@.next_session_id,
    {
        self.sessions.clear();
        self.cache.clear();
        proof {
            assert(self@.sessions =~= Seq::<SessionRowV>::empty());
            assert(self@.cache =~= Seq::<SessionRowV>::empty());
        }
    }
}

} // verus!
