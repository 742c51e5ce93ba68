//! The connection table: a slot-indexed collection of live connections
//! keyed by token. A token is the index of the slot holding its
//! connection, so no two simultaneously live connections can share one.
//! Insert takes the lowest free slot and returns its token; remove frees
//! the slot, and a later insert may hand the same token out again. The
//! capacity is fixed when the table is made; a full table refuses inserts
//! gracefully.

use vstd::prelude::*;

use crate::connection::Connection;
use crate::connection::ConnectionView;
use crate::connection::Token;

verus! {

/// The index of the lowest free slot, if any slot is free.
pub open spec fn first_free<T>(s: Seq<Option<T>>) -> Option<int>
    decreases s.len(),
{
    if s.len() == 0 {
        None
    } else if s[0] is None {
        Some(0)
    } else {
        match first_free(s.skip(1)) {
            Some(i) => Some(i + 1),
            None => None,
        }
    }
}

/// `first_free` names exactly the first free slot.
pub proof fn lemma_first_free_at<T>(s: Seq<Option<T>>, i: int)
    requires
        0 <= i < s.len(),
        s[i] is None,
        forall|j: int| 0 <= j < i ==> #[trigger] s[j] is Some,
    ensures
        first_free(s) == Some(i),
    decreases i,
{
    if i > 0 {
        assert(forall|j: int| 0 <= j < i - 1 ==> #[trigger] s.skip(1)[j] is Some);
        lemma_first_free_at(s.skip(1), i - 1);
    }
}

/// A table with no free slot has no first free slot.
pub proof fn lemma_first_free_full<T>(s: Seq<Option<T>>)
    requires
        forall|j: int| 0 <= j < s.len() ==> #[trigger] s[j] is Some,
    ensures
        first_free(s) is None,
    decreases s.len(),
{
    if s.len() > 0 {
        assert(forall|j: int| 0 <= j < s.len() - 1 ==> #[trigger] s.skip(1)[j] is Some);
        lemma_first_free_full(s.skip(1));
    }
}

/// Every live slot holds a well-formed connection whose token is its own
/// slot index.
pub open spec fn table_wf(s: Seq<Option<ConnectionView>>) -> bool {
    forall|i: int|
        0 <= i < s.len() ==> match #[trigger] s[i] {
            Some(c) => c.wf() && c.token == Token(i as usize),
            None => true,
        }
}

/// Token uniqueness: two distinct live slots never hold the same token.
pub proof fn lemma_token_uniqueness(s: Seq<Option<ConnectionView>>, i: int, j: int)
    requires
        table_wf(s),
        s.len() <= usize::MAX,
        0 <= i < s.len(),
        0 <= j < s.len(),
        i != j,
        s[i] is Some,
        s[j] is Some,
    ensures
        s[i] matches Some(ci) ==> (s[j] matches Some(cj) ==> ci.token != cj.token),
{
    assert(s[i] matches Some(ci) ==> ci.token == Token(i as usize));
    assert(s[j] matches Some(cj) ==> cj.token == Token(j as usize));
}

/// Token reuse: once the connection at slot `t` is removed, and every
/// lower slot is still occupied, `t` is the first free slot again — the
/// very token a later accept will be given.
pub proof fn lemma_token_reuse(s: Seq<Option<ConnectionView>>, t: int)
    requires
        0 <= t < s.len(),
        forall|j: int| 0 <= j < t ==> #[trigger] s[j] is Some,
    ensures
        first_free(s.update(t, None)) == Some(t),
{
    lemma_first_free_at(s.update(t, None), t);
}

/// The slot-indexed table of live connections.
pub struct ConnTable {
    slots: Vec<Option<Connection>>,
}

impl View for ConnTable {
    type V = Seq<Option<ConnectionView>>;

    closed spec fn view(&self) -> Seq<Option<ConnectionView>> {
        self.slots@.map_values(
            |s: Option<Connection>|
                match s {
                    Some(c) => Some(c@),
                    None => None,
                },
        )
    }
}

impl ConnTable {
    /// Make an empty table with this many slots.
    pub fn new(capacity: usize) -> (t: ConnTable)
        ensures
            t@.len() == capacity,
            forall|i: int| 0 <= i < capacity ==> #[trigger] t@[i] is None,
            table_wf(t@),
    {
        let mut slots: Vec<Option<Connection>> = Vec::new();
        let mut k: usize = 0;
        while k < capacity
            invariant
                k <= capacity,
                slots@.len() == k,
                forall|i: int| 0 <= i < k ==> #[trigger] slots@[i] is None,
            decreases capacity - k,
        {
            slots.push(None);
            k += 1;
        }
        ConnTable { slots }
    }

    /// How many slots the table has; this never changes.
    pub fn capacity(&self) -> (r: usize)
        ensures
            r == self@.len(),
    {
        self.slots.len()
    }

    /// Whether this token names a live connection.
    pub fn contains(&self, t: Token) -> (r: bool)
        ensures
            r == (t.0 < self@.len() && self@[t.0 as int] is Some),
    {
        t.0 < self.slots.len() && self.slots[t.0].is_some()
    }

    /// Put a fresh connection into the lowest free slot and return its
    /// token; a full table returns no token and is left exactly as it was.
    pub fn insert(&mut self) -> (r: Option<Token>)
        requires
            table_wf(old(self)@),
        ensures
            table_wf(final(self)@),
            final(self)@.len() == old(self)@.len(),
            r matches Some(t) ==> first_free(old(self)@) == Some(t.0 as int) && final(self)@
                == old(self)@.update(t.0 as int, Some(Connection::init_view(t))),
            r is None ==> first_free(old(self)@) is None && final(self)@ == old(self)@,
    {
        let n = self.slots.len();
        let mut k: usize = 0;
        while k < n
            invariant
                k <= n,
                n == self@.len(),
                table_wf(self@),
                self@ == old(self)@,
                forall|j: int| 0 <= j < k ==> #[trigger] self@[j] is Some,
            decreases n - k,
        {
            if self.slots[k].is_none() {
                let t = Token(k);
                let c = Connection::new(t);
                self.slots[k] = Some(c);
                proof {
                    lemma_first_free_at(old(self)@, k as int);
                    assert(self@ =~= old(self)@.update(k as int, Some(Connection::init_view(t))));
                }
                return Some(t);
            }
            k += 1;
        }
        proof {
            lemma_first_free_full(self@);
        }
        None
    }

    /// Free this token's slot; a later insert may hand the token out again.
    pub fn remove(&mut self, t: Token)
        requires
            table_wf(old(self)@),
            t.0 < old(self)@.len(),
        ensures
            table_wf(final(self)@),
            final(self)@ == old(self)@.update(t.0 as int, None),
    {
        self.slots[t.0] = None;
        proof {
            assert(self@ =~= old(self)@.update(t.0 as int, None));
        }
    }

    /// Borrow the connection this token names. Callers check liveness
    /// first: looking up a stale or unknown token is a caller error.
    pub fn get(&self, t: Token) -> (r: &Connection)
        requires
            t.0 < self@.len(),
            self@[t.0 as int] is Some,
        ensures
            self@[t.0 as int] == Some(r@),
    {
        self.slots[t.0].as_ref().unwrap()
    }

    /// Move the connection this token names out of its slot, leaving the
    /// slot free until `put_conn` restores it.
    pub(crate) fn take_conn(&mut self, t: Token) -> (c: Connection)
        requires
            t.0 < old(self)@.len(),
            old(self)@[t.0 as int] is Some,
        ensures
            old(self)@[t.0 as int] == Some(c@),
            final(self)@ == old(self)@.update(t.0 as int, None),
    {
        let c = self.slots[t.0].take();
        proof {
            assert(self@ =~= old(self)@.update(t.0 as int, None));
        }
        c.unwrap()
    }

    /// Put a connection back into the slot its token names.
    pub(crate) fn put_conn(&mut self, t: Token, c: Connection)
        requires
            t.0 < old(self)@.len(),
        ensures
            final(self)@ == old(self)@.update(t.0 as int, Some(c@)),
    {
        self.slots[t.0] = Some(c);
        proof {
            assert(self@ =~= old(self)@.update(t.0 as int, Some(c@)));
        }
    }
}

} // verus!
