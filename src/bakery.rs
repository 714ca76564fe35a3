//! The bakery protocol on one replica of the shared document.
//!
//! Participants are the members of a list fixed for the session, and are
//! named here by their position in it. Each holds a ticket (`0`: idle) and
//! publishes its view of every participant's ticket; the document also holds
//! the shared counter and, for each participant, the last counter value it
//! acknowledged. Every function here is one step of the protocol: a mutation
//! committed as one transaction, or a predicate read from one snapshot.

use vstd::prelude::*;
use crate::order::{id_less, id_precedes};

verus! {

/// The ticket every participant holds before it has joined: it keeps every
/// entry barrier closed until all participants have published a real state.
pub const TICKET_SENTINEL: u32 = 0xffff_ffff;

/// The largest value in `s` (`0` for an empty sequence).
pub open spec fn seq_max(s: Seq<u32>) -> u32
    decreases s.len(),
{
    if s.len() == 0 {
        0
    } else {
        let m = seq_max(s.drop_last());
        if s.last() > m { s.last() } else { m }
    }
}

/// The content of the document, one entry per participant position.
pub struct BakeryModel {
    /// The participants' ids.
    pub ids: Seq<Seq<char>>,
    /// Each participant's ticket; `0` is idle.
    pub tickets: Seq<u32>,
    /// `views[i][j]`: the ticket participant `i` last saw `j` hold.
    pub views: Seq<Seq<u32>>,
    /// The shared counter.
    pub output: u32,
    /// `seen[i]`: the last counter value participant `i` acknowledged.
    pub seen: Seq<u32>,
}

impl BakeryModel {
    pub open spec fn len(self) -> int {
        self.ids.len() as int
    }

    pub open spec fn is_member(self, i: int) -> bool {
        0 <= i < self.len()
    }

    /// The document holds one complete record per participant, the ids are
    /// distinct, and no acknowledged counter value is ahead of the counter.
    pub open spec fn wf(self) -> bool {
        &&& self.tickets.len() == self.len()
        &&& self.views.len() == self.len()
        &&& self.seen.len() == self.len()
        &&& forall|i: int| #![trigger self.views[i]] self.is_member(i) ==> self.views[i].len() == self.len()
        &&& forall|i: int, j: int| #![trigger self.ids[i], self.ids[j]]
            self.is_member(i) && self.is_member(j) && i != j ==> self.ids[i] != self.ids[j]
        &&& forall|i: int| #![trigger self.seen[i]] self.is_member(i) ==> self.seen[i] <= self.output
    }

    /// The document at the start of a session over `ids`.
    pub open spec fn initial(ids: Seq<Seq<char>>) -> BakeryModel {
        BakeryModel {
            ids,
            tickets: Seq::new(ids.len(), |i: int| TICKET_SENTINEL),
            views: Seq::new(ids.len(), |i: int| Seq::new(ids.len(), |j: int| TICKET_SENTINEL)),
            output: 0,
            seen: Seq::new(ids.len(), |i: int| 0u32),
        }
    }

    /// The largest ticket held.
    pub open spec fn max_ticket(self) -> u32 {
        seq_max(self.tickets)
    }

    /// `us` has taken ticket `t` and published the tickets it saw just before.
    pub open spec fn picked(self, us: int, t: u32) -> BakeryModel {
        BakeryModel { tickets: self.tickets.update(us, t), views: self.views.update(us, self.tickets), ..self }
    }

    /// The record of `who` (ticket, published view, acknowledged counter
    /// value) taken over from another replica `other`; the counter is the
    /// larger of the two.
    pub open spec fn adopted(self, other: BakeryModel, who: int) -> BakeryModel {
        let out = if other.output > self.output { other.output } else { self.output };
        BakeryModel {
            tickets: self.tickets.update(who, other.tickets[who]),
            views: self.views.update(who, other.views[who]),
            seen: self.seen.update(who, other.seen[who]),
            output: out,
            ..self
        }
    }

    /// Every other participant has published that `us` holds ticket `t`.
    pub open spec fn ticket_acked(self, us: int, t: u32) -> bool {
        forall|j: int| #![trigger self.views[j]] self.is_member(j) && j != us ==> self.views[j][us] == t
    }

    /// Holding ticket `t`, `us` goes before `j`: its ticket is smaller, or
    /// equal with a smaller id.
    pub open spec fn goes_before(self, us: int, t: u32, j: int) -> bool {
        t < self.tickets[j] || (t == self.tickets[j] && id_less(self.ids[us], self.ids[j]))
    }

    /// Holding ticket `t`, `us` goes before every other participant that
    /// holds a ticket.
    pub open spec fn entry_open(self, us: int, t: u32) -> bool {
        forall|j: int| #![trigger self.tickets[j]]
            self.is_member(j) && j != us && self.tickets[j] != 0 ==> self.goes_before(us, t, j)
    }

    /// `us`, holding ticket `t`, may enter the critical section.
    pub open spec fn may_enter(self, us: int, t: u32) -> bool {
        self.ticket_acked(us, t) && self.entry_open(us, t)
    }

    /// `us` has raised the counter by one and acknowledged the new value.
    pub open spec fn incremented(self, us: int) -> BakeryModel {
        let v = (self.output + 1) as u32;
        BakeryModel { output: v, seen: self.seen.update(us, v), ..self }
    }

    /// Every participant has acknowledged counter value `latest`.
    pub open spec fn output_acked(self, latest: u32) -> bool {
        forall|i: int| #![trigger self.seen[i]] self.is_member(i) ==> self.seen[i] == latest
    }

    /// `us` has gone back to idle.
    pub open spec fn released(self, us: int) -> BakeryModel {
        BakeryModel { tickets: self.tickets.update(us, 0), ..self }
    }

    /// Every participant has published that `us` is idle.
    pub open spec fn release_acked(self, us: int) -> bool {
        forall|j: int| #![trigger self.views[j]] self.is_member(j) ==> self.views[j][us] == 0
    }

    /// `us` has published the tickets and the counter as they stand.
    pub open spec fn acknowledged(self, us: int) -> BakeryModel {
        BakeryModel { views: self.views.update(us, self.tickets), seen: self.seen.update(us, self.output), ..self }
    }

    /// Every participant's published view and acknowledged counter match the
    /// document.
    pub open spec fn converged(self) -> bool {
        &&& forall|i: int| #![trigger self.views[i]] self.is_member(i) ==> self.views[i] == self.tickets
        &&& self.output_acked(self.output)
    }
}

/// Each step of the protocol keeps the document well formed.
pub proof fn lemma_steps_keep_wf(m: BakeryModel, us: int, t: u32)
    requires
        m.wf(),
        m.is_member(us),
    ensures
        m.picked(us, t).wf(),
        m.released(us).wf(),
        m.acknowledged(us).wf(),
        m.output < u32::MAX ==> m.incremented(us).wf(),
{
    let p = m.picked(us, t);
    assert(p.ids == m.ids && p.seen == m.seen && p.output == m.output);
    assert(p.tickets.len() == m.len());
    assert forall|i: int| #![trigger p.views[i]] p.is_member(i) implies p.views[i].len() == p.len() by {
        if i != us {
            assert(p.views[i] == m.views[i]);
        }
    }
    let a = m.acknowledged(us);
    assert forall|i: int| #![trigger a.views[i]] a.is_member(i) implies a.views[i].len() == a.len() by {
        if i != us {
            assert(a.views[i] == m.views[i]);
        }
    }
    assert forall|i: int| #![trigger a.seen[i]] a.is_member(i) implies a.seen[i] <= a.output by {
        if i != us {
            assert(a.seen[i] == m.seen[i]);
        }
    }
    let r = m.released(us);
    assert(r.ids == m.ids && r.seen == m.seen && r.output == m.output && r.views == m.views);
    assert(r.tickets.len() == m.len());
    assert forall|i: int| #![trigger r.views[i]] r.is_member(i) implies r.views[i].len() == r.len() by {
        assert(r.views[i] == m.views[i]);
    }
    if m.output < u32::MAX {
        let c = m.incremented(us);
        assert forall|i: int| #![trigger c.seen[i]] c.is_member(i) implies c.seen[i] <= c.output by {
            if i != us {
                assert(c.seen[i] == m.seen[i]);
            }
        }
        assert forall|i: int| #![trigger c.views[i]] c.is_member(i) implies c.views[i].len() == c.len() by {
            assert(c.views[i] == m.views[i]);
        }
    }
}

/// One replica of the shared document.
pub struct Bakery {
    ids: Vec<String>,
    tickets: Vec<u32>,
    views: Vec<Vec<u32>>,
    output: u32,
    output_seen: Vec<u32>,
}

impl View for Bakery {
    type V = BakeryModel;

    closed spec fn view(&self) -> BakeryModel {
        BakeryModel {
            ids: self.ids@.map_values(|s: String| s@),
            tickets: self.tickets@,
            views: self.views@.map_values(|v: Vec<u32>| v@),
            output: self.output,
            seen: self.output_seen@,
        }
    }
}

/// The document made of these parts.
pub open spec fn parts_model(
    ids: Seq<String>,
    tickets: Seq<u32>,
    views: Seq<Vec<u32>>,
    output: u32,
    seen: Seq<u32>,
) -> BakeryModel {
    BakeryModel {
        ids: ids.map_values(|s: String| s@),
        tickets,
        views: views.map_values(|v: Vec<u32>| v@),
        output,
        seen,
    }
}

/// Whether the ids in `ids` are pairwise distinct.
pub open spec fn ids_distinct(ids: Seq<Seq<char>>) -> bool {
    forall|i: int, j: int| 0 <= i < ids.len() && 0 <= j < ids.len() && i != j ==> ids[i] != ids[j]
}

impl Bakery {
    pub open spec fn wf(&self) -> bool {
        self@.wf()
    }

    /// The document at the start of a session: every participant holds the
    /// sentinel ticket and sees it everywhere, the counter is `0` and
    /// acknowledged by all. `None` when two ids are equal.
    pub fn new(ids: Vec<String>) -> (r: Option<Bakery>)
        ensures
            r is Some <==> ids_distinct(ids@.map_values(|s: String| s@)),
            r matches Some(b) ==> b.wf() && b@ == BakeryModel::initial(ids@.map_values(|s: String| s@)),
    {
        let n = ids.len();
        let ghost keys = ids@.map_values(|s: String| s@);
        let mut i: usize = 0;
        while i < n
            invariant
                n == ids@.len(),
                keys == ids@.map_values(|s: String| s@),
                i <= n,
                forall|a: int, b: int| 0 <= a < i && 0 <= b < n && a != b ==> keys[a] != keys[b],
            decreases n - i,
        {
            let mut j: usize = 0;
            while j < n
                invariant
                    n == ids@.len(),
                    keys == ids@.map_values(|s: String| s@),
                    i < n,
                    j <= n,
                    forall|a: int, b: int| 0 <= a < i && 0 <= b < n && a != b ==> keys[a] != keys[b],
                    forall|b: int| 0 <= b < j && i != b ==> keys[i as int] != keys[b],
                decreases n - j,
            {
                if i != j && ids[i] == ids[j] {
                    assert(keys[i as int] == keys[j as int]);
                    return None;
                }
                j = j + 1;
            }
            i = i + 1;
        }
        let mut tickets: Vec<u32> = Vec::new();
        let mut views: Vec<Vec<u32>> = Vec::new();
        let mut output_seen: Vec<u32> = Vec::new();
        let ghost init = BakeryModel::initial(keys);
        let mut k: usize = 0;
        while k < n
            invariant
                n == ids@.len(),
                init == BakeryModel::initial(keys),
                keys.len() == n,
                k <= n,
                tickets@.len() == k,
                views@.len() == k,
                output_seen@.len() == k,
                forall|a: int| 0 <= a < k ==> tickets@[a] == TICKET_SENTINEL,
                forall|a: int| 0 <= a < k ==> output_seen@[a] == 0,
                forall|a: int| 0 <= a < k ==> (#[trigger] views@[a])@ == init.views[a],
            decreases n - k,
        {
            let mut row: Vec<u32> = Vec::new();
            let mut m: usize = 0;
            while m < n
                invariant
                    n == ids@.len(),
                    init == BakeryModel::initial(keys),
                    keys.len() == n,
                    k < n,
                    m <= n,
                    row@.len() == m,
                    forall|a: int| 0 <= a < m ==> row@[a] == TICKET_SENTINEL,
                decreases n - m,
            {
                row.push(TICKET_SENTINEL);
                m = m + 1;
            }
            assert(row@ =~= init.views[k as int]);
            tickets.push(TICKET_SENTINEL);
            views.push(row);
            output_seen.push(0);
            k = k + 1;
        }
        let b = Bakery { ids, tickets, views, output: 0, output_seen };
        assert(b@.tickets =~= init.tickets);
        assert(b@.seen =~= init.seen);
        assert(b@.views =~= init.views);
        assert(b@.ids =~= init.ids);
        Some(b)
    }

    /// A document read back from its stored form. `None` when it is
    /// malformed: a record missing for some participant, a view of the
    /// wrong length, two equal ids, or an acknowledged counter value ahead
    /// of the counter.
    pub fn from_parts(
        ids: Vec<String>,
        tickets: Vec<u32>,
        views: Vec<Vec<u32>>,
        output: u32,
        output_seen: Vec<u32>,
    ) -> (r: Option<Bakery>)
        ensures
            r is Some <==> parts_model(ids@, tickets@, views@, output, output_seen@).wf(),
            r matches Some(b) ==> b@ == parts_model(ids@, tickets@, views@, output, output_seen@),
    {
        let ghost m = parts_model(ids@, tickets@, views@, output, output_seen@);
        let b = Bakery { ids, tickets, views, output, output_seen };
        assert(b@ == m);
        let n = b.ids.len();
        if b.tickets.len() != n || b.views.len() != n || b.output_seen.len() != n {
            return None;
        }
        let mut i: usize = 0;
        while i < n
            invariant
                n == b@.len(),
                b@ == m,
                m == parts_model(ids@, tickets@, views@, output, output_seen@),
                b@.tickets.len() == n,
                b@.views.len() == n,
                b@.seen.len() == n,
                i <= n,
                forall|a: int| #![trigger b@.views[a]] 0 <= a < i ==> b@.views[a].len() == n,
                forall|a: int| #![trigger b@.seen[a]] 0 <= a < i ==> b@.seen[a] <= b@.output,
            decreases n - i,
        {
            assert(b@.views[i as int] == b.views@[i as int]@);
            if b.views[i].len() != n || b.output_seen[i] > b.output {
                assert(!b@.wf()) by {
                    assert(b@.is_member(i as int));
                    assert(b@.views[i as int].len() != n || b@.seen[i as int] > b@.output);
                }
                return None;
            }
            i = i + 1;
        }
        let mut x: usize = 0;
        while x < n
            invariant
                n == b@.len(),
                b@ == m,
                m == parts_model(ids@, tickets@, views@, output, output_seen@),
                x <= n,
                forall|a: int, c: int| #![trigger b@.ids[a], b@.ids[c]]
                    0 <= a < x && 0 <= c < n && a != c ==> b@.ids[a] != b@.ids[c],
            decreases n - x,
        {
            let mut y: usize = 0;
            while y < n
                invariant
                    n == b@.len(),
                    b@ == m,
                    m == parts_model(ids@, tickets@, views@, output, output_seen@),
                    x < n,
                    y <= n,
                    forall|a: int, c: int| #![trigger b@.ids[a], b@.ids[c]]
                        0 <= a < x && 0 <= c < n && a != c ==> b@.ids[a] != b@.ids[c],
                    forall|c: int| 0 <= c < y && x != c ==> b@.ids[x as int] != b@.ids[c],
                decreases n - y,
            {
                if x != y && b.ids[x] == b.ids[y] {
                    assert(b@.ids[x as int] == b@.ids[y as int]);
                    return None;
                }
                y = y + 1;
            }
            x = x + 1;
        }
        assert(b.wf());
        Some(b)
    }

    /// The number of participants.
    pub fn len(&self) -> (r: usize)
        ensures
            r == self@.len(),
    {
        self.ids.len()
    }

    /// The position of the participant called `id`, if it is one.
    pub fn index_of(&self, id: &String) -> (r: Option<usize>)
        requires
            self.wf(),
        ensures
            r matches Some(i) ==> self@.is_member(i as int) && self@.ids[i as int] == id@,
            r is None ==> forall|i: int| self@.is_member(i) ==> self@.ids[i] != id@,
    {
        let mut i: usize = 0;
        while i < self.ids.len()
            invariant
                self.wf(),
                i <= self@.len(),
                forall|a: int| 0 <= a < i ==> self@.ids[a] != id@,
            decreases self@.len() - i,
        {
            if self.ids[i] == *id {
                return Some(i);
            }
            i = i + 1;
        }
        None
    }
    /// The tickets as they stand.
    fn ticket_snapshot(&self) -> (r: Vec<u32>)
        ensures
            r@ == self@.tickets,
    {
        let mut r: Vec<u32> = Vec::new();
        let mut i: usize = 0;
        while i < self.tickets.len()
            invariant
                i <= self.tickets@.len(),
                r@ == self.tickets@.subrange(0, i as int),
            decreases self.tickets@.len() - i,
        {
            r.push(self.tickets[i]);
            i = i + 1;
            assert(r@ =~= self.tickets@.subrange(0, i as int));
        }
        assert(self.tickets@.subrange(0, i as int) =~= self.tickets@);
        r
    }

    /// The largest ticket held.
    pub fn max_ticket(&self) -> (r: u32)
        ensures
            r == self@.max_ticket(),
    {
        let mut m: u32 = 0;
        let mut i: usize = 0;
        while i < self.tickets.len()
            invariant
                i <= self.tickets@.len(),
                m == seq_max(self.tickets@.subrange(0, i as int)),
            decreases self.tickets@.len() - i,
        {
            assert(self.tickets@.subrange(0, i + 1).drop_last() =~= self.tickets@.subrange(0, i as int));
            if self.tickets[i] > m {
                m = self.tickets[i];
            }
            i = i + 1;
        }
        assert(self.tickets@.subrange(0, i as int) =~= self.tickets@);
        m
    }

    /// Takes a ticket for `us`, one above every ticket held, and publishes as
    /// its view the tickets seen at that moment. `None`, with nothing changed,
    /// when some participant still holds the sentinel (no ticket is above it).
    pub fn pick_ticket(&mut self, us: usize) -> (r: Option<u32>)
        requires
            old(self).wf(),
            old(self)@.is_member(us as int),
        ensures
            final(self).wf(),
            r is None <==> old(self)@.max_ticket() == TICKET_SENTINEL,
            r is None ==> final(self)@ == old(self)@,
            r matches Some(t) ==> t == old(self)@.max_ticket() + 1 && final(self)@ == old(self)@.picked(us as int, t),
    {
        let m = self.max_ticket();
        if m == TICKET_SENTINEL {
            return None;
        }
        let t = m + 1;
        let snapshot = self.ticket_snapshot();
        let ghost before = self@;
        self.views.set(us, snapshot);
        self.tickets.set(us, t);
        assert(self@.views =~= before.views.update(us as int, before.tickets));
        assert(self@ =~= before.picked(us as int, t));
        proof { lemma_steps_keep_wf(before, us as int, t); }
        Some(t)
    }

    /// Whether `us`, holding ticket `t`, may enter the critical section:
    /// every other participant has published that `us` holds `t`, and `us`
    /// goes before every other participant holding a ticket.
    pub fn may_enter(&self, us: usize, t: u32) -> (r: bool)
        requires
            self.wf(),
            self@.is_member(us as int),
        ensures
            r == self@.may_enter(us as int, t),
    {
        let n = self.ids.len();
        let mut j: usize = 0;
        while j < n
            invariant
                self.wf(),
                self@.is_member(us as int),
                n == self@.len(),
                j <= n,
                forall|k: int| #![trigger self@.views[k]] 0 <= k < j && k != us ==> self@.views[k][us as int] == t,
            decreases n - j,
        {
            assert(self@.views[j as int] == self.views@[j as int]@);
            if j != us && self.views[j][us] != t {
                return false;
            }
            j = j + 1;
        }
        let mut k: usize = 0;
        while k < n
            invariant
                self.wf(),
                self@.is_member(us as int),
                self@.ticket_acked(us as int, t),
                n == self@.len(),
                k <= n,
                forall|a: int| #![trigger self@.tickets[a]]
                    0 <= a < k && a != us && self@.tickets[a] != 0 ==> self@.goes_before(us as int, t, a),
            decreases n - k,
        {
            if k != us && self.tickets[k] != 0 {
                let tk = self.tickets[k];
                if tk < t || (tk == t && !id_precedes(&self.ids[us], &self.ids[k])) {
                    assert(!self@.goes_before(us as int, t, k as int));
                    return false;
                }
            }
            k = k + 1;
        }
        true
    }

    /// Raises the counter by one and records that `us` has seen the new
    /// value, which it returns. `None`, with nothing changed, when the
    /// counter is at its largest value.
    pub fn increment_output(&mut self, us: usize) -> (r: Option<u32>)
        requires
            old(self).wf(),
            old(self)@.is_member(us as int),
        ensures
            final(self).wf(),
            r is None <==> old(self)@.output == u32::MAX,
            r is None ==> final(self)@ == old(self)@,
            r matches Some(v) ==> v == old(self)@.output + 1 && final(self)@ == old(self)@.incremented(us as int),
    {
        if self.output == u32::MAX {
            return None;
        }
        let ghost before = self@;
        let v = self.output + 1;
        self.output = v;
        self.output_seen.set(us, v);
        assert(self@ =~= before.incremented(us as int));
        proof { lemma_steps_keep_wf(before, us as int, 0); }
        Some(v)
    }

    /// Whether every participant has acknowledged counter value `latest`.
    pub fn output_acked_by_all(&self, latest: u32) -> (r: bool)
        requires
            self.wf(),
        ensures
            r == self@.output_acked(latest),
    {
        let mut i: usize = 0;
        while i < self.output_seen.len()
            invariant
                self.wf(),
                i <= self@.len(),
                forall|a: int| 0 <= a < i ==> self@.seen[a] == latest,
            decreases self@.len() - i,
        {
            if self.output_seen[i] != latest {
                return false;
            }
            i = i + 1;
        }
        true
    }

    /// Sets the ticket of `us` back to `0` (idle).
    pub fn release(&mut self, us: usize)
        requires
            old(self).wf(),
            old(self)@.is_member(us as int),
        ensures
            final(self).wf(),
            final(self)@ == old(self)@.released(us as int),
    {
        let ghost before = self@;
        self.tickets.set(us, 0);
        assert(self@ =~= before.released(us as int));
        proof { lemma_steps_keep_wf(before, us as int, 0); }
    }

    /// Whether every participant has published that `us` is idle.
    pub fn release_acked_by_all(&self, us: usize) -> (r: bool)
        requires
            self.wf(),
            self@.is_member(us as int),
        ensures
            r == self@.release_acked(us as int),
    {
        let n = self.ids.len();
        let mut j: usize = 0;
        while j < n
            invariant
                self.wf(),
                self@.is_member(us as int),
                n == self@.len(),
                j <= n,
                forall|k: int| #![trigger self@.views[k]] 0 <= k < j ==> self@.views[k][us as int] == 0,
            decreases n - j,
        {
            assert(self@.views[j as int] == self.views@[j as int]@);
            if self.views[j][us] != 0 {
                return false;
            }
            j = j + 1;
        }
        true
    }

    /// Publishes, as the view of `us`, the tickets and the counter as they
    /// stand, and returns what was published.
    pub fn acknowledge(&mut self, us: usize) -> (r: (Vec<u32>, u32))
        requires
            old(self).wf(),
            old(self)@.is_member(us as int),
        ensures
            final(self).wf(),
            final(self)@ == old(self)@.acknowledged(us as int),
            r.0@ == old(self)@.tickets,
            r.1 == old(self)@.output,
    {
        let ghost before = self@;
        let snapshot = self.ticket_snapshot();
        let published = self.ticket_snapshot();
        self.views.set(us, snapshot);
        let v = self.output;
        self.output_seen.set(us, v);
        assert(self@.views =~= before.views.update(us as int, before.tickets));
        assert(self@ =~= before.acknowledged(us as int));
        proof { lemma_steps_keep_wf(before, us as int, 0); }
        (published, v)
    }

    /// What `us` has published so far: its view of the tickets and the last
    /// counter value it acknowledged.
    pub fn published(&self, us: usize) -> (r: (Vec<u32>, u32))
        requires
            self.wf(),
            self@.is_member(us as int),
        ensures
            r.0@ == self@.views[us as int],
            r.1 == self@.seen[us as int],
    {
        let row = &self.views[us];
        let mut r: Vec<u32> = Vec::new();
        let mut i: usize = 0;
        while i < row.len()
            invariant
                row@ == self@.views[us as int],
                i <= row@.len(),
                r@ == row@.subrange(0, i as int),
            decreases row@.len() - i,
        {
            r.push(row[i]);
            i = i + 1;
            assert(r@ =~= row@.subrange(0, i as int));
        }
        assert(row@.subrange(0, i as int) =~= row@);
        (r, self.output_seen[us])
    }

    /// Whether the document differs from what was last published (`view`,
    /// `output`), so that a new acknowledgement is due.
    pub fn acknowledgement_due(&self, view: &Vec<u32>, output: u32) -> (r: bool)
        ensures
            r == !(view@ == self@.tickets && output == self@.output),
    {
        if output != self.output || view.len() != self.tickets.len() {
            return true;
        }
        let mut i: usize = 0;
        while i < view.len()
            invariant
                view@.len() == self.tickets@.len(),
                i <= view@.len(),
                forall|a: int| 0 <= a < i ==> view@[a] == self.tickets@[a],
            decreases view@.len() - i,
        {
            if view[i] != self.tickets[i] {
                return true;
            }
            i = i + 1;
        }
        assert(view@ =~= self@.tickets);
        false
    }

    /// Takes over the record of participant `who` as it stands in `other`,
    /// a replica of the same session, the way synchronisation delivers it:
    /// every record is written by its owner alone, and the counter only grows.
    pub fn apply_remote(&mut self, other: &Bakery, who: usize)
        requires
            old(self).wf(),
            other.wf(),
            other@.ids == old(self)@.ids,
            old(self)@.is_member(who as int),
        ensures
            final(self).wf(),
            final(self)@ == old(self)@.adopted(other@, who as int),
    {
        let ghost before = self@;
        let (row, seen) = other.published(who);
        let t = other.tickets[who];
        self.tickets.set(who, t);
        self.views.set(who, row);
        self.output_seen.set(who, seen);
        if other.output > self.output {
            self.output = other.output;
        }
        assert(self@.views =~= before.views.update(who as int, other@.views[who as int]));
        assert(self@ =~= before.adopted(other@, who as int));
        let ghost a = self@;
        assert forall|i: int| #![trigger a.views[i]] a.is_member(i) implies a.views[i].len() == a.len() by {
            if i != who {
                assert(a.views[i] == before.views[i]);
            }
        }
        assert forall|i: int| #![trigger a.seen[i]] a.is_member(i) implies a.seen[i] <= a.output by {
            if i != who {
                assert(a.seen[i] == before.seen[i]);
            }
        }
    }

    /// The ticket of participant `i`.
    pub fn ticket(&self, i: usize) -> (r: u32)
        requires
            self.wf(),
            self@.is_member(i as int),
        ensures
            r == self@.tickets[i as int],
    {
        self.tickets[i]
    }

    /// The ticket participant `i` last saw `j` hold.
    pub fn view_of(&self, i: usize, j: usize) -> (r: u32)
        requires
            self.wf(),
            self@.is_member(i as int),
            self@.is_member(j as int),
        ensures
            r == self@.views[i as int][j as int],
    {
        assert(self@.views[i as int] == self.views@[i as int]@);
        self.views[i][j]
    }

    /// The shared counter.
    pub fn output(&self) -> (r: u32)
        ensures
            r == self@.output,
    {
        self.output
    }

    /// The last counter value participant `i` acknowledged.
    pub fn output_seen(&self, i: usize) -> (r: u32)
        requires
            self.wf(),
            self@.is_member(i as int),
        ensures
            r == self@.seen[i as int],
    {
        self.output_seen[i]
    }

    /// The id of participant `i`.
    pub fn id(&self, i: usize) -> (r: &String)
        requires
            self.wf(),
            self@.is_member(i as int),
        ensures
            r@ == self@.ids[i as int],
    {
        &self.ids[i]
    }
}

/// Whether a counter value `new` that the driver got back is a step forward
/// from the last one it saw.
pub fn is_monotonic_step(last: u32, new: u32) -> (r: bool)
    ensures
        r == (new > last),
{
    new > last
}

} // verus!
