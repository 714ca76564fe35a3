//! What holds of the protocol's steps taken together.

use vstd::prelude::*;
use crate::bakery::{seq_max, BakeryModel, TICKET_SENTINEL};
use crate::order::{id_less, lemma_id_less_asymmetric, lemma_id_less_total, lemma_id_less_transitive};

verus! {

/// On one snapshot of the document, two distinct participants that both
/// hold a ticket never both find the way into the critical section open.
pub proof fn lemma_entry_exclusive(m: BakeryModel, a: int, b: int)
    requires
        m.wf(),
        m.is_member(a),
        m.is_member(b),
        a != b,
        m.tickets[a] != 0,
        m.tickets[b] != 0,
    ensures
        !(m.entry_open(a, m.tickets[a]) && m.entry_open(b, m.tickets[b])),
{
    lemma_id_less_asymmetric(m.ids[a], m.ids[b]);
}

/// Of two participants holding equal tickets, the one with the smaller id
/// goes first: the other finds entry closed, and the smaller one is not held
/// back by it.
pub proof fn lemma_tie_goes_to_smaller_id(m: BakeryModel, a: int, b: int)
    requires
        m.wf(),
        m.is_member(a),
        m.is_member(b),
        a != b,
        m.tickets[a] != 0,
        m.tickets[a] == m.tickets[b],
        id_less(m.ids[a], m.ids[b]),
    ensures
        !m.entry_open(b, m.tickets[b]),
        m.goes_before(a, m.tickets[a], b),
{
    lemma_id_less_asymmetric(m.ids[a], m.ids[b]);
    assert(!m.goes_before(b, m.tickets[b], a));
}

/// Among the first `k` participants, the one holding the least ticket (ties
/// by id), or `-1` when none of them holds a ticket.
pub open spec fn first_in_line(m: BakeryModel, k: int) -> int
    decreases k,
{
    if k <= 0 {
        -1
    } else {
        let w = first_in_line(m, k - 1);
        let c = k - 1;
        if m.tickets[c] == 0 {
            w
        } else if w < 0 || m.goes_before(c, m.tickets[c], w) {
            c
        } else {
            w
        }
    }
}

proof fn lemma_goes_before_transitive(m: BakeryModel, a: int, b: int, c: int)
    requires
        m.wf(),
        m.is_member(a),
        m.is_member(b),
        m.is_member(c),
        m.goes_before(a, m.tickets[a], b),
        m.goes_before(b, m.tickets[b], c),
    ensures
        m.goes_before(a, m.tickets[a], c),
{
    if m.tickets[a] == m.tickets[b] && m.tickets[b] == m.tickets[c] {
        lemma_id_less_transitive(m.ids[a], m.ids[b], m.ids[c]);
    }
}

proof fn lemma_first_in_line(m: BakeryModel, k: int)
    requires
        m.wf(),
        0 <= k <= m.len(),
    ensures
        first_in_line(m, k) == -1 <==> forall|j: int| 0 <= j < k ==> m.tickets[j] == 0,
        first_in_line(m, k) != -1 ==> {
            let w = first_in_line(m, k);
            &&& 0 <= w < k
            &&& m.tickets[w] != 0
            &&& forall|j: int| #![trigger m.tickets[j]]
                0 <= j < k && j != w && m.tickets[j] != 0 ==> m.goes_before(w, m.tickets[w], j)
        },
    decreases k,
{
    if k > 0 {
        lemma_first_in_line(m, k - 1);
        let w = first_in_line(m, k - 1);
        let c = k - 1;
        if m.tickets[c] != 0 && w >= 0 {
            if m.goes_before(c, m.tickets[c], w) {
                assert forall|j: int| #![trigger m.tickets[j]]
                    0 <= j < k && j != c && m.tickets[j] != 0 implies m.goes_before(c, m.tickets[c], j) by {
                    if j != w {
                        lemma_goes_before_transitive(m, c, w, j);
                    }
                }
            } else {
                lemma_id_less_total(m.ids[c], m.ids[w]);
                assert(m.goes_before(w, m.tickets[w], c));
            }
        }
    }
}

/// Whenever some participant holds a ticket, one of them finds entry open:
/// the one with the least ticket, ties broken by id.
pub proof fn lemma_someone_may_enter(m: BakeryModel)
    requires
        m.wf(),
        exists|j: int| m.is_member(j) && m.tickets[j] != 0,
    ensures
        exists|w: int| m.is_member(w) && m.tickets[w] != 0 && m.entry_open(w, m.tickets[w]),
{
    lemma_first_in_line(m, m.len());
    let j = choose|j: int| m.is_member(j) && m.tickets[j] != 0;
    assert(m.tickets[j] != 0);
    assert(!(forall|x: int| 0 <= x < m.len() ==> m.tickets[x] == 0));
    let w = first_in_line(m, m.len());
    assert(w != -1);
    assert(m.is_member(w) && m.tickets[w] != 0);
    assert(m.entry_open(w, m.tickets[w]));
}

/// The counter moves only by increments of one: taking a ticket, releasing
/// it and acknowledging leave it as it is, and a record received from
/// another replica never takes it back.
pub proof fn lemma_counter_moves_by_one(m: BakeryModel, other: BakeryModel, us: int, t: u32)
    requires
        m.wf(),
        m.is_member(us),
    ensures
        m.adopted(other, us).output >= m.output,
        m.picked(us, t).output == m.output,
        m.released(us).output == m.output,
        m.acknowledged(us).output == m.output,
        m.output < u32::MAX ==> m.incremented(us).output == m.output + 1,
{
}

proof fn lemma_seq_max_bounds(s: Seq<u32>)
    ensures
        forall|k: int| 0 <= k < s.len() ==> s[k] <= seq_max(s),
    decreases s.len(),
{
    if s.len() > 0 {
        lemma_seq_max_bounds(s.drop_last());
        assert forall|k: int| 0 <= k < s.len() implies s[k] <= seq_max(s) by {
            if k < s.len() - 1 {
                assert(s[k] == s.drop_last()[k]);
            }
        }
    }
}

/// A participant that takes a ticket after another's ticket is in its
/// replica goes after that one: its ticket is larger, so it finds entry
/// closed for as long as the other holds its ticket.
pub proof fn lemma_later_ticket_goes_after(m: BakeryModel, a: int, b: int)
    requires
        m.wf(),
        m.is_member(a),
        m.is_member(b),
        a != b,
        m.tickets[a] != 0,
        m.max_ticket() != TICKET_SENTINEL,
    ensures
        ({
            let t = (m.max_ticket() + 1) as u32;
            let p = m.picked(b, t);
            &&& p.tickets[a] < t
            &&& !p.entry_open(b, t)
            &&& p.goes_before(a, p.tickets[a], b)
        }),
{
    lemma_seq_max_bounds(m.tickets);
    let t = (m.max_ticket() + 1) as u32;
    let p = m.picked(b, t);
    assert(p.tickets[a] == m.tickets[a]);
    assert(!p.goes_before(b, t, a));
}

/// One step of the protocol on a replica.
pub enum Step {
    /// The participant takes the given ticket.
    Pick(int, u32),
    /// The participant, in its critical section, raises the counter.
    Increment(int),
    /// The participant goes back to idle.
    Release(int),
    /// The participant publishes what it sees.
    Acknowledge(int),
    /// The replica takes over a participant's record from another replica.
    Receive(BakeryModel, int),
}

/// The document after one step.
pub open spec fn apply_step(m: BakeryModel, s: Step) -> BakeryModel {
    match s {
        Step::Pick(us, t) => m.picked(us, t),
        Step::Increment(us) => m.incremented(us),
        Step::Release(us) => m.released(us),
        Step::Acknowledge(us) => m.acknowledged(us),
        Step::Receive(other, who) => m.adopted(other, who),
    }
}

/// The document after `steps`, in order.
pub open spec fn apply_steps(m: BakeryModel, steps: Seq<Step>) -> BakeryModel
    decreases steps.len(),
{
    if steps.len() == 0 {
        m
    } else {
        apply_step(apply_steps(m, steps.drop_last()), steps.last())
    }
}

/// How many critical-section visits in `steps` raised the counter.
pub open spec fn visits(steps: Seq<Step>) -> int
    decreases steps.len(),
{
    if steps.len() == 0 {
        0
    } else {
        visits(steps.drop_last()) + if steps.last() is Increment { 1int } else { 0int }
    }
}

/// Whether `steps` all happen on one replica, with nothing received.
pub open spec fn local_steps(steps: Seq<Step>) -> bool {
    forall|k: int| 0 <= k < steps.len() ==> !(#[trigger] steps[k] is Receive)
}

proof fn lemma_visits_monotone(steps: Seq<Step>, i: int)
    requires
        0 <= i <= steps.len(),
    ensures
        visits(steps.take(i)) <= visits(steps),
        0 <= visits(steps.take(i)),
    decreases steps.len(),
{
    if steps.len() > 0 {
        if i == steps.len() {
            assert(steps.take(i) =~= steps);
        } else {
            assert(steps.take(i) =~= steps.drop_last().take(i));
            lemma_visits_monotone(steps.drop_last(), i);
        }
        lemma_visits_monotone(steps.drop_last(), 0);
    }
}

proof fn lemma_counter_after_steps(m: BakeryModel, steps: Seq<Step>)
    requires
        local_steps(steps),
        m.output + visits(steps) <= u32::MAX,
    ensures
        apply_steps(m, steps).output == m.output + visits(steps),
    decreases steps.len(),
{
    if steps.len() > 0 {
        let rest = steps.drop_last();
        assert(local_steps(rest)) by {
            assert forall|k: int| 0 <= k < rest.len() implies !(#[trigger] rest[k] is Receive) by {
                assert(rest[k] == steps[k]);
            }
        }
        lemma_visits_monotone(rest, 0);
        assert(!(steps[steps.len() - 1] is Receive));
        lemma_counter_after_steps(m, rest);
    }
}

/// On one replica, the counter goes up by exactly one per critical-section
/// visit: after any prefix of the steps it is the starting value plus the
/// visits made so far, so the values the visits produce are, in order,
/// `o + 1, o + 2, ...`, all distinct.
pub proof fn lemma_counter_counts_visits(m: BakeryModel, steps: Seq<Step>)
    requires
        local_steps(steps),
        m.output + visits(steps) <= u32::MAX,
    ensures
        forall|i: int| 0 <= i <= steps.len() ==>
            #[trigger] apply_steps(m, steps.take(i)).output == m.output + visits(steps.take(i)),
        apply_steps(m, steps).output == m.output + visits(steps),
{
    assert forall|i: int| 0 <= i <= steps.len() implies
        #[trigger] apply_steps(m, steps.take(i)).output == m.output + visits(steps.take(i)) by {
        lemma_visits_monotone(steps, i);
        let p = steps.take(i);
        assert forall|k: int| 0 <= k < p.len() implies !(#[trigger] p[k] is Receive) by {
            assert(p[k] == steps[k]);
        }
        lemma_counter_after_steps(m, p);
    }
    lemma_counter_after_steps(m, steps);
}

/// No step of `steps` raises a counter that is already at its largest
/// value (the step `increment_output` refuses).
pub open spec fn no_overflow(m: BakeryModel, steps: Seq<Step>) -> bool
    decreases steps.len(),
{
    if steps.len() == 0 {
        true
    } else {
        no_overflow(m, steps.drop_last()) && (steps.last() is Increment ==> apply_steps(
            m,
            steps.drop_last(),
        ).output < u32::MAX)
    }
}

proof fn lemma_no_overflow_prefix(m: BakeryModel, steps: Seq<Step>, j: int)
    requires
        0 <= j <= steps.len(),
        no_overflow(m, steps),
    ensures
        no_overflow(m, steps.take(j)),
    decreases steps.len(),
{
    if j == steps.len() {
        assert(steps.take(j) =~= steps);
    } else {
        let rest = steps.drop_last();
        assert(steps.take(j) =~= rest.take(j));
        lemma_no_overflow_prefix(m, rest, j);
    }
}

proof fn lemma_counter_prefix_le(m: BakeryModel, steps: Seq<Step>)
    requires
        no_overflow(m, steps),
    ensures
        forall|i: int| 0 <= i <= steps.len() ==>
            #[trigger] apply_steps(m, steps.take(i)).output <= apply_steps(m, steps).output,
    decreases steps.len(),
{
    assert(steps.take(steps.len() as int) =~= steps);
    if steps.len() > 0 {
        let rest = steps.drop_last();
        lemma_counter_prefix_le(m, rest);
        assert(apply_steps(m, rest).output <= apply_steps(m, steps).output);
        assert forall|i: int| 0 <= i <= steps.len() implies
            #[trigger] apply_steps(m, steps.take(i)).output <= apply_steps(m, steps).output by {
            if i < steps.len() {
                assert(steps.take(i) =~= rest.take(i));
            }
        }
    }
}

/// On any replica, with records received from other replicas too, the
/// counter never goes down: a read after more steps never sees a smaller
/// value than a read before.
pub proof fn lemma_counter_reads_never_decrease(m: BakeryModel, steps: Seq<Step>, i: int, j: int)
    requires
        0 <= i <= j <= steps.len(),
        no_overflow(m, steps),
    ensures
        apply_steps(m, steps.take(i)).output <= apply_steps(m, steps.take(j)).output,
{
    let q = steps.take(j);
    lemma_no_overflow_prefix(m, steps, j);
    lemma_counter_prefix_le(m, q);
    assert(q.take(i) =~= steps.take(i));
}

/// The document after each participant in `order` has acknowledged, in turn.
pub open spec fn acknowledged_by(m: BakeryModel, order: Seq<int>) -> BakeryModel
    decreases order.len(),
{
    if order.len() == 0 {
        m
    } else {
        acknowledged_by(m, order.drop_last()).acknowledged(order.last())
    }
}

proof fn lemma_acknowledged_by(m: BakeryModel, order: Seq<int>)
    requires
        m.wf(),
        forall|k: int| 0 <= k < order.len() ==> m.is_member(#[trigger] order[k]),
    ensures
        ({
            let r = acknowledged_by(m, order);
            &&& r.wf()
            &&& r.ids == m.ids
            &&& r.tickets == m.tickets
            &&& r.output == m.output
            &&& forall|i: int| #![trigger r.views[i]] order.contains(i) ==> r.views[i] == m.tickets && r.seen[i] == m.output
        }),
    decreases order.len(),
{
    if order.len() > 0 {
        let rest = order.drop_last();
        lemma_acknowledged_by(m, rest);
        let p = acknowledged_by(m, rest);
        let us = order.last();
        crate::bakery::lemma_steps_keep_wf(p, us, 0);
        let r = p.acknowledged(us);
        assert forall|i: int| #![trigger r.views[i]] order.contains(i) implies r.views[i] == m.tickets && r.seen[i] == m.output by {
            if i != us {
                let k = choose|k: int| 0 <= k < order.len() && order[k] == i;
                assert(rest[k] == i);
                assert(rest.contains(i));
                assert(p.views[i] == m.tickets);
                assert(r.views[i] == p.views[i]);
                assert(r.seen[i] == p.seen[i]);
            }
        }
    }
}

/// Once the document stops changing and every participant has acknowledged
/// once, in any order, every published view equals the tickets and every
/// acknowledged counter value equals the counter.
pub proof fn lemma_acknowledger_round_converges(m: BakeryModel, order: Seq<int>)
    requires
        m.wf(),
        forall|k: int| 0 <= k < order.len() ==> m.is_member(#[trigger] order[k]),
        forall|i: int| m.is_member(i) ==> order.contains(i),
    ensures
        acknowledged_by(m, order).converged(),
        acknowledged_by(m, order).tickets == m.tickets,
        acknowledged_by(m, order).output == m.output,
{
    lemma_acknowledged_by(m, order);
    let r = acknowledged_by(m, order);
    assert forall|i: int| #![trigger r.seen[i]] r.is_member(i) implies r.seen[i] == r.output by {
        assert(order.contains(i));
        assert(r.views[i] == m.tickets);
    }
}

} // verus!
