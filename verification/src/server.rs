//! The participant registry: the seat list the table drives, broadcast
//! delivery, and seat lookup with modulo wraparound.

use vstd::prelude::*;

use crate::player::Seat;

verus! {

/// The registry of seated participants.
pub struct ServerData {
    pub players: Vec<Seat>,
    pub started: bool,
}

/// Sum of the chip stacks of all seats.
pub open spec fn seats_money(ps: Seq<Seat>) -> int
    decreases ps.len(),
{
    if ps.len() == 0 {
        0
    } else {
        seats_money(ps.drop_last()) + ps.last().model().money
    }
}

/// Sum of the current-street wagers of all seats.
pub open spec fn seats_bets(ps: Seq<Seat>) -> int
    decreases ps.len(),
{
    if ps.len() == 0 {
        0
    } else {
        seats_bets(ps.drop_last()) + ps.last().model().bet
    }
}

/// Replacing one seat moves both sums by the difference at that seat.
pub proof fn lemma_sums_update(ps: Seq<Seat>, i: int, s: Seat)
    requires
        0 <= i < ps.len(),
    ensures
        seats_money(ps.update(i, s)) == seats_money(ps) - ps[i].model().money + s.model().money,
        seats_bets(ps.update(i, s)) == seats_bets(ps) - ps[i].model().bet + s.model().bet,
    decreases ps.len(),
{
    if i == ps.len() - 1 {
        assert(ps.update(i, s).drop_last() =~= ps.drop_last());
    } else {
        assert(ps.update(i, s).drop_last() =~= ps.drop_last().update(i, s));
        lemma_sums_update(ps.drop_last(), i, s);
    }
}

/// With every stack and wager nonnegative, the sums are nonnegative.
pub proof fn lemma_sums_nonneg(ps: Seq<Seat>)
    requires
        forall|k: int|
            0 <= k < ps.len() ==> (#[trigger] ps[k]).model().money >= 0 && ps[k].model().bet >= 0,
    ensures
        seats_money(ps) >= 0,
        seats_bets(ps) >= 0,
    decreases ps.len(),
{
    if ps.len() > 0 {
        assert forall|k: int|
            0 <= k < ps.drop_last().len() implies (#[trigger] ps.drop_last()[k]).model().money >= 0
            && ps.drop_last()[k].model().bet >= 0 by {
            assert(ps[k].model().money >= 0 && ps[k].model().bet >= 0);
        }
        lemma_sums_nonneg(ps.drop_last());
        assert(ps[ps.len() - 1].model().money >= 0 && ps[ps.len() - 1].model().bet >= 0);
    }
}

/// With every stack and wager nonnegative, each seat's stack and wager are
/// bounded by the sums.
pub proof fn lemma_sums_bound(ps: Seq<Seat>, i: int)
    requires
        0 <= i < ps.len(),
        forall|k: int|
            0 <= k < ps.len() ==> (#[trigger] ps[k]).model().money >= 0 && ps[k].model().bet >= 0,
    ensures
        seats_money(ps) >= ps[i].model().money >= 0,
        seats_bets(ps) >= ps[i].model().bet >= 0,
        seats_money(ps) >= 0,
        seats_bets(ps) >= 0,
    decreases ps.len(),
{
    lemma_sums_nonneg(ps);
    assert forall|k: int|
        0 <= k < ps.drop_last().len() implies (#[trigger] ps.drop_last()[k]).model().money >= 0
        && ps.drop_last()[k].model().bet >= 0 by {
        assert(ps[k].model().money >= 0 && ps[k].model().bet >= 0);
    }
    if i == ps.len() - 1 {
        lemma_sums_nonneg(ps.drop_last());
        assert(ps[i].model().money == ps.last().model().money);
    } else {
        lemma_sums_bound(ps.drop_last(), i);
        assert(ps[ps.len() - 1].model().money >= 0 && ps[ps.len() - 1].model().bet >= 0);
        assert(ps.drop_last()[i] == ps[i]);
    }
}

/// Two seat lists whose seats carry the same stacks and wagers have the
/// same sums.
pub proof fn lemma_sums_same(a: Seq<Seat>, b: Seq<Seat>)
    requires
        a.len() == b.len(),
        forall|k: int|
            0 <= k < a.len() ==> (#[trigger] b[k]).model().money == a[k].model().money
                && b[k].model().bet == a[k].model().bet,
    ensures
        seats_money(a) == seats_money(b),
        seats_bets(a) == seats_bets(b),
    decreases a.len(),
{
    if a.len() > 0 {
        assert forall|k: int|
            0 <= k < a.drop_last().len() implies (#[trigger] b.drop_last()[k]).model().money
            == a.drop_last()[k].model().money && b.drop_last()[k].model().bet
            == a.drop_last()[k].model().bet by {
            assert(b[k].model().money == a[k].model().money);
        }
        lemma_sums_same(a.drop_last(), b.drop_last());
        assert(b[a.len() - 1].model().money == a[a.len() - 1].model().money);
    }
}

impl ServerData {
    /// An empty, not-yet-started registry.
    pub fn new() -> (s: ServerData)
        ensures
            s.players@.len() == 0,
            s.started == false,
    {
        ServerData { players: Vec::new(), started: false }
    }

    /// A mutable borrow of one seat by plain index.
    pub fn seat_mut(&mut self, i: usize) -> (p: &mut Seat)
        requires
            i < old(self).players@.len(),
        ensures
            *p == old(self).players@[i as int],
            final(self).players@ == old(self).players@.update(i as int, *final(p)),
            final(self).started == old(self).started,
    {
        &mut self.players[i]
    }

    /// Resolves a signed, possibly out-of-range seat position to a valid
    /// seat via modulo wraparound, and borrows it mutably.
    pub fn get_player(&mut self, pos: isize) -> (p: &mut Seat)
        requires
            old(self).players@.len() >= 1,
            old(self).players@.len() <= 0x7fff_ffff,
        ensures
            *p == old(self).players@[pos as int % old(self).players@.len() as int],
            final(self).players@ == old(self).players@.update(
                pos as int % old(self).players@.len() as int,
                *final(p),
            ),
            final(self).started == old(self).started,
    {
        let n = self.players.len() as isize;
        let ghost n_int = self.players@.len() as int;
        let mut p = pos;
        while p >= n
            invariant
                n == old(self).players@.len() as isize,
                1 <= n_int == n as int,
                p as int % n_int == pos as int % n_int,
            decreases p,
        {
            proof {
                vstd::arithmetic::div_mod::lemma_mod_sub_multiples_vanish(p as int, n_int);
            }
            p = p - n;
        }
        while p < 0
            invariant
                n == old(self).players@.len() as isize,
                1 <= n_int == n as int,
                p < n,
                p as int % n_int == pos as int % n_int,
            decreases n - p,
        {
            proof {
                vstd::arithmetic::div_mod::lemma_mod_add_multiples_vanish(p as int, n_int);
            }
            p = p + n;
        }
        proof {
            vstd::arithmetic::div_mod::lemma_small_mod(p as nat, n_int as nat);
        }
        &mut self.players[p as usize]
    }

    /// Delivers one line to every seated participant, in seat order: each
    /// network participant's outbox grows by exactly this line, each
    /// heuristic participant applies its watched-state transition, and no
    /// participant model changes.
    pub fn send_all(&mut self, msg: String)
        ensures
            final(self).players@.len() == old(self).players@.len(),
            forall|k: int|
                0 <= k < old(self).players@.len() ==> (#[trigger] final(self).players@[k]).model()
                    == old(self).players@[k].model(),
            forall|k: int|
                0 <= k < old(self).players@.len() && old(self).players@[k].wf() ==> (
                #[trigger] final(self).players@[k]).wf(),
            forall|k: int|
                0 <= k < old(self).players@.len() ==> crate::player::seat_sent(
                    old(self).players@[k],
                    #[trigger] final(self).players@[k],
                    msg@,
                ),
            final(self).started == old(self).started,
    {
        let ghost orig = self.players@;
        let n = self.players.len();
        let mut i: usize = 0;
        while i < n
            invariant
                n == self.players@.len(),
                orig.len() == n,
                i <= n,
                self.started == old(self).started,
                forall|k: int|
                    0 <= k < n ==> (#[trigger] self.players@[k]).model() == orig[k].model(),
                forall|k: int|
                    0 <= k < n && orig[k].wf() ==> (#[trigger] self.players@[k]).wf(),
                forall|k: int|
                    0 <= k < i ==> crate::player::seat_sent(
                        orig[k],
                        #[trigger] self.players@[k],
                        msg@,
                    ),
                forall|k: int| i <= k < n ==> (#[trigger] self.players@[k]) == orig[k],
            decreases n - i,
        {
            let ghost before = self.players@;
            let p = self.seat_mut(i);
            p.send(msg.as_str());
            proof {
                assert forall|k: int|
                    0 <= k < n implies ({
                    &&& (#[trigger] self.players@[k]).model() == orig[k].model()
                    &&& (orig[k].wf() ==> self.players@[k].wf())
                    &&& (k < i + 1 ==> crate::player::seat_sent(orig[k], self.players@[k], msg@))
                    &&& (i + 1 <= k ==> self.players@[k] == orig[k])
                }) by {
                    if k != i {
                        assert(self.players@[k] == before[k]);
                    } else {
                        assert(before[k] == orig[k]);
                    }
                }
            }
            i += 1;
        }
    }
}

} // verus!
