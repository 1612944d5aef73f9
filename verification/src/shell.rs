//! The rescue shell: which shells to try, and when to give up on one and
//! fall back to the next.
use vstd::prelude::*;
use crate::proc::Spec;

verus! {

/// How many quick deaths in a row a shell gets before the next one is tried.
pub const STRIKES_BEFORE_MOVING_ON: u32 = 3;

/// The shells to try, in order: each runs as its own session leader and is
/// passed its own name as `argv[0]`.
pub fn candidates() -> (r: &'static [Spec])
    ensures
        r@.len() == 2,
        r@[0].name@ == "shell"@,
        r@[0].path@ == "/bin/sh"@,
        r@[0].argv@.len() == 1,
        r@[0].argv@[0]@ == "sh"@,
        r@[0].wants_own_session,
        r@[1].name@ == "shell"@,
        r@[1].path@ == "/bin/busybox"@,
        r@[1].argv@.len() == 2,
        r@[1].argv@[0]@ == "busybox"@,
        r@[1].argv@[1]@ == "sh"@,
        r@[1].wants_own_session,
{
    &[
        Spec { name: "shell", path: "/bin/sh", argv: &["sh"], wants_own_session: true },
        Spec { name: "shell", path: "/bin/busybox", argv: &["busybox", "sh"], wants_own_session: true },
    ]
}

/// What a failed shell leads to: another try with the same shell, a move to
/// the next one, or the end of the list.
#[derive(PartialEq, Eq, Debug)]
pub enum Verdict {
    KeepTrying,
    MovedOn(&'static Spec),
    OutOfOptions,
}

/// The shells that can be run, the one in use, and how many times in a row
/// it died too quickly.
pub struct Rescue {
    usable: Vec<&'static Spec>,
    at: usize,
    strikes: u32,
}

impl Rescue {
    #[verifier::type_invariant]
    spec fn inv(self) -> bool {
        &&& 0 < self.usable@.len() <= usize::MAX
        &&& self.at < self.usable@.len()
        &&& self.strikes <= STRIKES_BEFORE_MOVING_ON
        &&& self.strikes == STRIKES_BEFORE_MOVING_ON ==> self.at + 1 == self.usable@.len()
    }

    /// The shells that can be run, in the order they are tried.
    pub closed spec fn shells(self) -> Seq<&'static Spec> {
        self.usable@
    }

    /// Where in `shells` the shell in use is.
    pub closed spec fn current(self) -> int {
        self.at as int
    }

    /// How many times in a row the shell in use has died too quickly.
    pub closed spec fn strike_count(self) -> int {
        self.strikes as int
    }

    /// There is a shell, the one in use is one of them, and its strikes are
    /// within the limit, which only the last shell reaches.
    pub closed spec fn well_formed(self) -> bool {
        self.inv()
    }

    /// The rescue after the shell in use lived long enough: a clean slate.
    pub closed spec fn after_survival(self) -> Rescue {
        Rescue { strikes: 0, ..self }
    }

    /// The rescue after the shell in use died too quickly, and what it leads
    /// to: one more strike, up to the limit; at the limit, the next shell with a
    /// clean slate, or the end of the list when there is no next shell.
    pub closed spec fn after_failure(self) -> (Rescue, Verdict) {
        let strikes = if self.strikes < STRIKES_BEFORE_MOVING_ON { self.strikes + 1 } else { self.strikes as int };
        if strikes < STRIKES_BEFORE_MOVING_ON {
            (Rescue { strikes: strikes as u32, ..self }, Verdict::KeepTrying)
        } else if self.at + 1 >= self.usable@.len() {
            (Rescue { strikes: strikes as u32, ..self }, Verdict::OutOfOptions)
        } else {
            (Rescue { at: (self.at + 1) as usize, strikes: 0, ..self }, Verdict::MovedOn(self.usable@[self.at + 1]))
        }
    }
}

/// The first `k` candidates whose answer in `present` is yes, in order.
pub open spec fn kept(candidates: Seq<Spec>, present: Seq<bool>, k: int) -> Seq<Spec>
    decreases k,
{
    if k <= 0 {
        seq![]
    } else if present[k - 1] {
        kept(candidates, present, k - 1).push(candidates[k - 1])
    } else {
        kept(candidates, present, k - 1)
    }
}

/// `shells` are the candidates among the first `k` whose answer is yes, in
/// order: `idx` says where each came from, every index is a yes, the indices
/// rise, and no yes is left out.
pub open spec fn picks(candidates: Seq<Spec>, present: Seq<bool>, k: int, shells: Seq<Spec>, idx: Seq<int>) -> bool {
    &&& idx.len() == shells.len()
    &&& forall|i: int| 0 <= i < idx.len() ==> 0 <= #[trigger] idx[i] < k && present[idx[i]] && shells[i] == candidates[idx[i]]
    &&& forall|i: int, j: int| 0 <= i < j < idx.len() ==> #[trigger] idx[i] < #[trigger] idx[j]
    &&& forall|m: int| 0 <= m < k && #[trigger] present[m] ==> exists|i: int| 0 <= i < idx.len() && idx[i] == m
}

proof fn lemma_kept_picks(candidates: Seq<Spec>, present: Seq<bool>, k: int) -> (idx: Seq<int>)
    requires
        0 <= k <= candidates.len(),
        present.len() == candidates.len(),
    ensures
        picks(candidates, present, k, kept(candidates, present, k), idx),
    decreases k,
{
    if k == 0 {
        seq![]
    } else {
        let before = lemma_kept_picks(candidates, present, k - 1);
        if present[k - 1] {
            let idx = before.push(k - 1);
            assert forall|m: int| 0 <= m < k && #[trigger] present[m] implies exists|i: int| 0 <= i < idx.len() && idx[i] == m by {
                if m < k - 1 {
                    let i = choose|i: int| 0 <= i < before.len() && before[i] == m;
                    assert(idx[i] == m);
                } else {
                    assert(idx[idx.len() - 1] == m);
                }
            }
            idx
        } else {
            assert forall|m: int| 0 <= m < k && #[trigger] present[m] implies exists|i: int| 0 <= i < before.len() && before[i] == m by {
                assert(m < k - 1);
            }
            before
        }
    }
}

/// The shells kept are exactly the candidates whose answer is yes, each once,
/// in the order of the candidates.
pub proof fn only_the_candidates_answered_yes_are_kept(candidates: Seq<Spec>, present: Seq<bool>)
    requires
        present.len() == candidates.len(),
    ensures
        exists|idx: Seq<int>| picks(candidates, present, candidates.len() as int, kept(candidates, present, candidates.len() as int), idx),
{
    let idx = lemma_kept_picks(candidates, present, candidates.len() as int);
}

/// `r` is the rescue the answers `present` give for `candidates`: none when
/// no answer is yes, else one over the candidates whose answer is yes, in
/// order, starting with the first of them and a clean slate.
pub open spec fn rescue_for(candidates: Seq<Spec>, present: Seq<bool>, r: Option<Rescue>) -> bool {
    let shells = kept(candidates, present, candidates.len() as int);
    &&& (r is None <==> forall|k: int| 0 <= k < present.len() ==> !present[k])
    &&& r matches Some(x) ==> {
        &&& x.well_formed()
        &&& x.current() == 0
        &&& x.strike_count() == 0
        &&& x.shells().len() == shells.len()
        &&& forall|i: int| 0 <= i < shells.len() ==> *x.shells()[i] == shells[i]
    }
}

/// `answer` is what asking whether `c` is on disk can give back.
pub open spec fn asked(c: Spec, answer: bool) -> bool {
    call_ensures(Spec::is_available, (&c,), answer)
}

impl Rescue {
    /// A rescue over the shells of `candidates` that are on disk, or `None`
    /// when none of them is; which ones are on disk the filesystem decides,
    /// each candidate being asked once, in order.
    pub fn new(candidates: &'static [Spec]) -> (r: Option<Rescue>)
        ensures
            exists|present: Seq<bool>| present.len() == candidates@.len() && rescue_for(candidates@, present, r)
                && forall|k: int| 0 <= k < present.len() ==> asked(candidates@[k], #[trigger] present[k]),
            candidates@.len() == 0 ==> r is None,
    {
        let mut present: Vec<bool> = Vec::new();
        for i in 0..candidates.len()
            invariant
                present@.len() == i,
                forall|k: int| 0 <= k < i ==> asked(candidates@[k], #[trigger] present@[k]),
        {
            let here = candidates[i].is_available();
            present.push(here);
        }
        let r = Self::from_answers(candidates, present.as_slice());
        proof {
            assert(present@.len() == candidates@.len() && rescue_for(candidates@, present@, r));
        }
        r
    }

    /// The rescue the answers `present` give for `candidates`: `present[k]`
    /// says whether `candidates[k]` can be run.
    pub fn from_answers(candidates: &'static [Spec], present: &[bool]) -> (r: Option<Rescue>)
        requires
            present@.len() == candidates@.len(),
        ensures
            rescue_for(candidates@, present@, r),
    {
        let mut usable: Vec<&'static Spec> = Vec::new();
        for k in 0..candidates.len()
            invariant
                present@.len() == candidates@.len(),
                usable@.len() == kept(candidates@, present@, k as int).len(),
                usable@.len() <= k,
                forall|i: int| 0 <= i < usable@.len() ==> *usable@[i] == kept(candidates@, present@, k as int)[i],
                usable@.len() == 0 <==> forall|j: int| 0 <= j < k ==> !present@[j],
        {
            if present[k] {
                usable.push(&candidates[k]);
            }
        }
        let r = Self::over(usable);
        r
    }

    /// A rescue over `usable`, starting with its first shell, or `None` when
    /// there is nothing to run.
    pub fn over(usable: Vec<&'static Spec>) -> (r: Option<Rescue>)
        ensures
            match r {
                Some(x) => x.well_formed() && x.shells() == usable@ && x.current() == 0 && x.strike_count()
                    == 0,
                None => usable@.len() == 0,
            },
            r is None <==> usable@.len() == 0,
    {
        if usable.len() == 0 {
            return None;
        }
        Some(Rescue { usable, at: 0, strikes: 0 })
    }

    /// The shell in use.
    pub fn shell(&self) -> (r: &'static Spec)
        ensures
            r == self.shells()[self.current()],
    {
        proof {
            use_type_invariant(self);
        }
        self.usable[self.at]
    }

    /// The shell in use lived long enough: its strikes are forgiven.
    pub fn survived(&mut self)
        ensures
            *final(self) == old(self).after_survival(),
            final(self).well_formed(),
            final(self).shells() == old(self).shells(),
            final(self).current() == old(self).current(),
            final(self).strike_count() == 0,
        no_unwind
    {
        proof {
            use_type_invariant(&*self);
        }
        self.strikes = 0;
    }

    /// The shell in use died too quickly: one more strike, and at the limit
    /// a move to the next shell, or the end of the list.
    pub fn failed(&mut self) -> (v: Verdict)
        ensures
            (*final(self), v) == old(self).after_failure(),
            final(self).well_formed(),
            final(self).shells() == old(self).shells(),
            match v {
                Verdict::KeepTrying => {
                    &&& final(self).current() == old(self).current()
                    &&& final(self).strike_count() == old(self).strike_count() + 1
                    &&& final(self).strike_count() < STRIKES_BEFORE_MOVING_ON
                },
                Verdict::MovedOn(next) => {
                    &&& final(self).current() == old(self).current() + 1
                    &&& next == old(self).shells()[old(self).current() + 1]
                    &&& final(self).strike_count() == 0
                },
                Verdict::OutOfOptions => {
                    &&& final(self).current() == old(self).current()
                    &&& final(self).current() + 1 == old(self).shells().len()
                    &&& final(self).strike_count() == STRIKES_BEFORE_MOVING_ON
                },
            },
        no_unwind
    {
        proof {
            use_type_invariant(&*self);
        }
        let at = self.at;
        let n = self.usable.len();
        let strikes = if self.strikes < STRIKES_BEFORE_MOVING_ON {
            self.strikes + 1
        } else {
            self.strikes
        };
        if strikes < STRIKES_BEFORE_MOVING_ON {
            self.strikes = strikes;
            return Verdict::KeepTrying;
        }
        if at + 1 >= n {
            self.strikes = strikes;
            return Verdict::OutOfOptions;
        }
        self.at = at + 1;
        self.strikes = 0;
        Verdict::MovedOn(self.usable[self.at])
    }
}

/// From a clean slate, a shell is given its strikes before anything changes:
/// the first failures keep it, and the last one moves on to the next shell,
/// or ends the list when it was the last.
pub proof fn a_shell_gets_its_strikes(r: Rescue)
    requires
        r.well_formed(),
        r.strike_count() == 0,
    ensures
        ({
            let (r1, v1) = r.after_failure();
            let (r2, v2) = r1.after_failure();
            let (r3, v3) = r2.after_failure();
            &&& v1 == Verdict::KeepTrying
            &&& v2 == Verdict::KeepTrying
            &&& r1.current() == r.current() && r2.current() == r.current()
            &&& v3 != Verdict::KeepTrying
            &&& (v3 is MovedOn <==> r.current() + 1 < r.shells().len())
            &&& (v3 is MovedOn ==> r3.current() == r.current() + 1 && r3.strike_count() == 0)
        }),
{
}

/// A shell that lived long enough starts over: the next failure keeps it.
pub proof fn surviving_wipes_the_slate(r: Rescue)
    requires
        r.well_formed(),
    ensures
        r.after_survival().well_formed(),
        r.after_survival().after_failure().1 == Verdict::KeepTrying,
        r.after_survival().after_failure().0.current() == r.current(),
{
}

/// Failures only move forward through the shells, one at a time, and the
/// shell in use is always one of them.
pub proof fn the_rescue_only_moves_forward(r: Rescue)
    requires
        r.well_formed(),
    ensures
        r.after_failure().0.well_formed(),
        r.after_failure().0.shells() == r.shells(),
        r.current() <= r.after_failure().0.current() <= r.current() + 1,
{
}

/// Once the list is used up, it stays used up: another failure gives up again.
pub proof fn giving_up_is_final(r: Rescue)
    requires
        r.well_formed(),
        r.after_failure().1 == Verdict::OutOfOptions,
    ensures
        r.after_failure().0.well_formed(),
        r.after_failure().0.after_failure().1 == Verdict::OutOfOptions,
        r.after_failure().0.after_failure().0 == r.after_failure().0,
{
}

/// What one event does to a rescue: a survival keeps the shell and wipes its
/// strikes; a failure keeps the shell with one more strike, or moves on to
/// the next shell with a clean slate, or gives up at the last shell.
pub proof fn what_one_event_does(r: Rescue)
    requires
        r.well_formed(),
    ensures
        r.after_survival().well_formed(),
        r.after_survival().shells() == r.shells(),
        r.after_survival().current() == r.current(),
        r.after_survival().strike_count() == 0,
        ({
            let (next, v) = r.after_failure();
            &&& next.well_formed()
            &&& next.shells() == r.shells()
            &&& (v == Verdict::KeepTrying ==> next.current() == r.current()
                && next.strike_count() == r.strike_count() + 1)
            &&& (v matches Verdict::MovedOn(to) ==> next.current() == r.current() + 1
                && next.strike_count() == 0 && to == r.shells()[r.current() + 1])
            &&& (v == Verdict::OutOfOptions ==> next.current() == r.current()
                && r.current() + 1 == r.shells().len())
        }),
{
}

/// The rescue after `m` failures in a row.
pub open spec fn after_failures(r: Rescue, m: nat) -> Rescue
    decreases m,
{
    if m == 0 {
        r
    } else {
        after_failures(r, (m - 1) as nat).after_failure().0
    }
}

/// Failures in a row, counted from a clean slate: after `q` rounds of
/// strikes and `t` more failures, the rescue has moved `q` shells on and
/// holds `t` strikes; the next failure keeps the shell while strikes are
/// left, and at the limit moves on to the next shell, or ends the list at
/// the last one.
pub proof fn failures_in_a_row(r: Rescue, q: nat, t: nat)
    requires
        r.well_formed(),
        r.strike_count() == 0,
        t < STRIKES_BEFORE_MOVING_ON,
        r.current() + q < r.shells().len(),
    ensures
        ({
            let s = after_failures(r, (STRIKES_BEFORE_MOVING_ON * q + t) as nat);
            &&& s.well_formed()
            &&& s.shells() == r.shells()
            &&& s.current() == r.current() + q
            &&& s.strike_count() == t
            &&& s.after_failure().1 == if t + 1 < STRIKES_BEFORE_MOVING_ON {
                Verdict::KeepTrying
            } else if r.current() + q + 1 < r.shells().len() {
                Verdict::MovedOn(r.shells()[r.current() + q + 1])
            } else {
                Verdict::OutOfOptions
            }
        }),
    decreases STRIKES_BEFORE_MOVING_ON * q + t,
{
    if t > 0 {
        failures_in_a_row(r, q, (t - 1) as nat);
        assert((STRIKES_BEFORE_MOVING_ON * q + t) as nat - 1 == (STRIKES_BEFORE_MOVING_ON * q + (t - 1)) as nat);
    } else if q > 0 {
        failures_in_a_row(r, (q - 1) as nat, 2);
        assert((STRIKES_BEFORE_MOVING_ON * q + t) as nat - 1 == (STRIKES_BEFORE_MOVING_ON * (q - 1) + 2) as nat);
    }
}

/// The rescue after the events of `h`, in turn: `true` is a failure, `false`
/// a survival.
pub open spec fn after_events(r: Rescue, h: Seq<bool>) -> Rescue
    decreases h.len(),
{
    if h.len() == 0 {
        r
    } else {
        let p = after_events(r, h.drop_last());
        if h.last() {
            p.after_failure().0
        } else {
            p.after_survival()
        }
    }
}

/// How many failures `h` ends with, counted since the latest survival or
/// the latest move to the next shell.
pub open spec fn failure_streak(r: Rescue, h: Seq<bool>) -> nat
    decreases h.len(),
{
    if h.len() == 0 {
        0
    } else if !h.last() {
        0
    } else if after_events(r, h.drop_last()).after_failure().1 is MovedOn {
        0
    } else {
        failure_streak(r, h.drop_last()) + 1
    }
}

/// Over any history of failures and survivals from a clean slate, the shell
/// in use stays one of the shells, and what the next failure leads to is
/// decided by the failures since the latest survival or move alone: with
/// strikes left it keeps the shell, at the limit it moves on to the next
/// shell, or gives up at the last one and keeps it.
pub proof fn a_shell_is_judged_by_its_latest_failures(r: Rescue, h: Seq<bool>)
    requires
        r.well_formed(),
        r.strike_count() == 0,
    ensures
        ({
            let s = after_events(r, h);
            let m = failure_streak(r, h);
            let (next, v) = s.after_failure();
            &&& s.well_formed()
            &&& s.shells() == r.shells()
            &&& r.current() <= s.current() < r.shells().len()
            &&& s.strike_count() == if m < STRIKES_BEFORE_MOVING_ON { m as int } else { STRIKES_BEFORE_MOVING_ON as int }
            &&& v == if m + 1 < STRIKES_BEFORE_MOVING_ON {
                Verdict::KeepTrying
            } else if s.current() + 1 < s.shells().len() {
                Verdict::MovedOn(s.shells()[s.current() + 1])
            } else {
                Verdict::OutOfOptions
            }
            &&& (v is MovedOn ==> next.current() == s.current() + 1)
            &&& (!(v is MovedOn) ==> next.current() == s.current())
        }),
    decreases h.len(),
{
    if h.len() > 0 {
        a_shell_is_judged_by_its_latest_failures(r, h.drop_last());
    }
}

} // verus!
