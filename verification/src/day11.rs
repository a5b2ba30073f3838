//! The monkey item-passing simulation.
//!
//! A troop of monkeys each hold a queue of item worry levels. Over a number
//! of rounds, every monkey in ascending index order inspects each item it
//! holds: it applies its arithmetic operation, the run's worry-reduction
//! strategy, and a divisibility test that picks which monkey receives the
//! item. Items thrown to a later monkey are inspected again in the same
//! round; items thrown to an earlier one wait for the next round. The answer
//! of a run is the product of the two largest inspection counters.
//!
//! The whole simulation is modelled by spec functions over a sequence of
//! ghost monkey states; the executable simulation returns `None` exactly
//! when the input is malformed (bad routing target, zero divisor, fewer than
//! two monkeys) or some intermediate value would not fit in `usize`.

use crate::text::{
    bytes_eq, lines_of, lines_spec, parse_usize, parse_usize_spec, split_pat, split_pat_exec,
    tokens_of, tokens_spec, views,
};
use vstd::prelude::*;
use vstd::string::StringSliceAdditionalSpecFns;

verus! {

/// A monkey's arithmetic operation on the worry level of an inspected item.
#[derive(Clone, Copy)]
pub enum Operation {
    Add(usize),
    Mul(usize),
    Square,
}

/// The worry-reduction strategy of a run: integer division by three, or the
/// remainder modulo a fixed value.
#[derive(Clone, Copy)]
pub enum Strategy {
    DivThree,
    Modulo(usize),
}

/// The mathematical state of one monkey.
pub ghost struct MonkeyS {
    pub items: Seq<nat>,
    pub op: Operation,
    pub test: nat,
    pub true_throw: nat,
    pub false_throw: nat,
    pub count: nat,
}

/// One monkey: its held items in inspection order, its operation, its
/// divisibility test, the two routing targets, and its inspection counter.
pub struct Monkey {
    items: Vec<usize>,
    op: Operation,
    test: usize,
    true_throw: usize,
    false_throw: usize,
    count: usize,
}

impl View for Monkey {
    type V = MonkeyS;

    closed spec fn view(&self) -> MonkeyS {
        MonkeyS {
            items: self.items@.map_values(|v: usize| v as nat),
            op: self.op,
            test: self.test as nat,
            true_throw: self.true_throw as nat,
            false_throw: self.false_throw as nat,
            count: self.count as nat,
        }
    }
}

/// The states of a whole troop.
pub open spec fn views_of(v: Seq<Monkey>) -> Seq<MonkeyS> {
    v.map_values(|m: Monkey| m@)
}

/// The operation applied to a worry level, over unbounded integers.
pub open spec fn op_apply(op: Operation, v: nat) -> nat {
    match op {
        Operation::Add(k) => (v + k) as nat,
        Operation::Mul(k) => (v * k) as nat,
        Operation::Square => v * v,
    }
}

/// The reduction applied after the operation.
pub open spec fn reduce_val(strat: Strategy, v: nat) -> nat {
    match strat {
        Strategy::DivThree => v / 3,
        Strategy::Modulo(m) => v % (m as nat),
    }
}

/// A modulus of zero would make the reduction meaningless.
pub open spec fn strat_ok(strat: Strategy) -> bool {
    match strat {
        Strategy::DivThree => true,
        Strategy::Modulo(m) => m >= 1,
    }
}

/// The worry level an item leaves monkey `m` with.
pub open spec fn new_item(m: MonkeyS, strat: Strategy, v: nat) -> nat {
    reduce_val(strat, op_apply(m.op, v))
}

/// The monkey that receives an item of (already reduced) worry level `v`.
pub open spec fn dest_of(m: MonkeyS, v: nat) -> nat {
    if v % m.test == 0 {
        m.true_throw
    } else {
        m.false_throw
    }
}

/// Every monkey's divisor is nonzero and both its targets are in range.
pub open spec fn state_wf(s: Seq<MonkeyS>) -> bool {
    forall|i: int|
        0 <= i < s.len() ==> (#[trigger] s[i]).test >= 1 && s[i].true_throw < s.len()
            && s[i].false_throw < s.len()
}

/// The state after monkey `i` has thrown its first `k` items (as held at the
/// start of its turn), each appended to its destination's queue in order.
pub open spec fn throw_items(s: Seq<MonkeyS>, i: int, k: int, strat: Strategy) -> Seq<MonkeyS>
    decreases k,
{
    if k <= 0 || !(0 <= i < s.len()) || k > s[i].items.len() {
        s
    } else {
        let prev = throw_items(s, i, k - 1, strat);
        let v = new_item(s[i], strat, s[i].items[k - 1]);
        let d = dest_of(s[i], v) as int;
        if 0 <= d < prev.len() {
            prev.update(
                d,
                MonkeyS {
                    items: prev[d].items.push(v),
                    op: prev[d].op,
                    test: prev[d].test,
                    true_throw: prev[d].true_throw,
                    false_throw: prev[d].false_throw,
                    count: prev[d].count,
                },
            )
        } else {
            prev
        }
    }
}

/// One monkey's full turn: throw every held item, then clear the queue and
/// add its (possibly grown) length to the inspection counter.
pub open spec fn turn_spec(s: Seq<MonkeyS>, i: int, strat: Strategy) -> Seq<MonkeyS> {
    if !(0 <= i < s.len()) {
        s
    } else {
        let thrown = throw_items(s, i, s[i].items.len() as int, strat);
        thrown.update(
            i,
            MonkeyS {
                items: Seq::empty(),
                op: thrown[i].op,
                test: thrown[i].test,
                true_throw: thrown[i].true_throw,
                false_throw: thrown[i].false_throw,
                count: thrown[i].count + thrown[i].items.len(),
            },
        )
    }
}

/// The state after the first `i` monkeys have taken their turns.
pub open spec fn turns_spec(s: Seq<MonkeyS>, i: int, strat: Strategy) -> Seq<MonkeyS>
    decreases i,
{
    if i <= 0 {
        s
    } else {
        turn_spec(turns_spec(s, i - 1, strat), i - 1, strat)
    }
}

/// One full round: every monkey takes a turn, in ascending index order.
pub open spec fn round_spec(s: Seq<MonkeyS>, strat: Strategy) -> Seq<MonkeyS> {
    turns_spec(s, s.len() as int, strat)
}

/// The state after `r` full rounds.
pub open spec fn rounds_spec(s: Seq<MonkeyS>, strat: Strategy, r: int) -> Seq<MonkeyS>
    decreases r,
{
    if r <= 0 {
        s
    } else {
        round_spec(rounds_spec(s, strat, r - 1), strat)
    }
}

/// Every intermediate value of monkey `i`'s turn fits in `usize`: each
/// operation result before reduction, and the grown inspection counter.
pub open spec fn turn_fits(s: Seq<MonkeyS>, i: int, strat: Strategy) -> bool {
    let thrown = throw_items(s, i, s[i].items.len() as int, strat);
    &&& forall|k: int|
        0 <= k < s[i].items.len() ==> op_apply(s[i].op, #[trigger] s[i].items[k]) <= usize::MAX
    &&& thrown[i].count + thrown[i].items.len() <= usize::MAX
}

/// The first `i` turns of a round all fit.
pub open spec fn turns_fit(s: Seq<MonkeyS>, i: int, strat: Strategy) -> bool
    decreases i,
{
    if i <= 0 {
        true
    } else {
        turns_fit(s, i - 1, strat) && turn_fits(turns_spec(s, i - 1, strat), i - 1, strat)
    }
}

/// The whole round fits.
pub open spec fn round_fits(s: Seq<MonkeyS>, strat: Strategy) -> bool {
    turns_fit(s, s.len() as int, strat)
}

/// All `r` rounds fit.
pub open spec fn rounds_fit(s: Seq<MonkeyS>, strat: Strategy, r: int) -> bool
    decreases r,
{
    if r <= 0 {
        true
    } else {
        rounds_fit(s, strat, r - 1) && round_fits(rounds_spec(s, strat, r - 1), strat)
    }
}

/// The two largest values of `s`, largest first, taking duplicates as
/// separate values; zeros stand in when `s` has fewer than two entries.
pub open spec fn top_two(s: Seq<nat>) -> (nat, nat)
    decreases s.len(),
{
    if s.len() == 0 {
        (0, 0)
    } else {
        let p = top_two(s.drop_last());
        let v = s.last();
        if v >= p.0 {
            (v, p.0)
        } else if v > p.1 {
            (p.0, v)
        } else {
            p
        }
    }
}

/// What `top_two` returns really is the scoring pair: ordered, the larger
/// bounding every value, and both drawn from the sequence at distinct
/// positions (once it has two).
pub proof fn lemma_top_two_is_largest(s: Seq<nat>)
    ensures
        top_two(s).0 >= top_two(s).1,
        forall|k: int| 0 <= k < s.len() ==> s[k] <= top_two(s).0,
        s.len() >= 1 ==> exists|i: int| 0 <= i < s.len() && s[i] == top_two(s).0,
        s.len() >= 2 ==> exists|i: int, j: int|
            0 <= i < s.len() && 0 <= j < s.len() && i != j && s[i] == top_two(s).0 && s[j]
                == top_two(s).1,
    decreases s.len(),
{
    if s.len() > 0 {
        lemma_top_two_is_largest(s.drop_last());
        let p = top_two(s.drop_last());
        let v = s.last();
        let last = s.len() - 1;
        assert(forall|k: int| 0 <= k < last ==> s[k] == s.drop_last()[k]);
        if v >= p.0 {
            if s.len() >= 2 {
                let i0 = choose|i: int| 0 <= i < last && s.drop_last()[i] == p.0;
                assert(s[last] == top_two(s).0 && s[i0] == top_two(s).1);
            }
        } else if v > p.1 {
            let i0 = choose|i: int| 0 <= i < last && s.drop_last()[i] == p.0;
            assert(s[i0] == top_two(s).0 && s[last] == top_two(s).1);
        } else {
            if s.len() == 2 {
                // one prior value and a sentinel second place: the new value
                // equals the sentinel, so it fills second place itself
                let d = s.drop_last();
                assert(top_two(d.drop_last()) == (0nat, 0nat));
                assert(p == (d.last(), 0nat));
                assert(p.1 == 0 && v == 0);
                let i0 = choose|i: int| 0 <= i < last && s.drop_last()[i] == p.0;
                assert(s[i0] == top_two(s).0 && s[last] == top_two(s).1);
            } else if s.len() >= 3 {
                let (i0, j0) = choose|i: int, j: int|
                    0 <= i < last && 0 <= j < last && i != j && s.drop_last()[i] == p.0
                        && s.drop_last()[j] == p.1;
                assert(s[i0] == top_two(s).0 && s[j0] == top_two(s).1);
            }
        }
    }
}

/// The inspection counters of a state.
pub open spec fn counts_of(s: Seq<MonkeyS>) -> Seq<nat> {
    s.map_values(|m: MonkeyS| m.count)
}

/// The answer of a run: the product of the two largest inspection counters
/// after `rounds` rounds, or `None` when the troop is malformed (fewer than
/// two monkeys, a zero divisor, a routing target out of range, a zero
/// modulus) or some intermediate value would not fit in `usize`.
pub open spec fn sim_result(s: Seq<MonkeyS>, strat: Strategy, rounds: int) -> Option<nat> {
    if s.len() >= 2 && state_wf(s) && strat_ok(strat) && rounds_fit(s, strat, rounds) {
        let p = top_two(counts_of(rounds_spec(s, strat, rounds)));
        if p.0 * p.1 <= usize::MAX {
            Some(p.0 * p.1)
        } else {
            None
        }
    } else {
        None
    }
}

impl Operation {
    /// The operation applied to a worry level, per `op_apply`.
    pub fn operate(&self, num: usize) -> (r: usize)
        requires
            op_apply(*self, num as nat) <= usize::MAX,
        ensures
            r as nat == op_apply(*self, num as nat),
    {
        match self {
            Operation::Add(i) => num + i,
            Operation::Mul(i) => num * i,
            Operation::Square => num * num,
        }
    }
}

impl Monkey {
    /// A monkey with the given configuration and a zero inspection counter.
    pub fn new(
        items: Vec<usize>,
        op: Operation,
        test: usize,
        true_throw: usize,
        false_throw: usize,
    ) -> (r: Self)
        ensures
            r@ == (MonkeyS {
                items: items@.map_values(|v: usize| v as nat),
                op,
                test: test as nat,
                true_throw: true_throw as nat,
                false_throw: false_throw as nat,
                count: 0,
            }),
    {
        Self { items, op, test, true_throw, false_throw, count: 0 }
    }

    /// Clear the held items and count them as inspected.
    pub fn reset(&mut self)
        requires
            old(self)@.count + old(self)@.items.len() <= usize::MAX,
        ensures
            final(self)@ == (MonkeyS {
                items: Seq::<nat>::empty(),
                count: old(self)@.count + old(self)@.items.len(),
                ..old(self)@
            }),
    {
        self.count = self.count + self.items.len();
        self.items = Vec::new();
        proof {
            assert(self.items@.map_values(|v: usize| v as nat) =~= Seq::<nat>::empty());
        }
    }

    /// Append one item to the held queue.
    pub fn add_items(&mut self, item: usize)
        ensures
            final(self)@ == (MonkeyS {
                items: old(self)@.items.push(item as nat),
                ..old(self)@
            }),
    {
        self.items.push(item);
        proof {
            assert(self.items@.map_values(|v: usize| v as nat) =~= old(
                self,
            )@.items.push(item as nat));
        }
    }

    /// One monkey block read from text, per `parse_monkey_spec`.
    pub fn from_str(s: &str) -> (r: Option<Monkey>)
        ensures
            r is Some <==> parse_monkey_spec(s.spec_bytes()) is Some,
            r is Some ==> r->0@ == parse_monkey_spec(s.spec_bytes())->0,
    {
        parse_monkey(s.as_bytes())
    }

    /// Inspect one item: apply the operation and the reduction, and pick the
    /// receiving monkey. `None` exactly when the operation result would not
    /// fit in `usize`.
    pub fn inspect(&self, item: usize, strat: Strategy) -> (r: Option<(usize, usize)>)
        requires
            self@.test >= 1,
            strat_ok(strat),
        ensures
            r is Some <==> op_apply(self@.op, item as nat) <= usize::MAX,
            r is Some ==> {
                let v = new_item(self@, strat, item as nat);
                (r->0).0 as nat == v && (r->0).1 as nat == dest_of(self@, v)
            },
    {
        let applied: Option<usize> = match self.op {
            Operation::Add(i) => item.checked_add(i),
            Operation::Mul(i) => item.checked_mul(i),
            Operation::Square => item.checked_mul(item),
        };
        match applied {
            None => None,
            Some(a) => {
                let nv: usize = match strat {
                    Strategy::DivThree => a / 3,
                    Strategy::Modulo(m) => a % m,
                };
                let destination = if nv % self.test == 0 {
                    self.true_throw
                } else {
                    self.false_throw
                };
                Some((nv, destination))
            },
        }
    }

    /// Inspect every held item, in held order. `None` exactly when some
    /// item's operation result would not fit in `usize`.
    pub fn inspect_all(&self, strat: Strategy) -> (r: Option<Vec<(usize, usize)>>)
        requires
            self@.test >= 1,
            strat_ok(strat),
        ensures
            r is Some <==> (forall|k: int|
                0 <= k < self@.items.len() ==> op_apply(
                    self@.op,
                    #[trigger] self@.items[k],
                ) <= usize::MAX),
            r is Some ==> {
                &&& r->0@.len() == self@.items.len()
                &&& forall|k: int|
                    0 <= k < self@.items.len() ==> {
                        let v = new_item(self@, strat, self@.items[k]);
                        (#[trigger] r->0@[k]).0 as nat == v && r->0@[k].1 as nat == dest_of(
                            self@,
                            v,
                        )
                    }
            },
    {
        let mut out: Vec<(usize, usize)> = Vec::new();
        let n = self.items.len();
        let mut k: usize = 0;
        while k < n
            invariant
                k <= n,
                n == self@.items.len(),
                self@.test >= 1,
                strat_ok(strat),
                out@.len() == k,
                forall|j: int|
                    0 <= j < k ==> op_apply(self@.op, #[trigger] self@.items[j]) <= usize::MAX,
                forall|j: int|
                    0 <= j < k ==> {
                        let v = new_item(self@, strat, self@.items[j]);
                        (#[trigger] out@[j]).0 as nat == v && out@[j].1 as nat == dest_of(self@, v)
                    },
            decreases n - k,
        {
            match self.inspect(self.items[k], strat) {
                None => {
                    proof {
                        assert(self@.items[k as int] == self.items@[k as int] as nat);
                        assert(op_apply(self@.op, self@.items[k as int]) > usize::MAX);
                    }
                    return None;
                },
                Some(pair) => {
                    out.push(pair);
                },
            }
            k = k + 1;
        }
        Some(out)
    }
}

/// Throwing changes only item queues: length, configuration and counters
/// stay as they were.
pub proof fn lemma_throw_preserves(s: Seq<MonkeyS>, i: int, k: int, strat: Strategy)
    ensures
        throw_items(s, i, k, strat).len() == s.len(),
        forall|j: int|
            0 <= j < s.len() ==> {
                let t = #[trigger] throw_items(s, i, k, strat)[j];
                t.op == s[j].op && t.test == s[j].test && t.true_throw == s[j].true_throw
                    && t.false_throw == s[j].false_throw && t.count == s[j].count
            },
    decreases k,
{
    if k <= 0 || !(0 <= i < s.len()) || k > s[i].items.len() {
    } else {
        lemma_throw_preserves(s, i, k - 1, strat);
    }
}

/// A turn changes no monkey's divisor or routing targets, so a well-formed
/// state stays well-formed.
pub proof fn lemma_turn_preserves(s: Seq<MonkeyS>, i: int, strat: Strategy)
    ensures
        turn_spec(s, i, strat).len() == s.len(),
        forall|j: int|
            0 <= j < s.len() ==> {
                let t = #[trigger] turn_spec(s, i, strat)[j];
                t.op == s[j].op && t.test == s[j].test && t.true_throw == s[j].true_throw
                    && t.false_throw == s[j].false_throw
            },
        state_wf(s) ==> state_wf(turn_spec(s, i, strat)),
{
    if 0 <= i < s.len() {
        lemma_throw_preserves(s, i, s[i].items.len() as int, strat);
    }
}

/// Rounds preserve length, configuration and well-formedness.
pub proof fn lemma_turns_preserve(s: Seq<MonkeyS>, i: int, strat: Strategy)
    ensures
        turns_spec(s, i, strat).len() == s.len(),
        state_wf(s) ==> state_wf(turns_spec(s, i, strat)),
    decreases i,
{
    if i <= 0 {
    } else {
        lemma_turns_preserve(s, i - 1, strat);
        lemma_turn_preserves(turns_spec(s, i - 1, strat), i - 1, strat);
    }
}

pub proof fn lemma_rounds_preserve(s: Seq<MonkeyS>, strat: Strategy, r: int)
    ensures
        rounds_spec(s, strat, r).len() == s.len(),
        state_wf(s) ==> state_wf(rounds_spec(s, strat, r)),
    decreases r,
{
    if r <= 0 {
    } else {
        lemma_rounds_preserve(s, strat, r - 1);
        lemma_turns_preserve(rounds_spec(s, strat, r - 1), rounds_spec(s, strat, r - 1).len() as int, strat);
    }
}

/// If the first `j` turns fit, so do the first `i <= j`.
pub proof fn lemma_turns_fit_mono(s: Seq<MonkeyS>, i: int, j: int, strat: Strategy)
    requires
        0 <= i <= j,
        turns_fit(s, j, strat),
    ensures
        turns_fit(s, i, strat),
    decreases j,
{
    if i < j {
        lemma_turns_fit_mono(s, i, j - 1, strat);
    }
}

/// If `r` rounds fit, so do the first `k <= r`.
pub proof fn lemma_rounds_fit_mono(s: Seq<MonkeyS>, strat: Strategy, k: int, r: int)
    requires
        0 <= k <= r,
        rounds_fit(s, strat, r),
    ensures
        rounds_fit(s, strat, k),
    decreases r,
{
    if k < r {
        lemma_rounds_fit_mono(s, strat, k, r - 1);
    }
}

/// A turn that does not fit makes the whole run not fit.
proof fn lemma_unfit_turn(s0: Seq<MonkeyS>, strat: Strategy, r: int, i: int, total: int)
    requires
        0 <= r < total,
        0 <= i < rounds_spec(s0, strat, r).len(),
        !turn_fits(turns_spec(rounds_spec(s0, strat, r), i, strat), i, strat),
    ensures
        !rounds_fit(s0, strat, total),
{
    let rs = rounds_spec(s0, strat, r);
    if rounds_fit(s0, strat, total) {
        lemma_rounds_fit_mono(s0, strat, r + 1, total);
        assert(round_fits(rs, strat));
        lemma_turns_fit_mono(rs, i + 1, rs.len() as int, strat);
        assert(turn_fits(turns_spec(rs, i, strat), i, strat));
    }
}

/// A well-formed state stays well-formed when one monkey is replaced by one
/// with the same divisor and targets.
proof fn lemma_wf_after_update(s: Seq<MonkeyS>, d: int, m: MonkeyS)
    requires
        state_wf(s),
        0 <= d < s.len(),
        m.test == s[d].test,
        m.true_throw == s[d].true_throw,
        m.false_throw == s[d].false_throw,
    ensures
        state_wf(s.update(d, m)),
{
    assert forall|j: int| 0 <= j < s.update(d, m).len() implies (#[trigger] s.update(d, m)[j]).test
        >= 1 && s.update(d, m)[j].true_throw < s.update(d, m).len() && s.update(
        d,
        m,
    )[j].false_throw < s.update(d, m).len() by {
        assert(s[j].test >= 1);
    }
}

/// The product of every monkey's test divisor; a common multiple of them
/// all, so reducing modulo it preserves every divisibility test.
pub open spec fn tests_product(s: Seq<MonkeyS>) -> nat
    decreases s.len(),
{
    if s.len() == 0 {
        1
    } else {
        tests_product(s.drop_last()) * s.last().test
    }
}

/// With every divisor at least one, the product over a prefix never exceeds
/// the product over the whole troop.
pub proof fn lemma_tests_product_prefix(v: Seq<MonkeyS>, k: int)
    requires
        0 <= k <= v.len(),
        forall|j: int| 0 <= j < v.len() ==> (#[trigger] v[j]).test >= 1,
    ensures
        tests_product(v.take(k)) <= tests_product(v),
    decreases v.len() - k,
{
    if k < v.len() {
        lemma_tests_product_prefix(v, k + 1);
        assert(v.take(k + 1).drop_last() =~= v.take(k));
        assert(v.take(k + 1).last() == v[k]);
        let a = tests_product(v.take(k));
        let t = v[k].test;
        assert(a <= a * t) by (nonlinear_arith)
            requires
                t >= 1,
                a >= 0,
        ;
    } else {
        assert(v.take(k) =~= v);
    }
}

/// The sum of a per-monkey quantity over a whole troop.
pub open spec fn sum_of(s: Seq<MonkeyS>, f: spec_fn(MonkeyS) -> nat) -> nat
    decreases s.len(),
{
    if s.len() == 0 {
        0
    } else {
        sum_of(s.drop_last(), f) + f(s.last())
    }
}

/// The number of items held across the whole troop.
pub open spec fn total_items(s: Seq<MonkeyS>) -> nat {
    sum_of(s, |m: MonkeyS| m.items.len())
}

/// The sum of all inspection counters.
pub open spec fn total_counts(s: Seq<MonkeyS>) -> nat {
    sum_of(s, |m: MonkeyS| m.count)
}

/// No monkey routes items to itself.
pub open spec fn no_self_throw(s: Seq<MonkeyS>) -> bool {
    forall|i: int|
        0 <= i < s.len() ==> (#[trigger] s[i]).true_throw as int != i && s[i].false_throw as int
            != i
}

/// Replacing one monkey changes a troop-wide sum by the difference at that
/// monkey.
proof fn lemma_sum_update(s: Seq<MonkeyS>, f: spec_fn(MonkeyS) -> nat, d: int, m: MonkeyS)
    requires
        0 <= d < s.len(),
    ensures
        sum_of(s.update(d, m), f) + f(s[d]) == sum_of(s, f) + f(m),
    decreases s.len(),
{
    if d == s.len() - 1 {
        assert(s.update(d, m).drop_last() =~= s.drop_last());
        assert(s.update(d, m).last() == m);
    } else {
        assert(s.update(d, m).drop_last() =~= s.drop_last().update(d, m));
        assert(s.update(d, m).last() == s.last());
        lemma_sum_update(s.drop_last(), f, d, m);
        assert(s.drop_last()[d] == s[d]);
    }
}

/// While a monkey throws, every item lands in some other monkey's queue:
/// the troop-wide item total grows by exactly the items thrown so far, the
/// thrower's own queue and everyone's counters stay as they were.
proof fn lemma_throw_conserves(s: Seq<MonkeyS>, i: int, k: int, strat: Strategy)
    requires
        state_wf(s),
        no_self_throw(s),
        0 <= i < s.len(),
        0 <= k <= s[i].items.len(),
    ensures
        total_items(throw_items(s, i, k, strat)) == total_items(s) + k,
        throw_items(s, i, k, strat)[i].items == s[i].items,
        total_counts(throw_items(s, i, k, strat)) == total_counts(s),
    decreases k,
{
    if k > 0 {
        lemma_throw_conserves(s, i, k - 1, strat);
        lemma_throw_preserves(s, i, k - 1, strat);
        let prev = throw_items(s, i, k - 1, strat);
        let v = new_item(s[i], strat, s[i].items[k - 1]);
        let d = dest_of(s[i], v) as int;
        assert(d == s[i].true_throw || d == s[i].false_throw);
        assert(d != i && 0 <= d < prev.len());
        let grown = MonkeyS {
            items: prev[d].items.push(v),
            op: prev[d].op,
            test: prev[d].test,
            true_throw: prev[d].true_throw,
            false_throw: prev[d].false_throw,
            count: prev[d].count,
        };
        lemma_sum_update(prev, |m: MonkeyS| m.items.len(), d, grown);
        lemma_sum_update(prev, |m: MonkeyS| m.count, d, grown);
    }
}

/// One turn conserves items and raises the counter total by exactly the
/// number of items the monkey held at the start of its turn.
pub proof fn lemma_turn_conserves(s: Seq<MonkeyS>, i: int, strat: Strategy)
    requires
        state_wf(s),
        no_self_throw(s),
        0 <= i < s.len(),
    ensures
        total_items(turn_spec(s, i, strat)) == total_items(s),
        total_counts(turn_spec(s, i, strat)) == total_counts(s) + s[i].items.len(),
    decreases s.len(),
{
    let k = s[i].items.len() as int;
    lemma_throw_conserves(s, i, k, strat);
    lemma_throw_preserves(s, i, k, strat);
    let thrown = throw_items(s, i, k, strat);
    let cleared = MonkeyS {
        items: Seq::empty(),
        op: thrown[i].op,
        test: thrown[i].test,
        true_throw: thrown[i].true_throw,
        false_throw: thrown[i].false_throw,
        count: thrown[i].count + thrown[i].items.len(),
    };
    lemma_sum_update(thrown, |m: MonkeyS| m.items.len(), i, cleared);
    lemma_sum_update(thrown, |m: MonkeyS| m.count, i, cleared);
}

/// The number of items inspected by the first `i` turns of a round.
pub open spec fn turns_processed(s: Seq<MonkeyS>, i: int, strat: Strategy) -> nat
    decreases i,
{
    if i <= 0 {
        0
    } else {
        turns_processed(s, i - 1, strat) + turns_spec(s, i - 1, strat)[i - 1].items.len()
    }
}

/// The number of items inspected over `r` whole rounds.
pub open spec fn rounds_processed(s: Seq<MonkeyS>, strat: Strategy, r: int) -> nat
    decreases r,
{
    if r <= 0 {
        0
    } else {
        let prev = rounds_spec(s, strat, r - 1);
        rounds_processed(s, strat, r - 1) + turns_processed(prev, prev.len() as int, strat)
    }
}

/// A turn keeps the routing configuration, so no-self-throw survives it.
proof fn lemma_turn_keeps_shape(s: Seq<MonkeyS>, i: int, strat: Strategy)
    requires
        state_wf(s),
        no_self_throw(s),
    ensures
        state_wf(turn_spec(s, i, strat)),
        no_self_throw(turn_spec(s, i, strat)),
{
    lemma_turn_preserves(s, i, strat);
}

proof fn lemma_turns_conserve(s: Seq<MonkeyS>, i: int, strat: Strategy)
    requires
        state_wf(s),
        no_self_throw(s),
        0 <= i <= s.len(),
    ensures
        total_items(turns_spec(s, i, strat)) == total_items(s),
        total_counts(turns_spec(s, i, strat)) == total_counts(s) + turns_processed(s, i, strat),
        state_wf(turns_spec(s, i, strat)),
        no_self_throw(turns_spec(s, i, strat)),
    decreases i,
{
    if i > 0 {
        lemma_turns_conserve(s, i - 1, strat);
        lemma_turns_preserve(s, i - 1, strat);
        lemma_turn_conserves(turns_spec(s, i - 1, strat), i - 1, strat);
        lemma_turn_keeps_shape(turns_spec(s, i - 1, strat), i - 1, strat);
    }
}

/// Counter conservation: across any run of a well-formed troop in which no
/// monkey routes to itself, items are neither lost nor duplicated — the
/// troop-wide item total never changes — and the counter total grows by
/// exactly the number of items inspected.
pub proof fn lemma_counter_conservation(s: Seq<MonkeyS>, strat: Strategy, r: int)
    requires
        state_wf(s),
        no_self_throw(s),
        r >= 0,
    ensures
        total_items(rounds_spec(s, strat, r)) == total_items(s),
        total_counts(rounds_spec(s, strat, r)) == total_counts(s) + rounds_processed(s, strat, r),
        state_wf(rounds_spec(s, strat, r)),
        no_self_throw(rounds_spec(s, strat, r)),
    decreases r,
{
    if r > 0 {
        lemma_counter_conservation(s, strat, r - 1);
        let prev = rounds_spec(s, strat, r - 1);
        lemma_turns_conserve(prev, prev.len() as int, strat);
    }
}

/// Determinism: two runs from equal starting states with equal parameters
/// end in equal states, with equal counters and equal answers.
pub proof fn lemma_run_deterministic(
    s1: Seq<MonkeyS>,
    s2: Seq<MonkeyS>,
    strat: Strategy,
    rounds: int,
)
    requires
        s1 == s2,
    ensures
        rounds_spec(s1, strat, rounds) == rounds_spec(s2, strat, rounds),
        sim_result(s1, strat, rounds) == sim_result(s2, strat, rounds),
{
}

/// Run isolation: each run works on its own copy of the parsed input, so an
/// earlier run on one copy leaves a later run from another copy with exactly
/// the answer it would have had alone.
pub proof fn lemma_run_isolation(
    orig: Seq<MonkeyS>,
    copy_a: Seq<MonkeyS>,
    copy_b: Seq<MonkeyS>,
    a_strat: Strategy,
    a_rounds: int,
    b_strat: Strategy,
    b_rounds: int,
)
    requires
        copy_a == orig,
        copy_b == orig,
    ensures
        sim_result(copy_b, b_strat, b_rounds) == sim_result(orig, b_strat, b_rounds),
        rounds_spec(copy_b, b_strat, b_rounds) == rounds_spec(orig, b_strat, b_rounds),
{
}

/// Reducing modulo a multiple of `d` never changes a remainder modulo `d`.
pub proof fn lemma_reduction_preserves_congruence(x: nat, m: nat, d: nat)
    requires
        d >= 1,
        m >= 1,
        m % d == 0,
    ensures
        (x % m) % d == x % d,
{
    let k = (m / d) as int;
    vstd::arithmetic::div_mod::lemma_fundamental_div_mod(m as int, d as int);
    assert(m == d * k);
    vstd::arithmetic::div_mod::lemma_mod_mod(x as int, d as int, k);
}

/// Congruence invariant: under modulo-product reduction the divisibility
/// test of any monkey whose divisor divides the modulus routes every item
/// exactly as it would have been routed without any reduction.
pub proof fn lemma_modulo_reduction_preserves_routing(mk: MonkeyS, mprod: nat, v: nat)
    requires
        mk.test >= 1,
        mprod >= 1,
        mprod % mk.test == 0,
    ensures
        (v % mprod) % mk.test == v % mk.test,
        dest_of(mk, v % mprod) == dest_of(mk, v),
{
    lemma_reduction_preserves_congruence(v, mprod, mk.test);
}

/// Every monkey's divisor divides the product of all divisors.
pub proof fn lemma_tests_product_divisible(v: Seq<MonkeyS>, i: int)
    requires
        0 <= i < v.len(),
        forall|j: int| 0 <= j < v.len() ==> (#[trigger] v[j]).test >= 1,
    ensures
        tests_product(v) % v[i].test == 0,
    decreases v.len(),
{
    let t = v[i].test as int;
    let a = tests_product(v.drop_last()) as int;
    let b = v.last().test as int;
    if i == v.len() - 1 {
        vstd::arithmetic::div_mod::lemma_mod_multiples_basic(a, t);
        assert((a * t) % t == 0);
    } else {
        assert(forall|j: int|
            0 <= j < v.drop_last().len() ==> #[trigger] v.drop_last()[j] == v[j]);
        lemma_tests_product_divisible(v.drop_last(), i);
        assert(a % t == 0);
        vstd::arithmetic::div_mod::lemma_mul_mod_noop_left(a, b, t);
        assert((a * b) % t == ((a % t) * b) % t);
        vstd::arithmetic::div_mod::lemma_mod_multiples_basic(0, t);
        assert((a * b) % t == 0) by {
            assert((a % t) * b == 0);
        }
    }
}

/// In a troop whose divisors are all nonzero, reducing a worry level modulo
/// the product of all test divisors routes every item of every monkey
/// exactly as the unreduced value would.
pub proof fn lemma_modulo_product_routing(v: Seq<MonkeyS>, i: int, x: nat)
    requires
        forall|j: int| 0 <= j < v.len() ==> (#[trigger] v[j]).test >= 1,
        0 <= i < v.len(),
    ensures
        dest_of(v[i], x % tests_product(v)) == dest_of(v[i], x),
        reduce_val(Strategy::Modulo(tests_product(v) as usize), x) == x % tests_product(v)
            || tests_product(v) > usize::MAX,
{
    lemma_tests_product_divisible(v, i);
    lemma_tests_product_positive(v);
    lemma_modulo_reduction_preserves_routing(v[i], tests_product(v), x);
    if tests_product(v) <= usize::MAX {
        assert(tests_product(v) as usize as nat == tests_product(v));
    }
}

/// With every divisor at least one, the product of all divisors is too.
pub proof fn lemma_tests_product_positive(v: Seq<MonkeyS>)
    requires
        forall|j: int| 0 <= j < v.len() ==> (#[trigger] v[j]).test >= 1,
    ensures
        tests_product(v) >= 1,
    decreases v.len(),
{
    if v.len() > 0 {
        assert(forall|j: int|
            0 <= j < v.drop_last().len() ==> #[trigger] v.drop_last()[j] == v[j]);
        lemma_tests_product_positive(v.drop_last());
        let a = tests_product(v.drop_last());
        let t = v.last().test;
        assert(a * t >= 1) by (nonlinear_arith)
            requires
                a >= 1,
                t >= 1,
        ;
    }
}

/// Monkey `m` never changes while others throw, as long as nobody targets it.
proof fn lemma_throw_keeps_other(s: Seq<MonkeyS>, i: int, k: int, strat: Strategy, m: int)
    requires
        0 <= m < s.len(),
        0 <= i < s.len(),
        s[i].true_throw as int != m,
        s[i].false_throw as int != m,
    ensures
        throw_items(s, i, k, strat)[m] == s[m],
    decreases k,
{
    if k > 0 && k <= s[i].items.len() {
        lemma_throw_keeps_other(s, i, k - 1, strat, m);
        lemma_throw_preserves(s, i, k - 1, strat);
    }
}

/// Boundary: a monkey that starts with no items and that no other monkey
/// targets holds no items and keeps its starting counter through any run —
/// it contributes that unchanged (typically zero) counter to the scoring.
pub proof fn lemma_isolated_monkey(s: Seq<MonkeyS>, strat: Strategy, r: int, m: int)
    requires
        state_wf(s),
        0 <= m < s.len(),
        s[m].items.len() == 0,
        forall|j: int|
            0 <= j < s.len() && j != m ==> (#[trigger] s[j]).true_throw as int != m
                && s[j].false_throw as int != m,
        r >= 0,
    ensures
        rounds_spec(s, strat, r)[m].count == s[m].count,
        rounds_spec(s, strat, r)[m].items.len() == 0,
    decreases r,
{
    if r > 0 {
        lemma_isolated_monkey(s, strat, r - 1, m);
        lemma_rounds_preserve(s, strat, r - 1);
        let prev = rounds_spec(s, strat, r - 1);
        assert forall|j: int|
            0 <= j < prev.len() && j != m implies (#[trigger] prev[j]).true_throw as int != m
            && prev[j].false_throw as int != m by {
            lemma_rounds_keep_config(s, strat, r - 1, j);
        }
        lemma_isolated_turns(prev, prev.len() as int, strat, m);
    }
}

/// Configuration fields never change across rounds.
proof fn lemma_rounds_keep_config(s: Seq<MonkeyS>, strat: Strategy, r: int, j: int)
    requires
        0 <= j < s.len(),
        r >= 0,
    ensures
        rounds_spec(s, strat, r).len() == s.len(),
        rounds_spec(s, strat, r)[j].test == s[j].test,
        rounds_spec(s, strat, r)[j].true_throw == s[j].true_throw,
        rounds_spec(s, strat, r)[j].false_throw == s[j].false_throw,
        rounds_spec(s, strat, r)[j].op == s[j].op,
    decreases r,
{
    if r > 0 {
        lemma_rounds_keep_config(s, strat, r - 1, j);
        lemma_turns_keep_config(rounds_spec(s, strat, r - 1), rounds_spec(s, strat, r - 1).len() as int, strat, j);
    }
}

proof fn lemma_turns_keep_config(s: Seq<MonkeyS>, i: int, strat: Strategy, j: int)
    requires
        0 <= j < s.len(),
    ensures
        turns_spec(s, i, strat).len() == s.len(),
        turns_spec(s, i, strat)[j].test == s[j].test,
        turns_spec(s, i, strat)[j].true_throw == s[j].true_throw,
        turns_spec(s, i, strat)[j].false_throw == s[j].false_throw,
        turns_spec(s, i, strat)[j].op == s[j].op,
    decreases i,
{
    if i > 0 {
        lemma_turns_keep_config(s, i - 1, strat, j);
        lemma_turns_preserve(s, i - 1, strat);
        lemma_turn_preserves(turns_spec(s, i - 1, strat), i - 1, strat);
    }
}

/// Through the turns of one round, an untargeted monkey with no items stays
/// untouched.
proof fn lemma_isolated_turns(s: Seq<MonkeyS>, i: int, strat: Strategy, m: int)
    requires
        state_wf(s),
        0 <= m < s.len(),
        0 <= i <= s.len(),
        s[m].items.len() == 0,
        forall|j: int|
            0 <= j < s.len() && j != m ==> (#[trigger] s[j]).true_throw as int != m
                && s[j].false_throw as int != m,
    ensures
        turns_spec(s, i, strat)[m] == s[m],
    decreases i,
{
    if i > 0 {
        lemma_isolated_turns(s, i - 1, strat, m);
        lemma_turns_preserve(s, i - 1, strat);
        let prev = turns_spec(s, i - 1, strat);
        let t = i - 1;
        lemma_turn_preserves(prev, t, strat);
        if t == m {
            assert(prev[m].items.len() == 0);
            assert(throw_items(prev, t, prev[t].items.len() as int, strat) == prev);
            assert(s[m].items =~= Seq::<nat>::empty());
            assert(turn_spec(prev, t, strat)[m] == MonkeyS {
                items: Seq::empty(),
                op: prev[m].op,
                test: prev[m].test,
                true_throw: prev[m].true_throw,
                false_throw: prev[m].false_throw,
                count: (prev[m].count + prev[m].items.len()) as nat,
            });
            assert(turn_spec(prev, t, strat)[m] == s[m]);
        } else {
            assert(prev[t].test == s[t].test && prev[t].true_throw == s[t].true_throw
                && prev[t].false_throw == s[t].false_throw) by {
                lemma_turns_keep_config(s, i - 1, strat, t);
            }
            assert(s[t].true_throw as int != m && s[t].false_throw as int != m);
            lemma_throw_keeps_other(prev, t, prev[t].items.len() as int, strat, m);
            lemma_throw_preserves(prev, t, prev[t].items.len() as int, strat);
            let thrown = throw_items(prev, t, prev[t].items.len() as int, strat);
            assert(thrown[m] == prev[m]);
            assert(turn_spec(prev, t, strat)[m] == thrown[m]);
            assert(turn_spec(prev, t, strat)[m] == s[m]);
        }
        assert(turns_spec(s, i, strat) == turn_spec(prev, t, strat));
    }
}

/// A fresh monkey equal to `m`, field by field.
fn copy_monkey(m: &Monkey) -> (r: Monkey)
    ensures
        r@ == m@,
{
    let mut items: Vec<usize> = Vec::new();
    let n = m.items.len();
    let mut i: usize = 0;
    while i < n
        invariant
            i <= n,
            n == m.items@.len(),
            items@ =~= m.items@.take(i as int),
        decreases n - i,
    {
        items.push(m.items[i]);
        proof {
            assert(items@ =~= m.items@.take(i + 1));
        }
        i = i + 1;
    }
    proof {
        assert(items@ =~= m.items@);
    }
    let r = Monkey {
        items,
        op: m.op,
        test: m.test,
        true_throw: m.true_throw,
        false_throw: m.false_throw,
        count: m.count,
    };
    proof {
        assert(r@.items =~= m@.items);
    }
    r
}

/// A fresh troop equal to `v`, monkey by monkey.
fn copy_monkeys(v: &[Monkey]) -> (r: Vec<Monkey>)
    ensures
        views_of(r@) == views_of(v@),
        r@.len() == v@.len(),
{
    let mut r: Vec<Monkey> = Vec::new();
    let n = v.len();
    let mut i: usize = 0;
    while i < n
        invariant
            i <= n,
            n == v@.len(),
            r@.len() == i,
            forall|j: int| 0 <= j < i ==> (#[trigger] r@[j])@ == v@[j]@,
        decreases n - i,
    {
        let m = copy_monkey(&v[i]);
        r.push(m);
        i = i + 1;
    }
    proof {
        assert(views_of(r@) =~= views_of(v@));
    }
    r
}

/// The starting item list: every piece read as a number.
pub open spec fn parse_items_spec(pieces: Seq<Seq<u8>>) -> Option<Seq<nat>>
    decreases pieces.len(),
{
    if pieces.len() == 0 {
        Some(Seq::empty())
    } else {
        match parse_items_spec(pieces.drop_last()) {
            None => None,
            Some(vs) => match parse_usize_spec(pieces.last()) {
                None => None,
                Some(v) => Some(vs.push(v)),
            },
        }
    }
}

/// `parse_items_spec` succeeds exactly when every piece parses, and then
/// holds the parsed values in order.
pub proof fn lemma_parse_items_spec(pieces: Seq<Seq<u8>>)
    ensures
        parse_items_spec(pieces) is Some <==> (forall|j: int|
            0 <= j < pieces.len() ==> parse_usize_spec(#[trigger] pieces[j]) is Some),
        parse_items_spec(pieces) is Some ==> {
            &&& (parse_items_spec(pieces)->0).len() == pieces.len()
            &&& forall|j: int|
                0 <= j < pieces.len() ==> (#[trigger] (parse_items_spec(pieces)->0)[j])
                    == parse_usize_spec(pieces[j])->0
        },
    decreases pieces.len(),
{
    if pieces.len() > 0 {
        lemma_parse_items_spec(pieces.drop_last());
        assert(forall|j: int|
            0 <= j < pieces.len() - 1 ==> #[trigger] pieces[j] == pieces.drop_last()[j]);
    }
}

/// The operation line: its last two whitespace tokens, `<operator>
/// <operand>`, where the operator is `*` or `+` and the operand is a number
/// or, under `*`, the word for self-squaring.
pub open spec fn parse_op_spec(line: Seq<u8>) -> Option<Operation> {
    let toks = tokens_spec(line);
    if toks.len() < 2 {
        None
    } else {
        let opnd = toks.last();
        let opr = toks[toks.len() - 2];
        if opr == seq![42u8] {
            if opnd == seq![111u8, 108u8, 100u8] {
                Some(Operation::Square)
            } else {
                match parse_usize_spec(opnd) {
                    None => None,
                    Some(v) => Some(Operation::Mul(v as usize)),
                }
            }
        } else if opr == seq![43u8] {
            match parse_usize_spec(opnd) {
                None => None,
                Some(v) => Some(Operation::Add(v as usize)),
            }
        } else {
            None
        }
    }
}

/// The last whitespace token of a line, read as a number.
pub open spec fn parse_last_usize_spec(line: Seq<u8>) -> Option<nat> {
    let toks = tokens_spec(line);
    if toks.len() == 0 {
        None
    } else {
        parse_usize_spec(toks.last())
    }
}

/// One monkey block: at least six lines — a header, the starting items after
/// the first colon-space, the operation, the divisor line, and the two
/// routing lines, each read from its last token. The counter starts at zero.
pub open spec fn parse_monkey_spec(s: Seq<u8>) -> Option<MonkeyS> {
    let ls = lines_spec(s);
    if ls.len() < 6 {
        None
    } else {
        let ps = split_pat(ls[1], seq![58u8, 32u8]);
        if ps.len() < 2 {
            None
        } else {
            match parse_items_spec(split_pat(ps[1], seq![44u8, 32u8])) {
                None => None,
                Some(items) => match parse_op_spec(ls[2]) {
                    None => None,
                    Some(op) => match parse_last_usize_spec(ls[3]) {
                        None => None,
                        Some(test) => match parse_last_usize_spec(ls[4]) {
                            None => None,
                            Some(tt) => match parse_last_usize_spec(ls[5]) {
                                None => None,
                                Some(ft) => Some(
                                    MonkeyS {
                                        items,
                                        op,
                                        test,
                                        true_throw: tt,
                                        false_throw: ft,
                                        count: 0,
                                    },
                                ),
                            },
                        },
                    },
                },
            }
        }
    }
}

/// A whole input: blank-line-separated blocks, one monkey each, in order.
pub open spec fn parse_blocks_spec(blocks: Seq<Seq<u8>>) -> Option<Seq<MonkeyS>>
    decreases blocks.len(),
{
    if blocks.len() == 0 {
        Some(Seq::empty())
    } else {
        match parse_blocks_spec(blocks.drop_last()) {
            None => None,
            Some(ms) => match parse_monkey_spec(blocks.last()) {
                None => None,
                Some(m) => Some(ms.push(m)),
            },
        }
    }
}

pub proof fn lemma_parse_blocks_spec(blocks: Seq<Seq<u8>>)
    ensures
        parse_blocks_spec(blocks) is Some <==> (forall|j: int|
            0 <= j < blocks.len() ==> parse_monkey_spec(#[trigger] blocks[j]) is Some),
        parse_blocks_spec(blocks) is Some ==> {
            &&& (parse_blocks_spec(blocks)->0).len() == blocks.len()
            &&& forall|j: int|
                0 <= j < blocks.len() ==> (#[trigger] (parse_blocks_spec(blocks)->0)[j])
                    == parse_monkey_spec(blocks[j])->0
        },
    decreases blocks.len(),
{
    if blocks.len() > 0 {
        lemma_parse_blocks_spec(blocks.drop_last());
        assert(forall|j: int|
            0 <= j < blocks.len() - 1 ==> #[trigger] blocks[j] == blocks.drop_last()[j]);
    }
}

/// The parsed monkeys of a whole input text.
pub open spec fn parse_input_spec(s: Seq<u8>) -> Option<Seq<MonkeyS>> {
    parse_blocks_spec(split_pat(s, seq![10u8, 10u8]))
}

/// The last whitespace token of `line`, read as a number, per
/// `parse_last_usize_spec`.
fn parse_last_usize(line: &[u8]) -> (r: Option<usize>)
    ensures
        r is Some <==> parse_last_usize_spec(line@) is Some,
        r is Some ==> r->0 as nat == parse_last_usize_spec(line@)->0,
{
    let toks = tokens_of(line);
    if toks.len() == 0 {
        return None;
    }
    let last = &toks[toks.len() - 1];
    proof {
        assert(last@ == views(toks@).last());
    }
    parse_usize(last.as_slice())
}

/// The operation of a monkey block, per `parse_op_spec`.
fn parse_op(line: &[u8]) -> (r: Option<Operation>)
    ensures
        r is Some <==> parse_op_spec(line@) is Some,
        r is Some ==> r->0 == parse_op_spec(line@)->0,
{
    let toks = tokens_of(line);
    let n = toks.len();
    if n < 2 {
        return None;
    }
    let opnd = &toks[n - 1];
    let opr = &toks[n - 2];
    proof {
        assert(opnd@ == views(toks@).last());
        assert(opr@ == views(toks@)[views(toks@).len() - 2]);
    }
    let star: Vec<u8> = vec![42u8];
    let plus: Vec<u8> = vec![43u8];
    let old_word: Vec<u8> = vec![111u8, 108u8, 100u8];
    proof {
        assert(star@ =~= seq![42u8]);
        assert(plus@ =~= seq![43u8]);
        assert(old_word@ =~= seq![111u8, 108u8, 100u8]);
    }
    if bytes_eq(opr.as_slice(), star.as_slice()) {
        if bytes_eq(opnd.as_slice(), old_word.as_slice()) {
            Some(Operation::Square)
        } else {
            match parse_usize(opnd.as_slice()) {
                None => None,
                Some(v) => Some(Operation::Mul(v)),
            }
        }
    } else if bytes_eq(opr.as_slice(), plus.as_slice()) {
        match parse_usize(opnd.as_slice()) {
            None => None,
            Some(v) => Some(Operation::Add(v)),
        }
    } else {
        None
    }
}

/// One monkey block, per `parse_monkey_spec`.
fn parse_monkey(block: &[u8]) -> (r: Option<Monkey>)
    ensures
        r is Some <==> parse_monkey_spec(block@) is Some,
        r is Some ==> r->0@ == parse_monkey_spec(block@)->0,
{
    let ls = lines_of(block);
    if ls.len() < 6 {
        return None;
    }
    let colon_sep: Vec<u8> = vec![58u8, 32u8];
    let comma_sep: Vec<u8> = vec![44u8, 32u8];
    proof {
        assert(colon_sep@ =~= seq![58u8, 32u8]);
        assert(comma_sep@ =~= seq![44u8, 32u8]);
        assert(ls@[1]@ == views(ls@)[1]);
    }
    let ps = split_pat_exec(ls[1].as_slice(), colon_sep.as_slice());
    if ps.len() < 2 {
        return None;
    }
    proof {
        assert(ps@[1]@ == views(ps@)[1]);
    }
    let item_parts = split_pat_exec(ps[1].as_slice(), comma_sep.as_slice());
    let ghost piece_seq = views(item_parts@);
    proof {
        lemma_parse_items_spec(piece_seq);
        assert(parse_monkey_spec(block@) is Some ==> parse_items_spec(piece_seq) is Some);
    }
    let mut items: Vec<usize> = Vec::new();
    let mut k: usize = 0;
    while k < item_parts.len()
        invariant
            k <= item_parts@.len(),
            piece_seq == views(item_parts@),
            parse_monkey_spec(block@) is Some ==> parse_items_spec(piece_seq) is Some,
            items@.len() == k,
            forall|j: int|
                0 <= j < k ==> parse_usize_spec(#[trigger] piece_seq[j]) is Some,
            forall|j: int|
                0 <= j < k ==> (#[trigger] items@[j]) as nat == parse_usize_spec(piece_seq[j])->0,
        decreases item_parts@.len() - k,
    {
        proof {
            assert(item_parts@[k as int]@ == piece_seq[k as int]);
        }
        match parse_usize(item_parts[k].as_slice()) {
            None => {
                proof {
                    lemma_parse_items_spec(piece_seq);
                }
                return None;
            },
            Some(v) => {
                items.push(v);
            },
        }
        k = k + 1;
    }
    proof {
        lemma_parse_items_spec(piece_seq);
        assert(parse_items_spec(piece_seq) is Some);
    }
    proof {
        assert(ls@[2]@ == views(ls@)[2]);
        assert(ls@[3]@ == views(ls@)[3]);
        assert(ls@[4]@ == views(ls@)[4]);
        assert(ls@[5]@ == views(ls@)[5]);
    }
    let op = match parse_op(ls[2].as_slice()) {
        None => {
            return None;
        },
        Some(op) => op,
    };
    let test = match parse_last_usize(ls[3].as_slice()) {
        None => {
            return None;
        },
        Some(v) => v,
    };
    let tt = match parse_last_usize(ls[4].as_slice()) {
        None => {
            return None;
        },
        Some(v) => v,
    };
    let ft = match parse_last_usize(ls[5].as_slice()) {
        None => {
            return None;
        },
        Some(v) => v,
    };
    let m = Monkey::new(items, op, test, tt, ft);
    proof {
        assert(m@.items =~= parse_items_spec(piece_seq)->0);
        assert(m@ == parse_monkey_spec(block@)->0);
    }
    Some(m)
}

/// The solver for this day.
pub struct Problem;

impl Problem {
    /// Run the simulation for `rounds` rounds under `strat` on a fresh copy
    /// of `input`, per `sim_result`. The input itself is never changed, so
    /// two runs from the same parsed input cannot observe each other.
    pub fn solve_helper(&self, input: &[Monkey], strat: Strategy, rounds: usize) -> (r: Option<
        usize,
    >)
        ensures
            r is Some <==> sim_result(views_of(input@), strat, rounds as int) is Some,
            r is Some ==> r->0 as nat == sim_result(views_of(input@), strat, rounds as int)->0,
    {
        let ghost s0 = views_of(input@);
        let mut monkeys = copy_monkeys(input);
        let n = monkeys.len();
        if n < 2 {
            return None;
        }
        let mut i: usize = 0;
        while i < n
            invariant
                i <= n,
                n == monkeys@.len(),
                n == s0.len(),
                s0 == views_of(input@),
                views_of(monkeys@) == s0,
                forall|j: int|
                    0 <= j < i ==> (#[trigger] s0[j]).test >= 1 && s0[j].true_throw < n
                        && s0[j].false_throw < n,
            decreases n - i,
        {
            let mk = &monkeys[i];
            proof {
                assert(mk@ == views_of(monkeys@)[i as int]);
            }
            if mk.test < 1 || mk.true_throw >= n || mk.false_throw >= n {
                proof {
                    assert(!state_wf(s0));
                }
                return None;
            }
            i = i + 1;
        }
        proof {
            assert(state_wf(s0));
        }
        match strat {
            Strategy::Modulo(m) => {
                if m == 0 {
                    return None;
                }
            },
            Strategy::DivThree => {},
        }
        let mut round: usize = 0;
        while round < rounds
            invariant
                round <= rounds,
                n == monkeys@.len(),
                n >= 2,
                n == s0.len(),
                s0 == views_of(input@),
                state_wf(s0),
                strat_ok(strat),
                views_of(monkeys@) == rounds_spec(s0, strat, round as int),
                rounds_fit(s0, strat, round as int),
                state_wf(views_of(monkeys@)),
            decreases rounds - round,
        {
            let ghost rs = views_of(monkeys@);
            let mut i: usize = 0;
            while i < n
                invariant
                    i <= n,
                    n == monkeys@.len(),
                    n >= 2,
                    n == s0.len(),
                    n == rs.len(),
                    s0 == views_of(input@),
                    state_wf(s0),
                    strat_ok(strat),
                    round < rounds,
                    rs == rounds_spec(s0, strat, round as int),
                    rounds_fit(s0, strat, round as int),
                    views_of(monkeys@) == turns_spec(rs, i as int, strat),
                    turns_fit(rs, i as int, strat),
                    state_wf(views_of(monkeys@)),
                decreases n - i,
            {
                let ghost cur = views_of(monkeys@);
                proof {
                    lemma_turns_preserve(rs, i as int, strat);
                }
                let pairs_opt = {
                    let mk = &monkeys[i];
                    proof {
                        assert(mk@ == cur[i as int]);
                        assert(cur[i as int].test >= 1);
                    }
                    mk.inspect_all(strat)
                };
                let pairs = match pairs_opt {
                    Some(pairs) => pairs,
                    None => {
                        proof {
                            assert(!turn_fits(cur, i as int, strat));
                            lemma_unfit_turn(s0, strat, round as int, i as int, rounds as int);
                        }
                        return None;
                    },
                };
                let ghost item_count = cur[i as int].items.len();
                let mut k: usize = 0;
                while k < pairs.len()
                    invariant
                        k <= pairs@.len(),
                        n == monkeys@.len(),
                        n == cur.len(),
                        0 <= i < n,
                        strat_ok(strat),
                        state_wf(cur),
                        pairs@.len() == cur[i as int].items.len(),
                        forall|j: int|
                            0 <= j < pairs@.len() ==> {
                                let v = new_item(cur[i as int], strat, cur[i as int].items[j]);
                                (#[trigger] pairs@[j]).0 as nat == v && pairs@[j].1 as nat
                                    == dest_of(cur[i as int], v)
                            },
                        views_of(monkeys@) == throw_items(cur, i as int, k as int, strat),
                        state_wf(views_of(monkeys@)),
                    decreases pairs@.len() - k,
                {
                    let ghost prev = views_of(monkeys@);
                    let p = pairs[k];
                    proof {
                        let v = new_item(cur[i as int], strat, cur[i as int].items[k as int]);
                        assert(dest_of(cur[i as int], v) == cur[i as int].true_throw || dest_of(
                            cur[i as int],
                            v,
                        ) == cur[i as int].false_throw);
                        assert(p.1 < n);
                    }
                    let mut mk2 = copy_monkey(&monkeys[p.1]);
                    mk2.add_items(p.0);
                    let ghost newm = mk2@;
                    monkeys[p.1] = mk2;
                    proof {
                        assert(views_of(monkeys@) =~= prev.update(p.1 as int, newm));
                        lemma_wf_after_update(prev, p.1 as int, newm);
                        assert(views_of(monkeys@) == throw_items(
                            cur,
                            i as int,
                            k + 1,
                            strat,
                        ));
                    }
                    k = k + 1;
                }
                let ghost thrown = views_of(monkeys@);
                proof {
                    assert(thrown == throw_items(cur, i as int, item_count as int, strat));
                }
                let fits = {
                    let mk = &monkeys[i];
                    proof {
                        assert(mk@ == thrown[i as int]);
                    }
                    mk.count.checked_add(mk.items.len())
                };
                if fits.is_none() {
                    proof {
                        assert(thrown[i as int].count + thrown[i as int].items.len()
                            > usize::MAX);
                        assert(!turn_fits(cur, i as int, strat));
                        lemma_unfit_turn(s0, strat, round as int, i as int, rounds as int);
                    }
                    return None;
                }
                let mut mk3 = copy_monkey(&monkeys[i]);
                mk3.reset();
                let ghost newm3 = mk3@;
                monkeys[i] = mk3;
                proof {
                    assert(views_of(monkeys@) =~= thrown.update(i as int, newm3));
                    assert(views_of(monkeys@) == turn_spec(cur, i as int, strat));
                    lemma_wf_after_update(thrown, i as int, newm3);
                    assert(turn_fits(cur, i as int, strat));
                    assert(views_of(monkeys@) == turns_spec(rs, i + 1, strat));
                    assert(turns_fit(rs, i + 1, strat));
                }
                i = i + 1;
            }
            proof {
                assert(views_of(monkeys@) == round_spec(rs, strat));
                assert(round_fits(rs, strat));
                assert(views_of(monkeys@) == rounds_spec(s0, strat, round + 1));
                assert(rounds_fit(s0, strat, round + 1));
            }
            round = round + 1;
        }
        let ghost fin = views_of(monkeys@);
        let mut m1: usize = 0;
        let mut m2: usize = 0;
        let mut j: usize = 0;
        while j < n
            invariant
                j <= n,
                n == monkeys@.len(),
                fin == views_of(monkeys@),
                (m1 as nat, m2 as nat) == top_two(counts_of(fin).take(j as int)),
            decreases n - j,
        {
            let c = {
                let mk = &monkeys[j];
                proof {
                    assert(mk@ == fin[j as int]);
                }
                mk.count
            };
            proof {
                assert(counts_of(fin).take(j + 1).drop_last() =~= counts_of(fin).take(j as int));
                assert(counts_of(fin).take(j + 1).last() == c as nat);
            }
            if c >= m1 {
                m2 = m1;
                m1 = c;
            } else if c > m2 {
                m2 = c;
            }
            j = j + 1;
        }
        proof {
            assert(counts_of(fin).take(n as int) =~= counts_of(fin));
            assert((m1 as nat, m2 as nat) == top_two(counts_of(fin)));
        }
        match m1.checked_mul(m2) {
            None => {
                proof {
                    assert(sim_result(s0, strat, rounds as int) is None);
                }
                None
            },
            Some(p) => {
                proof {
                    assert(sim_result(s0, strat, rounds as int) == Some((m1 * m2) as nat));
                }
                Some(p)
            },
        }
    }

    pub fn get_day(&self) -> (r: i32)
        ensures
            r == 11,
    {
        11
    }

    /// The monkeys described by the input text, per `parse_input_spec`;
    /// `None` on a malformed block.
    pub fn parse_input(&self, r: &[u8]) -> (res: Option<Vec<Monkey>>)
        ensures
            res is Some <==> parse_input_spec(r@) is Some,
            res is Some ==> views_of(res->0@) == parse_input_spec(r@)->0,
    {
        let blank_sep: Vec<u8> = vec![10u8, 10u8];
        proof {
            assert(blank_sep@ =~= seq![10u8, 10u8]);
        }
        let blocks = split_pat_exec(r, blank_sep.as_slice());
        let ghost block_seq = views(blocks@);
        proof {
            lemma_parse_blocks_spec(block_seq);
        }
        let mut monkeys: Vec<Monkey> = Vec::new();
        let mut k: usize = 0;
        while k < blocks.len()
            invariant
                k <= blocks@.len(),
                block_seq == views(blocks@),
                parse_input_spec(r@) == parse_blocks_spec(block_seq),
                monkeys@.len() == k,
                forall|j: int|
                    0 <= j < k ==> parse_monkey_spec(#[trigger] block_seq[j]) is Some,
                forall|j: int|
                    0 <= j < k ==> (#[trigger] monkeys@[j])@ == parse_monkey_spec(block_seq[j])->0,
            decreases blocks@.len() - k,
        {
            proof {
                assert(blocks@[k as int]@ == block_seq[k as int]);
            }
            match parse_monkey(blocks[k].as_slice()) {
                None => {
                    proof {
                        lemma_parse_blocks_spec(block_seq);
                    }
                    return None;
                },
                Some(m) => {
                    monkeys.push(m);
                },
            }
            k = k + 1;
        }
        proof {
            lemma_parse_blocks_spec(block_seq);
            assert(views_of(monkeys@) =~= parse_blocks_spec(block_seq)->0);
        }
        Some(monkeys)
    }

    /// The first answer: twenty rounds under division-by-three reduction.
    pub fn solve_first(&self, input: &Vec<Monkey>) -> (r: Option<usize>)
        ensures
            r is Some <==> sim_result(views_of(input@), Strategy::DivThree, 20) is Some,
            r is Some ==> r->0 as nat == sim_result(views_of(input@), Strategy::DivThree, 20)->0,
    {
        self.solve_helper(input.as_slice(), Strategy::DivThree, 20)
    }

    /// The second answer: ten thousand rounds, reducing modulo the product
    /// of all test divisors; `None` also when that product does not fit in
    /// `usize`.
    pub fn solve_second(&self, input: &Vec<Monkey>) -> (r: Option<usize>)
        ensures
            ({
                let v = views_of(input@);
                let p = tests_product(v);
                if p <= usize::MAX {
                    &&& r is Some <==> sim_result(v, Strategy::Modulo(p as usize), 10000) is Some
                    &&& r is Some ==> r->0 as nat == sim_result(
                        v,
                        Strategy::Modulo(p as usize),
                        10000,
                    )->0
                } else {
                    r is None
                }
            }),
    {
        let ghost v = views_of(input@);
        let n = input.len();
        let mut modulo: usize = 1;
        let mut j: usize = 0;
        while j < n
            invariant
                j <= n,
                n == input@.len(),
                n == v.len(),
                v == views_of(input@),
                modulo as nat == tests_product(v.take(j as int)),
            decreases n - j,
        {
            proof {
                assert(v.take(j + 1).drop_last() =~= v.take(j as int));
                assert(v.take(j + 1).last() == v[j as int]);
                assert(input@[j as int]@ == v[j as int]);
            }
            let t = {
                let mk = &input[j];
                mk.test
            };
            match modulo.checked_mul(t) {
                None => {
                    proof {
                        assert(tests_product(v.take(j + 1)) > usize::MAX);
                        if forall|q: int| 0 <= q < v.len() ==> (#[trigger] v[q]).test >= 1 {
                            lemma_tests_product_prefix(v, j + 1);
                            assert(tests_product(v) > usize::MAX);
                        } else {
                            let q = choose|q: int|
                                !(0 <= q < v.len() ==> (#[trigger] v[q]).test >= 1);
                            assert(!state_wf(v));
                        }
                    }
                    return None;
                },
                Some(m) => {
                    modulo = m;
                },
            }
            j = j + 1;
        }
        proof {
            assert(v.take(n as int) =~= v);
            assert(modulo as nat == tests_product(v));
        }
        self.solve_helper(input.as_slice(), Strategy::Modulo(modulo), 10000)
    }
}

} // verus!
