//! The weekly grid and the tunables of the search.

use std::ops::Range;
use vstd::prelude::*;

verus! {

/// Length of the tabu queue when the input names none.
pub fn default_tabu_size() -> (n: usize)
    ensures
        n == 20,
{
    20
}

/// Number of attempts of the initial solver when the input names none.
pub fn default_initial_attempts() -> (n: usize)
    ensures
        n == 3,
{
    3
}

/// The grid (`days` days of `slots_per_day` slots each) and the integer
/// tunables of the two solvers.
#[derive(Debug, Clone)]
pub struct Config {
    pub slots_per_day: usize,
    pub days: usize,
    pub num_slots: usize,
    pub tabu_size: usize,
    pub initial_method: String,
    pub initial_attempts: usize,
    pub max_iter_initial: usize,
    pub max_iter: usize,
    pub population_size: usize,
    pub expected_graded_num: usize,
    pub history_size: usize,
}

impl Config {
    /// A day has at least one slot and the cached number of slots is the
    /// product of the two dimensions.
    pub open spec fn wf(&self) -> bool {
        &&& self.slots_per_day > 0
        &&& self.num_slots == self.slots_per_day * self.days
    }

    /// The day that slot `t` lies in.
    pub open spec fn day_of(&self, t: int) -> int {
        t / (self.slots_per_day as int)
    }

    /// A grid of `days` days with `slots_per_day` slots each, with the default
    /// tabu size and number of attempts, the tabu method, and every other
    /// tunable zero. `None` when a day would have no slot or the number of
    /// slots does not fit the machine word.
    pub fn new(slots_per_day: usize, days: usize) -> (r: Option<Config>)
        ensures
            r is Some <==> slots_per_day > 0 && slots_per_day * days <= usize::MAX,
            r matches Some(c) ==> {
                &&& c.wf()
                &&& c.slots_per_day == slots_per_day
                &&& c.days == days
                &&& c.tabu_size == 20
                &&& c.initial_attempts == 3
                &&& c.initial_method@ == "tabu"@
                &&& c.max_iter_initial == 0
                &&& c.max_iter == 0
                &&& c.population_size == 0
                &&& c.expected_graded_num == 0
                &&& c.history_size == 0
            },
    {
        if slots_per_day == 0 {
            return None;
        }
        match slots_per_day.checked_mul(days) {
            Some(num_slots) => Some(
                Config {
                    slots_per_day,
                    days,
                    num_slots,
                    tabu_size: default_tabu_size(),
                    initial_method: "tabu".to_owned(),
                    initial_attempts: default_initial_attempts(),
                    max_iter_initial: 0,
                    max_iter: 0,
                    population_size: 0,
                    expected_graded_num: 0,
                    history_size: 0,
                },
            ),
            None => None,
        }
    }

    /// All slots of the grid, in order.
    pub fn iter_slots(&self) -> (r: Range<usize>)
        ensures
            r.start == 0,
            r.end == self.num_slots,
    {
        0..self.num_slots
    }

    /// Position of slot `t` within its day.
    pub fn offset_in_day(&self, t: usize) -> (o: usize)
        requires
            self.slots_per_day > 0,
        ensures
            o == t % self.slots_per_day,
    {
        t % self.slots_per_day
    }

    /// The day that slot `t` lies in.
    pub fn slots_to_day(&self, t: usize) -> (d: usize)
        requires
            self.slots_per_day > 0,
        ensures
            d == self.day_of(t as int),
    {
        t / self.slots_per_day
    }

    /// The slots of day `day`: exactly `slots_per_day` of them, starting at
    /// `day * slots_per_day`.
    pub fn slots_of_day(&self, day: usize) -> (r: Range<usize>)
        requires
            (day + 1) * self.slots_per_day <= usize::MAX,
        ensures
            r.start == day * self.slots_per_day,
            r.end == r.start + self.slots_per_day,
    {
        assert((day + 1) * self.slots_per_day == day * self.slots_per_day + self.slots_per_day)
            by (nonlinear_arith);
        let begin = day * self.slots_per_day;
        begin..(begin + self.slots_per_day)
    }

    /// The slots of the day that slot `t` lies in.
    pub fn slots_of_same_day(&self, t: usize) -> (r: Range<usize>)
        requires
            self.slots_per_day > 0,
            (self.day_of(t as int) + 1) * self.slots_per_day <= usize::MAX,
        ensures
            r.start == self.day_of(t as int) * self.slots_per_day,
            r.end == r.start + self.slots_per_day,
            r.start <= t < r.end,
    {
        let d = t / self.slots_per_day;
        assert((d + 1) * self.slots_per_day == d * self.slots_per_day + self.slots_per_day)
            by (nonlinear_arith);
        assert(d * self.slots_per_day <= t < d * self.slots_per_day + self.slots_per_day) by {
            vstd::arithmetic::div_mod::lemma_fundamental_div_mod(
                t as int,
                self.slots_per_day as int,
            );
            vstd::arithmetic::div_mod::lemma_mod_bound(t as int, self.slots_per_day as int);
            assert(d * self.slots_per_day == self.slots_per_day * d) by (nonlinear_arith);
        }
        let day = d * self.slots_per_day;
        day..(day + self.slots_per_day)
    }

    /// All days of the grid, in order.
    pub fn days(&self) -> (r: Range<usize>)
        ensures
            r.start == 0,
            r.end == self.days,
    {
        0..self.days
    }
}

} // verus!
