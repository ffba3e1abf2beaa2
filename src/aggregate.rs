//! Turning one chain's balances into report lines and credited totals.

use vstd::prelude::*;
use crate::denom::{is_wrapped, is_wrapped_denom};
use crate::graph::{ChainEntry, RouteGraph};
use crate::route::{resolve_route, route_of, unresolved_of};
use crate::text::{amount_value, parse_amount};
use crate::totals::{Totals, credit, total_in};
use crate::types::{Balance, DenomTrace};

verus! {

/// What `str::to_lowercase` makes of a string.
pub uninterp spec fn lower_of(s: Seq<char>) -> Seq<char>;

/// Relies on `str::to_lowercase`: the result depends on the characters alone.
#[verifier::external_body]
fn lowercase(s: &str) -> (r: String)
    ensures
        r@ == lower_of(s@),
{
    s.to_lowercase()
}

/// A balance held on a chain, with the trace of its denomination when that
/// denomination is wrapped and its trace was fetched.
pub struct ObservedBalance {
    pub balance: Balance,
    pub trace: Option<DenomTrace>,
}

/// Why a chain's balances could not be taken into the totals. `index` is the
/// position of the offending balance.
#[derive(Clone, Copy, Debug, PartialEq, Eq, Structural)]
pub enum AggregateError {
    /// A wrapped denomination came without its trace.
    MissingTrace { index: usize },
    /// An amount is not a decimal that fits in `u128`.
    InvalidAmount { index: usize },
    /// A total would exceed `u128::MAX`.
    Overflow { index: usize },
}

/// One reported balance.
pub struct ReportLine {
    pub denom: String,
    pub base_denom: String,
    pub amount: u128,
    pub route: Vec<String>,
    pub unresolved_hops: usize,
}

/// The mathematical content of a report line.
pub struct LineView {
    pub denom: Seq<char>,
    pub base_denom: Seq<char>,
    pub amount: u128,
    pub route: Seq<Seq<char>>,
    pub unresolved_hops: int,
}

impl View for ReportLine {
    type V = LineView;

    open spec fn view(&self) -> LineView {
        LineView {
            denom: self.denom@,
            base_denom: self.base_denom@,
            amount: self.amount,
            route: self.route.deep_view(),
            unresolved_hops: self.unresolved_hops as int,
        }
    }
}

/// The report of one chain: its name and its allow-listed balances.
pub struct ChainReport {
    pub chain_name: String,
    pub lines: Vec<ReportLine>,
}

impl ChainReport {
    /// The heading of the report: the chain's name, present only when at
    /// least one balance was reported.
    pub fn heading(&self) -> (r: Option<String>)
        ensures
            match r {
                Some(h) => self.lines@.len() > 0 && h@ == self.chain_name@,
                None => self.lines@.len() == 0,
            },
    {
        if self.lines.len() == 0 {
            None
        } else {
            Some(self.chain_name.clone())
        }
    }
}

/// The base denomination of `o`; `None` for a wrapped one without trace.
pub open spec fn base_of(o: ObservedBalance) -> Option<Seq<char>> {
    if is_wrapped(o.balance.denom@) {
        match o.trace {
            Some(t) => Some(t.base_denom@),
            None => None,
        }
    } else {
        Some(o.balance.denom@)
    }
}

/// `d` is on the allow-list.
pub open spec fn allowed(allow: Seq<String>, d: Seq<char>) -> bool {
    exists|i: int| 0 <= i < allow.len() && allow[i]@ == d
}

/// `o` has a base denomination, and it is allow-listed.
pub open spec fn qualifies(o: ObservedBalance, allow: Seq<String>) -> bool {
    match base_of(o) {
        Some(b) => allowed(allow, b),
        None => false,
    }
}

/// Takes the balance `o`, at position `index`, into the totals `m`.
pub open spec fn step(m: Map<Seq<char>, int>, o: ObservedBalance, index: int, allow: Seq<String>) -> Result<Map<Seq<char>, int>, AggregateError> {
    match base_of(o) {
        None => Err(AggregateError::MissingTrace { index: index as usize }),
        Some(b) => if !allowed(allow, b) {
            Ok(m)
        } else {
            match amount_value(o.balance.amount@) {
                None => Err(AggregateError::InvalidAmount { index: index as usize }),
                Some(a) => if total_in(m, b) + a > u128::MAX {
                    Err(AggregateError::Overflow { index: index as usize })
                } else {
                    Ok(credit(m, b, a as int))
                },
            }
        },
    }
}

/// Takes the balances `obs` into the totals `m` in order; the first balance
/// that fails decides the error.
pub open spec fn outcome(m: Map<Seq<char>, int>, obs: Seq<ObservedBalance>, allow: Seq<String>) -> Result<Map<Seq<char>, int>, AggregateError>
    decreases obs.len(),
{
    if obs.len() == 0 {
        Ok(m)
    } else {
        match outcome(m, obs.drop_last(), allow) {
            Err(e) => Err(e),
            Ok(m2) => step(m2, obs.last(), obs.len() - 1, allow),
        }
    }
}

/// The report line of a qualifying balance `o` held on `chain`.
pub open spec fn line_of(o: ObservedBalance, chain: ChainEntry, g: RouteGraph, origin: Seq<char>) -> LineView {
    let amount = match amount_value(o.balance.amount@) {
        Some(a) => a,
        None => 0,
    };
    if is_wrapped(o.balance.denom@) {
        let t = o.trace.unwrap();
        LineView {
            denom: o.balance.denom@,
            base_denom: t.base_denom@,
            amount,
            route: route_of(g, t.path@, chain.chain_id@, origin),
            unresolved_hops: unresolved_of(g, t.path@, chain.chain_id@),
        }
    } else {
        LineView {
            denom: o.balance.denom@,
            base_denom: o.balance.denom@,
            amount,
            route: seq![lower_of(chain.name@)],
            unresolved_hops: 0,
        }
    }
}

/// The report lines of the qualifying balances of `obs`, in order.
pub open spec fn report_lines(obs: Seq<ObservedBalance>, allow: Seq<String>, chain: ChainEntry, g: RouteGraph, origin: Seq<char>) -> Seq<LineView>
    decreases obs.len(),
{
    if obs.len() == 0 {
        seq![]
    } else {
        report_lines(obs.drop_last(), allow, chain, g, origin) + if qualifies(obs.last(), allow) {
            seq![line_of(obs.last(), chain, g, origin)]
        } else {
            seq![]
        }
    }
}

/// Whether `d` is on the allow-list.
pub fn is_allowed(allow: &Vec<String>, d: &String) -> (r: bool)
    ensures
        r == allowed(allow@, d@),
{
    let mut i: usize = 0;
    while i < allow.len()
        invariant
            0 <= i <= allow@.len(),
            forall|k: int| 0 <= k < i ==> allow@[k]@ != d@,
        decreases allow@.len() - i,
    {
        if allow[i] == *d {
            return true;
        }
        i = i + 1;
    }
    false
}

proof fn lemma_error_persists(m: Map<Seq<char>, int>, obs: Seq<ObservedBalance>, allow: Seq<String>, k: int)
    requires
        0 <= k <= obs.len(),
        outcome(m, obs.subrange(0, k), allow) is Err,
    ensures
        outcome(m, obs, allow) == outcome(m, obs.subrange(0, k), allow),
    decreases obs.len() - k,
{
    if k < obs.len() {
        assert(obs.subrange(0, k + 1).drop_last() =~= obs.subrange(0, k));
        lemma_error_persists(m, obs, allow, k + 1);
    } else {
        assert(obs.subrange(0, k) =~= obs);
    }
}

/// Takes one chain's balances into `totals` and reports its allow-listed
/// balances, in order. Direct denominations are their own base and are
/// routed through the chain's lower-cased name alone; wrapped ones take
/// their base and route from their trace. On an error `totals` is left as it
/// was.
pub fn process_chain_balances(
    chain: &ChainEntry,
    observed: &Vec<ObservedBalance>,
    graph: &RouteGraph,
    allowed_denoms: &Vec<String>,
    origin: &String,
    totals: &mut Totals,
) -> (r: Result<ChainReport, AggregateError>)
    requires
        old(totals).wf(),
    ensures
        final(totals).wf(),
        match outcome(old(totals)@, observed@, allowed_denoms@) {
            Ok(m) => r is Ok && final(totals)@ == m
                && r.unwrap().chain_name@ == chain.name@
                && r.unwrap().lines@.map_values(|l: ReportLine| l@)
                    == report_lines(observed@, allowed_denoms@, *chain, *graph, origin@),
            Err(e) => r == Err::<ChainReport, AggregateError>(e) && final(totals)@ == old(totals)@,
        },
{
    let ghost obs = observed@;
    let ghost allow = allowed_denoms@;
    let ghost m0 = totals@;
    assert(totals.wf());
    let lower = lowercase(chain.name.as_str());
    let mut work = totals.duplicate();
    let mut lines: Vec<ReportLine> = Vec::new();
    let mut i: usize = 0;
    while i < observed.len()
        invariant
            0 <= i <= obs.len(),
            obs == observed@,
            allow == allowed_denoms@,
            lower@ == lower_of(chain.name@),
            work.wf(),
            totals.wf(),
            totals@ == m0,
            outcome(m0, obs.subrange(0, i as int), allow) == Ok::<Map<Seq<char>, int>, AggregateError>(work@),
            lines@.map_values(|l: ReportLine| l@)
                == report_lines(obs.subrange(0, i as int), allow, *chain, *graph, origin@),
        decreases obs.len() - i,
    {
        let ghost pre = obs.subrange(0, i as int);
        let ghost cur = obs.subrange(0, i + 1);
        assert(cur.drop_last() =~= pre);
        assert(cur.last() == obs[i as int]);
        let o = &observed[i];
        let wrapped = is_wrapped_denom(o.balance.denom.as_str());
        let base: String;
        if wrapped {
            match &o.trace {
                Some(t) => {
                    base = t.base_denom.clone();
                },
                None => {
                    proof {
                        lemma_error_persists(m0, obs, allow, i + 1);
                    }
                    return Err(AggregateError::MissingTrace { index: i });
                },
            }
        } else {
            base = o.balance.denom.clone();
        }
        assert(base_of(obs[i as int]) == Some(base@));
        if is_allowed(allowed_denoms, &base) {
            let amount = match parse_amount(o.balance.amount.as_str()) {
                Some(a) => a,
                None => {
                    proof {
                        lemma_error_persists(m0, obs, allow, i + 1);
                    }
                    return Err(AggregateError::InvalidAmount { index: i });
                },
            };
            if !work.checked_add(&base, amount) {
                proof {
                    lemma_error_persists(m0, obs, allow, i + 1);
                }
                return Err(AggregateError::Overflow { index: i });
            }
            let line = if wrapped {
                let t = o.trace.as_ref().unwrap();
                let res = resolve_route(graph, t.path.as_str(), &chain.chain_id, origin);
                ReportLine {
                    denom: o.balance.denom.clone(),
                    base_denom: base,
                    amount,
                    route: res.route,
                    unresolved_hops: res.unresolved_hops,
                }
            } else {
                let route = vec![lower.clone()];
                assert(route.deep_view() =~= seq![lower_of(chain.name@)]);
                ReportLine {
                    denom: o.balance.denom.clone(),
                    base_denom: base,
                    amount,
                    route,
                    unresolved_hops: 0,
                }
            };
            let ghost before = lines@;
            lines.push(line);
            assert(lines@.map_values(|l: ReportLine| l@)
                =~= before.map_values(|l: ReportLine| l@) + seq![line_of(obs[i as int], *chain, *graph, origin@)]);
        } else {
            assert(lines@.map_values(|l: ReportLine| l@)
                =~= lines@.map_values(|l: ReportLine| l@) + Seq::<LineView>::empty());
        }
        i = i + 1;
    }
    assert(obs.subrange(0, i as int) =~= obs);
    *totals = work;
    Ok(ChainReport { chain_name: chain.name.clone(), lines })
}

/// A base denomination that is not allow-listed is never credited and
/// never reported.
pub proof fn lemma_unlisted_untouched(
    m: Map<Seq<char>, int>,
    obs: Seq<ObservedBalance>,
    allow: Seq<String>,
    chain: ChainEntry,
    g: RouteGraph,
    origin: Seq<char>,
    d: Seq<char>,
)
    requires
        !allowed(allow, d),
    ensures
        outcome(m, obs, allow) is Ok ==> {
            let m2 = outcome(m, obs, allow).unwrap();
            m2.contains_key(d) == m.contains_key(d) && total_in(m2, d) == total_in(m, d)
        },
        forall|i: int| 0 <= i < report_lines(obs, allow, chain, g, origin).len()
            ==> #[trigger] report_lines(obs, allow, chain, g, origin)[i].base_denom != d,
    decreases obs.len(),
{
    if obs.len() > 0 {
        lemma_unlisted_untouched(m, obs.drop_last(), allow, chain, g, origin, d);
        let prev = report_lines(obs.drop_last(), allow, chain, g, origin);
        let all = report_lines(obs, allow, chain, g, origin);
        assert forall|i: int| 0 <= i < all.len() implies #[trigger] all[i].base_denom != d by {
            if i < prev.len() {
                assert(all[i] == prev[i]);
            }
        }
    }
}

/// Totals depend on the balances alone: two runs over the same balances,
/// each from fresh totals, end alike.
pub proof fn lemma_fresh_runs_agree(t1: Totals, t2: Totals, obs: Seq<ObservedBalance>, allow: Seq<String>)
    requires
        t1.wf(),
        t2.wf(),
        t1@ == Map::<Seq<char>, int>::empty(),
        t2@ == Map::<Seq<char>, int>::empty(),
    ensures
        outcome(t1@, obs, allow) == outcome(t2@, obs, allow),
{
}

/// The sum of the amounts of the balances of `obs` that are allow-listed
/// and have base denomination `x`.
pub open spec fn credited(obs: Seq<ObservedBalance>, allow: Seq<String>, x: Seq<char>) -> int
    decreases obs.len(),
{
    if obs.len() == 0 {
        0
    } else {
        credited(obs.drop_last(), allow, x) + if qualifies(obs.last(), allow) && base_of(obs.last()) == Some(x) {
            match amount_value(obs.last().balance.amount@) {
                Some(a) => a as int,
                None => 0,
            }
        } else {
            0
        }
    }
}

/// When a chain's balances go through, the total of each base denomination
/// grows by exactly the sum of that chain's allow-listed amounts for it.
pub proof fn lemma_totals_accumulate(m: Map<Seq<char>, int>, obs: Seq<ObservedBalance>, allow: Seq<String>, x: Seq<char>)
    requires
        outcome(m, obs, allow) is Ok,
    ensures
        total_in(outcome(m, obs, allow).unwrap(), x) == total_in(m, x) + credited(obs, allow, x),
    decreases obs.len(),
{
    if obs.len() > 0 {
        let prev = outcome(m, obs.drop_last(), allow);
        assert(prev is Ok);
        lemma_totals_accumulate(m, obs.drop_last(), allow, x);
    }
}

/// One base denomination reached through balances on two chains, with
/// amounts summing to `a` on the first and `b` on the second, totals exactly
/// `a + b` after both chains, starting from fresh totals.
pub proof fn lemma_totals_add_up(
    obs1: Seq<ObservedBalance>,
    obs2: Seq<ObservedBalance>,
    allow: Seq<String>,
    x: Seq<char>,
    a: int,
    b: int,
)
    requires
        outcome(Map::empty(), obs1, allow) is Ok,
        outcome(outcome(Map::empty(), obs1, allow).unwrap(), obs2, allow) is Ok,
        credited(obs1, allow, x) == a,
        credited(obs2, allow, x) == b,
    ensures
        total_in(outcome(outcome(Map::empty(), obs1, allow).unwrap(), obs2, allow).unwrap(), x) == a + b,
{
    let e = Map::<Seq<char>, int>::empty();
    lemma_totals_accumulate(e, obs1, allow, x);
    lemma_totals_accumulate(outcome(e, obs1, allow).unwrap(), obs2, allow, x);
}

/// A single allow-listed balance is credited in full when the new total
/// fits, so two such balances on two chains add up exactly.
pub proof fn lemma_single_balances_add_up(o1: ObservedBalance, o2: ObservedBalance, allow: Seq<String>, base: Seq<char>)
    requires
        base_of(o1) == Some(base),
        base_of(o2) == Some(base),
        allowed(allow, base),
        amount_value(o1.balance.amount@) is Some,
        amount_value(o2.balance.amount@) is Some,
        amount_value(o1.balance.amount@).unwrap() + amount_value(o2.balance.amount@).unwrap() <= u128::MAX,
    ensures
        outcome(Map::empty(), seq![o1], allow) is Ok,
        outcome(outcome(Map::empty(), seq![o1], allow).unwrap(), seq![o2], allow) is Ok,
        total_in(outcome(outcome(Map::empty(), seq![o1], allow).unwrap(), seq![o2], allow).unwrap(), base)
            == amount_value(o1.balance.amount@).unwrap() + amount_value(o2.balance.amount@).unwrap(),
{
    let e = Map::<Seq<char>, int>::empty();
    let a1 = amount_value(o1.balance.amount@).unwrap();
    let a2 = amount_value(o2.balance.amount@).unwrap();
    assert(seq![o1].drop_last() =~= Seq::<ObservedBalance>::empty());
    assert(seq![o1].last() == o1);
    assert(outcome(e, Seq::<ObservedBalance>::empty(), allow) == Ok::<Map<Seq<char>, int>, AggregateError>(e));
    assert(total_in(e, base) == 0);
    assert(outcome(e, seq![o1], allow) == step(e, o1, 0, allow));
    let m1 = credit(e, base, a1 as int);
    assert(outcome(e, seq![o1], allow) == Ok::<Map<Seq<char>, int>, AggregateError>(m1));
    assert(total_in(m1, base) == a1);
    assert(seq![o2].drop_last() =~= Seq::<ObservedBalance>::empty());
    assert(seq![o2].last() == o2);
    assert(outcome(m1, Seq::<ObservedBalance>::empty(), allow) == Ok::<Map<Seq<char>, int>, AggregateError>(m1));
    assert(outcome(m1, seq![o2], allow) == step(m1, o2, 0, allow));
    assert(outcome(m1, seq![o2], allow) == Ok::<Map<Seq<char>, int>, AggregateError>(credit(m1, base, a2 as int)));
}

/// A direct balance is its own base and is routed through the chain's
/// lower-cased name alone, whatever trace comes with it.
pub proof fn lemma_direct_ignores_trace(o1: ObservedBalance, o2: ObservedBalance, chain: ChainEntry, g: RouteGraph, origin: Seq<char>)
    requires
        o1.balance == o2.balance,
        !is_wrapped(o1.balance.denom@),
    ensures
        base_of(o1) == Some(o1.balance.denom@),
        base_of(o2) == base_of(o1),
        line_of(o1, chain, g, origin) == line_of(o2, chain, g, origin),
        line_of(o1, chain, g, origin).route == seq![lower_of(chain.name@)],
{
}

} // verus!
