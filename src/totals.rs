//! Running totals per base denomination.

use vstd::prelude::*;

verus! {

/// The total held of one base denomination.
pub struct DenomTotal {
    pub denom: String,
    pub amount: u128,
}

/// Totals per base denomination, in the order the denominations were first
/// credited.
pub struct Totals {
    entries: Vec<DenomTotal>,
}

/// The map that a sequence of totals describes.
pub open spec fn totals_map(s: Seq<DenomTotal>) -> Map<Seq<char>, int>
    decreases s.len(),
{
    if s.len() == 0 {
        Map::empty()
    } else {
        totals_map(s.drop_last()).insert(s.last().denom@, s.last().amount as int)
    }
}

/// No denomination appears twice.
pub open spec fn denoms_unique(s: Seq<DenomTotal>) -> bool {
    forall|i: int, j: int| 0 <= i < j < s.len() ==> s[i].denom@ != s[j].denom@
}

/// The total of `d` in `m`; zero when `d` was never credited.
pub open spec fn total_in(m: Map<Seq<char>, int>, d: Seq<char>) -> int {
    if m.contains_key(d) {
        m[d]
    } else {
        0
    }
}

/// `m` with `a` added to the total of `d`.
pub open spec fn credit(m: Map<Seq<char>, int>, d: Seq<char>, a: int) -> Map<Seq<char>, int> {
    m.insert(d, total_in(m, d) + a)
}

proof fn lemma_map_has(s: Seq<DenomTotal>, i: int)
    requires
        denoms_unique(s),
        0 <= i < s.len(),
    ensures
        totals_map(s).contains_key(s[i].denom@),
        totals_map(s)[s[i].denom@] == s[i].amount as int,
    decreases s.len(),
{
    if i < s.len() - 1 {
        lemma_map_has(s.drop_last(), i);
    }
}

proof fn lemma_map_lacks(s: Seq<DenomTotal>, d: Seq<char>)
    requires
        forall|i: int| 0 <= i < s.len() ==> s[i].denom@ != d,
    ensures
        !totals_map(s).contains_key(d),
    decreases s.len(),
{
    if s.len() > 0 {
        lemma_map_lacks(s.drop_last(), d);
    }
}

proof fn lemma_map_update(s: Seq<DenomTotal>, i: int, e: DenomTotal)
    requires
        denoms_unique(s),
        0 <= i < s.len(),
        e.denom@ == s[i].denom@,
    ensures
        totals_map(s.update(i, e)) == totals_map(s).insert(e.denom@, e.amount as int),
    decreases s.len(),
{
    let u = s.update(i, e);
    if i == s.len() - 1 {
        assert(u.drop_last() =~= s.drop_last());
        assert(totals_map(u) =~= totals_map(s).insert(e.denom@, e.amount as int));
    } else {
        assert(u.drop_last() =~= s.drop_last().update(i, e));
        lemma_map_update(s.drop_last(), i, e);
        assert(s[i].denom@ != s.last().denom@);
        assert(totals_map(u) =~= totals_map(s).insert(e.denom@, e.amount as int));
    }
}

impl View for Totals {
    type V = Map<Seq<char>, int>;

    closed spec fn view(&self) -> Map<Seq<char>, int> {
        totals_map(self.entries@)
    }
}

impl Totals {
    /// Each denomination has one entry.
    pub closed spec fn wf(&self) -> bool {
        denoms_unique(self.entries@)
    }

    /// No denomination credited yet.
    pub fn new() -> (r: Totals)
        ensures
            r.wf(),
            r@ == Map::<Seq<char>, int>::empty(),
    {
        Totals { entries: Vec::new() }
    }

    /// The total of `denom`, zero when it was never credited.
    pub fn get(&self, denom: &String) -> (r: u128)
        requires
            self.wf(),
        ensures
            r as int == total_in(self@, denom@),
    {
        match self.position(denom) {
            Some(i) => self.entries[i].amount,
            None => 0,
        }
    }

    fn position(&self, denom: &String) -> (r: Option<usize>)
        requires
            self.wf(),
        ensures
            match r {
                Some(i) => i < self.entries@.len() && self.entries@[i as int].denom@ == denom@
                    && self@.contains_key(denom@)
                    && self@[denom@] == self.entries@[i as int].amount as int,
                None => !self@.contains_key(denom@),
            },
    {
        let mut i: usize = 0;
        while i < self.entries.len()
            invariant
                0 <= i <= self.entries@.len(),
                self.wf(),
                forall|k: int| 0 <= k < i ==> self.entries@[k].denom@ != denom@,
            decreases self.entries@.len() - i,
        {
            if self.entries[i].denom == *denom {
                proof {
                    lemma_map_has(self.entries@, i as int);
                }
                return Some(i);
            }
            i = i + 1;
        }
        proof {
            lemma_map_lacks(self.entries@, denom@);
        }
        None
    }

    /// The totals as (denomination, amount) pairs, in the order the
    /// denominations were first credited.
    pub fn entries(&self) -> (r: &Vec<DenomTotal>)
        requires
            self.wf(),
        ensures
            totals_map(r@) == self@,
            denoms_unique(r@),
    {
        &self.entries
    }

    /// Adds `amount` to the total of `denom`; leaves everything unchanged and
    /// returns false when the new total would not fit in `u128`.
    pub fn checked_add(&mut self, denom: &String, amount: u128) -> (ok: bool)
        requires
            old(self).wf(),
        ensures
            final(self).wf(),
            ok == (total_in(old(self)@, denom@) + amount <= u128::MAX),
            ok ==> final(self)@ == credit(old(self)@, denom@, amount as int),
            !ok ==> final(self)@ == old(self)@,
    {
        match self.position(denom) {
            Some(i) => {
                let cur = self.entries[i].amount;
                if cur > u128::MAX - amount {
                    return false;
                }
                let e = DenomTotal { denom: self.entries[i].denom.clone(), amount: cur + amount };
                proof {
                    lemma_map_update(self.entries@, i as int, e);
                }
                let ghost before = self.entries@;
                self.entries.set(i, e);
                proof {
                    assert forall|x: int, y: int| 0 <= x < y < self.entries@.len()
                        implies self.entries@[x].denom@ != self.entries@[y].denom@ by {
                        assert(self.entries@[x].denom@ == before[x].denom@);
                        assert(self.entries@[y].denom@ == before[y].denom@);
                    }
                }
                true
            },
            None => {
                let ghost before = self.entries@;
                self.entries.push(DenomTotal { denom: denom.clone(), amount });
                proof {
                    assert(self.entries@.drop_last() =~= before);
                    lemma_map_lacks_all(before, denom@);
                }
                true
            },
        }
    }

    /// A copy of these totals.
    pub fn duplicate(&self) -> (r: Totals)
        requires
            self.wf(),
        ensures
            r.wf(),
            r@ == self@,
    {
        let mut out: Vec<DenomTotal> = Vec::new();
        let mut i: usize = 0;
        while i < self.entries.len()
            invariant
                0 <= i <= self.entries@.len(),
                out@ =~= self.entries@.subrange(0, i as int),
            decreases self.entries@.len() - i,
        {
            out.push(DenomTotal { denom: self.entries[i].denom.clone(), amount: self.entries[i].amount });
            i = i + 1;
        }
        assert(out@ =~= self.entries@);
        Totals { entries: out }
    }
}

proof fn lemma_map_lacks_all(s: Seq<DenomTotal>, d: Seq<char>)
    requires
        !totals_map(s).contains_key(d),
    ensures
        forall|i: int| 0 <= i < s.len() ==> s[i].denom@ != d,
{
    assert forall|i: int| 0 <= i < s.len() implies s[i].denom@ != d by {
        if s[i].denom@ == d {
            lemma_map_has_any(s, i);
        }
    }
}

proof fn lemma_map_has_any(s: Seq<DenomTotal>, i: int)
    requires
        0 <= i < s.len(),
    ensures
        totals_map(s).contains_key(s[i].denom@),
    decreases s.len(),
{
    if i < s.len() - 1 {
        lemma_map_has_any(s.drop_last(), i);
    }
}

} // verus!
