use vstd::prelude::*;

verus! {

/// One stored row: the amount that `owner` holds under `key` (a token
/// symbol in the balance ledger, a vault id in the allocation ledger).
pub struct Holding {
    pub owner: String,
    pub key: String,
    pub amount: u128,
}

/// The abstract form of a row: owner, key and amount.
pub open spec fn row_of(h: Holding) -> (Seq<char>, Seq<char>, nat) {
    (h.owner@, h.key@, h.amount as nat)
}

/// No two rows share both owner and key.
pub open spec fn unique_keys(v: Seq<(Seq<char>, Seq<char>, nat)>) -> bool {
    forall|i: int, j: int|
        0 <= i < v.len() && 0 <= j < v.len() && i != j ==> !(#[trigger] v[i].0 == #[trigger] v[j].0
            && v[i].1 == v[j].1)
}

pub open spec fn has_key(v: Seq<(Seq<char>, Seq<char>, nat)>, owner: Seq<char>, key: Seq<char>) -> bool {
    exists|i: int| 0 <= i < v.len() && #[trigger] v[i].0 == owner && v[i].1 == key
}

pub open spec fn index_of(v: Seq<(Seq<char>, Seq<char>, nat)>, owner: Seq<char>, key: Seq<char>) -> int {
    choose|i: int| 0 <= i < v.len() && #[trigger] v[i].0 == owner && v[i].1 == key
}

/// The amount held by `owner` under `key`; an absent row counts as zero.
pub open spec fn amount_of(v: Seq<(Seq<char>, Seq<char>, nat)>, owner: Seq<char>, key: Seq<char>) -> nat {
    if has_key(v, owner, key) {
        v[index_of(v, owner, key)].2
    } else {
        0
    }
}

/// The rows after `owner`'s amount under `key` is overwritten with `amount`:
/// an existing row keeps its place, a new one goes last.
pub open spec fn assign(
    v: Seq<(Seq<char>, Seq<char>, nat)>,
    owner: Seq<char>,
    key: Seq<char>,
    amount: nat,
) -> Seq<(Seq<char>, Seq<char>, nat)> {
    if has_key(v, owner, key) {
        v.update(index_of(v, owner, key), (owner, key, amount))
    } else {
        v.push((owner, key, amount))
    }
}

/// The rows after `x` is taken from `owner`'s amount under `key`.
pub open spec fn debited(v: Seq<(Seq<char>, Seq<char>, nat)>, owner: Seq<char>, key: Seq<char>, x: nat) -> Seq<
    (Seq<char>, Seq<char>, nat),
> {
    assign(v, owner, key, (amount_of(v, owner, key) - x) as nat)
}

/// The rows after `x` is added to `owner`'s amount under `key`.
pub open spec fn credited(v: Seq<(Seq<char>, Seq<char>, nat)>, owner: Seq<char>, key: Seq<char>, x: nat) -> Seq<
    (Seq<char>, Seq<char>, nat),
> {
    assign(v, owner, key, amount_of(v, owner, key) + x)
}

/// The sum of all amounts held by `owner`.
pub open spec fn total_of(v: Seq<(Seq<char>, Seq<char>, nat)>, owner: Seq<char>) -> nat
    decreases v.len(),
{
    if v.len() == 0 {
        0
    } else {
        total_of(v.drop_last(), owner) + if v.last().0 == owner {
            v.last().2
        } else {
            0
        }
    }
}

/// The rows of every owner but `owner`, in their order.
pub open spec fn without_owner(v: Seq<(Seq<char>, Seq<char>, nat)>, owner: Seq<char>) -> Seq<
    (Seq<char>, Seq<char>, nat),
>
    decreases v.len(),
{
    if v.len() == 0 {
        v
    } else if v.last().0 == owner {
        without_owner(v.drop_last(), owner)
    } else {
        without_owner(v.drop_last(), owner).push(v.last())
    }
}

/// The (key, amount) pairs of `owner`, in the order of the rows.
pub open spec fn holdings_of(v: Seq<(Seq<char>, Seq<char>, nat)>, owner: Seq<char>) -> Seq<
    (Seq<char>, nat),
>
    decreases v.len(),
{
    if v.len() == 0 {
        Seq::empty()
    } else if v.last().0 == owner {
        holdings_of(v.drop_last(), owner).push((v.last().1, v.last().2))
    } else {
        holdings_of(v.drop_last(), owner)
    }
}

/// The rows after all of `owner`'s amounts are gathered into one row under `key`.
pub open spec fn consolidate(v: Seq<(Seq<char>, Seq<char>, nat)>, owner: Seq<char>, key: Seq<char>) -> Seq<
    (Seq<char>, Seq<char>, nat),
> {
    without_owner(v, owner).push((owner, key, total_of(v, owner)))
}

pub proof fn lemma_index_of(v: Seq<(Seq<char>, Seq<char>, nat)>, i: int)
    requires
        unique_keys(v),
        0 <= i < v.len(),
    ensures
        has_key(v, v[i].0, v[i].1),
        index_of(v, v[i].0, v[i].1) == i,
        amount_of(v, v[i].0, v[i].1) == v[i].2,
{
    assert(has_key(v, v[i].0, v[i].1));
}

pub proof fn lemma_total_push(v: Seq<(Seq<char>, Seq<char>, nat)>, r: (Seq<char>, Seq<char>, nat), o: Seq<char>)
    ensures
        total_of(v.push(r), o) == total_of(v, o) + if r.0 == o {
            r.2
        } else {
            0
        },
{
    assert(v.push(r).drop_last() =~= v);
}

pub proof fn lemma_total_update(
    v: Seq<(Seq<char>, Seq<char>, nat)>,
    i: int,
    r: (Seq<char>, Seq<char>, nat),
    o: Seq<char>,
)
    requires
        0 <= i < v.len(),
        r.0 == v[i].0,
    ensures
        total_of(v.update(i, r), o) == total_of(v, o) - (if v[i].0 == o {
            v[i].2
        } else {
            0
        }) + (if r.0 == o {
            r.2
        } else {
            0
        }),
    decreases v.len(),
{
    let u = v.update(i, r);
    if i == v.len() - 1 {
        assert(u.drop_last() =~= v.drop_last());
    } else {
        assert(u.drop_last() =~= v.drop_last().update(i, r));
        lemma_total_update(v.drop_last(), i, r, o);
    }
}

pub proof fn lemma_total_take(v: Seq<(Seq<char>, Seq<char>, nat)>, i: int, o: Seq<char>)
    requires
        0 <= i <= v.len(),
    ensures
        total_of(v.take(i), o) <= total_of(v, o),
    decreases v.len() - i,
{
    if i == v.len() {
        assert(v.take(i) =~= v);
    } else {
        lemma_total_take(v, i + 1, o);
        assert(v.take(i + 1).drop_last() =~= v.take(i));
    }
}

pub proof fn lemma_amount_le_total(v: Seq<(Seq<char>, Seq<char>, nat)>, o: Seq<char>, k: Seq<char>)
    ensures
        amount_of(v, o, k) <= total_of(v, o),
{
    if has_key(v, o, k) {
        let i = index_of(v, o, k);
        lemma_total_update(v, i, (o, k, 0), o);
    }
}

/// Overwriting one amount keeps keys unique, changes that amount alone, and
/// moves the owner's total by the difference.
pub proof fn lemma_assign(v: Seq<(Seq<char>, Seq<char>, nat)>, o: Seq<char>, k: Seq<char>, a: nat)
    requires
        unique_keys(v),
    ensures
        unique_keys(assign(v, o, k, a)),
        forall|o2: Seq<char>, k2: Seq<char>|
            #[trigger] amount_of(assign(v, o, k, a), o2, k2) == if o2 == o && k2 == k {
                a
            } else {
                amount_of(v, o2, k2)
            },
        forall|o2: Seq<char>|
            #[trigger] total_of(assign(v, o, k, a), o2) == if o2 == o {
                total_of(v, o2) - amount_of(v, o, k) + a
            } else {
                total_of(v, o2) as int
            },
{
    let w = assign(v, o, k, a);
    let n: int = if has_key(v, o, k) {
        index_of(v, o, k)
    } else {
        v.len() as int
    };
    assert(w[n] == (o, k, a));
    assert forall|i: int| 0 <= i < w.len() && i != n implies #[trigger] w[i] == v[i] by {}
    assert(unique_keys(w)) by {
        assert forall|i: int, j: int|
            0 <= i < w.len() && 0 <= j < w.len() && i != j implies !(#[trigger] w[i].0
            == #[trigger] w[j].0 && w[i].1 == w[j].1) by {
            if i != n && j != n {
                assert(w[i] == v[i] && w[j] == v[j]);
            } else if i == n {
                assert(w[j] == v[j]);
            } else {
                assert(w[i] == v[i]);
            }
        }
    }
    lemma_index_of(w, n);
    assert forall|o2: Seq<char>, k2: Seq<char>|
        #[trigger] amount_of(w, o2, k2) == if o2 == o && k2 == k {
            a
        } else {
            amount_of(v, o2, k2)
        } by {
        if !(o2 == o && k2 == k) {
            if has_key(v, o2, k2) {
                let j = index_of(v, o2, k2);
                assert(w[j] == v[j]);
                lemma_index_of(w, j);
            } else if has_key(w, o2, k2) {
                let j = index_of(w, o2, k2);
                assert(w[j] == v[j]);
            }
        }
    }
    assert forall|o2: Seq<char>|
        #[trigger] total_of(w, o2) == if o2 == o {
            total_of(v, o2) - amount_of(v, o, k) + a
        } else {
            total_of(v, o2) as int
        } by {
        if has_key(v, o, k) {
            lemma_total_update(v, n, (o, k, a), o2);
        } else {
            lemma_total_push(v, (o, k, a), o2);
        }
    }
}

/// Dropping an owner's rows keeps the others, in order and unique, with
/// their totals.
pub proof fn lemma_without_owner(v: Seq<(Seq<char>, Seq<char>, nat)>, o: Seq<char>)
    ensures
        forall|j: int|
            0 <= j < without_owner(v, o).len() ==> #[trigger] without_owner(v, o)[j].0 != o && exists|
                i: int,
            |
                0 <= i < v.len() && #[trigger] v[i] == without_owner(v, o)[j],
        unique_keys(v) ==> unique_keys(without_owner(v, o)),
        total_of(without_owner(v, o), o) == 0,
    decreases v.len(),
{
    if v.len() > 0 {
        let d = v.drop_last();
        lemma_without_owner(d, o);
        let w0 = without_owner(d, o);
        assert forall|j: int| 0 <= j < w0.len() implies exists|i: int|
            0 <= i < v.len() - 1 && #[trigger] v[i] == #[trigger] w0[j] by {
            assert(w0[j].0 != o);
            let i = choose|i: int| 0 <= i < d.len() && #[trigger] d[i] == w0[j];
            assert(v[i] == d[i]);
        }
        if v.last().0 != o {
            let w = w0.push(v.last());
            assert forall|j: int| 0 <= j < w.len() implies #[trigger] w[j].0 != o && exists|i: int|
                0 <= i < v.len() && #[trigger] v[i] == w[j] by {
                if j == w0.len() {
                    assert(v[v.len() - 1] == w[j]);
                } else {
                    assert(w[j] == w0[j]);
                }
            }
            if unique_keys(v) {
                assert(unique_keys(d));
                assert forall|i: int, j: int|
                    0 <= i < w.len() && 0 <= j < w.len() && i != j implies !(#[trigger] w[i].0
                    == #[trigger] w[j].0 && w[i].1 == w[j].1) by {
                    if i == w0.len() {
                        let p = choose|p: int| 0 <= p < v.len() - 1 && #[trigger] v[p] == w0[j];
                        assert(w[j] == v[p]);
                    } else if j == w0.len() {
                        let p = choose|p: int| 0 <= p < v.len() - 1 && #[trigger] v[p] == w0[i];
                        assert(w[i] == v[p]);
                    } else {
                        assert(w[i] == w0[i] && w[j] == w0[j]);
                    }
                }
            }
            lemma_total_push(w0, v.last(), o);
        } else {
            if unique_keys(v) {
                assert(unique_keys(d));
            }
        }
    }
}

pub proof fn lemma_without_owner_total(v: Seq<(Seq<char>, Seq<char>, nat)>, o: Seq<char>, o2: Seq<char>)
    requires
        o2 != o,
    ensures
        total_of(without_owner(v, o), o2) == total_of(v, o2),
    decreases v.len(),
{
    if v.len() > 0 {
        lemma_without_owner_total(v.drop_last(), o, o2);
        if v.last().0 != o {
            lemma_total_push(without_owner(v.drop_last(), o), v.last(), o2);
        }
    }
}

pub proof fn lemma_without_owner_absent(v: Seq<(Seq<char>, Seq<char>, nat)>, o: Seq<char>)
    requires
        forall|j: int| 0 <= j < v.len() ==> #[trigger] v[j].0 != o,
    ensures
        without_owner(v, o) == v,
    decreases v.len(),
{
    if v.len() > 0 {
        lemma_without_owner_absent(v.drop_last(), o);
        assert(v.drop_last().push(v.last()) =~= v);
    }
}

/// Gathering an owner's rows into one keeps keys unique, keeps every total,
/// leaves the owner nothing outside `k`, and is idempotent.
pub proof fn lemma_consolidate(v: Seq<(Seq<char>, Seq<char>, nat)>, o: Seq<char>, k: Seq<char>)
    requires
        unique_keys(v),
    ensures
        unique_keys(consolidate(v, o, k)),
        total_of(consolidate(v, o, k), o) == total_of(v, o),
        forall|o2: Seq<char>| o2 != o ==> #[trigger] total_of(consolidate(v, o, k), o2) == total_of(v, o2),
        amount_of(consolidate(v, o, k), o, k) == total_of(v, o),
        forall|k2: Seq<char>| k2 != k ==> #[trigger] amount_of(consolidate(v, o, k), o, k2) == 0,
        consolidate(consolidate(v, o, k), o, k) == consolidate(v, o, k),
{
    let w = without_owner(v, o);
    let c = consolidate(v, o, k);
    let r = (o, k, total_of(v, o));
    lemma_without_owner(v, o);
    assert(unique_keys(c)) by {
        assert forall|i: int, j: int|
            0 <= i < c.len() && 0 <= j < c.len() && i != j implies !(#[trigger] c[i].0
            == #[trigger] c[j].0 && c[i].1 == c[j].1) by {
            if i == w.len() {
                assert(c[j] == w[j]);
            } else if j == w.len() {
                assert(c[i] == w[i]);
            } else {
                assert(c[i] == w[i] && c[j] == w[j]);
            }
        }
    }
    lemma_total_push(w, r, o);
    assert forall|o2: Seq<char>| o2 != o implies #[trigger] total_of(c, o2) == total_of(v, o2) by {
        lemma_total_push(w, r, o2);
        lemma_without_owner_total(v, o, o2);
    }
    lemma_index_of(c, w.len() as int);
    assert forall|k2: Seq<char>| k2 != k implies #[trigger] amount_of(c, o, k2) == 0 by {
        if has_key(c, o, k2) {
            let j = index_of(c, o, k2);
            if j < w.len() {
                assert(c[j] == w[j]);
            }
        }
    }
    assert(c.drop_last() =~= w);
    assert forall|j: int| 0 <= j < w.len() implies #[trigger] w[j].0 != o by {}
    lemma_without_owner_absent(w, o);
}

/// A ledger of amounts keyed by owner and key, at most one row per pair.
pub struct Ledger {
    entries: Vec<Holding>,
}

impl View for Ledger {
    type V = Seq<(Seq<char>, Seq<char>, nat)>;

    closed spec fn view(&self) -> Self::V {
        self.entries@.map_values(|h: Holding| row_of(h))
    }
}

impl Ledger {
    pub open spec fn wf(&self) -> bool {
        unique_keys(self@)
    }

    /// An empty ledger.
    pub fn new() -> (r: Ledger)
        ensures
            r@ == Seq::<(Seq<char>, Seq<char>, nat)>::empty(),
            r.wf(),
    {
        let r = Ledger { entries: Vec::new() };
        assert(r@ =~= Seq::<(Seq<char>, Seq<char>, nat)>::empty());
        r
    }

    fn find(&self, owner: &String, key: &String) -> (r: Option<usize>)
        ensures
            match r {
                Some(i) => i < self@.len() && self@[i as int].0 == owner@ && self@[i as int].1
                    == key@,
                None => !has_key(self@, owner@, key@),
            },
    {
        let mut i: usize = 0;
        while i < self.entries.len()
            invariant
                i <= self.entries@.len(),
                self@.len() == self.entries@.len(),
                forall|j: int| 0 <= j < i ==> !(#[trigger] self@[j].0 == owner@ && self@[j].1 == key@),
            decreases self.entries.len() - i,
        {
            assert(self@[i as int] == row_of(self.entries@[i as int]));
            if self.entries[i].owner == *owner && self.entries[i].key == *key {
                return Some(i);
            }
            i += 1;
        }
        None
    }

    /// The amount that `owner` holds under `key`, zero when there is no row.
    pub fn get(&self, owner: &String, key: &String) -> (r: u128)
        requires
            self.wf(),
        ensures
            r as nat == amount_of(self@, owner@, key@),
    {
        match self.find(owner, key) {
            Some(i) => {
                proof {
                    lemma_index_of(self@, i as int);
                }
                assert(self@[i as int] == row_of(self.entries@[i as int]));
                self.entries[i].amount
            },
            None => 0,
        }
    }

    /// Overwrites the amount that `owner` holds under `key`.
    pub fn set(&mut self, owner: &String, key: &String, amount: u128)
        requires
            old(self).wf(),
        ensures
            final(self).wf(),
            final(self)@ == assign(old(self)@, owner@, key@, amount as nat),
    {
        proof {
            lemma_assign(self@, owner@, key@, amount as nat);
        }
        let row = Holding { owner: owner.clone(), key: key.clone(), amount };
        match self.find(owner, key) {
            Some(i) => {
                proof {
                    lemma_index_of(self@, i as int);
                }
                self.entries[i] = row;
                assert(self@ =~= old(self)@.update(i as int, (owner@, key@, amount as nat)));
            },
            None => {
                self.entries.push(row);
                assert(self@ =~= old(self)@.push((owner@, key@, amount as nat)));
            },
        }
    }

    /// Gathers all of `owner`'s amounts into one row under `key` and returns
    /// their sum; leaves the ledger as it was and returns `None` when the sum
    /// does not fit in a `u128`.
    pub fn consolidate(&mut self, owner: &String, key: &String) -> (r: Option<u128>)
        requires
            old(self).wf(),
        ensures
            final(self).wf(),
            match r {
                Some(t) => t as nat == total_of(old(self)@, owner@) && final(self)@ == consolidate(
                    old(self)@,
                    owner@,
                    key@,
                ),
                None => total_of(old(self)@, owner@) > u128::MAX && *final(self) == *old(self),
            },
    {
        let ghost v = self@;
        let mut kept: Vec<Holding> = Vec::new();
        let mut total: u128 = 0;
        let mut i: usize = 0;
        while i < self.entries.len()
            invariant
                self@ == v,
                unique_keys(v),
                i <= self.entries@.len(),
                v.len() == self.entries@.len(),
                kept@.map_values(|h: Holding| row_of(h)) == without_owner(v.take(i as int), owner@),
                total as nat == total_of(v.take(i as int), owner@),
            decreases self.entries.len() - i,
        {
            let ghost pre = kept@;
            assert(v[i as int] == row_of(self.entries@[i as int]));
            assert(v.take(i + 1).drop_last() =~= v.take(i as int));
            assert(v.take(i + 1).last() == v[i as int]);
            if self.entries[i].owner == *owner {
                if total > u128::MAX - self.entries[i].amount {
                    proof {
                        lemma_total_take(v, i + 1, owner@);
                    }
                    return None;
                }
                total = total + self.entries[i].amount;
            } else {
                let row = Holding {
                    owner: self.entries[i].owner.clone(),
                    key: self.entries[i].key.clone(),
                    amount: self.entries[i].amount,
                };
                kept.push(row);
                assert(kept@.map_values(|h: Holding| row_of(h)) =~= pre.map_values(
                    |h: Holding| row_of(h),
                ).push(v[i as int]));
            }
            i += 1;
        }
        assert(v.take(i as int) =~= v);
        let ghost pre = kept@;
        kept.push(Holding { owner: owner.clone(), key: key.clone(), amount: total });
        assert(kept@.map_values(|h: Holding| row_of(h)) =~= pre.map_values(|h: Holding| row_of(h)).push(
            (owner@, key@, total as nat),
        ));
        self.entries = kept;
        proof {
            lemma_consolidate(v, owner@, key@);
        }
        Some(total)
    }

    /// The (key, amount) pairs of `owner`, in the order of the rows.
    pub fn holdings(&self, owner: &String) -> (r: Vec<(String, u128)>)
        ensures
            r@.map_values(|p: (String, u128)| (p.0@, p.1 as nat)) == holdings_of(self@, owner@),
    {
        let mut out: Vec<(String, u128)> = Vec::new();
        let mut i: usize = 0;
        while i < self.entries.len()
            invariant
                i <= self.entries@.len(),
                self@.len() == self.entries@.len(),
                out@.map_values(|p: (String, u128)| (p.0@, p.1 as nat)) == holdings_of(
                    self@.take(i as int),
                    owner@,
                ),
            decreases self.entries.len() - i,
        {
            let ghost pre = out@;
            assert(self@[i as int] == row_of(self.entries@[i as int]));
            assert(self@.take(i + 1).drop_last() =~= self@.take(i as int));
            assert(self@.take(i + 1).last() == self@[i as int]);
            if self.entries[i].owner == *owner {
                out.push((self.entries[i].key.clone(), self.entries[i].amount));
                assert(out@.map_values(|p: (String, u128)| (p.0@, p.1 as nat)) =~= pre.map_values(
                    |p: (String, u128)| (p.0@, p.1 as nat),
                ).push((self@[i as int].1, self@[i as int].2)));
            }
            i += 1;
        }
        assert(self@.take(i as int) =~= self@);
        out
    }
}

} // verus!
