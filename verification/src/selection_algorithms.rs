//! The selection algorithm: a priority structure over executable residents
//! (no resident parents), ordered by descending tip/gas ratio with
//! deterministic tie-breaks, producing gas-bounded, dependency-respecting
//! batches for block production.

use vstd::prelude::*;
use crate::ratio::{
    lemma_ratio_eqv_lt, lemma_ratio_eqv_trans, lemma_ratio_lt_eqv, lemma_ratio_lt_trans, ratio_eqv,
    ratio_less, ratio_lt,
};
use crate::storage::{ids_gas_sum, lemma_ids_gas_sum_concat, lemma_ids_gas_sum_nonneg, lemma_ids_gas_sum_push, Storage, StorageData};
use crate::types::{contains_index, copy_indices, tx_id_less, tx_id_lt, PoolTransaction, TxId};

verus! {

/// Constraints that the selection algorithm has to respect when producing a
/// batch.
#[derive(Debug, Clone, Copy, PartialEq, Eq, Structural)]
pub struct Constraints {
    /// Gas budget of the batch.
    pub max_gas: u64,
}

/// The sort key of an executable resident: its tip and gas (compared as the
/// exact ratio tip/gas), its creation instant, and its transaction id.
#[derive(Debug, Clone, Copy, PartialEq, Eq, Structural)]
pub struct Key {
    /// The resident's tip.
    pub tip: u64,
    /// The resident's maximum gas; positive, so the ratio is defined.
    pub gas: u64,
    /// Monotonic timestamp assigned when the resident entered the pool.
    pub creation_instant: u64,
    /// The resident's transaction id.
    pub tx_id: TxId,
}

/// The sort key derived from a resident record.
pub open spec fn key_of(d: StorageData) -> Key {
    Key {
        tip: d.transaction.tip,
        gas: d.transaction.max_gas,
        creation_instant: d.creation_instant,
        tx_id: d.transaction.id,
    }
}

/// Selection order: the higher tip/gas ratio first; on a ratio tie the older
/// resident (smaller creation instant) first; on an instant tie the smaller
/// transaction id first. A total, deterministic order.
pub open spec fn key_before(a: Key, b: Key) -> bool {
    ||| ratio_lt(b.tip, b.gas, a.tip, a.gas)
    ||| (ratio_eqv(a.tip, a.gas, b.tip, b.gas) && (a.creation_instant < b.creation_instant || (
    a.creation_instant == b.creation_instant && tx_id_lt(a.tx_id, b.tx_id))))
}

/// The selection order is transitive.
pub proof fn lemma_key_before_trans(a: Key, b: Key, c: Key)
    requires
        a.gas >= 1,
        b.gas >= 1,
        c.gas >= 1,
        key_before(a, b),
        key_before(b, c),
    ensures
        key_before(a, c),
{
    if ratio_lt(b.tip, b.gas, a.tip, a.gas) {
        if ratio_lt(c.tip, c.gas, b.tip, b.gas) {
            lemma_ratio_lt_trans(c.tip, c.gas, b.tip, b.gas, a.tip, a.gas);
        } else {
            lemma_ratio_eqv_lt(c.tip, c.gas, b.tip, b.gas, a.tip, a.gas);
        }
    } else {
        if ratio_lt(c.tip, c.gas, b.tip, b.gas) {
            lemma_ratio_lt_eqv(c.tip, c.gas, b.tip, b.gas, a.tip, a.gas);
        } else {
            lemma_ratio_eqv_trans(a.tip, a.gas, b.tip, b.gas, c.tip, c.gas);
        }
    }
}

/// Two keys with distinct transaction ids are strictly ordered.
pub proof fn lemma_key_before_total(a: Key, b: Key)
    requires
        a.gas >= 1,
        b.gas >= 1,
        a.tx_id != b.tx_id,
    ensures
        key_before(a, b) || key_before(b, a),
{
}

/// Executable comparison realizing `key_before`.
fn key_before_exec(a: &Key, b: &Key) -> (r: bool)
    requires
        a.gas >= 1,
        b.gas >= 1,
    ensures
        r == key_before(*a, *b),
{
    if ratio_less(b.tip, b.gas, a.tip, a.gas) {
        true
    } else if ratio_less(a.tip, a.gas, b.tip, b.gas) {
        false
    } else if a.creation_instant < b.creation_instant {
        true
    } else if a.creation_instant > b.creation_instant {
        false
    } else {
        tx_id_less(&a.tx_id, &b.tx_id)
    }
}

/// One entry of the priority structure: a sort key and the storage index it
/// stands for.
#[derive(Debug, Clone, Copy, PartialEq, Eq, Structural)]
pub struct SelectionEntry {
    /// The sort key.
    pub key: Key,
    /// The executable resident the key belongs to.
    pub storage_id: u64,
}

/// The storage indices of a sequence of entries, in order.
pub open spec fn sel_ids(s: Seq<SelectionEntry>) -> Seq<u64> {
    s.map_values(|e: SelectionEntry| e.storage_id)
}

/// The first entry, in structure order, whose gas fits the budget.
pub open spec fn first_fit(s: Seq<SelectionEntry>, gas: u64) -> Option<SelectionEntry>
    decreases s.len(),
{
    if s.len() == 0 {
        None
    } else if s[0].key.gas <= gas {
        Some(s[0])
    } else {
        first_fit(s.drop_first(), gas)
    }
}

/// The first fitting entry is the one at the first fitting position.
pub proof fn lemma_first_fit_at(s: Seq<SelectionEntry>, gas: u64, i: int)
    requires
        0 <= i < s.len(),
        s[i].key.gas <= gas,
        forall|j: int| 0 <= j < i ==> (#[trigger] s[j]).key.gas > gas,
    ensures
        first_fit(s, gas) == Some(s[i]),
    decreases i,
{
    if i == 0 {
    } else {
        assert forall|j: int| 0 <= j < i - 1 implies (#[trigger] s.drop_first()[j]).key.gas
            > gas by {
            assert(s.drop_first()[j] == s[j + 1]);
        }
        assert(s.drop_first()[i - 1] == s[i]);
        lemma_first_fit_at(s.drop_first(), gas, i - 1);
        assert(s[0].key.gas > gas);
    }
}

/// When no entry fits, there is no first fitting entry.
pub proof fn lemma_first_fit_none(s: Seq<SelectionEntry>, gas: u64)
    requires
        forall|j: int| 0 <= j < s.len() ==> (#[trigger] s[j]).key.gas > gas,
    ensures
        first_fit(s, gas) is None,
    decreases s.len(),
{
    if s.len() > 0 {
        assert forall|j: int| 0 <= j < s.drop_first().len() implies (
        #[trigger] s.drop_first()[j]).key.gas > gas by {
            assert(s.drop_first()[j] == s[j + 1]);
        }
        lemma_first_fit_none(s.drop_first(), gas);
    }
}

/// The selection structure: entries sorted by `key_before`, best first.
pub struct RatioTipGasSelection {
    /// The executable residents, sorted by descending tip/gas ratio.
    pub entries: Vec<SelectionEntry>,
}

impl RatioTipGasSelection {
    /// Sorted strictly by the selection order, every gas positive, and no
    /// transaction id or storage index twice.
    pub open spec fn wf(&self) -> bool {
        &&& forall|i: int, j: int|
            0 <= i < j < self.entries@.len() ==> key_before(
                (#[trigger] self.entries@[i]).key,
                (#[trigger] self.entries@[j]).key,
            )
        &&& forall|i: int| 0 <= i < self.entries@.len() ==> (#[trigger] self.entries@[i]).key.gas
            >= 1
        &&& forall|i: int, j: int|
            0 <= i < j < self.entries@.len() ==> (#[trigger] self.entries@[i]).key.tx_id != (
            #[trigger] self.entries@[j]).key.tx_id
        &&& forall|i: int, j: int|
            0 <= i < j < self.entries@.len() ==> (#[trigger] self.entries@[i]).storage_id != (
            #[trigger] self.entries@[j]).storage_id
    }

    /// Whether some entry stands for the resident `k`.
    pub open spec fn contains_id(&self, k: u64) -> bool {
        exists|i: int| 0 <= i < self.entries@.len() && (#[trigger] self.entries@[i]).storage_id == k
    }

    /// An empty structure.
    pub fn new() -> (r: Self)
        ensures
            r.wf(),
            r.entries@ == Seq::<SelectionEntry>::empty(),
    {
        RatioTipGasSelection { entries: Vec::new() }
    }

    /// Whether some entry stands for the resident `k`, executably.
    pub fn has_storage_id(&self, k: u64) -> (r: bool)
        ensures
            r == self.contains_id(k),
    {
        let n = self.entries.len();
        let mut i: usize = 0;
        while i < n
            invariant
                0 <= i <= n,
                n == self.entries@.len(),
                forall|j: int| 0 <= j < i ==> (#[trigger] self.entries@[j]).storage_id != k,
            decreases n - i,
        {
            if self.entries[i].storage_id == k {
                return true;
            }
            i += 1;
        }
        false
    }

    /// Inserts the resident `storage_id` with the key derived from its
    /// record, keeping the structure sorted.
    pub fn new_executable_transaction(&mut self, storage_id: u64, store_entry: &StorageData)
        requires
            old(self).wf(),
            store_entry.transaction.max_gas >= 1,
            forall|i: int|
                0 <= i < old(self).entries@.len() ==> (#[trigger] old(
                    self,
                ).entries@[i]).key.tx_id != store_entry.transaction.id,
            forall|i: int|
                0 <= i < old(self).entries@.len() ==> (#[trigger] old(
                    self,
                ).entries@[i]).storage_id != storage_id,
        ensures
            final(self).wf(),
            forall|e: SelectionEntry| #[trigger]
                final(self).entries@.contains(e) <==> old(self).entries@.contains(e) || e == (
                SelectionEntry { key: key_of(*store_entry), storage_id }),
            final(self).entries@.len() == old(self).entries@.len() + 1,
    {
        let key = Key {
            tip: store_entry.transaction.tip,
            gas: store_entry.transaction.max_gas,
            creation_instant: store_entry.creation_instant,
            tx_id: store_entry.transaction.id,
        };
        let entry = SelectionEntry { key, storage_id };
        let m = self.entries.len();
        let mut pos: usize = 0;
        while pos < m
            invariant
                self.wf(),
                pos <= m,
                m == self.entries@.len(),
                key == key_of(*store_entry),
                key.gas >= 1,
                forall|i: int|
                    0 <= i < m ==> (#[trigger] self.entries@[i]).key.tx_id != key.tx_id,
                forall|i: int| 0 <= i < pos ==> key_before(
                    (#[trigger] self.entries@[i]).key,
                    key,
                ),
            ensures
                pos <= m,
                forall|i: int| 0 <= i < pos ==> key_before(
                    (#[trigger] self.entries@[i]).key,
                    key,
                ),
                pos < m ==> key_before(key, self.entries@[pos as int].key),
            decreases m - pos,
        {
            if key_before_exec(&key, &self.entries[pos].key) {
                break ;
            }
            proof {
                lemma_key_before_total(key, self.entries@[pos as int].key);
            }
            pos += 1;
        }
        let ghost e0 = self.entries@;
        let ghost posi = pos as int;
        self.entries.insert(pos, entry);
        proof {
            assert(self.entries@ == e0.insert(posi, entry));
            assert forall|i: int| 0 <= i < self.entries@.len() implies self.entries@[i] == (if i
                < posi {
                e0[i]
            } else if i == posi {
                entry
            } else {
                e0[i - 1]
            }) by {}
            assert forall|e: SelectionEntry| #[trigger]
                self.entries@.contains(e) <==> e0.contains(e) || e == entry by {
                if self.entries@.contains(e) {
                    let j = choose|j: int| 0 <= j < self.entries@.len() && self.entries@[j] == e;
                    if j < posi {
                        assert(e0[j] == e);
                    } else if j > posi {
                        assert(e0[j - 1] == e);
                    }
                }
                if e0.contains(e) {
                    let j = choose|j: int| 0 <= j < e0.len() && e0[j] == e;
                    if j < posi {
                        assert(self.entries@[j] == e);
                    } else {
                        assert(self.entries@[j + 1] == e);
                    }
                }
                if e == entry {
                    assert(self.entries@[posi] == entry);
                }
            }
            assert forall|i: int, j: int|
                0 <= i < j < self.entries@.len() implies key_before(
                (#[trigger] self.entries@[i]).key,
                (#[trigger] self.entries@[j]).key,
            ) by {
                if i == posi {
                    if j - 1 == posi {
                        assert(key_before(key, e0[posi].key));
                    } else {
                        assert(key_before(e0[posi].key, e0[j - 1].key));
                        lemma_key_before_trans(key, e0[posi].key, e0[j - 1].key);
                    }
                } else if j == posi {
                    assert(key_before(e0[i].key, key));
                } else {
                    let i2: int = if i < posi {
                        i
                    } else {
                        i - 1
                    };
                    let j2: int = if j < posi {
                        j
                    } else {
                        j - 1
                    };
                    assert(self.entries@[i] == e0[i2] && self.entries@[j] == e0[j2]);
                }
            }
            assert forall|i: int, j: int|
                0 <= i < j < self.entries@.len() implies (#[trigger] self.entries@[i]).key.tx_id
                != (#[trigger] self.entries@[j]).key.tx_id && self.entries@[i].storage_id
                != self.entries@[j].storage_id by {
                let i2: int = if i < posi {
                    i
                } else {
                    i - 1
                };
                let j2: int = if j < posi {
                    j
                } else {
                    j - 1
                };
                if i != posi && j != posi {
                    assert(self.entries@[i] == e0[i2] && self.entries@[j] == e0[j2]);
                } else if i == posi {
                    assert(self.entries@[j] == e0[j2]);
                } else {
                    assert(self.entries@[i] == e0[i2]);
                }
            }
        }
    }

    /// Removes the entry standing for the transaction `tx`, if present.
    pub fn on_removed_transaction(&mut self, tx: &PoolTransaction)
        requires
            old(self).wf(),
        ensures
            final(self).wf(),
            forall|e: SelectionEntry| #[trigger]
                final(self).entries@.contains(e) <==> old(self).entries@.contains(e) && e.key.tx_id
                    != tx.id,
    {
        self.remove_by_tx_id(tx.id());
    }

    /// Removes the entry whose key carries `id`, if present.
    pub(crate) fn remove_by_tx_id(&mut self, id: TxId)
        requires
            old(self).wf(),
        ensures
            final(self).wf(),
            forall|e: SelectionEntry| #[trigger]
                final(self).entries@.contains(e) <==> old(self).entries@.contains(e) && e.key.tx_id
                    != id,
            (exists|i: int|
                0 <= i < old(self).entries@.len() && (#[trigger] old(self).entries@[i]).key.tx_id
                    == id) ==> final(self).entries@.len() == old(self).entries@.len() - 1,
            (forall|i: int|
                0 <= i < old(self).entries@.len() ==> (#[trigger] old(self).entries@[i]).key.tx_id
                    != id) ==> final(self).entries@ == old(self).entries@,
    {
        let n = self.entries.len();
        let mut i: usize = 0;
        while i < n
            invariant
                self.wf(),
                0 <= i <= n,
                n == self.entries@.len(),
                self.entries@ == old(self).entries@,
                forall|j: int| 0 <= j < i ==> (#[trigger] self.entries@[j]).key.tx_id != id,
            decreases n - i,
        {
            if self.entries[i].key.tx_id == id {
                let ghost e0 = self.entries@;
                let ghost ii = i as int;
                self.entries.remove(i);
                proof {
                    assert(self.entries@ == e0.remove(ii));
                    assert forall|e: SelectionEntry| #[trigger]
                        self.entries@.contains(e) <==> e0.contains(e) && e.key.tx_id != id by {
                        if self.entries@.contains(e) {
                            let j = choose|j: int|
                                0 <= j < self.entries@.len() && self.entries@[j] == e;
                            let j2: int = if j < ii {
                                j
                            } else {
                                j + 1
                            };
                            assert(e0[j2] == e);
                            if e.key.tx_id == id {
                                assert(j2 != ii);
                            }
                        }
                        if e0.contains(e) && e.key.tx_id != id {
                            let j = choose|j: int| 0 <= j < e0.len() && e0[j] == e;
                            assert(j != ii);
                            let j2: int = if j < ii {
                                j
                            } else {
                                j - 1
                            };
                            assert(self.entries@[j2] == e);
                        }
                    }
                    assert forall|a: int, b: int|
                        0 <= a < b < self.entries@.len() implies key_before(
                        (#[trigger] self.entries@[a]).key,
                        (#[trigger] self.entries@[b]).key,
                    ) && self.entries@[a].key.tx_id != self.entries@[b].key.tx_id
                        && self.entries@[a].storage_id != self.entries@[b].storage_id by {
                        let a2: int = if a < ii {
                            a
                        } else {
                            a + 1
                        };
                        let b2: int = if b < ii {
                            b
                        } else {
                            b + 1
                        };
                        assert(self.entries@[a] == e0[a2] && self.entries@[b] == e0[b2]);
                    }
                }
                return ;
            }
            i += 1;
        }
        proof {
            assert forall|e: SelectionEntry| #[trigger]
                self.entries@.contains(e) implies e.key.tx_id != id by {
                let j = choose|j: int| 0 <= j < self.entries@.len() && self.entries@[j] == e;
            }
        }
    }

    /// The storage indices of the entries, worst first: the reverse of the
    /// selection order. Advisory introspection only; eviction ranks subtree
    /// roots in storage instead.
    pub fn get_less_worth_txs(&self) -> (r: Vec<u64>)
        ensures
            r@.len() == self.entries@.len(),
            forall|i: int|
                0 <= i < r@.len() ==> r@[i] == (#[trigger] self.entries@[r@.len() - 1 - i]).storage_id,
    {
        let n = self.entries.len();
        let mut out: Vec<u64> = Vec::new();
        let mut i: usize = 0;
        while i < n
            invariant
                0 <= i <= n,
                n == self.entries@.len(),
                out@.len() == i,
                forall|j: int|
                    0 <= j < i ==> out@[j] == (#[trigger] self.entries@[n - 1 - j]).storage_id,
            decreases n - i,
        {
            out.push(self.entries[n - 1 - i].storage_id);
            i += 1;
        }
        out
    }
}

} // verus!

verus! {

/// Every element of `xs` occurs in `ys`.
pub open spec fn all_in(xs: Seq<u64>, ys: Seq<u64>) -> bool {
    forall|x: u64| xs.contains(x) ==> ys.contains(x)
}

/// A duplicate-free id list of residents, disjoint from the duplicate-free
/// id set of the structure's entries, cannot outnumber the residents.
proof fn lemma_result_entries_bound(
    storage: &Storage,
    result: Seq<u64>,
    entries: Seq<SelectionEntry>,
)
    requires
        storage.wf(),
        result.no_duplicates(),
        forall|x: u64| #[trigger] result.contains(x) ==> storage@.contains_key(x),
        forall|i: int| 0 <= i < entries.len() ==> storage@.contains_key(
            (#[trigger] entries[i]).storage_id,
        ),
        forall|i: int, j: int|
            0 <= i < j < entries.len() ==> (#[trigger] entries[i]).storage_id != (
            #[trigger] entries[j]).storage_id,
        forall|i: int| 0 <= i < entries.len() ==> !result.contains(
            (#[trigger] entries[i]).storage_id,
        ),
    ensures
        result.len() + entries.len() <= storage.entries@.len(),
{
    let combined = result + sel_ids(entries);
    assert(combined.len() == result.len() + entries.len());
    assert forall|i: int| 0 <= i < combined.len() implies storage@.contains_key(
        #[trigger] combined[i],
    ) by {
        if i < result.len() {
            assert(result.contains(combined[i]));
        } else {
            assert(combined[i] == entries[i - result.len()].storage_id);
        }
    }
    assert forall|i: int, j: int| 0 <= i < j < combined.len() implies combined[i]
        != combined[j] by {
        if j < result.len() {
        } else if i < result.len() {
            assert(result.contains(combined[i]));
            assert(combined[j] == entries[j - result.len()].storage_id);
        } else {
            assert(combined[i] == entries[i - result.len()].storage_id);
            assert(combined[j] == entries[j - result.len()].storage_id);
        }
    }
    assert forall|x: u64| #[trigger] combined.contains(x) implies storage@.contains_key(x) by {
        let i = choose|i: int| 0 <= i < combined.len() && combined[i] == x;
    }
    crate::storage::lemma_resident_indices_bound(storage.entries@, combined);
}

/// Whether every parent of resident `c` has been selected.
fn all_parents_selected(storage: &Storage, c: u64, sel: &Vec<u64>) -> (r: bool)
    requires
        storage.wf(),
        storage@.contains_key(c),
    ensures
        r == all_in(storage@[c].parents@, sel@),
{
    let folks = copy_indices(&storage.get_must(c).parents);
    let n = folks.len();
    let mut i: usize = 0;
    while i < n
        invariant
            0 <= i <= n,
            n == folks@.len(),
            folks@ == storage@[c].parents@,
            forall|j: int| 0 <= j < i ==> sel@.contains(#[trigger] folks@[j]),
        decreases n - i,
    {
        if !contains_index(sel, folks[i]) {
            proof {
                assert(storage@[c].parents@.contains(folks@[i as int]));
            }
            return false;
        }
        i += 1;
    }
    proof {
        assert forall|x: u64| storage@[c].parents@.contains(x) implies sel@.contains(x) by {
            let j = choose|j: int| 0 <= j < folks@.len() && folks@[j] == x;
        }
    }
    true
}

impl RatioTipGasSelection {
    /// The block-building pass. Walks the structure best first, selecting
    /// every entry that fits in the remaining gas; selected residents leave
    /// the structure, and a resident all of whose parents have been selected
    /// is promoted into it for the next pass. Passes repeat while anything
    /// was selected or promoted and gas remains. The result is ordered pass
    /// by pass, and within a pass in selection order, so no resident appears
    /// before one of its parents.
    pub fn gather_best_txs(&mut self, constraints: Constraints, storage: &Storage) -> (r: Vec<u64>)
        requires
            old(self).wf(),
            storage.wf(),
            forall|i: int|
                0 <= i < old(self).entries@.len() ==> storage@.contains_key(
                    (#[trigger] old(self).entries@[i]).storage_id,
                ) && old(self).entries@[i].key == key_of(
                    storage@[old(self).entries@[i].storage_id],
                ) && storage@[old(self).entries@[i].storage_id].parents@.len() == 0,
            forall|k: u64|
                #[trigger] storage@.contains_key(k) && storage@[k].parents@.len() == 0 ==> old(
                    self,
                ).contains_id(k),
        ensures
            final(self).wf(),
            r@.no_duplicates(),
            forall|k: u64| #[trigger] r@.contains(k) ==> storage@.contains_key(k),
            forall|i: int|
                0 <= i < final(self).entries@.len() ==> storage@.contains_key(
                    (#[trigger] final(self).entries@[i]).storage_id,
                ) && final(self).entries@[i].key == key_of(
                    storage@[final(self).entries@[i].storage_id],
                ),
            forall|k: u64|
                #[trigger] storage@.contains_key(k) ==> (final(self).contains_id(k) <==> !r@.contains(
                    k,
                ) && all_in(storage@[k].parents@, r@)),
            forall|j: int, p: u64|
                0 <= j < r@.len() && (#[trigger] storage@[r@[j]].parents@.contains(p)) ==> exists|
                    j2: int,
                |
                    0 <= j2 < j && r@[j2] == p,
            ids_gas_sum(storage@, r@) <= constraints.max_gas,
            match first_fit(old(self).entries@, constraints.max_gas) {
                Some(e) => r@.len() > 0 && r@[0] == e.storage_id,
                None => true,
            },
    {
        let mut gas_left = constraints.max_gas;
        let mut result: Vec<u64> = Vec::new();
        proof {
            assert forall|k: u64| #[trigger] storage@.contains_key(k) implies (all_in(
                storage@[k].parents@,
                result@,
            ) <==> (self.contains_id(k) || result@.contains(k))) by {
                if all_in(storage@[k].parents@, result@) {
                    assert(storage@[k].parents@.len() == 0) by {
                        if storage@[k].parents@.len() > 0 {
                            assert(storage@[k].parents@.contains(storage@[k].parents@[0]));
                        }
                    }
                }
                if self.contains_id(k) {
                    let i = choose|i: int|
                        0 <= i < self.entries@.len() && (#[trigger] self.entries@[i]).storage_id
                            == k;
                    assert(storage@[k].parents@.len() == 0);
                    assert forall|x: u64| storage@[k].parents@.contains(x) implies result@.contains(
                        x,
                    ) by {}
                }
            }
            lemma_result_entries_bound(storage, result@, self.entries@);
        }
        let mut go = true;
        while go
            invariant
                self.wf(),
                storage.wf(),
                forall|i: int|
                    0 <= i < self.entries@.len() ==> storage@.contains_key(
                        (#[trigger] self.entries@[i]).storage_id,
                    ) && self.entries@[i].key == key_of(storage@[self.entries@[i].storage_id]),
                forall|i: int| 0 <= i < self.entries@.len() ==> !result@.contains(
                    (#[trigger] self.entries@[i]).storage_id,
                ),
                result@.no_duplicates(),
                forall|k: u64| #[trigger] result@.contains(k) ==> storage@.contains_key(k),
                forall|k: u64|
                    #[trigger] storage@.contains_key(k) ==> (all_in(storage@[k].parents@, result@)
                        <==> (self.contains_id(k) || result@.contains(k))),
                forall|j: int, p: u64|
                    0 <= j < result@.len() && (#[trigger] storage@[result@[j]].parents@.contains(
                        p,
                    )) ==> exists|j2: int| 0 <= j2 < j && result@[j2] == p,
                ids_gas_sum(storage@, result@) + gas_left == constraints.max_gas,
                result@.len() + self.entries@.len() <= storage.entries@.len(),
                result@.len() == 0 ==> self.entries@ == old(self).entries@ && gas_left
                    == constraints.max_gas,
                !go && result@.len() == 0 ==> first_fit(
                    old(self).entries@,
                    constraints.max_gas,
                ) is None,
                result@.len() > 0 ==> (match first_fit(old(self).entries@, constraints.max_gas) {
                    Some(e) => result@[0] == e.storage_id,
                    None => true,
                }),
            decreases 2 * storage.entries@.len() - 2 * result@.len() - self.entries@.len() + (
            if go {
                1int
            } else {
                0int
            }),
        {
            if gas_left == 0 || self.entries.len() == 0 {
                proof {
                    if result@.len() == 0 {
                        if self.entries@.len() == 0 {
                            assert(old(self).entries@.len() == 0);
                        } else {
                            assert(gas_left == 0 && constraints.max_gas == 0);
                            assert forall|j: int|
                                0 <= j < old(self).entries@.len() implies (#[trigger] old(
                                self,
                            ).entries@[j]).key.gas > constraints.max_gas by {
                                assert(old(self).entries@[j] == self.entries@[j]);
                            }
                            lemma_first_fit_none(old(self).entries@, constraints.max_gas);
                        }
                    }
                }
                go = false;
            } else {
                let ghost entries0 = self.entries@;
                let ghost result0 = result@;
                let ghost gpass = gas_left;
                // Walk the structure best first, selecting what fits.
                let n = self.entries.len();
                let mut best: Vec<SelectionEntry> = Vec::new();
                proof {
                    assert(sel_ids(best@) =~= Seq::<u64>::empty());
                    lemma_ids_gas_sum_nonneg(storage@, result@);
                }
                let mut i: usize = 0;
                while i < n
                    invariant
                        0 <= i <= n,
                        n == self.entries@.len(),
                        self.entries@ == entries0,
                        self.wf(),
                        best@.len() == 0 ==> gas_left == gpass && (forall|j: int|
                            0 <= j < i ==> (#[trigger] entries0[j]).key.gas > gpass),
                        best@.len() > 0 ==> first_fit(entries0, gpass) == Some(best@[0]),
                        forall|a: int|
                            0 <= a < best@.len() ==> exists|j: int|
                                0 <= j < i && entries0[j] == #[trigger] best@[a],
                        forall|a: int, b: int|
                            0 <= a < b < best@.len() ==> (#[trigger] best@[a]).key.tx_id != (
                            #[trigger] best@[b]).key.tx_id && best@[a].storage_id != (
                            best@[b]).storage_id,
                        ids_gas_sum(storage@, sel_ids(best@)) + gas_left <= constraints.max_gas,
                        ids_gas_sum(storage@, result@) + ids_gas_sum(storage@, sel_ids(best@))
                            + gas_left == constraints.max_gas,
                        forall|i2: int|
                            0 <= i2 < self.entries@.len() ==> storage@.contains_key(
                                (#[trigger] self.entries@[i2]).storage_id,
                            ) && self.entries@[i2].key == key_of(
                                storage@[self.entries@[i2].storage_id],
                            ),
                    decreases n - i,
                {
                    let e = self.entries[i];
                    if e.key.gas <= gas_left {
                        let ghost best0 = best@;
                        proof {
                            if best0.len() == 0 {
                                lemma_first_fit_at(entries0, gpass, i as int);
                            }
                        }
                        gas_left = gas_left - e.key.gas;
                        best.push(e);
                        proof {
                            assert(best@[0] == (if best0.len() == 0 {
                                e
                            } else {
                                best0[0]
                            }));
                            assert(sel_ids(best@) =~= sel_ids(best0).push(e.storage_id));
                            lemma_ids_gas_sum_push(storage@, sel_ids(best0), e.storage_id);
                            assert(storage@[e.storage_id].transaction.max_gas == e.key.gas);
                            assert forall|a: int|
                                0 <= a < best@.len() implies exists|j: int|
                                0 <= j < i + 1 && entries0[j] == #[trigger] best@[a] by {
                                if a < best0.len() {
                                    assert(best@[a] == best0[a]);
                                    let j = choose|j: int|
                                        0 <= j < i && entries0[j] == best0[a];
                                    assert(entries0[j] == best@[a]);
                                } else {
                                    assert(best@[a] == e);
                                    assert(entries0[i as int] == e);
                                }
                            }
                            assert forall|a: int, b: int|
                                0 <= a < b < best@.len() implies (#[trigger] best@[a]).key.tx_id
                                != (#[trigger] best@[b]).key.tx_id && best@[a].storage_id != (
                            best@[b]).storage_id by {
                                if b == best0.len() {
                                    assert(best@[b] == e);
                                    let j = choose|j: int|
                                        0 <= j < i && entries0[j] == best0[a];
                                    assert(best@[a] == entries0[j]);
                                    assert(entries0[i as int] == e);
                                }
                            }
                        }
                    }
                    i += 1;
                }
                // Remove the selected entries; they join the result in
                // selection order.
                let bn = best.len();
                let mut bi: usize = 0;
                while bi < bn
                    invariant
                        0 <= bi <= bn,
                        bn == best@.len(),
                        self.wf(),
                        storage.wf(),
                        forall|a: int|
                            0 <= a < best@.len() ==> entries0.contains(#[trigger] best@[a]),
                        forall|a: int, b: int|
                            0 <= a < b < best@.len() ==> (#[trigger] best@[a]).key.tx_id != (
                            #[trigger] best@[b]).key.tx_id && best@[a].storage_id != (
                            best@[b]).storage_id,
                        forall|e: SelectionEntry| #[trigger]
                            self.entries@.contains(e) <==> entries0.contains(e) && !exists|a: int|
                                0 <= a < bi && (#[trigger] best@[a]).key.tx_id == e.key.tx_id,
                        self.entries@.len() == entries0.len() - bi,
                        bi == 0 ==> self.entries@ == entries0,
                        bi == 0 ==> gas_left == gpass || best@.len() > 0,
                        result@ == result0 + sel_ids(best@.take(bi as int)),
                        // facts carried from the outer invariant, over the
                        // pre-pass state:
                        forall|i2: int|
                            0 <= i2 < entries0.len() ==> storage@.contains_key(
                                (#[trigger] entries0[i2]).storage_id,
                            ) && entries0[i2].key == key_of(storage@[entries0[i2].storage_id]),
                        forall|i2: int| 0 <= i2 < entries0.len() ==> !result0.contains(
                            (#[trigger] entries0[i2]).storage_id,
                        ),
                        result0.no_duplicates(),
                        forall|k: u64| #[trigger] result0.contains(k) ==> storage@.contains_key(k),
                        forall|k: u64|
                            #[trigger] storage@.contains_key(k) ==> (all_in(
                                storage@[k].parents@,
                                result0,
                            ) <==> (contains_entry_id(entries0, k) || result0.contains(k))),
                        forall|j: int, p: u64|
                            0 <= j < result0.len() && (
                            #[trigger] storage@[result0[j]].parents@.contains(p)) ==> exists|
                                j2: int,
                            |
                                0 <= j2 < j && result0[j2] == p,
                    decreases bn - bi,
                {
                    let e = best[bi];
                    proof {
                        assert(best@.contains(e)) by {
                            assert(best@[bi as int] == e);
                        }
                        assert(entries0.contains(e));
                        assert(self.entries@.contains(e)) by {
                            if exists|a: int|
                                0 <= a < bi && (#[trigger] best@[a]).key.tx_id == e.key.tx_id {
                                let a = choose|a: int|
                                    0 <= a < bi && (#[trigger] best@[a]).key.tx_id == e.key.tx_id;
                            }
                        }
                        let ei = choose|ei: int|
                            0 <= ei < self.entries@.len() && self.entries@[ei] == e;
                        assert(self.entries@[ei].key.tx_id == e.key.tx_id);
                    }
                    self.remove_by_tx_id(e.key.tx_id);
                    result.push(e.storage_id);
                    proof {
                        assert(best@.take(bi as int + 1) =~= best@.take(bi as int).push(e));
                        assert(sel_ids(best@.take(bi as int + 1)) =~= sel_ids(
                            best@.take(bi as int),
                        ).push(e.storage_id));
                        assert(result@ =~= result0 + sel_ids(best@.take(bi as int + 1)));
                        assert forall|e2: SelectionEntry| #[trigger]
                            self.entries@.contains(e2) <==> entries0.contains(e2) && !exists|
                            a: int,
                        |
                            0 <= a < bi + 1 && (#[trigger] best@[a]).key.tx_id
                                == e2.key.tx_id by {
                            if entries0.contains(e2) {
                                if exists|a: int|
                                    0 <= a < bi + 1 && (#[trigger] best@[a]).key.tx_id
                                        == e2.key.tx_id {
                                    let a = choose|a: int|
                                        0 <= a < bi + 1 && (#[trigger] best@[a]).key.tx_id
                                            == e2.key.tx_id;
                                    if a < bi as int {
                                        assert(!self.entries@.contains(e2));
                                    } else {
                                        assert(best@[a] == e);
                                    }
                                }
                            }
                        }
                    }
                    bi += 1;
                }
                proof {
                    assert(best@.take(bn as int) =~= best@);
                    assert forall|k: u64| #[trigger] result@.contains(k) implies
                        storage@.contains_key(k) by {
                        let j = choose|j: int| 0 <= j < result@.len() && result@[j] == k;
                        if j < result0.len() {
                            assert(result0.contains(k)) by {
                                assert(result0[j] == k);
                            }
                        } else {
                            let a = j - result0.len();
                            assert(result@[j] == sel_ids(best@)[a]);
                            assert(best@[a].storage_id == k);
                            assert(entries0.contains(best@[a]));
                            let j2 = choose|j2: int|
                                0 <= j2 < entries0.len() && entries0[j2] == best@[a];
                            assert(storage@.contains_key(entries0[j2].storage_id));
                        }
                    }
                    assert forall|a: int, b2: int|
                        0 <= a < b2 < result@.len() implies result@[a] != result@[b2] by {
                        let r0l = result0.len() as int;
                        if b2 < r0l {
                        } else if a >= r0l {
                            assert(result@[a] == sel_ids(best@)[a - r0l]);
                            assert(result@[b2] == sel_ids(best@)[b2 - r0l]);
                            assert(best@[a - r0l].storage_id != best@[b2 - r0l].storage_id);
                        } else {
                            assert(result0[a] == result@[a]);
                            assert(result0.contains(result@[a]));
                            assert(result@[b2] == sel_ids(best@)[b2 - r0l]);
                            assert(best@[b2 - r0l].storage_id == result@[b2]);
                            assert(entries0.contains(best@[b2 - r0l]));
                            let j2 = choose|j2: int|
                                0 <= j2 < entries0.len() && entries0[j2] == best@[b2 - r0l];
                            assert(!result0.contains(entries0[j2].storage_id));
                        }
                    }
                    assert forall|i2: int|
                        0 <= i2 < self.entries@.len() implies storage@.contains_key(
                        (#[trigger] self.entries@[i2]).storage_id,
                    ) && self.entries@[i2].key == key_of(storage@[self.entries@[i2].storage_id])
                        && !result@.contains(self.entries@[i2].storage_id) by {
                        let e2 = self.entries@[i2];
                        assert(self.entries@.contains(e2));
                        assert(entries0.contains(e2));
                        let j = choose|j: int| 0 <= j < entries0.len() && entries0[j] == e2;
                        assert(storage@.contains_key(e2.storage_id));
                        if result@.contains(e2.storage_id) {
                            let jj = choose|jj: int|
                                0 <= jj < result@.len() && result@[jj] == e2.storage_id;
                            if jj < result0.len() {
                                assert(result0.contains(e2.storage_id));
                                assert(!result0.contains(entries0[j].storage_id));
                            } else {
                                let a = jj - result0.len();
                                assert(result@[jj] == sel_ids(best@)[a]);
                                assert(best@[a].storage_id == e2.storage_id);
                                assert(entries0.contains(best@[a]));
                                let j2 = choose|j2: int|
                                    0 <= j2 < entries0.len() && entries0[j2] == best@[a];
                                assert(j2 == j);
                                assert(!self.entries@.contains(e2)) by {
                                    assert(best@[a].key.tx_id == e2.key.tx_id);
                                }
                            }
                        }
                    }
                    assert forall|k: u64| #[trigger] self.contains_id(k) implies
                        storage@.contains_key(k) && all_in(storage@[k].parents@, result@)
                        && !result@.contains(k) by {
                        let i2 = choose|i2: int|
                            0 <= i2 < self.entries@.len() && (#[trigger] self.entries@[i2]).storage_id
                                == k;
                        let e2 = self.entries@[i2];
                        assert(self.entries@.contains(e2));
                        assert(entries0.contains(e2));
                        let j = choose|j: int| 0 <= j < entries0.len() && entries0[j] == e2;
                        assert(contains_entry_id(entries0, k)) by {
                            assert(entries0[j].storage_id == k);
                        }
                        assert(all_in(storage@[k].parents@, result0));
                        assert forall|x: u64| storage@[k].parents@.contains(x) implies
                            result@.contains(x) by {
                            assert(result0.contains(x));
                            let j2 = choose|j2: int| 0 <= j2 < result0.len() && result0[j2] == x;
                            assert(result@[j2] == x);
                        }
                    }
                    assert forall|k: u64|
                        #[trigger] storage@.contains_key(k) && all_in(
                            storage@[k].parents@,
                            result0,
                        ) implies self.contains_id(k) || result@.contains(k) by {
                        if contains_entry_id(entries0, k) {
                            let j = choose|j: int|
                                0 <= j < entries0.len() && (#[trigger] entries0[j]).storage_id
                                    == k;
                            let e2 = entries0[j];
                            if self.entries@.contains(e2) {
                                let i2 = choose|i2: int|
                                    0 <= i2 < self.entries@.len() && self.entries@[i2] == e2;
                                assert(self.contains_id(k)) by {
                                    assert(self.entries@[i2].storage_id == k);
                                }
                            } else {
                                let a = choose|a: int|
                                    0 <= a < best@.len() && (#[trigger] best@[a]).key.tx_id
                                        == e2.key.tx_id;
                                assert(entries0.contains(best@[a]));
                                let j2 = choose|j2: int|
                                    0 <= j2 < entries0.len() && entries0[j2] == best@[a];
                                assert(j2 == j) by {
                                    if j2 != j {
                                        assert(entries0[j2].key.tx_id != entries0[j].key.tx_id);
                                    }
                                }
                                assert(result@.contains(k)) by {
                                    assert(result@[result0.len() + a] == sel_ids(best@)[a]);
                                    assert(sel_ids(best@)[a] == best@[a].storage_id);
                                }
                            }
                        } else {
                            assert(result0.contains(k));
                            let j2 = choose|j2: int| 0 <= j2 < result0.len() && result0[j2] == k;
                            assert(result@[j2] == k);
                        }
                    }
                }
                // Promote residents whose parents have now all been selected.
                let ghost entries_mid = self.entries@;
                let mut promoted = false;
                let mut bi2: usize = 0;
                while bi2 < bn
                    invariant
                        0 <= bi2 <= bn,
                        bn == best@.len(),
                        self.wf(),
                        storage.wf(),
                        result@ == result0 + sel_ids(best@),
                        self.entries@.len() >= entries0.len() - bn,
                        promoted ==> self.entries@.len() >= entries0.len() - bn + 1,
                        bi2 == 0 ==> self.entries@ == entries_mid,
                        forall|a: int|
                            0 <= a < best@.len() ==> entries0.contains(#[trigger] best@[a]),
                        forall|i2: int|
                            0 <= i2 < entries0.len() ==> storage@.contains_key(
                                (#[trigger] entries0[i2]).storage_id,
                            ) && entries0[i2].key == key_of(storage@[entries0[i2].storage_id]),
                        forall|i2: int|
                            0 <= i2 < self.entries@.len() ==> storage@.contains_key(
                                (#[trigger] self.entries@[i2]).storage_id,
                            ) && self.entries@[i2].key == key_of(
                                storage@[self.entries@[i2].storage_id],
                            ),
                        result@.no_duplicates(),
                        forall|k: u64| #[trigger] result@.contains(k) ==> storage@.contains_key(k),
                        forall|i2: int| 0 <= i2 < self.entries@.len() ==> !result@.contains(
                            (#[trigger] self.entries@[i2]).storage_id,
                        ),
                        // the structure never shrinks during promotion, and
                        // every entry is justified:
                        forall|k: u64| #[trigger] self.contains_id(k) ==> storage@.contains_key(k)
                            && all_in(storage@[k].parents@, result@) && !result@.contains(k),
                        // children of already-processed selected residents
                        // are settled:
                        forall|a: int, c: u64|
                            0 <= a < bi2 && (
                            #[trigger] storage@[best@[a].storage_id].children@.contains(c))
                                && storage@.contains_key(c) && all_in(
                                storage@[c].parents@,
                                result@,
                            ) ==> self.contains_id(c) || result@.contains(c),
                        // residents settled before the pass stay settled:
                        forall|k: u64|
                            #[trigger] storage@.contains_key(k) && all_in(
                                storage@[k].parents@,
                                result0,
                            ) ==> self.contains_id(k) || result@.contains(k),
                    decreases bn - bi2,
                {
                    let b = best[bi2];
                    proof {
                        assert(best@.contains(b)) by {
                            assert(best@[bi2 as int] == b);
                        }
                        assert(entries0.contains(b));
                        let j = choose|j: int| 0 <= j < entries0.len() && entries0[j] == b;
                        assert(storage@.contains_key(b.storage_id));
                    }
                    let kids = copy_indices(&storage.get_must(b.storage_id).children);
                    let kn = kids.len();
                    let mut ci: usize = 0;
                    while ci < kn
                        invariant
                            0 <= ci <= kn,
                            kn == kids@.len(),
                            self.wf(),
                            storage.wf(),
                            storage@.contains_key(b.storage_id),
                            kids@ == storage@[b.storage_id].children@,
                            result@ == result0 + sel_ids(best@),
                            self.entries@.len() >= entries0.len() - bn,
                            promoted ==> self.entries@.len() >= entries0.len() - bn + 1,
                            result@.no_duplicates(),
                            forall|k: u64| #[trigger] result@.contains(k)
                                ==> storage@.contains_key(k),
                            forall|i2: int|
                                0 <= i2 < self.entries@.len() ==> storage@.contains_key(
                                    (#[trigger] self.entries@[i2]).storage_id,
                                ) && self.entries@[i2].key == key_of(
                                    storage@[self.entries@[i2].storage_id],
                                ),
                            forall|i2: int| 0 <= i2 < self.entries@.len() ==> !result@.contains(
                                (#[trigger] self.entries@[i2]).storage_id,
                            ),
                            forall|k: u64| #[trigger] self.contains_id(k)
                                ==> storage@.contains_key(k) && all_in(
                                storage@[k].parents@,
                                result@,
                            ) && !result@.contains(k),
                            forall|a: int, c: u64|
                                0 <= a < bi2 && (
                                #[trigger] storage@[best@[a].storage_id].children@.contains(c))
                                    && storage@.contains_key(c) && all_in(
                                    storage@[c].parents@,
                                    result@,
                                ) ==> self.contains_id(c) || result@.contains(c),
                            forall|j2: int|
                                0 <= j2 < ci && storage@.contains_key(#[trigger] kids@[j2])
                                    && all_in(storage@[kids@[j2]].parents@, result@)
                                    ==> self.contains_id(kids@[j2]) || result@.contains(
                                    kids@[j2],
                                ),
                            forall|k: u64|
                                #[trigger] storage@.contains_key(k) && all_in(
                                    storage@[k].parents@,
                                    result0,
                                ) ==> self.contains_id(k) || result@.contains(k),
                        decreases kn - ci,
                    {
                        let c = kids[ci];
                        proof {
                            assert(storage@[b.storage_id].children@.contains(c));
                            assert(crate::storage::child_edge(storage@, b.storage_id, c));
                        }
                        let ghost self0 = *self;
                        let in_result = contains_index(&result, c);
                        let in_structure = self.has_storage_id(c);
                        let mut all_sel = false;
                        if !in_result && !in_structure {
                            all_sel = all_parents_selected(storage, c, &result);
                            if all_sel {
                                let pd = storage.get_must(c);
                                proof {
                                    assert forall|i2: int|
                                        0 <= i2 < self.entries@.len() implies (
                                    #[trigger] self.entries@[i2]).key.tx_id
                                        != pd.transaction.id by {
                                        let sid = self.entries@[i2].storage_id;
                                        assert(storage@.contains_key(sid));
                                        assert(sid != c) by {
                                            if sid == c {
                                                assert(self.contains_id(c));
                                            }
                                        }
                                    }
                                    assert forall|i2: int|
                                        0 <= i2 < self.entries@.len() implies (
                                    #[trigger] self.entries@[i2]).storage_id != c by {
                                        if self.entries@[i2].storage_id == c {
                                            assert(self.contains_id(c));
                                        }
                                    }
                                }
                                self.new_executable_transaction(c, pd);
                                promoted = true;
                                proof {
                                    let newe = SelectionEntry {
                                        key: key_of(storage@[c]),
                                        storage_id: c,
                                    };
                                    assert(self.entries@.contains(newe));
                                    assert forall|k: u64| #[trigger] self.contains_id(k) implies
                                        storage@.contains_key(k) && all_in(
                                        storage@[k].parents@,
                                        result@,
                                    ) && !result@.contains(k) by {
                                        let i2 = choose|i2: int|
                                            0 <= i2 < self.entries@.len() && (
                                            #[trigger] self.entries@[i2]).storage_id == k;
                                        assert(self.entries@.contains(self.entries@[i2]));
                                        if self.entries@[i2] == newe {
                                        } else {
                                            assert(self0.entries@.contains(self.entries@[i2]));
                                            let i3 = choose|i3: int|
                                                0 <= i3 < self0.entries@.len()
                                                    && self0.entries@[i3] == self.entries@[i2];
                                            assert(self0.contains_id(k)) by {
                                                assert(self0.entries@[i3].storage_id == k);
                                            }
                                        }
                                    }
                                    assert forall|k: u64| #[trigger] self0.contains_id(k) implies
                                        self.contains_id(k) by {
                                        let i3 = choose|i3: int|
                                            0 <= i3 < self0.entries@.len() && (
                                            #[trigger] self0.entries@[i3]).storage_id == k;
                                        assert(self0.entries@.contains(self0.entries@[i3]));
                                        assert(self.entries@.contains(self0.entries@[i3]));
                                        let i2 = choose|i2: int|
                                            0 <= i2 < self.entries@.len() && self.entries@[i2]
                                                == self0.entries@[i3];
                                        assert(self.contains_id(k)) by {
                                            assert(self.entries@[i2].storage_id == k);
                                        }
                                    }
                                    assert(self.entries@.len() == self0.entries@.len() + 1);
                                    assert forall|i2: int|
                                        0 <= i2 < self.entries@.len() implies storage@.contains_key(
                                        (#[trigger] self.entries@[i2]).storage_id,
                                    ) && self.entries@[i2].key == key_of(
                                        storage@[self.entries@[i2].storage_id],
                                    ) && !result@.contains(self.entries@[i2].storage_id) by {
                                        let e2 = self.entries@[i2];
                                        assert(self.entries@.contains(e2));
                                        if e2 == newe {
                                        } else {
                                            assert(self0.entries@.contains(e2));
                                            let i3 = choose|i3: int|
                                                0 <= i3 < self0.entries@.len()
                                                    && self0.entries@[i3] == e2;
                                            assert(storage@.contains_key(
                                                self0.entries@[i3].storage_id,
                                            ));
                                        }
                                    }
                                }
                            }
                        }
                        ci += 1;
                        proof {
                            assert forall|j2: int|
                                0 <= j2 < ci && storage@.contains_key(#[trigger] kids@[j2])
                                    && all_in(storage@[kids@[j2]].parents@, result@) implies
                                self.contains_id(kids@[j2]) || result@.contains(kids@[j2]) by {
                                if j2 == ci - 1 {
                                    if in_result {
                                        assert(result@.contains(c));
                                    } else if in_structure {
                                        assert(self0.contains_id(c));
                                        let i3 = choose|i3: int|
                                            0 <= i3 < self0.entries@.len() && (
                                            #[trigger] self0.entries@[i3]).storage_id == c;
                                        assert(self0.entries@.contains(self0.entries@[i3]));
                                        assert(self.entries@.contains(self0.entries@[i3]));
                                        let i2 = choose|i2: int|
                                            0 <= i2 < self.entries@.len() && self.entries@[i2]
                                                == self0.entries@[i3];
                                        assert(self.contains_id(c)) by {
                                            assert(self.entries@[i2].storage_id == c);
                                        }
                                    } else if all_sel {
                                        let newe = SelectionEntry {
                                            key: key_of(storage@[c]),
                                            storage_id: c,
                                        };
                                        assert(self.entries@.contains(newe));
                                        let i2 = choose|i2: int|
                                            0 <= i2 < self.entries@.len() && self.entries@[i2]
                                                == newe;
                                        assert(self.contains_id(c)) by {
                                            assert(self.entries@[i2].storage_id == c);
                                        }
                                    }
                                } else {
                                    if self0.contains_id(kids@[j2]) {
                                        let i3 = choose|i3: int|
                                            0 <= i3 < self0.entries@.len() && (
                                            #[trigger] self0.entries@[i3]).storage_id
                                                == kids@[j2];
                                        assert(self0.entries@.contains(self0.entries@[i3]));
                                        assert(self.entries@.contains(self0.entries@[i3]));
                                        let i2 = choose|i2: int|
                                            0 <= i2 < self.entries@.len() && self.entries@[i2]
                                                == self0.entries@[i3];
                                        assert(self.contains_id(kids@[j2])) by {
                                            assert(self.entries@[i2].storage_id == kids@[j2]);
                                        }
                                    }
                                }
                            }
                        }
                    }
                    bi2 += 1;
                    proof {
                        assert forall|a: int, c: u64|
                            0 <= a < bi2 && (
                            #[trigger] storage@[best@[a].storage_id].children@.contains(c))
                                && storage@.contains_key(c) && all_in(
                                storage@[c].parents@,
                                result@,
                            ) implies self.contains_id(c) || result@.contains(c) by {
                            if a == bi2 - 1 {
                                assert(kids@.contains(c));
                                let j2 = choose|j2: int| 0 <= j2 < kids@.len() && kids@[j2] == c;
                            }
                        }
                    }
                }
                if bn == 0 && !promoted {
                    proof {
                        if result@.len() == 0 {
                            assert(result0.len() == 0);
                            assert(entries0 == old(self).entries@ && gpass == constraints.max_gas);
                            assert forall|j: int|
                                0 <= j < entries0.len() implies (#[trigger] entries0[j]).key.gas
                                > constraints.max_gas by {}
                            lemma_first_fit_none(old(self).entries@, constraints.max_gas);
                        }
                    }
                    go = false;
                }
                proof {
                    assert(result@.len() == result0.len() + bn);
                    if result@.len() > 0 {
                        if result0.len() == 0 {
                            assert(bn > 0);
                            assert(entries0 == old(self).entries@ && gpass == constraints.max_gas);
                            assert(first_fit(entries0, gpass) == Some(best@[0]));
                            assert(result@[0] == sel_ids(best@)[0]);
                            assert(sel_ids(best@)[0] == best@[0].storage_id);
                        } else {
                            assert(result@[0] == result0[0]);
                        }
                    }
                    // The structure membership invariant holds again.
                    assert forall|k: u64|
                        #[trigger] storage@.contains_key(k) implies (all_in(
                        storage@[k].parents@,
                        result@,
                    ) <==> (self.contains_id(k) || result@.contains(k))) by {
                        if all_in(storage@[k].parents@, result@) {
                            if all_in(storage@[k].parents@, result0) {
                            } else {
                                let p = choose|p: u64|
                                    storage@[k].parents@.contains(p) && !result0.contains(p)
                                        && #[trigger] result@.contains(p);
                                assert(storage@[k].parents@.contains(p) && !result0.contains(p))
                                    by {
                                    let p2 = choose|p2: u64|
                                        #[trigger] storage@[k].parents@.contains(p2)
                                            && !result0.contains(p2);
                                    assert(result@.contains(p2));
                                }
                                let j = choose|j: int| 0 <= j < result@.len() && result@[j] == p;
                                assert(j >= result0.len());
                                let a = j - result0.len();
                                assert(result@[j] == sel_ids(best@)[a]);
                                assert(best@[a].storage_id == p);
                                assert(crate::storage::child_edge(storage@, p, k)) by {
                                    assert(storage@[k].parents@.contains(p));
                                }
                                assert(storage@[best@[a].storage_id].children@.contains(k));
                            }
                        }
                        if self.contains_id(k) {
                        }
                        if result@.contains(k) {
                            let j = choose|j: int| 0 <= j < result@.len() && result@[j] == k;
                            if j < result0.len() {
                                assert(result0.contains(k));
                                assert(all_in(storage@[k].parents@, result0));
                                assert forall|x: u64|
                                    storage@[k].parents@.contains(x) implies result@.contains(
                                    x,
                                ) by {
                                    assert(result0.contains(x));
                                    let j2 = choose|j2: int|
                                        0 <= j2 < result0.len() && result0[j2] == x;
                                    assert(result@[j2] == x);
                                }
                            } else {
                                let a = j - result0.len();
                                assert(result@[j] == sel_ids(best@)[a]);
                                let e = best@[a];
                                assert(entries0.contains(e));
                                let i2 = choose|i2: int|
                                    0 <= i2 < entries0.len() && entries0[i2] == e;
                                assert(contains_entry_id(entries0, k)) by {
                                    assert(entries0[i2].storage_id == k);
                                }
                                assert(all_in(storage@[k].parents@, result0));
                                assert forall|x: u64|
                                    storage@[k].parents@.contains(x) implies result@.contains(
                                    x,
                                ) by {
                                    assert(result0.contains(x));
                                    let j2 = choose|j2: int|
                                        0 <= j2 < result0.len() && result0[j2] == x;
                                    assert(result@[j2] == x);
                                }
                            }
                        }
                    }
                    // The new result entries respect the topological order.
                    assert forall|j: int, p: u64|
                        0 <= j < result@.len() && (
                        #[trigger] storage@[result@[j]].parents@.contains(p)) implies exists|
                        j2: int,
                    |
                        0 <= j2 < j && result@[j2] == p by {
                        if j < result0.len() {
                            let j2 = choose|j2: int| 0 <= j2 < j && result0[j2] == p;
                            assert(result@[j2] == p);
                        } else {
                            let a = j - result0.len();
                            let e = best@[a];
                            assert(result@[j] == sel_ids(best@)[a]);
                            assert(e.storage_id == result@[j]);
                            assert(entries0.contains(e));
                            let i2 = choose|i2: int| 0 <= i2 < entries0.len() && entries0[i2] == e;
                            assert(contains_entry_id(entries0, e.storage_id)) by {
                                assert(entries0[i2].storage_id == e.storage_id);
                            }
                            assert(all_in(storage@[e.storage_id].parents@, result0));
                            assert(result0.contains(p));
                            let j2 = choose|j2: int| 0 <= j2 < result0.len() && result0[j2] == p;
                            assert(result@[j2] == p);
                        }
                    }
                    // Gas accounting over the pass.
                    assert(ids_gas_sum(storage@, result@) + gas_left == constraints.max_gas) by {
                        lemma_ids_gas_sum_concat(storage@, result0, sel_ids(best@));
                    }
                    lemma_result_entries_bound(storage, result@, self.entries@);
                }
            }
        }
        result
    }
}

/// Some entry of `s` stands for the resident `k`.
pub open spec fn contains_entry_id(s: Seq<SelectionEntry>, k: u64) -> bool {
    exists|i: int| 0 <= i < s.len() && (#[trigger] s[i]).storage_id == k
}

} // verus!

verus! {

/// What the selection algorithm needs from the transaction store: record
/// lookup and the direct dependents of a resident.
pub trait RatioTipGasSelectionAlgorithmStorage {
    /// The residents, as a map from stable index to record.
    spec fn resident_map(&self) -> Map<u64, StorageData>;

    /// The store's own well-formedness.
    spec fn inv(&self) -> bool;

    /// The record of the resident `index`, if it is resident.
    fn get(&self, index: &u64) -> (r: Option<&StorageData>)
        requires
            self.inv(),
        ensures
            match r {
                Some(d) => self.resident_map().contains_key(*index) && *d == self.resident_map()[*index],
                None => !self.resident_map().contains_key(*index),
            },
    ;

    /// The direct dependents of the resident `index`; empty when it is not
    /// resident.
    fn get_dependents(&self, index: &u64) -> (r: Vec<u64>)
        requires
            self.inv(),
        ensures
            r@ == if self.resident_map().contains_key(*index) {
                self.resident_map()[*index].children@
            } else {
                Seq::<u64>::empty()
            },
    ;
}

impl RatioTipGasSelectionAlgorithmStorage for Storage {
    open spec fn resident_map(&self) -> Map<u64, StorageData> {
        self@
    }

    open spec fn inv(&self) -> bool {
        self.wf()
    }

    fn get(&self, index: &u64) -> (r: Option<&StorageData>) {
        self.get(*index)
    }

    fn get_dependents(&self, index: &u64) -> (r: Vec<u64>) {
        match self.get(*index) {
            Some(d) => copy_indices(&d.children),
            None => Vec::new(),
        }
    }
}

} // verus!
