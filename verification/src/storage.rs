//! The dependency-graph substrate of the pool. Residents are keyed by an
//! opaque stable index; parent/child edges reflect "consumes an output of";
//! each resident carries cumulative aggregates over itself and its
//! descendants.

use vstd::prelude::*;
use crate::assoc::{assoc_map, distinct_keys, has_key};
use crate::assoc::{
    lemma_assoc_map_absent, lemma_assoc_map_contains, lemma_assoc_map_index, lemma_assoc_map_len,
    lemma_assoc_map_push, lemma_assoc_map_remove,
};
use crate::error::{CollisionError, CollisionReason, Error};
use crate::ratio::{lemma_ratio_eqv_lt, lemma_ratio_eqv_trans, lemma_ratio_lt_eqv, lemma_ratio_lt_trans, ratio_eqv, ratio_less, ratio_lt};
use crate::state_view::StateView;
use crate::types::{contains_index, copy_indices, remove_value, sat_add64, sat_sub64};
use crate::types::{tx_id_less, tx_id_lt, ContractId, Input, Output, PoolTransaction, UtxoId};

verus! {

/// The record of one resident transaction.
#[derive(Debug, Clone, PartialEq, Eq)]
pub struct StorageData {
    /// The resident transaction itself.
    pub transaction: PoolTransaction,
    /// Monotonic timestamp assigned when the transaction entered the pool.
    pub creation_instant: u64,
    /// Indices of the residents whose outputs this transaction consumes.
    pub parents: Vec<u64>,
    /// Indices of the residents that consume outputs of this transaction.
    pub children: Vec<u64>,
    /// Sum of `max_gas` over this transaction and its descendants.
    pub dependents_cumulative_gas: u64,
    /// Sum of `metered_bytes_size` over this transaction and its descendants.
    pub dependents_cumulative_bytes_size: u64,
    /// Sum of `tip` over this transaction and its descendants.
    pub dependents_cumulative_tip: u64,
}

/// The dependency graph: an association vector from stable index to resident
/// record, with a fresh-index counter.
pub struct Storage {
    /// The residents, keyed by stable index.
    pub entries: Vec<(u64, StorageData)>,
    /// The next index to hand out; larger than every index in use.
    pub next_index: u64,
}

impl View for Storage {
    type V = Map<u64, StorageData>;

    open spec fn view(&self) -> Map<u64, StorageData> {
        assoc_map(self.entries@)
    }
}

/// Both endpoints are resident and the edge is recorded on both sides.
pub open spec fn child_edge(m: Map<u64, StorageData>, p: u64, c: u64) -> bool {
    &&& m.contains_key(p)
    &&& m.contains_key(c)
    &&& m[p].children@.contains(c)
    &&& m[c].parents@.contains(p)
}

/// `b` is `a` itself or a transitive descendant of `a`. Edges only point from
/// smaller to larger indices, which bounds the recursion.
pub open spec fn reaches(m: Map<u64, StorageData>, a: u64, b: u64) -> bool
    decreases b - a,
{
    ||| a == b
    ||| (a < b && m.contains_key(a) && exists|c: u64|
        #[trigger] m[a].children@.contains(c) && a < c <= b && reaches(m, c, b))
}

impl Storage {
    /// Every index in use is below the fresh-index counter.
    pub open spec fn keys_bounded(&self) -> bool {
        forall|k: u64| #[trigger] self@.contains_key(k) ==> k < self.next_index
    }

    /// Every resident consumes gas and its aggregates are at least its own
    /// weights.
    pub open spec fn data_wf(d: StorageData) -> bool {
        &&& d.transaction.max_gas >= 1
        &&& d.dependents_cumulative_gas >= d.transaction.max_gas
        &&& d.dependents_cumulative_bytes_size >= d.transaction.metered_bytes_size
        &&& d.dependents_cumulative_tip >= d.transaction.tip
    }

    /// No two residents share a transaction id.
    pub open spec fn tx_ids_distinct(&self) -> bool {
        forall|k1: u64, k2: u64|
            #![trigger self@[k1], self@[k2]]
            self@.contains_key(k1) && self@.contains_key(k2) && k1 != k2
                ==> self@[k1].transaction.id != self@[k2].transaction.id
    }

    /// Parent and child lists carry each edge exactly once, on both sides,
    /// and edges only point from smaller to larger indices.
    pub open spec fn edges_wf(&self) -> bool {
        let m = self@;
        &&& forall|p: u64, c: u64|
            m.contains_key(p) && (#[trigger] m[p].children@.contains(c)) ==> child_edge(m, p, c)
                && p < c
        &&& forall|c: u64, p: u64|
            m.contains_key(c) && (#[trigger] m[c].parents@.contains(p)) ==> child_edge(m, p, c)
                && p < c
        &&& forall|k: u64|
            #[trigger] m.contains_key(k) ==> m[k].children@.no_duplicates() && m[k].parents@.no_duplicates()
    }

    /// The full well-formedness of the graph.
    pub open spec fn wf(&self) -> bool {
        &&& distinct_keys(self.entries@)
        &&& self.keys_bounded()
        &&& forall|k: u64| #[trigger] self@.contains_key(k) ==> Self::data_wf(self@[k])
        &&& self.tx_ids_distinct()
        &&& self.edges_wf()
    }

    /// An empty graph.
    pub fn new() -> (r: Self)
        ensures
            r.wf(),
            r@ =~= Map::<u64, StorageData>::empty(),
            r.next_index == 0,
    {
        let r = Storage { entries: Vec::new(), next_index: 0 };
        proof {
            assert(r.entries@.len() == 0);
        }
        r
    }

    /// The number of residents.
    pub fn count(&self) -> (r: usize)
        requires
            self.wf(),
        ensures
            r == self.entries@.len(),
            r == self@.dom().len(),
            self@.dom().finite(),
    {
        proof {
            lemma_assoc_map_len(self.entries@);
        }
        self.entries.len()
    }

    /// The position of `index` in the underlying vector.
    fn position_of(&self, index: u64) -> (r: Option<usize>)
        ensures
            match r {
                Some(i) => i < self.entries@.len() && self.entries@[i as int].0 == index,
                None => !has_key(self.entries@, index) && !self@.contains_key(index),
            },
    {
        let n = self.entries.len();
        let mut i: usize = 0;
        while i < n
            invariant
                0 <= i <= n,
                n == self.entries@.len(),
                forall|j: int| 0 <= j < i ==> (#[trigger] self.entries@[j]).0 != index,
            decreases n - i,
        {
            if self.entries[i].0 == index {
                return Some(i);
            }
            i += 1;
        }
        proof {
            lemma_assoc_map_absent(self.entries@, index);
        }
        None
    }

    /// The record of the resident `index`, if it is resident.
    pub fn get(&self, index: u64) -> (r: Option<&StorageData>)
        requires
            self.wf(),
        ensures
            match r {
                Some(d) => self@.contains_key(index) && *d == self@[index],
                None => !self@.contains_key(index),
            },
    {
        match self.position_of(index) {
            Some(i) => {
                proof {
                    lemma_assoc_map_index(self.entries@, i as int);
                }
                Some(&self.entries[i].1)
            },
            None => None,
        }
    }

    /// The record of the resident `index`, which must be resident.
    pub(crate) fn get_must(&self, index: u64) -> (r: &StorageData)
        requires
            distinct_keys(self.entries@),
            self@.contains_key(index),
        ensures
            *r == self@[index],
    {
        proof {
            lemma_assoc_map_contains(self.entries@, index);
        }
        let pos = self.position_of(index);
        let i = pos.unwrap();
        proof {
            lemma_assoc_map_index(self.entries@, i as int);
        }
        &self.entries[i].1
    }

    /// Removes and returns the record of `index`, leaving the rest of the
    /// graph untouched.
    fn take_data(&mut self, index: u64) -> (r: StorageData)
        requires
            distinct_keys(old(self).entries@),
            old(self)@.contains_key(index),
        ensures
            r == old(self)@[index],
            final(self)@ =~= old(self)@.remove(index),
            distinct_keys(final(self).entries@),
            final(self).entries@.len() == old(self).entries@.len() - 1,
            final(self).next_index == old(self).next_index,
            exists|i: int|
                0 <= i < old(self).entries@.len() && old(self).entries@[i] == (index, r)
                    && final(self).entries@ == old(self).entries@.remove(i),
    {
        proof {
            lemma_assoc_map_contains(self.entries@, index);
        }
        let pos = self.position_of(index);
        let i = pos.unwrap();
        proof {
            lemma_assoc_map_index(self.entries@, i as int);
            lemma_assoc_map_remove(self.entries@, i as int);
        }
        let ghost oldseq = self.entries@;
        let pair = self.entries.remove(i);
        proof {
            assert(oldseq[i as int] == (index, pair.1));
            assert(self.entries@ == oldseq.remove(i as int));
        }
        pair.1
    }

    /// Writes `d` as the record of `index`, which must not be present.
    fn put_data(&mut self, index: u64, d: StorageData)
        requires
            distinct_keys(old(self).entries@),
            !old(self)@.contains_key(index),
        ensures
            final(self)@ =~= old(self)@.insert(index, d),
            distinct_keys(final(self).entries@),
            final(self).entries@.len() == old(self).entries@.len() + 1,
            final(self).next_index == old(self).next_index,
            final(self).entries@ == old(self).entries@.push((index, d)),
    {
        proof {
            lemma_assoc_map_contains(self.entries@, index);
            lemma_assoc_map_push(self.entries@, index, d);
        }
        self.entries.push((index, d));
    }
}

} // verus!

verus! {

/// Resident `k` produces the coin `u`: it is the transaction `u.tx_id` and
/// its output number `u.output_index` is a coin.
pub open spec fn produces_coin(m: Map<u64, StorageData>, u: UtxoId, k: u64) -> bool {
    &&& m.contains_key(k)
    &&& m[k].transaction.id == u.tx_id
    &&& u.output_index < m[k].transaction.outputs@.len()
    &&& m[k].transaction.outputs@[u.output_index as int] is Coin
}

/// Resident `k` creates the contract `c`.
pub open spec fn creates_contract(m: Map<u64, StorageData>, c: ContractId, k: u64) -> bool {
    &&& m.contains_key(k)
    &&& exists|j: int|
        0 <= j < m[k].transaction.outputs@.len() && m[k].transaction.outputs@[j] == (
        Output::ContractCreated { contract_id: c })
}

/// Input `inp` references an output produced by resident `k`.
pub open spec fn input_matches(m: Map<u64, StorageData>, inp: Input, k: u64) -> bool {
    match inp {
        Input::Coin { utxo_id, .. } => produces_coin(m, utxo_id, k),
        Input::Contract { contract_id } => creates_contract(m, contract_id, k),
        Input::Message { .. } => false,
    }
}

/// Some input among `inputs` references an output produced by resident `k`.
pub open spec fn dep_of_inputs(m: Map<u64, StorageData>, inputs: Seq<Input>, k: u64) -> bool {
    exists|j: int| 0 <= j < inputs.len() && #[trigger] input_matches(m, inputs[j], k)
}

/// Resident `k` produces an output that `tx` consumes.
pub open spec fn is_dependency(m: Map<u64, StorageData>, tx: &PoolTransaction, k: u64) -> bool {
    dep_of_inputs(m, tx.inputs@, k)
}

/// The verdict of input validation on one input: a coin must exist on chain
/// or be produced by a resident; a message nonce must be present and
/// unconsumed; a contract must be deployed or created by a resident.
pub open spec fn input_validity_verdict(
    m: Map<u64, StorageData>,
    view: StateView,
    inp: Input,
) -> Option<Error> {
    match inp {
        Input::Coin { utxo_id, .. } => if view.coins@.contains(utxo_id) || exists|k: u64|
            produces_coin(m, utxo_id, k) {
            None
        } else {
            Some(Error::NotInsertedInputUtxo(utxo_id))
        },
        Input::Message { nonce, .. } => if view.messages@.contains(nonce) {
            None
        } else {
            Some(Error::NotInsertedMessageNonce(nonce))
        },
        Input::Contract { contract_id } => if view.contracts@.contains(contract_id) || exists|
            k: u64,
        | creates_contract(m, contract_id, k) {
            None
        } else {
            Some(Error::NotInsertedContract(contract_id))
        },
    }
}

/// The verdict of input validation on a sequence of inputs: the verdict of
/// the first failing input, in input order.
pub open spec fn inputs_validity_verdict(
    m: Map<u64, StorageData>,
    view: StateView,
    inputs: Seq<Input>,
) -> Option<Error>
    decreases inputs.len(),
{
    if inputs.len() == 0 {
        None
    } else {
        match input_validity_verdict(m, view, inputs[0]) {
            Some(e) => Some(e),
            None => inputs_validity_verdict(m, view, inputs.drop_first()),
        }
    }
}

impl Storage {
    /// Whether the entry at position `j` produces an output that `inp`
    /// references.
    fn entry_matches_input(&self, j: usize, inp: &Input) -> (r: bool)
        requires
            self.wf(),
            j < self.entries@.len(),
        ensures
            r == input_matches(self@, *inp, self.entries@[j as int].0),
    {
        proof {
            lemma_assoc_map_index(self.entries@, j as int);
        }
        let d = &self.entries[j].1;
        match inp {
            Input::Coin { utxo_id, .. } => {
                if d.transaction.id == utxo_id.tx_id && (utxo_id.output_index as usize)
                    < d.transaction.outputs.len() {
                    let out = &d.transaction.outputs[utxo_id.output_index as usize];
                    match out {
                        Output::Coin { .. } => true,
                        _ => false,
                    }
                } else {
                    false
                }
            },
            Input::Contract { contract_id } => output_creates(
                &d.transaction.outputs,
                *contract_id,
            ),
            Input::Message { .. } => false,
        }
    }

    /// The resident producing the coin `u`, if any.
    fn find_coin_producer(&self, u: UtxoId) -> (r: Option<u64>)
        requires
            self.wf(),
        ensures
            match r {
                Some(k) => produces_coin(self@, u, k),
                None => forall|k: u64| !produces_coin(self@, u, k),
            },
    {
        let n = self.entries.len();
        let mut i: usize = 0;
        while i < n
            invariant
                0 <= i <= n,
                n == self.entries@.len(),
                self.wf(),
                forall|j: int|
                    0 <= j < i ==> !input_matches(
                        self@,
                        Input::Coin {
                            utxo_id: u,
                            owner: crate::types::Address { hi: 0, lo: 0 },
                            asset_id: crate::types::AssetId { hi: 0, lo: 0 },
                            predicate_root: None,
                        },
                        (#[trigger] self.entries@[j]).0,
                    ),
            decreases n - i,
        {
            let ghost inp = Input::Coin {
                utxo_id: u,
                owner: crate::types::Address { hi: 0, lo: 0 },
                asset_id: crate::types::AssetId { hi: 0, lo: 0 },
                predicate_root: None,
            };
            if self.entry_matches_input(
                i,
                &(Input::Coin {
                    utxo_id: u,
                    owner: crate::types::Address { hi: 0, lo: 0 },
                    asset_id: crate::types::AssetId { hi: 0, lo: 0 },
                    predicate_root: None,
                }),
            ) {
                return Some(self.entries[i].0);
            }
            i += 1;
        }
        proof {
            assert forall|k: u64| !produces_coin(self@, u, k) by {
                if produces_coin(self@, u, k) {
                    lemma_assoc_map_contains(self.entries@, k);
                    let j = choose|j: int|
                        0 <= j < self.entries@.len() && self.entries@[j].0 == k;
                    lemma_assoc_map_index(self.entries@, j);
                }
            }
        }
        None
    }

    /// The resident creating the contract `c`, if any.
    fn find_contract_creator(&self, c: ContractId) -> (r: Option<u64>)
        requires
            self.wf(),
        ensures
            match r {
                Some(k) => creates_contract(self@, c, k),
                None => forall|k: u64| !creates_contract(self@, c, k),
            },
    {
        let n = self.entries.len();
        let mut i: usize = 0;
        while i < n
            invariant
                0 <= i <= n,
                n == self.entries@.len(),
                self.wf(),
                forall|j: int|
                    0 <= j < i ==> !input_matches(
                        self@,
                        Input::Contract { contract_id: c },
                        (#[trigger] self.entries@[j]).0,
                    ),
            decreases n - i,
        {
            if self.entry_matches_input(i, &(Input::Contract { contract_id: c })) {
                return Some(self.entries[i].0);
            }
            i += 1;
        }
        proof {
            assert forall|k: u64| !creates_contract(self@, c, k) by {
                if creates_contract(self@, c, k) {
                    lemma_assoc_map_contains(self.entries@, k);
                    let j = choose|j: int|
                        0 <= j < self.entries@.len() && self.entries@[j].0 == k;
                    lemma_assoc_map_index(self.entries@, j);
                }
            }
        }
        None
    }

    /// The residents whose outputs `tx` consumes: for each input referencing
    /// a pool-resident output, the producing residents, without duplicates.
    pub fn collect_transaction_dependencies(&self, tx: &PoolTransaction) -> (r: Vec<u64>)
        requires
            self.wf(),
        ensures
            r@.no_duplicates(),
            forall|k: u64| #[trigger] r@.contains(k) ==> is_dependency(self@, tx, k),
            forall|k: u64| is_dependency(self@, tx, k) ==> #[trigger] r@.contains(k),
            forall|k: u64| #[trigger] r@.contains(k) ==> self@.contains_key(k),
    {
        let n = tx.inputs.len();
        let mut deps: Vec<u64> = Vec::new();
        let mut i: usize = 0;
        while i < n
            invariant
                0 <= i <= n,
                n == tx.inputs@.len(),
                self.wf(),
                deps@.no_duplicates(),
                forall|x: u64| #[trigger] deps@.contains(x) ==> self@.contains_key(x),
                forall|x: u64| #[trigger] deps@.contains(x) ==> dep_of_inputs(
                    self@,
                    tx.inputs@.take(i as int),
                    x,
                ),
                forall|x: u64| dep_of_inputs(self@, tx.inputs@.take(i as int), x)
                    ==> #[trigger] deps@.contains(x),
            decreases n - i,
        {
            let ghost prefix = tx.inputs@.take(i as int);
            let ghost prefix2 = tx.inputs@.take(i as int + 1);
            let ghost inp = tx.inputs@[i as int];
            proof {
                assert forall|j: int| 0 <= j < prefix.len() implies prefix[j]
                    == #[trigger] prefix2[j] by {}
                assert(prefix2[i as int] == inp);
            }
            let m = self.entries.len();
            let mut e: usize = 0;
            while e < m
                invariant
                    0 <= e <= m,
                    m == self.entries@.len(),
                    self.wf(),
                    i < n,
                    n == tx.inputs@.len(),
                    inp == tx.inputs@[i as int],
                    prefix == tx.inputs@.take(i as int),
                    deps@.no_duplicates(),
                    forall|x: u64| #[trigger] deps@.contains(x) ==> self@.contains_key(x),
                    forall|x: u64| #[trigger] deps@.contains(x) ==> dep_of_inputs(self@, prefix, x)
                        || input_matches(self@, inp, x),
                    forall|x: u64| dep_of_inputs(self@, prefix, x) ==> #[trigger] deps@.contains(
                        x,
                    ),
                    forall|j: int|
                        0 <= j < e && input_matches(self@, inp, (#[trigger] self.entries@[j]).0)
                            ==> deps@.contains(self.entries@[j].0),
                decreases m - e,
            {
                let matched = self.entry_matches_input(e, &tx.inputs[i]);
                if matched {
                    let k = self.entries[e].0;
                    if !contains_index(&deps, k) {
                        let ghost deps0 = deps@;
                        deps.push(k);
                        proof {
                            lemma_assoc_map_index(self.entries@, e as int);
                            assert forall|x: u64| #[trigger] deps@.contains(x) implies deps0.contains(x)
                                || x == k by {
                                let idx = choose|idx: int|
                                    0 <= idx < deps@.len() && deps@[idx] == x;
                                if idx < deps0.len() {
                                    assert(deps0[idx] == x);
                                }
                            }
                            assert forall|x: u64| deps0.contains(x) implies #[trigger] deps@.contains(
                                x,
                            ) by {
                                let idx = choose|idx: int|
                                    0 <= idx < deps0.len() && deps0[idx] == x;
                                assert(deps@[idx] == x);
                            }
                            assert(deps@[deps0.len() as int] == k);
                            assert forall|a: int, b: int|
                                0 <= a < b < deps@.len() implies deps@[a] != deps@[b] by {
                                if b < deps0.len() {
                                    assert(deps0[a] == deps@[a] && deps0[b] == deps@[b]);
                                } else {
                                    assert(deps@[b] == k);
                                    assert(deps0[a] == deps@[a]);
                                    if deps@[a] == k {
                                        assert(deps0.contains(k));
                                    }
                                }
                            }
                        }
                    }
                }
                e += 1;
            }
            proof {
                assert forall|x: u64| #[trigger] deps@.contains(x) implies dep_of_inputs(
                    self@,
                    prefix2,
                    x,
                ) by {
                    if dep_of_inputs(self@, prefix, x) {
                        let j = choose|j: int|
                            0 <= j < prefix.len() && #[trigger] input_matches(self@, prefix[j], x);
                        assert(input_matches(self@, prefix2[j], x));
                    } else {
                        assert(input_matches(self@, inp, x));
                        assert(input_matches(self@, prefix2[i as int], x));
                    }
                }
                assert forall|x: u64| dep_of_inputs(self@, prefix2, x) implies #[trigger] deps@.contains(
                    x,
                ) by {
                    let j = choose|j: int|
                        0 <= j < prefix2.len() && #[trigger] input_matches(self@, prefix2[j], x);
                    if j < i as int {
                        assert(prefix[j] == prefix2[j]);
                        assert(dep_of_inputs(self@, prefix, x));
                    } else {
                        assert(input_matches(self@, inp, x));
                        lemma_assoc_map_contains(self.entries@, x);
                        let jj = choose|jj: int|
                            0 <= jj < self.entries@.len() && self.entries@[jj].0 == x;
                        assert(input_matches(self@, inp, self.entries@[jj].0));
                    }
                }
            }
            i += 1;
            proof {
                assert(tx.inputs@.take(i as int) =~= prefix2);
            }
        }
        proof {
            assert(tx.inputs@.take(n as int) =~= tx.inputs@);
        }
        deps
    }

    /// Validates every input of `tx` against the snapshot `view` and the
    /// pool's own output projection; returns the first failure in input
    /// order. With `utxo_validation` false the checks are skipped.
    pub fn validate_inputs(
        &self,
        tx: &PoolTransaction,
        view: &StateView,
        utxo_validation: bool,
    ) -> (r: Result<(), Error>)
        requires
            self.wf(),
        ensures
            r == if !utxo_validation {
                Ok::<(), Error>(())
            } else {
                match inputs_validity_verdict(self@, *view, tx.inputs@) {
                    Some(e) => Err::<(), Error>(e),
                    None => Ok::<(), Error>(()),
                }
            },
    {
        if !utxo_validation {
            return Ok(());
        }
        let n = tx.inputs.len();
        proof {
            assert(tx.inputs@.skip(0) =~= tx.inputs@);
        }
        let mut i: usize = 0;
        while i < n
            invariant
                0 <= i <= n,
                n == tx.inputs@.len(),
                self.wf(),
                utxo_validation,
                inputs_validity_verdict(self@, *view, tx.inputs@) == inputs_validity_verdict(
                    self@,
                    *view,
                    tx.inputs@.skip(i as int),
                ),
            decreases n - i,
        {
            proof {
                assert(tx.inputs@.skip(i as int)[0] == tx.inputs@[i as int]);
                assert(tx.inputs@.skip(i as int).drop_first() =~= tx.inputs@.skip(i as int + 1));
            }
            let verdict: Option<Error> = match tx.inputs[i] {
                Input::Coin { utxo_id, .. } => {
                    if view.coin_exists(utxo_id) {
                        None
                    } else if self.find_coin_producer(utxo_id).is_some() {
                        None
                    } else {
                        Some(Error::NotInsertedInputUtxo(utxo_id))
                    }
                },
                Input::Message { nonce, .. } => {
                    if view.message_exists(nonce) {
                        None
                    } else {
                        Some(Error::NotInsertedMessageNonce(nonce))
                    }
                },
                Input::Contract { contract_id } => {
                    if view.contract_exists(contract_id) {
                        None
                    } else if self.find_contract_creator(contract_id).is_some() {
                        None
                    } else {
                        Some(Error::NotInsertedContract(contract_id))
                    }
                },
            };
            if let Some(e) = verdict {
                assert(input_validity_verdict(self@, *view, tx.inputs@[i as int]) == Some(e));
                return Err(e);
            }
            assert(input_validity_verdict(self@, *view, tx.inputs@[i as int]) is None);
            i += 1;
        }
        assert(tx.inputs@.skip(n as int) =~= Seq::<Input>::empty());
        Ok(())
    }
}

/// Whether some output among `outputs` creates the contract `c`.
fn output_creates(outputs: &Vec<Output>, c: ContractId) -> (r: bool)
    ensures
        r == exists|j: int|
            0 <= j < outputs@.len() && outputs@[j] == (Output::ContractCreated { contract_id: c }),
{
    let n = outputs.len();
    let mut i: usize = 0;
    while i < n
        invariant
            0 <= i <= n,
            n == outputs@.len(),
            forall|j: int|
                0 <= j < i ==> outputs@[j] != (Output::ContractCreated { contract_id: c }),
        decreases n - i,
    {
        if outputs[i] == (Output::ContractCreated { contract_id: c }) {
            return true;
        }
        i += 1;
    }
    false
}

} // verus!

verus! {

/// Sum of `max_gas` over the entries.
pub open spec fn sum_gas(s: Seq<(u64, StorageData)>) -> int
    decreases s.len(),
{
    if s.len() == 0 {
        0
    } else {
        sum_gas(s.drop_last()) + s.last().1.transaction.max_gas
    }
}

/// Sum of `metered_bytes_size` over the entries.
pub open spec fn sum_bytes(s: Seq<(u64, StorageData)>) -> int
    decreases s.len(),
{
    if s.len() == 0 {
        0
    } else {
        sum_bytes(s.drop_last()) + s.last().1.transaction.metered_bytes_size
    }
}

/// Sum of `tip` over the entries.
pub open spec fn sum_tip(s: Seq<(u64, StorageData)>) -> int
    decreases s.len(),
{
    if s.len() == 0 {
        0
    } else {
        sum_tip(s.drop_last()) + s.last().1.transaction.tip
    }
}

/// Sum of `max_gas` over a list of transactions.
pub open spec fn sum_tx_gas(s: Seq<PoolTransaction>) -> int
    decreases s.len(),
{
    if s.len() == 0 {
        0
    } else {
        sum_tx_gas(s.drop_last()) + s.last().max_gas
    }
}

/// Sum of `metered_bytes_size` over a list of transactions.
pub open spec fn sum_tx_bytes(s: Seq<PoolTransaction>) -> int
    decreases s.len(),
{
    if s.len() == 0 {
        0
    } else {
        sum_tx_bytes(s.drop_last()) + s.last().metered_bytes_size
    }
}

/// Removing the entry at `i` subtracts its weights from the sums.
pub proof fn lemma_sum_remove(s: Seq<(u64, StorageData)>, i: int)
    requires
        0 <= i < s.len(),
    ensures
        sum_gas(s.remove(i)) == sum_gas(s) - s[i].1.transaction.max_gas,
        sum_bytes(s.remove(i)) == sum_bytes(s) - s[i].1.transaction.metered_bytes_size,
    decreases s.len(),
{
    if i == s.len() - 1 {
        assert(s.remove(i) =~= s.drop_last());
    } else {
        let sr = s.remove(i);
        assert(sr.drop_last() =~= s.drop_last().remove(i));
        assert(sr.last() == s.last());
        assert(s.drop_last()[i] == s[i]);
        lemma_sum_remove(s.drop_last(), i);
    }
}

/// Appending an entry adds its weights to the sums.
pub proof fn lemma_sum_push(s: Seq<(u64, StorageData)>, p: (u64, StorageData))
    ensures
        sum_gas(s.push(p)) == sum_gas(s) + p.1.transaction.max_gas,
        sum_bytes(s.push(p)) == sum_bytes(s) + p.1.transaction.metered_bytes_size,
{
    assert(s.push(p).drop_last() =~= s);
}

/// Appending a transaction adds its weights to the sums.
pub proof fn lemma_sum_tx_push(s: Seq<PoolTransaction>, t: PoolTransaction)
    ensures
        sum_tx_gas(s.push(t)) == sum_tx_gas(s) + t.max_gas,
        sum_tx_bytes(s.push(t)) == sum_tx_bytes(s) + t.metered_bytes_size,
{
    assert(s.push(t).drop_last() =~= s);
}

/// Reachability extends along an edge at its far end.
pub proof fn lemma_reaches_step(m: Map<u64, StorageData>, a: u64, b: u64, c: u64)
    requires
        reaches(m, a, b),
        m.contains_key(b),
        m[b].children@.contains(c),
        b < c,
    ensures
        reaches(m, a, c),
    decreases b - a,
{
    if a == b {
        assert(reaches(m, c, c));
    } else {
        let c2 = choose|c2: u64|
            #[trigger] m[a].children@.contains(c2) && a < c2 <= b && reaches(m, c2, b);
        lemma_reaches_step(m, c2, b, c);
        assert(m[a].children@.contains(c2) && a < c2 <= c && reaches(m, c2, c));
    }
}

/// Everything reachable from a member of a child-closed collection is in the
/// collection.
pub proof fn lemma_reaches_closed(m: Map<u64, StorageData>, root: u64, b: u64, s: Seq<u64>)
    requires
        reaches(m, root, b),
        s.contains(root),
        forall|k: u64, c: u64|
            #![trigger s.contains(k), m[k].children@.contains(c)]
            s.contains(k) && m.contains_key(k) && m[k].children@.contains(c) ==> s.contains(c),
    ensures
        s.contains(b),
    decreases b - root,
{
    if root == b {
    } else {
        let c = choose|c: u64|
            #[trigger] m[root].children@.contains(c) && root < c <= b && reaches(m, c, b);
        assert(s.contains(c));
        lemma_reaches_closed(m, c, b, s);
    }
}

/// A duplicate-free sequence of resident indices is no longer than the entry
/// vector.
pub proof fn lemma_resident_indices_bound(s_entries: Seq<(u64, StorageData)>, acc: Seq<u64>)
    requires
        distinct_keys(s_entries),
        acc.no_duplicates(),
        forall|x: u64| #[trigger] acc.contains(x) ==> assoc_map(s_entries).contains_key(x),
    ensures
        acc.len() <= s_entries.len(),
{
    acc.unique_seq_to_set();
    lemma_assoc_map_len(s_entries);
    assert(acc.to_set().subset_of(assoc_map(s_entries).dom()));
    vstd::set_lib::lemma_len_subset(acc.to_set(), assoc_map(s_entries).dom());
}

/// Appends `x` unless it is already present.
pub(crate) fn push_if_new(acc: &mut Vec<u64>, x: u64)
    requires
        old(acc)@.no_duplicates(),
    ensures
        final(acc)@.no_duplicates(),
        forall|y: u64| #[trigger] final(acc)@.contains(y) <==> old(acc)@.contains(y) || y == x,
        old(acc)@.len() <= final(acc)@.len() <= old(acc)@.len() + 1,
        forall|j: int| 0 <= j < old(acc)@.len() ==> final(acc)@[j] == old(acc)@[j],
        final(acc)@.contains(x),
{
    if !contains_index(acc, x) {
        let ghost acc0 = acc@;
        acc.push(x);
        proof {
            assert forall|y: u64| #[trigger] acc@.contains(y) implies acc0.contains(y) || y == x by {
                let j = choose|j: int| 0 <= j < acc@.len() && acc@[j] == y;
                if j < acc0.len() {
                    assert(acc0[j] == y);
                }
            }
            assert forall|y: u64| acc0.contains(y) implies #[trigger] acc@.contains(y) by {
                let j = choose|j: int| 0 <= j < acc0.len() && acc0[j] == y;
                assert(acc@[j] == y);
            }
            assert(acc@[acc0.len() as int] == x);
            assert forall|a: int, b: int| 0 <= a < b < acc@.len() implies acc@[a] != acc@[b] by {
                if b < acc0.len() {
                    assert(acc0[a] == acc@[a] && acc0[b] == acc@[b]);
                } else {
                    assert(acc@[b] == x);
                    assert(acc0[a] == acc@[a]);
                    if acc@[a] == x {
                        assert(acc0.contains(x));
                    }
                }
            }
        }
    }
}

impl Storage {
    /// Collects `root` and every transitive descendant, without duplicates.
    pub(crate) fn collect_subtree(&self, root: u64) -> (r: Vec<u64>)
        requires
            self.wf(),
            self@.contains_key(root),
        ensures
            r@.no_duplicates(),
            r@.contains(root),
            forall|x: u64| #[trigger] r@.contains(x) ==> self@.contains_key(x) && reaches(
                self@,
                root,
                x,
            ),
            forall|x: u64| self@.contains_key(x) && reaches(self@, root, x) ==> #[trigger] r@.contains(x),
            forall|k: u64, c: u64|
                #![trigger r@.contains(k), self@[k].children@.contains(c)]
                r@.contains(k) && self@.contains_key(k) && self@[k].children@.contains(c)
                    ==> r@.contains(c),
    {
        let mut acc: Vec<u64> = Vec::new();
        acc.push(root);
        proof {
            assert(acc@[0] == root);
            assert(reaches(self@, root, root));
            assert forall|x: u64| #[trigger] acc@.contains(x) implies x == root by {
                let j = choose|j: int| 0 <= j < acc@.len() && acc@[j] == x;
            }
        }
        let mut qi: usize = 0;
        while qi < acc.len()
            invariant
                self.wf(),
                self@.contains_key(root),
                qi <= acc@.len(),
                acc@.no_duplicates(),
                acc@.contains(root),
                forall|x: u64| #[trigger] acc@.contains(x) ==> self@.contains_key(x) && reaches(
                    self@,
                    root,
                    x,
                ),
                forall|j: int, c: u64|
                    #![trigger self@[acc@[j]].children@.contains(c)]
                    0 <= j < qi && self@[acc@[j]].children@.contains(c) ==> acc@.contains(c),
            decreases self.entries@.len() - qi,
        {
            proof {
                lemma_resident_indices_bound(self.entries@, acc@);
            }
            let k = acc[qi];
            proof {
                assert(acc@.contains(k));
            }
            let kids = copy_indices(&self.get_must(k).children);
            let ghost acc_at_start = acc@;
            let mut ci: usize = 0;
            while ci < kids.len()
                invariant
                    self.wf(),
                    self@.contains_key(root),
                    self@.contains_key(k),
                    kids@ == self@[k].children@,
                    qi < acc@.len(),
                    acc@[qi as int] == k,
                    ci <= kids@.len(),
                    acc@.no_duplicates(),
                    acc@.contains(root),
                    forall|x: u64| #[trigger] acc@.contains(x) ==> self@.contains_key(x)
                        && reaches(self@, root, x),
                    forall|j: int, c: u64|
                        #![trigger self@[acc@[j]].children@.contains(c)]
                        0 <= j < qi && self@[acc@[j]].children@.contains(c) ==> acc@.contains(c),
                    forall|j: int| 0 <= j < ci ==> acc@.contains(kids@[j]),
                decreases kids@.len() - ci,
            {
                let c = kids[ci];
                proof {
                    assert(acc@.contains(k));
                    assert(self@[k].children@.contains(c));
                    assert(child_edge(self@, k, c));
                    assert(reaches(self@, root, k));
                    lemma_reaches_step(self@, root, k, c);
                }
                let ghost acc_before = acc@;
                push_if_new(&mut acc, c);
                proof {
                    assert forall|j: int, cc: u64|
                        #![trigger self@[acc@[j]].children@.contains(cc)]
                        0 <= j < qi && self@[acc@[j]].children@.contains(cc) implies acc@.contains(
                        cc,
                    ) by {
                        assert(acc@[j] == acc_before[j]);
                        assert(acc_before.contains(cc));
                    }
                    assert(acc@[qi as int] == acc_before[qi as int]);
                }
                ci += 1;
            }
            qi += 1;
            proof {
                assert forall|j: int, c: u64|
                    #![trigger self@[acc@[j]].children@.contains(c)]
                    0 <= j < qi && self@[acc@[j]].children@.contains(c) implies acc@.contains(
                    c,
                ) by {
                    if j == qi - 1 {
                        assert(acc@[j] == k);
                        assert(kids@.contains(c));
                        let jj = choose|jj: int| 0 <= jj < kids@.len() && kids@[jj] == c;
                    }
                }
            }
        }
        proof {
            assert forall|k2: u64, c: u64|
                #![trigger acc@.contains(k2), self@[k2].children@.contains(c)]
                acc@.contains(k2) && self@.contains_key(k2) && self@[k2].children@.contains(
                c,
            ) implies acc@.contains(c) by {
                let j = choose|j: int| 0 <= j < acc@.len() && acc@[j] == k2;
            }
            assert forall|x: u64| self@.contains_key(x) && reaches(self@, root, x) implies acc@.contains(
                x,
            ) by {
                lemma_reaches_closed(self@, root, x, acc@);
            }
        }
        acc
    }

    /// Collects, without duplicates, every resident from which some seed can
    /// be reached by parent edges: the ancestors of the seeds, the seeds
    /// themselves included.
    pub(crate) fn collect_ancestors(&self, seeds: &Vec<u64>) -> (r: Vec<u64>)
        requires
            self.wf(),
            forall|x: u64| #[trigger] seeds@.contains(x) ==> self@.contains_key(x),
        ensures
            r@.no_duplicates(),
            forall|x: u64| #[trigger] r@.contains(x) ==> self@.contains_key(x),
            forall|x: u64| #[trigger] seeds@.contains(x) ==> r@.contains(x),
            forall|x: u64| #[trigger] r@.contains(x) ==> seeds@.contains(x) || exists|y: u64|
                r@.contains(y) && #[trigger] self@[y].parents@.contains(x),
    {
        let mut acc: Vec<u64> = Vec::new();
        let mut si: usize = 0;
        while si < seeds.len()
            invariant
                self.wf(),
                si <= seeds@.len(),
                acc@.no_duplicates(),
                forall|x: u64| #[trigger] seeds@.contains(x) ==> self@.contains_key(x),
                forall|x: u64| #[trigger] acc@.contains(x) ==> self@.contains_key(x),
                forall|j: int| 0 <= j < si ==> acc@.contains(seeds@[j]),
                forall|x: u64| #[trigger] acc@.contains(x) ==> seeds@.contains(x),
            decreases seeds@.len() - si,
        {
            proof {
                assert(seeds@.contains(seeds@[si as int]));
            }
            push_if_new(&mut acc, seeds[si]);
            si += 1;
            proof {
                assert forall|x: u64| #[trigger] acc@.contains(x) implies seeds@.contains(x) by {}
            }
        }
        let mut qi: usize = 0;
        while qi < acc.len()
            invariant
                self.wf(),
                qi <= acc@.len(),
                acc@.no_duplicates(),
                forall|x: u64| #[trigger] acc@.contains(x) ==> self@.contains_key(x),
                forall|x: u64| #[trigger] seeds@.contains(x) ==> acc@.contains(x),
                forall|x: u64| #[trigger] acc@.contains(x) ==> seeds@.contains(x) || exists|y: u64|
                    acc@.contains(y) && #[trigger] self@[y].parents@.contains(x),
            decreases self.entries@.len() - qi,
        {
            proof {
                lemma_resident_indices_bound(self.entries@, acc@);
            }
            let k = acc[qi];
            proof {
                assert(acc@.contains(k));
            }
            let folks = copy_indices(&self.get_must(k).parents);
            let mut ci: usize = 0;
            while ci < folks.len()
                invariant
                    self.wf(),
                    self@.contains_key(k),
                    qi < acc@.len(),
                    folks@ == self@[k].parents@,
                    ci <= folks@.len(),
                    acc@.no_duplicates(),
                    acc@.contains(k),
                    forall|x: u64| #[trigger] acc@.contains(x) ==> self@.contains_key(x),
                    forall|x: u64| #[trigger] seeds@.contains(x) ==> acc@.contains(x),
                    forall|x: u64| #[trigger] acc@.contains(x) ==> seeds@.contains(x) || exists|
                        y: u64,
                    | acc@.contains(y) && #[trigger] self@[y].parents@.contains(x),
                decreases folks@.len() - ci,
            {
                let p = folks[ci];
                proof {
                    assert(self@[k].parents@.contains(p));
                    assert(child_edge(self@, p, k));
                }
                let ghost acc0 = acc@;
                push_if_new(&mut acc, p);
                proof {
                    assert forall|x: u64| #[trigger] acc@.contains(x) implies seeds@.contains(x)
                        || exists|y: u64| acc@.contains(y) && #[trigger] self@[y].parents@.contains(
                        x,
                    ) by {
                        if acc0.contains(x) {
                            if !seeds@.contains(x) {
                                let y = choose|y: u64|
                                    acc0.contains(y) && #[trigger] self@[y].parents@.contains(x);
                                assert(acc@.contains(y));
                            }
                        } else {
                            assert(x == p);
                            assert(acc@.contains(k) && self@[k].parents@.contains(p));
                        }
                    }
                }
                ci += 1;
            }
            qi += 1;
        }
        acc
    }
}

} // verus!

verus! {

/// `a + b`, capped at the largest 64-bit value.
pub open spec fn sat_add_spec(a: u64, b: u64) -> u64 {
    if a + b <= u64::MAX {
        (a + b) as u64
    } else {
        u64::MAX
    }
}

/// `a - b`, floored at zero.
pub open spec fn sat_sub_spec(a: u64, b: u64) -> u64 {
    if a >= b {
        (a - b) as u64
    } else {
        0
    }
}

/// `cum - dec`, floored at `own`: an aggregate never falls below the node's
/// own weight.
pub open spec fn floor_sub_spec(cum: u64, dec: u64, own: u64) -> u64 {
    let s: u64 = if cum >= dec {
        (cum - dec) as u64
    } else {
        0
    };
    if s >= own {
        s
    } else {
        own
    }
}

/// `d` with `g`, `b` and `t` added (saturating) to its cumulative aggregates.
pub open spec fn with_bumped(d: StorageData, g: u64, b: u64, t: u64) -> StorageData {
    StorageData {
        dependents_cumulative_gas: sat_add_spec(d.dependents_cumulative_gas, g),
        dependents_cumulative_bytes_size: sat_add_spec(d.dependents_cumulative_bytes_size, b),
        dependents_cumulative_tip: sat_add_spec(d.dependents_cumulative_tip, t),
        ..d
    }
}

/// `d` with `g`, `b` and `t` subtracted from its cumulative aggregates,
/// floored at its own weights.
pub open spec fn with_debited(d: StorageData, g: u64, b: u64, t: u64) -> StorageData {
    StorageData {
        dependents_cumulative_gas: floor_sub_spec(
            d.dependents_cumulative_gas,
            g,
            d.transaction.max_gas,
        ),
        dependents_cumulative_bytes_size: floor_sub_spec(
            d.dependents_cumulative_bytes_size,
            b,
            d.transaction.metered_bytes_size,
        ),
        dependents_cumulative_tip: floor_sub_spec(d.dependents_cumulative_tip, t, d.transaction.tip),
        ..d
    }
}

impl Storage {
    /// Adds `g`, `b` and `t` to the cumulative aggregates of resident `k`.
    fn bump_aggregates(&mut self, k: u64, g: u64, b: u64, t: u64)
        requires
            distinct_keys(old(self).entries@),
            old(self)@.contains_key(k),
        ensures
            distinct_keys(final(self).entries@),
            final(self).next_index == old(self).next_index,
            final(self)@ =~= old(self)@.insert(k, with_bumped(old(self)@[k], g, b, t)),
            final(self).entries@.len() == old(self).entries@.len(),
            sum_gas(final(self).entries@) == sum_gas(old(self).entries@),
            sum_bytes(final(self).entries@) == sum_bytes(old(self).entries@),
    {
        let ghost pre = self.entries@;
        let mut d = self.take_data(k);
        proof {
            let i = choose|i: int|
                0 <= i < pre.len() && pre[i] == (k, old(self)@[k]) && self.entries@ == pre.remove(
                    i,
                );
            lemma_sum_remove(pre, i);
        }
        let ghost mid = self.entries@;
        d.dependents_cumulative_gas = sat_add64(d.dependents_cumulative_gas, g);
        d.dependents_cumulative_bytes_size = sat_add64(d.dependents_cumulative_bytes_size, b);
        d.dependents_cumulative_tip = sat_add64(d.dependents_cumulative_tip, t);
        proof {
            assert(d == with_bumped(old(self)@[k], g, b, t));
        }
        self.put_data(k, d);
        proof {
            lemma_sum_push(mid, (k, d));
        }
    }

    /// Subtracts `g`, `b` and `t` from the cumulative aggregates of resident
    /// `k`, floored at its own weights.
    fn debit_aggregates(&mut self, k: u64, g: u64, b: u64, t: u64)
        requires
            distinct_keys(old(self).entries@),
            old(self)@.contains_key(k),
        ensures
            distinct_keys(final(self).entries@),
            final(self).next_index == old(self).next_index,
            final(self)@ =~= old(self)@.insert(k, with_debited(old(self)@[k], g, b, t)),
            final(self).entries@.len() == old(self).entries@.len(),
            sum_gas(final(self).entries@) == sum_gas(old(self).entries@),
            sum_bytes(final(self).entries@) == sum_bytes(old(self).entries@),
    {
        let ghost pre = self.entries@;
        let mut d = self.take_data(k);
        proof {
            let i = choose|i: int|
                0 <= i < pre.len() && pre[i] == (k, old(self)@[k]) && self.entries@ == pre.remove(
                    i,
                );
            lemma_sum_remove(pre, i);
        }
        let ghost mid = self.entries@;
        let sg = sat_sub64(d.dependents_cumulative_gas, g);
        d.dependents_cumulative_gas = if sg >= d.transaction.max_gas {
            sg
        } else {
            d.transaction.max_gas
        };
        let sb = sat_sub64(d.dependents_cumulative_bytes_size, b);
        d.dependents_cumulative_bytes_size = if sb >= d.transaction.metered_bytes_size {
            sb
        } else {
            d.transaction.metered_bytes_size
        };
        let st = sat_sub64(d.dependents_cumulative_tip, t);
        d.dependents_cumulative_tip = if st >= d.transaction.tip {
            st
        } else {
            d.transaction.tip
        };
        proof {
            assert(d == with_debited(old(self)@[k], g, b, t));
        }
        self.put_data(k, d);
        proof {
            lemma_sum_push(mid, (k, d));
        }
    }

    /// Records `c` as a child of resident `p`.
    fn add_child(&mut self, p: u64, c: u64)
        requires
            distinct_keys(old(self).entries@),
            old(self)@.contains_key(p),
        ensures
            distinct_keys(final(self).entries@),
            final(self).next_index == old(self).next_index,
            final(self)@.dom() =~= old(self)@.dom(),
            forall|k: u64|
                #[trigger] final(self)@.contains_key(k) && k != p ==> final(self)@[k] == old(
                    self,
                )@[k],
            final(self)@[p].transaction == old(self)@[p].transaction,
            final(self)@[p].creation_instant == old(self)@[p].creation_instant,
            final(self)@[p].parents@ == old(self)@[p].parents@,
            final(self)@[p].dependents_cumulative_gas == old(self)@[p].dependents_cumulative_gas,
            final(self)@[p].dependents_cumulative_bytes_size == old(
                self,
            )@[p].dependents_cumulative_bytes_size,
            final(self)@[p].dependents_cumulative_tip == old(self)@[p].dependents_cumulative_tip,
            final(self)@[p].children@ == old(self)@[p].children@.push(c),
            final(self).entries@.len() == old(self).entries@.len(),
            sum_gas(final(self).entries@) == sum_gas(old(self).entries@),
            sum_bytes(final(self).entries@) == sum_bytes(old(self).entries@),
    {
        let ghost pre = self.entries@;
        let mut d = self.take_data(p);
        proof {
            let i = choose|i: int|
                0 <= i < pre.len() && pre[i] == (p, old(self)@[p]) && self.entries@ == pre.remove(
                    i,
                );
            lemma_sum_remove(pre, i);
        }
        let ghost mid = self.entries@;
        d.children.push(c);
        self.put_data(p, d);
        proof {
            lemma_sum_push(mid, (p, d));
        }
    }

    /// Deletes the edge record of child `c` on resident `p`'s side.
    fn remove_child(&mut self, p: u64, c: u64)
        requires
            distinct_keys(old(self).entries@),
            old(self)@.contains_key(p),
            old(self)@[p].children@.no_duplicates(),
        ensures
            distinct_keys(final(self).entries@),
            final(self).next_index == old(self).next_index,
            final(self)@.dom() =~= old(self)@.dom(),
            forall|k: u64|
                #[trigger] final(self)@.contains_key(k) && k != p ==> final(self)@[k] == old(
                    self,
                )@[k],
            final(self)@[p].transaction == old(self)@[p].transaction,
            final(self)@[p].creation_instant == old(self)@[p].creation_instant,
            final(self)@[p].parents@ == old(self)@[p].parents@,
            final(self)@[p].dependents_cumulative_gas == old(self)@[p].dependents_cumulative_gas,
            final(self)@[p].dependents_cumulative_bytes_size == old(
                self,
            )@[p].dependents_cumulative_bytes_size,
            final(self)@[p].dependents_cumulative_tip == old(self)@[p].dependents_cumulative_tip,
            final(self)@[p].children@.no_duplicates(),
            forall|y: u64| #[trigger]
                final(self)@[p].children@.contains(y) <==> old(self)@[p].children@.contains(y)
                    && y != c,
            final(self).entries@.len() == old(self).entries@.len(),
            sum_gas(final(self).entries@) == sum_gas(old(self).entries@),
            sum_bytes(final(self).entries@) == sum_bytes(old(self).entries@),
    {
        let ghost pre = self.entries@;
        let mut d = self.take_data(p);
        proof {
            let i = choose|i: int|
                0 <= i < pre.len() && pre[i] == (p, old(self)@[p]) && self.entries@ == pre.remove(
                    i,
                );
            lemma_sum_remove(pre, i);
        }
        let ghost mid = self.entries@;
        remove_value(&mut d.children, c);
        self.put_data(p, d);
        proof {
            lemma_sum_push(mid, (p, d));
        }
    }

    /// Deletes the edge record of parent `p` on resident `c`'s side.
    fn remove_parent(&mut self, c: u64, p: u64)
        requires
            distinct_keys(old(self).entries@),
            old(self)@.contains_key(c),
            old(self)@[c].parents@.no_duplicates(),
        ensures
            distinct_keys(final(self).entries@),
            final(self).next_index == old(self).next_index,
            final(self)@.dom() =~= old(self)@.dom(),
            forall|k: u64|
                #[trigger] final(self)@.contains_key(k) && k != c ==> final(self)@[k] == old(
                    self,
                )@[k],
            final(self)@[c].transaction == old(self)@[c].transaction,
            final(self)@[c].creation_instant == old(self)@[c].creation_instant,
            final(self)@[c].children@ == old(self)@[c].children@,
            final(self)@[c].dependents_cumulative_gas == old(self)@[c].dependents_cumulative_gas,
            final(self)@[c].dependents_cumulative_bytes_size == old(
                self,
            )@[c].dependents_cumulative_bytes_size,
            final(self)@[c].dependents_cumulative_tip == old(self)@[c].dependents_cumulative_tip,
            final(self)@[c].parents@.no_duplicates(),
            forall|y: u64| #[trigger]
                final(self)@[c].parents@.contains(y) <==> old(self)@[c].parents@.contains(y) && y
                    != p,
            final(self).entries@.len() == old(self).entries@.len(),
            sum_gas(final(self).entries@) == sum_gas(old(self).entries@),
            sum_bytes(final(self).entries@) == sum_bytes(old(self).entries@),
    {
        let ghost pre = self.entries@;
        let mut d = self.take_data(c);
        proof {
            let i = choose|i: int|
                0 <= i < pre.len() && pre[i] == (c, old(self)@[c]) && self.entries@ == pre.remove(
                    i,
                );
            lemma_sum_remove(pre, i);
        }
        let ghost mid = self.entries@;
        remove_value(&mut d.parents, p);
        self.put_data(c, d);
        proof {
            lemma_sum_push(mid, (c, d));
        }
    }
}

} // verus!

verus! {

impl Storage {
    /// Stores `tx` with dependencies `deps` as its parents: allocates a fresh
    /// index, links an edge from every dependency, initializes the record's
    /// aggregates from the transaction's own weights, and adds those weights
    /// to the aggregates of every ancestor.
    pub fn store_transaction(&mut self, tx: PoolTransaction, deps: Vec<u64>, creation_instant: u64) -> (r: u64)
        requires
            old(self).wf(),
            tx.well_formed(),
            old(self).next_index < u64::MAX,
            deps@.no_duplicates(),
            forall|k: u64| #[trigger] deps@.contains(k) ==> old(self)@.contains_key(k),
            forall|k: u64| #[trigger] old(self)@.contains_key(k) ==> old(self)@[k].transaction.id != tx.id,
        ensures
            final(self).wf(),
            r == old(self).next_index,
            final(self).next_index == old(self).next_index + 1,
            !old(self)@.contains_key(r),
            final(self)@.dom() =~= old(self)@.dom().insert(r),
            final(self)@[r].transaction == tx,
            final(self)@[r].creation_instant == creation_instant,
            final(self)@[r].parents@ == deps@,
            final(self)@[r].children@ == Seq::<u64>::empty(),
            final(self)@[r].dependents_cumulative_gas == tx.max_gas,
            final(self)@[r].dependents_cumulative_bytes_size == tx.metered_bytes_size,
            final(self)@[r].dependents_cumulative_tip == tx.tip,
            forall|k: u64| #[trigger] old(self)@.contains_key(k) ==> final(self)@.contains_key(k)
                && final(self)@[k].transaction == old(self)@[k].transaction
                && final(self)@[k].creation_instant == old(self)@[k].creation_instant
                && final(self)@[k].parents@ == old(self)@[k].parents@,
            forall|k: u64, c: u64|
                #![trigger old(self)@[k].children@.contains(c)]
                #![trigger final(self)@[k].children@.contains(c)]
                old(self)@.contains_key(k) ==> (final(self)@[k].children@.contains(c)
                    <==> old(self)@[k].children@.contains(c) || (deps@.contains(k) && c == r)),
            sum_gas(final(self).entries@) == sum_gas(old(self).entries@) + tx.max_gas,
            sum_bytes(final(self).entries@) == sum_bytes(old(self).entries@)
                + tx.metered_bytes_size,
            final(self).entries@.len() == old(self).entries@.len() + 1,
    {
        let idx = self.next_index;
        self.next_index = idx + 1;
        let ghost m0 = self@;
        proof {
            assert(!m0.contains_key(idx));
            assert forall|k: u64, c: u64|
                #![trigger m0[k].children@.contains(c)]
                m0.contains_key(k) && m0[k].children@.contains(c) implies c < idx by {
                assert(child_edge(m0, k, c));
            }
        }
        // Link the new node as a child of every dependency.
        let mut di: usize = 0;
        while di < deps.len()
            invariant
                distinct_keys(self.entries@),
                self.next_index == idx + 1,
                idx < u64::MAX,
                deps@.no_duplicates(),
                forall|k: u64| #[trigger] deps@.contains(k) ==> m0.contains_key(k),
                di <= deps@.len(),
                self@.dom() =~= m0.dom(),
                !m0.contains_key(idx),
                forall|k: u64, c: u64|
                    #![trigger m0[k].children@.contains(c)]
                    m0.contains_key(k) && m0[k].children@.contains(c) ==> c < idx,
                forall|k: u64| #[trigger] self@.contains_key(k) ==> self@[k].transaction
                    == m0[k].transaction && self@[k].creation_instant == m0[k].creation_instant
                    && self@[k].parents@ == m0[k].parents@ && self@[k].dependents_cumulative_gas
                    == m0[k].dependents_cumulative_gas
                    && self@[k].dependents_cumulative_bytes_size
                    == m0[k].dependents_cumulative_bytes_size
                    && self@[k].dependents_cumulative_tip == m0[k].dependents_cumulative_tip,
                forall|k: u64| #[trigger] self@.contains_key(k)
                    ==> self@[k].children@.no_duplicates(),
                forall|k: u64, c: u64|
                    #![trigger self@[k].children@.contains(c)]
                    self@.contains_key(k) ==> (self@[k].children@.contains(c)
                        <==> m0[k].children@.contains(c) || (deps@.take(di as int).contains(k) && c
                        == idx)),
                sum_gas(self.entries@) == sum_gas(old(self).entries@),
                sum_bytes(self.entries@) == sum_bytes(old(self).entries@),
                self.entries@.len() == old(self).entries@.len(),
            decreases deps@.len() - di,
        {
            let p = deps[di];
            proof {
                assert(deps@.contains(p));
            }
            let ghost mpre = self@;
            self.add_child(p, idx);
            proof {
                assert forall|k: u64| #[trigger] self@.contains_key(k)
                    implies self@[k].children@.no_duplicates() by {
                    if k == p {
                        assert(self@[p].children@ == mpre[p].children@.push(idx));
                        assert forall|a: int, b: int|
                            0 <= a < b < self@[p].children@.len() implies self@[p].children@[a]
                            != self@[p].children@[b] by {
                            if b == self@[p].children@.len() - 1 {
                                assert(self@[p].children@[b] == idx);
                                assert(mpre[p].children@.contains(mpre[p].children@[a]));
                            }
                        }
                    }
                }
                assert forall|k: u64, c: u64|
                    #![trigger self@[k].children@.contains(c)]
                    self@.contains_key(k) implies (self@[k].children@.contains(c)
                    <==> m0[k].children@.contains(c) || (deps@.take(di as int + 1).contains(k) && c
                    == idx)) by {
                    assert(deps@.take(di as int + 1) =~= deps@.take(di as int).push(p));
                    if k == p {
                        assert(self@[p].children@ == mpre[p].children@.push(idx));
                        if self@[k].children@.contains(c) {
                            let j = choose|j: int|
                                0 <= j < self@[p].children@.len() && self@[p].children@[j] == c;
                            if j < mpre[p].children@.len() {
                                assert(mpre[p].children@.contains(c));
                            } else {
                                assert(c == idx);
                            }
                        }
                        assert(deps@.take(di as int + 1).contains(p)) by {
                            assert(deps@.take(di as int + 1)[di as int] == p);
                        }
                        if m0[k].children@.contains(c) || c == idx {
                            if m0[k].children@.contains(c) {
                                assert(mpre[p].children@.contains(c));
                                let j = choose|j: int|
                                    0 <= j < mpre[p].children@.len() && mpre[p].children@[j] == c;
                                assert(self@[p].children@[j] == c);
                            } else {
                                assert(self@[p].children@[self@[p].children@.len() - 1] == idx);
                            }
                        }
                    } else {
                        if deps@.take(di as int + 1).contains(k) {
                            let j = choose|j: int|
                                0 <= j < deps@.take(di as int + 1).len() && #[trigger] deps@.take(
                                    di as int + 1,
                                )[j] == k;
                            if j < di as int {
                                assert(deps@.take(di as int).contains(k)) by {
                                    assert(deps@.take(di as int)[j] == k);
                                }
                            }
                        }
                        if deps@.take(di as int).contains(k) {
                            let j = choose|j: int|
                                0 <= j < deps@.take(di as int).len() && #[trigger] deps@.take(
                                    di as int,
                                )[j] == k;
                            assert(deps@.take(di as int + 1)[j] == k);
                        }
                    }
                }
            }
            di += 1;
        }
        proof {
            assert(deps@.take(deps@.len() as int) =~= deps@);
        }
        // Store the new record, its aggregates initialized from its own
        // weights.
        let ghost e1 = self.entries@;
        let ghost m1 = self@;
        let own_gas = tx.max_gas;
        let own_bytes = tx.metered_bytes_size;
        let own_tip = tx.tip;
        let seeds = copy_indices(&deps);
        let data = StorageData {
            transaction: tx,
            creation_instant,
            parents: deps,
            children: Vec::new(),
            dependents_cumulative_gas: own_gas,
            dependents_cumulative_bytes_size: own_bytes,
            dependents_cumulative_tip: own_tip,
        };
        let ghost gdata = data;
        proof {
            assert(!m1.contains_key(idx));
        }
        self.put_data(idx, data);
        proof {
            lemma_sum_push(e1, (idx, gdata));
        }
        let ghost m2 = self@;
        proof {
            // The graph is well-formed again once the record is in place.
            assert forall|k: u64| #[trigger] m2.contains_key(k) implies k < self.next_index by {}
            assert forall|k: u64| #[trigger] m2.contains_key(k) implies Self::data_wf(m2[k]) by {
                if k != idx {
                    assert(m1[k].dependents_cumulative_gas == m0[k].dependents_cumulative_gas);
                }
            }
            assert forall|p: u64, c: u64|
                m2.contains_key(p) && (#[trigger] m2[p].children@.contains(c)) implies child_edge(
                m2,
                p,
                c,
            ) && p < c by {
                if p == idx {
                    assert(m2[idx].children@ == gdata.children@);
                } else {
                    assert(m1[p].children@.contains(c));
                    if m0[p].children@.contains(c) {
                        assert(child_edge(m0, p, c));
                        assert(m2[c].parents@ == m0[c].parents@);
                    } else {
                        assert(seeds@.contains(p) && c == idx);
                        assert(m2[idx].parents@ == seeds@);
                    }
                }
            }
            assert forall|c: u64, p: u64|
                m2.contains_key(c) && (#[trigger] m2[c].parents@.contains(p)) implies child_edge(
                m2,
                p,
                c,
            ) && p < c by {
                if c == idx {
                    assert(m2[idx].parents@ == seeds@);
                    assert(seeds@.contains(p));
                    assert(m0.contains_key(p));
                    assert(m1[p].children@.contains(idx));
                } else {
                    assert(m2[c].parents@ == m0[c].parents@);
                    assert(child_edge(m0, p, c));
                    assert(m1[p].children@.contains(c));
                }
            }
            assert forall|k: u64| #[trigger] m2.contains_key(k)
                implies m2[k].children@.no_duplicates() && m2[k].parents@.no_duplicates() by {
                if k == idx {
                    assert(m2[idx].children@ == gdata.children@);
                    assert(m2[idx].parents@ == seeds@);
                }
            }
            assert forall|k1: u64, k2: u64|
                #![trigger m2[k1], m2[k2]]
                m2.contains_key(k1) && m2.contains_key(k2) && k1 != k2 implies
                m2[k1].transaction.id != m2[k2].transaction.id by {
                if k1 != idx && k2 != idx {
                    assert(m2[k1].transaction == m0[k1].transaction);
                    assert(m2[k2].transaction == m0[k2].transaction);
                }
            }
            assert(self.wf());
        }
        // Add the new transaction's weights to the aggregates of every
        // ancestor.
        let anc = self.collect_ancestors(&seeds);
        proof {
            assert(!anc@.contains(idx)) by {
                if anc@.contains(idx) {
                    if seeds@.contains(idx) {
                        assert(m0.contains_key(idx));
                    } else {
                        let y = choose|y: u64|
                            anc@.contains(y) && #[trigger] m2[y].parents@.contains(idx);
                        assert(child_edge(m2, idx, y));
                        assert(m2[idx].children@ == gdata.children@);
                    }
                }
            }
        }
        let mut ai: usize = 0;
        while ai < anc.len()
            invariant
                self.wf(),
                ai <= anc@.len(),
                self.next_index == idx + 1,
                !anc@.contains(idx),
                forall|x: u64| #[trigger] anc@.contains(x) ==> m2.contains_key(x),
                self@.dom() =~= m2.dom(),
                forall|k: u64| #[trigger] self@.contains_key(k) ==> self@[k].transaction
                    == m2[k].transaction && self@[k].creation_instant == m2[k].creation_instant
                    && self@[k].parents@ == m2[k].parents@ && self@[k].children@
                    == m2[k].children@,
                self@[idx] == m2[idx],
                sum_gas(self.entries@) == sum_gas(e1) + gdata.transaction.max_gas,
                sum_bytes(self.entries@) == sum_bytes(e1) + gdata.transaction.metered_bytes_size,
                self.entries@.len() == e1.len() + 1,
            decreases anc@.len() - ai,
        {
            let a = anc[ai];
            proof {
                assert(anc@.contains(a));
            }
            let ghost mpre = self@;
            self.bump_aggregates(a, own_gas, own_bytes, own_tip);
            proof {
                assert(self@[a].transaction == mpre[a].transaction);
                assert(self@[a].children@ == mpre[a].children@);
                assert(self@[a].parents@ == mpre[a].parents@);
                assert forall|p: u64, c: u64|
                    self@.contains_key(p) && (#[trigger] self@[p].children@.contains(c)) implies
                    child_edge(self@, p, c) && p < c by {
                    assert(mpre[p].children@.contains(c));
                    assert(child_edge(mpre, p, c));
                }
                assert forall|c: u64, p: u64|
                    self@.contains_key(c) && (#[trigger] self@[c].parents@.contains(p)) implies
                    child_edge(self@, p, c) && p < c by {
                    assert(mpre[c].parents@.contains(p));
                    assert(child_edge(mpre, p, c));
                }
                assert forall|k: u64| #[trigger] self@.contains_key(k) implies Self::data_wf(
                    self@[k],
                ) && self@[k].children@.no_duplicates() && self@[k].parents@.no_duplicates() by {
                    assert(Self::data_wf(mpre[k]));
                }
                assert forall|k1: u64, k2: u64|
                    #![trigger self@[k1], self@[k2]]
                    self@.contains_key(k1) && self@.contains_key(k2) && k1 != k2 implies
                    self@[k1].transaction.id != self@[k2].transaction.id by {
                    assert(self@[k1].transaction == mpre[k1].transaction);
                    assert(self@[k2].transaction == mpre[k2].transaction);
                }
            }
            ai += 1;
        }
        proof {
            assert(final(self)@.dom() =~= old(self)@.dom().insert(idx));
        }
        idx
    }
}

} // verus!
verus! {

impl Storage {
    /// Removes the resident `index`, which must have no parents; detaches it
    /// from each of its children and returns its record. Descendants stay.
    pub fn remove_transaction_without_dependencies(&mut self, index: u64) -> (r: StorageData)
        requires
            old(self).wf(),
            old(self)@.contains_key(index),
            old(self)@[index].parents@.len() == 0,
        ensures
            final(self).wf(),
            r == old(self)@[index],
            final(self).next_index == old(self).next_index,
            final(self)@.dom() =~= old(self)@.dom().remove(index),
            forall|k: u64| #[trigger] final(self)@.contains_key(k) ==> final(self)@[k].transaction
                == old(self)@[k].transaction && final(self)@[k].creation_instant == old(
                self,
            )@[k].creation_instant && final(self)@[k].children@ == old(self)@[k].children@
                && final(self)@[k].dependents_cumulative_gas == old(
                self,
            )@[k].dependents_cumulative_gas && final(self)@[k].dependents_cumulative_bytes_size
                == old(self)@[k].dependents_cumulative_bytes_size
                && final(self)@[k].dependents_cumulative_tip == old(
                self,
            )@[k].dependents_cumulative_tip,
            forall|k: u64, p: u64|
                #![trigger final(self)@[k].parents@.contains(p)]
                final(self)@.contains_key(k) ==> (final(self)@[k].parents@.contains(p) <==> old(
                    self,
                )@[k].parents@.contains(p) && p != index),
            sum_gas(final(self).entries@) == sum_gas(old(self).entries@) - old(
                self,
            )@[index].transaction.max_gas,
            sum_bytes(final(self).entries@) == sum_bytes(old(self).entries@) - old(
                self,
            )@[index].transaction.metered_bytes_size,
            final(self).entries@.len() == old(self).entries@.len() - 1,
    {
        let ghost m0 = self@;
        proof {
            // Nobody lists a parentless resident among its children.
            assert forall|k: u64, c: u64|
                #![trigger m0[k].children@.contains(c)]
                m0.contains_key(k) && m0[k].children@.contains(c) implies c != index by {
                if c == index {
                    assert(child_edge(m0, k, index));
                    assert(m0[index].parents@.contains(k));
                }
            }
        }
        let ghost e0 = self.entries@;
        let d = self.take_data(index);
        proof {
            let i = choose|i: int|
                0 <= i < e0.len() && e0[i] == (index, d) && self.entries@ == e0.remove(i);
            lemma_sum_remove(e0, i);
        }
        let kids = copy_indices(&d.children);
        let ghost m1 = self@;
        let mut ci: usize = 0;
        while ci < kids.len()
            invariant
                distinct_keys(self.entries@),
                self.next_index == old(self).next_index,
                ci <= kids@.len(),
                kids@ == m0[index].children@,
                kids@.no_duplicates(),
                m0.contains_key(index),
                forall|k: u64, c: u64|
                    #![trigger m0[k].children@.contains(c)]
                    m0.contains_key(k) && m0[k].children@.contains(c) ==> child_edge(m0, k, c) && k
                        < c,
                forall|c: u64, p: u64|
                    #![trigger m0[c].parents@.contains(p)]
                    m0.contains_key(c) && m0[c].parents@.contains(p) ==> child_edge(m0, p, c) && p
                        < c,
                forall|k: u64| #[trigger] m0.contains_key(k) ==> m0[k].parents@.no_duplicates(),
                self@.dom() =~= m0.dom().remove(index),
                forall|k: u64| #[trigger] self@.contains_key(k) ==> self@[k].transaction
                    == m0[k].transaction && self@[k].creation_instant == m0[k].creation_instant
                    && self@[k].children@ == m0[k].children@ && self@[k].dependents_cumulative_gas
                    == m0[k].dependents_cumulative_gas
                    && self@[k].dependents_cumulative_bytes_size
                    == m0[k].dependents_cumulative_bytes_size
                    && self@[k].dependents_cumulative_tip == m0[k].dependents_cumulative_tip,
                forall|k: u64| #[trigger] self@.contains_key(k)
                    ==> self@[k].parents@.no_duplicates(),
                forall|k: u64, p: u64|
                    #![trigger self@[k].parents@.contains(p)]
                    self@.contains_key(k) ==> (self@[k].parents@.contains(p)
                        <==> m0[k].parents@.contains(p) && !(p == index && kids@.take(
                        ci as int,
                    ).contains(k))),
                sum_gas(self.entries@) == sum_gas(e0) - m0[index].transaction.max_gas,
                sum_bytes(self.entries@) == sum_bytes(e0)
                    - m0[index].transaction.metered_bytes_size,
                self.entries@.len() == e0.len() - 1,
            decreases kids@.len() - ci,
        {
            let c = kids[ci];
            proof {
                assert(kids@.contains(c));
                assert(m0[index].children@.contains(c));
                assert(child_edge(m0, index, c));
                assert(self@.contains_key(c));
            }
            let ghost mpre = self@;
            self.remove_parent(c, index);
            proof {
                assert(kids@.take(ci as int + 1) =~= kids@.take(ci as int).push(c));
                assert forall|k: u64, p: u64|
                    #![trigger self@[k].parents@.contains(p)]
                    self@.contains_key(k) implies (self@[k].parents@.contains(p)
                    <==> m0[k].parents@.contains(p) && !(p == index && kids@.take(
                    ci as int + 1,
                ).contains(k))) by {
                    if k == c {
                        assert(kids@.take(ci as int + 1).contains(c)) by {
                            assert(kids@.take(ci as int + 1)[ci as int] == c);
                        }
                        if kids@.take(ci as int).contains(c) {
                            let j = choose|j: int|
                                0 <= j < ci && #[trigger] kids@.take(ci as int)[j] == c;
                            assert(kids@[j] == c && kids@[ci as int] == c);
                        }
                    } else {
                        assert(self@[k].parents@ == mpre[k].parents@);
                        if kids@.take(ci as int + 1).contains(k) {
                            let j = choose|j: int|
                                0 <= j < ci + 1 && #[trigger] kids@.take(ci as int + 1)[j] == k;
                            assert(j < ci);
                            assert(kids@.take(ci as int)[j] == k);
                        }
                        if kids@.take(ci as int).contains(k) {
                            let j = choose|j: int|
                                0 <= j < ci && #[trigger] kids@.take(ci as int)[j] == k;
                            assert(kids@.take(ci as int + 1)[j] == k);
                        }
                    }
                }
            }
            ci += 1;
        }
        proof {
            let m2 = self@;
            assert(kids@.take(kids@.len() as int) =~= kids@);
            // Well-formedness of the remaining graph.
            assert forall|p: u64, c: u64|
                m2.contains_key(p) && (#[trigger] m2[p].children@.contains(c)) implies child_edge(
                m2,
                p,
                c,
            ) && p < c by {
                assert(m0[p].children@.contains(c));
                assert(child_edge(m0, p, c));
                assert(c != index);
                assert(m2[c].parents@.contains(p)) by {
                    assert(m0[c].parents@.contains(p));
                    assert(p != index || !m0[c].parents@.contains(p));
                }
            }
            assert forall|c: u64, p: u64|
                m2.contains_key(c) && (#[trigger] m2[c].parents@.contains(p)) implies child_edge(
                m2,
                p,
                c,
            ) && p < c by {
                assert(m0[c].parents@.contains(p) && p != index);
                assert(child_edge(m0, p, c));
                assert(m2.contains_key(p));
                assert(m2[p].children@ == m0[p].children@);
            }
            assert forall|k: u64| #[trigger] m2.contains_key(k) implies Self::data_wf(m2[k])
                && m2[k].children@.no_duplicates() && m2[k].parents@.no_duplicates() by {
                assert(Self::data_wf(m0[k]));
                assert(m2[k].children@ == m0[k].children@);
            }
            assert forall|k1: u64, k2: u64|
                #![trigger m2[k1], m2[k2]]
                m2.contains_key(k1) && m2.contains_key(k2) && k1 != k2 implies
                m2[k1].transaction.id != m2[k2].transaction.id by {
                assert(m2[k1].transaction == m0[k1].transaction);
                assert(m2[k2].transaction == m0[k2].transaction);
            }
            assert(self.wf());
        }
        d
    }
}

} // verus!

verus! {

impl Storage {
    /// Removes the residents in `members`, a child-closed collection. For
    /// each removed node, the aggregates of its remaining ancestors are
    /// debited by that node's own weights. Returns the removed transactions,
    /// in `members` order.
    pub(crate) fn remove_collected(&mut self, members: &Vec<u64>) -> (r: Vec<PoolTransaction>)
        requires
            old(self).wf(),
            members@.no_duplicates(),
            forall|x: u64| #[trigger] members@.contains(x) ==> old(self)@.contains_key(x),
            forall|k: u64, c: u64|
                #![trigger members@.contains(k), old(self)@[k].children@.contains(c)]
                members@.contains(k) && old(self)@.contains_key(k) && old(
                    self,
                )@[k].children@.contains(c) ==> members@.contains(c),
        ensures
            final(self).wf(),
            final(self).next_index == old(self).next_index,
            forall|k: u64| #[trigger] final(self)@.contains_key(k) <==> old(self)@.contains_key(k)
                && !members@.contains(k),
            forall|k: u64| #[trigger] final(self)@.contains_key(k) ==> final(self)@[k].transaction
                == old(self)@[k].transaction && final(self)@[k].creation_instant == old(
                self,
            )@[k].creation_instant && final(self)@[k].parents@ == old(self)@[k].parents@,
            forall|k: u64, c: u64|
                #![trigger final(self)@[k].children@.contains(c)]
                final(self)@.contains_key(k) ==> (final(self)@[k].children@.contains(c) <==> old(
                    self,
                )@[k].children@.contains(c) && !members@.contains(c)),
            r@.len() == members@.len(),
            forall|j: int| 0 <= j < r@.len() ==> #[trigger] r@[j] == old(
                self,
            )@[members@[j]].transaction,
            sum_gas(final(self).entries@) == sum_gas(old(self).entries@) - sum_tx_gas(r@),
            sum_bytes(final(self).entries@) == sum_bytes(old(self).entries@) - sum_tx_bytes(r@),
            final(self).entries@.len() == old(self).entries@.len() - members@.len(),
    {
        let ghost m0 = self@;
        let ghost e0 = self.entries@;
        // Debit the aggregates of every ancestor of each removed node by that
        // node's own weights.
        let mut si: usize = 0;
        while si < members.len()
            invariant
                self.wf(),
                si <= members@.len(),
                self.next_index == old(self).next_index,
                forall|x: u64| #[trigger] members@.contains(x) ==> m0.contains_key(x),
                self@.dom() =~= m0.dom(),
                forall|k: u64| #[trigger] self@.contains_key(k) ==> self@[k].transaction
                    == m0[k].transaction && self@[k].creation_instant == m0[k].creation_instant
                    && self@[k].parents@ == m0[k].parents@ && self@[k].children@
                    == m0[k].children@,
                sum_gas(self.entries@) == sum_gas(e0),
                sum_bytes(self.entries@) == sum_bytes(e0),
                self.entries@.len() == e0.len(),
            decreases members@.len() - si,
        {
            let s_idx = members[si];
            proof {
                assert(members@.contains(s_idx));
            }
            let dref = self.get_must(s_idx);
            let g = dref.transaction.max_gas;
            let b = dref.transaction.metered_bytes_size;
            let t = dref.transaction.tip;
            let folks = copy_indices(&dref.parents);
            proof {
                assert forall|x: u64| #[trigger] folks@.contains(x) implies self@.contains_key(
                    x,
                ) by {
                    assert(m0[s_idx].parents@.contains(x));
                    assert(child_edge(m0, x, s_idx));
                }
            }
            let anc = self.collect_ancestors(&folks);
            let mut ai: usize = 0;
            while ai < anc.len()
                invariant
                    self.wf(),
                    ai <= anc@.len(),
                    self.next_index == old(self).next_index,
                    forall|x: u64| #[trigger] anc@.contains(x) ==> m0.contains_key(x),
                    self@.dom() =~= m0.dom(),
                    forall|k: u64| #[trigger] self@.contains_key(k) ==> self@[k].transaction
                        == m0[k].transaction && self@[k].creation_instant
                        == m0[k].creation_instant && self@[k].parents@ == m0[k].parents@
                        && self@[k].children@ == m0[k].children@,
                    sum_gas(self.entries@) == sum_gas(e0),
                    sum_bytes(self.entries@) == sum_bytes(e0),
                    self.entries@.len() == e0.len(),
                decreases anc@.len() - ai,
            {
                let a = anc[ai];
                proof {
                    assert(anc@.contains(a));
                }
                let ghost mpre = self@;
                self.debit_aggregates(a, g, b, t);
                proof {
                    assert(self@[a].transaction == mpre[a].transaction);
                    assert(self@[a].children@ == mpre[a].children@);
                    assert(self@[a].parents@ == mpre[a].parents@);
                    assert forall|p: u64, c: u64|
                        self@.contains_key(p) && (#[trigger] self@[p].children@.contains(c))
                        implies child_edge(self@, p, c) && p < c by {
                        assert(mpre[p].children@.contains(c));
                        assert(child_edge(mpre, p, c));
                    }
                    assert forall|c: u64, p: u64|
                        self@.contains_key(c) && (#[trigger] self@[c].parents@.contains(p))
                        implies child_edge(self@, p, c) && p < c by {
                        assert(mpre[c].parents@.contains(p));
                        assert(child_edge(mpre, p, c));
                    }
                    assert forall|k: u64| #[trigger] self@.contains_key(k) implies Self::data_wf(
                        self@[k],
                    ) && self@[k].children@.no_duplicates()
                        && self@[k].parents@.no_duplicates() by {
                        assert(Self::data_wf(mpre[k]));
                    }
                    assert forall|k1: u64, k2: u64|
                        #![trigger self@[k1], self@[k2]]
                        self@.contains_key(k1) && self@.contains_key(k2) && k1 != k2 implies
                        self@[k1].transaction.id != self@[k2].transaction.id by {
                        assert(self@[k1].transaction == mpre[k1].transaction);
                        assert(self@[k2].transaction == mpre[k2].transaction);
                    }
                }
                ai += 1;
            }
            si += 1;
        }
        let ghost mA = self@;
        let ghost eA = self.entries@;
        // Detach each removed node from its surviving parents.
        let mut si2: usize = 0;
        while si2 < members.len()
            invariant
                distinct_keys(self.entries@),
                si2 <= members@.len(),
                self.next_index == old(self).next_index,
                members@.no_duplicates(),
                forall|x: u64| #[trigger] members@.contains(x) ==> m0.contains_key(x),
                forall|k: u64, c: u64|
                    #![trigger m0[k].children@.contains(c)]
                    m0.contains_key(k) && m0[k].children@.contains(c) ==> child_edge(m0, k, c)
                        && k < c,
                forall|c: u64, p: u64|
                    #![trigger m0[c].parents@.contains(p)]
                    m0.contains_key(c) && m0[c].parents@.contains(p) ==> child_edge(m0, p, c) && p
                        < c,
                self@.dom() =~= m0.dom(),
                forall|k: u64| #[trigger] self@.contains_key(k) ==> self@[k].transaction
                    == m0[k].transaction && self@[k].creation_instant == m0[k].creation_instant
                    && self@[k].parents@ == m0[k].parents@ && self@[k].dependents_cumulative_gas
                    == mA[k].dependents_cumulative_gas
                    && self@[k].dependents_cumulative_bytes_size
                    == mA[k].dependents_cumulative_bytes_size
                    && self@[k].dependents_cumulative_tip == mA[k].dependents_cumulative_tip
                    && Self::data_wf(self@[k]),
                forall|k: u64| #[trigger] self@.contains_key(k)
                    ==> self@[k].children@.no_duplicates() && self@[k].parents@.no_duplicates(),
                forall|k: u64, c: u64|
                    #![trigger self@[k].children@.contains(c)]
                    self@.contains_key(k) ==> (self@[k].children@.contains(c)
                        <==> m0[k].children@.contains(c) && !(members@.take(si2 as int).contains(c)
                        && !members@.contains(k))),
                sum_gas(self.entries@) == sum_gas(e0),
                sum_bytes(self.entries@) == sum_bytes(e0),
                self.entries@.len() == e0.len(),
            decreases members@.len() - si2,
        {
            let c = members[si2];
            proof {
                assert(members@.contains(c));
                assert(self@.contains_key(c));
            }
            let folks = copy_indices(&self.get_must(c).parents);
            let ghost si2i = si2 as int;
            let mut pi: usize = 0;
            while pi < folks.len()
                invariant
                    distinct_keys(self.entries@),
                    pi <= folks@.len(),
                    si2i == si2 as int,
                    0 <= si2i < members@.len(),
                    c == members@[si2i],
                    members@.contains(c),
                    folks@ == m0[c].parents@,
                    folks@.no_duplicates(),
                    self.next_index == old(self).next_index,
                    members@.no_duplicates(),
                    forall|x: u64| #[trigger] members@.contains(x) ==> m0.contains_key(x),
                    forall|k: u64, c: u64|
                        #![trigger m0[k].children@.contains(c)]
                        m0.contains_key(k) && m0[k].children@.contains(c) ==> child_edge(m0, k, c)
                            && k < c,
                    forall|c: u64, p: u64|
                        #![trigger m0[c].parents@.contains(p)]
                        m0.contains_key(c) && m0[c].parents@.contains(p) ==> child_edge(m0, p, c) && p
                            < c,
                    self@.dom() =~= m0.dom(),
                    forall|k: u64| #[trigger] self@.contains_key(k) ==> self@[k].transaction
                        == m0[k].transaction && self@[k].creation_instant
                        == m0[k].creation_instant && self@[k].parents@ == m0[k].parents@
                        && self@[k].dependents_cumulative_gas == mA[k].dependents_cumulative_gas
                        && self@[k].dependents_cumulative_bytes_size
                        == mA[k].dependents_cumulative_bytes_size
                        && self@[k].dependents_cumulative_tip == mA[k].dependents_cumulative_tip
                        && Self::data_wf(self@[k]),
                    forall|k: u64| #[trigger] self@.contains_key(k)
                        ==> self@[k].children@.no_duplicates() && self@[k].parents@.no_duplicates(),
                    forall|k: u64, cc: u64|
                        #![trigger self@[k].children@.contains(cc)]
                        self@.contains_key(k) ==> (self@[k].children@.contains(cc)
                            <==> m0[k].children@.contains(cc) && !(members@.take(si2i).contains(cc)
                            && !members@.contains(k)) && !(cc == c && folks@.take(
                            pi as int,
                        ).contains(k) && !members@.contains(k))),
                    sum_gas(self.entries@) == sum_gas(e0),
                    sum_bytes(self.entries@) == sum_bytes(e0),
                    self.entries@.len() == e0.len(),
                decreases folks@.len() - pi,
            {
                let p = folks[pi];
                proof {
                    assert(folks@.contains(p));
                    assert(m0[c].parents@.contains(p));
                    assert(child_edge(m0, p, c));
                    assert(self@.contains_key(p));
                }
                let in_members = contains_index(&members, p);
                let ghost mpre = self@;
                if !in_members {
                    self.remove_child(p, c);
                }
                proof {
                    assert(folks@.take(pi as int + 1) =~= folks@.take(pi as int).push(p));
                    assert forall|k: u64, cc: u64|
                        #![trigger self@[k].children@.contains(cc)]
                        self@.contains_key(k) implies (self@[k].children@.contains(cc)
                        <==> m0[k].children@.contains(cc) && !(members@.take(si2i).contains(cc)
                        && !members@.contains(k)) && !(cc == c && folks@.take(
                        pi as int + 1,
                    ).contains(k) && !members@.contains(k))) by {
                        if !in_members && k == p {
                            assert(folks@.take(pi as int + 1).contains(p)) by {
                                assert(folks@.take(pi as int + 1)[pi as int] == p);
                            }
                            assert forall|y: u64| #[trigger] self@[p].children@.contains(y)
                                implies mpre[p].children@.contains(y) && y != c by {}
                        } else {
                            assert(self@[k].children@ == mpre[k].children@);
                        }
                        if folks@.take(pi as int + 1).contains(k) && !folks@.take(
                            pi as int,
                        ).contains(k) {
                            let j = choose|j: int|
                                0 <= j < pi + 1 && #[trigger] folks@.take(pi as int + 1)[j] == k;
                            if j < pi as int {
                                assert(folks@.take(pi as int)[j] == k);
                            }
                            assert(k == p);
                        }
                        if folks@.take(pi as int).contains(k) {
                            let j = choose|j: int|
                                0 <= j < pi && #[trigger] folks@.take(pi as int)[j] == k;
                            assert(folks@.take(pi as int + 1)[j] == k);
                        }
                    }
                }
                pi += 1;
            }
            si2 += 1;
            proof {
                assert(members@.take(si2 as int) =~= members@.take(si2i).push(c));
                assert(members@.take(si2 as int)[si2i] == c);
                assert(members@.take(si2 as int).contains(c));
                assert forall|k: u64, cc: u64|
                    #![trigger self@[k].children@.contains(cc)]
                    self@.contains_key(k) implies (self@[k].children@.contains(cc)
                    <==> m0[k].children@.contains(cc) && !(members@.take(si2 as int).contains(cc)
                    && !members@.contains(k))) by {
                    if members@.take(si2 as int).contains(cc) && !members@.take(si2i).contains(
                        cc,
                    ) {
                        let j = choose|j: int|
                            0 <= j < si2 && #[trigger] members@.take(si2 as int)[j] == cc;
                        if j < si2i {
                            assert(members@.take(si2i)[j] == cc);
                        }
                        assert(cc == c);
                    }
                    if members@.take(si2i).contains(cc) {
                        let j = choose|j: int|
                            0 <= j < si2i && #[trigger] members@.take(si2i)[j] == cc;
                        assert(members@.take(si2 as int)[j] == cc);
                    }
                    if cc == c && self@.contains_key(k) && m0[k].children@.contains(cc)
                        && !members@.contains(k) {
                        assert(child_edge(m0, k, c));
                        assert(folks@ == m0[c].parents@);
                        assert(folks@.contains(k));
                        assert(folks@.take(folks@.len() as int) =~= folks@);
                    }
                }
            }
        }
        proof {
            assert(members@.take(members@.len() as int) =~= members@);
        }
        let ghost mB = self@;
        let ghost eB = self.entries@;
        // Remove the records and collect their transactions.
        let mut out: Vec<PoolTransaction> = Vec::new();
        let mut si3: usize = 0;
        while si3 < members.len()
            invariant
                distinct_keys(self.entries@),
                si3 <= members@.len(),
                out@.len() == si3,
                self.next_index == old(self).next_index,
                members@.no_duplicates(),
                forall|x: u64| #[trigger] members@.contains(x) ==> mB.contains_key(x),
                forall|k: u64| #[trigger] self@.contains_key(k) <==> mB.contains_key(k)
                    && !members@.take(si3 as int).contains(k),
                forall|k: u64| #[trigger] self@.contains_key(k) ==> self@[k] == mB[k],
                forall|j: int| 0 <= j < si3 ==> out@[j] == mB[members@[j]].transaction,
                sum_gas(self.entries@) == sum_gas(eB) - sum_tx_gas(out@),
                sum_bytes(self.entries@) == sum_bytes(eB) - sum_tx_bytes(out@),
                self.entries@.len() == eB.len() - si3,
            decreases members@.len() - si3,
        {
            let k = members[si3];
            proof {
                assert(members@.contains(k));
                assert(!members@.take(si3 as int).contains(k)) by {
                    if members@.take(si3 as int).contains(k) {
                        let j = choose|j: int|
                            0 <= j < si3 && #[trigger] members@.take(si3 as int)[j] == k;
                        assert(members@[j] == k && members@[si3 as int] == k);
                    }
                }
                assert(self@.contains_key(k));
            }
            let ghost epre = self.entries@;
            let ghost opre = out@;
            let d = self.take_data(k);
            proof {
                let i = choose|i: int|
                    0 <= i < epre.len() && epre[i] == (k, d) && self.entries@ == epre.remove(i);
                lemma_sum_remove(epre, i);
                lemma_sum_tx_push(opre, d.transaction);
            }
            out.push(d.transaction);
            si3 += 1;
            proof {
                assert(members@.take(si3 as int) =~= members@.take(si3 as int - 1).push(k));
                assert(members@.take(si3 as int)[si3 - 1] == k);
                assert(members@.take(si3 as int).contains(k));
                assert forall|kk: u64| #[trigger] self@.contains_key(kk) <==> mB.contains_key(kk)
                    && !members@.take(si3 as int).contains(kk) by {
                    if members@.take(si3 as int).contains(kk) && !members@.take(
                        si3 as int - 1,
                    ).contains(kk) {
                        let j = choose|j: int|
                            0 <= j < si3 && #[trigger] members@.take(si3 as int)[j] == kk;
                        if j < si3 - 1 {
                            assert(members@.take(si3 as int - 1)[j] == kk);
                        }
                        assert(kk == k);
                    }
                    if members@.take(si3 as int - 1).contains(kk) {
                        let j = choose|j: int|
                            0 <= j < si3 - 1 && #[trigger] members@.take(si3 as int - 1)[j] == kk;
                        assert(members@.take(si3 as int)[j] == kk);
                    }
                }
            }
        }
        proof {
            assert(members@.take(members@.len() as int) =~= members@);
            let mF = self@;
            assert forall|j: int| 0 <= j < out@.len() implies #[trigger] out@[j] == m0[members@[j]].transaction by {
                assert(out@[j] == mB[members@[j]].transaction);
                assert(members@.contains(members@[j]));
            }
            // Remaining graph is well-formed.
            assert forall|p: u64, c: u64|
                mF.contains_key(p) && (#[trigger] mF[p].children@.contains(c)) implies child_edge(
                mF,
                p,
                c,
            ) && p < c by {
                assert(m0[p].children@.contains(c) && !members@.contains(c));
                assert(child_edge(m0, p, c));
                assert(mF.contains_key(c));
                assert(mF[c].parents@ == mB[c].parents@ && mB[c].parents@ == m0[c].parents@);
            }
            assert forall|c: u64, p: u64|
                mF.contains_key(c) && (#[trigger] mF[c].parents@.contains(p)) implies child_edge(
                mF,
                p,
                c,
            ) && p < c by {
                assert(mF[c].parents@ == m0[c].parents@);
                assert(m0[c].parents@.contains(p));
                assert(child_edge(m0, p, c));
                assert(!members@.contains(p)) by {
                    if members@.contains(p) {
                        assert(mB[p].children@.contains(c) <==> m0[p].children@.contains(c)
                            && !(members@.contains(c) && !members@.contains(p)));
                        assert(members@.contains(c));
                        assert(!members@.contains(c));
                    }
                }
                assert(mF.contains_key(p));
                assert(mF[p].children@.contains(c)) by {
                    assert(!members@.contains(c));
                }
            }
            assert forall|k: u64| #[trigger] mF.contains_key(k) implies Self::data_wf(mF[k])
                && mF[k].children@.no_duplicates() && mF[k].parents@.no_duplicates() by {
                assert(mF[k] == mB[k]);
                assert(mB[k].parents@ == m0[k].parents@);
            }
            assert forall|k1: u64, k2: u64|
                #![trigger mF[k1], mF[k2]]
                mF.contains_key(k1) && mF.contains_key(k2) && k1 != k2 implies
                mF[k1].transaction.id != mF[k2].transaction.id by {
                assert(mF[k1].transaction == m0[k1].transaction);
                assert(mF[k2].transaction == m0[k2].transaction);
            }
            assert(self.wf());
        }
        out
    }
}

} // verus!

verus! {

/// Eviction order on resident records: ascending cumulative tip/gas ratio;
/// on a ratio tie the newer resident (larger creation instant) comes first;
/// on an instant tie the smaller transaction id comes first.
pub open spec fn evict_before(x: StorageData, y: StorageData) -> bool {
    ||| ratio_lt(
        x.dependents_cumulative_tip,
        x.dependents_cumulative_gas,
        y.dependents_cumulative_tip,
        y.dependents_cumulative_gas,
    )
    ||| (ratio_eqv(
        x.dependents_cumulative_tip,
        x.dependents_cumulative_gas,
        y.dependents_cumulative_tip,
        y.dependents_cumulative_gas,
    ) && (x.creation_instant > y.creation_instant || (x.creation_instant == y.creation_instant
        && tx_id_lt(x.transaction.id, y.transaction.id))))
}

/// The eviction order is transitive.
pub proof fn lemma_evict_before_trans(x: StorageData, y: StorageData, z: StorageData)
    requires
        x.dependents_cumulative_gas >= 1,
        y.dependents_cumulative_gas >= 1,
        z.dependents_cumulative_gas >= 1,
        evict_before(x, y),
        evict_before(y, z),
    ensures
        evict_before(x, z),
{
    let (xt, xg) = (x.dependents_cumulative_tip, x.dependents_cumulative_gas);
    let (yt, yg) = (y.dependents_cumulative_tip, y.dependents_cumulative_gas);
    let (zt, zg) = (z.dependents_cumulative_tip, z.dependents_cumulative_gas);
    if ratio_lt(xt, xg, yt, yg) {
        if ratio_lt(yt, yg, zt, zg) {
            lemma_ratio_lt_trans(xt, xg, yt, yg, zt, zg);
        } else {
            lemma_ratio_lt_eqv(xt, xg, yt, yg, zt, zg);
        }
    } else {
        if ratio_lt(yt, yg, zt, zg) {
            lemma_ratio_eqv_lt(xt, xg, yt, yg, zt, zg);
        } else {
            lemma_ratio_eqv_trans(xt, xg, yt, yg, zt, zg);
        }
    }
}

/// Two records with distinct transaction ids are strictly ordered.
pub proof fn lemma_evict_before_total(x: StorageData, y: StorageData)
    requires
        x.dependents_cumulative_gas >= 1,
        y.dependents_cumulative_gas >= 1,
        x.transaction.id != y.transaction.id,
    ensures
        evict_before(x, y) || evict_before(y, x),
{
}

impl Storage {
    /// Compares two resident records in eviction order.
    fn evict_before_exec(x: &StorageData, y: &StorageData) -> (r: bool)
        requires
            x.dependents_cumulative_gas >= 1,
            y.dependents_cumulative_gas >= 1,
        ensures
            r == evict_before(*x, *y),
    {
        if ratio_less(
            x.dependents_cumulative_tip,
            x.dependents_cumulative_gas,
            y.dependents_cumulative_tip,
            y.dependents_cumulative_gas,
        ) {
            true
        } else if ratio_less(
            y.dependents_cumulative_tip,
            y.dependents_cumulative_gas,
            x.dependents_cumulative_tip,
            x.dependents_cumulative_gas,
        ) {
            false
        } else if x.creation_instant > y.creation_instant {
            true
        } else if x.creation_instant < y.creation_instant {
            false
        } else {
            tx_id_less(&x.transaction.id, &y.transaction.id)
        }
    }

    /// The subtree roots (residents with no parents), ordered by ascending
    /// cumulative tip/gas ratio: the least valuable work first. Ratios are
    /// compared as exact rationals; ties fall to the newer resident, then to
    /// the smaller transaction id.
    pub fn get_worst_ratio_tip_gas_subtree_roots(&self) -> (r: Vec<u64>)
        requires
            self.wf(),
        ensures
            r@.no_duplicates(),
            forall|k: u64| #[trigger] r@.contains(k) <==> self@.contains_key(k)
                && self@[k].parents@.len() == 0,
            forall|i: int, j: int|
                0 <= i < j < r@.len() ==> evict_before(self@[r@[i]], self@[r@[j]]),
    {
        let n = self.entries.len();
        let mut out: Vec<u64> = Vec::new();
        let mut e: usize = 0;
        while e < n
            invariant
                self.wf(),
                e <= n,
                n == self.entries@.len(),
                out@.no_duplicates(),
                forall|k: u64| #[trigger] out@.contains(k) ==> self@.contains_key(k)
                    && self@[k].parents@.len() == 0,
                forall|j: int|
                    0 <= j < e && (#[trigger] self.entries@[j]).1.parents@.len() == 0
                        ==> out@.contains(self.entries@[j].0),
                forall|k: u64| #[trigger] out@.contains(k) ==> exists|j: int|
                    0 <= j < e && (#[trigger] self.entries@[j]).0 == k,
                forall|i: int, j: int|
                    0 <= i < j < out@.len() ==> evict_before(self@[out@[i]], self@[out@[j]]),
            decreases n - e,
        {
            proof {
                lemma_assoc_map_index(self.entries@, e as int);
            }
            let k = self.entries[e].0;
            if self.entries[e].1.parents.len() == 0 {
                proof {
                    assert(!out@.contains(k)) by {
                        if out@.contains(k) {
                            let j = choose|j: int|
                                0 <= j < e && (#[trigger] self.entries@[j]).0 == k;
                        }
                    }
                }
                let d = self.get_must(k);
                let m = out.len();
                let mut pos: usize = 0;
                while pos < m
                    invariant
                        self.wf(),
                        pos <= m,
                        m == out@.len(),
                        self@.contains_key(k),
                        *d == self@[k],
                        !out@.contains(k),
                        out@.no_duplicates(),
                        forall|kk: u64| #[trigger] out@.contains(kk) ==> self@.contains_key(kk)
                            && self@[kk].parents@.len() == 0,
                        forall|i: int, j: int|
                            0 <= i < j < out@.len() ==> evict_before(
                                self@[out@[i]],
                                self@[out@[j]],
                            ),
                        forall|i: int| 0 <= i < pos ==> evict_before(self@[out@[i]], self@[k]),
                    ensures
                        pos <= m,
                        forall|i: int| 0 <= i < pos ==> evict_before(self@[out@[i]], self@[k]),
                        pos < m ==> evict_before(self@[k], self@[out@[pos as int]]),
                    decreases m - pos,
                {
                    proof {
                        assert(out@.contains(out@[pos as int]));
                    }
                    let cand = self.get_must(out[pos]);
                    if Self::evict_before_exec(d, cand) {
                        break ;
                    }
                    proof {
                        assert(out@[pos as int] != k);
                        lemma_evict_before_total(self@[k], self@[out@[pos as int]]);
                    }
                    pos += 1;
                }
                let ghost out0 = out@;
                let ghost posi = pos as int;
                out.insert(pos, k);
                proof {
                    assert(out@ == out0.insert(posi, k));
                    assert forall|i: int| 0 <= i < out@.len() implies out@[i] == (if i < posi {
                        out0[i]
                    } else if i == posi {
                        k
                    } else {
                        out0[i - 1]
                    }) by {}
                    assert forall|kk: u64| #[trigger] out@.contains(kk) implies out0.contains(kk)
                        || kk == k by {
                        let j = choose|j: int| 0 <= j < out@.len() && out@[j] == kk;
                        if j < posi {
                            assert(out0[j] == kk);
                        } else if j > posi {
                            assert(out0[j - 1] == kk);
                        }
                    }
                    assert forall|kk: u64| out0.contains(kk) implies #[trigger] out@.contains(
                        kk,
                    ) by {
                        let j = choose|j: int| 0 <= j < out0.len() && out0[j] == kk;
                        if j < posi {
                            assert(out@[j] == kk);
                        } else {
                            assert(out@[j + 1] == kk);
                        }
                    }
                    assert(out@.contains(k)) by {
                        assert(out@[posi] == k);
                    }
                    assert forall|a: int, b: int| 0 <= a < b < out@.len() implies out@[a]
                        != out@[b] by {
                        if a != posi && b != posi {
                            let a2: int = if a < posi {
                                a
                            } else {
                                a - 1
                            };
                            let b2: int = if b < posi {
                                b
                            } else {
                                b - 1
                            };
                            assert(out@[a] == out0[a2] && out@[b] == out0[b2]);
                        } else if a == posi {
                            assert(out@[a] == k && out@[b] == out0[b - 1]);
                            assert(out0.contains(out0[b - 1]));
                        } else {
                            assert(out@[b] == k && out@[a] == out0[a]);
                            assert(out0.contains(out0[a]));
                        }
                    }
                    assert forall|i: int, j: int|
                        0 <= i < j < out@.len() implies evict_before(
                        self@[out@[i]],
                        self@[out@[j]],
                    ) by {
                        if i == posi {
                            assert(out@[j] == out0[j - 1]);
                            if posi < m {
                                if j - 1 == posi {
                                    assert(evict_before(self@[k], self@[out0[posi]]));
                                } else {
                                    assert(evict_before(self@[out0[posi]], self@[out0[j - 1]]));
                                    assert(out0.contains(out0[posi]) && out0.contains(
                                        out0[j - 1],
                                    ));
                                    lemma_evict_before_trans(
                                        self@[k],
                                        self@[out0[posi]],
                                        self@[out0[j - 1]],
                                    );
                                }
                            }
                        } else if j == posi {
                            assert(out@[i] == out0[i]);
                            assert(out0.contains(out0[i]));
                            assert(evict_before(self@[out0[i]], self@[k]));
                        } else {
                            let i2: int = if i < posi {
                                i
                            } else {
                                i - 1
                            };
                            let j2: int = if j < posi {
                                j
                            } else {
                                j - 1
                            };
                            if i < posi && j > posi {
                                assert(out@[i] == out0[i] && out@[j] == out0[j - 1]);
                            }
                            assert(out@[i] == out0[i2] && out@[j] == out0[j2]);
                            assert(evict_before(self@[out0[i2]], self@[out0[j2]]));
                        }
                    }
                }
            }
            e += 1;
            proof {
                assert forall|j: int|
                    0 <= j < e && (#[trigger] self.entries@[j]).1.parents@.len() == 0 implies out@.contains(
                    self.entries@[j].0,
                ) by {
                    if j == e - 1 {
                        lemma_assoc_map_index(self.entries@, j);
                    }
                }
                assert forall|kk: u64| #[trigger] out@.contains(kk) implies exists|j: int|
                    0 <= j < e && (#[trigger] self.entries@[j]).0 == kk by {}
            }
        }
        proof {
            assert forall|k: u64|
                self@.contains_key(k) && self@[k].parents@.len() == 0 implies #[trigger] out@.contains(
                k,
            ) by {
                lemma_assoc_map_contains(self.entries@, k);
                let j = choose|j: int| 0 <= j < self.entries@.len() && self.entries@[j].0 == k;
                lemma_assoc_map_index(self.entries@, j);
            }
        }
        out
    }
}

} // verus!

verus! {

impl Storage {
    /// Pure check, mutating nothing: storing `tx` must not require removing
    /// one of its own ancestors. Rejects when a dependency of `tx` lies in
    /// the subtree of a colliding resident that would be evicted.
    pub fn can_store_transaction(
        &self,
        tx: &PoolTransaction,
        dependencies: &Vec<u64>,
        colliding: &Vec<(u64, CollisionReason)>,
    ) -> (r: Result<(), Error>)
        requires
            self.wf(),
            forall|j: int|
                0 <= j < colliding@.len() ==> self@.contains_key(
                    (#[trigger] colliding@[j]).0,
                ),
        ensures
            match r {
                Ok(()) => forall|i: int, j: int|
                    0 <= i < colliding@.len() && 0 <= j < dependencies@.len() ==> !reaches(
                        self@,
                        (#[trigger] colliding@[i]).0,
                        #[trigger] dependencies@[j],
                    ),
                Err(e) => e == Error::Collided(CollisionError::DependentAndColliding) && exists|
                    i: int,
                    j: int,
                |
                    0 <= i < colliding@.len() && 0 <= j < dependencies@.len() && reaches(
                        self@,
                        (#[trigger] colliding@[i]).0,
                        #[trigger] dependencies@[j],
                    ),
            },
    {
        let n = colliding.len();
        let mut i: usize = 0;
        while i < n
            invariant
                self.wf(),
                i <= n,
                n == colliding@.len(),
                forall|j: int|
                    0 <= j < colliding@.len() ==> self@.contains_key(
                        (#[trigger] colliding@[j]).0,
                    ),
                forall|i2: int, j: int|
                    0 <= i2 < i && 0 <= j < dependencies@.len() ==> !reaches(
                        self@,
                        (#[trigger] colliding@[i2]).0,
                        #[trigger] dependencies@[j],
                    ),
            decreases n - i,
        {
            let c = colliding[i].0;
            let members = self.collect_subtree(c);
            let m = dependencies.len();
            let mut j: usize = 0;
            while j < m
                invariant
                    self.wf(),
                    j <= m,
                    i < n,
                    n == colliding@.len(),
                    m == dependencies@.len(),
                    c == colliding@[i as int].0,
                    self@.contains_key(c),
                    forall|x: u64| #[trigger] members@.contains(x) ==> reaches(self@, c, x),
                    forall|x: u64| self@.contains_key(x) && reaches(self@, c, x)
                        ==> #[trigger] members@.contains(x),
                    forall|j2: int| 0 <= j2 < j ==> !reaches(
                        self@,
                        c,
                        #[trigger] dependencies@[j2],
                    ),
                decreases m - j,
            {
                if contains_index(&members, dependencies[j]) {
                    proof {
                        assert(reaches(self@, c, dependencies@[j as int]));
                    }
                    return Err(Error::Collided(CollisionError::DependentAndColliding));
                }
                proof {
                    assert(!members@.contains(dependencies@[j as int]));
                    if reaches(self@, c, dependencies@[j as int]) {
                        assert(self@.contains_key(dependencies@[j as int])) by {
                            reveal_reaches_target(self@, c, dependencies@[j as int]);
                        }
                    }
                }
                j += 1;
            }
            i += 1;
        }
        Ok(())
    }
}

/// Input validation rejects only with an input-existence error.
pub proof fn lemma_validity_verdict_kinds(
    m: Map<u64, StorageData>,
    view: StateView,
    inputs: Seq<Input>,
)
    ensures
        match inputs_validity_verdict(m, view, inputs) {
            Some(e) => e is NotInsertedInputUtxo || e is NotInsertedMessageNonce
                || e is NotInsertedContract,
            None => true,
        },
    decreases inputs.len(),
{
    if inputs.len() > 0 {
        lemma_validity_verdict_kinds(m, view, inputs.drop_first());
    }
}

/// Sum of `max_gas` over the subtree of `k`: the resident `k` itself and its
/// transitive descendants.
pub open spec fn subtree_gas_sum(st: Storage, k: u64) -> int {
    sum_gas(st.entries@.filter(|p: (u64, StorageData)| reaches(st@, k, p.0)))
}

/// Sum of `metered_bytes_size` over the subtree of `k`.
pub open spec fn subtree_bytes_sum(st: Storage, k: u64) -> int {
    sum_bytes(st.entries@.filter(|p: (u64, StorageData)| reaches(st@, k, p.0)))
}

/// Sum of `tip` over the subtree of `k`.
pub open spec fn subtree_tip_sum(st: Storage, k: u64) -> int {
    sum_tip(st.entries@.filter(|p: (u64, StorageData)| reaches(st@, k, p.0)))
}

/// Aggregate correctness: every resident's cumulative fields equal the sums
/// over its subtree, wherever those sums fit in 64 bits (the updates saturate
/// on overflow). The eviction ranking and the displacement policy read these
/// fields; the mutating operations maintain them by incremental ancestor
/// updates.
pub open spec fn aggregates_consistent(st: Storage) -> bool {
    forall|k: u64|
        #[trigger] st@.contains_key(k) ==> (subtree_gas_sum(st, k) <= u64::MAX
            ==> st@[k].dependents_cumulative_gas == subtree_gas_sum(st, k)) && (subtree_bytes_sum(
            st,
            k,
        ) <= u64::MAX ==> st@[k].dependents_cumulative_bytes_size == subtree_bytes_sum(st, k)) && (
        subtree_tip_sum(st, k) <= u64::MAX ==> st@[k].dependents_cumulative_tip == subtree_tip_sum(
            st,
            k,
        ))
}

/// The empty graph has consistent aggregates.
pub proof fn lemma_empty_aggregates_consistent(st: Storage)
    requires
        st.entries@.len() == 0,
    ensures
        aggregates_consistent(st),
{
    assert forall|k: u64| #[trigger] st@.contains_key(k) implies false by {
        lemma_assoc_map_contains(st.entries@, k);
    }
}

/// A node reached from a resident is itself resident.
pub proof fn reveal_reaches_target(m: Map<u64, StorageData>, a: u64, b: u64)
    requires
        reaches(m, a, b),
        m.contains_key(a),
        forall|p: u64, c: u64|
            m.contains_key(p) && (#[trigger] m[p].children@.contains(c)) ==> child_edge(m, p, c)
                && p < c,
    ensures
        m.contains_key(b),
    decreases b - a,
{
    if a == b {
    } else {
        let c = choose|c: u64|
            #[trigger] m[a].children@.contains(c) && a < c <= b && reaches(m, c, b);
        assert(child_edge(m, a, c));
        reveal_reaches_target(m, c, b);
    }
}

} // verus!

verus! {

/// Sum of `max_gas` over the residents named by `ids`.
pub open spec fn ids_gas_sum(m: Map<u64, StorageData>, ids: Seq<u64>) -> int
    decreases ids.len(),
{
    if ids.len() == 0 {
        0
    } else {
        ids_gas_sum(m, ids.drop_last()) + m[ids.last()].transaction.max_gas
    }
}

/// Sum of `metered_bytes_size` over the residents named by `ids`.
pub open spec fn ids_bytes_sum(m: Map<u64, StorageData>, ids: Seq<u64>) -> int
    decreases ids.len(),
{
    if ids.len() == 0 {
        0
    } else {
        ids_bytes_sum(m, ids.drop_last()) + m[ids.last()].transaction.metered_bytes_size
    }
}

/// Appending an id adds its resident's weights to the sums.
pub proof fn lemma_ids_gas_sum_push(m: Map<u64, StorageData>, ids: Seq<u64>, k: u64)
    ensures
        ids_gas_sum(m, ids.push(k)) == ids_gas_sum(m, ids) + m[k].transaction.max_gas,
        ids_bytes_sum(m, ids.push(k)) == ids_bytes_sum(m, ids) + m[k].transaction.metered_bytes_size,
{
    assert(ids.push(k).drop_last() =~= ids);
}

/// Sums of weights are nonnegative.
pub proof fn lemma_ids_gas_sum_nonneg(m: Map<u64, StorageData>, ids: Seq<u64>)
    ensures
        ids_gas_sum(m, ids) >= 0,
        ids_bytes_sum(m, ids) >= 0,
    decreases ids.len(),
{
    if ids.len() > 0 {
        lemma_ids_gas_sum_nonneg(m, ids.drop_last());
    }
}

/// Sums split over concatenation.
pub proof fn lemma_ids_gas_sum_concat(m: Map<u64, StorageData>, a: Seq<u64>, b: Seq<u64>)
    ensures
        ids_gas_sum(m, a + b) == ids_gas_sum(m, a) + ids_gas_sum(m, b),
        ids_bytes_sum(m, a + b) == ids_bytes_sum(m, a) + ids_bytes_sum(m, b),
    decreases b.len(),
{
    if b.len() == 0 {
        assert(a + b =~= a);
    } else {
        assert((a + b).drop_last() =~= a + b.drop_last());
        assert((a + b).last() == b.last());
        lemma_ids_gas_sum_concat(m, a, b.drop_last());
    }
}

/// Sums of entry weights are nonnegative.
pub proof fn lemma_sum_entries_nonneg(s: Seq<(u64, StorageData)>)
    ensures
        sum_gas(s) >= 0,
        sum_bytes(s) >= 0,
    decreases s.len(),
{
    if s.len() > 0 {
        lemma_sum_entries_nonneg(s.drop_last());
    }
}

/// Sums of weights of transactions are nonnegative.
pub proof fn lemma_sum_tx_nonneg(s: Seq<PoolTransaction>)
    ensures
        sum_tx_gas(s) >= 0,
        sum_tx_bytes(s) >= 0,
        sum_tx_gas(s) >= (if s.len() > 0 { s.last().max_gas as int } else { 0 }),
    decreases s.len(),
{
    if s.len() > 0 {
        lemma_sum_tx_nonneg(s.drop_last());
    }
}

/// Transaction sums split over concatenation.
pub proof fn lemma_sum_tx_concat(a: Seq<PoolTransaction>, b: Seq<PoolTransaction>)
    ensures
        sum_tx_gas(a + b) == sum_tx_gas(a) + sum_tx_gas(b),
        sum_tx_bytes(a + b) == sum_tx_bytes(a) + sum_tx_bytes(b),
    decreases b.len(),
{
    if b.len() == 0 {
        assert(a + b =~= a);
    } else {
        assert((a + b).drop_last() =~= a + b.drop_last());
        assert((a + b).last() == b.last());
        lemma_sum_tx_concat(a, b.drop_last());
    }
}

/// A list of transactions read off a list of residents has the residents'
/// sums.
pub proof fn lemma_ids_tx_sum_match(
    m: Map<u64, StorageData>,
    ids: Seq<u64>,
    txs: Seq<PoolTransaction>,
)
    requires
        ids.len() == txs.len(),
        forall|j: int| 0 <= j < ids.len() ==> #[trigger] txs[j] == m[ids[j]].transaction,
    ensures
        sum_tx_gas(txs) == ids_gas_sum(m, ids),
        sum_tx_bytes(txs) == ids_bytes_sum(m, ids),
    decreases ids.len(),
{
    if ids.len() > 0 {
        assert forall|j: int| 0 <= j < ids.drop_last().len() implies #[trigger] txs.drop_last()[j]
            == m[ids.drop_last()[j]].transaction by {
            assert(txs[j] == m[ids[j]].transaction);
        }
        lemma_ids_tx_sum_match(m, ids.drop_last(), txs.drop_last());
        assert(txs.last() == m[ids.last()].transaction);
    }
}

} // verus!

verus! {

impl Storage {
    /// Removes `root` and every transitive descendant. For each removed node,
    /// the aggregates of its remaining ancestors are debited by that node's
    /// own weights. Returns the removed transactions.
    pub fn remove_transaction_and_dependents_subtree(&mut self, root: u64) -> (r: Vec<
        PoolTransaction,
    >)
        requires
            old(self).wf(),
            old(self)@.contains_key(root),
        ensures
            final(self).wf(),
            final(self).next_index == old(self).next_index,
            forall|k: u64| #[trigger] final(self)@.contains_key(k) <==> old(self)@.contains_key(k)
                && !reaches(old(self)@, root, k),
            forall|k: u64| #[trigger] final(self)@.contains_key(k) ==> final(self)@[k].transaction
                == old(self)@[k].transaction && final(self)@[k].creation_instant == old(
                self,
            )@[k].creation_instant && final(self)@[k].parents@ == old(self)@[k].parents@,
            forall|k: u64, c: u64|
                #![trigger final(self)@[k].children@.contains(c)]
                final(self)@.contains_key(k) ==> (final(self)@[k].children@.contains(c) <==> old(
                    self,
                )@[k].children@.contains(c) && !reaches(old(self)@, root, c)),
            forall|j: int|
                0 <= j < r@.len() ==> exists|k: u64|
                    old(self)@.contains_key(k) && reaches(old(self)@, root, k) && old(
                        self,
                    )@[k].transaction == #[trigger] r@[j],
            forall|k: u64|
                old(self)@.contains_key(k) && reaches(old(self)@, root, k) ==> exists|j: int|
                    0 <= j < r@.len() && #[trigger] r@[j] == old(self)@[k].transaction,
            forall|j1: int, j2: int| 0 <= j1 < j2 < r@.len() ==> r@[j1].id != r@[j2].id,
            sum_gas(final(self).entries@) == sum_gas(old(self).entries@) - sum_tx_gas(r@),
            sum_bytes(final(self).entries@) == sum_bytes(old(self).entries@) - sum_tx_bytes(r@),
            r@.len() == old(self).entries@.len() - final(self).entries@.len(),
            r@.len() >= 1,
    {
        let ghost m0 = self@;
        let members = self.collect_subtree(root);
        let out = self.remove_collected(&members);
        proof {
            assert forall|k: u64| #[trigger] self@.contains_key(k) <==> m0.contains_key(k)
                && !reaches(m0, root, k) by {
                if m0.contains_key(k) {
                    assert(members@.contains(k) <==> reaches(m0, root, k));
                }
            }
            assert forall|k: u64, c: u64|
                #![trigger self@[k].children@.contains(c)]
                self@.contains_key(k) implies (self@[k].children@.contains(c)
                <==> m0[k].children@.contains(c) && !reaches(m0, root, c)) by {
                if m0[k].children@.contains(c) {
                    assert(child_edge(m0, k, c));
                    assert(m0.contains_key(c));
                    assert(members@.contains(c) <==> reaches(m0, root, c));
                }
            }
            assert forall|j: int| 0 <= j < out@.len() implies exists|k: u64|
                m0.contains_key(k) && reaches(m0, root, k) && m0[k].transaction
                    == #[trigger] out@[j] by {
                assert(members@.contains(members@[j]));
                assert(m0.contains_key(members@[j]) && reaches(m0, root, members@[j])
                    && m0[members@[j]].transaction == out@[j]);
            }
            assert forall|k: u64| m0.contains_key(k) && reaches(m0, root, k) implies exists|j: int|
                0 <= j < out@.len() && #[trigger] out@[j] == m0[k].transaction by {
                assert(members@.contains(k));
                let j = choose|j: int| 0 <= j < members@.len() && members@[j] == k;
                assert(out@[j] == m0[k].transaction);
            }
            assert forall|j1: int, j2: int| 0 <= j1 < j2 < out@.len() implies out@[j1].id
                != out@[j2].id by {
                let k1 = members@[j1];
                let k2 = members@[j2];
                assert(members@.contains(k1) && members@.contains(k2));
                assert(k1 != k2);
                assert(out@[j1] == m0[k1].transaction && out@[j2] == m0[k2].transaction);
            }
            assert(members@.contains(root));
            assert(out@.len() >= 1);
        }
        out
    }

    /// Collects, without duplicates, the members of every subtree rooted at
    /// one of `roots`: the union is closed under children.
    pub(crate) fn collect_subtrees_union(&self, roots: &Vec<u64>) -> (r: Vec<u64>)
        requires
            self.wf(),
            forall|x: u64| #[trigger] roots@.contains(x) ==> self@.contains_key(x),
        ensures
            r@.no_duplicates(),
            forall|x: u64| #[trigger] r@.contains(x) ==> self@.contains_key(x),
            forall|x: u64| #[trigger] roots@.contains(x) ==> r@.contains(x),
            forall|k: u64, c: u64|
                #![trigger r@.contains(k), self@[k].children@.contains(c)]
                r@.contains(k) && self@.contains_key(k) && self@[k].children@.contains(c)
                    ==> r@.contains(c),
            forall|x: u64| #[trigger] r@.contains(x) ==> exists|rt: u64|
                roots@.contains(rt) && reaches(self@, rt, x),
            forall|rt: u64, x: u64|
                #[trigger] roots@.contains(rt) && self@.contains_key(x) && reaches(self@, rt, x)
                    ==> #[trigger] r@.contains(x),
    {
        let n = roots.len();
        let mut acc: Vec<u64> = Vec::new();
        let mut i: usize = 0;
        while i < n
            invariant
                self.wf(),
                0 <= i <= n,
                n == roots@.len(),
                forall|x: u64| #[trigger] roots@.contains(x) ==> self@.contains_key(x),
                acc@.no_duplicates(),
                forall|x: u64| #[trigger] acc@.contains(x) ==> self@.contains_key(x),
                forall|j: int| 0 <= j < i ==> acc@.contains(#[trigger] roots@[j]),
                forall|k: u64, c: u64|
                    #![trigger acc@.contains(k), self@[k].children@.contains(c)]
                    acc@.contains(k) && self@.contains_key(k) && self@[k].children@.contains(c)
                        ==> acc@.contains(c),
                forall|x: u64| #[trigger] acc@.contains(x) ==> exists|rt: u64|
                    roots@.contains(rt) && reaches(self@, rt, x),
                forall|j: int, x: u64|
                    0 <= j < i && self@.contains_key(x) && reaches(self@, #[trigger] roots@[j], x)
                        ==> #[trigger] acc@.contains(x),
            decreases n - i,
        {
            let rt = roots[i];
            proof {
                assert(roots@.contains(rt));
            }
            let mem = self.collect_subtree(rt);
            let ghost acc0 = acc@;
            let m = mem.len();
            let mut j: usize = 0;
            while j < m
                invariant
                    self.wf(),
                    0 <= j <= m,
                    m == mem@.len(),
                    roots@.contains(rt),
                    self@.contains_key(rt),
                    acc@.no_duplicates(),
                    forall|x: u64| #[trigger] mem@.contains(x) ==> self@.contains_key(x)
                        && reaches(self@, rt, x),
                    forall|x: u64| #[trigger] acc@.contains(x) ==> self@.contains_key(x),
                    forall|x: u64| #[trigger] acc0.contains(x) ==> acc@.contains(x),
                    forall|x: u64| #[trigger] acc@.contains(x) ==> acc0.contains(x)
                        || mem@.contains(x),
                    forall|j2: int| 0 <= j2 < j ==> acc@.contains(#[trigger] mem@[j2]),
                decreases m - j,
            {
                proof {
                    assert(mem@.contains(mem@[j as int]));
                }
                push_if_new(&mut acc, mem[j]);
                j += 1;
            }
            proof {
                assert forall|x: u64| #[trigger] mem@.contains(x) implies acc@.contains(x) by {
                    let j2 = choose|j2: int| 0 <= j2 < mem@.len() && mem@[j2] == x;
                }
                assert forall|k: u64, c: u64|
                    #![trigger acc@.contains(k), self@[k].children@.contains(c)]
                    acc@.contains(k) && self@.contains_key(k) && self@[k].children@.contains(
                    c,
                ) implies acc@.contains(c) by {
                    if acc0.contains(k) {
                        assert(acc0.contains(c));
                    } else {
                        assert(mem@.contains(k));
                        assert(mem@.contains(c));
                    }
                }
                assert forall|x: u64| #[trigger] acc@.contains(x) implies exists|rt2: u64|
                    roots@.contains(rt2) && reaches(self@, rt2, x) by {
                    if !acc0.contains(x) {
                        assert(mem@.contains(x));
                        assert(roots@.contains(rt) && reaches(self@, rt, x));
                    }
                }
                assert forall|j2: int, x: u64|
                    0 <= j2 < i + 1 && self@.contains_key(x) && reaches(
                        self@,
                        #[trigger] roots@[j2],
                        x,
                    ) implies #[trigger] acc@.contains(x) by {
                    if j2 == i as int {
                        assert(mem@.contains(x));
                    } else {
                        assert(acc0.contains(x));
                    }
                }
            }
            i += 1;
        }
        proof {
            assert forall|rt: u64, x: u64|
                #[trigger] roots@.contains(rt) && self@.contains_key(x) && reaches(
                    self@,
                    rt,
                    x,
                ) implies #[trigger] acc@.contains(x) by {
                let j = choose|j: int| 0 <= j < roots@.len() && roots@[j] == rt;
            }
        }
        acc
    }
}

} // verus!
