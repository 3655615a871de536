//! The unspent-transaction-output (UTXO) ledger: for each applied
//! transaction hash, the transaction and the set of its output indices that
//! are still unspent.
//!
//! `spend`, `can_spend` and `revert` are the only mutators of ledger state.
//! Their behaviour is modelled by the spec functions `spec_spend`,
//! `spec_can_spend` and `spec_revert` over a map from transaction hash to
//! entry; `None` marks a ledger-consistency violation, which the executable
//! operations report as an explicit error, leaving the state unchanged.

use vstd::prelude::*;
use vstd::string::StringExecFns;
use crate::transaction::{Transaction, TransactionInput, TransactionInputV, TransactionOutputV, TransactionV, verify_transaction_input};

verus! {

/// Raised when a spend or revert would violate ledger consistency.
#[derive(Debug)]
pub struct UTXOException;

/// One ledger entry: an applied transaction and the indices of its outputs
/// that are still unspent.
pub struct UtxoEntry {
    pub tx: Transaction,
    pub unspent: Vec<usize>,
}

pub ghost struct UtxoEntryV {
    pub tx: TransactionV,
    pub unspent: Set<int>,
}

/// The set of integers that a sequence of indices holds.
pub open spec fn indices_set(s: Seq<usize>) -> Set<int> {
    Set::new(|j: int| exists|k: int| 0 <= k < s.len() && s[k] as int == j)
}

/// The indices `0 .. n`: all outputs of a freshly applied transaction.
pub open spec fn full_indices(n: nat) -> Set<int> {
    Set::new(|j: int| 0 <= j < n)
}

impl View for UtxoEntry {
    type V = UtxoEntryV;

    open spec fn view(&self) -> UtxoEntryV {
        UtxoEntryV { tx: self.tx@, unspent: indices_set(self.unspent@) }
    }
}

/// `m` with index `idx` added back to the unspent set of the entry at `h`.
pub open spec fn add_index(m: Map<Seq<char>, UtxoEntryV>, h: Seq<char>, idx: int)
    -> Map<Seq<char>, UtxoEntryV> {
    m.insert(h, UtxoEntryV { tx: m[h].tx, unspent: m[h].unspent.insert(idx) })
}

/// `m` with index `idx` removed from the unspent set of the entry at `h`.
pub open spec fn del_index(m: Map<Seq<char>, UtxoEntryV>, h: Seq<char>, idx: int)
    -> Map<Seq<char>, UtxoEntryV> {
    m.insert(h, UtxoEntryV { tx: m[h].tx, unspent: m[h].unspent.remove(idx) })
}

/// Consumes the output one input references: the referenced entry must exist
/// and the referenced index must still be unspent.
pub open spec fn spend_input_step(m: Map<Seq<char>, UtxoEntryV>, i: TransactionInputV)
    -> Option<Map<Seq<char>, UtxoEntryV>> {
    if m.contains_key(i.referenced_hash)
        && m[i.referenced_hash].unspent.contains(i.referenced_output_index as int) {
        Some(del_index(m, i.referenced_hash, i.referenced_output_index as int))
    } else {
        None
    }
}

/// Consumes the referenced outputs of all inputs, in order.
pub open spec fn spend_inputs(m: Map<Seq<char>, UtxoEntryV>, ins: Seq<TransactionInputV>)
    -> Option<Map<Seq<char>, UtxoEntryV>>
    decreases ins.len(),
{
    if ins.len() == 0 {
        Some(m)
    } else {
        match spend_input_step(m, ins[0]) {
            Some(m1) => spend_inputs(m1, ins.drop_first()),
            None => None,
        }
    }
}

/// Applies a transaction: its hash must be fresh, every input must consume
/// a still-unspent referenced output, and a fresh entry with all of its own
/// output indices unspent is added.
pub open spec fn spec_spend(m: Map<Seq<char>, UtxoEntryV>, tx: TransactionV)
    -> Option<Map<Seq<char>, UtxoEntryV>> {
    if m.contains_key(tx.hash) {
        None
    } else {
        match spend_inputs(m, tx.inputs) {
            Some(m1) => Some(
                m1.insert(tx.hash, UtxoEntryV { tx, unspent: full_indices(tx.outputs.len()) }),
            ),
            None => None,
        }
    }
}

/// Restores the output one input references: the referenced entry must exist
/// and the referenced index must currently be spent.
pub open spec fn revert_input_step(m: Map<Seq<char>, UtxoEntryV>, i: TransactionInputV)
    -> Option<Map<Seq<char>, UtxoEntryV>> {
    if m.contains_key(i.referenced_hash)
        && !m[i.referenced_hash].unspent.contains(i.referenced_output_index as int) {
        Some(add_index(m, i.referenced_hash, i.referenced_output_index as int))
    } else {
        None
    }
}

/// Restores the referenced outputs of all inputs, last input first.
pub open spec fn revert_inputs(m: Map<Seq<char>, UtxoEntryV>, ins: Seq<TransactionInputV>)
    -> Option<Map<Seq<char>, UtxoEntryV>>
    decreases ins.len(),
{
    if ins.len() == 0 {
        Some(m)
    } else {
        match revert_input_step(m, ins.last()) {
            Some(m1) => revert_inputs(m1, ins.drop_last()),
            None => None,
        }
    }
}

/// Unapplies a transaction: every referenced output is restored and the
/// transaction's own entry is removed entirely.
pub open spec fn spec_revert(m: Map<Seq<char>, UtxoEntryV>, tx: TransactionV)
    -> Option<Map<Seq<char>, UtxoEntryV>> {
    match revert_inputs(m, tx.inputs) {
        Some(m1) => Some(m1.remove(tx.hash)),
        None => None,
    }
}

/// The sum of the amounts of a transaction's outputs.
pub open spec fn outputs_amount_sum(outs: Seq<TransactionOutputV>) -> int
    decreases outs.len(),
{
    if outs.len() == 0 {
        0
    } else {
        outputs_amount_sum(outs.drop_last()) + outs.last().amount
    }
}

/// The amount of the output one input references.
pub open spec fn input_amount(m: Map<Seq<char>, UtxoEntryV>, i: TransactionInputV) -> int {
    m[i.referenced_hash].tx.outputs[i.referenced_output_index as int].amount as int
}

/// The sum of the amounts of the outputs a transaction's inputs reference.
pub open spec fn inputs_amount_sum(m: Map<Seq<char>, UtxoEntryV>, ins: Seq<TransactionInputV>)
    -> int
    decreases ins.len(),
{
    if ins.len() == 0 {
        0
    } else {
        inputs_amount_sum(m, ins.drop_last()) + input_amount(m, ins.last())
    }
}

pub open spec fn msg_no_utxo() -> Seq<char> {
    "Referenced UTXO does not exist."@
}

pub open spec fn msg_bad_reference() -> Seq<char> {
    "Referenced output does not exist."@
}

pub open spec fn msg_amount_mismatch() -> Seq<char> {
    "Input amounts do not match output amounts."@
}

pub open spec fn msg_zero_fee() -> Seq<char> {
    "Avoid smaller amount than output."@
}

/// The first validation failure among the inputs `k ..`, in order: the
/// referenced output must exist unspent in the ledger and its index must be
/// in range of the referenced transaction's outputs.
pub open spec fn check_inputs_from(m: Map<Seq<char>, UtxoEntryV>, t: TransactionV, k: nat)
    -> Option<Seq<char>>
    decreases t.inputs.len() - k,
{
    if k >= t.inputs.len() {
        None
    } else {
        let i = t.inputs[k as int];
        if !(m.contains_key(i.referenced_hash)
            && m[i.referenced_hash].unspent.contains(i.referenced_output_index as int)) {
            Some(msg_no_utxo())
        } else if !(i.referenced_output_index < m[i.referenced_hash].tx.outputs.len()) {
            Some(msg_bad_reference())
        } else {
            check_inputs_from(m, t, k + 1)
        }
    }
}

/// Pure validation of a candidate transaction against the ledger: every
/// input must reference an existing, unspent, in-range output. A coinbase
/// (mint) transaction is exempt from the balance rules; any other
/// transaction is rejected when its input total exceeds its output total,
/// and separately when the totals are equal (no zero-fee transfers).
pub open spec fn spec_can_spend(m: Map<Seq<char>, UtxoEntryV>, t: TransactionV)
    -> Result<bool, Seq<char>> {
    match check_inputs_from(m, t, 0) {
        Some(msg) => Err(msg),
        None => {
            let in_sum = inputs_amount_sum(m, t.inputs);
            let out_sum = outputs_amount_sum(t.outputs);
            let is_coinbase = t.inputs.len() == 0 && t.outputs.len() == 1;
            if !is_coinbase && in_sum > out_sum {
                Err(msg_amount_mismatch())
            } else if !is_coinbase && in_sum == out_sum {
                Err(msg_zero_fee())
            } else {
                Ok(true)
            }
        },
    }
}

/// Consuming outputs never changes which transactions have entries.
pub proof fn lemma_spend_inputs_dom(m: Map<Seq<char>, UtxoEntryV>, ins: Seq<TransactionInputV>)
    requires
        spend_inputs(m, ins) is Some,
    ensures
        spend_inputs(m, ins).unwrap().dom() == m.dom(),
        forall|h: Seq<char>| m.contains_key(h)
            ==> #[trigger] spend_inputs(m, ins).unwrap()[h].tx == m[h].tx,
    decreases ins.len(),
{
    if ins.len() > 0 {
        let m1 = spend_input_step(m, ins[0]).unwrap();
        assert(m1.dom() =~= m.dom());
        lemma_spend_inputs_dom(m1, ins.drop_first());
    }
}

/// Splitting a spend of the inputs at position `k`.
pub proof fn lemma_spend_inputs_split(
    m: Map<Seq<char>, UtxoEntryV>,
    ins: Seq<TransactionInputV>,
    k: int,
)
    requires
        0 <= k <= ins.len(),
    ensures
        spend_inputs(m, ins) == match spend_inputs(m, ins.take(k)) {
            Some(m1) => spend_inputs(m1, ins.skip(k)),
            None => None::<Map<Seq<char>, UtxoEntryV>>,
        },
    decreases k,
{
    if k == 0 {
        assert(ins.take(0).len() == 0);
        assert(ins.skip(0) =~= ins);
    } else {
        assert(ins.take(k)[0] == ins[0]);
        match spend_input_step(m, ins[0]) {
            Some(m1) => {
                assert(ins.take(k).drop_first() =~= ins.drop_first().take(k - 1));
                assert(ins.skip(k) =~= ins.drop_first().skip(k - 1));
                lemma_spend_inputs_split(m1, ins.drop_first(), k - 1);
            },
            None => {},
        }
    }
}

/// Re-adding the index a spend step removed restores the ledger exactly.
pub proof fn lemma_readd_undoes_spend_step(m: Map<Seq<char>, UtxoEntryV>, i: TransactionInputV)
    requires
        spend_input_step(m, i) is Some,
    ensures
        revert_input_step(spend_input_step(m, i).unwrap(), i) == Some(m),
{
    let h = i.referenced_hash;
    let idx = i.referenced_output_index as int;
    let m1 = spend_input_step(m, i).unwrap();
    assert(m1[h].unspent.insert(idx) =~= m[h].unspent);
    assert(add_index(m1, h, idx) =~= m);
}

/// Removing the index a revert step re-added restores the ledger exactly.
pub proof fn lemma_spend_undoes_readd_step(m: Map<Seq<char>, UtxoEntryV>, i: TransactionInputV)
    requires
        revert_input_step(m, i) is Some,
    ensures
        spend_input_step(revert_input_step(m, i).unwrap(), i) == Some(m),
{
    let h = i.referenced_hash;
    let idx = i.referenced_output_index as int;
    let m1 = revert_input_step(m, i).unwrap();
    assert(m1[h].unspent.remove(idx) =~= m[h].unspent);
    assert(del_index(m1, h, idx) =~= m);
}

/// Reverting the inputs of a successful input spend, last first, restores
/// the ledger exactly.
pub proof fn lemma_revert_undoes_spend_inputs(
    m: Map<Seq<char>, UtxoEntryV>,
    ins: Seq<TransactionInputV>,
)
    requires
        spend_inputs(m, ins) is Some,
    ensures
        revert_inputs(spend_inputs(m, ins).unwrap(), ins) == Some(m),
    decreases ins.len(),
{
    if ins.len() > 0 {
        lemma_spend_inputs_split(m, ins, ins.len() - 1);
        assert(ins.take(ins.len() - 1) =~= ins.drop_last());
        let ma = spend_inputs(m, ins.drop_last()).unwrap();
        let single = ins.skip(ins.len() - 1);
        assert(single.len() == 1);
        assert(single[0] == ins.last());
        assert(spend_inputs(m, ins) == spend_inputs(ma, single));
        assert(spend_input_step(ma, ins.last()) is Some);
        let m1 = spend_input_step(ma, ins.last()).unwrap();
        assert(spend_inputs(m1, single.drop_first()) == Some(m1));
        assert(spend_inputs(m, ins) == Some(m1));
        lemma_readd_undoes_spend_step(ma, ins.last());
        lemma_revert_undoes_spend_inputs(m, ins.drop_last());
    }
}

/// A key no input references passes through an input revert untouched.
pub proof fn lemma_revert_inputs_fresh_key(
    m: Map<Seq<char>, UtxoEntryV>,
    ins: Seq<TransactionInputV>,
    h: Seq<char>,
    e: UtxoEntryV,
)
    requires
        forall|k: int| 0 <= k < ins.len() ==> (#[trigger] ins[k]).referenced_hash != h,
        revert_inputs(m, ins) is Some,
    ensures
        revert_inputs(m.insert(h, e), ins) == Some(revert_inputs(m, ins).unwrap().insert(h, e)),
    decreases ins.len(),
{
    if ins.len() == 0 {
    } else {
        let i = ins.last();
        let m1 = revert_input_step(m, i).unwrap();
        assert(revert_input_step(m.insert(h, e), i) == Some(m1.insert(h, e))) by {
            assert(add_index(m.insert(h, e), i.referenced_hash, i.referenced_output_index as int)
                =~= m1.insert(h, e));
        }
        lemma_revert_inputs_fresh_key(m1, ins.drop_last(), h, e);
    }
}

/// Spending a transaction and then reverting it restores the ledger to its
/// pre-spend state exactly: the referenced output indices return to their
/// entries' unspent sets, and the transaction's own entry — added by the
/// spend — is removed entirely (it is not restored, only removed). Together
/// with the contracts of `UTXOManager::spend` and `UTXOManager::revert`,
/// whenever `spend(tx)` returns `Ok` from some ledger state, a following
/// `revert(tx)` returns `Ok` and yields that state again.
pub proof fn lemma_spend_revert_round_trip(m: Map<Seq<char>, UtxoEntryV>, tx: TransactionV)
    requires
        spec_spend(m, tx) is Some,
    ensures
        spec_revert(spec_spend(m, tx).unwrap(), tx) == Some(m),
{
    let m1 = spend_inputs(m, tx.inputs).unwrap();
    let e = UtxoEntryV { tx, unspent: full_indices(tx.outputs.len()) };
    lemma_spend_inputs_dom(m, tx.inputs);
    lemma_revert_undoes_spend_inputs(m, tx.inputs);
    assert forall|k: int| 0 <= k < tx.inputs.len() implies
        (#[trigger] tx.inputs[k]).referenced_hash != tx.hash by {
        lemma_spend_inputs_split(m, tx.inputs, k);
        if tx.inputs[k].referenced_hash == tx.hash {
            let mk = spend_inputs(m, tx.inputs.take(k)).unwrap();
            lemma_spend_inputs_dom(m, tx.inputs.take(k));
            assert(spend_inputs(mk, tx.inputs.skip(k)) is Some);
            assert(tx.inputs.skip(k)[0] == tx.inputs[k]);
            assert(mk.contains_key(tx.hash));
        }
    }
    lemma_revert_inputs_fresh_key(m1, tx.inputs, tx.hash, e);
    assert(revert_inputs(m1, tx.inputs) == Some(m));
    assert(spec_revert(spec_spend(m, tx).unwrap(), tx) == Some(m.insert(tx.hash, e).remove(tx.hash)));
    assert(m.insert(tx.hash, e).remove(tx.hash) =~= m);
}

} // verus!

// The manager stores entries in a vector with pairwise-distinct transaction
// hashes; its view is the map from hash to entry that the vector encodes.

verus! {

pub open spec fn entries_map(s: Seq<UtxoEntryV>) -> Map<Seq<char>, UtxoEntryV>
    decreases s.len(),
{
    if s.len() == 0 {
        Map::empty()
    } else {
        entries_map(s.drop_last()).insert(s.last().tx.hash, s.last())
    }
}

pub open spec fn distinct_keys(s: Seq<UtxoEntryV>) -> bool {
    forall|k1: int, k2: int| 0 <= k1 < k2 < s.len()
        ==> (#[trigger] s[k1]).tx.hash != (#[trigger] s[k2]).tx.hash
}

/// A sequence of indices without repetition.
pub open spec fn nodup(s: Seq<usize>) -> bool {
    forall|k1: int, k2: int| 0 <= k1 < k2 < s.len() ==> #[trigger] s[k1] != #[trigger] s[k2]
}

proof fn lemma_entries_map_contains(s: Seq<UtxoEntryV>, h: Seq<char>)
    ensures
        entries_map(s).contains_key(h) <==> exists|i: int| 0 <= i < s.len()
            && (#[trigger] s[i]).tx.hash == h,
    decreases s.len(),
{
    if s.len() > 0 {
        lemma_entries_map_contains(s.drop_last(), h);
        if entries_map(s).contains_key(h) {
            if s.last().tx.hash == h {
                assert(s[s.len() - 1].tx.hash == h);
            } else {
                let i = choose|i: int| 0 <= i < s.drop_last().len()
                    && (#[trigger] s.drop_last()[i]).tx.hash == h;
                assert(s[i].tx.hash == h);
            }
        }
        if exists|i: int| 0 <= i < s.len() && (#[trigger] s[i]).tx.hash == h {
            let i = choose|i: int| 0 <= i < s.len() && (#[trigger] s[i]).tx.hash == h;
            if i < s.len() - 1 {
                assert(s.drop_last()[i].tx.hash == h);
            }
        }
    }
}

proof fn lemma_entries_map_index(s: Seq<UtxoEntryV>, i: int)
    requires
        distinct_keys(s),
        0 <= i < s.len(),
    ensures
        entries_map(s).contains_key(s[i].tx.hash),
        entries_map(s)[s[i].tx.hash] == s[i],
    decreases s.len(),
{
    if i < s.len() - 1 {
        assert(distinct_keys(s.drop_last()));
        assert(s.drop_last()[i] == s[i]);
        lemma_entries_map_index(s.drop_last(), i);
        assert(s[i].tx.hash != s.last().tx.hash);
    }
}

proof fn lemma_entries_map_update(s: Seq<UtxoEntryV>, i: int, e: UtxoEntryV)
    requires
        distinct_keys(s),
        0 <= i < s.len(),
        e.tx.hash == s[i].tx.hash,
    ensures
        distinct_keys(s.update(i, e)),
        entries_map(s.update(i, e)) == entries_map(s).insert(s[i].tx.hash, e),
    decreases s.len(),
{
    let h = s[i].tx.hash;
    if i == s.len() - 1 {
        assert(s.update(i, e).drop_last() =~= s.drop_last());
        assert(s.update(i, e).last() == e);
        assert(entries_map(s.drop_last()).insert(h, e)
            =~= entries_map(s.drop_last()).insert(h, s[i]).insert(h, e));
    } else {
        assert(distinct_keys(s.drop_last()));
        assert(s.drop_last()[i] == s[i]);
        lemma_entries_map_update(s.drop_last(), i, e);
        assert(s.update(i, e).drop_last() =~= s.drop_last().update(i, e));
        assert(s.update(i, e).last() == s.last());
        assert(s[i].tx.hash != s.last().tx.hash);
        assert(entries_map(s.drop_last()).insert(h, e).insert(s.last().tx.hash, s.last())
            =~= entries_map(s.drop_last()).insert(s.last().tx.hash, s.last()).insert(h, e));
    }
}

proof fn lemma_entries_map_remove(s: Seq<UtxoEntryV>, i: int)
    requires
        distinct_keys(s),
        0 <= i < s.len(),
    ensures
        distinct_keys(s.remove(i)),
        entries_map(s.remove(i)) == entries_map(s).remove(s[i].tx.hash),
    decreases s.len(),
{
    let h = s[i].tx.hash;
    if i == s.len() - 1 {
        assert(s.remove(i) =~= s.drop_last());
        lemma_entries_map_contains(s.drop_last(), h);
        assert(!entries_map(s.drop_last()).contains_key(h));
        assert(entries_map(s.drop_last())
            =~= entries_map(s.drop_last()).insert(h, s[i]).remove(h));
    } else {
        assert(distinct_keys(s.drop_last()));
        assert(s.drop_last()[i] == s[i]);
        lemma_entries_map_remove(s.drop_last(), i);
        assert(s.remove(i).drop_last() =~= s.drop_last().remove(i));
        assert(s.remove(i).last() == s.last());
        assert(s[i].tx.hash != s.last().tx.hash);
        assert(entries_map(s.drop_last()).remove(h).insert(s.last().tx.hash, s.last())
            =~= entries_map(s.drop_last()).insert(s.last().tx.hash, s.last()).remove(h));
    }
}

proof fn lemma_indices_set_contains(s: Seq<usize>, x: usize)
    ensures
        indices_set(s).contains(x as int) <==> s.contains(x),
{
    if s.contains(x) {
        let k = choose|k: int| 0 <= k < s.len() && s[k] == x;
        assert(s[k] as int == x as int);
    }
    if indices_set(s).contains(x as int) {
        let k = choose|k: int| 0 <= k < s.len() && s[k] as int == x as int;
        assert(s[k] == x);
    }
}

proof fn lemma_indices_set_push(s: Seq<usize>, x: usize)
    ensures
        indices_set(s.push(x)) == indices_set(s).insert(x as int),
{
    assert forall|j: int| indices_set(s.push(x)).contains(j)
        <==> indices_set(s).insert(x as int).contains(j) by {
        if indices_set(s.push(x)).contains(j) {
            let k = choose|k: int| 0 <= k < s.push(x).len() && s.push(x)[k] as int == j;
            if k < s.len() {
                assert(s[k] as int == j);
            }
        }
        if indices_set(s).contains(j) {
            let k = choose|k: int| 0 <= k < s.len() && s[k] as int == j;
            assert(s.push(x)[k] as int == j);
        }
        if j == x as int {
            assert(s.push(x)[s.len() as int] as int == j);
        }
    }
    assert(indices_set(s.push(x)) =~= indices_set(s).insert(x as int));
}

proof fn lemma_indices_set_swap_remove(s: Seq<usize>, p: int)
    requires
        nodup(s),
        0 <= p < s.len(),
    ensures
        nodup(s.update(p, s.last()).drop_last()),
        indices_set(s.update(p, s.last()).drop_last()) == indices_set(s).remove(s[p] as int),
    decreases s.len(),
{
    let s2 = s.update(p, s.last()).drop_last();
    assert forall|j: int| indices_set(s2).contains(j)
        <==> indices_set(s).remove(s[p] as int).contains(j) by {
        if indices_set(s2).contains(j) {
            let k = choose|k: int| 0 <= k < s2.len() && s2[k] as int == j;
            if k == p {
                assert(s[s.len() - 1] as int == j);
                assert(j != s[p] as int);
            } else {
                assert(s[k] as int == j);
                assert(j != s[p] as int);
            }
        }
        if indices_set(s).contains(j) && j != s[p] as int {
            let k = choose|k: int| 0 <= k < s.len() && s[k] as int == j;
            assert(k != p);
            if k == s.len() - 1 {
                assert(p < s.len() - 1);
                assert(s2[p] as int == j);
            } else {
                assert(s2[k] as int == j);
            }
        }
    }
    assert(indices_set(s2) =~= indices_set(s).remove(s[p] as int));
}

fn find_index(v: &Vec<usize>, x: usize) -> (r: Option<usize>)
    ensures
        match r {
            Some(p) => p < v@.len() && v@[p as int] == x,
            None => !v@.contains(x),
        },
{
    let mut i: usize = 0;
    while i < v.len()
        invariant
            i <= v@.len(),
            forall|k: int| 0 <= k < i ==> v@[k] != x,
        decreases v@.len() - i,
    {
        if v[i] == x {
            return Some(i);
        }
        i = i + 1;
    }
    None
}

/// The mutable unspent-transaction-output set of the accepted best branch.
pub struct UTXOManager {
    entries: Vec<UtxoEntry>,
}

impl View for UTXOManager {
    type V = Map<Seq<char>, UtxoEntryV>;

    closed spec fn view(&self) -> Map<Seq<char>, UtxoEntryV> {
        entries_map(self.entries@.map_values(|e: UtxoEntry| e@))
    }
}

impl UTXOManager {
    /// Entry hashes are pairwise distinct and no unspent list repeats an index.
    pub closed spec fn wf(&self) -> bool {
        &&& distinct_keys(self.entries@.map_values(|e: UtxoEntry| e@))
        &&& forall|i: int| 0 <= i < self.entries@.len()
            ==> nodup((#[trigger] self.entries@[i]).unspent@)
    }

    spec fn evs(&self) -> Seq<UtxoEntryV> {
        self.entries@.map_values(|e: UtxoEntry| e@)
    }

    /// An empty ledger.
    pub fn new() -> (m: UTXOManager)
        ensures
            m.wf(),
            m@ == Map::<Seq<char>, UtxoEntryV>::empty(),
    {
        UTXOManager { entries: Vec::new() }
    }

    fn find_entry(&self, hash: &String) -> (r: Option<usize>)
        requires
            self.wf(),
        ensures
            match r {
                Some(i) => i < self.entries@.len()
                    && self.entries@[i as int]@.tx.hash == hash@
                    && self@.contains_key(hash@)
                    && self@[hash@] == self.entries@[i as int]@,
                None => !self@.contains_key(hash@),
            },
    {
        let mut i: usize = 0;
        while i < self.entries.len()
            invariant
                self.wf(),
                i <= self.entries@.len(),
                forall|k: int| 0 <= k < i ==> (#[trigger] self.entries@[k])@.tx.hash != hash@,
            decreases self.entries@.len() - i,
        {
            if self.entries[i].tx.hash == *hash {
                proof {
                    lemma_entries_map_index(self.evs(), i as int);
                }
                return Some(i);
            }
            i = i + 1;
        }
        proof {
            lemma_entries_map_contains(self.evs(), hash@);
        }
        None
    }

    /// Whether the ledger holds an entry for a transaction hash.
    pub fn contains_entry(&self, hash: &String) -> (r: bool)
        requires
            self.wf(),
        ensures
            r == self@.contains_key(hash@),
    {
        match self.find_entry(hash) {
            Some(_) => true,
            None => false,
        }
    }

    /// Whether output `index` of the transaction with hash `hash` is applied
    /// and still unspent.
    pub fn is_unspent(&self, hash: &String, index: usize) -> (r: bool)
        requires
            self.wf(),
        ensures
            r == (self@.contains_key(hash@) && self@[hash@].unspent.contains(index as int)),
    {
        match self.find_entry(hash) {
            Some(i) => {
                let r = match find_index(&self.entries[i].unspent, index) {
                    Some(_) => true,
                    None => false,
                };
                proof {
                    lemma_indices_set_contains(self.entries@[i as int].unspent@, index);
                }
                r
            },
            None => false,
        }
    }

    fn spend_one(&mut self, input: &TransactionInput) -> (r: bool)
        requires
            old(self).wf(),
        ensures
            final(self).wf(),
            r == (spend_input_step(old(self)@, input@) is Some),
            r ==> Some(final(self)@) == spend_input_step(old(self)@, input@),
            !r ==> final(self)@ == old(self)@,
    {
        let idx = input.referenced_output_index;
        match self.find_entry(&input.referenced_hash) {
            None => false,
            Some(i) => {
                proof {
                    lemma_indices_set_contains(self.entries@[i as int].unspent@, idx);
                }
                match find_index(&self.entries[i].unspent, idx) {
                    None => false,
                    Some(p) => {
                        let ghost s0 = self.evs();
                        let ghost u0 = self.entries@[i as int].unspent@;
                        let mut e = self.entries.remove(i);
                        e.unspent.swap_remove(p);
                        proof {
                            lemma_indices_set_swap_remove(u0, p as int);
                        }
                        self.entries.insert(i, e);
                        proof {
                            assert(self.entries@ =~= old(self).entries@.update(i as int, e));
                            assert(self.evs() =~= s0.update(i as int, e@));
                            lemma_entries_map_update(s0, i as int, e@);
                            assert(self@ =~= del_index(old(self)@, input@.referenced_hash,
                                input@.referenced_output_index as int));
                        }
                        true
                    },
                }
            },
        }
    }

    fn readd_one(&mut self, input: &TransactionInput) -> (r: bool)
        requires
            old(self).wf(),
        ensures
            final(self).wf(),
            r == (revert_input_step(old(self)@, input@) is Some),
            r ==> Some(final(self)@) == revert_input_step(old(self)@, input@),
            !r ==> final(self)@ == old(self)@,
    {
        let idx = input.referenced_output_index;
        match self.find_entry(&input.referenced_hash) {
            None => false,
            Some(i) => {
                proof {
                    lemma_indices_set_contains(self.entries@[i as int].unspent@, idx);
                }
                match find_index(&self.entries[i].unspent, idx) {
                    Some(_) => false,
                    None => {
                        let ghost s0 = self.evs();
                        let ghost u0 = self.entries@[i as int].unspent@;
                        let mut e = self.entries.remove(i);
                        e.unspent.push(idx);
                        proof {
                            lemma_indices_set_push(u0, idx);
                            assert(nodup(u0.push(idx))) by {
                                assert(forall|k: int| 0 <= k < u0.len() ==> u0[k] != idx);
                            }
                        }
                        self.entries.insert(i, e);
                        proof {
                            assert(self.entries@ =~= old(self).entries@.update(i as int, e));
                            assert(self.evs() =~= s0.update(i as int, e@));
                            lemma_entries_map_update(s0, i as int, e@);
                            assert(self@ =~= add_index(old(self)@, input@.referenced_hash,
                                input@.referenced_output_index as int));
                        }
                        true
                    },
                }
            },
        }
    }
}

} // verus!

// The three ledger operations: validate, apply, unapply.

verus! {

/// Peeling an input revert at position `k`: the inputs after `k` are
/// restored first, then those before `k`.
pub proof fn lemma_revert_inputs_split(
    m: Map<Seq<char>, UtxoEntryV>,
    ins: Seq<TransactionInputV>,
    k: int,
)
    requires
        0 <= k <= ins.len(),
    ensures
        revert_inputs(m, ins) == match revert_inputs(m, ins.skip(k)) {
            Some(m1) => revert_inputs(m1, ins.take(k)),
            None => None::<Map<Seq<char>, UtxoEntryV>>,
        },
    decreases ins.len() - k,
{
    if k == ins.len() {
        assert(ins.skip(k).len() == 0);
        assert(ins.take(k) =~= ins);
    } else {
        assert(ins.skip(k).last() == ins.last());
        match revert_input_step(m, ins.last()) {
            Some(m1) => {
                assert(ins.drop_last().skip(k) =~= ins.skip(k).drop_last());
                assert(ins.drop_last().take(k) =~= ins.take(k));
                lemma_revert_inputs_split(m1, ins.drop_last(), k);
            },
            None => {},
        }
    }
}

impl UTXOManager {
    /// Applies a transaction to the ledger: consumes every referenced output
    /// and records the transaction's own outputs as unspent. Returns an error
    /// — leaving the ledger unchanged — exactly when `spec_spend` is `None`:
    /// a referenced output is missing or already spent, or the transaction's
    /// hash already has an entry.
    pub fn spend(&mut self, new_transaction: &Transaction) -> (r: Result<(), UTXOException>)
        requires
            old(self).wf(),
        ensures
            final(self).wf(),
            spec_spend(old(self)@, new_transaction@) is Some
                ==> r is Ok && Some(final(self)@) == spec_spend(old(self)@, new_transaction@),
            spec_spend(old(self)@, new_transaction@) is None
                ==> r is Err && final(self)@ == old(self)@,
    {
        let ghost m0 = self@;
        let ghost iv = new_transaction@.inputs;
        if self.contains_entry(&new_transaction.hash) {
            return Err(UTXOException);
        }
        let mut k: usize = 0;
        while k < new_transaction.inputs.len()
            invariant
                self.wf(),
                k <= iv.len(),
                iv == new_transaction@.inputs,
                iv.len() == new_transaction.inputs@.len(),
                spend_inputs(m0, iv.take(k as int)) == Some(self@),
                m0 == old(self)@,
            decreases iv.len() - k,
        {
            let ghost mk = self@;
            let ok = self.spend_one(&new_transaction.inputs[k]);
            if !ok {
                proof {
                    lemma_spend_inputs_split(m0, iv, k as int);
                    assert(iv.skip(k as int)[0] == iv[k as int]);
                    assert(spend_inputs(m0, iv) is None);
                }
                let mut j: usize = k;
                while j > 0
                    invariant
                        self.wf(),
                        j <= iv.len(),
                        iv == new_transaction@.inputs,
                        iv.len() == new_transaction.inputs@.len(),
                        spend_inputs(m0, iv.take(j as int)) == Some(self@),
                        m0 == old(self)@,
                        spend_inputs(m0, iv) is None,
                    decreases j,
                {
                    j = j - 1;
                    proof {
                        lemma_spend_inputs_split(m0, iv.take(j + 1), j as int);
                        assert(iv.take(j + 1).take(j as int) =~= iv.take(j as int));
                        let tail = iv.take(j + 1).skip(j as int);
                        assert(tail.len() == 1);
                        assert(tail[0] == iv[j as int]);
                        assert(tail.drop_first().len() == 0);
                        let mj = spend_inputs(m0, iv.take(j as int)).unwrap();
                        assert(spend_input_step(mj, iv[j as int]) is Some);
                        assert(spend_inputs(spend_input_step(mj, iv[j as int]).unwrap(),
                            tail.drop_first()) == spend_input_step(mj, iv[j as int]));
                        assert(spend_input_step(mj, iv[j as int]) == Some(self@));
                        lemma_readd_undoes_spend_step(mj, iv[j as int]);
                    }
                    let ok2 = self.readd_one(&new_transaction.inputs[j]);
                    proof {
                        assert(ok2);
                    }
                }
                proof {
                    assert(iv.take(0).len() == 0);
                    assert(spend_inputs(m0, iv.take(0)) == Some(m0));
                }
                return Err(UTXOException);
            }
            proof {
                assert(Some(self@) == spend_input_step(mk, iv[k as int]));
                lemma_spend_inputs_split(m0, iv.take(k + 1), k as int);
                assert(iv.take(k + 1).take(k as int) =~= iv.take(k as int));
                let tail = iv.take(k + 1).skip(k as int);
                assert(tail.len() == 1);
                assert(tail[0] == iv[k as int]);
                assert(tail.drop_first().len() == 0);
                assert(spend_inputs(self@, tail.drop_first()) == Some(self@));
                assert(spend_inputs(mk, tail) == Some(self@));
                assert(spend_inputs(m0, iv.take(k + 1)) == Some(self@));
            }
            k = k + 1;
        }
        proof {
            assert(iv.take(iv.len() as int) =~= iv);
            lemma_spend_inputs_dom(m0, iv);
        }
        let out_len = new_transaction.outputs.len();
        let mut unspent: Vec<usize> = Vec::new();
        let mut j: usize = 0;
        while j < out_len
            invariant
                j <= out_len,
                unspent@.len() == j,
                forall|p: int| 0 <= p < j ==> unspent@[p] == p,
            decreases out_len - j,
        {
            unspent.push(j);
            j = j + 1;
        }
        let entry = UtxoEntry { tx: new_transaction.duplicate(), unspent };
        proof {
            assert(entry@.unspent =~= full_indices(new_transaction@.outputs.len())) by {
                assert forall|x: int| entry@.unspent.contains(x)
                    <==> full_indices(new_transaction@.outputs.len()).contains(x) by {
                    if 0 <= x < new_transaction@.outputs.len() {
                        assert(entry.unspent@[x] as int == x);
                    }
                }
            }
            assert(nodup(entry.unspent@));
            let s0 = self.evs();
            lemma_entries_map_contains(s0, new_transaction@.hash);
        }
        let ghost pre_push = self.evs();
        self.entries.push(entry);
        proof {
            assert(self.evs() =~= pre_push.push(entry@));
            assert(self.evs().drop_last() =~= pre_push);
            assert(distinct_keys(self.evs()));
        }
        Ok(())
    }

    /// Pure validation, no mutation: returns `Ok(true)` exactly when
    /// `spec_can_spend` accepts the transaction, and otherwise the error
    /// message `spec_can_spend` prescribes.
    pub fn can_spend(&self, new_transaction: &Transaction) -> (r: Result<bool, String>)
        requires
            self.wf(),
        ensures
            (r is Ok) == (spec_can_spend(self@, new_transaction@) is Ok),
            r is Ok ==> r->Ok_0 == true,
            r is Err ==> r->Err_0@ == spec_can_spend(self@, new_transaction@)->Err_0,
    {
        let ghost tv = new_transaction@;
        let is_coinbase = new_transaction.is_coinbase();
        let mut input_amounts: u128 = 0;
        let mut k: usize = 0;
        while k < new_transaction.inputs.len()
            invariant
                self.wf(),
                tv == new_transaction@,
                tv.inputs.len() == new_transaction.inputs@.len(),
                k <= tv.inputs.len(),
                check_inputs_from(self@, tv, 0) == check_inputs_from(self@, tv, k as nat),
                input_amounts == inputs_amount_sum(self@, tv.inputs.take(k as int)),
                input_amounts <= k * 0xffff_ffff_ffff_ffffu128,
            decreases tv.inputs.len() - k,
        {
            let input = &new_transaction.inputs[k];
            match self.find_entry(&input.referenced_hash) {
                None => {
                    return Err(String::from_str("Referenced UTXO does not exist."));
                },
                Some(i) => {
                    proof {
                        lemma_indices_set_contains(self.entries@[i as int].unspent@,
                            input.referenced_output_index);
                    }
                    match find_index(&self.entries[i].unspent, input.referenced_output_index) {
                        None => {
                            return Err(String::from_str("Referenced UTXO does not exist."));
                        },
                        Some(_) => {},
                    }
                    let (ok, msg) = verify_transaction_input(&self.entries[i].tx, new_transaction,
                        k);
                    if !ok {
                        return Err(msg);
                    }
                    let amount = self.entries[i].tx.outputs[input.referenced_output_index].amount;
                    proof {
                        let pre = tv.inputs.take(k + 1);
                        assert(pre.drop_last() =~= tv.inputs.take(k as int));
                        assert(pre.last() == tv.inputs[k as int]);
                        assert(input_amount(self@, tv.inputs[k as int]) == amount as int);
                        assert((k + 1) * 0xffff_ffff_ffff_ffffu128
                            == k * 0xffff_ffff_ffff_ffffu128 + 0xffff_ffff_ffff_ffffu128)
                            by (nonlinear_arith);
                        assert(k as int + 1 <= 0x1_0000_0000_0000_0000int);
                        assert((k as int + 1) * 0xffff_ffff_ffff_ffff
                            <= 0x1_0000_0000_0000_0000int * 0xffff_ffff_ffff_ffff)
                            by (nonlinear_arith)
                            requires k as int + 1 <= 0x1_0000_0000_0000_0000int;
                    }
                    input_amounts = input_amounts + amount as u128;
                },
            }
            k = k + 1;
        }
        proof {
            assert(tv.inputs.take(tv.inputs.len() as int) =~= tv.inputs);
        }
        let mut output_amounts: u128 = 0;
        let mut j: usize = 0;
        while j < new_transaction.outputs.len()
            invariant
                tv == new_transaction@,
                tv.outputs.len() == new_transaction.outputs@.len(),
                j <= tv.outputs.len(),
                output_amounts == outputs_amount_sum(tv.outputs.take(j as int)),
                output_amounts <= j * 0xffff_ffff_ffff_ffffu128,
            decreases tv.outputs.len() - j,
        {
            let amount = new_transaction.outputs[j].amount;
            proof {
                let pre = tv.outputs.take(j + 1);
                assert(pre.drop_last() =~= tv.outputs.take(j as int));
                assert(pre.last() == tv.outputs[j as int]);
                assert((j + 1) * 0xffff_ffff_ffff_ffffu128
                    == j * 0xffff_ffff_ffff_ffffu128 + 0xffff_ffff_ffff_ffffu128)
                    by (nonlinear_arith);
                assert(j as int + 1 <= 0x1_0000_0000_0000_0000int);
                assert((j as int + 1) * 0xffff_ffff_ffff_ffff
                    <= 0x1_0000_0000_0000_0000int * 0xffff_ffff_ffff_ffff)
                    by (nonlinear_arith)
                    requires j as int + 1 <= 0x1_0000_0000_0000_0000int;
            }
            output_amounts = output_amounts + amount as u128;
            j = j + 1;
        }
        proof {
            assert(tv.outputs.take(tv.outputs.len() as int) =~= tv.outputs);
        }
        if !is_coinbase && input_amounts > output_amounts {
            Err(String::from_str("Input amounts do not match output amounts."))
        } else if !is_coinbase && input_amounts == output_amounts {
            Err(String::from_str("Avoid smaller amount than output."))
        } else {
            Ok(true)
        }
    }

    /// Unapplies a transaction: restores every referenced output, last input
    /// first, then removes the transaction's own entry entirely. Returns an
    /// error — leaving the ledger unchanged — exactly when `spec_revert` is
    /// `None`: a referenced entry is missing, or a referenced index was not
    /// actually spent.
    pub fn revert(&mut self, tx: &Transaction) -> (r: Result<(), UTXOException>)
        requires
            old(self).wf(),
        ensures
            final(self).wf(),
            spec_revert(old(self)@, tx@) is Some
                ==> r is Ok && Some(final(self)@) == spec_revert(old(self)@, tx@),
            spec_revert(old(self)@, tx@) is None
                ==> r is Err && final(self)@ == old(self)@,
    {
        let ghost m0 = self@;
        let ghost iv = tx@.inputs;
        let mut k: usize = tx.inputs.len();
        proof {
            assert(iv.skip(iv.len() as int).len() == 0);
        }
        while k > 0
            invariant
                self.wf(),
                k <= iv.len(),
                iv == tx@.inputs,
                iv.len() == tx.inputs@.len(),
                revert_inputs(m0, iv.skip(k as int)) == Some(self@),
                m0 == old(self)@,
            decreases k,
        {
            k = k - 1;
            let ghost mk = self@;
            let ok = self.readd_one(&tx.inputs[k]);
            if !ok {
                proof {
                    lemma_revert_inputs_split(m0, iv.skip(k as int), 1);
                    assert(iv.skip(k as int).skip(1) =~= iv.skip(k + 1));
                    let head = iv.skip(k as int).take(1);
                    assert(head.len() == 1);
                    assert(head.last() == iv[k as int]);
                    assert(revert_input_step(mk, iv[k as int]) is None);
                    assert(revert_inputs(mk, head) is None);
                    assert(revert_inputs(m0, iv.skip(k as int)) is None);
                    lemma_revert_inputs_split(m0, iv, k as int);
                    assert(revert_inputs(m0, iv) is None);
                }
                let mut j: usize = k + 1;
                while j < tx.inputs.len()
                    invariant
                        self.wf(),
                        j <= iv.len(),
                        iv == tx@.inputs,
                        iv.len() == tx.inputs@.len(),
                        revert_inputs(m0, iv.skip(j as int)) == Some(self@),
                        m0 == old(self)@,
                        revert_inputs(m0, iv) is None,
                    decreases iv.len() - j,
                {
                    let ghost mj = self@;
                    proof {
                        lemma_revert_inputs_split(m0, iv.skip(j as int), 1);
                        assert(iv.skip(j as int).skip(1) =~= iv.skip(j + 1));
                        let head = iv.skip(j as int).take(1);
                        assert(head.len() == 1);
                        assert(head.last() == iv[j as int]);
                        assert(head.drop_last().len() == 0);
                        let mnext = revert_inputs(m0, iv.skip(j + 1)).unwrap();
                        assert(revert_input_step(mnext, iv[j as int]) is Some);
                        assert(revert_inputs(revert_input_step(mnext, iv[j as int]).unwrap(),
                            head.drop_last()) == revert_input_step(mnext, iv[j as int]));
                        assert(revert_input_step(mnext, iv[j as int]) == Some(mj));
                        lemma_spend_undoes_readd_step(mnext, iv[j as int]);
                    }
                    let ok2 = self.spend_one(&tx.inputs[j]);
                    proof {
                        assert(ok2);
                        assert(revert_inputs(m0, iv.skip(j + 1)) == Some(self@));
                    }
                    j = j + 1;
                }
                proof {
                    assert(iv.skip(iv.len() as int).len() == 0);
                    assert(revert_inputs(m0, iv.skip(iv.len() as int)) == Some(m0));
                }
                return Err(UTXOException);
            }
            proof {
                lemma_revert_inputs_split(m0, iv.skip(k as int), 1);
                assert(iv.skip(k as int).skip(1) =~= iv.skip(k + 1));
                let head = iv.skip(k as int).take(1);
                assert(head.len() == 1);
                assert(head.last() == iv[k as int]);
                assert(head.drop_last().len() == 0);
                assert(Some(self@) == revert_input_step(mk, iv[k as int]));
                assert(revert_inputs(self@, head.drop_last()) == Some(self@));
                assert(revert_inputs(mk, head) == Some(self@));
                assert(revert_inputs(m0, iv.skip(k as int)) == Some(self@));
            }
        }
        proof {
            assert(iv.skip(0) =~= iv);
            assert(revert_inputs(m0, iv) == Some(self@));
        }
        let ghost m1 = self@;
        match self.find_entry(&tx.hash) {
            Some(i) => {
                let ghost s0 = self.evs();
                self.entries.remove(i);
                proof {
                    assert(self.evs() =~= s0.remove(i as int));
                    lemma_entries_map_remove(s0, i as int);
                }
            },
            None => {
                proof {
                    assert(m1.remove(tx@.hash) =~= m1);
                }
            },
        }
        Ok(())
    }
}

} // verus!
