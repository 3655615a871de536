//! Transactions: immutable value objects made of inputs (references to prior
//! outputs), outputs (address and amount), and a content hash that is a pure
//! function of the inputs and outputs.

use vstd::prelude::*;
use vstd::string::StringExecFns;
use crate::digest::{dec_str, spec_sha256_hex, sha256_hex, u64_to_string};

verus! {

/// A reference to one output of a prior transaction.
pub struct TransactionInput {
    pub referenced_hash: String,
    pub referenced_output_index: usize,
}

/// A destination address and the amount sent to it.
pub struct TransactionOutput {
    pub address: String,
    pub amount: u64,
}

/// An immutable transaction; `hash` is determined by `inputs` and `outputs`.
pub struct Transaction {
    pub inputs: Vec<TransactionInput>,
    pub outputs: Vec<TransactionOutput>,
    pub hash: String,
}

pub ghost struct TransactionInputV {
    pub referenced_hash: Seq<char>,
    pub referenced_output_index: nat,
}

pub ghost struct TransactionOutputV {
    pub address: Seq<char>,
    pub amount: nat,
}

pub ghost struct TransactionV {
    pub inputs: Seq<TransactionInputV>,
    pub outputs: Seq<TransactionOutputV>,
    pub hash: Seq<char>,
}

impl View for TransactionInput {
    type V = TransactionInputV;

    open spec fn view(&self) -> TransactionInputV {
        TransactionInputV {
            referenced_hash: self.referenced_hash@,
            referenced_output_index: self.referenced_output_index as nat,
        }
    }
}

impl View for TransactionOutput {
    type V = TransactionOutputV;

    open spec fn view(&self) -> TransactionOutputV {
        TransactionOutputV { address: self.address@, amount: self.amount as nat }
    }
}

impl View for Transaction {
    type V = TransactionV;

    open spec fn view(&self) -> TransactionV {
        TransactionV {
            inputs: self.inputs@.map_values(|x: TransactionInput| x@),
            outputs: self.outputs@.map_values(|x: TransactionOutput| x@),
            hash: self.hash@,
        }
    }
}

/// The canonical string form of one input: the referenced hash followed by
/// the decimal referenced output index.
pub open spec fn input_str(i: TransactionInputV) -> Seq<char> {
    i.referenced_hash + dec_str(i.referenced_output_index)
}

/// The canonical string form of one output: the address followed by the
/// decimal amount.
pub open spec fn output_str(o: TransactionOutputV) -> Seq<char> {
    o.address + dec_str(o.amount)
}

pub open spec fn inputs_str(inputs: Seq<TransactionInputV>) -> Seq<char>
    decreases inputs.len(),
{
    if inputs.len() == 0 {
        Seq::empty()
    } else {
        inputs_str(inputs.drop_last()) + input_str(inputs.last())
    }
}

pub open spec fn outputs_str(outputs: Seq<TransactionOutputV>) -> Seq<char>
    decreases outputs.len(),
{
    if outputs.len() == 0 {
        Seq::empty()
    } else {
        outputs_str(outputs.drop_last()) + output_str(outputs.last())
    }
}

/// The canonical string a transaction's hash is computed over: the inputs'
/// string forms then the outputs' string forms, concatenated.
pub open spec fn tx_hash_input(
    inputs: Seq<TransactionInputV>,
    outputs: Seq<TransactionOutputV>,
) -> Seq<char> {
    inputs_str(inputs) + outputs_str(outputs)
}

/// A transaction's hash: hex-encoded SHA-256 over its canonical string.
pub open spec fn spec_tx_hash(
    inputs: Seq<TransactionInputV>,
    outputs: Seq<TransactionOutputV>,
) -> Seq<char> {
    spec_sha256_hex(tx_hash_input(inputs, outputs))
}

impl TransactionInput {
    pub fn new(referenced_hash: String, referenced_output_index: usize) -> (t: TransactionInput)
        ensures
            t@ == (TransactionInputV {
                referenced_hash: referenced_hash@,
                referenced_output_index: referenced_output_index as nat,
            }),
    {
        TransactionInput { referenced_hash, referenced_output_index }
    }

    pub fn duplicate(&self) -> (t: TransactionInput)
        ensures
            t@ == self@,
    {
        TransactionInput {
            referenced_hash: self.referenced_hash.clone(),
            referenced_output_index: self.referenced_output_index,
        }
    }
}

impl TransactionOutput {
    pub fn new(address: String, amount: u64) -> (t: TransactionOutput)
        ensures
            t@ == (TransactionOutputV { address: address@, amount: amount as nat }),
    {
        TransactionOutput { address, amount }
    }

    pub fn duplicate(&self) -> (t: TransactionOutput)
        ensures
            t@ == self@,
    {
        TransactionOutput { address: self.address.clone(), amount: self.amount }
    }
}

impl Transaction {
    /// The hash field is the digest of the inputs and outputs.
    pub open spec fn wf(&self) -> bool {
        self@.hash == spec_tx_hash(self@.inputs, self@.outputs)
    }

    /// A coinbase (mint) transaction: no inputs and exactly one output.
    pub open spec fn spec_is_coinbase(t: TransactionV) -> bool {
        t.inputs.len() == 0 && t.outputs.len() == 1
    }

    /// Builds a transaction, computing its content hash over the inputs
    /// and outputs.
    pub fn new(inputs: Vec<TransactionInput>, outputs: Vec<TransactionOutput>) -> (t: Transaction)
        ensures
            t@.inputs == inputs@.map_values(|x: TransactionInput| x@),
            t@.outputs == outputs@.map_values(|x: TransactionOutput| x@),
            t.wf(),
    {
        let ghost iv = inputs@.map_values(|x: TransactionInput| x@);
        let ghost ov = outputs@.map_values(|x: TransactionOutput| x@);
        let mut s = String::new();
        let mut i: usize = 0;
        while i < inputs.len()
            invariant
                i <= inputs@.len(),
                iv == inputs@.map_values(|x: TransactionInput| x@),
                s@ == inputs_str(iv.subrange(0, i as int)),
            decreases inputs@.len() - i,
        {
            s.append(inputs[i].referenced_hash.as_str());
            let idx_str = u64_to_string(inputs[i].referenced_output_index as u64);
            s.append(idx_str.as_str());
            proof {
                let pre = iv.subrange(0, i + 1);
                assert(pre.drop_last() =~= iv.subrange(0, i as int));
                assert(pre.last() == iv[i as int]);
            }
            i = i + 1;
        }
        proof {
            assert(iv.subrange(0, iv.len() as int) =~= iv);
        }
        let mut j: usize = 0;
        while j < outputs.len()
            invariant
                j <= outputs@.len(),
                ov == outputs@.map_values(|x: TransactionOutput| x@),
                s@ == inputs_str(iv) + outputs_str(ov.subrange(0, j as int)),
            decreases outputs@.len() - j,
        {
            s.append(outputs[j].address.as_str());
            let amount_str = u64_to_string(outputs[j].amount);
            s.append(amount_str.as_str());
            proof {
                let pre = ov.subrange(0, j + 1);
                assert(pre.drop_last() =~= ov.subrange(0, j as int));
                assert(pre.last() == ov[j as int]);
                assert(inputs_str(iv) + outputs_str(pre.drop_last()) + output_str(pre.last())
                    =~= inputs_str(iv) + outputs_str(pre));
            }
            j = j + 1;
        }
        proof {
            assert(ov.subrange(0, ov.len() as int) =~= ov);
            assert(s@ =~= tx_hash_input(iv, ov));
        }
        let hash = sha256_hex(s.as_str());
        Transaction { inputs, outputs, hash }
    }

    pub fn duplicate(&self) -> (t: Transaction)
        ensures
            t@ == self@,
    {
        let mut inputs: Vec<TransactionInput> = Vec::new();
        let mut i: usize = 0;
        while i < self.inputs.len()
            invariant
                i <= self.inputs@.len(),
                inputs@.len() == i,
                forall|k: int| 0 <= k < i ==> inputs@[k]@ == self.inputs@[k]@,
            decreases self.inputs@.len() - i,
        {
            inputs.push(self.inputs[i].duplicate());
            i = i + 1;
        }
        let mut outputs: Vec<TransactionOutput> = Vec::new();
        let mut j: usize = 0;
        while j < self.outputs.len()
            invariant
                j <= self.outputs@.len(),
                outputs@.len() == j,
                forall|k: int| 0 <= k < j ==> outputs@[k]@ == self.outputs@[k]@,
            decreases self.outputs@.len() - j,
        {
            outputs.push(self.outputs[j].duplicate());
            j = j + 1;
        }
        let t = Transaction {
            inputs,
            outputs,
            hash: self.hash.clone(),
        };
        proof {
            assert(t@.inputs =~= self@.inputs);
            assert(t@.outputs =~= self@.outputs);
        }
        t
    }

    /// Whether this transaction is a coinbase (mint).
    pub fn is_coinbase(&self) -> (r: bool)
        ensures
            r == Transaction::spec_is_coinbase(self@),
    {
        self.inputs.is_empty() && self.outputs.len() == 1
    }
}

/// Builds a mint transaction: no inputs, one output per (address, amount)
/// pair, paired positionally.
pub fn create_transaction(addresses: Vec<String>, amounts: Vec<u64>) -> (t: Transaction)
    requires
        addresses@.len() == amounts@.len(),
    ensures
        t@.inputs.len() == 0,
        t@.outputs.len() == addresses@.len(),
        forall|k: int| 0 <= k < addresses@.len() ==> t@.outputs[k] == (TransactionOutputV {
            address: addresses@[k]@,
            amount: amounts@[k] as nat,
        }),
        t.wf(),
{
    let mut outputs: Vec<TransactionOutput> = Vec::new();
    let mut i: usize = 0;
    while i < addresses.len()
        invariant
            i <= addresses@.len(),
            addresses@.len() == amounts@.len(),
            outputs@.len() == i,
            forall|k: int| 0 <= k < i ==> outputs@[k]@ == (TransactionOutputV {
                address: addresses@[k]@,
                amount: amounts@[k] as nat,
            }),
        decreases addresses@.len() - i,
    {
        outputs.push(TransactionOutput::new(addresses[i].clone(), amounts[i]));
        i = i + 1;
    }
    let t = Transaction::new(Vec::new(), outputs);
    t
}

/// Verifies one input of a candidate transaction against the transaction it
/// references: the referenced output must exist (its index must be in
/// range). Returns the verdict and a reason on failure.
pub fn verify_transaction_input(referenced: &Transaction, new_transaction: &Transaction, i: usize)
    -> (r: (bool, String))
    requires
        i < new_transaction@.inputs.len(),
    ensures
        r.0 == (new_transaction@.inputs[i as int].referenced_output_index
            < referenced@.outputs.len()),
        !r.0 ==> r.1@ == "Referenced output does not exist."@,
{
    let input = &new_transaction.inputs[i];
    if input.referenced_output_index < referenced.outputs.len() {
        (true, String::from_str("Verified"))
    } else {
        (false, String::from_str("Referenced output does not exist."))
    }
}

} // verus!
