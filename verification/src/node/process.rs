use crate::bytes::{copy_range, le_value, lemma_le_value_bound, lemma_pow256_values, read_le};
use crate::interface::address::Address;
use crate::interface::raw_transaction::{
    parse_raw_tx, raw_tx_size, tx_stream, tx_stream_wf, RawTransaction,
    RawTransactionView,
};
use crate::node::error::Error;
use crate::node::memory::oof_root_outcome;
use crate::node::state::{
    blob_nodes, blob_wf, code_in_range, node_arrays, read_code, root_result, Oof, State,
};
use vstd::prelude::*;

verus! {

/// A module call for the host to make: load `code`, then call its `main`
/// with `argument`.
pub struct Invocation {
    pub code: Vec<u8>,
    pub argument: Vec<u8>,
}

/// The index of the first of `txs[from..]` whose recipient's code cannot be
/// read, or the number of transactions if there is none.
pub open spec fn first_unreadable(
    code_of: spec_fn(Address) -> Result<Seq<u8>, Error<Address>>,
    txs: Seq<RawTransactionView>,
    from: nat,
) -> nat
    decreases txs.len() - from,
{
    if from >= txs.len() {
        txs.len()
    } else if code_of(txs[from as int].to) is Err {
        from
    } else {
        first_unreadable(code_of, txs, from + 1)
    }
}

proof fn lemma_first_unreadable(
    code_of: spec_fn(Address) -> Result<Seq<u8>, Error<Address>>,
    txs: Seq<RawTransactionView>,
    from: nat,
    i: nat,
)
    requires
        from <= i <= txs.len(),
        forall|j: int| from <= j < i ==> code_of(#[trigger] txs[j].to) is Ok,
    ensures
        i == txs.len() ==> first_unreadable(code_of, txs, from) == txs.len(),
        i < txs.len() && code_of(txs[i as int].to) is Err ==> first_unreadable(code_of, txs, from)
            == i,
    decreases i - from,
{
    if from < i {
        assert(code_of(txs[from as int].to) is Ok);
        lemma_first_unreadable(code_of, txs, from + 1, i);
    }
}

proof fn lemma_first_unreadable_bound(
    code_of: spec_fn(Address) -> Result<Seq<u8>, Error<Address>>,
    txs: Seq<RawTransactionView>,
    from: nat,
)
    ensures
        first_unreadable(code_of, txs, from) <= txs.len(),
        from <= txs.len() ==> from <= first_unreadable(code_of, txs, from),
    decreases txs.len() - from,
{
    if from < txs.len() {
        lemma_first_unreadable_bound(code_of, txs, from + 1);
    }
}

/// How processing `txs` ends: at the first recipient whose code cannot be
/// read, or after all of them.
pub open spec fn process_end(
    code_of: spec_fn(Address) -> Result<Seq<u8>, Error<Address>>,
    txs: Seq<RawTransactionView>,
) -> Result<(), Error<Address>> {
    let k = first_unreadable(code_of, txs, 0);
    if k < txs.len() {
        Err(code_of(txs[k as int].to)->Err_0)
    } else {
        Ok(())
    }
}

/// The calls that processing `txs` asks for, given what reading code gives,
/// and how processing ends.
pub open spec fn processed(
    code_of: spec_fn(Address) -> Result<Seq<u8>, Error<Address>>,
    txs: Seq<RawTransactionView>,
    calls: Seq<Invocation>,
    end: Result<(), Error<Address>>,
) -> bool {
    let k = first_unreadable(code_of, txs, 0);
    &&& calls.len() == k
    &&& forall|i: int|
        0 <= i < k ==> {
            &&& code_of(txs[i].to) == Ok::<Seq<u8>, Error<Address>>((#[trigger] calls[i]).code@)
            &&& calls[i].argument@ == txs[i].data
        }
    &&& k < txs.len() ==> end == Err::<(), Error<Address>>(code_of(txs[k as int].to)->Err_0)
    &&& k == txs.len() ==> end == Ok::<(), Error<Address>>(())
}

/// Every recipient's code can be read.
pub open spec fn all_code_present(
    code_of: spec_fn(Address) -> Result<Seq<u8>, Error<Address>>,
    txs: Seq<RawTransactionView>,
) -> bool {
    forall|i: int| 0 <= i < txs.len() ==> (#[trigger] code_of(txs[i].to)) is Ok
}

/// `calls` asks, for each transaction in order, for a call of its
/// recipient's code with its data.
pub open spec fn calls_for(
    code_of: spec_fn(Address) -> Result<Seq<u8>, Error<Address>>,
    txs: Seq<RawTransactionView>,
    calls: Seq<Invocation>,
) -> bool {
    &&& calls.len() == txs.len()
    &&& forall|i: int|
        0 <= i < txs.len() ==> {
            &&& code_of(txs[i].to) == Ok::<Seq<u8>, Error<Address>>((#[trigger] calls[i]).code@)
            &&& calls[i].argument@ == txs[i].data
        }
}

/// Goes through the transactions in order and, for each, reads the code of
/// its recipient and asks for a call of that code with the transaction's
/// data, stopping at the first recipient whose code cannot be read.
fn run_transactions<K, V, T: State<K, V>>(db: &T, transactions: &[u8]) -> (r: (
    Vec<Invocation>,
    Result<(), Error<Address>>,
))
    requires
        tx_stream_wf(transactions@),
        forall|i: int|
            0 <= i < tx_stream(transactions@).len() ==> db.code_readable(
                #[trigger] tx_stream(transactions@)[i].to,
            ),
    ensures
        processed(|a: Address| db.spec_code(a), tx_stream(transactions@), r.0@, r.1),
{
    let ghost code_of = |a: Address| db.spec_code(a);
    let ghost s = transactions@;
    let ghost txs = tx_stream(s);
    let mut calls: Vec<Invocation> = Vec::new();
    let mut offset: usize = 0;
    let ghost mut done: Seq<RawTransactionView> = Seq::empty();
    assert(s.skip(0) =~= s);
    while offset < transactions.len()
        invariant
            s == transactions@,
            txs == tx_stream(s),
            forall|i: int| 0 <= i < txs.len() ==> db.code_readable(#[trigger] txs[i].to),
            offset <= s.len(),
            tx_stream_wf(s.skip(offset as int)),
            txs == done + tx_stream(s.skip(offset as int)),
            calls@.len() == done.len(),
            code_of == (|a: Address| db.spec_code(a)),
            forall|j: int| 0 <= j < done.len() ==> code_of(#[trigger] txs[j].to) is Ok,
            forall|i: int|
                0 <= i < done.len() ==> {
                    &&& db.spec_code(txs[i].to) == Ok::<Seq<u8>, Error<Address>>(
                        (#[trigger] calls@[i]).code@,
                    )
                    &&& calls@[i].argument@ == txs[i].data
                },
        decreases s.len() - offset,
    {
        let rest = &transactions[offset..transactions.len()];
        assert(rest@ =~= s.skip(offset as int));
        let tx = RawTransaction::from_ptr(rest);
        let ghost size = raw_tx_size(rest@);
        proof {
            crate::bytes::lemma_le_value_bound(rest@.take(4));
            crate::bytes::lemma_pow256_values();
            assert(rest@.skip(size as int) =~= s.skip(offset + size));
            assert(tx_stream_wf(rest@.skip(size as int)));
            assert(tx_stream(rest@) == seq![parse_raw_tx(rest@)] + tx_stream(
                rest@.skip(size as int),
            ));
        }
        assert(txs[done.len() as int] == tx@);
        let next = offset + 4 + tx.length() as usize;
        match db.code(tx.to()) {
            Ok(code) => {
                let argument = copy_range(tx.data(), 0, tx.data().len());
                assert(argument@ =~= tx@.data);
                calls.push(Invocation { code, argument });
                proof {
                    done = done.push(tx@);
                    assert(txs =~= done + tx_stream(s.skip(next as int)));
                }
            },
            Err(e) => {
                proof {
                    lemma_first_unreadable(code_of, txs, 0, done.len());
                }
                return (calls, Err(e));
            },
        }
        offset = next;
    }
    proof {
        assert(tx_stream(s.skip(offset as int)) =~= Seq::<RawTransactionView>::empty());
        lemma_first_unreadable(code_of, txs, 0, done.len());
    }
    (calls, Ok(()))
}

/// Goes through the transactions in `transactions` in order and, for each,
/// reads the code of its recipient and answers a call of that code with the
/// transaction's data, for the host to make. The code of every recipient
/// must be there.
pub fn process_raw_transactions<K, V, T: State<K, V>>(db: &T, transactions: &[u8]) -> (r: Result<
    Vec<Invocation>,
    Error<Address>,
>)
    requires
        tx_stream_wf(transactions@),
        forall|i: int|
            0 <= i < tx_stream(transactions@).len() ==> db.code_readable(
                #[trigger] tx_stream(transactions@)[i].to,
            ),
        all_code_present(|a: Address| db.spec_code(a), tx_stream(transactions@)),
    ensures
        r matches Ok(calls) && calls_for(|a: Address| db.spec_code(a), tx_stream(transactions@), calls@),
{
    let (calls, end) = run_transactions(db, transactions);
    proof {
        let code_of = |a: Address| db.spec_code(a);
        let txs = tx_stream(transactions@);
        lemma_first_unreadable(code_of, txs, 0, txs.len());
    }
    Ok(calls)
}

/// The first recipient among `transactions` whose code cannot be read, by
/// why it cannot, or `Ok` where every code is there.
pub fn find_missing_code<K, V, T: State<K, V>>(db: &T, transactions: &[u8]) -> (r: Result<(), Error<Address>>)
    requires
        tx_stream_wf(transactions@),
        forall|i: int|
            0 <= i < tx_stream(transactions@).len() ==> db.code_readable(
                #[trigger] tx_stream(transactions@)[i].to,
            ),
    ensures
        r == process_end(|a: Address| db.spec_code(a), tx_stream(transactions@)),
        r is Ok <==> all_code_present(|a: Address| db.spec_code(a), tx_stream(transactions@)),
{
    let (_, end) = run_transactions(db, transactions);
    proof {
        let code_of = |a: Address| db.spec_code(a);
        let txs = tx_stream(transactions@);
        lemma_first_unreadable_bound(code_of, txs, 0);
        let k = first_unreadable(code_of, txs, 0);
        if k == txs.len() {
            assert forall|i: int| 0 <= i < txs.len() implies (#[trigger] code_of(txs[i].to)) is Ok by {
                lemma_first_unreadable_prefix(code_of, txs, 0, i as nat);
            }
        } else {
            lemma_first_unreadable_hit(code_of, txs, 0);
        }
        if all_code_present(code_of, txs) {
            lemma_first_unreadable(code_of, txs, 0, txs.len());
        }
    }
    end
}

/// Before the first unreadable code, every code is readable.
proof fn lemma_first_unreadable_prefix(
    code_of: spec_fn(Address) -> Result<Seq<u8>, Error<Address>>,
    txs: Seq<RawTransactionView>,
    from: nat,
    i: nat,
)
    requires
        from <= i < first_unreadable(code_of, txs, from),
    ensures
        code_of(txs[i as int].to) is Ok,
    decreases i - from,
{
    lemma_first_unreadable_bound(code_of, txs, from);
    if from < i {
        lemma_first_unreadable_prefix(code_of, txs, from + 1, i);
    }
}

/// The first unreadable code, where there is one, is unreadable.
proof fn lemma_first_unreadable_hit(
    code_of: spec_fn(Address) -> Result<Seq<u8>, Error<Address>>,
    txs: Seq<RawTransactionView>,
    from: nat,
)
    requires
        first_unreadable(code_of, txs, from) < txs.len(),
    ensures
        code_of(txs[first_unreadable(code_of, txs, from) as int].to) is Err,
    decreases txs.len() - from,
{
    if from < txs.len() && code_of(txs[from as int].to) is Ok {
        lemma_first_unreadable_hit(code_of, txs, from + 1);
    }
}

/// `transactions` is a sequence of whole transactions, and the code of each
/// recipient can be read within the index arithmetic of `db`.
pub open spec fn transactions_processable(
    nodes: Map<u128, [u8; 32]>,
    height: nat,
    transactions: Seq<u8>,
) -> bool {
    &&& tx_stream_wf(transactions)
    &&& forall|i: int|
        0 <= i < tx_stream(transactions).len() ==> code_in_range(
            nodes,
            height,
            #[trigger] tx_stream(transactions)[i].to,
        )
}

/// Whether `transactions` can be processed against `db`.
pub fn transactions_are_processable(db: &Oof, transactions: &[u8]) -> (b: bool)
    ensures
        b == transactions_processable(db@.nodes, db@.height as nat, transactions@),
{
    let ghost s = transactions@;
    let ghost txs = tx_stream(s);
    let mut offset: usize = 0;
    let ghost mut done: Seq<RawTransactionView> = Seq::empty();
    assert(s.skip(0) =~= s);
    while offset < transactions.len()
        invariant
            s == transactions@,
            txs == tx_stream(s),
            offset <= s.len(),
            tx_stream_wf(s) == tx_stream_wf(s.skip(offset as int)),
            tx_stream_wf(s.skip(offset as int)) ==> txs == done + tx_stream(s.skip(offset as int)),
            forall|j: int|
                0 <= j < done.len() ==> code_in_range(
                    db@.nodes,
                    db@.height as nat,
                    #[trigger] done[j].to,
                ),
        decreases s.len() - offset,
    {
        let rest = &transactions[offset..transactions.len()];
        assert(rest@ =~= s.skip(offset as int));
        if rest.len() < 4 {
            return false;
        }
        proof {
            crate::bytes::lemma_le_value_bound(rest@.take(4));
            crate::bytes::lemma_pow256_values();
            assert(rest@.subrange(0, 4) =~= rest@.take(4));
        }
        let length = crate::bytes::read_le(rest, 0, 4);
        if length < 1 || 4 + length > rest.len() as u128 {
            return false;
        }
        let tx = RawTransaction::from_ptr(rest);
        let ghost size = raw_tx_size(rest@);
        proof {
            assert(rest@.skip(size as int) =~= s.skip(offset + size));
        }
        if !db.can_read_code(tx.to()) {
            proof {
                if tx_stream_wf(s) {
                    assert(tx_stream(rest@) == seq![parse_raw_tx(rest@)] + tx_stream(
                        rest@.skip(size as int),
                    ));
                    assert(txs[done.len() as int] == tx@);
                }
            }
            return false;
        }
        proof {
            if tx_stream_wf(s) {
                assert(tx_stream(rest@) == seq![parse_raw_tx(rest@)] + tx_stream(
                    rest@.skip(size as int),
                ));
            }
            done = done.push(tx@);
            if tx_stream_wf(s) {
                assert(txs =~= done + tx_stream(s.skip(offset + size)));
            }
        }
        offset = offset + 4 + tx.length() as usize;
    }
    proof {
        assert(s.skip(offset as int) =~= Seq::<u8>::empty());
        assert(txs =~= done + tx_stream(s.skip(offset as int)));
    }
    true
}

} // verus!

verus! {

/// Why a data blob was not processed to the end.
#[derive(Debug, PartialEq)]
pub enum BlobError {
    /// The blob is cut short: it lacks the proof offset, the offset runs
    /// past its end, or the proof lacks some of its keys or values.
    Truncated,
    /// The transaction data is not a sequence of whole transactions, or the
    /// code of a recipient lies beyond the index arithmetic.
    BadTransactions,
    /// The proof yields no state root.
    NoRoot(Error<Address>),
    /// The state root of the proof is not the expected pre-state root.
    RootMismatch,
    /// The code of a recipient cannot be read.
    Code(Error<Address>),
}

/// The proof offset: the first four bytes of the blob, little-endian.
pub open spec fn blob_proof_offset(b: Seq<u8>) -> nat {
    le_value(b.take(4))
}

/// The blob holds the proof offset, transaction data of that length, and a
/// whole proof after it.
pub open spec fn blob_framed(b: Seq<u8>) -> bool {
    &&& b.len() >= 4
    &&& 4 + blob_proof_offset(b) <= b.len()
    &&& blob_wf(b.skip(4 + blob_proof_offset(b) as int))
}

pub open spec fn blob_transactions(b: Seq<u8>) -> Seq<u8> {
    b.subrange(4, 4 + blob_proof_offset(b) as int)
}

pub open spec fn blob_proof(b: Seq<u8>) -> Seq<u8> {
    b.skip(4 + blob_proof_offset(b) as int)
}

/// The nodes that the proof of a framed blob holds.
pub open spec fn blob_pre_nodes(blob: Seq<u8>) -> Map<u128, [u8; 32]> {
    node_arrays(blob_nodes(blob_proof(blob)))
}

/// The nodes after the pre-state root has been computed from them.
pub open spec fn blob_post_nodes(blob: Seq<u8>) -> Map<u128, [u8; 32]> {
    oof_root_outcome(blob_pre_nodes(blob)).0
}

/// Bytes after a framed blob, such as the zeros that pad the host's input
/// buffer, change nothing: the blob is framed alike, reads the same
/// transactions and nodes, gets the same verdict and the same answer.
pub proof fn lemma_blob_trailing_bytes(b: Seq<u8>, z: Seq<u8>, pre_state_root: [u8; 32], height: nat)
    requires
        blob_framed(b),
    ensures
        blob_framed(b + z),
        blob_transactions(b + z) == blob_transactions(b),
        blob_pre_nodes(b + z) == blob_pre_nodes(b),
        blob_verdict(b + z, pre_state_root, height) == blob_verdict(b, pre_state_root, height),
        forall|calls: Seq<Invocation>, post: [u8; 32]|
            blob_result(b + z, height, calls, post) == blob_result(b, height, calls, post),
{
    let t = 4 + blob_proof_offset(b);
    assert((b + z).take(4) =~= b.take(4));
    assert(blob_proof_offset(b + z) == blob_proof_offset(b));
    assert(blob_proof(b + z) =~= blob_proof(b) + z);
    assert(blob_transactions(b + z) =~= blob_transactions(b));
    crate::node::state::lemma_proof_trailing_bytes(blob_proof(b), z);
    assert(blob_pre_nodes(b + z) == blob_pre_nodes(b));
    assert(blob_post_nodes(b + z) == blob_post_nodes(b));
}

/// Whether a data blob can be processed against `pre_state_root`, or the
/// first reason it cannot: the blob is cut short, its proof yields no root,
/// the root is not `pre_state_root`, the transactions are malformed or reach
/// beyond the index arithmetic, a recipient's code cannot be read, or the
/// proof yields no post-state root.
pub open spec fn blob_verdict(blob: Seq<u8>, pre_state_root: [u8; 32], height: nat) -> Result<
    (),
    BlobError,
> {
    if !blob_framed(blob) {
        Err(BlobError::Truncated)
    } else {
        match root_result(blob_pre_nodes(blob)) {
            Err(e) => Err(BlobError::NoRoot(e)),
            Ok(pre) => if pre != pre_state_root {
                Err(BlobError::RootMismatch)
            } else {
                let n1 = blob_post_nodes(blob);
                let txs = blob_transactions(blob);
                if !transactions_processable(n1, height, txs) {
                    Err(BlobError::BadTransactions)
                } else {
                    match process_end(|a: Address| read_code(n1, height, a), tx_stream(txs)) {
                        Err(e) => Err(BlobError::Code(e)),
                        Ok(_) => match root_result(n1) {
                            Err(e) => Err(BlobError::NoRoot(e)),
                            Ok(_) => Ok(()),
                        },
                    }
                }
            },
        }
    }
}

/// The blob can be processed against `pre_state_root`.
pub open spec fn blob_processable(blob: Seq<u8>, pre_state_root: [u8; 32], height: nat) -> bool {
    blob_verdict(blob, pre_state_root, height) is Ok
}

/// What processing a processable blob answers: a call for each transaction,
/// in order, of its recipient's code with its data, and the post-state root.
pub open spec fn blob_result(
    blob: Seq<u8>,
    height: nat,
    calls: Seq<Invocation>,
    post_state_root: [u8; 32],
) -> bool {
    let n1 = blob_post_nodes(blob);
    &&& calls_for(|a: Address| read_code(n1, height, a), tx_stream(blob_transactions(blob)), calls)
    &&& root_result(n1) == Ok::<[u8; 32], Error<Address>>(post_state_root)
}

/// Processing that ends after all transactions has every code there.
proof fn lemma_process_end_ok(
    code_of: spec_fn(Address) -> Result<Seq<u8>, Error<Address>>,
    txs: Seq<RawTransactionView>,
)
    requires
        process_end(code_of, txs) is Ok,
    ensures
        all_code_present(code_of, txs),
{
    lemma_first_unreadable_bound(code_of, txs, 0);
    assert forall|i: int| 0 <= i < txs.len() implies (#[trigger] code_of(txs[i].to)) is Ok by {
        lemma_first_unreadable_prefix(code_of, txs, 0, i as nat);
    }
}

/// Whether two roots are the same.
fn same_root(a: &[u8; 32], b: &[u8; 32]) -> (r: bool)
    ensures
        r == (*a == *b),
{
    let mut i: usize = 0;
    while i < 32
        invariant
            i <= 32,
            forall|j: int| 0 <= j < i ==> a@[j] == b@[j],
        decreases 32 - i,
    {
        if a[i] != b[i] {
            return false;
        }
        i = i + 1;
    }
    assert(*a =~= *b);
    true
}

/// Computes the post-state root of a data blob. The blob holds a four-byte
/// little-endian proof offset `T`, then `T` bytes of transactions, then the
/// proof: the nodes of the state tree that the transactions touch. The proof
/// must yield `pre_state_root`, and the code of each transaction's
/// recipient must be there. The answer is the calls that the transactions
/// ask for, in order, for the host to make, and the post-state root, which is
/// the pre-state root: processing only reads the state.
pub fn process_data_blob(blob: &[u8], pre_state_root: &[u8; 32], height: u32) -> (r: (
    Vec<Invocation>,
    [u8; 32],
))
    requires
        blob_processable(blob@, *pre_state_root, height as nat),
    ensures
        blob_result(blob@, height as nat, r.0@, r.1),
        r.1 == *pre_state_root,
{
    proof {
        lemma_le_value_bound(blob@.take(4));
        lemma_pow256_values();
        assert(blob@.subrange(0, 4) =~= blob@.take(4));
    }
    assert(blob_framed(blob@));
    let mem_offset = read_le(blob, 0, 4);
    assert(mem_offset == blob_proof_offset(blob@));
    assert(4 + mem_offset <= blob.len());
    let split: usize = (4 + mem_offset) as usize;
    let transactions = &blob[4..split];
    let proof = &blob[split..blob.len()];
    assert(transactions@ =~= blob_transactions(blob@));
    assert(proof@ =~= blob_proof(blob@));
    let mut mem = Oof::from_raw(proof, height);
    let _pre_root = mem.root();
    proof {
        let n1 = blob_post_nodes(blob@);
        let code_of = |a: Address| read_code(n1, height as nat, a);
        assert(code_of =~= (|a: Address| mem.spec_code(a)));
        lemma_process_end_ok(code_of, tx_stream(transactions@));
    }
    let calls = match process_raw_transactions::<u128, [u8; 32], Oof>(&mem, transactions) {
        Ok(calls) => calls,
        Err(_) => {
            proof {
                assert(false);
            }
            Vec::new()
        },
    };
    let post = match mem.root() {
        Ok(v) => v,
        Err(_) => {
            proof {
                assert(false);
            }
            [0u8; 32]
        },
    };
    (calls, post)
}

/// Processes a data blob where it can be processed (see
/// `process_data_blob`), and otherwise answers the first reason it cannot.
pub fn try_process_data_blob(blob: &[u8], pre_state_root: &[u8; 32], height: u32) -> (r: Result<
    (Vec<Invocation>, [u8; 32]),
    BlobError,
>)
    ensures
        match blob_verdict(blob@, *pre_state_root, height as nat) {
            Err(e) => r == Err::<(Vec<Invocation>, [u8; 32]), BlobError>(e),
            Ok(_) => r matches Ok((calls, post)) && blob_result(blob@, height as nat, calls@, post)
                && post == *pre_state_root,
        },
{
    if blob.len() < 4 {
        return Err(BlobError::Truncated);
    }
    proof {
        lemma_le_value_bound(blob@.take(4));
        lemma_pow256_values();
        assert(blob@.subrange(0, 4) =~= blob@.take(4));
    }
    let mem_offset = read_le(blob, 0, 4);
    if 4 + mem_offset > blob.len() as u128 {
        return Err(BlobError::Truncated);
    }
    let split: usize = (4 + mem_offset) as usize;
    let transactions = &blob[4..split];
    let proof = &blob[split..blob.len()];
    assert(transactions@ =~= blob_transactions(blob@));
    assert(proof@ =~= blob_proof(blob@));
    if !proof_is_whole(proof) {
        return Err(BlobError::Truncated);
    }
    let mut mem = Oof::from_raw(proof, height);
    let pre_root = match mem.root() {
        Ok(v) => v,
        Err(e) => {
            return Err(BlobError::NoRoot(e));
        },
    };
    if !same_root(&pre_root, pre_state_root) {
        return Err(BlobError::RootMismatch);
    }
    if !transactions_are_processable(&mem, transactions) {
        return Err(BlobError::BadTransactions);
    }
    proof {
        let code_of = |a: Address| read_code(mem@.nodes, height as nat, a);
        assert(code_of =~= (|a: Address| mem.spec_code(a)));
    }
    match find_missing_code::<u128, [u8; 32], Oof>(&mem, transactions) {
        Err(e) => {
            return Err(BlobError::Code(e));
        },
        Ok(()) => {},
    }
    match mem.root() {
        Err(e) => {
            return Err(BlobError::NoRoot(e));
        },
        Ok(_) => {},
    }
    Ok(process_data_blob(blob, pre_state_root, height))
}

/// Whether `proof` holds all the keys and values that its count announces.
pub fn proof_is_whole(proof: &[u8]) -> (b: bool)
    ensures
        b == blob_wf(proof@),
{
    if proof.len() < 4 {
        return false;
    }
    proof {
        lemma_le_value_bound(proof@.take(4));
        lemma_pow256_values();
        assert(proof@.subrange(0, 4) =~= proof@.take(4));
    }
    let count = read_le(proof, 0, 4);
    4 + 48 * count <= proof.len() as u128
}

} // verus!
