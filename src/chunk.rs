//! Applying one shard's chunk (incoming receipts, then transactions) to a
//! ledger snapshot.
use crate::account::{account_id_to_shard_id, shard_of, AccountId};
use crate::encoding::{encode_receipt_record, fits_u32, receipt_record_bytes};
use crate::hash::{hash_bytes, sha256_of, CryptoHash};
use crate::snapshot::{balance_in, LedgerView, Snapshot};
use vstd::prelude::*;

verus! {

/// An action carried by a receipt or a transaction. Only transfers are run;
/// every other kind of action is `Other`.
#[derive(Clone, Copy, Debug, PartialEq, Eq, Structural)]
pub enum Action {
    Transfer { deposit: u128 },
    Other,
}

/// An action receipt addressed to the shard that owns `receiver_id`.
#[derive(Debug)]
pub struct Receipt {
    pub predecessor_id: AccountId,
    pub receiver_id: AccountId,
    pub receipt_id: CryptoHash,
    pub actions: Vec<Action>,
}

/// A signed transaction, identified by its hash.
#[derive(Debug)]
pub struct Transaction {
    pub hash: CryptoHash,
    pub signer_id: AccountId,
    pub receiver_id: AccountId,
    pub nonce: u64,
    pub actions: Vec<Action>,
}

/// The outcome of one transfer: who ran it and which receipts it spawned.
/// Every outcome is a success with no logs.
#[derive(Debug)]
pub struct Outcome {
    pub id: CryptoHash,
    pub executor_id: AccountId,
    pub receipt_ids: Vec<CryptoHash>,
}

/// A transfer queued during application. Transfers from receipts carry nonce 0.
pub struct Transfer {
    pub id: CryptoHash,
    pub from: AccountId,
    pub to: AccountId,
    pub amount: u128,
    pub nonce: u64,
}

/// Conditions under which a chunk cannot be applied. Each is a caller bug or
/// a broken ledger invariant; none may be retried.
#[derive(Debug, Clone, Copy, PartialEq, Eq, Structural)]
pub enum ApplyError {
    /// No snapshot is stored under the previous state root.
    MissingState,
    /// A receipt's receiver belongs to another shard.
    ReceiptWrongShard,
    /// A transaction's signer belongs to another shard.
    TransactionWrongShard,
    /// A receipt id was already applied to this snapshot.
    DuplicateReceipt,
    /// A receipt carries no action.
    MalformedReceipt,
    /// A transaction's first action is not a transfer.
    UnsupportedAction,
    /// A cross-shard transfer has nonce 0, so it cannot name its receipt.
    ZeroNonceCrossShard,
    /// A credit would exceed the largest balance.
    BalanceOverflow,
    /// A name or a table is too long to serialize.
    TooLargeToSerialize,
    /// A state part is not the serialized form of a well-formed snapshot.
    MalformedStatePart,
    /// A state part does not hash to the root it is imported under.
    StateRootMismatch,
    /// A different snapshot is already stored under the root of a state part.
    StateRootConflict,
}

pub struct ReceiptView {
    pub from: Seq<u8>,
    pub to: Seq<u8>,
    pub id: Seq<u8>,
    pub actions: Seq<Action>,
}

pub struct TransactionView {
    pub hash: Seq<u8>,
    pub signer: Seq<u8>,
    pub receiver: Seq<u8>,
    pub nonce: u64,
    pub actions: Seq<Action>,
}

pub struct OutcomeView {
    pub id: Seq<u8>,
    pub executor: Seq<u8>,
    pub spawned: Seq<Seq<u8>>,
}

pub struct TransferView {
    pub id: Seq<u8>,
    pub from: Seq<u8>,
    pub to: Seq<u8>,
    pub amount: u128,
    pub nonce: u64,
}

impl View for Receipt {
    type V = ReceiptView;

    open spec fn view(&self) -> ReceiptView {
        ReceiptView {
            from: self.predecessor_id@,
            to: self.receiver_id@,
            id: self.receipt_id@,
            actions: self.actions@,
        }
    }
}

impl View for Transaction {
    type V = TransactionView;

    open spec fn view(&self) -> TransactionView {
        TransactionView {
            hash: self.hash@,
            signer: self.signer_id@,
            receiver: self.receiver_id@,
            nonce: self.nonce,
            actions: self.actions@,
        }
    }
}

impl View for Outcome {
    type V = OutcomeView;

    open spec fn view(&self) -> OutcomeView {
        OutcomeView {
            id: self.id@,
            executor: self.executor_id@,
            spawned: self.receipt_ids@.map_values(|h: CryptoHash| h@),
        }
    }
}

impl View for Transfer {
    type V = TransferView;

    open spec fn view(&self) -> TransferView {
        TransferView {
            id: self.id@,
            from: self.from@,
            to: self.to@,
            amount: self.amount,
            nonce: self.nonce,
        }
    }
}

pub open spec fn receipt_views(s: Seq<Receipt>) -> Seq<ReceiptView> {
    s.map_values(|r: Receipt| r@)
}

pub open spec fn transaction_views(s: Seq<Transaction>) -> Seq<TransactionView> {
    s.map_values(|t: Transaction| t@)
}

pub open spec fn outcome_views(s: Seq<Outcome>) -> Seq<OutcomeView> {
    s.map_values(|o: Outcome| o@)
}

pub open spec fn transfer_views(s: Seq<Transfer>) -> Seq<TransferView> {
    s.map_values(|t: Transfer| t@)
}

pub open spec fn with_receipt(st: LedgerView, id: Seq<u8>) -> LedgerView {
    LedgerView { balances: st.balances, receipts: st.receipts.insert(id), nonces: st.nonces }
}

pub open spec fn with_nonce(st: LedgerView, k: (Seq<u8>, u64)) -> LedgerView {
    LedgerView { balances: st.balances, receipts: st.receipts, nonces: st.nonces.insert(k) }
}

pub open spec fn with_balance(st: LedgerView, a: Seq<u8>, v: u128) -> LedgerView {
    LedgerView { balances: st.balances.insert(a, v), receipts: st.receipts, nonces: st.nonces }
}

/// One incoming receipt: it must belong to this shard and be unseen; its id
/// is recorded, and a leading transfer is queued as a credit.
pub open spec fn receipt_step(st: LedgerView, r: ReceiptView, shard: u64, n: u64) -> Result<
    (LedgerView, Option<TransferView>),
    ApplyError,
> {
    if shard_of(r.to, n) != shard {
        Err(ApplyError::ReceiptWrongShard)
    } else if st.receipts.contains(r.id) {
        Err(ApplyError::DuplicateReceipt)
    } else if r.actions.len() == 0 {
        Err(ApplyError::MalformedReceipt)
    } else {
        match r.actions[0] {
            Action::Transfer { deposit } => Ok(
                (
                    with_receipt(st, r.id),
                    Some(TransferView { id: r.id, from: r.from, to: r.to, amount: deposit, nonce: 0 }),
                ),
            ),
            Action::Other => Ok((with_receipt(st, r.id), None)),
        }
    }
}

/// One transaction: it must be signed on this shard; a leading transfer is
/// queued in full when its (receiver, nonce) pair is new, and with amount
/// zero when the pair was seen before.
pub open spec fn transaction_step(st: LedgerView, t: TransactionView, shard: u64, n: u64) -> Result<
    (LedgerView, Option<TransferView>),
    ApplyError,
> {
    if shard_of(t.signer, n) != shard {
        Err(ApplyError::TransactionWrongShard)
    } else if t.actions.len() == 0 {
        Ok((st, None))
    } else {
        match t.actions[0] {
            Action::Transfer { deposit } => {
                let tr = TransferView {
                    id: t.hash,
                    from: t.signer,
                    to: t.receiver,
                    amount: if st.nonces.contains((t.receiver, t.nonce)) {
                        0
                    } else {
                        deposit
                    },
                    nonce: t.nonce,
                };
                Ok((with_nonce(st, (t.receiver, t.nonce)), Some(tr)))
            },
            Action::Other => Err(ApplyError::UnsupportedAction),
        }
    }
}

pub open spec fn push_opt<A>(s: Seq<A>, x: Option<A>) -> Seq<A> {
    match x {
        Some(v) => s.push(v),
        None => s,
    }
}

pub open spec fn receipts_phase(st: LedgerView, rs: Seq<ReceiptView>, shard: u64, n: u64) -> Result<
    (LedgerView, Seq<TransferView>),
    ApplyError,
>
    decreases rs.len(),
{
    if rs.len() == 0 {
        Ok((st, Seq::empty()))
    } else {
        match receipts_phase(st, rs.drop_last(), shard, n) {
            Err(e) => Err(e),
            Ok((s1, q)) => match receipt_step(s1, rs.last(), shard, n) {
                Err(e) => Err(e),
                Ok((s2, t)) => Ok((s2, push_opt(q, t))),
            },
        }
    }
}

pub open spec fn transactions_phase(
    st: LedgerView,
    q: Seq<TransferView>,
    ts: Seq<TransactionView>,
    shard: u64,
    n: u64,
) -> Result<(LedgerView, Seq<TransferView>), ApplyError>
    decreases ts.len(),
{
    if ts.len() == 0 {
        Ok((st, q))
    } else {
        match transactions_phase(st, q, ts.drop_last(), shard, n) {
            Err(e) => Err(e),
            Ok((s1, q1)) => match transaction_step(s1, ts.last(), shard, n) {
                Err(e) => Err(e),
                Ok((s2, t)) => Ok((s2, push_opt(q1, t))),
            },
        }
    }
}

/// The id of the receipt that carries a cross-shard transfer.
pub open spec fn cross_shard_receipt_id(from: Seq<u8>, to: Seq<u8>, amount: u128, nonce: u64) -> Seq<u8> {
    sha256_of(receipt_record_bytes(from, to, amount, nonce))
}

/// The snapshot after the debit of a transfer, or `None` when a local sender
/// cannot pay. Transfers from other shards were debited there.
pub open spec fn debit(st: LedgerView, t: TransferView, shard: u64, n: u64) -> Option<LedgerView> {
    if shard_of(t.from, n) != shard {
        Some(st)
    } else if st.balances.contains_key(t.from) && st.balances[t.from] >= t.amount {
        Some(with_balance(st, t.from, (st.balances[t.from] - t.amount) as u128))
    } else {
        None
    }
}

/// One queued transfer: after the debit, a local receiver is credited and a
/// remote one is sent a receipt; either way one outcome is recorded. A
/// transfer whose sender cannot pay leaves no trace.
pub open spec fn transfer_step(st: LedgerView, t: TransferView, shard: u64, n: u64) -> Result<
    (LedgerView, Option<(OutcomeView, Option<ReceiptView>)>),
    ApplyError,
> {
    match debit(st, t, shard, n) {
        None => Ok((st, None)),
        Some(s1) => if shard_of(t.to, n) == shard {
            let nb = balance_in(s1.balances, t.to) + t.amount;
            if nb > u128::MAX {
                Err(ApplyError::BalanceOverflow)
            } else {
                Ok(
                    (
                        with_balance(s1, t.to, nb as u128),
                        Some((OutcomeView { id: t.id, executor: t.to, spawned: Seq::empty() }, None)),
                    ),
                )
            }
        } else if t.nonce == 0 {
            Err(ApplyError::ZeroNonceCrossShard)
        } else if !fits_u32(t.from.len() as int) || !fits_u32(t.to.len() as int) {
            Err(ApplyError::TooLargeToSerialize)
        } else {
            let rid = cross_shard_receipt_id(t.from, t.to, t.amount, t.nonce);
            Ok(
                (
                    s1,
                    Some(
                        (
                            OutcomeView { id: t.id, executor: t.to, spawned: seq![rid] },
                            Some(
                                ReceiptView {
                                    from: t.from,
                                    to: t.to,
                                    id: rid,
                                    actions: seq![Action::Transfer { deposit: t.amount }],
                                },
                            ),
                        ),
                    ),
                ),
            )
        },
    }
}

pub open spec fn outcome_of(x: Option<(OutcomeView, Option<ReceiptView>)>) -> Option<OutcomeView> {
    match x {
        Some(p) => Some(p.0),
        None => None,
    }
}

pub open spec fn receipt_of(x: Option<(OutcomeView, Option<ReceiptView>)>) -> Option<ReceiptView> {
    match x {
        Some(p) => p.1,
        None => None,
    }
}

pub open spec fn transfers_phase(st: LedgerView, q: Seq<TransferView>, shard: u64, n: u64) -> Result<
    (LedgerView, Seq<OutcomeView>, Seq<ReceiptView>),
    ApplyError,
>
    decreases q.len(),
{
    if q.len() == 0 {
        Ok((st, Seq::empty(), Seq::empty()))
    } else {
        match transfers_phase(st, q.drop_last(), shard, n) {
            Err(e) => Err(e),
            Ok((s1, os, rs)) => match transfer_step(s1, q.last(), shard, n) {
                Err(e) => Err(e),
                Ok((s2, x)) => Ok((s2, push_opt(os, outcome_of(x)), push_opt(rs, receipt_of(x)))),
            },
        }
    }
}

/// The whole application of a chunk: the new snapshot contents, the outcomes
/// and the outgoing receipts.
pub open spec fn apply_model(
    st: LedgerView,
    rs: Seq<ReceiptView>,
    ts: Seq<TransactionView>,
    shard: u64,
    n: u64,
) -> Result<(LedgerView, Seq<OutcomeView>, Seq<ReceiptView>), ApplyError> {
    match receipts_phase(st, rs, shard, n) {
        Err(e) => Err(e),
        Ok((s1, q1)) => match transactions_phase(s1, q1, ts, shard, n) {
            Err(e) => Err(e),
            Ok((s2, q2)) => transfers_phase(s2, q2, shard, n),
        },
    }
}

proof fn lemma_receipts_err_prefix(st: LedgerView, rs: Seq<ReceiptView>, k: int, shard: u64, n: u64)
    requires
        0 <= k <= rs.len(),
        receipts_phase(st, rs.take(k), shard, n) is Err,
    ensures
        receipts_phase(st, rs, shard, n) == receipts_phase(st, rs.take(k), shard, n),
    decreases rs.len(),
{
    if k == rs.len() {
        assert(rs.take(k) =~= rs);
    } else {
        assert(rs.drop_last().take(k) =~= rs.take(k));
        lemma_receipts_err_prefix(st, rs.drop_last(), k, shard, n);
    }
}

proof fn lemma_transactions_err_prefix(
    st: LedgerView,
    q: Seq<TransferView>,
    ts: Seq<TransactionView>,
    k: int,
    shard: u64,
    n: u64,
)
    requires
        0 <= k <= ts.len(),
        transactions_phase(st, q, ts.take(k), shard, n) is Err,
    ensures
        transactions_phase(st, q, ts, shard, n) == transactions_phase(st, q, ts.take(k), shard, n),
    decreases ts.len(),
{
    if k == ts.len() {
        assert(ts.take(k) =~= ts);
    } else {
        assert(ts.drop_last().take(k) =~= ts.take(k));
        lemma_transactions_err_prefix(st, q, ts.drop_last(), k, shard, n);
    }
}

proof fn lemma_transfers_err_prefix(st: LedgerView, q: Seq<TransferView>, k: int, shard: u64, n: u64)
    requires
        0 <= k <= q.len(),
        transfers_phase(st, q.take(k), shard, n) is Err,
    ensures
        transfers_phase(st, q, shard, n) == transfers_phase(st, q.take(k), shard, n),
    decreases q.len(),
{
    if k == q.len() {
        assert(q.take(k) =~= q);
    } else {
        assert(q.drop_last().take(k) =~= q.take(k));
        lemma_transfers_err_prefix(st, q.drop_last(), k, shard, n);
    }
}

/// The transfers that the receipts of a chunk queue, in order.
fn queue_receipts(st: &mut Snapshot, receipts: &Vec<Receipt>, shard_id: u64, num_shards: u64) -> (r: Result<Vec<Transfer>, ApplyError>)
    requires
        old(st).wf(),
        num_shards > 0,
    ensures
        final(st).wf(),
        match (r, receipts_phase(old(st)@, receipt_views(receipts@), shard_id, num_shards)) {
            (Ok(q), Ok((v, qv))) => final(st)@ == v && transfer_views(q@) == qv,
            (Err(e), Err(f)) => e == f,
            _ => false,
        },
{
    let ghost st0 = st@;
    let ghost rv = receipt_views(receipts@);
    let mut q: Vec<Transfer> = Vec::new();
    let mut i: usize = 0;
    assert(rv.take(0) =~= Seq::<ReceiptView>::empty());
    assert(transfer_views(q@) =~= Seq::<TransferView>::empty());
    while i < receipts.len()
        invariant
            st.wf(),
            num_shards > 0,
            rv == receipt_views(receipts@),
            st0 == old(st)@,
            0 <= i <= receipts@.len(),
            receipts_phase(st0, rv.take(i as int), shard_id, num_shards) == Ok::<(LedgerView, Seq<TransferView>), ApplyError>((st@, transfer_views(q@))),
        decreases receipts@.len() - i,
    {
        let r = &receipts[i];
        proof {
            assert(rv.take(i + 1).drop_last() =~= rv.take(i as int));
            assert(rv.take(i + 1).last() == r@);
        }
        if account_id_to_shard_id(&r.receiver_id, num_shards) != shard_id {
            proof { lemma_receipts_err_prefix(st0, rv, i + 1, shard_id, num_shards); }
            return Err(ApplyError::ReceiptWrongShard);
        }
        if st.has_receipt(&r.receipt_id) {
            proof { lemma_receipts_err_prefix(st0, rv, i + 1, shard_id, num_shards); }
            return Err(ApplyError::DuplicateReceipt);
        }
        if r.actions.len() == 0 {
            proof { lemma_receipts_err_prefix(st0, rv, i + 1, shard_id, num_shards); }
            return Err(ApplyError::MalformedReceipt);
        }
        st.add_receipt(&r.receipt_id);
        match r.actions[0] {
            Action::Transfer { deposit } => {
                let ghost q0 = q@;
                q.push(Transfer {
                    id: r.receipt_id,
                    from: r.predecessor_id.duplicate(),
                    to: r.receiver_id.duplicate(),
                    amount: deposit,
                    nonce: 0,
                });
                proof {
                    assert(transfer_views(q@) =~= transfer_views(q0).push(q@.last()@));
                }
            },
            Action::Other => {},
        }
        i = i + 1;
    }
    assert(rv.take(i as int) =~= rv);
    Ok(q)
}

/// Queues the transfers of the transactions of a chunk after those in `q`.
fn queue_transactions(
    st: &mut Snapshot,
    q: &mut Vec<Transfer>,
    transactions: &Vec<Transaction>,
    shard_id: u64,
    num_shards: u64,
) -> (r: Result<(), ApplyError>)
    requires
        old(st).wf(),
        num_shards > 0,
    ensures
        final(st).wf(),
        match (r, transactions_phase(old(st)@, transfer_views(old(q)@), transaction_views(transactions@), shard_id, num_shards)) {
            (Ok(_), Ok((v, qv))) => final(st)@ == v && transfer_views(final(q)@) == qv,
            (Err(e), Err(f)) => e == f,
            _ => false,
        },
{
    let ghost st0 = st@;
    let ghost q0 = transfer_views(q@);
    let ghost tv = transaction_views(transactions@);
    let mut i: usize = 0;
    assert(tv.take(0) =~= Seq::<TransactionView>::empty());
    while i < transactions.len()
        invariant
            st.wf(),
            num_shards > 0,
            tv == transaction_views(transactions@),
            st0 == old(st)@,
            q0 == transfer_views(old(q)@),
            0 <= i <= transactions@.len(),
            transactions_phase(st0, q0, tv.take(i as int), shard_id, num_shards) == Ok::<(LedgerView, Seq<TransferView>), ApplyError>((st@, transfer_views(q@))),
        decreases transactions@.len() - i,
    {
        let t = &transactions[i];
        proof {
            assert(tv.take(i + 1).drop_last() =~= tv.take(i as int));
            assert(tv.take(i + 1).last() == t@);
        }
        if account_id_to_shard_id(&t.signer_id, num_shards) != shard_id {
            proof { lemma_transactions_err_prefix(st0, q0, tv, i + 1, shard_id, num_shards); }
            return Err(ApplyError::TransactionWrongShard);
        }
        if t.actions.len() > 0 {
            match t.actions[0] {
                Action::Transfer { deposit } => {
                    let amount = if st.has_nonce(&t.receiver_id, t.nonce) {
                        0
                    } else {
                        deposit
                    };
                    st.add_nonce(&t.receiver_id, t.nonce);
                    let ghost qa = q@;
                    q.push(Transfer {
                        id: t.hash,
                        from: t.signer_id.duplicate(),
                        to: t.receiver_id.duplicate(),
                        amount,
                        nonce: t.nonce,
                    });
                    proof {
                        assert(transfer_views(q@) =~= transfer_views(qa).push(q@.last()@));
                    }
                },
                Action::Other => {
                    proof { lemma_transactions_err_prefix(st0, q0, tv, i + 1, shard_id, num_shards); }
                    return Err(ApplyError::UnsupportedAction);
                },
            }
        }
        i = i + 1;
    }
    assert(tv.take(i as int) =~= tv);
    Ok(())
}

/// Runs the queued transfers in order, recording outcomes and outgoing receipts.
fn run_transfers(st: &mut Snapshot, q: &Vec<Transfer>, shard_id: u64, num_shards: u64) -> (r: Result<
    (Vec<Outcome>, Vec<Receipt>),
    ApplyError,
>)
    requires
        old(st).wf(),
        num_shards > 0,
    ensures
        final(st).wf(),
        match (r, transfers_phase(old(st)@, transfer_views(q@), shard_id, num_shards)) {
            (Ok((os, rs)), Ok((v, ov, rv))) => final(st)@ == v && outcome_views(os@) == ov
                && receipt_views(rs@) == rv,
            (Err(e), Err(f)) => e == f,
            _ => false,
        },
{
    let ghost st0 = st@;
    let ghost qv = transfer_views(q@);
    let mut outcomes: Vec<Outcome> = Vec::new();
    let mut outgoing: Vec<Receipt> = Vec::new();
    let mut j: usize = 0;
    assert(qv.take(0) =~= Seq::<TransferView>::empty());
    assert(outcome_views(outcomes@) =~= Seq::<OutcomeView>::empty());
    assert(receipt_views(outgoing@) =~= Seq::<ReceiptView>::empty());
    while j < q.len()
        invariant
            st.wf(),
            num_shards > 0,
            qv == transfer_views(q@),
            st0 == old(st)@,
            0 <= j <= q@.len(),
            transfers_phase(st0, qv.take(j as int), shard_id, num_shards) == Ok::<
                (LedgerView, Seq<OutcomeView>, Seq<ReceiptView>),
                ApplyError,
            >((st@, outcome_views(outcomes@), receipt_views(outgoing@))),
        decreases q@.len() - j,
    {
        let t = &q[j];
        let ghost s0 = st@;
        proof {
            assert(qv.take(j + 1).drop_last() =~= qv.take(j as int));
            assert(qv.take(j + 1).last() == t@);
        }
        let mut good = false;
        if account_id_to_shard_id(&t.from, num_shards) != shard_id {
            good = true;
        } else {
            match st.get_balance(&t.from) {
                Some(b) => {
                    if b >= t.amount {
                        st.set_balance(&t.from, b - t.amount);
                        good = true;
                    }
                },
                None => {},
            }
        }
        proof {
            assert(good == debit(s0, t@, shard_id, num_shards).is_some());
            if good {
                assert(st@ =~= debit(s0, t@, shard_id, num_shards).unwrap());
            }
        }
        if good {
            let ghost os0 = outcomes@;
            let ghost rs0 = outgoing@;
            if account_id_to_shard_id(&t.to, num_shards) == shard_id {
                let cur = match st.get_balance(&t.to) {
                    Some(b) => b,
                    None => 0,
                };
                if cur > u128::MAX - t.amount {
                    proof { lemma_transfers_err_prefix(st0, qv, j + 1, shard_id, num_shards); }
                    return Err(ApplyError::BalanceOverflow);
                }
                let ghost s1 = st@;
                st.set_balance(&t.to, cur + t.amount);
                assert(st@ =~= with_balance(s1, t@.to, (cur + t.amount) as u128));
                outcomes.push(Outcome { id: t.id, executor_id: t.to.duplicate(), receipt_ids: Vec::new() });
                proof {
                    assert(outcomes@.last()@.spawned =~= Seq::<Seq<u8>>::empty());
                    assert(outcome_views(outcomes@) =~= outcome_views(os0).push(
                        OutcomeView { id: t@.id, executor: t@.to, spawned: Seq::empty() },
                    ));
                }
            } else {
                if t.nonce == 0 {
                    proof { lemma_transfers_err_prefix(st0, qv, j + 1, shard_id, num_shards); }
                    return Err(ApplyError::ZeroNonceCrossShard);
                }
                match encode_receipt_record(&t.from, &t.to, t.amount, t.nonce) {
                    None => {
                        proof { lemma_transfers_err_prefix(st0, qv, j + 1, shard_id, num_shards); }
                        return Err(ApplyError::TooLargeToSerialize);
                    },
                    Some(bytes) => {
                        let rid = hash_bytes(bytes.as_slice());
                        let actions = vec![Action::Transfer { deposit: t.amount }];
                        outgoing.push(Receipt {
                            predecessor_id: t.from.duplicate(),
                            receiver_id: t.to.duplicate(),
                            receipt_id: rid,
                            actions,
                        });
                        let mut ids: Vec<CryptoHash> = Vec::new();
                        ids.push(rid);
                        outcomes.push(Outcome { id: t.id, executor_id: t.to.duplicate(), receipt_ids: ids });
                        proof {
                            assert(outgoing@.last()@.actions =~= seq![Action::Transfer { deposit: t.amount }]);
                            assert(outcomes@.last()@.spawned =~= seq![rid@]);
                            assert(outcome_views(outcomes@) =~= outcome_views(os0).push(outcomes@.last()@));
                            assert(receipt_views(outgoing@) =~= receipt_views(rs0).push(outgoing@.last()@));
                        }
                    },
                }
            }
        }
        j = j + 1;
    }
    assert(qv.take(j as int) =~= qv);
    Ok((outcomes, outgoing))
}

/// Applies a chunk's receipts and transactions to a copy of `st`: the new
/// snapshot, the outcomes and the outgoing receipts, exactly as
/// `apply_model` gives them.
pub fn apply_to_snapshot(
    st: &Snapshot,
    shard_id: u64,
    num_shards: u64,
    receipts: &Vec<Receipt>,
    transactions: &Vec<Transaction>,
) -> (r: Result<(Snapshot, Vec<Outcome>, Vec<Receipt>), ApplyError>)
    requires
        st.wf(),
        num_shards > 0,
    ensures
        match (r, apply_model(st@, receipt_views(receipts@), transaction_views(transactions@), shard_id, num_shards)) {
            (Ok((s, os, rs)), Ok((v, ov, rv))) => s.wf() && s@ == v && outcome_views(os@) == ov
                && receipt_views(rs@) == rv,
            (Err(e), Err(f)) => e == f,
            _ => false,
        },
{
    let mut s = crate::encoding::copy_snapshot(st);
    proof {
        crate::encoding::lemma_same_form_bytes(*st, s);
    }
    let mut q = match queue_receipts(&mut s, receipts, shard_id, num_shards) {
        Ok(q) => q,
        Err(e) => return Err(e),
    };
    match queue_transactions(&mut s, &mut q, transactions, shard_id, num_shards) {
        Ok(()) => {},
        Err(e) => return Err(e),
    }
    match run_transfers(&mut s, &q, shard_id, num_shards) {
        Ok((os, rs)) => Ok((s, os, rs)),
        Err(e) => Err(e),
    }
}

proof fn lemma_receipts_phase_keeps_ids(st: LedgerView, rs: Seq<ReceiptView>, shard: u64, n: u64)
    requires
        receipts_phase(st, rs, shard, n) is Ok,
    ensures
        st.receipts.subset_of(receipts_phase(st, rs, shard, n).unwrap().0.receipts),
    decreases rs.len(),
{
    if rs.len() > 0 {
        lemma_receipts_phase_keeps_ids(st, rs.drop_last(), shard, n);
    }
}

/// A chunk that carries a receipt whose id the snapshot has already applied
/// cannot be applied: the replay is always reported, never accepted.
pub proof fn lemma_replayed_receipt_fails(
    st: LedgerView,
    rs: Seq<ReceiptView>,
    ts: Seq<TransactionView>,
    k: int,
    shard: u64,
    n: u64,
)
    requires
        0 <= k < rs.len(),
        st.receipts.contains(rs[k].id),
    ensures
        apply_model(st, rs, ts, shard, n) is Err,
{
    let pre = rs.take(k + 1);
    assert(pre.drop_last() =~= rs.take(k));
    assert(pre.last() == rs[k]);
    if receipts_phase(st, rs.take(k), shard, n) is Ok {
        lemma_receipts_phase_keeps_ids(st, rs.take(k), shard, n);
    }
    assert(receipts_phase(st, pre, shard, n) is Err);
    lemma_receipts_err_prefix(st, rs, k + 1, shard, n);
}

/// A transaction whose (receiver, nonce) pair the snapshot has already
/// applied, replayed alone from a signer that holds a balance, yields one
/// outcome, moves no balance and changes neither replay-protection set; any
/// receipt it sends carries nothing. A transfer to another shard must have a
/// nonzero nonce and names that fit the serialized form.
pub proof fn lemma_replayed_transaction_is_noop(st: LedgerView, t: TransactionView, deposit: u128, shard: u64, n: u64)
    requires
        n > 0,
        shard_of(t.signer, n) == shard,
        t.actions.len() > 0,
        t.actions[0] == (Action::Transfer { deposit }),
        st.nonces.contains((t.receiver, t.nonce)),
        st.balances.contains_key(t.signer),
        shard_of(t.receiver, n) != shard ==> t.nonce != 0 && fits_u32(t.signer.len() as int) && fits_u32(
            t.receiver.len() as int,
        ),
    ensures
        apply_model(st, Seq::empty(), seq![t], shard, n) is Ok,
        ({
            let (v, os, out) = apply_model(st, Seq::empty(), seq![t], shard, n).unwrap();
            &&& forall|a: Seq<u8>| balance_in(v.balances, a) == balance_in(st.balances, a)
            &&& v.receipts == st.receipts
            &&& v.nonces == st.nonces
            &&& os.len() == 1
            &&& os[0].id == t.hash
            &&& forall|i: int| 0 <= i < out.len() ==> (#[trigger] out[i]).actions == seq![Action::Transfer { deposit: 0 }]
        }),
{
    let e = Seq::<ReceiptView>::empty();
    assert(receipts_phase(st, e, shard, n) == Ok::<(LedgerView, Seq<TransferView>), ApplyError>((st, Seq::empty())));
    let ts = seq![t];
    assert(ts.drop_last() =~= Seq::<TransactionView>::empty());
    assert(ts.last() == t);
    let tr = TransferView { id: t.hash, from: t.signer, to: t.receiver, amount: 0, nonce: t.nonce };
    assert(with_nonce(st, (t.receiver, t.nonce)).nonces =~= st.nonces);
    let s1 = with_nonce(st, (t.receiver, t.nonce));
    assert(transactions_phase(st, Seq::empty(), ts.drop_last(), shard, n) == Ok::<(LedgerView, Seq<TransferView>), ApplyError>((st, Seq::empty())));
    assert(transaction_step(st, t, shard, n) == Ok::<(LedgerView, Option<TransferView>), ApplyError>((s1, Some(tr))));
    assert(push_opt(Seq::<TransferView>::empty(), Some(tr)) == Seq::<TransferView>::empty().push(tr));
    assert(transactions_phase(st, Seq::empty(), ts, shard, n) == Ok::<(LedgerView, Seq<TransferView>), ApplyError>(
        (s1, Seq::<TransferView>::empty().push(tr)),
    ));
    let q = Seq::<TransferView>::empty().push(tr);
    assert(q.drop_last() =~= Seq::<TransferView>::empty());
    assert(q.last() == tr);
    let d = debit(s1, tr, shard, n);
    assert(d is Some);
    let s2 = d.unwrap();
    assert forall|a: Seq<u8>| balance_in(s2.balances, a) == balance_in(st.balances, a) by {}
    let none_o = Seq::<OutcomeView>::empty();
    let none_r = Seq::<ReceiptView>::empty();
    assert(transfers_phase(s1, q.drop_last(), shard, n) == Ok::<(LedgerView, Seq<OutcomeView>, Seq<ReceiptView>), ApplyError>((s1, none_o, none_r)));
    let x = transfer_step(s1, tr, shard, n);
    assert(x is Ok);
    let (v, y) = x.unwrap();
    assert(apply_model(st, Seq::empty(), ts, shard, n) == Ok::<(LedgerView, Seq<OutcomeView>, Seq<ReceiptView>), ApplyError>(
        (v, push_opt(none_o, outcome_of(y)), push_opt(none_r, receipt_of(y))),
    ));
    assert(y is Some);
    assert(push_opt(none_o, outcome_of(y)) == none_o.push(y.unwrap().0));
    if shard_of(t.receiver, n) == shard {
        assert(v == with_balance(s2, t.receiver, balance_in(s2.balances, t.receiver)));
        assert forall|a: Seq<u8>| balance_in(v.balances, a) == balance_in(st.balances, a) by {}
        assert(push_opt(none_r, receipt_of(y)) == none_r);
    } else {
        assert(v == s2);
        let out = push_opt(none_r, receipt_of(y));
        assert(out == none_r.push(receipt_of(y).unwrap()));
        assert(out[0].actions == seq![Action::Transfer { deposit: 0 }]);
    }
}

} // verus!
