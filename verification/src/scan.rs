//! Scanning decoded entries for instructions of the target program that
//! begin with the target discriminator, and extracting identity fields by
//! fixed position from the resolved account list.

use vstd::prelude::*;
use vstd::slice::slice_subrange;
use crate::bytes::{bytes_eq, clone_bytes};
use crate::entries::{
    DetectionEvent,
    Entry,
    EntryV,
    EventV,
    InstructionV,
    TransactionV,
    entries_view,
    events_view,
};

verus! {

/// Number of leading data bytes that identify the instruction variant.
pub const DISCRIMINATOR_LEN: usize = 8;

/// The sequence of byte-sequence views of a list of keys.
pub open spec fn keys_view(s: Seq<Vec<u8>>) -> Seq<Seq<u8>> {
    s.map_values(|k: Vec<u8>| k@)
}

/// The identities named by `idxs` in the static account list `keys`, in
/// order, an out-of-range index contributing nothing.
pub open spec fn resolved_accounts(keys: Seq<Seq<u8>>, idxs: Seq<u8>) -> Seq<Seq<u8>>
    decreases idxs.len(),
{
    if idxs.len() == 0 {
        Seq::empty()
    } else {
        let pre = resolved_accounts(keys, idxs.drop_last());
        if (idxs.last() as int) < keys.len() {
            pre.push(keys[idxs.last() as int])
        } else {
            pre
        }
    }
}

/// The identity at `pos` in a resolved account list, or the empty byte
/// string when the list is too short.
pub open spec fn field_at(resolved: Seq<Seq<u8>>, pos: int) -> Seq<u8> {
    if 0 <= pos < resolved.len() {
        resolved[pos]
    } else {
        Seq::empty()
    }
}

/// Whether an instruction is a detection: its program-id index is in
/// range, the named program equals the target, and its first eight data
/// bytes equal the discriminator.
pub open spec fn ix_matches(
    keys: Seq<Seq<u8>>,
    ix: InstructionV,
    target: Seq<u8>,
    disc: Seq<u8>,
) -> bool {
    &&& (ix.program_id_index as int) < keys.len()
    &&& keys[ix.program_id_index as int] == target
    &&& ix.data.len() >= DISCRIMINATOR_LEN
    &&& ix.data.subrange(0, DISCRIMINATOR_LEN as int) == disc
}

/// The event a matching instruction yields: mint, bonding curve and
/// creator are the resolved accounts at positions 0, 2 and 7.
pub open spec fn event_of(keys: Seq<Seq<u8>>, ix: InstructionV) -> EventV {
    let r = resolved_accounts(keys, ix.accounts);
    EventV { mint: field_at(r, 0), bonding_curve: field_at(r, 2), creator: field_at(r, 7) }
}

/// The events one instruction yields: one on a match, none otherwise.
pub open spec fn scan_ix(
    keys: Seq<Seq<u8>>,
    ix: InstructionV,
    target: Seq<u8>,
    disc: Seq<u8>,
) -> Seq<EventV> {
    if ix_matches(keys, ix, target, disc) {
        seq![event_of(keys, ix)]
    } else {
        Seq::empty()
    }
}

/// The events of a list of instructions, in order.
pub open spec fn scan_ixs(
    keys: Seq<Seq<u8>>,
    ixs: Seq<InstructionV>,
    target: Seq<u8>,
    disc: Seq<u8>,
) -> Seq<EventV>
    decreases ixs.len(),
{
    if ixs.len() == 0 {
        Seq::empty()
    } else {
        scan_ixs(keys, ixs.drop_last(), target, disc) + scan_ix(keys, ixs.last(), target, disc)
    }
}

/// The events of one transaction, its indices resolved against its own
/// static account list.
pub open spec fn scan_tx(tx: TransactionV, target: Seq<u8>, disc: Seq<u8>) -> Seq<EventV> {
    scan_ixs(tx.account_keys, tx.instructions, target, disc)
}

/// The events of a list of transactions, in order.
pub open spec fn scan_txs(txs: Seq<TransactionV>, target: Seq<u8>, disc: Seq<u8>) -> Seq<EventV>
    decreases txs.len(),
{
    if txs.len() == 0 {
        Seq::empty()
    } else {
        scan_txs(txs.drop_last(), target, disc) + scan_tx(txs.last(), target, disc)
    }
}

/// The events of a list of entries, in the order their instructions
/// appear in the decoded payload.
pub open spec fn scan_entries(es: Seq<EntryV>, target: Seq<u8>, disc: Seq<u8>) -> Seq<EventV>
    decreases es.len(),
{
    if es.len() == 0 {
        Seq::empty()
    } else {
        scan_entries(es.drop_last(), target, disc) + scan_txs(es.last().transactions, target, disc)
    }
}

/// Resolves each account index into an identity, dropping out-of-range
/// indices.
fn resolve_accounts_exec(keys: &Vec<Vec<u8>>, idxs: &Vec<u8>) -> (r: Vec<Vec<u8>>)
    ensures
        keys_view(r@) == resolved_accounts(keys_view(keys@), idxs@),
{
    let mut out: Vec<Vec<u8>> = Vec::new();
    let mut j: usize = 0;
    while j < idxs.len()
        invariant
            0 <= j <= idxs@.len(),
            keys_view(out@) == resolved_accounts(keys_view(keys@), idxs@.take(j as int)),
        decreases idxs@.len() - j,
    {
        let ghost prev = out@;
        let idx = idxs[j] as usize;
        if idx < keys.len() {
            out.push(clone_bytes(&keys[idx]));
        }
        proof {
            let t1 = idxs@.take(j as int + 1);
            assert(t1.drop_last() =~= idxs@.take(j as int));
            assert(t1.last() == idxs@[j as int]);
            if (idxs@[j as int] as int) < keys@.len() {
                assert(keys_view(out@) =~= keys_view(prev).push(keys_view(keys@)[idx as int]));
            }
            assert(keys_view(out@) =~= resolved_accounts(keys_view(keys@), t1));
        }
        j += 1;
    }
    proof {
        assert(idxs@.take(idxs@.len() as int) =~= idxs@);
    }
    out
}

/// The identity at `pos`, or the empty byte string when out of range.
fn field_or_empty(resolved: &Vec<Vec<u8>>, pos: usize) -> (r: Vec<u8>)
    ensures
        r@ == field_at(keys_view(resolved@), pos as int),
{
    if pos < resolved.len() {
        clone_bytes(&resolved[pos])
    } else {
        Vec::new()
    }
}

/// Walks every instruction of every transaction of every entry, in
/// original order, and collects one detection event per instruction of
/// the target program whose data begins with the target discriminator.
pub fn scan(entries: &Vec<Entry>, target: &Vec<u8>, disc: &Vec<u8>) -> (r: Vec<DetectionEvent>)
    ensures
        events_view(r@) == scan_entries(entries_view(entries@), target@, disc@),
{
    let mut out: Vec<DetectionEvent> = Vec::new();
    let mut i: usize = 0;
    while i < entries.len()
        invariant
            0 <= i <= entries@.len(),
            events_view(out@) == scan_entries(
                entries_view(entries@).take(i as int),
                target@,
                disc@,
            ),
        decreases entries@.len() - i,
    {
        let ghost acc0 = events_view(out@);
        let entry = &entries[i];
        let mut t: usize = 0;
        while t < entry.transactions.len()
            invariant
                0 <= t <= entry.transactions@.len(),
                entry == &entries[i as int],
                0 <= i < entries@.len(),
                acc0 == scan_entries(entries_view(entries@).take(i as int), target@, disc@),
                events_view(out@) == acc0 + scan_txs(
                    entry@.transactions.take(t as int),
                    target@,
                    disc@,
                ),
            decreases entry.transactions@.len() - t,
        {
            let ghost acc1 = events_view(out@);
            let tx = &entry.transactions[t];
            let mut x: usize = 0;
            while x < tx.instructions.len()
                invariant
                    0 <= x <= tx.instructions@.len(),
                    tx == &entry.transactions[t as int],
                    0 <= t < entry.transactions@.len(),
                    acc1 == events_view(out@).take(acc1.len() as int) && acc1.len() <= events_view(
                        out@,
                    ).len(),
                    events_view(out@) == acc1 + scan_ixs(
                        tx@.account_keys,
                        tx@.instructions.take(x as int),
                        target@,
                        disc@,
                    ),
                decreases tx.instructions@.len() - x,
            {
                let ghost acc2 = events_view(out@);
                let ix = &tx.instructions[x];
                let pidx = ix.program_id_index as usize;
                let matched = pidx < tx.account_keys.len() && bytes_eq(
                    tx.account_keys[pidx].as_slice(),
                    target.as_slice(),
                ) && ix.data.len() >= DISCRIMINATOR_LEN && bytes_eq(
                    slice_subrange(ix.data.as_slice(), 0, DISCRIMINATOR_LEN),
                    disc.as_slice(),
                );
                proof {
                    assert(tx@.instructions[x as int] == ix@);
                    assert(tx@.account_keys.len() == tx.account_keys@.len());
                    if pidx < tx.account_keys@.len() {
                        assert(tx@.account_keys[pidx as int] == tx.account_keys@[pidx as int]@);
                    }
                    assert(matched == ix_matches(tx@.account_keys, ix@, target@, disc@));
                }
                if matched {
                    let resolved = resolve_accounts_exec(&tx.account_keys, &ix.accounts);
                    let ev = DetectionEvent {
                        mint: field_or_empty(&resolved, 0),
                        bonding_curve: field_or_empty(&resolved, 2),
                        creator: field_or_empty(&resolved, 7),
                    };
                    proof {
                        assert(keys_view(tx.account_keys@) =~= tx@.account_keys);
                        assert(ev@ == event_of(tx@.account_keys, ix@));
                    }
                    out.push(ev);
                    proof {
                        assert(events_view(out@) =~= acc2.push(
                            event_of(tx@.account_keys, ix@),
                        ));
                        assert(acc2.push(event_of(tx@.account_keys, ix@)) =~= acc2 + scan_ix(
                            tx@.account_keys,
                            ix@,
                            target@,
                            disc@,
                        ));
                    }
                }
                proof {
                    let t1 = tx@.instructions.take(x as int + 1);
                    assert(t1.drop_last() =~= tx@.instructions.take(x as int));
                    assert(t1.last() == tx@.instructions[x as int]);
                    if !matched {
                        assert(acc2 + Seq::<EventV>::empty() =~= acc2);
                    }
                    assert(events_view(out@) =~= acc1 + scan_ixs(
                        tx@.account_keys,
                        t1,
                        target@,
                        disc@,
                    ));
                    assert(acc1 =~= events_view(out@).take(acc1.len() as int));
                }
                x += 1;
            }
            proof {
                assert(tx@.instructions.take(tx@.instructions.len() as int) =~= tx@.instructions);
                let t1 = entry@.transactions.take(t as int + 1);
                assert(t1.drop_last() =~= entry@.transactions.take(t as int));
                assert(t1.last() == entry@.transactions[t as int]);
                assert(entry@.transactions[t as int] == tx@);
                assert(events_view(out@) =~= acc0 + scan_txs(t1, target@, disc@));
            }
            t += 1;
        }
        proof {
            assert(entry@.transactions.take(entry@.transactions.len() as int)
                =~= entry@.transactions);
            let t1 = entries_view(entries@).take(i as int + 1);
            assert(t1.drop_last() =~= entries_view(entries@).take(i as int));
            assert(t1.last() == entries_view(entries@)[i as int]);
            assert(entries_view(entries@)[i as int] == entry@);
            assert(events_view(out@) =~= scan_entries(t1, target@, disc@));
        }
        i += 1;
    }
    proof {
        assert(entries_view(entries@).take(entries@.len() as int) =~= entries_view(entries@));
    }
    out
}

/// An instruction whose data holds fewer than eight bytes yields no
/// event, whatever its program or accounts.
pub proof fn lemma_short_data_no_event(
    keys: Seq<Seq<u8>>,
    ix: InstructionV,
    target: Seq<u8>,
    disc: Seq<u8>,
)
    requires
        ix.data.len() < DISCRIMINATOR_LEN,
    ensures
        scan_ix(keys, ix, target, disc) == Seq::<EventV>::empty(),
{
}

/// An instruction whose resolved program identity is not the target
/// yields no event, whatever its data; an out-of-range program-id index
/// resolves to nothing and so never matches.
pub proof fn lemma_program_mismatch_no_event(
    keys: Seq<Seq<u8>>,
    ix: InstructionV,
    target: Seq<u8>,
    disc: Seq<u8>,
)
    requires
        (ix.program_id_index as int) >= keys.len() || keys[ix.program_id_index as int] != target,
    ensures
        scan_ix(keys, ix, target, disc) == Seq::<EventV>::empty(),
{
}

/// Canonical detection: an instruction of the target program whose first
/// eight data bytes equal the discriminator and whose resolved account
/// list holds at least eight entries yields exactly one event, with mint,
/// bonding curve and creator the resolved accounts at positions 0, 2
/// and 7.
pub proof fn lemma_canonical_detection(
    keys: Seq<Seq<u8>>,
    ix: InstructionV,
    target: Seq<u8>,
    disc: Seq<u8>,
)
    requires
        (ix.program_id_index as int) < keys.len(),
        keys[ix.program_id_index as int] == target,
        ix.data.len() >= DISCRIMINATOR_LEN,
        ix.data.subrange(0, DISCRIMINATOR_LEN as int) == disc,
        resolved_accounts(keys, ix.accounts).len() >= 8,
    ensures
        scan_ix(keys, ix, target, disc) == seq![
            EventV {
                mint: resolved_accounts(keys, ix.accounts)[0],
                bonding_curve: resolved_accounts(keys, ix.accounts)[2],
                creator: resolved_accounts(keys, ix.accounts)[7],
            },
        ],
{
}

} // verus!
