//! Decoding a raw payload into entries.
//!
//! The wire format is the upstream producer's fixed binary schema for a
//! batch of ledger entries; it is matched byte for byte by deserializing
//! with the upstream types themselves, behind one trusted wrapper.  A
//! parse failure is never fatal: the caller drops the payload and goes on.

use vstd::prelude::*;
use solana_transaction::versioned::VersionedTransaction;
use crate::entries::{Entry, EntryV, Instruction, Transaction, entries_view};

verus! {

/// What the wire schema says a payload's bytes decode to: the entries,
/// each reduced to its transactions' static account lists and
/// instructions, or nothing when the bytes are malformed.  The result
/// depends on the bytes alone.
pub uninterp spec fn decoded_entries(data: Seq<u8>) -> Option<Seq<EntryV>>;

/// Relies on bincode::deserialize with solana-transaction's serde
/// implementations for the wire schema (an entry is a hash count, a
/// hash, and its transactions), and on VersionedMessage's
/// static_account_keys and instructions accessors and Address::to_bytes
/// to read the decoded values out field by field.
#[verifier::external_body]
fn decode_entries_raw(data: &[u8]) -> (r: Option<Vec<Entry>>)
    ensures
        r is Some <==> decoded_entries(data@) is Some,
        r matches Some(es) ==> Some(entries_view(es@)) == decoded_entries(data@),
{
    let parsed: Vec<(u64, [u8; 32], Vec<VersionedTransaction>)> =
        bincode::deserialize(data).ok()?;
    Some(parsed.into_iter().map(|(_, _, txs)| Entry {
        transactions: txs.into_iter().map(|tx| Transaction {
            account_keys: tx.message.static_account_keys().iter().map(|k| k.to_bytes().to_vec()).collect(),
            instructions: tx.message.instructions().iter().map(|ix| Instruction {
                program_id_index: ix.program_id_index,
                accounts: ix.accounts.clone(),
                data: ix.data.clone(),
            }).collect(),
        }).collect(),
    }).collect())
}

/// A payload whose bytes do not parse as entries.
#[derive(Debug, PartialEq, Eq, Structural)]
pub enum DecodeError {
    Malformed,
}

/// Deserializes a raw payload into entries, or reports it malformed.
pub fn decode(data: &[u8]) -> (r: Result<Vec<Entry>, DecodeError>)
    ensures
        r is Ok <==> decoded_entries(data@) is Some,
        r matches Ok(es) ==> Some(entries_view(es@)) == decoded_entries(data@),
        r matches Err(e) ==> e == DecodeError::Malformed,
{
    match decode_entries_raw(data) {
        Some(es) => Ok(es),
        None => Err(DecodeError::Malformed),
    }
}

} // verus!
