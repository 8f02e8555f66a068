//! The decoded shape of a payload: entries holding transactions holding
//! instructions, and the detection events the scanner produces.
//!
//! An account identity is carried as its raw bytes.  An instruction's
//! indices are meaningful only relative to its own transaction's static
//! account list.

use vstd::prelude::*;

verus! {

/// One compiled instruction: an index into the transaction's static
/// account list naming the program, a list of account indices into the
/// same list, and opaque data bytes.
pub struct Instruction {
    pub program_id_index: u8,
    pub accounts: Vec<u8>,
    pub data: Vec<u8>,
}

/// Mathematical shape of an instruction.
pub ghost struct InstructionV {
    pub program_id_index: u8,
    pub accounts: Seq<u8>,
    pub data: Seq<u8>,
}

impl View for Instruction {
    type V = InstructionV;

    open spec fn view(&self) -> InstructionV {
        InstructionV {
            program_id_index: self.program_id_index,
            accounts: self.accounts@,
            data: self.data@,
        }
    }
}

/// One transaction: its static, ordered account list and its ordered
/// instructions.
pub struct Transaction {
    pub account_keys: Vec<Vec<u8>>,
    pub instructions: Vec<Instruction>,
}

/// Mathematical shape of a transaction.
pub ghost struct TransactionV {
    pub account_keys: Seq<Seq<u8>>,
    pub instructions: Seq<InstructionV>,
}

impl View for Transaction {
    type V = TransactionV;

    open spec fn view(&self) -> TransactionV {
        TransactionV {
            account_keys: self.account_keys@.map_values(|k: Vec<u8>| k@),
            instructions: self.instructions@.map_values(|i: Instruction| i@),
        }
    }
}

/// One decoded ledger entry: an ordered batch of transactions.
pub struct Entry {
    pub transactions: Vec<Transaction>,
}

/// Mathematical shape of an entry.
pub ghost struct EntryV {
    pub transactions: Seq<TransactionV>,
}

impl View for Entry {
    type V = EntryV;

    open spec fn view(&self) -> EntryV {
        EntryV { transactions: self.transactions@.map_values(|t: Transaction| t@) }
    }
}

/// The sequence of entry views described by a sequence of entries.
pub open spec fn entries_view(s: Seq<Entry>) -> Seq<EntryV> {
    s.map_values(|e: Entry| e@)
}

/// A detection: the three identities extracted by fixed position from the
/// matching instruction's resolved account list.  An identity whose
/// position was out of range is the empty byte string.
pub struct DetectionEvent {
    pub mint: Vec<u8>,
    pub bonding_curve: Vec<u8>,
    pub creator: Vec<u8>,
}

/// Mathematical shape of a detection event.
pub ghost struct EventV {
    pub mint: Seq<u8>,
    pub bonding_curve: Seq<u8>,
    pub creator: Seq<u8>,
}

impl View for DetectionEvent {
    type V = EventV;

    open spec fn view(&self) -> EventV {
        EventV { mint: self.mint@, bonding_curve: self.bonding_curve@, creator: self.creator@ }
    }
}

/// The sequence of event views described by a sequence of events.
pub open spec fn events_view(s: Seq<DetectionEvent>) -> Seq<EventV> {
    s.map_values(|e: DetectionEvent| e@)
}

} // verus!
