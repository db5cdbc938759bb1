use vstd::prelude::*;

use crate::primitives::{Address, Blake2bHash};

verus! {

/// The largest amount of coins that can exist (in the smallest unit).
pub const COIN_MAX: u64 = 9007199254740991;

/// Fee-per-byte priorities are kept as fixed-point integers with this many
/// parts per unit.
pub const FEE_RATE_SCALE: u64 = 1000;

/// Number of blocks, counted from its validity start height, during which a
/// transaction may be included.
pub const TRANSACTION_VALIDITY_WINDOW: u32 = 7200;

#[derive(Clone, Copy, Debug, PartialEq, Eq, Structural)]
pub enum AccountType {
    Basic,
    Vesting,
    Htlc,
    Staking,
}

/// The parsed proof of a transaction sent from the staking contract.
#[derive(Clone, Copy, Debug, PartialEq, Eq)]
pub enum OutgoingStakingTransactionProof {
    DeleteValidator { signer: Address },
    Unstake { signer: Address },
}

/// The parsed data of a transaction sent to the staking contract.
#[derive(Clone, Copy, Debug, PartialEq, Eq)]
pub enum IncomingStakingTransactionData {
    CreateValidator { signer: Address },
    CreateStaker { signer: Address },
    Other,
}

/// A transaction, with the values the mempool reads from it: its hash, the
/// parties, amounts, validity start and serialized size, and the parsed
/// staking payloads (for transactions from or to the staking contract).
#[derive(Clone, Copy, Debug, PartialEq, Eq)]
pub struct Transaction {
    pub hash: Blake2bHash,
    pub sender: Address,
    pub sender_type: AccountType,
    pub recipient: Address,
    pub recipient_type: AccountType,
    pub value: u64,
    pub fee: u64,
    pub validity_start_height: u32,
    pub serialized_size: usize,
    pub outgoing_staking: Option<OutgoingStakingTransactionProof>,
    pub incoming_staking: Option<IncomingStakingTransactionData>,
}

impl Transaction {
    /// Amounts are valid coin values and the serialized form is not empty.
    pub open spec fn wf(&self) -> bool {
        &&& self.value <= COIN_MAX
        &&& self.fee <= COIN_MAX
        &&& self.serialized_size > 0
    }

    /// Whether the amounts are coin values and the serialized size is not zero.
    pub fn is_well_formed(&self) -> (r: bool)
        ensures
            r == self.wf(),
    {
        self.value <= COIN_MAX && self.fee <= COIN_MAX && self.serialized_size > 0
    }

    pub open spec fn total_value_spec(&self) -> int {
        self.value + self.fee
    }

    /// Value plus fee.
    pub fn total_value(&self) -> (r: u64)
        requires
            self.wf(),
        ensures
            r == self.total_value_spec(),
    {
        self.value + self.fee
    }

    /// Fee per byte, in fixed point with `FEE_RATE_SCALE` parts per unit.
    pub open spec fn fee_rate(&self) -> int {
        (self.fee * FEE_RATE_SCALE) as int / self.serialized_size as int
    }

    pub fn fee_per_byte(&self) -> (r: u64)
        requires
            self.wf(),
        ensures
            r == self.fee_rate(),
    {
        proof {
            assert(self.fee * FEE_RATE_SCALE <= COIN_MAX * FEE_RATE_SCALE) by (nonlinear_arith)
                requires
                    self.fee <= COIN_MAX,
            ;
        }
        (self.fee * FEE_RATE_SCALE) / (self.serialized_size as u64)
    }

    pub open spec fn valid_at(&self, block_height: u32) -> bool {
        &&& self.validity_start_height <= block_height
        &&& block_height < self.validity_start_height + TRANSACTION_VALIDITY_WINDOW
    }

    /// Whether the transaction may be included in the block at `block_height`.
    pub fn is_valid_at(&self, block_height: u32) -> (r: bool)
        ensures
            r == self.valid_at(block_height),
    {
        self.validity_start_height <= block_height && (block_height as u64) < (
        self.validity_start_height as u64) + (TRANSACTION_VALIDITY_WINDOW as u64)
    }

    /// The validator that this transaction deletes, if it is one that does.
    pub open spec fn deleting_validator(&self) -> Option<Address> {
        if self.sender_type == AccountType::Staking {
            match self.outgoing_staking {
                Some(OutgoingStakingTransactionProof::DeleteValidator { signer }) => Some(signer),
                _ => None,
            }
        } else {
            None
        }
    }

    /// The staker that this transaction unstakes for, if it is one that does.
    pub open spec fn unstaking_staker(&self) -> Option<Address> {
        if self.sender_type == AccountType::Staking {
            match self.outgoing_staking {
                Some(OutgoingStakingTransactionProof::Unstake { signer }) => Some(signer),
                _ => None,
            }
        } else {
            None
        }
    }

    /// The validator that this transaction creates, if it is one that does.
    pub open spec fn created_validator(&self) -> Option<Address> {
        if self.recipient_type == AccountType::Staking {
            match self.incoming_staking {
                Some(IncomingStakingTransactionData::CreateValidator { signer }) => Some(signer),
                _ => None,
            }
        } else {
            None
        }
    }

    /// The staker that this transaction creates, if it is one that does.
    pub open spec fn created_staker(&self) -> Option<Address> {
        if self.recipient_type == AccountType::Staking {
            match self.incoming_staking {
                Some(IncomingStakingTransactionData::CreateStaker { signer }) => Some(signer),
                _ => None,
            }
        } else {
            None
        }
    }

    pub fn get_deleting_validator(&self) -> (r: Option<Address>)
        ensures
            r == self.deleting_validator(),
    {
        if self.sender_type == AccountType::Staking {
            match self.outgoing_staking {
                Some(OutgoingStakingTransactionProof::DeleteValidator { signer }) => Some(signer),
                _ => None,
            }
        } else {
            None
        }
    }

    pub fn get_unstaking_staker(&self) -> (r: Option<Address>)
        ensures
            r == self.unstaking_staker(),
    {
        if self.sender_type == AccountType::Staking {
            match self.outgoing_staking {
                Some(OutgoingStakingTransactionProof::Unstake { signer }) => Some(signer),
                _ => None,
            }
        } else {
            None
        }
    }

    pub fn get_created_validator(&self) -> (r: Option<Address>)
        ensures
            r == self.created_validator(),
    {
        if self.recipient_type == AccountType::Staking {
            match self.incoming_staking {
                Some(IncomingStakingTransactionData::CreateValidator { signer }) => Some(signer),
                _ => None,
            }
        } else {
            None
        }
    }

    pub fn get_created_staker(&self) -> (r: Option<Address>)
        ensures
            r == self.created_staker(),
    {
        if self.recipient_type == AccountType::Staking {
            match self.incoming_staking {
                Some(IncomingStakingTransactionData::CreateStaker { signer }) => Some(signer),
                _ => None,
            }
        } else {
            None
        }
    }
}

} // verus!
