//! The errors that an entry point of the engine may return.
use vstd::prelude::*;

verus! {

/// Why a request was refused. A refused request changes no state.
#[derive(Clone, Copy, Debug, PartialEq, Eq, Structural)]
pub enum Error {
    NoneValue,
    StorageOverflow,
    /// The served endpoint's ip type is neither 4 nor 6.
    InvalidIpType,
    /// The served ip address does not fit its ip type, or is zero.
    InvalidIpAddress,
    /// The served modality is not one the network accepts.
    InvalidModality,
    /// The uids and the weights of a weight-set request differ in length.
    WeightVecNotEqualSize,
    /// A uid appears twice in a weight-set request.
    DuplicateUids,
    /// A weight-set request names a uid that is not registered.
    InvalidUid,
    /// The proof-of-work block is in the future or too old.
    InvalidWorkBlock,
    /// The proof-of-work digest does not meet the difficulty.
    InvalidDifficulty,
    /// The proof-of-work digest is not the seal of its inputs.
    InvalidSeal,
    /// The block already holds the allowed number of registrations.
    ToManyRegistrationsThisBlock,
    /// The hotkey has no participant.
    NotRegistered,
    /// The hotkey already has a participant.
    AlreadyRegistered,
    /// The caller is not the coldkey of the hotkey's participant.
    NonAssociatedColdKey,
    /// More stake was asked for than the participant holds.
    NotEnoughStaketoWithdraw,
    /// More stake was offered than the coldkey's balance.
    NotEnoughBalanceToStake,
    /// The balance could not be withdrawn from the coldkey.
    BalanceWithdrawalError,
    /// An amount could not be converted to a balance.
    CouldNotConvertToBalance,
    /// Fewer non-zero weights than the minimum were supplied.
    NotSettingEnoughWeights,
    /// The largest normalized weight is too many times the smallest.
    MaxAllowedMaxMinRatioExceeded,
    /// A normalized weight is above the allowed limit.
    MaxWeightExceeded,
    /// The proof-of-work digest was used before.
    WorkRepeated,
    /// A tunable was given a value outside its range.
    StorageValueOutOfRange,
    /// The call needs the privileged origin.
    BadOrigin,
    /// The registry is full and every participant is still immune to pruning.
    NoPrunableSlot,
}

/// The description of an error.
pub open spec fn message(e: Error) -> Seq<char> {
    match e {
        Error::AlreadyRegistered => "The node with the supplied public key is already registered"@,
        Error::NotRegistered => "The node with the supplied public key is not registered"@,
        Error::WeightVecNotEqualSize => "The vec of keys and the vec of values are not of the same size"@,
        Error::NonAssociatedColdKey => "The used cold key is not associated with the hot key acccount"@,
        Error::StorageValueOutOfRange => "The supplied storage value is outside of its allowed range"@,
        _ => "Invalid Error Case"@,
    }
}

impl Error {
    /// A short description of the error.
    pub fn print(&self) -> (r: String)
        ensures
            r@ == message(*self),
    {
        match self {
            Error::AlreadyRegistered => "The node with the supplied public key is already registered".to_owned(),
            Error::NotRegistered => "The node with the supplied public key is not registered".to_owned(),
            Error::WeightVecNotEqualSize => "The vec of keys and the vec of values are not of the same size".to_owned(),
            Error::NonAssociatedColdKey => "The used cold key is not associated with the hot key acccount".to_owned(),
            Error::StorageValueOutOfRange => "The supplied storage value is outside of its allowed range".to_owned(),
            _ => "Invalid Error Case".to_owned(),
        }
    }
}

} // verus!
