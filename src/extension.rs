//! Transaction ordering: the priority that the ledger gives each kind of call.
use crate::engine::Pallet;
use crate::step::stored;
use vstd::prelude::*;

verus! {

/// The kind of a call, as far as ordering is concerned.
#[derive(Clone, Copy, Debug, PartialEq, Eq, Structural)]
pub enum CallType {
    SetWeights,
    AddStake,
    RemoveStake,
    Register,
    Serve,
    Other,
}

impl Default for CallType {
    fn default() -> (r: CallType)
        ensures
            r == CallType::Other,
    {
        CallType::Other
    }
}

/// Orders the calls of the engine: weight-set requests by the priority of
/// their sender, everything else ahead of them.
#[derive(Clone, Copy, Debug, PartialEq, Eq, Structural)]
pub struct SubtensorSignedExtension {}

/// How a valid transaction is ordered and how long it stays valid.
#[derive(Clone, Copy, Debug, PartialEq, Eq, Structural)]
pub struct ValidTransaction {
    pub priority: u64,
    pub longevity: u64,
}

impl SubtensorSignedExtension {
    pub fn new() -> (r: SubtensorSignedExtension)
        ensures
            r == (SubtensorSignedExtension {}),
    {
        SubtensorSignedExtension {}
    }

    /// The priority of every call but a weight-set request: the highest.
    pub fn get_priority_vanilla() -> (r: u64)
        ensures
            r == u64::MAX,
    {
        0xFFFF_FFFF_FFFF_FFFF
    }

    /// The priority of a weight-set request of `len` bytes from `who`.
    pub fn get_priority_set_weights(engine: &Pallet, who: u64, len: u64) -> (r: u64)
        requires
            engine.wf(),
            engine.uid_of(who) is Some ==> len > 0,
        ensures
            r == match engine.uid_of(who) {
                None => 0,
                Some(u) => stored(engine.priority@[u] as int * 1_000_000 / len as int),
            },
    {
        engine.get_priority_set_weights(who, len)
    }

    /// How a call of kind `call` and `len` bytes from `who` is ordered: a
    /// weight-set request by its sender's priority and valid for one block,
    /// every other call first and valid for as long as possible.
    pub fn validate(&self, engine: &Pallet, who: u64, call: CallType, len: u64) -> (r: ValidTransaction)
        requires
            engine.wf(),
            call == CallType::SetWeights && engine.uid_of(who) is Some ==> len > 0,
        ensures
            call == CallType::SetWeights ==> r == (ValidTransaction {
                priority: match engine.uid_of(who) {
                    None => 0,
                    Some(u) => stored(engine.priority@[u] as int * 1_000_000 / len as int),
                },
                longevity: 1,
            }),
            call != CallType::SetWeights ==> r == (ValidTransaction { priority: u64::MAX, longevity: u64::MAX }),
    {
        match call {
            CallType::SetWeights => ValidTransaction {
                priority: Self::get_priority_set_weights(engine, who, len),
                longevity: 1,
            },
            _ => ValidTransaction { priority: Self::get_priority_vanilla(), longevity: 0xFFFF_FFFF_FFFF_FFFF },
        }
    }

    /// What is kept of a call before it is dispatched: its kind, its fee,
    /// which is zero, and its sender.
    pub fn pre_dispatch(self, who: u64, call: CallType) -> (r: (CallType, u64, u64))
        ensures
            r == (call, 0u64, who),
    {
        (call, 0, who)
    }
}

} // verus!
