//! Choice of the participant whose slot a new registration takes.
use vstd::prelude::*;

verus! {

/// A divisor of the pruning score; a zero denominator divides by one.
pub open spec fn denominator(d: int) -> int {
    if d == 0 {
        1
    } else {
        d
    }
}

/// The pruning score of a participant: stake and incentive, each divided by
/// its denominator. A lower score is pruned first.
pub open spec fn prune_score_spec(stake: int, incentive: int, stake_den: int, incentive_den: int) -> int {
    stake / denominator(stake_den) + incentive / denominator(incentive_den)
}

/// Whether a participant registered at `registered_at` is still within its
/// immunity period at `current_block`.
pub open spec fn is_immune(registered_at: int, current_block: int, immunity_period: int) -> bool {
    current_block < registered_at + immunity_period
}

/// The pruning score of a participant.
pub fn prune_score(stake: u64, incentive: u64, stake_den: u64, incentive_den: u64) -> (r: u128)
    ensures
        r as int == prune_score_spec(stake as int, incentive as int, stake_den as int, incentive_den as int),
{
    let sd: u64 = if stake_den == 0 {
        1
    } else {
        stake_den
    };
    let id: u64 = if incentive_den == 0 {
        1
    } else {
        incentive_den
    };
    (stake / sd) as u128 + (incentive / id) as u128
}

/// Whether `u` is the slot to prune: not immune, with the lowest score of
/// all slots that are not immune, and the lowest uid among equal scores.
pub open spec fn is_prune_choice(
    u: int,
    scores: Seq<u128>,
    registered_at: Seq<u64>,
    current_block: int,
    immunity_period: int,
) -> bool {
    &&& 0 <= u < scores.len()
    &&& !is_immune(registered_at[u] as int, current_block, immunity_period)
    &&& forall|v: int|
        0 <= v < scores.len() && !is_immune(registered_at[v] as int, current_block, immunity_period) ==> {
            ||| scores[u] < scores[v]
            ||| scores[u] == scores[v] && u <= v
        }
}

/// The slot to prune, given each slot's score and registration block; `None`
/// when every slot is still immune. An immune slot is never chosen.
pub fn select_prune_candidate(
    scores: &Vec<u128>,
    registered_at: &Vec<u64>,
    current_block: u64,
    immunity_period: u64,
) -> (r: Option<u32>)
    requires
        scores@.len() == registered_at@.len(),
        scores@.len() <= 0x1_0000_0000,
    ensures
        r is None <==> forall|v: int|
            0 <= v < scores@.len() ==> is_immune(
                registered_at@[v] as int,
                current_block as int,
                immunity_period as int,
            ),
        r matches Some(u) ==> is_prune_choice(
            u as int,
            scores@,
            registered_at@,
            current_block as int,
            immunity_period as int,
        ),
{
    let mut best: Option<u32> = None;
    let mut i: usize = 0;
    while i < scores.len()
        invariant
            i <= scores@.len(),
            scores@.len() == registered_at@.len(),
            scores@.len() <= 0x1_0000_0000,
            best is None ==> forall|v: int|
                0 <= v < i ==> is_immune(registered_at@[v] as int, current_block as int, immunity_period as int),
            best matches Some(u) ==> u < i && is_prune_choice(
                u as int,
                scores@.subrange(0, i as int),
                registered_at@.subrange(0, i as int),
                current_block as int,
                immunity_period as int,
            ),
        decreases scores.len() - i,
    {
        let immune = (current_block as u128) < (registered_at[i] as u128) + (immunity_period as u128);
        if !immune {
            match best {
                None => {
                    best = Some(i as u32);
                },
                Some(u) => {
                    if scores[i] < scores[u as usize] {
                        best = Some(i as u32);
                    }
                },
            }
        }
        proof {
            let s1 = scores@.subrange(0, i + 1);
            let r1 = registered_at@.subrange(0, i + 1);
            if let Some(u) = best {
                assert forall|v: int|
                    0 <= v < s1.len() && !is_immune(r1[v] as int, current_block as int, immunity_period as int)
                        implies s1[u as int] < s1[v] || (s1[u as int] == s1[v] && u <= v) by {
                    if v < i {
                        assert(scores@.subrange(0, i as int)[v] == s1[v]);
                        assert(registered_at@.subrange(0, i as int)[v] == r1[v]);
                    }
                }
            }
        }
        i = i + 1;
    }
    proof {
        assert(scores@.subrange(0, i as int) =~= scores@);
        assert(registered_at@.subrange(0, i as int) =~= registered_at@);
    }
    best
}

/// A participant still within its immunity period is never the slot to
/// prune, whatever its score.
pub proof fn lemma_immune_never_pruned(
    u: int,
    scores: Seq<u128>,
    registered_at: Seq<u64>,
    current_block: int,
    immunity_period: int,
)
    requires
        0 <= u < registered_at.len(),
        is_immune(registered_at[u] as int, current_block, immunity_period),
    ensures
        !is_prune_choice(u, scores, registered_at, current_block, immunity_period),
{
}

} // verus!
