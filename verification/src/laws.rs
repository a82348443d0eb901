use vstd::prelude::*;
use crate::ledger_ops::{rebond_chunks, rebond_moved, unbond_chunks};
use crate::state::Staking;
use crate::types::{sum_exposure, sum_unlock, UnlockChunk};

verus! {

/// Ledger accounting law: in a well-formed state every stored ledger keeps
/// `total = active + Σ unlocking.value`, and in particular `active <= total`.
/// Every operation's contract returns a well-formed state, so this holds
/// after every operation.
pub proof fn lemma_ledger_accounting(s: Staking, controller: u64)
    requires
        s.wf(),
        s.ledger.contains_key(controller),
    ensures
        ({
            let l = s.ledger.spec_get(controller).unwrap();
            &&& l.total as int == l.active as int + sum_unlock(l.unlocking@)
            &&& l.active <= l.total
        }),
{
    let l = s.ledger.spec_get(controller).unwrap();
    l.lemma_active_le_total();
}

/// Exposure accounting law: every exposure stored in an era snapshot keeps
/// `total = own + Σ others.amount`, for the full and the clipped record
/// alike.
pub proof fn lemma_exposure_accounting(s: Staking, era: u64, validator: u64)
    requires
        s.wf(),
        s.eras.contains_key(era),
    ensures
        s.eras.spec_get(era).unwrap().stakers.contains_key(validator) ==> ({
            let x = s.eras.spec_get(era).unwrap().stakers.spec_get(validator).unwrap();
            x.total as int == x.own as int + sum_exposure(x.others@)
        }),
        s.eras.spec_get(era).unwrap().stakers_clipped.contains_key(validator) ==> ({
            let x = s.eras.spec_get(era).unwrap().stakers_clipped.spec_get(validator).unwrap();
            x.total as int == x.own as int + sum_exposure(x.others@)
        }),
{
}

/// Round-trip law: unbonding `x` and then rebonding `x` in the same era is a
/// net no-op on the ledger. Queueing `x` for era `target` (`unbond_chunks`)
/// followed by moving `x` back (`rebond_chunks`) restores the unlocking
/// queue exactly, and the amount moved back is exactly `x`; with the ledger
/// operations' contracts this restores `active` and `total` and clears the
/// queued entry. When the amount merges into an existing chunk, that chunk
/// must have value and headroom — which every queue produced by the
/// operations has, as they never keep a drained chunk.
pub proof fn lemma_unbond_rebond_round_trip(s: Seq<UnlockChunk>, x: u64, target: u32)
    requires
        x > 0,
        s.len() > 0 && s.last().era >= target ==> (s.last().value > 0 && s.last().value + x
            <= u64::MAX),
    ensures
        rebond_chunks(unbond_chunks(s, x, target), x) == s,
        rebond_moved(unbond_chunks(s, x, target), x) == x,
{
    if s.len() > 0 && s.last().era >= target {
        let merged = UnlockChunk { value: (s.last().value + x) as u64, era: s.last().era };
        let u = s.update(s.len() - 1, merged);
        assert(u.last() == merged);
        assert(x < merged.value);
        let back = UnlockChunk { value: (merged.value - x) as u64, era: merged.era };
        assert(back == s.last());
        assert(u.update(u.len() - 1, back) =~= s);
        assert(rebond_moved(u, x) == x as int);
    } else {
        let pushed = UnlockChunk { value: x, era: target };
        let u = s.push(pushed);
        assert(u.last() == pushed);
        assert(u.drop_last() =~= s);
        assert(rebond_chunks(u, x) == rebond_chunks(s, 0));
        assert(rebond_moved(u, x) == x + rebond_moved(s, (x - x) as u64));
        assert(rebond_moved(s, 0) == 0);
    }
}

} // verus!
