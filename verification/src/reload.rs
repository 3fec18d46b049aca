use vstd::prelude::*;

verus! {

/// Whether observing `sig`, with `last` the stored signature, starts a
/// reload attempt: only a readable signature different from the stored one
/// does.
pub open spec fn spec_attempt(last: u64, sig: Option<u64>) -> bool {
    match sig {
        Some(s) => s != last,
        None => false,
    }
}

/// The stored signature after observing `sig`: updated exactly when an
/// attempt starts, whether or not the attempt then succeeds.
pub open spec fn spec_next(last: u64, sig: Option<u64>) -> u64 {
    match sig {
        Some(s) => s,
        None => last,
    }
}

/// The reload loop's decision state: the last-known modification signature
/// of the configuration source.
pub struct ReloadPolicy {
    pub last_signature: u64,
}

impl ReloadPolicy {
    pub fn new(signature: u64) -> (r: ReloadPolicy)
        ensures
            r.last_signature == signature,
    {
        ReloadPolicy { last_signature: signature }
    }

    /// One poll: `signature` is what the source reports, `None` when it
    /// cannot be read.  Returns whether to attempt a reload.  The stored
    /// signature is updated the moment an attempt starts, before the attempt
    /// can fail, so a failed attempt is not retried until the source changes
    /// again.
    pub fn observe(&mut self, signature: Option<u64>) -> (attempt: bool)
        ensures
            attempt == spec_attempt(old(self).last_signature, signature),
            final(self).last_signature == spec_next(old(self).last_signature, signature),
    {
        match signature {
            Some(s) => {
                if s != self.last_signature {
                    self.last_signature = s;
                    true
                } else {
                    false
                }
            },
            None => false,
        }
    }
}

/// The stored signature after a whole run of polls.
pub open spec fn spec_run(last: u64, sigs: Seq<Option<u64>>) -> u64
    decreases sigs.len(),
{
    if sigs.len() == 0 {
        last
    } else {
        spec_run(spec_next(last, sigs[0]), sigs.drop_first())
    }
}

/// Whether any poll in a run starts an attempt.
pub open spec fn spec_any_attempt(last: u64, sigs: Seq<Option<u64>>) -> bool
    decreases sigs.len(),
{
    if sigs.len() == 0 {
        false
    } else {
        spec_attempt(last, sigs[0]) || spec_any_attempt(spec_next(last, sigs[0]), sigs.drop_first())
    }
}

/// Reload self-limiting: once the stored signature is `last`, any run of
/// polls that keep observing `last`, or failing to read the source, starts
/// no further attempt, across any number of elapsed intervals, and leaves
/// the stored signature unchanged.
pub proof fn lemma_reload_self_limiting(last: u64, sigs: Seq<Option<u64>>)
    requires
        forall|i: int| 0 <= i < sigs.len() ==> (sigs[i] is None || sigs[i] == Some(last)),
    ensures
        !spec_any_attempt(last, sigs),
        spec_run(last, sigs) == last,
    decreases sigs.len(),
{
    if sigs.len() == 0 {
    } else {
        assert(sigs[0] is None || sigs[0] == Some(last));
        assert(spec_next(last, sigs[0]) == last);
        assert forall|i: int|
            0 <= i < sigs.drop_first().len() implies (sigs.drop_first()[i] is None
            || sigs.drop_first()[i] == Some(last)) by {
            assert(sigs.drop_first()[i] == sigs[i + 1]);
        }
        lemma_reload_self_limiting(last, sigs.drop_first());
    }
}

} // verus!
