//! Host and step measurements: the host description and the integer parts of
//! the resource statistics a step's samples are reduced to.
use vstd::prelude::*;

verus! {

/// Basic host information captured once at start-up.
#[derive(Debug, Clone)]
pub struct HostInfo {
    pub hostname: String,
    pub os: String,
    pub kernel: String,
    pub cpu_brand: String,
    pub cpu_count: usize,
    pub total_memory_mib: u64,
}

/// Whole mebibytes in `bytes` (rounded down).
pub fn bytes_to_mib(bytes: u64) -> (mib: u64)
    ensures
        mib == bytes / 1_048_576u64,
{
    bytes / 1024 / 1024
}

/// The largest sample (0 when there is none).
pub open spec fn peak_of(samples: Seq<u64>) -> u64
    decreases samples.len(),
{
    if samples.len() == 0 {
        0
    } else {
        let rest = peak_of(samples.drop_last());
        if rest >= samples.last() {
            rest
        } else {
            samples.last()
        }
    }
}

/// The peak of the memory samples, in MiB (0 when there were none).
pub fn peak_memory_mib(samples: &Vec<u64>) -> (peak: u64)
    ensures
        peak == peak_of(samples@),
{
    let mut peak: u64 = 0;
    let mut i: usize = 0;
    while i < samples.len()
        invariant
            i <= samples@.len(),
            peak == peak_of(samples@.take(i as int)),
        decreases samples.len() - i,
    {
        proof {
            assert(samples@.take(i + 1).drop_last() =~= samples@.take(i as int));
        }
        if samples[i] > peak {
            peak = samples[i];
        }
        i = i + 1;
    }
    assert(samples@.take(i as int) =~= samples@);
    peak
}

/// The peak is one of the samples and no sample is above it.
pub proof fn lemma_peak_is_maximum(samples: Seq<u64>)
    ensures
        forall|i: int| 0 <= i < samples.len() ==> #[trigger] samples[i] <= peak_of(samples),
        samples.len() > 0 ==> samples.contains(peak_of(samples)),
    decreases samples.len(),
{
    if samples.len() > 0 {
        let init = samples.drop_last();
        lemma_peak_is_maximum(init);
        assert forall|i: int| 0 <= i < samples.len() implies #[trigger] samples[i] <= peak_of(samples) by {
            if i < init.len() {
                assert(samples[i] == init[i]);
            }
        }
        if init.len() > 0 && peak_of(init) >= samples.last() {
            let j = choose|j: int| 0 <= j < init.len() && init[j] == peak_of(init);
            assert(samples[j] == init[j]);
        } else {
            assert(samples[samples.len() - 1] == samples.last());
        }
    }
}

} // verus!
