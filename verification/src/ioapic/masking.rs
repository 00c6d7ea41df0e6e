//! Masking every input of the I/O APICs, before any line is let through.

use vstd::prelude::*;
use super::{entry_writes, low_masked, Config, IoApic, RegWrite};

verus! {

/// The inputs of one I/O APIC.
pub open spec fn inputs_of(io: IoApic) -> Seq<(IoApic, u32)> {
    Seq::new((io.gsi_end - io.gsi_start) as nat, |i: int| (io, i as u32))
}

/// The inputs of the first `n` I/O APICs.
pub open spec fn all_inputs(c: Seq<IoApic>, n: int) -> Seq<(IoApic, u32)>
    decreases n,
{
    if n <= 0 {
        Seq::empty()
    } else {
        all_inputs(c, n - 1) + inputs_of(c[n - 1])
    }
}

/// Every input there is: each is to be read and masked.
pub fn inputs(config: &Config) -> (r: Vec<(IoApic, u32)>)
    requires
        config.wf(),
    ensures
        r@ == all_inputs(config.controllers@, config.controllers@.len() as int),
        forall|k: int| 0 <= k < r@.len() ==> (#[trigger] r@[k]).1 < 256,
{
    let mut r: Vec<(IoApic, u32)> = Vec::new();
    let n: usize = config.controllers.len();
    let mut i: usize = 0;
    while i < n
        invariant
            i <= n,
            n == config.controllers@.len(),
            config.wf(),
            r@ == all_inputs(config.controllers@, i as int),
            forall|k: int| 0 <= k < r@.len() ==> (#[trigger] r@[k]).1 < 256,
        decreases n - i,
    {
        let io: IoApic = config.controllers[i];
        assert(config.controllers@[i as int].is_sound());
        let count: u32 = io.gsi_end - io.gsi_start;
        let ghost before = r@;
        let mut index: u32 = 0;
        while index < count
            invariant
                index <= count,
                count == io.gsi_end - io.gsi_start,
                count <= 256,
                r@ == before + inputs_of(io).take(index as int),
                forall|k: int| 0 <= k < r@.len() ==> (#[trigger] r@[k]).1 < 256,
            decreases count - index,
        {
            r.push((io, index));
            proof {
                assert(inputs_of(io).take(index + 1) =~= inputs_of(io).take(index as int).push(
                    (io, index),
                ));
            }
            index += 1;
        }
        proof {
            assert(inputs_of(io).take(count as int) =~= inputs_of(io));
        }
        i += 1;
    }
    r
}

/// The registers of the I/O APICs after writes.
pub open spec fn written(regs: Map<(u64, u32), u32>, writes: Seq<RegWrite>) -> Map<(u64, u32), u32>
    decreases writes.len(),
{
    if writes.len() == 0 {
        regs
    } else {
        let w = writes.last();
        written(regs, writes.drop_last()).insert((w.base, w.reg), w.value)
    }
}

/// The registers after the first `n` inputs were masked, given what was read of the
/// entry of each.
pub open spec fn after_masking(
    regs: Map<(u64, u32), u32>,
    inputs: Seq<(IoApic, u32)>,
    words: Seq<(u32, u32)>,
    n: int,
) -> Map<(u64, u32), u32>
    decreases n,
{
    if n <= 0 {
        regs
    } else {
        let (io, index) = inputs[n - 1];
        let (low, high) = words[n - 1];
        written(
            after_masking(regs, inputs, words, n - 1),
            entry_writes(io, index, low_masked(low), high as int),
        )
    }
}

/// Whether an input lets nothing through.
pub open spec fn is_masked(regs: Map<(u64, u32), u32>, io: IoApic, index: int) -> bool {
    let at = (io.base, (0x10 + 2 * index) as u32);
    regs.dom().contains(at) && regs[at] / 0x1_0000 % 2 == 1
}

proof fn lemma_entry_written(
    regs: Map<(u64, u32), u32>,
    io: IoApic,
    index: u32,
    low: u32,
    high: u32,
    other: IoApic,
    at: int,
)
    requires
        index < 256,
        0 <= at < 256,
    ensures
        is_masked(written(regs, entry_writes(io, index, low_masked(low), high as int)), io, index as int),
        is_masked(regs, other, at) ==> is_masked(
            written(regs, entry_writes(io, index, low_masked(low), high as int)),
            other,
            at,
        ),
{
    let w = entry_writes(io, index, low_masked(low), high as int);
    reveal_with_fuel(written, 4);
    assert(w.drop_last().drop_last().drop_last() =~= Seq::<RegWrite>::empty());
    let m = low_masked(low);
    assert(m / 0x1_0000 % 2 == 1);
    assert(0 <= m <= u32::MAX);
}

proof fn lemma_stays_masked(
    regs: Map<(u64, u32), u32>,
    inputs: Seq<(IoApic, u32)>,
    words: Seq<(u32, u32)>,
    k: int,
    n: int,
)
    requires
        0 <= k < n <= inputs.len(),
        forall|j: int| 0 <= j < inputs.len() ==> (#[trigger] inputs[j]).1 < 256,
    ensures
        is_masked(after_masking(regs, inputs, words, n), inputs[k].0, inputs[k].1 as int),
    decreases n,
{
    let before = after_masking(regs, inputs, words, n - 1);
    let (io, index) = inputs[n - 1];
    assert(inputs[k].1 < 256);
    lemma_entry_written(
        before,
        io,
        index,
        words[n - 1].0,
        words[n - 1].1,
        inputs[k].0,
        inputs[k].1 as int,
    );
    if k < n - 1 {
        lemma_stays_masked(regs, inputs, words, k, n - 1);
    }
}

proof fn lemma_input_listed(c: Seq<IoApic>, n: int, k: int, index: int)
    requires
        0 <= k < n <= c.len(),
        0 <= index < c[k].gsi_end - c[k].gsi_start,
    ensures
        all_inputs(c, n).contains((c[k], index as u32)),
    decreases n,
{
    let rest = all_inputs(c, n - 1);
    let one = inputs_of(c[n - 1]);
    if k < n - 1 {
        lemma_input_listed(c, n - 1, k, index);
        let j = choose|j: int| 0 <= j < rest.len() && rest[j] == (c[k], index as u32);
        assert((rest + one)[j] == (c[k], index as u32));
    } else {
        assert((rest + one)[rest.len() + index] == (c[k], index as u32));
    }
}

proof fn lemma_inputs_in_range(c: Seq<IoApic>, n: int)
    requires
        0 <= n <= c.len(),
        forall|k: int| 0 <= k < c.len() ==> (#[trigger] c[k]).is_sound(),
    ensures
        forall|j: int| 0 <= j < all_inputs(c, n).len() ==> (#[trigger] all_inputs(c, n)[j]).1 < 256,
    decreases n,
{
    if n > 0 {
        lemma_inputs_in_range(c, n - 1);
        assert(c[n - 1].is_sound());
        let rest = all_inputs(c, n - 1);
        assert forall|j: int| 0 <= j < all_inputs(c, n).len() implies (#[trigger] all_inputs(
            c,
            n,
        )[j]).1 < 256 by {
            if j < rest.len() {
                assert(all_inputs(c, n)[j] == rest[j]);
            }
        }
    }
}

/// Once every input that is listed was masked, whatever was read of its entry, no
/// input of any I/O APIC in use lets anything through.
pub proof fn law_every_input_is_masked(
    c: Config,
    regs: Map<(u64, u32), u32>,
    words: Seq<(u32, u32)>,
    k: int,
    index: int,
)
    requires
        c.wf(),
        0 <= k < c.controllers@.len(),
        0 <= index < c.controllers@[k].gsi_end - c.controllers@[k].gsi_start,
    ensures
        ({
            let inputs = all_inputs(c.controllers@, c.controllers@.len() as int);
            is_masked(
                after_masking(regs, inputs, words, inputs.len() as int),
                c.controllers@[k],
                index,
            )
        }),
{
    let n = c.controllers@.len() as int;
    let inputs = all_inputs(c.controllers@, n);
    lemma_input_listed(c.controllers@, n, k, index);
    lemma_inputs_in_range(c.controllers@, n);
    let j = choose|j: int| 0 <= j < inputs.len() && inputs[j] == (c.controllers@[k], index as u32);
    assert(c.controllers@[k].is_sound());
    lemma_stays_masked(regs, inputs, words, j, inputs.len() as int);
}

} // verus!
