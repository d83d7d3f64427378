//! Tallies of how the chunks of a row were taken, and sampled clock readings.

use vstd::prelude::*;

verus! {

/// Tally of the path that each chunk took, and the cycles that sampled chunks
/// spent in each stage. Tallies of cycles wrap around, as the clock does.
#[derive(Clone, Copy)]
pub struct RowSplitCounts {
    /// Chunks that lie in one lattice cell.
    pub uniform: u64,
    /// Chunks that span several lattice cells.
    pub fallback: u64,
    /// Samples behind the last full chunk of a row.
    pub tail: u64,
    /// Whether chunks are sampled at all.
    pub timing: bool,
    /// One in every `sample_every` chunks is sampled.
    pub sample_every: u32,
    /// Chunks until the next sampled one.
    pub sample_counter: u32,
    /// Chunks sampled so far.
    pub samples: u64,
    /// Cycles of the sampled chunks, from end to end.
    pub iter_cycles: u64,
    /// Cycles in which sampled uniform chunks were computed.
    pub compute_uniform_cycles: u64,
    /// Cycles in which sampled fallback chunks were computed.
    pub compute_fallback_cycles: u64,
    /// Cycles in which sampled chunks were combined into the output.
    pub fill_cycles: u64,
}

/// The countdown that a sampled chunk starts.
pub open spec fn countdown(sample_every: u32) -> u32 {
    if sample_every == 0 {
        0
    } else {
        (sample_every - 1) as u32
    }
}

/// The countdown before chunk `k`, where chunk 0 is sampled.
pub open spec fn counter_before(sample_every: u32, k: nat) -> u32
    decreases k,
{
    if k == 0 {
        0
    } else {
        let c = counter_before(sample_every, (k - 1) as nat);
        if c == 0 {
            countdown(sample_every)
        } else {
            (c - 1) as u32
        }
    }
}

/// One in every `sample_every` chunks is sampled: from a sampled chunk on, the
/// countdown is over exactly before every chunk whose distance to it is a
/// multiple of `sample_every`.
pub proof fn law_one_in_every_is_sampled(sample_every: u32, k: nat)
    requires
        sample_every > 0,
    ensures
        counter_before(sample_every, k) == 0 <==> k % (sample_every as nat) == 0,
{
    lemma_counter(sample_every, k);
}

proof fn lemma_counter(sample_every: u32, k: nat)
    requires
        sample_every > 0,
    ensures
        counter_before(sample_every, k) == (if k % (sample_every as nat) == 0 {
            0
        } else {
            sample_every - k % (sample_every as nat)
        }),
    decreases k,
{
    let n = sample_every as int;
    if k > 0 {
        lemma_counter(sample_every, (k - 1) as nat);
        let m = (k - 1) as int % n;
        vstd::arithmetic::div_mod::lemma_mod_bound((k - 1) as int, n);
        vstd::arithmetic::div_mod::lemma_fundamental_div_mod((k - 1) as int, n);
        let q = (k - 1) as int / n;
        if m + 1 < n {
            vstd::arithmetic::div_mod::lemma_fundamental_div_mod_converse(k as int, n, q, m + 1);
        } else {
            assert(k as int == n * (q + 1) + 0) by (nonlinear_arith)
                requires
                    k as int - 1 == n * q + m,
                    m == n - 1,
            ;
            vstd::arithmetic::div_mod::lemma_fundamental_div_mod_converse(k as int, n, q + 1, 0);
        }
    } else {
        vstd::arithmetic::div_mod::lemma_small_mod(0, sample_every as nat);
    }
}

impl RowSplitCounts {
    /// Nothing counted yet.
    pub fn new(timing: bool, sample_every: u32) -> (r: Self)
        ensures
            r == (RowSplitCounts {
                uniform: 0,
                fallback: 0,
                tail: 0,
                timing,
                sample_every,
                sample_counter: 0,
                samples: 0,
                iter_cycles: 0,
                compute_uniform_cycles: 0,
                compute_fallback_cycles: 0,
                fill_cycles: 0,
            }),
    {
        RowSplitCounts {
            uniform: 0,
            fallback: 0,
            tail: 0,
            timing,
            sample_every,
            sample_counter: 0,
            samples: 0,
            iter_cycles: 0,
            compute_uniform_cycles: 0,
            compute_fallback_cycles: 0,
            fill_cycles: 0,
        }
    }

    /// The next chunk is sampled.
    pub open spec fn due(self) -> bool {
        self.timing && self.sample_counter == 0
    }

    /// Where a chunk that starts at clock reading `now` is sampled from: the
    /// reading, or 0 if the chunk is skipped.
    pub open spec fn opened(self, now: u64) -> u64 {
        if self.due() {
            now
        } else {
            0
        }
    }

    /// The tallies after the start of a chunk at clock reading `now`.
    pub open spec fn ticked(self, now: u64) -> Self {
        RowSplitCounts {
            sample_counter: if !self.timing {
                self.sample_counter
            } else if self.sample_counter > 0 {
                (self.sample_counter - 1) as u32
            } else {
                countdown(self.sample_every)
            },
            samples: if self.due() && now != 0 {
                (self.samples + 1) as u64
            } else {
                self.samples
            },
            ..self
        }
    }

    /// The tallies after a chunk that started at `t0` was computed at `now`.
    pub open spec fn computed(self, t0: u64, uniform: bool, now: u64) -> Self {
        let cycles = now.wrapping_sub(t0);
        if t0 == 0 {
            self
        } else if uniform {
            RowSplitCounts {
                compute_uniform_cycles: self.compute_uniform_cycles.wrapping_add(cycles),
                ..self
            }
        } else {
            RowSplitCounts {
                compute_fallback_cycles: self.compute_fallback_cycles.wrapping_add(cycles),
                ..self
            }
        }
    }

    /// The tallies after a chunk that was computed at `t1` was combined at
    /// `now`.
    pub open spec fn filled(self, t1: u64, now: u64) -> Self {
        if t1 == 0 {
            self
        } else {
            RowSplitCounts {
                fill_cycles: self.fill_cycles.wrapping_add(now.wrapping_sub(t1)),
                ..self
            }
        }
    }

    /// The tallies after a chunk that started at `t0` ended at `now`.
    pub open spec fn ended(self, t0: u64, now: u64) -> Self {
        if t0 == 0 {
            self
        } else {
            RowSplitCounts {
                iter_cycles: self.iter_cycles.wrapping_add(now.wrapping_sub(t0)),
                ..self
            }
        }
    }

    /// Whether the next chunk is sampled.
    pub fn is_due(&self) -> (r: bool)
        ensures
            r == self.due(),
    {
        self.timing && self.sample_counter == 0
    }

    /// Marks the start of a chunk at clock reading `now`. Gives the reading
    /// back for a sampled chunk, and 0 for one that is skipped.
    pub fn tick(&mut self, now: u64) -> (t: u64)
        requires
            old(self).due() && now != 0 ==> old(self).samples < u64::MAX,
        ensures
            t == old(self).opened(now),
            *final(self) == old(self).ticked(now),
    {
        if !self.timing {
            return 0;
        }
        if self.sample_counter > 0 {
            self.sample_counter = self.sample_counter - 1;
            return 0;
        }
        self.sample_counter = if self.sample_every == 0 {
            0
        } else {
            self.sample_every - 1
        };
        if now != 0 {
            self.samples = self.samples + 1;
        }
        now
    }

    /// Ends the computation of a sampled chunk that started at `t0`: the cycles
    /// go to the uniform or to the fallback chunks. Gives the reading back.
    pub fn compute_done(&mut self, t0: u64, uniform: bool, now: u64) -> (t1: u64)
        ensures
            t1 == closed(t0, now),
            *final(self) == old(self).computed(t0, uniform, now),
    {
        if t0 == 0 {
            return 0;
        }
        let cycles: u64 = now.wrapping_sub(t0);
        if uniform {
            self.compute_uniform_cycles = self.compute_uniform_cycles.wrapping_add(cycles);
        } else {
            self.compute_fallback_cycles = self.compute_fallback_cycles.wrapping_add(cycles);
        }
        now
    }

    /// Ends the combination of a sampled chunk that was computed at `t1`.
    pub fn fill_done(&mut self, t1: u64, now: u64)
        ensures
            *final(self) == old(self).filled(t1, now),
    {
        if t1 == 0 {
            return;
        }
        self.fill_cycles = self.fill_cycles.wrapping_add(now.wrapping_sub(t1));
    }

    /// Ends a sampled chunk that started at `t0`.
    pub fn iter_done(&mut self, t0: u64, now: u64)
        ensures
            *final(self) == old(self).ended(t0, now),
    {
        if t0 == 0 {
            return;
        }
        self.iter_cycles = self.iter_cycles.wrapping_add(now.wrapping_sub(t0));
    }
}

/// What the end of a stage hands on: the reading at that end, or 0 where the
/// chunk that started at `t` is skipped.
pub open spec fn closed(t: u64, now: u64) -> u64 {
    if t == 0 {
        0
    } else {
        now
    }
}

/// The clock readings of one chunk: at its start, once it was computed, once it
/// was combined and at its end.
pub ghost struct Readings {
    pub start: u64,
    pub computed: u64,
    pub filled: u64,
    pub done: u64,
}

/// A clock reading that is taken only where it is asked for, and 0 where it is
/// not.
pub open spec fn reading<K>(clock: K, asked: bool, now: u64) -> bool where K: Fn() -> u64 {
    if asked {
        clock.ensures((), now)
    } else {
        now == 0
    }
}

/// The readings of the next chunk. The clock is read only for a sampled chunk,
/// and only as long as it gave readings other than 0.
pub open spec fn chunk_clocked<K>(clock: K, c: RowSplitCounts, r: Readings) -> bool where
    K: Fn() -> u64,
 {
    let t0 = c.opened(r.start);
    let t1 = closed(t0, r.computed);
    &&& reading(clock, c.due(), r.start)
    &&& reading(clock, t0 != 0, r.computed)
    &&& reading(clock, t1 != 0, r.filled)
    &&& reading(clock, t0 != 0, r.done)
}

/// The tallies after the next chunk, which lies in one cell or does not.
#[verifier::opaque]
pub open spec fn chunk_timed(c: RowSplitCounts, uniform: bool, r: Readings) -> RowSplitCounts {
    let t0 = c.opened(r.start);
    let t1 = closed(t0, r.computed);
    c.ticked(r.start).computed(t0, uniform, r.computed).filled(t1, r.filled).ended(t0, r.done)
}

/// The countdown of the tallies follows the chunks: where it stands as before
/// chunk `k`, the next chunk is sampled exactly if `k` is a multiple of
/// `sample_every`, and then it stands as before chunk `k + 1`.
pub proof fn law_countdown_follows_the_chunks(c: RowSplitCounts, now: u64, k: nat)
    requires
        c.timing,
        c.sample_every > 0,
        c.sample_counter == counter_before(c.sample_every, k),
    ensures
        c.due() <==> k % (c.sample_every as nat) == 0,
        c.ticked(now).sample_counter == counter_before(c.sample_every, k + 1),
        c.ticked(now).sample_every == c.sample_every,
        c.ticked(now).timing,
{
    law_one_in_every_is_sampled(c.sample_every, k);
}

/// What a chunk does to the tallies of the clock. The paths and the settings stay,
/// and the countdown goes down by one, or starts anew where it was over.
/// A chunk that is not sampled, or for which the clock gave 0, changes no other
/// tally. A sampled one counts once; the cycles from its start to its end, from
/// its start until it was computed and from there until it was combined go to the
/// three tallies of those stages, modulo 2^64, those of the computation to the
/// path that the chunk took.
pub proof fn law_chunk_is_timed_by_its_stages(c: RowSplitCounts, uniform: bool, r: Readings)
    requires
        c.samples < u64::MAX,
    ensures
        ({
            let t = chunk_timed(c, uniform, r);
            let sampled = c.timing && c.sample_counter == 0 && r.start != 0;
            &&& t.uniform == c.uniform && t.fallback == c.fallback && t.tail == c.tail
            &&& t.timing == c.timing && t.sample_every == c.sample_every
            &&& !c.timing ==> t.sample_counter == c.sample_counter
            &&& c.timing && c.sample_counter > 0 ==> t.sample_counter + 1 == c.sample_counter
            &&& c.timing && c.sample_counter == 0 && c.sample_every > 0 ==> t.sample_counter + 1
                == c.sample_every
            &&& c.timing && c.sample_counter == 0 && c.sample_every == 0 ==> t.sample_counter == 0
            &&& t.samples == c.samples + (if sampled {
                1int
            } else {
                0int
            })
            &&& (t.iter_cycles - c.iter_cycles - (if sampled {
                r.done - r.start
            } else {
                0int
            })) % 0x1_0000_0000_0000_0000 == 0
            &&& (t.compute_uniform_cycles - c.compute_uniform_cycles - (if sampled && uniform {
                r.computed - r.start
            } else {
                0int
            })) % 0x1_0000_0000_0000_0000 == 0
            &&& (t.compute_fallback_cycles - c.compute_fallback_cycles - (if sampled && !uniform {
                r.computed - r.start
            } else {
                0int
            })) % 0x1_0000_0000_0000_0000 == 0
            &&& (t.fill_cycles - c.fill_cycles - (if sampled && r.computed != 0 {
                r.filled - r.computed
            } else {
                0int
            })) % 0x1_0000_0000_0000_0000 == 0
        }),
{
    reveal(chunk_timed);
}

/// The clock is read for a sampled chunk only: at its start; after it was computed
/// and at its end, unless the start gave 0; and once it was combined, unless one
/// of the two before gave 0. A reading that was not taken is 0.
pub proof fn law_clock_is_read_for_sampled_chunks<K>(
    clock: K,
    c: RowSplitCounts,
    r: Readings,
) where K: Fn() -> u64
    requires
        chunk_clocked(clock, c, r),
    ensures
        ({
            let due = c.timing && c.sample_counter == 0;
            &&& if due {
                clock.ensures((), r.start)
            } else {
                r.start == 0
            }
            &&& if r.start != 0 {
                clock.ensures((), r.computed) && clock.ensures((), r.done)
            } else {
                r.computed == 0 && r.done == 0
            }
            &&& if r.computed != 0 {
                clock.ensures((), r.filled)
            } else {
                r.filled == 0
            }
        }),
{
}

/// Reads the clock where it is asked for.
pub(crate) fn read_clock<K>(clock: &K, asked: bool) -> (now: u64) where K: Fn() -> u64
    requires
        asked ==> clock.requires(()),
    ensures
        reading(*clock, asked, now),
{
    if asked {
        clock()
    } else {
        0
    }
}

} // verus!
