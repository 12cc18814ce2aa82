//! Protection against replayed packets.
use vstd::prelude::*;

verus! {

/// How many sequence numbers back, counted from the highest, can still be accepted.
pub const REPLAY_WINDOW_BITS: u64 = 64;

/// Which of the last sequence numbers of a session have been seen. Bit `i` of `seen` stands
/// for the number `i` below the highest.
#[derive(Debug, Clone, Copy, PartialEq, Eq, Structural)]
pub struct ReplayWindow {
    pub initialized: bool,
    pub highest: u64,
    pub seen: u64,
}

/// Whether bit `i` of `word` is set.
pub open spec fn has_bit(word: u64, i: u64) -> bool {
    word & (1u64 << i) != 0
}

impl ReplayWindow {
    /// Whether the window refuses a sequence number: it lies behind the window, or it has
    /// been seen.
    pub open spec fn refuses(self, seq: u64) -> bool {
        &&& self.initialized
        &&& seq <= self.highest
        &&& self.highest - seq >= REPLAY_WINDOW_BITS || has_bit(self.seen, (self.highest - seq) as u64)
    }

    /// The window after a sequence number.
    pub open spec fn after(self, seq: u64) -> ReplayWindow {
        if !self.initialized {
            ReplayWindow { initialized: true, highest: seq, seen: 1 }
        } else if seq > self.highest {
            let shift = (seq - self.highest) as u64;
            ReplayWindow {
                initialized: true,
                highest: seq,
                seen: if shift >= REPLAY_WINDOW_BITS {
                    1
                } else {
                    (self.seen << shift) | 1
                },
            }
        } else if self.refuses(seq) {
            self
        } else {
            ReplayWindow { seen: self.seen | (1u64 << ((self.highest - seq) as u64)), ..self }
        }
    }

    /// The window after the first `n` of a run of sequence numbers.
    pub open spec fn after_all(self, seqs: Seq<u64>, n: nat) -> ReplayWindow
        decreases n,
    {
        if n == 0 {
            self
        } else {
            self.after_all(seqs, (n - 1) as nat).after(seqs[n - 1])
        }
    }

    /// A window that has seen nothing.
    pub fn new() -> (r: ReplayWindow)
        ensures
            !r.initialized,
            forall|seq: u64| !r.refuses(seq),
    {
        ReplayWindow { initialized: false, highest: 0, seen: 0 }
    }

    /// Takes in a sequence number, and says whether it is accepted.
    pub fn accept(&mut self, seq: u64) -> (r: bool)
        ensures
            r == !old(self).refuses(seq),
            *final(self) == old(self).after(seq),
            final(self).refuses(seq),
            forall|s: u64| old(self).refuses(s) ==> final(self).refuses(s),
    {
        proof {
            law_seen_is_refused(*self, seq);
        }
        if !self.initialized {
            self.initialized = true;
            self.highest = seq;
            self.seen = 1;
            return true;
        }
        if seq > self.highest {
            let shift: u64 = seq - self.highest;
            self.seen = if shift >= REPLAY_WINDOW_BITS { 1 } else { (self.seen << shift) | 1 };
            self.highest = seq;
            return true;
        }
        let behind: u64 = self.highest - seq;
        if behind >= REPLAY_WINDOW_BITS {
            return false;
        }
        let bit: u64 = 1u64 << behind;
        if self.seen & bit != 0 {
            return false;
        }
        self.seen = self.seen | bit;
        true
    }
}

/// A sequence number that came in is refused from then on, and what was refused stays
/// refused.
pub proof fn law_seen_is_refused(w: ReplayWindow, seq: u64)
    ensures
        w.after(seq).refuses(seq),
        forall|s: u64| w.refuses(s) ==> w.after(seq).refuses(s),
{
    assert(has_bit(1, 0)) by (bit_vector);
    let next = w.after(seq);
    if w.initialized && seq > w.highest {
        let shift = (seq - w.highest) as u64;
        let seen = w.seen;
        if shift < REPLAY_WINDOW_BITS {
            assert(has_bit((seen << shift) | 1, 0)) by (bit_vector);
        }
        assert forall|s: u64| w.refuses(s) implies next.refuses(s) by {
            let behind = (w.highest - s) as u64;
            if next.highest - s < REPLAY_WINDOW_BITS {
                let further = (next.highest - s) as u64;
                assert(has_bit((seen << shift) | 1, further)) by (bit_vector)
                    requires
                        has_bit(seen, behind),
                        further == behind + shift,
                        further < 64,
                ;
            }
        }
    } else if w.initialized && !w.refuses(seq) {
        let behind = (w.highest - seq) as u64;
        let seen = w.seen;
        assert(has_bit(seen | (1u64 << behind), behind)) by (bit_vector)
            requires
                behind < 64,
        ;
        assert forall|s: u64| w.refuses(s) implies next.refuses(s) by {
            let other = (w.highest - s) as u64;
            if w.highest - s < REPLAY_WINDOW_BITS {
                assert(has_bit(seen | (1u64 << behind), other)) by (bit_vector)
                    requires
                        has_bit(seen, other),
                ;
            }
        }
    }
}

/// In any run of sequence numbers, whatever came before, none is accepted twice.
pub proof fn law_no_number_is_accepted_twice(w: ReplayWindow, seqs: Seq<u64>, i: nat, j: nat)
    requires
        i < j < seqs.len(),
        seqs[i as int] == seqs[j as int],
    ensures
        w.after_all(seqs, j).refuses(seqs[j as int]),
    decreases j,
{
    let before = w.after_all(seqs, (j - 1) as nat);
    law_seen_is_refused(before, seqs[j - 1]);
    if i < j - 1 {
        lemma_stays_refused(w, seqs, i, (j - 1) as nat);
    }
}

proof fn lemma_stays_refused(w: ReplayWindow, seqs: Seq<u64>, i: nat, n: nat)
    requires
        i < n <= seqs.len(),
    ensures
        w.after_all(seqs, n).refuses(seqs[i as int]),
    decreases n,
{
    law_seen_is_refused(w.after_all(seqs, (n - 1) as nat), seqs[n - 1]);
    if i < n - 1 {
        lemma_stays_refused(w, seqs, i, (n - 1) as nat);
    }
}

/// Numbers above the highest are accepted, in whatever steps they rise.
pub proof fn law_rising_numbers_are_accepted(w: ReplayWindow, seq: u64)
    requires
        w.initialized ==> seq > w.highest,
    ensures
        !w.refuses(seq),
        w.after(seq).highest == seq,
{
}

/// Whether a number is among the first `n` of a run.
pub open spec fn came(seqs: Seq<u64>, n: nat, seq: u64) -> bool {
    exists|i: int| 0 <= i < n && #[trigger] seqs[i] == seq
}

/// What a window that was new at the start of a run knows of it: the highest number, and of
/// those close below it the ones that came.
spec fn knows(w: ReplayWindow, seqs: Seq<u64>, n: nat) -> bool {
    &&& w.initialized == (n > 0)
    &&& n > 0 ==> {
        &&& came(seqs, n, w.highest)
        &&& forall|i: int| 0 <= i < n ==> #[trigger] seqs[i] <= w.highest
        &&& forall|s: u64|
            s <= w.highest && w.highest - s < 64 ==> has_bit(w.seen, (w.highest - s) as u64) == #[trigger] came(
                seqs,
                n,
                s,
            )
    }
}

/// A bit of a word that is moved up by `shift` places and gets a one at its end.
proof fn lemma_moved_bit(seen: u64, shift: u64, j: u64)
    requires
        0 < shift < 64,
        j < 64,
    ensures
        has_bit((seen << shift) | 1, j) == (j == 0 || shift <= j && has_bit(seen, (j - shift) as u64)),
{
    if shift <= j {
        let k = (j - shift) as u64;
        assert(((seen << shift) | 1) & (1u64 << j) != 0 <==> j == 0 || seen & (1u64 << k) != 0) by (bit_vector)
            requires
                0 < shift < 64,
                j < 64,
                shift <= j,
                k == j - shift,
        ;
    } else {
        assert(((seen << shift) | 1) & (1u64 << j) != 0 <==> j == 0) by (bit_vector)
            requires
                0 < shift < 64,
                j < shift,
        ;
    }
}

/// A bit of a word in which one bit was set.
proof fn lemma_added_bit(seen: u64, bit: u64, j: u64)
    requires
        bit < 64,
        j < 64,
    ensures
        has_bit(seen | (1u64 << bit), j) == (j == bit || has_bit(seen, j)),
{
    assert((seen | (1u64 << bit)) & (1u64 << j) != 0 <==> j == bit || seen & (1u64 << j) != 0) by (bit_vector)
        requires
            bit < 64,
            j < 64,
    ;
}

/// A bit of the word that stands for one number.
proof fn lemma_single_bit(j: u64)
    requires
        j < 64,
    ensures
        has_bit(1, j) == (j == 0),
{
    assert(1u64 & (1u64 << j) != 0 <==> j == 0) by (bit_vector)
        requires
            j < 64,
    ;
}

proof fn lemma_came_step(seqs: Seq<u64>, n: nat, seq: u64)
    requires
        n < seqs.len(),
    ensures
        came(seqs, n + 1, seq) == (came(seqs, n, seq) || seqs[n as int] == seq),
{
    if came(seqs, n, seq) {
        let i = choose|i: int| 0 <= i < n && #[trigger] seqs[i] == seq;
        assert(seqs[i] == seq);
    }
    if seqs[n as int] == seq {
        assert(came(seqs, n + 1, seq));
    }
}

proof fn lemma_window_knows_the_run(w: ReplayWindow, seqs: Seq<u64>, n: nat)
    requires
        !w.initialized,
        n <= seqs.len(),
    ensures
        knows(w.after_all(seqs, n), seqs, n),
    decreases n,
{
    if n > 0 {
        let m = (n - 1) as nat;
        let before = w.after_all(seqs, m);
        let seq = seqs[n - 1];
        let next = before.after(seq);
        lemma_window_knows_the_run(w, seqs, m);
        lemma_came_step(seqs, m, next.highest);
        assert(came(seqs, n, next.highest));
        assert forall|s: u64| s <= next.highest && next.highest - s < 64 implies has_bit(
            next.seen,
            (next.highest - s) as u64,
        ) == #[trigger] came(seqs, n, s) by {
            let j = (next.highest - s) as u64;
            lemma_came_step(seqs, m, s);
            lemma_single_bit(j);
            if m > 0 {
                assert(came(seqs, m, s) ==> s <= before.highest);
                if seq > before.highest {
                    let shift = (seq - before.highest) as u64;
                    if shift < 64 {
                        lemma_moved_bit(before.seen, shift, j);
                    }
                } else if before.highest - seq < 64 {
                    lemma_added_bit(before.seen, (before.highest - seq) as u64, j);
                    lemma_came_step(seqs, m, seq);
                }
            }
        }
    }
}

/// A session takes each number once, in whatever order the numbers come. After any run of
/// numbers, from the start of a session on, a number is refused if and only if it came
/// before, or lies 64 or more below one that did.
pub proof fn law_only_seen_and_old_numbers_are_refused(w: ReplayWindow, seqs: Seq<u64>, n: nat, seq: u64)
    requires
        !w.initialized,
        n <= seqs.len(),
    ensures
        w.after_all(seqs, n).refuses(seq) <==> exists|i: int|
            0 <= i < n && (#[trigger] seqs[i] == seq || seqs[i] - seq >= 64),
{
    let after = w.after_all(seqs, n);
    lemma_window_knows_the_run(w, seqs, n);
    if after.refuses(seq) {
        if after.highest - seq >= 64 {
            let i = choose|i: int| 0 <= i < n && #[trigger] seqs[i] == after.highest;
            assert(seqs[i] - seq >= 64);
        } else {
            assert(came(seqs, n, seq));
            let i = choose|i: int| 0 <= i < n && #[trigger] seqs[i] == seq;
            assert(seqs[i] == seq);
        }
    }
    if exists|i: int| 0 <= i < n && (#[trigger] seqs[i] == seq || seqs[i] - seq >= 64) {
        let i = choose|i: int| 0 <= i < n && (#[trigger] seqs[i] == seq || seqs[i] - seq >= 64);
        if seqs[i] == seq {
            assert(came(seqs, n, seq));
        }
    }
}

} // verus!
