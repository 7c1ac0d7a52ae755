//! Restores chunk order: messages from the workers arrive in any order and
//! leave in strictly ascending sequence, with no gaps and no duplicates.
use vstd::prelude::*;

verus! {

/// What a worker made of one chunk, or the end of its work.
#[derive(Debug)]
pub enum Outcome {
    /// The remote workflow finished; its outputs as JSON text.
    Success(String),
    /// The chunk could not be processed; why.
    Failure(String),
    /// The worker has read the end of the input and stops.
    EndOfStream,
}

/// A message from a worker to the sequencer.
#[derive(Debug)]
pub struct PendingMessage {
    /// The chunk's 1-based sequence number; 0 for the end of a worker.
    pub sequence: usize,
    /// The reader's read attempts when the chunk was produced.
    pub read_count: usize,
    pub outcome: Outcome,
}

impl PendingMessage {
    /// The message a worker sends when it stops.
    pub fn end_of_stream() -> (r: Self)
        ensures
            r.sequence == 0,
            r.read_count == 0,
            r.outcome is EndOfStream,
    {
        PendingMessage { sequence: 0, read_count: 0, outcome: Outcome::EndOfStream }
    }
}

/// The sequence numbers of a list of messages.
pub open spec fn seqs_of(h: Seq<PendingMessage>) -> Set<nat> {
    Set::new(|s: nat| exists|i: int| 0 <= i < h.len() && (#[trigger] h[i]).sequence == s)
}

/// The sequence numbers of a list of messages, in order.
pub open spec fn seq_numbers(v: Seq<PendingMessage>) -> Seq<nat> {
    Seq::new(v.len(), |i: int| v[i].sequence as nat)
}

/// The numbers `1..=n` in ascending order.
pub open spec fn first_numbers(n: nat) -> Seq<nat> {
    Seq::new(n, |i: int| (i + 1) as nat)
}

/// Each message after the first of `out` is the one held under its turn.
pub open spec fn released_from(out: Seq<PendingMessage>, held: Map<nat, PendingMessage>, first: nat) -> bool {
    &&& forall|i: int|
        #![trigger out[i]]
        1 <= i < out.len() ==> out[i] == held[(first + i) as nat]
    &&& forall|t: nat| first < t < first + out.len() ==> #[trigger] held.contains_key(t)
}

proof fn lemma_release_step(
    out: Seq<PendingMessage>,
    m: PendingMessage,
    held: Map<nat, PendingMessage>,
    first: nat,
)
    requires
        released_from(out, held, first),
        held.contains_key((first + out.len()) as nat),
        held[(first + out.len()) as nat] == m,
    ensures
        released_from(out.push(m), held, first),
{
    let pushed = out.push(m);
    assert forall|i: int|
        #![trigger pushed[i]]
        1 <= i < pushed.len() implies pushed[i] == held[(first + i) as nat] by {
        if i < out.len() {
            assert(out.push(m)[i] == out[i]);
            assert(out[i] == held[(first + i) as nat]);
        } else {
            assert(i == out.len());
            assert(out.push(m)[i] == m);
            assert((first + i) as nat == (first + out.len()) as nat);
        }
    }
}

/// Hands messages on in ascending sequence order, holding those that arrive
/// before their turn.
pub struct Sequencer {
    pool_size: usize,
    expected: usize,
    end_signals: usize,
    held: Vec<PendingMessage>,
    kept: Ghost<Map<nat, PendingMessage>>,
    arrived: Ghost<Set<nat>>,
}

impl Sequencer {
    /// The next sequence number to hand on.
    pub closed spec fn spec_expected(&self) -> nat {
        self.expected as nat
    }

    pub closed spec fn spec_end_signals(&self) -> nat {
        self.end_signals as nat
    }

    pub closed spec fn spec_pool_size(&self) -> nat {
        self.pool_size as nat
    }

    /// The sequence numbers of all messages handed on so far, in the order
    /// they were handed on.
    pub closed spec fn handed(&self) -> Seq<nat> {
        first_numbers((self.expected - 1) as nat)
    }

    /// All workers have ended and no message waits for its turn.
    pub open spec fn finished(&self) -> bool {
        self.spec_end_signals() == self.spec_pool_size() && self.held_seqs().is_empty()
    }

    /// The messages held until their turn, by sequence number.
    pub closed spec fn held_messages(&self) -> Map<nat, PendingMessage> {
        self.kept@
    }

    /// The sequence numbers of the messages held until their turn.
    pub closed spec fn held_seqs(&self) -> Set<nat> {
        seqs_of(self.held@)
    }

    /// The sequence numbers of all chunk messages received so far.
    pub closed spec fn arrived(&self) -> Set<nat> {
        self.arrived@
    }

    pub closed spec fn wf(&self) -> bool {
        &&& 1 <= self.expected
        &&& forall|i: int|
            0 <= i < self.held@.len() ==> self.expected < (#[trigger] self.held@[i]).sequence
                < usize::MAX
        &&& forall|i: int, j: int|
            0 <= i < j < self.held@.len() ==> (#[trigger] self.held@[i]).sequence != (
            #[trigger] self.held@[j]).sequence
        &&& forall|s: nat|
            #[trigger] self.arrived@.contains(s) <==> (1 <= s < self.expected || seqs_of(
                self.held@,
            ).contains(s))
        &&& forall|s: nat| #[trigger] self.kept@.contains_key(s) <==> seqs_of(self.held@).contains(s)
        &&& forall|i: int|
            0 <= i < self.held@.len() ==> self.kept@[(#[trigger] self.held@[i]).sequence as nat]
                == self.held@[i]
    }

    /// A sequencer for `pool_size` workers, waiting for sequence 1.
    pub fn new(pool_size: usize) -> (r: Self)
        ensures
            r.wf(),
            r.spec_pool_size() == pool_size,
            r.spec_expected() == 1,
            r.spec_end_signals() == 0,
            r.held_seqs() == Set::<nat>::empty(),
            r.held_messages() == Map::<nat, PendingMessage>::empty(),
            r.handed() == Seq::<nat>::empty(),
            r.arrived() == Set::<nat>::empty(),
    {
        let r = Sequencer {
            pool_size,
            expected: 1,
            end_signals: 0,
            held: Vec::new(),
            kept: Ghost(Map::empty()),
            arrived: Ghost(Set::empty()),
        };
        assert(seqs_of(r.held@) =~= Set::<nat>::empty());
        assert(r.arrived@ =~= Set::<nat>::empty());
        assert(r.handed() =~= Seq::<nat>::empty());
        r
    }

    /// All workers have ended and no message waits for its turn.
    pub fn is_finished(&self) -> (r: bool)
        requires
            self.wf(),
        ensures
            r == self.finished(),
    {
        if self.held.len() > 0 {
            assert(self.held_seqs().contains(self.held@[0].sequence as nat));
        } else {
            assert(self.held_seqs() =~= Set::<nat>::empty());
        }
        self.end_signals == self.pool_size && self.held.len() == 0
    }

    pub fn get_expected(&self) -> (r: usize)
        ensures
            r == self.spec_expected(),
    {
        self.expected
    }

    pub fn get_end_signals(&self) -> (r: usize)
        ensures
            r == self.spec_end_signals(),
    {
        self.end_signals
    }

    /// Takes one message. An end of a worker is counted. The message whose turn
    /// it is is handed on at once, followed by the held messages that come
    /// next in sequence. A later message is held until its turn. Each chunk
    /// gets its sequence number once, so a message whose number was already
    /// handed on or is already held can only be a copy: it is dropped, and the
    /// message held first is the one handed on. The result holds the messages
    /// to persist now, in order.
    #[verifier::rlimit(100)]
    pub fn receive(&mut self, msg: PendingMessage) -> (r: Vec<PendingMessage>)
        requires
            old(self).wf(),
            msg.sequence < usize::MAX,
            msg.outcome is EndOfStream ==> old(self).spec_end_signals() < usize::MAX,
        ensures
            final(self).wf(),
            final(self).spec_pool_size() == old(self).spec_pool_size(),
            final(self).spec_end_signals() == old(self).spec_end_signals() + if msg.outcome is EndOfStream {
                1int
            } else {
                0int
            },
            final(self).arrived() == if msg.outcome is EndOfStream || msg.sequence == 0 {
                old(self).arrived()
            } else {
                old(self).arrived().insert(msg.sequence as nat)
            },
            final(self).spec_expected() == old(self).spec_expected() + r@.len(),
            forall|i: int|
                0 <= i < r@.len() ==> (#[trigger] r@[i]).sequence == old(self).spec_expected() + i,
            r@.len() > 0 <==> (!(msg.outcome is EndOfStream) && msg.sequence
                == old(self).spec_expected()),
            r@.len() > 0 ==> r@[0] == msg,
            final(self).handed() == old(self).handed() + seq_numbers(r@),
            r@.len() > 0 ==> !old(self).held_seqs().contains(final(self).spec_expected()),
            r@.len() > 0 ==> forall|t: nat|
                old(self).spec_expected() < t < final(self).spec_expected() ==> #[trigger] old(self).held_seqs().contains(t),
            r@.len() > 0 ==> final(self).held_seqs() == Set::new(
                |t: nat| old(self).held_seqs().contains(t) && t > final(self).spec_expected(),
            ),
            msg.outcome is EndOfStream || msg.sequence < old(self).spec_expected() ==> final(self).held_seqs() == old(self).held_seqs(),
            !(msg.outcome is EndOfStream) && msg.sequence > old(self).spec_expected() ==> final(self).held_seqs() == old(self).held_seqs().insert(msg.sequence as nat),
            forall|i: int|
                1 <= i < r@.len() ==> old(self).held_messages().contains_key(
                    (old(self).spec_expected() + i) as nat,
                ) && (#[trigger] r@[i]) == old(self).held_messages()[(old(self).spec_expected()
                    + i) as nat],
            r@.len() > 0 ==> final(self).held_messages() == old(self).held_messages().remove_keys(
                Set::new(|t: nat| t < final(self).spec_expected()),
            ),
            r@.len() == 0 && (msg.outcome is EndOfStream || msg.sequence < old(self).spec_expected()
                || old(self).held_seqs().contains(msg.sequence as nat)) ==> final(self).held_messages()
                == old(self).held_messages(),
            !(msg.outcome is EndOfStream) && msg.sequence > old(self).spec_expected()
                && !old(self).held_seqs().contains(msg.sequence as nat) ==> final(self).held_messages()
                == old(self).held_messages().insert(msg.sequence as nat, msg),
    {
        if let Outcome::EndOfStream = msg.outcome {
            self.end_signals = self.end_signals + 1;
            assert(self.handed() + seq_numbers(Seq::<PendingMessage>::empty()) =~= self.handed());
            return Vec::new();
        }
        assert(self.handed() + seq_numbers(Seq::<PendingMessage>::empty()) =~= self.handed());
        if msg.sequence == 0 || msg.sequence < self.expected {
            return Vec::new();
        }
        let ghost s = msg.sequence as nat;
        if msg.sequence > self.expected {
            if self.is_held(msg.sequence) {
                assert(self.held_seqs().insert(s) =~= self.held_seqs());
                return Vec::new();
            }
            let ghost old_held = self.held@;
            self.held.push(msg);
            proof {
                assert(self.held@ =~= old_held.push(self.held@.last()));
                assert forall|t: nat| seqs_of(self.held@).contains(t) <==> (seqs_of(old_held).contains(t) || t == s) by {
                    if seqs_of(old_held).contains(t) {
                        let i = choose|i: int| 0 <= i < old_held.len() && (#[trigger] old_held[i]).sequence == t;
                        assert(self.held@[i] == old_held[i]);
                    }
                    if t == s {
                        assert(self.held@[old_held.len() as int].sequence == t);
                    }
                }
                self.arrived@ = self.arrived@.insert(s);
                assert(self.held_seqs() =~= seqs_of(old_held).insert(s));
                self.kept@ = self.kept@.insert(s, self.held@.last());
                assert forall|i: int| 0 <= i < self.held@.len() implies self.kept@[(#[trigger] self.held@[i]).sequence as nat]
                    == self.held@[i] by {
                    if i < old_held.len() {
                        assert(self.held@[i] == old_held[i]);
                        assert(seqs_of(old_held).contains(old_held[i].sequence as nat));
                    }
                }
            }
            return Vec::new();
        }
        let mut out: Vec<PendingMessage> = Vec::new();
        let ghost e0 = self.expected as nat;
        let ghost a0 = self.arrived@;
        let ghost kold = self.kept@;
        out.push(msg);
        self.expected = self.expected + 1;
        proof {
            self.arrived@ = self.arrived@.insert(s);
            assert forall|t: nat| self.kept@.contains_key(t) implies t >= self.expected by {
                let i = choose|i: int| 0 <= i < self.held@.len() && (#[trigger] self.held@[i]).sequence == t;
            }
            assert(self.kept@ =~= kold.remove_keys(Set::new(|t: nat| t < self.expected)));
        }
        loop
            invariant
                1 <= self.expected,
                forall|i: int|
                    0 <= i < self.held@.len() ==> self.expected <= (#[trigger] self.held@[i]).sequence
                        < usize::MAX,
                forall|i: int, j: int|
                    0 <= i < j < self.held@.len() ==> (#[trigger] self.held@[i]).sequence != (
                    #[trigger] self.held@[j]).sequence,
                forall|t: nat|
                    #[trigger] self.arrived@.contains(t) <==> (1 <= t < self.expected || seqs_of(
                        self.held@,
                    ).contains(t)),
                !(msg.outcome is EndOfStream),
                msg.sequence != 0,
                s == msg.sequence,
                e0 == old(self).expected,
                a0 == old(self).arrived@,
                old(self).wf(),
                self.expected == e0 + out@.len(),
                out@.len() >= 1,
                out@[0] == msg,
                forall|i: int| 0 <= i < out@.len() ==> (#[trigger] out@[i]).sequence == e0 + i,
                self.arrived@ == a0.insert(s),
                kold == old(self).kept@,
                self.pool_size == old(self).pool_size,
                self.end_signals == old(self).end_signals,
                forall|t: nat| #[trigger] self.kept@.contains_key(t) <==> seqs_of(self.held@).contains(t),
                forall|i: int|
                    0 <= i < self.held@.len() ==> self.kept@[(#[trigger] self.held@[i]).sequence as nat]
                        == self.held@[i],
                self.kept@ == kold.remove_keys(Set::new(|t: nat| t < self.expected)),
                released_from(out@, kold, e0),
            decreases self.held.len(),
        {
            match self.position_of(self.expected) {
                None => {
                    assert(self.handed() =~= first_numbers((e0 - 1) as nat) + seq_numbers(out@));
                    assert(seqs_of(self.held@) =~= Set::new(
                        |t: nat| seqs_of(old(self).held@).contains(t) && t > self.expected,
                    )) by {
                        assert forall|t: nat| seqs_of(self.held@).contains(t) implies t > self.expected by {
                            let i = choose|i: int|
                                0 <= i < self.held@.len() && (#[trigger] self.held@[i]).sequence == t;
                        }
                        assert forall|t: nat| seqs_of(self.held@).contains(t) <==> (#[trigger] seqs_of(old(self).held@).contains(t) && t > self.expected) by {
                            assert(self.arrived@.contains(t) == (a0.contains(t) || t == s));
                            assert(old(self).arrived@.contains(t) == a0.contains(t));
                        }
                    }
                    assert forall|t: nat| e0 < t < self.expected implies #[trigger] seqs_of(old(self).held@).contains(t) by {
                        assert(self.arrived@.contains(t));
                        assert(old(self).arrived@.contains(t));
                    }
                    assert(!seqs_of(old(self).held@).contains(self.expected as nat)) by {
                        if seqs_of(old(self).held@).contains(self.expected as nat) {
                            assert(old(self).arrived@.contains(self.expected as nat));
                            assert(self.arrived@.contains(self.expected as nat));
                        }
                    }
                    assert forall|i: int| 0 <= i < self.held@.len() implies self.expected
                        < (#[trigger] self.held@[i]).sequence by {
                        assert(seqs_of(self.held@).contains(self.held@[i].sequence as nat));
                    }
                    assert(kold.remove_keys(Set::new(|t: nat| t < self.expected))
                        =~= kold.remove_keys(Set::new(|t: nat| t < e0 + out@.len())));
                    return out;
                },
                Some(idx) => {
                    let ghost old_held = self.held@;
                    let ghost e = self.expected as nat;
                    let ghost k0 = self.kept@;
                    let ghost out0 = out@;
                    let m = self.held.remove(idx);
                    assert(k0[e] == m);
                    out.push(m);
                    self.expected = self.expected + 1;
                    proof {
                        assert(forall|i: int| 1 <= i < out0.len() ==> out@[i] == out0[i]);
                        assert(seqs_of(old_held).contains(e));
                        assert(k0.contains_key(e));
                        assert(kold.contains_key(e) && kold[e] == m);
                        assert(out@[out0.len() as int] == m);
                        assert(e == e0 + out0.len());
                        self.kept@ = k0.remove(e);
                        assert(self.kept@ =~= kold.remove_keys(Set::new(|t: nat| t < self.expected)));
                        assert forall|i: int| 0 <= i < self.held@.len() implies self.kept@[(#[trigger] self.held@[i]).sequence as nat]
                            == self.held@[i] by {
                            let oi = if i < idx { i } else { i + 1 };
                            assert(self.held@[i] == old_held[oi]);
                            assert(old_held[oi].sequence != old_held[idx as int].sequence);
                        }
                        assert forall|t: nat| #[trigger] self.kept@.contains_key(t) <==> seqs_of(self.held@).contains(t) by {
                            if seqs_of(old_held).contains(t) && t != e {
                                let i = choose|i: int|
                                    0 <= i < old_held.len() && (#[trigger] old_held[i]).sequence == t;
                                if i < idx {
                                    assert(self.held@[i] == old_held[i]);
                                } else {
                                    assert(self.held@[i - 1] == old_held[i]);
                                }
                            }
                            if seqs_of(self.held@).contains(t) {
                                let i = choose|i: int|
                                    0 <= i < self.held@.len() && (#[trigger] self.held@[i]).sequence
                                        == t;
                                if i < idx {
                                    assert(self.held@[i] == old_held[i]);
                                } else {
                                    assert(self.held@[i] == old_held[i + 1]);
                                }
                            }
                        }
                        assert forall|t: nat| #[trigger] self.arrived@.contains(t) <==> (1 <= t
                            < self.expected || seqs_of(self.held@).contains(t)) by {
                            if seqs_of(old_held).contains(t) && t != e {
                                let i = choose|i: int|
                                    0 <= i < old_held.len() && (#[trigger] old_held[i]).sequence == t;
                                if i < idx {
                                    assert(self.held@[i] == old_held[i]);
                                } else {
                                    assert(self.held@[i - 1] == old_held[i]);
                                }
                            }
                            if seqs_of(self.held@).contains(t) {
                                let i = choose|i: int|
                                    0 <= i < self.held@.len() && (#[trigger] self.held@[i]).sequence
                                        == t;
                                if i < idx {
                                    assert(self.held@[i] == old_held[i]);
                                } else {
                                    assert(self.held@[i] == old_held[i + 1]);
                                }
                            }
                            if t == e {
                                assert(old_held[idx as int].sequence == t);
                            }
                        }
                        assert forall|i: int, j: int|
                            0 <= i < j < self.held@.len() implies (#[trigger] self.held@[i]).sequence
                                != (#[trigger] self.held@[j]).sequence by {
                            let oi = if i < idx { i } else { i + 1 };
                            let oj = if j < idx { j } else { j + 1 };
                            assert(self.held@[i] == old_held[oi]);
                            assert(self.held@[j] == old_held[oj]);
                        }
                        assert forall|i: int| 0 <= i < self.held@.len() implies self.expected
                            <= (#[trigger] self.held@[i]).sequence < usize::MAX by {
                            let oi = if i < idx { i } else { i + 1 };
                            assert(self.held@[i] == old_held[oi]);
                            assert(old_held[oi].sequence != old_held[idx as int].sequence);
                        }
                        lemma_release_step(out0, m, kold, e0);
                        assert(out@ =~= out0.push(m));
                        assert(released_from(out@, kold, e0));
                    }
                }
            }
        }
    }

    /// The index of the held message with sequence `s`, if one is held.
    fn position_of(&self, s: usize) -> (r: Option<usize>)
        ensures
            match r {
                Some(i) => i < self.held@.len() && self.held@[i as int].sequence == s,
                None => !self.held_seqs().contains(s as nat),
            },
    {
        let mut i: usize = 0;
        while i < self.held.len()
            invariant
                i <= self.held@.len(),
                forall|j: int| 0 <= j < i ==> (#[trigger] self.held@[j]).sequence != s,
            decreases self.held.len() - i,
        {
            if self.held[i].sequence == s {
                return Some(i);
            }
            i = i + 1;
        }
        None
    }

    /// Whether a message with sequence `s` is held.
    fn is_held(&self, s: usize) -> (r: bool)
        requires
            self.wf(),
        ensures
            r == self.held_seqs().contains(s as nat),
    {
        match self.position_of(s) {
            Some(i) => {
                assert(self.held@[i as int].sequence == s);
                true
            },
            None => false,
        }
    }
}

/// Once every chunk message `1..=n` has arrived, in whatever order, the
/// sequencer has handed on exactly `1, 2, ..., n`, in that order, as a single
/// worker processing the chunks in sequence would have, and holds nothing;
/// once all workers have ended as well, it is finished.
pub proof fn lemma_all_arrived_all_delivered(sq: Sequencer, n: nat)
    requires
        sq.wf(),
        sq.arrived() == Set::new(|s: nat| 1 <= s <= n),
    ensures
        sq.spec_expected() == n + 1,
        sq.handed() == first_numbers(n),
        sq.held_seqs().is_empty(),
        sq.spec_end_signals() == sq.spec_pool_size() ==> sq.finished(),
{
    let e = sq.spec_expected();
    if e <= n {
        assert(sq.arrived().contains(e));
        assert(seqs_of(sq.held@).contains(e));
        let i = choose|i: int| 0 <= i < sq.held@.len() && (#[trigger] sq.held@[i]).sequence == e;
        assert(false);
    }
    if e > n + 1 {
        assert(sq.arrived().contains(n + 1));
    }
    assert forall|t: nat| !sq.held_seqs().contains(t) by {
        if sq.held_seqs().contains(t) {
            let i = choose|i: int| 0 <= i < sq.held@.len() && (#[trigger] sq.held@[i]).sequence == t;
            assert(sq.arrived().contains(t));
        }
    }
    assert(sq.held_seqs() =~= Set::<nat>::empty());
}

} // verus!
