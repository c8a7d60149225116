//! Replays scripted operations in a random interleaving of the scripts, so that a
//! caller can check that every interleaving reaches the same set.

use vstd::prelude::*;

use crate::clock;
use crate::crdt::{Crdt, Message};
use crate::gset::GrowSet;

verus! {

/// What one step of a random replay did.
#[derive(Debug)]
pub enum Step {
    /// The next line of a script added this element to the set.
    Applied(i32),
    /// The next line of a script asked for the store to restart.
    Restart,
    /// The next line of a script was not a message.
    Skipped,
    /// The next line of a script was a read, which a replay does not perform.
    Unsupported,
    /// A script had no lines left and was set aside.
    Exhausted,
    /// The next line of a script adds an element, but the replica's own counter is
    /// at its largest value and cannot record it; nothing was changed.
    CounterFull,
    /// Every script is done.
    Finished,
}

/// What a replay does with one line of a script.
pub open spec fn outcome_of(line: Option<Message<i32>>) -> Step {
    match line {
        None => Step::Skipped,
        Some(Message::Add(x)) => Step::Applied(x),
        Some(Message::Restart) => Step::Restart,
        Some(_) => Step::Unsupported,
    }
}

/// How a replay treats a line: a line that is not a message is the only one
/// passed over; an addition is applied, of exactly its element; a restart is a
/// restart; and a read, of one element or of all, is refused as unsupported.
pub proof fn law_line_outcomes(line: Option<Message<i32>>)
    ensures
        outcome_of(line) is Skipped <==> line is None,
        forall|x: i32| outcome_of(line) == Step::Applied(x) <==> line == Some(Message::Add(x)),
        outcome_of(line) is Restart <==> line == Some(Message::<i32>::Restart),
        line matches Some(Message::Get(_)) ==> outcome_of(line) is Unsupported,
        line == Some(Message::<i32>::GetAll) ==> outcome_of(line) is Unsupported,
        !(outcome_of(line) is Exhausted || outcome_of(line) is Finished || outcome_of(
            line,
        ) is CounterFull),
{
}

/// The elements added by the lines of the scripts before the given positions.
pub open spec fn consumed_adds(
    input: Seq<Vec<Option<Message<i32>>>>,
    positions: Seq<usize>,
) -> Set<i32> {
    Set::new(
        |x: i32|
            exists|s: int, k: int|
                0 <= s < input.len() && 0 <= k < positions[s] && #[trigger] input[s]@[k] == Some(
                    Message::Add(x),
                ),
    )
}

/// Every element that some line of some script adds.
pub open spec fn all_adds(input: Seq<Vec<Option<Message<i32>>>>) -> Set<i32> {
    Set::new(
        |x: i32|
            exists|s: int, k: int|
                0 <= s < input.len() && 0 <= k < input[s]@.len() && #[trigger] input[s]@[k]
                    == Some(Message::Add(x)),
    )
}

/// The lines of the first `n` scripts that lie at or after the given positions.
pub open spec fn pending(input: Seq<Vec<Option<Message<i32>>>>, positions: Seq<usize>, n: int) -> int
    decreases n,
{
    if n <= 0 {
        0
    } else {
        pending(input, positions, n - 1) + (input[n - 1]@.len() - positions[n - 1])
    }
}

/// Advancing one script by one line adds what that line adds, and leaves one line
/// fewer pending.
pub proof fn lemma_advance(input: Seq<Vec<Option<Message<i32>>>>, positions: Seq<usize>, s: int)
    requires
        positions.len() == input.len(),
        0 <= s < input.len(),
        positions[s] < input[s]@.len(),
        positions[s] < usize::MAX,
    ensures
        ({
            let after = positions.update(s, (positions[s] + 1) as usize);
            &&& consumed_adds(input, after) == (match input[s]@[positions[s] as int] {
                Some(Message::Add(x)) => consumed_adds(input, positions).insert(x),
                _ => consumed_adds(input, positions),
            })
            &&& pending(input, after, input.len() as int) == pending(
                input,
                positions,
                input.len() as int,
            ) - 1
        }),
{
    let after = positions.update(s, (positions[s] + 1) as usize);
    let line = input[s]@[positions[s] as int];
    let expected = match line {
        Some(Message::Add(x)) => consumed_adds(input, positions).insert(x),
        _ => consumed_adds(input, positions),
    };
    assert forall|x: i32| #[trigger] consumed_adds(input, after).contains(x) <==> expected.contains(
        x,
    ) by {
        if consumed_adds(input, after).contains(x) {
            let (t, k) = choose|t: int, k: int|
                0 <= t < input.len() && 0 <= k < after[t] && #[trigger] input[t]@[k] == Some(
                    Message::Add(x),
                );
            if t == s && k == positions[s] {
            } else {
                assert(consumed_adds(input, positions).contains(x));
            }
        }
        if consumed_adds(input, positions).contains(x) {
            let (t, k) = choose|t: int, k: int|
                0 <= t < input.len() && 0 <= k < positions[t] && #[trigger] input[t]@[k] == Some(
                    Message::Add(x),
                );
            assert(0 <= k < after[t]);
        }
        if line == Some(Message::Add(x)) {
            assert(input[s]@[positions[s] as int] == Some(Message::Add(x)));
            assert(0 <= positions[s] < after[s]);
        }
    }
    assert(consumed_adds(input, after) =~= expected);
    lemma_pending_update(input, positions, s, input.len() as int);
}

proof fn lemma_pending_update(
    input: Seq<Vec<Option<Message<i32>>>>,
    positions: Seq<usize>,
    s: int,
    n: int,
)
    requires
        positions.len() == input.len(),
        0 <= s < input.len(),
        n <= input.len(),
        positions[s] < input[s]@.len(),
        positions[s] < usize::MAX,
    ensures
        pending(input, positions.update(s, (positions[s] + 1) as usize), n) == pending(
            input,
            positions,
            n,
        ) - (if s < n {
            1int
        } else {
            0int
        }),
    decreases n,
{
    if n > 0 {
        lemma_pending_update(input, positions, s, n - 1);
    }
}

/// Once every script is done, the lines before the positions are all the lines.
pub proof fn lemma_complete(input: Seq<Vec<Option<Message<i32>>>>, positions: Seq<usize>)
    requires
        positions.len() == input.len(),
        forall|s: int| 0 <= s < input.len() ==> positions[s] == input[s]@.len(),
    ensures
        consumed_adds(input, positions) == all_adds(input),
{
    assert(consumed_adds(input, positions) =~= all_adds(input));
}

/// No line of the scripts is a read.
pub open spec fn no_reads(input: Seq<Vec<Option<Message<i32>>>>) -> bool {
    forall|s: int, k: int|
        0 <= s < input.len() && 0 <= k < input[s]@.len() ==> !(outcome_of(
            #[trigger] input[s]@[k],
        ) is Unsupported)
}

/// The number of lines of all the scripts.
pub open spec fn total_lines(input: Seq<Vec<Option<Message<i32>>>>) -> int {
    pending(input, Seq::new(input.len(), |i: int| 0usize), input.len() as int)
}

/// Lines still pending are never fewer than none.
pub proof fn lemma_pending_nonnegative(
    input: Seq<Vec<Option<Message<i32>>>>,
    positions: Seq<usize>,
    n: int,
)
    requires
        positions.len() == input.len(),
        n <= input.len(),
        forall|s: int| 0 <= s < input.len() ==> positions[s] <= input[s]@.len(),
    ensures
        pending(input, positions, n) >= 0,
    decreases n,
{
    if n > 0 {
        lemma_pending_nonnegative(input, positions, n - 1);
    }
}

/// Any two replays that ran every script to its end applied the same elements,
/// whatever interleaving the random draws chose.
pub proof fn law_complete_replays_agree(
    input: Seq<Vec<Option<Message<i32>>>>,
    positions1: Seq<usize>,
    positions2: Seq<usize>,
)
    requires
        positions1.len() == input.len(),
        positions2.len() == input.len(),
        forall|s: int| 0 <= s < input.len() ==> positions1[s] == input[s]@.len(),
        forall|s: int| 0 <= s < input.len() ==> positions2[s] == input[s]@.len(),
    ensures
        consumed_adds(input, positions1) == consumed_adds(input, positions2),
{
    lemma_complete(input, positions1);
    lemma_complete(input, positions2);
}

/// A random `usize` from `rand::random::<usize>()`, the thread-local generator.
/// Nothing is claimed of the value: any `usize` may come back, and two calls may
/// return different values. The call panics where the operating system's random
/// source fails when the generator is seeded or reseeded; no input causes that.
#[verifier::external_body]
fn random_index() -> usize {
    rand::random::<usize>()
}

/// Scripted input: for each node, the lines of its script, each read as a message
/// where it is one.
pub struct Tester {
    nodes: Vec<String>,
    input: Vec<Vec<Option<Message<i32>>>>,
}

impl Tester {
    /// The scripts.
    pub closed spec fn scripts(&self) -> Seq<Vec<Option<Message<i32>>>> {
        self.input@
    }

    /// The names of the nodes, one per script.
    pub closed spec fn node_names(&self) -> Seq<String> {
        self.nodes@
    }

    /// A tester over the given nodes and their scripts.
    pub fn from_scripts(nodes: Vec<String>, input: Vec<Vec<Option<Message<i32>>>>) -> (r: Self)
        ensures
            r.scripts() == input@,
            r.node_names() == nodes@,
    {
        Tester { nodes, input }
    }

    /// The names of the nodes.
    pub fn nodes(&self) -> (r: &Vec<String>)
        ensures
            r@ == self.node_names(),
    {
        &self.nodes
    }

    /// How many scripts there are.
    pub fn script_count(&self) -> (r: usize)
        ensures
            r == self.scripts().len(),
    {
        self.input.len()
    }

    /// Replays the scripts in a random interleaving against an empty replica named 0
    /// kept in memory, so that a restart finds the replica as it left it, until
    /// every script is done; the replica ends with exactly the elements the
    /// scripts add, whatever interleaving the draws chose.
    pub fn replay_random(&self) -> (r: GrowSet<i32>)
        requires
            self.scripts().len() > 0,
            no_reads(self.scripts()),
            total_lines(self.scripts()) < u64::MAX,
        ensures
            r@ == all_adds(self.scripts()),
            r.replica() == 0,
    {
        let mut run = self.start_random();
        let mut gset: GrowSet<i32> = GrowSet::new(0);
        let ghost input = self.scripts();
        let ghost len = input.len() as int;
        proof {
            assert(clock::first_index(gset.clock_entries(), 0) == Some(0int));
            assert(run.positions() =~= Seq::new(input.len(), |i: int| 0usize));
        }
        loop
            invariant
                run.wf(),
                run.streams().len() > 0,
                run.scripts() == input,
                input == self.scripts(),
                len == input.len(),
                no_reads(input),
                total_lines(input) < u64::MAX,
                gset@ == run.consumed(),
                gset.replica() == 0,
                clock::count(gset.clock_entries(), 0) + pending(input, run.positions(), len)
                    <= total_lines(input),
            decreases run.remaining(),
        {
            proof {
                lemma_pending_nonnegative(input, run.positions(), len);
            }
            let ghost before = gset.clock_entries();
            let step = run.step(&mut gset);
            proof {
                lemma_pending_nonnegative(input, run.positions(), len);
            }
            match step {
                Step::Finished => {
                    return gset;
                },
                Step::Unsupported => {
                    assert(false);
                },
                Step::Applied(_) => {
                    proof {
                        clock::lemma_tick(before, 0);
                        let t = clock::tick(before, 0);
                        assert(gset.clock_entries() == t);
                        assert(clock::clock_map(t)[0] == (clock::count(before, 0) + 1) as u64);
                        assert(clock::clock_map(t).contains_key(0));
                        assert(clock::clock_map(t)[0] == clock::count(t, 0));
                        assert(clock::count(gset.clock_entries(), 0) == clock::count(before, 0) + 1);
                    }
                },
                Step::CounterFull => {
                    assert(false);
                },
                _ => {},
            }
        }
    }

    /// A replay that has run no line yet, with every script in play. There must be
    /// a script: a draw among none cannot be made.
    pub fn start_random<'a>(&'a self) -> (r: RandomRun<'a>)
        requires
            self.scripts().len() > 0,
        ensures
            r.wf(),
            r.scripts() == self.scripts(),
            r.streams() == Seq::new(self.scripts().len(), |i: int| i as usize),
            r.positions() == Seq::new(self.scripts().len(), |i: int| 0usize),
            r.consumed() == Set::<i32>::empty(),
    {
        let mut streams: Vec<usize> = Vec::new();
        let mut positions: Vec<usize> = Vec::new();
        let mut i: usize = 0;
        while i < self.input.len()
            invariant
                0 <= i <= self.input@.len(),
                streams@ == Seq::new(i as nat, |j: int| j as usize),
                positions@ == Seq::new(i as nat, |j: int| 0usize),
            decreases self.input@.len() - i,
        {
            streams.push(i);
            positions.push(0);
            i = i + 1;
        }
        let r = RandomRun { input: &self.input, streams, positions };
        assert(r.streams().no_duplicates());
        assert forall|s: int| 0 <= s < r.scripts().len() implies #[trigger] r.streams().contains(s as usize) by {
            assert(r.streams()[s] == s as usize);
        }
        assert(r.consumed() =~= Set::<i32>::empty());
        r
    }
}

/// A replay in progress: the scripts still in play, in the order in which a draw
/// picks among them, and how far each script has been read.
pub struct RandomRun<'a> {
    input: &'a Vec<Vec<Option<Message<i32>>>>,
    streams: Vec<usize>,
    positions: Vec<usize>,
}

impl<'a> RandomRun<'a> {
    /// The scripts being replayed.
    pub closed spec fn scripts(&self) -> Seq<Vec<Option<Message<i32>>>> {
        self.input@
    }

    /// The scripts still in play.
    pub closed spec fn streams(&self) -> Seq<usize> {
        self.streams@
    }

    /// For each script, how many of its lines have been read.
    pub closed spec fn positions(&self) -> Seq<usize> {
        self.positions@
    }

    /// Every script has a position within it; the scripts in play are distinct; a
    /// script out of play has been read to its end.
    pub open spec fn wf(&self) -> bool {
        &&& self.positions().len() == self.scripts().len()
        &&& forall|s: int|
            0 <= s < self.scripts().len() ==> self.positions()[s] <= self.scripts()[s]@.len()
        &&& forall|i: int|
            0 <= i < self.streams().len() ==> self.streams()[i] < self.scripts().len()
        &&& self.streams().no_duplicates()
        &&& forall|s: int|
            0 <= s < self.scripts().len() && !self.streams().contains(s as usize)
                ==> self.positions()[s] == self.scripts()[s]@.len()
    }

    /// The elements added by the lines read so far.
    pub open spec fn consumed(&self) -> Set<i32> {
        consumed_adds(self.scripts(), self.positions())
    }

    /// How many steps at most are left: scripts in play and lines unread.
    pub open spec fn remaining(&self) -> int {
        self.streams().len() + pending(self.scripts(), self.positions(), self.scripts().len() as int)
    }

    /// What a step did that drew the script in play at index `i`: where that script
    /// has a line left, the line is read (an addition is applied to the replica, or
    /// refused untouched when the replica's counter is full); where it has none, the
    /// script is set aside, and the replay is finished once no script is left.
    pub open spec fn drawn_step(
        self,
        next: Self,
        i: int,
        g: GrowSet<i32>,
        next_g: GrowSet<i32>,
        r: Step,
    ) -> bool {
        let s = self.streams()[i] as int;
        let p = self.positions()[s];
        let line = self.scripts()[s]@[p as int];
        &&& next.wf()
        &&& next.scripts() == self.scripts()
        &&& if p < self.scripts()[s]@.len() {
            if line matches Some(Message::Add(_)) && !g.local_op_allowed() {
                &&& r == Step::CounterFull
                &&& next.streams() == self.streams()
                &&& next.positions() == self.positions()
                &&& next_g == g
            } else {
                &&& r == outcome_of(line)
                &&& next.streams() == self.streams()
                &&& next.positions() == self.positions().update(s, (p + 1) as usize)
                &&& match r {
                    Step::Applied(x) => {
                        &&& next_g@ == g@.insert(x)
                        &&& next_g.clock_entries() == clock::tick(g.clock_entries(), g.replica())
                        &&& next_g.replica() == g.replica()
                    },
                    _ => next_g == g,
                }
            }
        } else {
            &&& next.streams() == self.streams().remove(i)
            &&& next.positions() == self.positions()
            &&& next_g == g
            &&& r == (if next.streams().len() == 0 {
                Step::Finished
            } else {
                Step::Exhausted
            })
        }
    }

    /// What follows of any step: the elements read so far grow by exactly what the
    /// step applied; once the replay is finished they are all the scripts add; and
    /// every step but a refused one leaves fewer steps to go.
    pub open spec fn step_progress(self, next: Self, g: GrowSet<i32>, next_g: GrowSet<i32>, r: Step) -> bool {
        &&& match r {
            Step::Applied(x) => {
                &&& next.consumed() == self.consumed().insert(x)
                &&& pending(next.scripts(), next.positions(), next.scripts().len() as int)
                    == pending(self.scripts(), self.positions(), self.scripts().len() as int) - 1
            },
            _ => {
                &&& next.consumed() == self.consumed()
                &&& next_g == g
                &&& pending(next.scripts(), next.positions(), next.scripts().len() as int)
                    <= pending(self.scripts(), self.positions(), self.scripts().len() as int)
            },
        }
        &&& r is Finished ==> next.consumed() == all_adds(next.scripts())
        &&& !(r is Finished) ==> next.streams().len() > 0
        &&& !(r is Finished || r is CounterFull) ==> next.remaining() < self.remaining()
    }

    /// One step of the replay for the draw `draw`: the script in play at index
    /// `draw % n`, where `n` scripts are in play, is the one that is read or set
    /// aside.
    pub fn step_with(&mut self, gset: &mut GrowSet<i32>, draw: usize) -> (r: Step)
        requires
            old(self).wf(),
            old(self).streams().len() > 0,
        ensures
            old(self).drawn_step(
                *final(self),
                draw as int % old(self).streams().len() as int,
                *old(gset),
                *final(gset),
                r,
            ),
            old(self).step_progress(*final(self), *old(gset), *final(gset), r),
    {
        let ghost old_streams = self.streams@;
        let ghost old_positions = self.positions@;
        let ghost input = self.input@;
        let r = draw % self.streams.len();
        let s = self.streams[r];
        let pos = self.positions[s];
        if pos < self.input[s].len() {
            if let Some(Message::Add(_)) = &self.input[s][pos] {
                if !gset.can_local_op() {
                    return Step::CounterFull;
                }
            }
            proof {
                lemma_advance(input, old_positions, s as int);
            }
            self.positions.set(s, pos + 1);
            proof {
                assert forall|t: int|
                    0 <= t < input.len() && !self.streams@.contains(t as usize) implies self.positions@[t]
                    == input[t]@.len() by {
                    if t == s as int {
                        assert(self.streams@[r as int] == s);
                    }
                }
            }
            match &self.input[s][pos] {
                Some(Message::Add(n)) => {
                    proof {
                        crate::gset::lemma_i32_atoms();
                    }
                    gset.local_op(n);
                    Step::Applied(*n)
                },
                Some(Message::Restart) => Step::Restart,
                Some(_) => Step::Unsupported,
                None => Step::Skipped,
            }
        } else {
            let ghost removed = old_streams.remove(r as int);
            self.streams.remove(r);
            proof {
                assert forall|a: int, b: int|
                    0 <= a < removed.len() && 0 <= b < removed.len() && a != b implies removed[a]
                    != removed[b] by {
                    let a0 = if a < r { a } else { a + 1 };
                    let b0 = if b < r { b } else { b + 1 };
                    assert(removed[a] == old_streams[a0]);
                    assert(removed[b] == old_streams[b0]);
                }
                assert forall|t: int|
                    0 <= t < input.len() && !removed.contains(t as usize) implies old_positions[t]
                    == input[t]@.len() by {
                    if t == s as int {
                        assert(pos == old_positions[t]);
                        assert(self.input@[t]@.len() == input[t]@.len());
                    } else if old_streams.contains(t as usize) {
                        let j = choose|j: int| 0 <= j < old_streams.len() && old_streams[j] == t as usize;
                        if j < r {
                            assert(removed[j] == t as usize);
                        } else {
                            assert(old_streams[r as int] == s);
                            assert(input.len() == self.input.len());
                            assert(t as usize != s);
                            assert(j > r);
                            assert(removed[j - 1] == old_streams.remove(r as int)[j - 1]);
                            assert(removed[j - 1] == t as usize);
                        }
                    }
                }
                assert forall|i: int| 0 <= i < removed.len() implies removed[i] < input.len() by {
                    if i < r {
                        assert(removed[i] == old_streams[i]);
                    } else {
                        assert(removed[i] == old_streams[i + 1]);
                    }
                }
            }
            if self.streams.len() == 0 {
                proof {
                    lemma_complete(input, old_positions);
                }
                Step::Finished
            } else {
                Step::Exhausted
            }
        }
    }

    /// One step of the replay: draws a script in play at random and reads its next
    /// line, or sets it aside where it has none.
    pub fn step(&mut self, gset: &mut GrowSet<i32>) -> (r: Step)
        requires
            old(self).wf(),
            old(self).streams().len() > 0,
        ensures
            exists|i: int|
                0 <= i < old(self).streams().len() && #[trigger] old(self).drawn_step(
                    *final(self),
                    i,
                    *old(gset),
                    *final(gset),
                    r,
                ),
            old(self).step_progress(*final(self), *old(gset), *final(gset), r),
    {
        let draw = random_index();
        self.step_with(gset, draw)
    }
}

} // verus!
