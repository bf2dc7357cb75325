//! What threads that share a bin do to its words, access by access.
//!
//! [`push_fixed`](crate::CadAlloc::push_fixed) and
//! [`pop_fixed`](crate::CadAlloc::pop_fixed) load, store and swap words of the bin,
//! and between two accesses keep what they know in locals. Here a machine makes these
//! accesses, for any number of threads and in any order. When nothing comes between
//! the accesses of one operation, they leave the words that its contract states; and
//! whatever comes between, each access is a step of the model of
//! [`interleaving`](crate::interleaving), so that its laws hold of the words.

use crate::classes::oversized;
use crate::config::{lemma_config_logs, valid_config, Config};
use crate::interleaving::{
    address, below, bin_ok, block_address, law_blocks_are_conserved, law_operations_are_atomic,
    law_steps_keep_the_bin, lemma_pop_step, lemma_same_tag, phase_ok, somewhere, takes, timely, Bin,
    Phase, Step,
};
use crate::memory::{front_of, head_at, lemma_retagged_fits, list_start, retagged};
use crate::words::{stack_popped, stack_pushed};
use vstd::arithmetic::div_mod::{lemma_mod_bound, lemma_mod_decreases, lemma_small_mod};
use vstd::prelude::*;

verus! {

// --- the machine ------------------------------------------------------------

/// What a thread knows between two accesses.
pub enum Local {
    /// Nothing: it is between operations.
    Idle,
    /// It pushes `block`, and is about to load the head.
    Push { block: int },
    /// It has loaded `head`, and is about to store the link of `block`.
    PushLoaded { block: int, head: int },
    /// It has stored the link of `block`, and is about to swap the head.
    PushLinked { block: int, head: int },
    /// It pops, and is about to load the head.
    Pop,
    /// It has loaded `head`, and is about to load the link of the block it names.
    PopLoaded { head: int },
    /// It has loaded the link `next`, and is about to swap the head.
    PopRead { head: int, next: int },
}

/// The words that threads share, and what each thread knows.
pub struct Machine {
    /// The words.
    pub words: Map<int, u64>,
    /// What each thread knows.
    pub locals: Map<int, Local>,
}

impl Machine {
    /// The machine with other words, and thread `t` knowing something else.
    pub open spec fn with(self, words: Map<int, u64>, t: int, local: Local) -> Machine {
        Machine { words, locals: self.locals.insert(t, local) }
    }
}

/// A thread that knows `local` takes `step` on bin `k`, with at most one access to the
/// words, and knows `local2` then: it loads the head, stores or loads a link, or swaps
/// the head, which may fail.
pub open spec fn accesses<C: Config>(
    w: Map<int, u64>,
    local: Local,
    w2: Map<int, u64>,
    local2: Local,
    k: int,
    step: Step,
) -> bool {
    let first = w[head_at::<C>(k)] as int;
    match (step, local) {
        (Step::StartPush { block }, Local::Idle) => w2 == w && local2 == (Local::Push { block }),
        (Step::StartPop, Local::Idle) => w2 == w && local2 == Local::Pop,
        (Step::Load, Local::Push { block }) => {
            &&& w2 == w
            &&& local2 == (Local::PushLoaded { block, head: first })
        },
        (Step::Load, Local::Pop) => {
            &&& w2 == w
            &&& local2 == (if front_of::<C>(first) == 0 {
                Local::Idle
            } else {
                Local::PopLoaded { head: first }
            })
        },
        (Step::Link, Local::PushLoaded { block, head }) => {
            &&& w2 == w.insert(block + 8, front_of::<C>(head) as u64)
            &&& local2 == (Local::PushLinked { block, head })
        },
        (Step::Read, Local::PopLoaded { head }) => {
            &&& w2 == w
            &&& local2 == (Local::PopRead { head, next: w[front_of::<C>(head) + 8] as int })
        },
        (Step::Swap, Local::PushLinked { block, head }) => {
            &&& first == head
            &&& w2 == w.insert(head_at::<C>(k), retagged::<C>(head, block) as u64)
            &&& local2 == Local::Idle
        },
        (Step::Swap, Local::PopRead { head, next }) => {
            &&& first == head
            &&& w2 == w.insert(head_at::<C>(k), retagged::<C>(head, next) as u64)
            &&& local2 == Local::Idle
        },
        (Step::Retry, Local::PushLinked { block, head }) => {
            &&& w2 == w
            &&& local2 == (Local::Push { block })
        },
        (Step::Retry, Local::PopRead { head, next }) => w2 == w && local2 == Local::Pop,
        _ => false,
    }
}

/// Thread `t` takes `step` on bin `k`.
pub open spec fn performs<C: Config>(m: Machine, m2: Machine, k: int, t: int, step: Step) -> bool {
    &&& m.locals.contains_key(t)
    &&& m2.locals == m.locals.insert(t, m2.locals[t])
    &&& accesses::<C>(m.words, m.locals[t], m2.words, m2.locals[t], k, step)
}

/// The machines of a run, each made from the one before by a step of some thread.
pub open spec fn is_word_run<C: Config>(
    run: Seq<Machine>,
    k: int,
    threads: Seq<int>,
    steps: Seq<Step>,
) -> bool {
    &&& run.len() == steps.len() + 1
    &&& run.len() == threads.len() + 1
    &&& forall|i: int|
        #![trigger steps[i]]
        0 <= i < steps.len() ==> performs::<C>(run[i], run[i + 1], k, threads[i], steps[i])
}

// --- one operation ----------------------------------------------------------

/// A push that nothing disturbs makes the accesses of
/// [`push_fixed`](crate::CadAlloc::push_fixed), in order, and leaves exactly the words
/// that its contract states.
pub proof fn law_push_fixed_makes_these_accesses<C: Config>(m: Machine, k: int, t: int, block: int)
    -> (run: Seq<Machine>)
    requires
        m.locals.contains_key(t),
        m.locals[t] is Idle,
        block + 8 != head_at::<C>(k),
    ensures
        is_word_run::<C>(
            run,
            k,
            seq![t, t, t, t],
            seq![Step::StartPush { block }, Step::Load, Step::Link, Step::Swap],
        ),
        run[0] == m,
        run.last().words == stack_pushed::<C>(m.words, k, block),
        run.last().locals[t] is Idle,
{
    let steps = seq![Step::StartPush { block }, Step::Load, Step::Link, Step::Swap];
    let w = m.words;
    let head = w[head_at::<C>(k)] as int;
    let w3 = w.insert(block + 8, front_of::<C>(head) as u64);
    let w4 = w3.insert(head_at::<C>(k), retagged::<C>(head, block) as u64);
    let m1 = m.with(w, t, Local::Push { block });
    let m2 = m1.with(w, t, Local::PushLoaded { block, head });
    let m3 = m2.with(w3, t, Local::PushLinked { block, head });
    let m4 = m3.with(w4, t, Local::Idle);
    let run = seq![m, m1, m2, m3, m4];
    assert(performs::<C>(m, m1, k, t, steps[0]));
    assert(performs::<C>(m1, m2, k, t, steps[1]));
    assert(performs::<C>(m2, m3, k, t, steps[2]));
    assert(performs::<C>(m3, m4, k, t, steps[3]));
    run
}

/// A pop that nothing disturbs makes the accesses of
/// [`pop_fixed`](crate::CadAlloc::pop_fixed), in order, and leaves exactly the words
/// that its contract states: it ends at the load of the head of an empty bin, and else
/// swaps out the first block.
pub proof fn law_pop_fixed_makes_these_accesses<C: Config>(m: Machine, k: int, t: int) -> (run: Seq<
    Machine,
>)
    requires
        k < oversized::<C>(),
        m.locals.contains_key(t),
        m.locals[t] is Idle,
    ensures
        run[0] == m,
        run.last().locals[t] is Idle,
        list_start::<C>(m.words, k) == 0 ==> {
            &&& is_word_run::<C>(run, k, seq![t, t], seq![Step::StartPop, Step::Load])
            &&& run.last().words == m.words
        },
        list_start::<C>(m.words, k) != 0 ==> {
            &&& is_word_run::<C>(
                run,
                k,
                seq![t, t, t, t],
                seq![Step::StartPop, Step::Load, Step::Read, Step::Swap],
            )
            &&& front_of::<C>(run[3].locals[t]->PopRead_head) == list_start::<C>(m.words, k)
            &&& run.last().words == stack_popped::<C>(m.words, k)
        },
{
    let w = m.words;
    let head = w[head_at::<C>(k)] as int;
    let m1 = m.with(w, t, Local::Pop);
    if front_of::<C>(head) == 0 {
        let steps = seq![Step::StartPop, Step::Load];
        let m2 = m1.with(w, t, Local::Idle);
        assert(performs::<C>(m, m1, k, t, steps[0]));
        assert(performs::<C>(m1, m2, k, t, steps[1]));
        seq![m, m1, m2]
    } else {
        let steps = seq![Step::StartPop, Step::Load, Step::Read, Step::Swap];
        let next = w[front_of::<C>(head) + 8] as int;
        let w4 = w.insert(head_at::<C>(k), retagged::<C>(head, next) as u64);
        let m2 = m1.with(w, t, Local::PopLoaded { head });
        let m3 = m2.with(w, t, Local::PopRead { head, next });
        let m4 = m3.with(w4, t, Local::Idle);
        assert(performs::<C>(m, m1, k, t, steps[0]));
        assert(performs::<C>(m1, m2, k, t, steps[1]));
        assert(performs::<C>(m2, m3, k, t, steps[2]));
        assert(performs::<C>(m3, m4, k, t, steps[3]));
        seq![m, m1, m2, m3, m4]
    }
}

// --- the model --------------------------------------------------------------

/// What a thread in the phase knows.
pub open spec fn known(phase: Phase) -> Local {
    match phase {
        Phase::Idle => Local::Idle,
        Phase::Push { block } => Local::Push { block },
        Phase::PushLoaded { block, head, at } => Local::PushLoaded { block, head },
        Phase::PushLinked { block, head, at } => Local::PushLinked { block, head },
        Phase::Pop => Local::Pop,
        Phase::PopLoaded { head, at } => Local::PopLoaded { head },
        Phase::PopRead { head, next, at } => Local::PopRead { head, next },
    }
}

/// The head and the links of the bin are those in the words of bin `k`.
pub open spec fn models<C: Config>(s: Bin, w: Map<int, u64>, k: int) -> bool {
    &&& s.head == w[head_at::<C>(k)]
    &&& forall|b: int|
        #![trigger s.links[b]]
        block_address::<C>(b) && b + 8 != head_at::<C>(k) && w.contains_key(b + 8) ==> s.links[b]
            == w[b + 8]
}

/// The words have a link word for the block, which is not the head of bin `k`.
pub open spec fn linkable<C: Config>(w: Map<int, u64>, k: int, b: int) -> bool {
    &&& block_address::<C>(b)
    &&& b + 8 <= u64::MAX
    &&& b + 8 != head_at::<C>(k)
    &&& w.contains_key(b + 8)
}

/// What a thread knows came from words, and the block it is about to read is one of
/// `blocks`.
pub open spec fn from_words<C: Config>(local: Local, blocks: Set<int>) -> bool {
    match local {
        Local::PushLoaded { block, head } => 0 <= head <= u64::MAX,
        Local::PushLinked { block, head } => 0 <= head <= u64::MAX,
        Local::PopLoaded { head } => 0 <= head <= u64::MAX && blocks.contains(address::<C>(head)),
        Local::PopRead { head, next } => 0 <= head <= u64::MAX && 0 <= next <= u64::MAX,
        _ => true,
    }
}

/// The bin is what the machine makes of bin `k`, whose blocks are `blocks`.
pub open spec fn tracks<C: Config>(s: Bin, m: Machine, k: int, blocks: Set<int>) -> bool {
    &&& models::<C>(s, m.words, k)
    &&& m.words.contains_key(head_at::<C>(k))
    &&& m.locals.dom() == s.phases.dom()
    &&& forall|t: int| #[trigger]
        s.phases.contains_key(t) ==> m.locals[t] == known(s.phases[t]) && from_words::<C>(
            m.locals[t],
            blocks,
        )
    &&& forall|b: int| #[trigger] blocks.contains(b) ==> linkable::<C>(m.words, k, b)
    &&& forall|b: int| #[trigger] somewhere(s, b) ==> blocks.contains(b)
}

/// The step that an access is.
proof fn lemma_step_of<C: Config>(s: Bin, m: Machine, m2: Machine, k: int, t: int, step: Step)
    -> (s2: Bin)
    requires
        bin_ok::<C>(s),
        models::<C>(s, m.words, k),
        m.locals.dom() == s.phases.dom(),
        m.locals[t] == known(s.phases[t]),
        performs::<C>(m, m2, k, t, step),
        step matches Step::StartPush { block } ==> s.owned[t].contains(block),
        step is Read ==> linkable::<C>(m.words, k, address::<C>(s.phases[t]->PopLoaded_head)),
    ensures
        takes::<C>(s, s2, t, step),
        m2.locals == m.locals.insert(t, known(s2.phases[t])),
        s2.phases == s.phases.insert(t, s2.phases[t]),
{
    assert(s.phases.contains_key(t));
    assert(s.owned.contains_key(t));
    match (step, s.phases[t]) {
        (Step::StartPush { block }, Phase::Idle) => s.with_phase(t, Phase::Push { block }),
        (Step::StartPop, Phase::Idle) => s.with_phase(t, Phase::Pop),
        (Step::Load, Phase::Push { block }) => s.with_phase(
            t,
            Phase::PushLoaded { block, head: s.head, at: s.updates },
        ),
        (Step::Load, Phase::Pop) => s.with_phase(
            t,
            if address::<C>(s.head) == 0 {
                Phase::Idle
            } else {
                Phase::PopLoaded { head: s.head, at: s.updates }
            },
        ),
        (Step::Link, Phase::PushLoaded { block, head, at }) => Bin {
            links: s.links.insert(block, address::<C>(head)),
            ..s.with_phase(t, Phase::PushLinked { block, head, at })
        },
        (Step::Read, Phase::PopLoaded { head, at }) => s.with_phase(
            t,
            Phase::PopRead { head, next: s.links[address::<C>(head)], at },
        ),
        (Step::Swap, Phase::PushLinked { block, head, at }) => Bin {
            head: retagged::<C>(head, block),
            list: seq![block] + s.list,
            updates: s.updates + 1,
            owned: s.owned.insert(t, s.owned[t].remove(block)),
            ..s.with_phase(t, Phase::Idle)
        },
        (Step::Swap, Phase::PopRead { head, next, at }) => Bin {
            head: retagged::<C>(head, next),
            list: s.list.skip(1),
            updates: s.updates + 1,
            owned: s.owned.insert(t, s.owned[t].insert(address::<C>(head))),
            ..s.with_phase(t, Phase::Idle)
        },
        (Step::Retry, Phase::PushLinked { block, head, at }) => s.with_phase(
            t,
            Phase::Push { block },
        ),
        (Step::Retry, Phase::PopRead { head, next, at }) => s.with_phase(t, Phase::Pop),
        _ => s,
    }
}

/// The head that a swap stores fits a word.
proof fn lemma_swap_fits<C: Config>(s: Bin, m: Machine, k: int, t: int, blocks: Set<int>)
    requires
        valid_config::<C>(),
        bin_ok::<C>(s),
        tracks::<C>(s, m, k, blocks),
        s.phases.contains_key(t),
        timely::<C>(s, t, Step::Swap),
    ensures
        s.phases[t] matches Phase::PushLinked { block, head, at } ==> 0 <= retagged::<C>(
            head,
            block,
        ) <= u64::MAX,
        s.phases[t] matches Phase::PopRead { head, next, at } ==> (head == s.head ==> 0
            <= retagged::<C>(head, next) <= u64::MAX),
{
    assert(phase_ok::<C>(s, t));
    assert(s.owned.contains_key(t));
    match s.phases[t] {
        Phase::PushLinked { block, head, at } => {
            assert(s.owned[t].contains(block));
            assert(somewhere(s, block));
            assert(blocks.contains(block));
            lemma_retagged_fits::<C>(head, block);
        },
        Phase::PopRead { head, next, at } => {
            if head == s.head {
                lemma_same_tag::<C>(at, s.updates);
                assert(next == below(s.list, 0));
                if s.list.len() > 1 {
                    assert(block_address::<C>(s.list[1]));
                } else {
                    lemma_small_mod(0, C::MIN_ALIGN as nat);
                }
                lemma_retagged_fits::<C>(head, next);
            }
        },
        _ => {},
    }
}

/// Each access is a step of the model, whatever other threads did before: from a bin
/// that is what the machine makes of it, the access leads to one that still is.
pub proof fn law_accesses_are_steps<C: Config>(
    s: Bin,
    m: Machine,
    m2: Machine,
    k: int,
    t: int,
    step: Step,
    blocks: Set<int>,
) -> (s2: Bin)
    requires
        valid_config::<C>(),
        bin_ok::<C>(s),
        tracks::<C>(s, m, k, blocks),
        performs::<C>(m, m2, k, t, step),
        timely::<C>(s, t, step),
        step matches Step::StartPush { block } ==> s.owned[t].contains(block),
    ensures
        takes::<C>(s, s2, t, step),
        bin_ok::<C>(s2),
        tracks::<C>(s2, m2, k, blocks),
{
    assert(m.locals.dom().contains(t));
    assert(s.phases.contains_key(t));
    assert(phase_ok::<C>(s, t));
    if step is Read {
        assert(blocks.contains(address::<C>(s.phases[t]->PopLoaded_head)));
    }
    let s2 = lemma_step_of::<C>(s, m, m2, k, t, step);
    law_steps_keep_the_bin::<C>(s, s2, t, step);
    assert forall|b: int| #[trigger] somewhere(s2, b) implies blocks.contains(b) by {
        law_blocks_are_conserved::<C>(s, s2, t, step, b);
    }
    if step is Swap {
        lemma_swap_fits::<C>(s, m, k, t, blocks);
    }
    lemma_words_follow::<C>(s, s2, m, m2, k, t, step, blocks);
    assert(m2.locals.dom() =~= s2.phases.dom());
    assert forall|u: int| #[trigger] s2.phases.contains_key(u) implies m2.locals[u] == known(
        s2.phases[u],
    ) && from_words::<C>(m2.locals[u], blocks) by {
        assert(s.phases.contains_key(u));
        if u == t && step is Load && s.phases[t] is Pop && address::<C>(s.head) != 0 {
            assert(s.list.len() > 0);
            assert(s.list.contains(s.list[0]));
            assert(somewhere(s, s.list[0]));
        }
    }
    s2
}

/// After an access the words are those of the bin that the step leaves.
proof fn lemma_words_follow<C: Config>(
    s: Bin,
    s2: Bin,
    m: Machine,
    m2: Machine,
    k: int,
    t: int,
    step: Step,
    blocks: Set<int>,
)
    requires
        valid_config::<C>(),
        bin_ok::<C>(s),
        tracks::<C>(s, m, k, blocks),
        s.phases.contains_key(t),
        performs::<C>(m, m2, k, t, step),
        takes::<C>(s, s2, t, step),
        step is Swap ==> 0 <= s2.head <= u64::MAX,
    ensures
        models::<C>(s2, m2.words, k),
        m2.words.contains_key(head_at::<C>(k)),
        forall|b: int| #[trigger] blocks.contains(b) ==> linkable::<C>(m2.words, k, b),
{
    let w2 = m2.words;
    assert(phase_ok::<C>(s, t));
    if step is Link {
        let block = s.phases[t]->PushLoaded_block;
        let head = s.phases[t]->PushLoaded_head;
        assert(s.owned.contains_key(t) && s.owned[t].contains(block));
        assert(somewhere(s, block));
        assert(blocks.contains(block));
        lemma_mod_bound(head, C::MIN_ALIGN as int);
        lemma_mod_decreases(head as nat, C::MIN_ALIGN as nat);
    }
    assert forall|b: int|
        #![trigger s2.links[b]]
        block_address::<C>(b) && b + 8 != head_at::<C>(k) && w2.contains_key(
            b + 8,
        ) implies s2.links[b] == w2[b + 8] by {
        if !(step is Link && b == s.phases[t]->PushLoaded_block) {
            assert(s.links[b] == m.words[b + 8]);
        }
    }
    assert forall|b: int| #[trigger] blocks.contains(b) implies linkable::<C>(w2, k, b) by {
        assert(linkable::<C>(m.words, k, b));
    }
}

// --- two threads ------------------------------------------------------------

/// Two threads, each of which pushes its block and then pops once.
pub struct Pair {
    /// The words that they share, and what each knows.
    pub cells: Machine,
    /// How far each has come: not begun (0), pushing (1), pushed (2), popping (3),
    /// ended (4).
    pub stages: Map<int, int>,
    /// What each has popped, once it has ended.
    pub results: Map<int, int>,
}

/// Thread `t` takes `step` on bin `k` as its program has it: thread 1 pushes `a`,
/// thread 2 pushes `b`, and then each pops.
pub open spec fn advances<C: Config>(
    p: Pair,
    p2: Pair,
    k: int,
    t: int,
    step: Step,
    a: int,
    b: int,
) -> bool {
    let first = front_of::<C>(p.cells.words[head_at::<C>(k)] as int);
    &&& performs::<C>(p.cells, p2.cells, k, t, step)
    &&& match step {
        Step::StartPush { block } => {
            &&& block == (if t == 1 {
                a
            } else {
                b
            })
            &&& p.stages[t] == 0
            &&& p2.stages == p.stages.insert(t, 1)
            &&& p2.results == p.results
        },
        Step::StartPop => {
            &&& p.stages[t] == 2
            &&& p2.stages == p.stages.insert(t, 3)
            &&& p2.results == p.results
        },
        Step::Swap => if p.cells.locals[t] is PushLinked {
            &&& p2.stages == p.stages.insert(t, 2)
            &&& p2.results == p.results
        } else {
            &&& p2.stages == p.stages.insert(t, 4)
            &&& p2.results == p.results.insert(t, first)
        },
        Step::Load => if p.cells.locals[t] is Pop && first == 0 {
            &&& p2.stages == p.stages.insert(t, 4)
            &&& p2.results == p.results.insert(t, 0)
        } else {
            &&& p2.stages == p.stages
            &&& p2.results == p.results
        },
        _ => {
            &&& p2.stages == p.stages
            &&& p2.results == p.results
        },
    }
}

/// Bin `k` is empty, there are two different blocks with link words, and neither
/// thread has begun anything.
pub open spec fn begins<C: Config>(p: Pair, k: int, a: int, b: int) -> bool {
    &&& p.cells.words.contains_key(head_at::<C>(k))
    &&& list_start::<C>(p.cells.words, k) == 0
    &&& linkable::<C>(p.cells.words, k, a)
    &&& linkable::<C>(p.cells.words, k, b)
    &&& a != b
    &&& p.cells.locals == map![1int => Local::Idle, 2int => Local::Idle]
    &&& p.stages == map![1int => 0int, 2int => 0int]
}

/// Whether a thread at the stage has a block on the stack to its account.
spec fn on_stack(stage: int) -> int {
    if stage == 2 || stage == 3 {
        1
    } else {
        0
    }
}

/// How often a thread at the stage has updated the head.
spec fn updates_at(stage: int) -> int {
    if stage < 2 {
        0
    } else if stage < 4 {
        1
    } else {
        2
    }
}

/// What a thread at a stage is doing, and has to itself. Its pop began after `start`
/// updates of the head.
spec fn stage_ok(s: Bin, p: Pair, t: int, own: int, start: int) -> bool {
    let stage = p.stages[t];
    let phase = s.phases[t];
    &&& 0 <= stage <= 4
    &&& stage == 1 <==> phase is Push || phase is PushLoaded || phase is PushLinked
    &&& stage == 3 <==> phase is Pop || phase is PopLoaded || phase is PopRead
    &&& stage <= 1 ==> s.owned[t] == set![own]
    &&& stage == 2 || stage == 3 ==> s.owned[t] == Set::<int>::empty()
    &&& stage == 4 ==> s.owned[t] == set![p.results[t]]
    &&& phase matches Phase::PopLoaded { head, at } ==> at >= start
    &&& phase matches Phase::PopRead { head, next, at } ==> at >= start
}

/// The invariant of the two threads, on a bin whose head was updated `start` times
/// before.
spec fn pair_ok<C: Config>(s: Bin, p: Pair, a: int, b: int, start: int) -> bool {
    &&& bin_ok::<C>(s)
    &&& forall|t: int| #[trigger] s.phases.contains_key(t) <==> t == 1 || t == 2
    &&& stage_ok(s, p, 1, a, start)
    &&& stage_ok(s, p, 2, b, start)
    &&& s.list.len() == on_stack(p.stages[1]) + on_stack(p.stages[2])
    &&& s.updates == start + updates_at(p.stages[1]) + updates_at(p.stages[2])
    &&& forall|x: int| #[trigger] somewhere(s, x) ==> x == a || x == b
}

/// The empty bin that the words hold when the threads begin.
proof fn lemma_pair_begins<C: Config>(p: Pair, k: int, a: int, b: int) -> (s: Bin)
    requires
        valid_config::<C>(),
        k < oversized::<C>(),
        begins::<C>(p, k, a, b),
    ensures
        pair_ok::<C>(s, p, a, b, s.updates),
        tracks::<C>(s, p.cells, k, set![a, b]),
{
    let w = p.cells.words;
    let head = w[head_at::<C>(k)] as int;
    let s = Bin {
        head,
        links: Map::new(|x: int| true, |x: int| w[x + 8] as int),
        list: Seq::empty(),
        updates: head,
        phases: map![1int => Phase::Idle, 2int => Phase::Idle],
        owned: map![1int => set![a], 2int => set![b]],
    };
    assert(s.owned.dom() =~= s.phases.dom());
    assert(p.cells.locals.dom() =~= s.phases.dom());
    assert(s.phases.contains_key(1) && s.phases.contains_key(2));
    assert(bin_ok::<C>(s));
    s
}

/// The two threads make too few updates for the tag to come round.
proof fn lemma_pair_timely<C: Config>(
    s: Bin,
    p: Pair,
    t: int,
    step: Step,
    a: int,
    b: int,
    start: int,
)
    requires
        valid_config::<C>(),
        pair_ok::<C>(s, p, a, b, start),
        s.phases.contains_key(t),
    ensures
        timely::<C>(s, t, step),
{
    lemma_config_logs::<C>();
}

/// Every step keeps the two threads in order: a pop finds the block that its thread
/// has on the stack, or the other's.
proof fn lemma_pair_step<C: Config>(
    s: Bin,
    p: Pair,
    p2: Pair,
    k: int,
    t: int,
    step: Step,
    a: int,
    b: int,
    start: int,
) -> (s2: Bin)
    requires
        valid_config::<C>(),
        pair_ok::<C>(s, p, a, b, start),
        tracks::<C>(s, p.cells, k, set![a, b]),
        advances::<C>(p, p2, k, t, step, a, b),
    ensures
        pair_ok::<C>(s2, p2, a, b, start),
        tracks::<C>(s2, p2.cells, k, set![a, b]),
{
    assert(p.cells.locals.dom().contains(t));
    assert(s.phases.contains_key(t));
    lemma_pair_timely::<C>(s, p, t, step, a, b, start);
    let own = if t == 1 { a } else { b };
    assert(stage_ok(s, p, t, own, start));
    let s2 = law_accesses_are_steps::<C>(s, p.cells, p2.cells, k, t, step, set![a, b]);
    law_operations_are_atomic::<C>(s, s2, t, step);
    assert forall|x: int| #[trigger] somewhere(s2, x) implies x == a || x == b by {
        law_blocks_are_conserved::<C>(s, s2, t, step, x);
    }
    assert(s2.phases.dom() =~= s.phases.dom());
    assert forall|u: int| #[trigger] s2.phases.contains_key(u) <==> u == 1 || u == 2 by {
        assert(s2.phases.contains_key(u) <==> s.phases.contains_key(u));
    }
    assert(phase_ok::<C>(s, t));
    if step is Swap {
        if s.phases[t] is PushLinked {
            let block = s.phases[t]->PushLinked_block;
            assert(s.owned[t].contains(block));
            assert(s2.owned[t] =~= Set::<int>::empty());
        } else {
            lemma_pop_step::<C>(s, s2, t);
            assert(s2.owned[t] =~= set![p2.results[t]]);
        }
    }
    s2
}

/// The pairs of a run, each made from the one before by a step of a thread's program.
pub open spec fn is_pair_run<C: Config>(
    run: Seq<Pair>,
    k: int,
    threads: Seq<int>,
    steps: Seq<Step>,
    a: int,
    b: int,
) -> bool {
    &&& run.len() == steps.len() + 1
    &&& run.len() == threads.len() + 1
    &&& forall|i: int|
        #![trigger steps[i]]
        0 <= i < steps.len() ==> advances::<C>(run[i], run[i + 1], k, threads[i], steps[i], a, b)
}

/// The invariant holds after every number of steps.
proof fn lemma_pair_run<C: Config>(
    run: Seq<Pair>,
    k: int,
    threads: Seq<int>,
    steps: Seq<Step>,
    a: int,
    b: int,
    n: int,
) -> (r: (Bin, int))
    requires
        valid_config::<C>(),
        k < oversized::<C>(),
        is_pair_run::<C>(run, k, threads, steps, a, b),
        begins::<C>(run[0], k, a, b),
        0 <= n <= steps.len(),
    ensures
        pair_ok::<C>(r.0, run[n], a, b, r.1),
        tracks::<C>(r.0, run[n].cells, k, set![a, b]),
    decreases n,
{
    if n == 0 {
        let s = lemma_pair_begins::<C>(run[0], k, a, b);
        (s, s.updates)
    } else {
        let (s, start) = lemma_pair_run::<C>(run, k, threads, steps, a, b, n - 1);
        let t = threads[n - 1];
        let step = steps[n - 1];
        let s2 = lemma_pair_step::<C>(s, run[n - 1], run[n], k, t, step, a, b, start);
        (s2, start)
    }
}

/// Two threads that share an empty bin, each of which pushes its own block and then
/// pops once, have popped both blocks when they have ended, each of them one, and the
/// bin is empty again, in whatever order their accesses to the words fall: no block is
/// lost, and none is popped twice. A further
/// [`pop_fixed`](crate::CadAlloc::pop_fixed) on the words that they leave returns `0`.
pub proof fn law_two_threads_conserve_blocks<C: Config>(
    run: Seq<Pair>,
    k: int,
    threads: Seq<int>,
    steps: Seq<Step>,
    a: int,
    b: int,
)
    requires
        valid_config::<C>(),
        k < oversized::<C>(),
        is_pair_run::<C>(run, k, threads, steps, a, b),
        begins::<C>(run[0], k, a, b),
        run.last().stages[1] == 4,
        run.last().stages[2] == 4,
    ensures
        ({
            let r1 = run.last().results[1];
            let r2 = run.last().results[2];
            &&& r1 != 0
            &&& r2 != 0
            &&& r1 != r2
            &&& (r1 == a && r2 == b) || (r1 == b && r2 == a)
        }),
        list_start::<C>(run.last().cells.words, k) == 0,
{
    let s = lemma_pair_run::<C>(run, k, threads, steps, a, b, steps.len() as int).0;
    let r1 = run.last().results[1];
    let r2 = run.last().results[2];
    assert(s.phases.contains_key(1) && s.phases.contains_key(2));
    assert(s.owned.contains_key(1) && s.owned.contains_key(2));
    assert(s.owned[1].contains(r1));
    assert(s.owned[2].contains(r2));
    assert(somewhere(s, r1) && somewhere(s, r2));
    if r1 == r2 {
        assert(s.owned[2].contains(r1));
    }
}

} // verus!
