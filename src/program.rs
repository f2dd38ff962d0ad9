//! Programs split into sections, `repeat` processes and their ticks, and the laws of the
//! efficiency curve.

use vstd::prelude::*;
use crate::codes::{NUMBER_LITERAL, READY_SECTION, PROCESS_SECTION, METADATA_SECTION, COLOR};
use crate::numbers::MANTISSA_MASK;
use crate::vm::{RuntimeError, SpellHost, SpellState, Cast, calls_nothing, within_one_section, quiet_run, plain_run, planned_casts};
use crate::compiler::{Section, program_walk};

verus! {

/// What `as u64` gives for the 64-bit float with these bits: its integer part, 0 for NaN
/// and negative numbers, `u64::MAX` where it is too large.
pub open spec fn truncated_count(b: u64) -> u64 {
    let e = (b >> 52u64) & 0x7ffu64;
    let m = b & MANTISSA_MASK;
    if e == 0x7ffu64 {
        if m != 0 || b >> 63u64 == 1 { 0 } else { u64::MAX }
    } else if b >> 63u64 == 1 || e < 1023 {
        0
    } else if e - 1023 >= 64 {
        u64::MAX
    } else if e - 1023 >= 52 {
        (m | (1u64 << 52u64)) << ((e - 1023 - 52) as u64)
    } else {
        (m | (1u64 << 52u64)) >> ((52 - (e - 1023)) as u64)
    }
}

pub fn count_of_bits(b: u64) -> (r: u64)
    ensures
        r == truncated_count(b),
{
    let e = (b >> 52u64) & 0x7ffu64;
    let m = b & MANTISSA_MASK;
    if e == 0x7ffu64 {
        if m != 0 || b >> 63u64 == 1 { 0 } else { u64::MAX }
    } else if b >> 63u64 == 1 || e < 1023 {
        0
    } else if e - 1023 >= 64 {
        u64::MAX
    } else if e - 1023 >= 52 {
        (m | (1u64 << 52u64)) << ((e - 1023 - 52) as u64)
    } else {
        (m | (1u64 << 52u64)) >> ((52 - (e - 1023)) as u64)
    }
}

/// A `repeat` section: its body runs once every `frequency` ticks.
pub struct Process {
    pub counter: u64,
    pub frequency: u64,
    pub instructions: Vec<u64>,
}

impl Process {
    /// The counter stays below the frequency.
    pub open spec fn wf(&self) -> bool {
        self.frequency == 0 || self.counter < self.frequency
    }

    pub fn new(frequency: u64, instructions: Vec<u64>) -> (r: Self)
        ensures
            r.counter == 0,
            r.frequency == frequency,
            r.instructions == instructions,
            r.wf(),
    {
        Process { counter: 0, frequency, instructions }
    }

    /// Counts one tick. A process of frequency 0 never runs, and its counter stays.
    pub fn increment(&mut self)
        requires
            old(self).wf(),
        ensures
            final(self).wf(),
            final(self).frequency == old(self).frequency,
            final(self).instructions == old(self).instructions,
            old(self).frequency > 0 ==> final(self).counter == (old(self).counter + 1) % (old(self).frequency as int),
            old(self).frequency == 0 ==> final(self).counter == old(self).counter,
    {
        if self.frequency > 0 {
            if self.counter >= self.frequency - 1 {
                proof {
                    vstd::arithmetic::div_mod::lemma_mod_self_0(self.frequency as int);
                }
                self.counter = 0;
            } else {
                proof {
                    vstd::arithmetic::div_mod::lemma_small_mod((self.counter + 1) as nat, self.frequency as nat);
                }
                self.counter = self.counter + 1;
            }
        }
    }

    pub fn should_run(&self) -> (r: bool)
        ensures
            r == (self.counter == 0 && self.frequency > 0),
    {
        self.counter == 0 && self.frequency > 0
    }
}

/// A compiled program, split into its sections.
pub struct Program {
    /// The `when_created` block, run once.
    pub ready_instructions: Vec<u64>,
    /// The `repeat` blocks.
    pub process_instructions: Vec<Process>,
    /// The colour of the `about` section (bits of 64-bit floats), if it sets one.
    pub color: Option<(u64, u64, u64)>,
}

/// The colour that the attributes `a[i..]` of an about section set (the last one wins),
/// starting from `color`; `None` where they are not all colour attributes.
pub open spec fn about_attributes(a: Seq<u64>, i: int, color: Option<(u64, u64, u64)>) -> Option<Option<(u64, u64, u64)>>
    decreases a.len() - i,
{
    if i < 0 || i >= a.len() {
        Some(color)
    } else if a[i] == COLOR && a.len() - i >= 4 {
        about_attributes(a, i + 4, Some((a[i + 1], a[i + 2], a[i + 3])))
    } else {
        None
    }
}

/// Reads the attributes of an about section: the colour attribute and its three values.
pub fn set_about_section(attributes: &Vec<u64>) -> (r: Result<Option<(u64, u64, u64)>, RuntimeError>)
    ensures
        match about_attributes(attributes@, 0, None) {
            Some(c) => r == Ok::<Option<(u64, u64, u64)>, RuntimeError>(c),
            None => r == Err::<Option<(u64, u64, u64)>, RuntimeError>(RuntimeError::MalformedBytecode),
        },
{
    let mut color: Option<(u64, u64, u64)> = None;
    let mut i: usize = 0;
    while i < attributes.len()
        invariant
            i <= attributes@.len(),
            about_attributes(attributes@, 0, None) == about_attributes(attributes@, i as int, color),
        decreases attributes@.len() - i,
    {
        if attributes[i] == COLOR && attributes.len() - i >= 4 {
            color = Some((attributes[i + 1], attributes[i + 2], attributes[i + 3]));
            i += 4;
        } else {
            return Err(RuntimeError::MalformedBytecode);
        }
    }
    Ok(color)
}

/// A program as values: its `when_created` words, each `repeat` block's frequency and words,
/// and its colour.
pub type ProgramView = (Seq<u64>, Seq<(u64, Seq<u64>)>, Option<(u64, u64, u64)>);

impl Program {
    pub open spec fn view(&self) -> ProgramView {
        (self.ready_instructions@, self.process_instructions@.map_values(|p: Process| (p.frequency, p.instructions@)),
            self.color)
    }

    /// Every `repeat` block starts its count at 0.
    pub open spec fn fresh(&self) -> bool {
        forall|k: int| 0 <= k < self.process_instructions@.len() ==> (#[trigger] self.process_instructions@[k]).counter == 0
    }
}

/// Where the words of a finished section go.
pub open spec fn close_spec(p: ProgramView, section: u64, words: Seq<u64>) -> Option<ProgramView> {
    if section == READY_SECTION {
        Some((words, p.1, p.2))
    } else if section == PROCESS_SECTION {
        if words.len() < 2 || words[0] != NUMBER_LITERAL {
            None
        } else {
            Some((p.0, p.1.push((truncated_count(words[1]), words.subrange(2, words.len() as int))), p.2))
        }
    } else if section == METADATA_SECTION {
        match about_attributes(words, 0, None) {
            Some(c) => Some((p.0, p.1, c)),
            None => None,
        }
    } else {
        Some(p)
    }
}

/// Splitting the words `w[i..]` into sections, in section `section` with the words `cur` of
/// it so far: a number literal goes with its value word, and a section word closes the
/// section before it.
pub open spec fn split_spec(w: Seq<u64>, i: int, section: u64, cur: Seq<u64>, p: ProgramView) -> Option<ProgramView>
    decreases w.len() - i,
{
    if i < 0 || i >= w.len() {
        close_spec(p, section, cur)
    } else if w[i] == NUMBER_LITERAL {
        if w.len() - i < 2 {
            None
        } else {
            split_spec(w, i + 2, section, cur + seq![NUMBER_LITERAL, w[i + 1]], p)
        }
    } else if w[i] == READY_SECTION || w[i] == PROCESS_SECTION || w[i] == METADATA_SECTION {
        match close_spec(p, section, cur) {
            Some(p2) => split_spec(w, i + 1, w[i], Seq::empty(), p2),
            None => None,
        }
    } else {
        split_spec(w, i + 1, section, cur.push(w[i]), p)
    }
}

/// Where a finished section's words go.
fn close_section(program: &mut Program, section: u64, words: Vec<u64>) -> (r: Result<(), RuntimeError>)
    requires
        old(program).fresh(),
    ensures
        match close_spec(old(program).view(), section, words@) {
            Some(v) => r is Ok && final(program).view() == v && final(program).fresh(),
            None => r is Err,
        },
{
    let ghost v0 = program.view();
    if section == READY_SECTION {
        program.ready_instructions = words;
    } else if section == PROCESS_SECTION {
        if words.len() < 2 || words[0] != NUMBER_LITERAL {
            return Err(RuntimeError::MalformedBytecode);
        }
        let frequency = count_of_bits(words[1]);
        let mut body: Vec<u64> = Vec::new();
        let mut i: usize = 2;
        while i < words.len()
            invariant
                2 <= i <= words@.len(),
                body@ == words@.subrange(2, i as int),
            decreases words@.len() - i,
        {
            body.push(words[i]);
            i += 1;
        }
        let ghost ps = program.process_instructions@;
        let process = Process::new(frequency, body);
        program.process_instructions.push(process);
        proof {
            assert(program.process_instructions@.map_values(|p: Process| (p.frequency, p.instructions@))
                =~= ps.map_values(|p: Process| (p.frequency, p.instructions@)).push((frequency, body@)));
        }
    } else if section == METADATA_SECTION {
        program.color = set_about_section(&words)?;
    }
    Ok(())
}

/// Splits a compiled program into its sections: the `when_created` block (the last one, if
/// there are several), each `repeat` block with its frequency, and the about attributes.
/// Words before the first section are dropped.
pub fn internal_set_instructions(instructions: &Vec<u64>) -> (r: Result<Program, RuntimeError>)
    ensures
        match split_spec(instructions@, 0, 0, Seq::empty(), (Seq::empty(), Seq::empty(), None)) {
            Some(v) => r is Ok && r->Ok_0.view() == v && r->Ok_0.fresh(),
            None => r is Err,
        },
        r is Ok ==> forall|k: int| 0 <= k < r->Ok_0.process_instructions@.len() ==> (#[trigger] r->Ok_0.process_instructions@[k]).wf(),
{
    let mut program = Program { ready_instructions: Vec::new(), process_instructions: Vec::new(), color: None };
    let mut section: u64 = 0;
    let mut words: Vec<u64> = Vec::new();
    let mut i: usize = 0;
    proof {
        assert(program.view().1 =~= Seq::<(u64, Seq<u64>)>::empty());
        assert(program.view() == (Seq::<u64>::empty(), Seq::<(u64, Seq<u64>)>::empty(), None::<(u64, u64, u64)>));
    }
    while i < instructions.len()
        invariant
            i <= instructions@.len(),
            program.fresh(),
            split_spec(instructions@, 0, 0, Seq::empty(), (Seq::empty(), Seq::empty(), None))
                == split_spec(instructions@, i as int, section, words@, program.view()),
        decreases instructions@.len() - i,
    {
        let x = instructions[i];
        if x == NUMBER_LITERAL {
            if instructions.len() - i < 2 {
                return Err(RuntimeError::MalformedBytecode);
            }
            let ghost w0 = words@;
            words.push(x);
            words.push(instructions[i + 1]);
            assert(words@ =~= w0 + seq![NUMBER_LITERAL, instructions@[i + 1]]);
            i += 2;
        } else if x == READY_SECTION || x == PROCESS_SECTION || x == METADATA_SECTION {
            close_section(&mut program, section, words)?;
            words = Vec::new();
            section = x;
            i += 1;
        } else {
            words.push(x);
            i += 1;
        }
    }
    close_section(&mut program, section, words)?;
    proof {
        assert forall|k: int| 0 <= k < program.process_instructions@.len() implies (#[trigger] program.process_instructions@[k]).wf() by {
            assert(program.process_instructions@[k].counter == 0);
        }
    }
    Ok(program)
}

/// Runs the `when_created` block once; gives, as a ghost value, the casts handed to the host.
pub fn run_ready<H: SpellHost>(state: &mut SpellState, host: &mut H, program: &Program) -> (r: (Result<(), RuntimeError>, Ghost<Seq<Cast>>))
    ensures
        program_walk(program.ready_instructions@, 0, 0, Section::Code) == Some((0nat, Section::Code))
            && calls_nothing(program.ready_instructions@, 0, program.ready_instructions@.len() as int)
            && within_one_section(program.ready_instructions@) ==> r.0 is Ok,
        quiet_run(program.ready_instructions@, 0) ==> r.0 is Ok && r.1@.len() == 0 && *final(state) == *old(state),
        plain_run(program.ready_instructions@, 0) && r.0 is Ok ==> r.1@ == planned_casts(program.ready_instructions@, 0),
        plain_run(program.ready_instructions@, 0) && r.0 is Err ==> r.1@.len() <= planned_casts(program.ready_instructions@, 0).len()
            && r.1@ == planned_casts(program.ready_instructions@, 0).subrange(0, r.1@.len() as int),
        r.0 matches Err(RuntimeError::PermissionDenied(_)) ==> old(state).check_component_return_value,
        final(state).component_catalogue == old(state).component_catalogue,
        final(state).check_component_return_value == old(state).check_component_return_value,
{
    let (r, casts, _) = state.spell_virtual_machine(host, &program.ready_instructions);
    (r, casts)
}

/// Whether a process runs at the next tick: its counter wraps round to 0.
pub open spec fn due(p: Process) -> bool {
    p.frequency > 0 && (p.counter + 1) % (p.frequency as int) == 0
}

/// The indices, from `i` on, of the processes that are due, in order.
pub open spec fn due_indices(ps: Seq<Process>, i: int) -> Seq<int>
    decreases ps.len() - i,
{
    if i < 0 || i >= ps.len() {
        Seq::empty()
    } else if due(ps[i]) {
        seq![i] + due_indices(ps, i + 1)
    } else {
        due_indices(ps, i + 1)
    }
}

/// The casts that the due processes from the `i`-th on hand to the host, in order, where
/// their bodies are plain and every cast is paid for.
pub open spec fn planned_tick(ps: Seq<Process>, i: int) -> Seq<Cast>
    decreases ps.len() - i,
{
    if i < 0 || i >= ps.len() {
        Seq::empty()
    } else if due(ps[i]) {
        planned_casts(ps[i].instructions@, 0) + planned_tick(ps, i + 1)
    } else {
        planned_tick(ps, i + 1)
    }
}

/// Counts one tick for each `repeat` block and runs those that are due, in order; stops at
/// the first that fails. Gives, as ghost values, the indices of the blocks that ran and the
/// casts handed to the host.
pub fn run_process_tick<H: SpellHost>(state: &mut SpellState, host: &mut H, processes: &mut Vec<Process>) -> (r: (Result<(), RuntimeError>, Ghost<Seq<int>>, Ghost<Seq<Cast>>))
    requires
        forall|k: int| 0 <= k < old(processes)@.len() ==> (#[trigger] old(processes)@[k]).wf(),
    ensures
        final(processes)@.len() == old(processes)@.len(),
        forall|k: int| 0 <= k < final(processes)@.len() ==> (#[trigger] final(processes)@[k]).wf(),
        forall|k: int| 0 <= k < final(processes)@.len() ==> (#[trigger] final(processes)@[k]).frequency == old(processes)@[k].frequency
            && final(processes)@[k].instructions == old(processes)@[k].instructions,
        r.0 is Ok ==> forall|k: int| 0 <= k < final(processes)@.len() && (#[trigger] old(processes)@[k]).frequency > 0
            ==> final(processes)@[k].counter == (old(processes)@[k].counter + 1) % (old(processes)@[k].frequency as int),
        r.0 is Ok ==> r.1@ == due_indices(old(processes)@, 0),
        (forall|k: int| 0 <= k < old(processes)@.len() && due(#[trigger] old(processes)@[k])
            ==> plain_run(old(processes)@[k].instructions@, 0)) && r.0 is Ok
            ==> r.2@ == planned_tick(old(processes)@, 0),
        (forall|k: int| 0 <= k < old(processes)@.len() && due(#[trigger] old(processes)@[k])
            ==> quiet_run(old(processes)@[k].instructions@, 0))
            ==> r.0 is Ok && *final(state) == *old(state),
        r.0 matches Err(RuntimeError::PermissionDenied(_)) ==> old(state).check_component_return_value,
        final(state).component_catalogue == old(state).component_catalogue,
        final(state).check_component_return_value == old(state).check_component_return_value,
{
    let mut i: usize = 0;
    let ghost quiet = forall|k: int| 0 <= k < old(processes)@.len() && due(#[trigger] old(processes)@[k])
        ==> quiet_run(old(processes)@[k].instructions@, 0);
    let ghost mut ran: Seq<int> = Seq::empty();
    let ghost mut casts: Seq<Cast> = Seq::empty();
    let ghost plain = forall|k: int| 0 <= k < old(processes)@.len() && due(#[trigger] old(processes)@[k])
        ==> plain_run(old(processes)@[k].instructions@, 0);
    proof {
        assert(casts + planned_tick(old(processes)@, 0) =~= planned_tick(old(processes)@, 0));
        assert(ran + due_indices(old(processes)@, 0) =~= due_indices(old(processes)@, 0));
    }
    while i < processes.len()
        invariant
            i <= processes@.len() == old(processes)@.len(),
            forall|k: int| 0 <= k < processes@.len() ==> (#[trigger] processes@[k]).wf(),
            forall|k: int| 0 <= k < processes@.len() ==> (#[trigger] processes@[k]).frequency == old(processes)@[k].frequency
                && processes@[k].instructions == old(processes)@[k].instructions,
            forall|k: int| i <= k < processes@.len() ==> #[trigger] processes@[k] == old(processes)@[k],
            forall|k: int| 0 <= k < i && (#[trigger] old(processes)@[k]).frequency > 0
                ==> processes@[k].counter == (old(processes)@[k].counter + 1) % (old(processes)@[k].frequency as int),
            ran + due_indices(old(processes)@, i as int) == due_indices(old(processes)@, 0),
            quiet == (forall|k: int| 0 <= k < old(processes)@.len() && due(#[trigger] old(processes)@[k])
                ==> quiet_run(old(processes)@[k].instructions@, 0)),
            quiet ==> *state == *old(state),
            plain == (forall|k: int| 0 <= k < old(processes)@.len() && due(#[trigger] old(processes)@[k])
                ==> plain_run(old(processes)@[k].instructions@, 0)),
            plain ==> casts + planned_tick(old(processes)@, i as int) == planned_tick(old(processes)@, 0),
            state.component_catalogue == old(state).component_catalogue,
            state.check_component_return_value == old(state).check_component_return_value,
        decreases processes@.len() - i,
    {
        let ghost before = processes@;
        let mut process = processes.remove(i);
        proof {
            assert(before[i as int] == process);
            assert(process == old(processes)@[i as int]);
        }
        process.increment();
        let run = if process.should_run() {
            proof {
                assert(due(old(processes)@[i as int]));
                ran = ran.push(i as int);
                assert(ran + due_indices(old(processes)@, i + 1) =~= due_indices(old(processes)@, 0)) by {
                    assert(due_indices(old(processes)@, i as int) == seq![i as int] + due_indices(old(processes)@, i + 1));
                }
            }
            let (outcome, Ghost(made), _) = state.spell_virtual_machine(host, &process.instructions);
            proof {
                let here = planned_casts(old(processes)@[i as int].instructions@, 0);
                if plain && outcome is Ok {
                    assert(made == here);
                    assert(planned_tick(old(processes)@, i as int) == here + planned_tick(old(processes)@, i + 1));
                    assert(casts + made + planned_tick(old(processes)@, i + 1)
                        =~= casts + (here + planned_tick(old(processes)@, i + 1)));
                }
                casts = casts + made;
            }
            outcome
        } else {
            proof {
                assert(!due(old(processes)@[i as int]));
                assert(due_indices(old(processes)@, i as int) == due_indices(old(processes)@, i + 1));
                assert(planned_tick(old(processes)@, i as int) == planned_tick(old(processes)@, i + 1));
            }
            Ok(())
        };
        processes.insert(i, process);
        proof {
            assert forall|k: int| 0 <= k < processes@.len() && k != i implies #[trigger] processes@[k] == before[k] by {}
            assert(processes@[i as int] == process);
        }
        match run {
            Ok(()) => {},
            Err(e) => return (Err(e), Ghost(ran), Ghost(casts)),
        }
        i += 1;
    }
    proof {
        assert(ran + Seq::<int>::empty() =~= ran);
        assert(casts + Seq::<Cast>::empty() =~= casts);
    }
    (Ok(()), Ghost(ran), Ghost(casts))
}

/// The energy that a cast with base energy `b` needs at efficiency level `l` with rate `k`,
/// as the exact fraction `b / (l / (l + k))`: its numerator over `l`. The statements below
/// are homogeneous in `b`, `l`, `k` and the margin `t`, so scaling them all by a common
/// denominator carries them over to rational energies; the machine's rate is
/// `EFFICIENCY_INCREASE_RATE`.
pub open spec fn needed_numerator(b: int, l: int, k: int) -> int {
    b * (l + k)
}

/// Casting a component with base energy `b` at level `l` raises its level to `l + b`; the
/// next cast with the same base energy then needs strictly less, and every cast needs more
/// than its base energy.
pub proof fn lemma_repeated_casts_cheaper(b: int, l: int, k: int)
    requires
        b > 0,
        l > 0,
        k > 0,
    ensures
        needed_numerator(b, l + b, k) * l < needed_numerator(b, l, k) * (l + b),
        needed_numerator(b, l, k) > b * l,
{
    assert(needed_numerator(b, l + b, k) * l < needed_numerator(b, l, k) * (l + b)) by (nonlinear_arith)
        requires
            b > 0,
            l > 0,
            k > 0,
            needed_numerator(b, l + b, k) == b * (l + b + k),
            needed_numerator(b, l, k) == b * (l + k);
    assert(needed_numerator(b, l, k) > b * l) by (nonlinear_arith)
        requires
            b > 0,
            k > 0,
            needed_numerator(b, l, k) == b * (l + k);
}

/// The cost approaches the base energy: after `n` casts with base energy `b` from level
/// `l0` the level is `l0 + n b`, and for every margin `t > 0`, from `n = k / t + 1` casts on
/// the cost is within `t` of `b`.
pub proof fn lemma_cost_approaches_base(b: int, t: int, k: int, l0: int, n: int)
    requires
        b > 0,
        t > 0,
        k > 0,
        l0 > 0,
        n >= k / t + 1,
    ensures
        needed_numerator(b, l0 + n * b, k) <= (b + t) * (l0 + n * b),
{
    assert(n * t >= k) by (nonlinear_arith)
        requires
            t > 0,
            n >= k / t + 1,
            k >= 0;
    assert(needed_numerator(b, l0 + n * b, k) <= (b + t) * (l0 + n * b)) by (nonlinear_arith)
        requires
            b > 0,
            t > 0,
            l0 > 0,
            n * t >= k,
            needed_numerator(b, l0 + n * b, k) == b * (l0 + n * b + k);
}

} // verus!
