//! The interrupt-masking critical section and the mutual-exclusion lock
//! built on it.
//!
//! On the target there is exactly one core, and the only way to exclude
//! every other execution context — preempted tasks and interrupt handlers
//! alike — is to mask interrupts in the processor's interrupt-control
//! register. That register is global mutable hardware state; it is
//! modelled here as an explicit [`Cpu`] value handed to each operation
//! that touches it, so the contracts can pin down which mask value is
//! captured and which is restored.
use vstd::prelude::*;

verus! {

/// Model of the core's interrupt-control state.
///
/// `primask` mirrors the interrupt mask register: `1` means all maskable
/// interrupts are disabled, any other value is whatever enabled state the
/// rest of the system left there. `diag_led` models the optional
/// process-wide diagnostic hook: `None` while no hook is installed,
/// `Some(level)` once one is, where `level` is the signal the hook was
/// last driven with (`true` on critical-section entry, `false` on exit).
pub struct Cpu {
    pub primask: u32,
    pub diag_led: Option<bool>,
}

impl Cpu {
    /// A core whose interrupt mask register currently reads `primask`,
    /// with no diagnostic hook installed.
    pub fn new(primask: u32) -> (cpu: Cpu)
        ensures
            cpu.primask == primask,
            cpu.diag_led is None,
    {
        Cpu { primask, diag_led: None }
    }

    /// Installs the diagnostic hook, initially driven low. Meant to be
    /// called once at startup; the critical-section operations drive the
    /// signal high on entry and low on exit from then on.
    pub fn install_diag_led(&mut self)
        ensures
            final(self).primask == old(self).primask,
            final(self).diag_led == Some(false),
    {
        self.diag_led = Some(false);
    }

    /// True when all maskable interrupts are disabled on this core.
    pub open spec fn interrupts_masked(self) -> bool {
        self.primask == 1u32
    }
}

/// Writes `mask` to the interrupt mask register and hands back the value
/// the register held before, in one non-interruptible step.
fn mask_interrupts(cpu: &mut Cpu, mask: u32) -> (prev: u32)
    ensures
        prev == old(cpu).primask,
        final(cpu).primask == mask,
        final(cpu).diag_led == old(cpu).diag_led,
{
    let prev = cpu.primask;
    cpu.primask = mask;
    prev
}

/// A non-preemptible window. Holds the one interrupt mask value captured
/// on entry; [`CriticalSection::exit`] consumes the guard and restores
/// exactly that value, so each guard restores exactly once.
pub struct CriticalSection(u32);

impl CriticalSection {
    /// The interrupt mask value captured when this window was entered.
    pub closed spec fn saved_primask(self) -> u32 {
        self.0
    }

    /// Enters a critical section: drives the diagnostic signal high if a
    /// hook is installed, masks all maskable interrupts, and records the
    /// mask state from just before entry. Cannot fail: masking a single,
    /// always-available core is unconditional.
    pub fn new(cpu: &mut Cpu) -> (cs: CriticalSection)
        ensures
            cs.saved_primask() == old(cpu).primask,
            final(cpu).interrupts_masked(),
            old(cpu).diag_led is Some ==> final(cpu).diag_led == Some(true),
            old(cpu).diag_led is None ==> final(cpu).diag_led is None,
    {
        if cpu.diag_led.is_some() {
            cpu.diag_led = Some(true);
        }
        CriticalSection(mask_interrupts(cpu, 1))
    }

    /// Leaves the critical section: drives the diagnostic signal low if a
    /// hook is installed and restores the interrupt mask state captured on
    /// entry. Consuming `self` is what makes the restore happen exactly
    /// once. An inner nested window captured "masked" as its pre-state, so
    /// its exit keeps interrupts masked; only the outermost exit restores
    /// the true original state.
    pub fn exit(self, cpu: &mut Cpu)
        ensures
            final(cpu).primask == self.saved_primask(),
            old(cpu).diag_led is Some ==> final(cpu).diag_led == Some(false),
            old(cpu).diag_led is None ==> final(cpu).diag_led is None,
    {
        if cpu.diag_led.is_some() {
            cpu.diag_led = Some(false);
        }
        mask_interrupts(cpu, self.0);
    }
}

/// One step of entering a critical section, on the abstract state the
/// exec contracts describe: the current mask register value paired with
/// the stack of saved values held by the live guards, innermost last.
/// Entry pushes the current value and masks interrupts, exactly as
/// [`CriticalSection::new`] promises of the register and of the guard it
/// returns.
pub open spec fn cs_enter(primask: u32, saved: Seq<u32>) -> (u32, Seq<u32>) {
    (1u32, saved.push(primask))
}

/// One step of leaving the innermost live critical section: the register
/// gets the value that guard saved, exactly as [`CriticalSection::exit`]
/// promises.
pub open spec fn cs_exit(primask: u32, saved: Seq<u32>) -> (u32, Seq<u32>)
    recommends
        saved.len() > 0,
{
    (saved.last(), saved.drop_last())
}

/// The state after entering `d` nested critical sections in a row.
pub open spec fn cs_enter_n(primask: u32, saved: Seq<u32>, d: nat) -> (u32, Seq<u32>)
    decreases d,
{
    if d == 0 {
        (primask, saved)
    } else {
        let s = cs_enter_n(primask, saved, (d - 1) as nat);
        cs_enter(s.0, s.1)
    }
}

/// The state after leaving the `k` innermost critical sections in a row.
pub open spec fn cs_exit_n(primask: u32, saved: Seq<u32>, k: nat) -> (u32, Seq<u32>)
    decreases k,
{
    if k == 0 {
        (primask, saved)
    } else {
        let s = cs_exit(primask, saved);
        cs_exit_n(s.0, s.1, (k - 1) as nat)
    }
}

proof fn lemma_cs_enter_n_shape(primask: u32, d: nat)
    ensures
        cs_enter_n(primask, Seq::empty(), d).1.len() == d,
        d >= 1 ==> cs_enter_n(primask, Seq::empty(), d).0 == 1u32,
        d >= 1 ==> cs_enter_n(primask, Seq::empty(), d).1[0] == primask,
        forall|i: int|
            1 <= i < d ==> #[trigger] cs_enter_n(primask, Seq::empty(), d).1[i] == 1u32,
    decreases d,
{
    if d >= 1 {
        lemma_cs_enter_n_shape(primask, (d - 1) as nat);
    }
}

proof fn lemma_cs_exit_n_unwind(primask: u32, saved: Seq<u32>, k: nat)
    requires
        1 <= k <= saved.len(),
    ensures
        cs_exit_n(primask, saved, k).0 == saved[saved.len() - k],
        cs_exit_n(primask, saved, k).1 == saved.take(saved.len() - k),
    decreases k,
{
    if k == 1 {
        assert(cs_exit_n(saved.last(), saved.drop_last(), 0) == (saved.last(), saved.drop_last()));
        assert(saved.drop_last() =~= saved.take(saved.len() - 1));
    } else {
        lemma_cs_exit_n_unwind(saved.last(), saved.drop_last(), (k - 1) as nat);
        assert(cs_exit_n(primask, saved, k).0 == saved.drop_last()[saved.len() - k]);
        assert(saved.drop_last().take(saved.len() - k) =~= saved.take(saved.len() - k));
    }
}

/// Nested critical sections compose: entering `d >= 1` windows from any
/// starting mask state and then leaving them in nesting order keeps
/// interrupts masked until the last exit — after `k < d` exits the
/// register still reads the masked value — and the `d`-th exit, and only
/// it, restores the true pre-outer-entry state, with no guard left.
pub proof fn lemma_nested_critical_sections(primask: u32, d: nat, k: nat)
    requires
        1 <= d,
        k <= d,
    ensures
        cs_enter_n(primask, Seq::empty(), d).0 == 1u32,
        1 <= k < d ==> cs_exit_n(
            cs_enter_n(primask, Seq::empty(), d).0,
            cs_enter_n(primask, Seq::empty(), d).1,
            k,
        ).0 == 1u32,
        k == d ==> cs_exit_n(
            cs_enter_n(primask, Seq::empty(), d).0,
            cs_enter_n(primask, Seq::empty(), d).1,
            k,
        ) == (primask, Seq::<u32>::empty()),
{
    lemma_cs_enter_n_shape(primask, d);
    let entered = cs_enter_n(primask, Seq::empty(), d);
    if 1 <= k {
        lemma_cs_exit_n_unwind(entered.0, entered.1, k);
        if k == d {
            assert(entered.1.take(0) =~= Seq::<u32>::empty());
        }
    }
}

/// A mutual-exclusion wrapper around a single owned value. Access goes
/// only through the guard returned by [`CriticalLock::lock`], which holds
/// a critical section for its whole lifetime: on this single core nothing
/// else — task or interrupt handler — can run while a guard is live, so
/// the guard's access is exclusive.
///
/// While a guard is live the lock itself holds nothing; `is_held()` is
/// how the contracts state that at most one guard exists per lock at a
/// time. Re-locking an already-held lock is the recursive self-locking
/// logic error the contracts rule out.
pub struct CriticalLock<T> {
    data: Option<T>,
}

/// Scoped exclusive access to the value of a [`CriticalLock`]. Carries
/// the value itself together with the critical section entered when the
/// lock was taken; [`CriticalLockGuard::unlock`] puts the value back and
/// restores the interrupt state captured on entry.
pub struct CriticalLockGuard<T> {
    item: T,
    crit_section: CriticalSection,
}

impl<T> CriticalLock<T> {
    /// True while a guard for this lock is live.
    pub closed spec fn is_held(self) -> bool {
        self.data is None
    }

    /// The value the lock protects (meaningful while no guard is live).
    pub closed spec fn value(self) -> T
        recommends
            !self.is_held(),
    {
        match self.data {
            Some(v) => v,
            None => arbitrary(),
        }
    }

    /// Takes ownership of `item`, producing an unheld lock around it.
    pub fn new(item: T) -> (lock: CriticalLock<T>)
        ensures
            !lock.is_held(),
            lock.value() == item,
    {
        CriticalLock { data: Some(item) }
    }

    /// Acquires the lock: enters a critical section and hands out the
    /// guard. Acquisition is immediate — on a single core no other
    /// context can be holding the lock at call time — so the only
    /// precondition is that this call site is not re-locking a lock it
    /// already holds.
    pub fn lock(&mut self, cpu: &mut Cpu) -> (guard: CriticalLockGuard<T>)
        requires
            !old(self).is_held(),
        ensures
            final(self).is_held(),
            guard.value() == old(self).value(),
            guard.saved_primask() == old(cpu).primask,
            final(cpu).interrupts_masked(),
            old(cpu).diag_led is Some ==> final(cpu).diag_led == Some(true),
            old(cpu).diag_led is None ==> final(cpu).diag_led is None,
    {
        let mut data: Option<T> = None;
        core::mem::swap(&mut data, &mut self.data);
        match data {
            Some(item) => CriticalLockGuard { item, crit_section: CriticalSection::new(cpu) },
            None => unreached(),
        }
    }
}

impl<T> CriticalLockGuard<T> {
    /// The value this guard gives exclusive access to.
    pub closed spec fn value(self) -> T {
        self.item
    }

    /// The interrupt mask state captured when the lock was acquired.
    pub closed spec fn saved_primask(self) -> u32 {
        self.crit_section.saved_primask()
    }

    /// Reads the protected value.
    pub fn get(&self) -> (r: &T)
        ensures
            *r == self.value(),
    {
        &self.item
    }

    /// Exclusive read-write access to the protected value; the guard's
    /// value afterwards is whatever the caller left behind the returned
    /// reference.
    pub fn get_mut(&mut self) -> (r: &mut T)
        ensures
            *r == old(self).value(),
            final(self).value() == *final(r),
            final(self).saved_primask() == old(self).saved_primask(),
    {
        &mut self.item
    }

    /// Overwrites the protected value.
    pub fn set(&mut self, item: T)
        ensures
            final(self).value() == item,
            final(self).saved_primask() == old(self).saved_primask(),
    {
        self.item = item;
    }

    /// Releases the lock: stores the guard's value back into `lock` and
    /// leaves the critical section, restoring the interrupt state
    /// captured at acquisition. The next guard for `lock` will read
    /// exactly the value this guard last held.
    pub fn unlock(self, lock: &mut CriticalLock<T>, cpu: &mut Cpu)
        requires
            old(lock).is_held(),
        ensures
            !final(lock).is_held(),
            final(lock).value() == self.value(),
            final(cpu).primask == self.saved_primask(),
            old(cpu).diag_led is Some ==> final(cpu).diag_led == Some(false),
            old(cpu).diag_led is None ==> final(cpu).diag_led is None,
    {
        let CriticalLockGuard { item, crit_section } = self;
        lock.data = Some(item);
        crit_section.exit(cpu);
    }
}

/// What one guard lifetime leaves in the lock, on the abstract state the
/// exec contracts describe: the guard starts out reading `value` (as
/// [`CriticalLock::lock`] promises), each write through it overwrites
/// that (as [`CriticalLockGuard::set`] and
/// [`CriticalLockGuard::get_mut`] promise), and
/// [`CriticalLockGuard::unlock`] stores whatever it last held.
pub open spec fn lock_round<T>(value: T, writes: Seq<T>) -> T {
    if writes.len() == 0 {
        value
    } else {
        writes.last()
    }
}

/// The lock's value after a history of completed guard lifetimes, each
/// round writing its values in order. Rounds cannot overlap:
/// [`CriticalLock::lock`] refuses a lock whose guard is still live, so
/// the history of a lock is always such a sequence of rounds.
pub open spec fn lock_history<T>(initial: T, rounds: Seq<Seq<T>>) -> T
    decreases rounds.len(),
{
    if rounds.len() == 0 {
        initial
    } else {
        lock_round(lock_history(initial, rounds.drop_last()), rounds.last())
    }
}

/// A guard taken after any history of guard lifetimes reads exactly the
/// last value written through any previous guard — or, when no previous
/// guard ever wrote, the value the lock was constructed with.
pub proof fn lemma_guard_reads_last_write<T>(initial: T, rounds: Seq<Seq<T>>)
    ensures
        rounds.len() == 0 ==> lock_history(initial, rounds) == initial,
        rounds.len() > 0 && rounds.last().len() > 0 ==> lock_history(initial, rounds)
            == rounds.last().last(),
        rounds.len() > 0 && rounds.last().len() == 0 ==> lock_history(initial, rounds)
            == lock_history(initial, rounds.drop_last()),
        forall|i: int|
            0 <= i < rounds.len() && (forall|j: int| i < j < rounds.len() ==> rounds[j].len() == 0)
                && rounds[i].len() > 0 ==> lock_history(initial, rounds) == rounds[i].last(),
    decreases rounds.len(),
{
    if rounds.len() > 0 {
        lemma_guard_reads_last_write(initial, rounds.drop_last());
        assert forall|i: int|
            0 <= i < rounds.len() && (forall|j: int| i < j < rounds.len() ==> rounds[j].len() == 0)
                && rounds[i].len() > 0 implies lock_history(initial, rounds)
            == rounds[i].last() by {
            if i < rounds.len() - 1 {
                assert forall|j: int|
                    i < j < rounds.len() - 1 implies rounds.drop_last()[j].len() == 0 by {
                    assert(rounds[j].len() == 0);
                }
                assert(rounds.drop_last()[i] == rounds[i]);
            }
        }
    }
}

} // verus!
