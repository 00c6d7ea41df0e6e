//! Interrupt-safe spinlock.
//!
//! A plain spinlock deadlocks on a single core if an interrupt handler tries to take
//! a lock that the interrupted code already holds. `IrqMutex` avoids that: interrupts
//! are off for as long as the lock is held, and the previous state (not blindly "on")
//! comes back when the guard is released.
//!
//! Guards are released in reverse order of acquisition. `try_lock` is for crash
//! paths, where waiting for a lock that the faulting code may hold would hang the
//! machine.

use vstd::prelude::*;

verus! {

/// The lock of the `spin` crate. What it guards, and whether it is held, is not part
/// of its value: both change behind shared references.
#[verifier::external_type_specification]
#[verifier::external_body]
#[verifier::reject_recursive_types(T)]
#[verifier::reject_recursive_types(R)]
pub struct ExSpinMutex<T: ?Sized, R>(spin::mutex::SpinMutex<T, R>);

/// How the `spin` crate's lock waits.
#[verifier::external_type_specification]
#[verifier::external_body]
pub struct ExSpin(spin::relax::Spin);

/// The guard of the `spin` crate's lock.
#[verifier::external_type_specification]
#[verifier::external_body]
#[verifier::reject_recursive_types(T)]
pub struct ExSpinMutexGuard<'a, T: ?Sized>(spin::mutex::SpinMutexGuard<'a, T>);

/// Whether the processor takes interrupts.
#[derive(Clone, Copy, Debug, PartialEq, Eq, Structural)]
pub struct Interrupts {
    pub enabled: bool,
}

/// The interrupt flag among the processor's flags.
pub fn irq_flag(flags: u64) -> (r: Interrupts)
    ensures
        r.enabled == (flags / 0x200 % 2 == 1),
{
    Interrupts { enabled: flags / 0x200 % 2 == 1 }
}

/// Turn interrupts off, and say whether they were on.
pub fn irq_save(irq: &mut Interrupts) -> (was_enabled: bool)
    ensures
        was_enabled == old(irq).enabled,
        !final(irq).enabled,
{
    let was_enabled: bool = irq.enabled;
    irq.enabled = false;
    was_enabled
}

/// Turn interrupts on again, but only if they were.
pub fn irq_restore(irq: &mut Interrupts, was_enabled: bool)
    ensures
        final(irq).enabled == (old(irq).enabled || was_enabled),
{
    if was_enabled {
        irq.enabled = true;
    }
}

/// A lock that keeps interrupts off while it is held.
#[verifier::reject_recursive_types(T)]
pub struct IrqMutex<T> {
    inner: spin::mutex::SpinMutex<T>,
}

#[verifier::reject_recursive_types(T)]
pub struct IrqMutexGuard<'a, T> {
    guard: spin::mutex::SpinMutexGuard<'a, T>,
    irq_was_enabled: bool,
}

/// `spin::mutex::SpinMutex::new`: a lock that is free. Of what it guards nothing is stated.
#[verifier::external_body]
fn new_mutex<T>(value: T) -> spin::mutex::SpinMutex<T> {
    spin::mutex::SpinMutex::new(value)
}

/// `spin::mutex::SpinMutex::lock`: waits until the lock is free, and takes it. How long that is,
/// and what the lock then guards, rests with its other holders and is not stated.
#[verifier::external_body]
fn take<T>(m: &spin::mutex::SpinMutex<T>) -> spin::mutex::SpinMutexGuard<'_, T> {
    m.lock()
}

/// `spin::mutex::SpinMutex::try_lock`: takes the lock if it is free. Whether it is rests with its
/// other holders and is not stated.
#[verifier::external_body]
fn try_take<T>(m: &spin::mutex::SpinMutex<T>) -> Option<spin::mutex::SpinMutexGuard<'_, T>> {
    m.try_lock()
}

/// Dropping a `spin::mutex::SpinMutexGuard`: the lock is free again.
#[verifier::external_body]
fn give_back<T>(guard: spin::mutex::SpinMutexGuard<'_, T>) {
    drop(guard)
}

/// `spin::mutex::SpinMutexGuard::deref`: what the lock guards.
#[verifier::external_body]
fn guarded<'b, T>(guard: &'b spin::mutex::SpinMutexGuard<'_, T>) -> &'b T {
    &**guard
}

/// `spin::mutex::SpinMutexGuard::deref_mut`: what the lock guards, to change it.
#[verifier::external_body]
fn guarded_mut<'b, T>(guard: &'b mut spin::mutex::SpinMutexGuard<'_, T>) -> &'b mut T {
    &mut **guard
}

impl<T> IrqMutex<T> {
    /// A lock that is free. Nothing is stated of what it guards: that changes behind
    /// shared references.
    pub fn new(value: T) -> Self {
        IrqMutex { inner: new_mutex(value) }
    }

    /// Turn interrupts off and take the lock, waiting for it where it is held.
    pub fn lock(&self, irq: &mut Interrupts) -> (r: IrqMutexGuard<'_, T>)
        ensures
            !final(irq).enabled,
            r.was_enabled() == old(irq).enabled,
    {
        let irq_was_enabled: bool = irq_save(irq);
        IrqMutexGuard { guard: take(&self.inner), irq_was_enabled }
    }

    /// Take the lock if it is free; otherwise the interrupt state is left exactly as
    /// it was.
    pub fn try_lock(&self, irq: &mut Interrupts) -> (r: Option<IrqMutexGuard<'_, T>>)
        ensures
            match r {
                Some(g) => !final(irq).enabled && g.was_enabled() == old(irq).enabled,
                None => *final(irq) == *old(irq),
            },
    {
        let irq_was_enabled: bool = irq_save(irq);
        match try_take(&self.inner) {
            Some(guard) => Some(IrqMutexGuard { guard, irq_was_enabled }),
            None => {
                irq_restore(irq, irq_was_enabled);
                None
            },
        }
    }
}

impl<'a, T> IrqMutexGuard<'a, T> {
    /// Whether interrupts were on when the lock was taken.
    pub closed spec fn was_enabled(self) -> bool {
        self.irq_was_enabled
    }

    pub fn get(&self) -> &T {
        guarded(&self.guard)
    }

    pub fn get_mut(&mut self) -> (r: &mut T)
        ensures
            final(self).was_enabled() == old(self).was_enabled(),
    {
        guarded_mut(&mut self.guard)
    }

    /// Release the lock first, and restore interrupts then.
    pub fn release(self, irq: &mut Interrupts)
        ensures
            final(irq).enabled == (old(irq).enabled || self.was_enabled()),
    {
        give_back(self.guard);
        irq_restore(irq, self.irq_was_enabled);
    }
}

/// Locks that are released in reverse order of acquisition keep interrupts off until
/// the last is released, and then leave them as they were before the first was
/// taken. Each step is what `lock` and `release` promise of it.
pub proof fn law_nested_locks_restore_interrupts(
    start: Interrupts,
    outer_held: Interrupts,
    both_held: Interrupts,
    inner_released: Interrupts,
    end: Interrupts,
    outer_was: bool,
    inner_was: bool,
)
    requires
        !outer_held.enabled && outer_was == start.enabled,
        !both_held.enabled && inner_was == outer_held.enabled,
        inner_released.enabled == (both_held.enabled || inner_was),
        end.enabled == (inner_released.enabled || outer_was),
    ensures
        !inner_released.enabled,
        end == start,
{
}

} // verus!
