use mouros::tasks::{CriticalLock, CriticalSection, Cpu};

#[test]
fn scenario_nested_critical_sections() {
    let mut cpu = Cpu::new(0);
    let outer = CriticalSection::new(&mut cpu);
    assert_eq!(cpu.primask, 1);
    let inner = CriticalSection::new(&mut cpu);
    assert_eq!(cpu.primask, 1);
    inner.exit(&mut cpu);
    assert_eq!(cpu.primask, 1, "interrupts were unmasked by the inner exit");
    outer.exit(&mut cpu);
    assert_eq!(cpu.primask, 0, "the outer exit did not restore the original state");
}

#[test]
fn deep_nesting_restores_only_after_last_exit() {
    let mut cpu = Cpu::new(0xdead_0001);
    let mut guards = Vec::new();
    for _ in 0..5 {
        guards.push(CriticalSection::new(&mut cpu));
        assert_eq!(cpu.primask, 1);
    }
    while let Some(guard) = guards.pop() {
        guard.exit(&mut cpu);
        if guards.is_empty() {
            assert_eq!(cpu.primask, 0xdead_0001);
        } else {
            assert_eq!(cpu.primask, 1, "interrupts came back before the last exit");
        }
    }
}

#[test]
fn diag_hook_tracks_entry_and_exit() {
    let mut cpu = Cpu::new(7);
    // With no hook installed, entry and exit leave the signal absent.
    let cs = CriticalSection::new(&mut cpu);
    assert_eq!(cpu.diag_led, None);
    cs.exit(&mut cpu);
    assert_eq!(cpu.diag_led, None);

    cpu.install_diag_led();
    assert_eq!(cpu.diag_led, Some(false));
    let cs = CriticalSection::new(&mut cpu);
    assert_eq!(cpu.diag_led, Some(true), "entry did not drive the signal high");
    cs.exit(&mut cpu);
    assert_eq!(cpu.diag_led, Some(false), "exit did not drive the signal low");
    assert_eq!(cpu.primask, 7);
}

#[test]
fn lock_guard_reflects_last_write() {
    let mut cpu = Cpu::new(0);
    let mut lock = CriticalLock::new(5u32);

    let guard = lock.lock(&mut cpu);
    assert_eq!(cpu.primask, 1, "locking did not mask interrupts");
    assert_eq!(*guard.get(), 5);
    let mut guard = guard;
    guard.set(9);
    assert_eq!(*guard.get(), 9);
    guard.unlock(&mut lock, &mut cpu);
    assert_eq!(cpu.primask, 0, "unlocking did not restore interrupts");

    let mut guard = lock.lock(&mut cpu);
    assert_eq!(*guard.get(), 9, "the value written through the previous guard was lost");
    *guard.get_mut() += 1;
    guard.unlock(&mut lock, &mut cpu);

    let guard = lock.lock(&mut cpu);
    assert_eq!(*guard.get(), 10);
    guard.unlock(&mut lock, &mut cpu);
    assert_eq!(cpu.primask, 0);
}

#[test]
fn lock_masks_interrupts_for_exactly_the_guards_lifetime() {
    let mut cpu = Cpu::new(0xff);
    let mut lock = CriticalLock::new(vec![1u8, 2, 3]);
    let guard = lock.lock(&mut cpu);
    assert_eq!(cpu.primask, 1);
    assert_eq!(guard.get().len(), 3);
    guard.unlock(&mut lock, &mut cpu);
    assert_eq!(cpu.primask, 0xff);
}
