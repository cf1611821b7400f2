//! The debounced persistence scheduler.

use memory_pak::SaveScheduler;
use memory_pak::StateKind;

fn flush_count(flushed: &memory_pak::KindSet) -> usize {
    let mut n: usize = 0;
    if flushed.consoles {
        n += 1;
    }
    if flushed.games {
        n += 1;
    }
    if flushed.lego {
        n += 1;
    }
    if flushed.skylanders {
        n += 1;
    }
    n
}

#[test]
fn two_mutations_within_window_flush_once() {
    let mut s = SaveScheduler::new();
    // Two mutations 100ms apart, with a frame tick after each.
    s.mark_dirty(StateKind::Games);
    let mut flushes: usize = 0;
    // The first flush is immediate: nothing was ever flushed before.
    if s.tick(1000).any() {
        flushes += 1;
    }
    s.mark_dirty(StateKind::Games);
    s.mark_dirty(StateKind::Consoles);
    // Frame ticks inside the 500ms window do nothing.
    for t in [1100u64, 1200, 1300, 1400] {
        if s.tick(t).any() {
            flushes += 1;
        }
    }
    assert_eq!(flushes, 1);
    // Once the window has elapsed, both pending kinds go out in one flush.
    let flushed = s.tick(1500);
    assert!(flushed.any());
    assert_eq!(flush_count(&flushed), 2);
    assert!(flushed.games && flushed.consoles);
}

#[test]
fn burst_of_mutations_is_one_flush() {
    let mut s = SaveScheduler::new();
    s.mark_dirty(StateKind::Games);
    s.mark_dirty(StateKind::Consoles);
    let flushed = s.tick(1000);
    assert_eq!(flush_count(&flushed), 2);
    // Nothing is pending any more, so later ticks flush nothing.
    assert!(!s.tick(2000).any());
}

#[test]
fn mutations_600ms_apart_flush_twice() {
    let mut s = SaveScheduler::new();
    let mut flushes: usize = 0;
    s.mark_dirty(StateKind::Games);
    if s.tick(1000).any() {
        flushes += 1;
    }
    s.mark_dirty(StateKind::Games);
    if s.tick(1600).any() {
        flushes += 1;
    }
    assert_eq!(flushes, 2);
}

#[test]
fn tick_without_pending_changes_nothing() {
    let mut s = SaveScheduler::new();
    assert!(!s.tick(1000).any());
    assert!(!s.tick(2000).any());
}

#[test]
fn flush_now_bypasses_debounce() {
    let mut s = SaveScheduler::new();
    s.mark_dirty(StateKind::Games);
    assert!(s.tick(1000).any());
    // Import immediately after a flush: the window has not elapsed, but an
    // immediate flush covers the imported kinds anyway.
    let extra = memory_pak::KindSet {
        consoles: true,
        games: true,
        lego: true,
        skylanders: true,
    };
    let flushed = s.flush_now(1001, extra);
    assert_eq!(flush_count(&flushed), 4);
    // And the debounce window restarts from the immediate flush.
    s.mark_dirty(StateKind::LegoDimensions);
    assert!(!s.tick(1400).any());
    assert!(s.tick(1501).any());
}
