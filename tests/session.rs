use multilock::{multilock, Builder, RawLock, SessionIds};
use std::cell::{Cell, RefCell};

/// A lock for tests: it records every acquire and release in a shared log.
struct TestLock<'a> {
    id: usize,
    locked: Cell<bool>,
    log: &'a RefCell<Vec<(char, usize)>>,
}

impl<'a> TestLock<'a> {
    fn new(id: usize, log: &'a RefCell<Vec<(char, usize)>>) -> Self {
        TestLock { id, locked: Cell::new(false), log }
    }

    fn is_locked(&self) -> bool {
        self.locked.get()
    }
}

#[derive(Clone, Copy)]
struct Lk<'l, 'a>(&'l TestLock<'a>);

impl<'l, 'a> RawLock for Lk<'l, 'a> {
    fn id_of(&self) -> usize {
        self.0.id
    }

    fn is_held(&self) -> bool {
        self.0.locked.get()
    }

    fn identity(&self) -> usize {
        self.0.id
    }

    fn acquire(&mut self) {
        assert!(!self.0.locked.get());
        self.0.locked.set(true);
        self.0.log.borrow_mut().push(('a', self.0.id));
    }

    fn release(&mut self) {
        assert!(self.0.locked.get());
        self.0.locked.set(false);
        self.0.log.borrow_mut().push(('r', self.0.id));
    }
}

/// Data behind a test lock; read and written only while the lock is held.
struct TestMutex<'a, T> {
    lock: TestLock<'a>,
    data: RefCell<T>,
}

impl<'a, T: Clone> TestMutex<'a, T> {
    fn new(id: usize, log: &'a RefCell<Vec<(char, usize)>>, value: T) -> Self {
        TestMutex { lock: TestLock::new(id, log), data: RefCell::new(value) }
    }

    fn read(&self, held: &Lk) -> T {
        assert!(std::ptr::eq(held.0, &self.lock));
        assert!(self.lock.is_locked());
        self.data.borrow().clone()
    }

    fn write(&self, held: &Lk, value: T) {
        assert!(std::ptr::eq(held.0, &self.lock));
        assert!(self.lock.is_locked());
        *self.data.borrow_mut() = value;
    }

    fn into_inner(self) -> T {
        self.data.into_inner()
    }
}

fn acquired(log: &RefCell<Vec<(char, usize)>>) -> Vec<usize> {
    log.borrow().iter().filter(|e| e.0 == 'a').map(|e| e.1).collect()
}

fn released(log: &RefCell<Vec<(char, usize)>>) -> Vec<usize> {
    log.borrow().iter().filter(|e| e.0 == 'r').map(|e| e.1).collect()
}

#[test]
fn test_mutex() {
    let mut ids = SessionIds::new();
    let log = RefCell::new(Vec::new());
    let m1 = TestMutex::new(200, &log, 5);
    let m2 = TestMutex::new(100, &log, "cheese");

    multilock(&mut ids, |mut builder: Builder<Lk>| {
        let m1_token = builder.add(Lk(&m1.lock)).unwrap();
        let m2_token = builder.add(Lk(&m2.lock)).unwrap();

        assert!(!m1.lock.is_locked());
        assert!(!m2.lock.is_locked());

        let mut locker = builder.finish();

        assert!(m1.lock.is_locked());
        assert!(m2.lock.is_locked());
        assert_eq!(m1.read(m1_token.get(&locker)), 5);
        assert_eq!(m2.read(m2_token.get(&locker)), "cheese");

        m1.write(m1_token.get(&locker), 10);
        m2.write(m2_token.get(&locker), "pies");

        locker.release();

        assert!(!m1.lock.is_locked());
        assert!(!m2.lock.is_locked());
    });

    assert!(!m1.lock.is_locked());
    assert!(!m2.lock.is_locked());

    assert_eq!(m1.into_inner(), 10);
    assert_eq!(m2.into_inner(), "pies");
}

#[test]
fn acquires_in_ascending_identity_order() {
    let mut ids = SessionIds::new();
    let log = RefCell::new(Vec::new());
    let a = TestLock::new(30, &log);
    let b = TestLock::new(10, &log);
    let c = TestLock::new(20, &log);
    let d = TestLock::new(5, &log);
    let e = TestLock::new(40, &log);
    multilock(&mut ids, |mut builder: Builder<Lk>| {
        builder.add(Lk(&a)).unwrap();
        builder.add(Lk(&b)).unwrap();
        builder.add(Lk(&c)).unwrap();
        builder.add(Lk(&d)).unwrap();
        builder.add(Lk(&e)).unwrap();
        assert_eq!(builder.len(), 5);
        assert!(log.borrow().is_empty());
        let mut locker = builder.finish();
        assert_eq!(acquired(&log), vec![5, 10, 20, 30, 40]);
        locker.release();
    });
}

#[test]
fn registration_order_does_not_change_acquisition_order() {
    let mut ids = SessionIds::new();
    let log1 = RefCell::new(Vec::new());
    let x1 = TestLock::new(3, &log1);
    let y1 = TestLock::new(1, &log1);
    let z1 = TestLock::new(2, &log1);
    multilock(&mut ids, |mut builder: Builder<Lk>| {
        builder.add(Lk(&x1)).unwrap();
        builder.add(Lk(&y1)).unwrap();
        builder.add(Lk(&z1)).unwrap();
        let mut locker = builder.finish();
        locker.release();
    });
    let log2 = RefCell::new(Vec::new());
    let x2 = TestLock::new(3, &log2);
    let y2 = TestLock::new(1, &log2);
    let z2 = TestLock::new(2, &log2);
    multilock(&mut ids, |mut builder: Builder<Lk>| {
        builder.add(Lk(&z2)).unwrap();
        builder.add(Lk(&x2)).unwrap();
        builder.add(Lk(&y2)).unwrap();
        let mut locker = builder.finish();
        locker.release();
    });
    assert_eq!(acquired(&log1), vec![1, 2, 3]);
    assert_eq!(acquired(&log2), vec![1, 2, 3]);
}

#[test]
fn overlapping_sessions_take_shared_locks_in_the_same_order() {
    let mut ids = SessionIds::new();
    // One session locks {x, y}, registering y first; the other locks {y, z},
    // registering z first. Both take y after x and before z.
    let log = RefCell::new(Vec::new());
    let x = TestLock::new(11, &log);
    let y = TestLock::new(22, &log);
    let z = TestLock::new(33, &log);
    multilock(&mut ids, |mut builder: Builder<Lk>| {
        builder.add(Lk(&y)).unwrap();
        builder.add(Lk(&x)).unwrap();
        let mut locker = builder.finish();
        locker.release();
    });
    multilock(&mut ids, |mut builder: Builder<Lk>| {
        builder.add(Lk(&z)).unwrap();
        builder.add(Lk(&y)).unwrap();
        let mut locker = builder.finish();
        locker.release();
    });
    assert_eq!(acquired(&log), vec![11, 22, 22, 33]);
}

#[test]
fn token_of_another_session_is_refused() {
    let mut ids = SessionIds::new();
    let log = RefCell::new(Vec::new());
    let m = TestLock::new(1, &log);
    let foreign = multilock(&mut ids, |mut builder: Builder<Lk>| builder.add(Lk(&m)).unwrap());
    multilock(&mut ids, |mut builder: Builder<Lk>| {
        let own = builder.add(Lk(&m)).unwrap();
        let mut locker = builder.finish();
        assert!(own.belongs_to(&locker));
        assert!(!foreign.belongs_to(&locker));
        locker.release();
        assert!(!own.belongs_to(&locker));
    });
}

#[test]
fn lock_states_follow_the_session() {
    let mut ids = SessionIds::new();
    let log = RefCell::new(Vec::new());
    let a = TestLock::new(2, &log);
    let b = TestLock::new(1, &log);
    multilock(&mut ids, |mut builder: Builder<Lk>| {
        builder.add(Lk(&a)).unwrap();
        builder.add(Lk(&b)).unwrap();
        assert!(!a.is_locked() && !b.is_locked());
        let mut locker = builder.finish();
        assert!(locker.holds());
        assert!(a.is_locked() && b.is_locked());
        locker.release();
        assert!(!locker.holds());
        assert!(!a.is_locked() && !b.is_locked());
    });
}

#[test]
fn each_lock_is_released_exactly_once() {
    let mut ids = SessionIds::new();
    let log = RefCell::new(Vec::new());
    let a = TestLock::new(8, &log);
    let b = TestLock::new(4, &log);
    let c = TestLock::new(6, &log);
    multilock(&mut ids, |mut builder: Builder<Lk>| {
        builder.add(Lk(&a)).unwrap();
        builder.add(Lk(&b)).unwrap();
        builder.add(Lk(&c)).unwrap();
        let mut locker = builder.finish();
        locker.release();
        locker.release();
    });
    let mut r = released(&log);
    r.sort();
    assert_eq!(r, vec![4, 6, 8]);
    assert_eq!(log.borrow().len(), 6);
}

#[test]
fn empty_session_locks_nothing() {
    let mut ids = SessionIds::new();
    let log: RefCell<Vec<(char, usize)>> = RefCell::new(Vec::new());
    let out = multilock(&mut ids, |builder: Builder<Lk>| {
        assert_eq!(builder.len(), 0);
        let mut locker = builder.finish();
        assert!(locker.holds());
        locker.release();
        42
    });
    assert_eq!(out, 42);
    assert!(log.borrow().is_empty());
}

#[test]
fn more_locks_than_inline_capacity() {
    let mut ids = SessionIds::new();
    let log = RefCell::new(Vec::new());
    let locks: Vec<TestLock> = (0..9).map(|i| TestLock::new(((i * 7) % 9) + 100, &log)).collect();
    multilock(&mut ids, |mut builder: Builder<Lk>| {
        for l in &locks {
            builder.add(Lk(l)).unwrap();
        }
        assert_eq!(builder.len(), 9);
        let mut locker = builder.finish();
        assert_eq!(acquired(&log), (100..109).collect::<Vec<usize>>());
        assert!(locks.iter().all(|l| l.is_locked()));
        locker.release();
        assert!(locks.iter().all(|l| !l.is_locked()));
    });
}

#[test]
fn tokens_reach_their_own_lock() {
    let mut ids = SessionIds::new();
    let log = RefCell::new(Vec::new());
    let a = TestLock::new(50, &log);
    let b = TestLock::new(40, &log);
    multilock(&mut ids, |mut builder: Builder<Lk>| {
        let ta = builder.add(Lk(&a)).unwrap();
        let tb = builder.add(Lk(&b)).unwrap();
        let mut locker = builder.finish();
        assert_eq!(ta.get(&locker).identity(), 50);
        assert_eq!(tb.get(&locker).identity(), 40);
        locker.release();
    });
}

#[test]
fn repeated_registration_is_refused() {
    let log = RefCell::new(Vec::new());
    let a = TestLock::new(12, &log);
    let b = TestLock::new(13, &log);
    let mut ids = SessionIds::new();
    multilock(&mut ids, |mut builder: Builder<Lk>| {
        assert!(builder.add(Lk(&a)).is_some());
        assert!(builder.add(Lk(&b)).is_some());
        assert!(builder.add(Lk(&a)).is_none());
        assert_eq!(builder.len(), 2);
        let mut locker = builder.finish();
        assert_eq!(acquired(&log), vec![12, 13]);
        locker.release();
    });
}

#[test]
fn session_ids_are_fresh() {
    let mut ids = SessionIds::new();
    let a = ids.issue();
    let b = ids.issue();
    let c = ids.issue();
    assert!(a.is_some() && b.is_some() && c.is_some());
    assert_ne!(a, b);
    assert_ne!(b, c);
    assert_ne!(a, c);
}
