use starglyph::pool::EnginePool;

#[test]
fn checkout_is_refused_at_capacity_and_resumes_on_checkin() {
    let mut pool: EnginePool<&str> = EnginePool::new();
    assert!(pool.try_checkout().is_none());
    pool.install("a");
    pool.install("b");
    assert_eq!(pool.available_permits(), 2);
    let (p1, e1) = pool.try_checkout().expect("first");
    let (p2, e2) = pool.try_checkout().expect("second");
    assert_eq!(pool.available_permits(), 0);
    assert!(pool.try_checkout().is_none());
    pool.checkin(p1, e1);
    let (p3, e3) = pool.try_checkout().expect("after checkin");
    assert_eq!(e3, e1);
    pool.checkin(p2, e2);
    pool.checkin(p3, "replacement");
    assert_eq!(pool.available_permits(), 2);
}

#[test]
fn empty_pool_refuses_until_first_install() {
    let mut pool: EnginePool<u32> = EnginePool::new();
    assert!(pool.try_checkout().is_none());
    pool.install(7);
    assert_eq!(pool.try_checkout().map(|(_, e)| e), Some(7));
}

#[test]
fn checkouts_succeed_while_fewer_engines_are_out_than_installed() {
    let mut pool: EnginePool<u8> = EnginePool::new();
    for e in 0..3u8 {
        pool.install(e);
    }
    let mut out = Vec::new();
    while let Some(taken) = pool.try_checkout() {
        out.push(taken);
    }
    assert_eq!(out.len(), 3);
    let (p, e) = out.pop().expect("one out");
    pool.checkin(p, e);
    assert_eq!(pool.available_permits(), 1);
    assert!(pool.try_checkout().is_some());
    assert!(pool.try_checkout().is_none());
}
