use frame_graph::state_pool::SystemStatePoolImpl;
use std::any::{Any, TypeId};

struct A {
    a: i32,
    b: f32,
}

type Pool = SystemStatePoolImpl<Box<dyn Any + Send + Sync>>;

fn take<T: 'static>(pool: &mut Pool) -> Option<T> {
    pool.get(TypeId::of::<T>()).and_then(|b| b.downcast::<T>().ok()).map(|b| *b)
}

#[test]
fn test_system_state_pool() {
    let mut pool: Pool = SystemStatePoolImpl::new();

    let state = take::<A>(&mut pool);
    assert!(state.is_none());

    pool.set(TypeId::of::<A>(), Box::new(A { a: 1, b: 2.0 }));

    let state = take::<i32>(&mut pool);
    assert!(state.is_none());

    let state = take::<A>(&mut pool);
    assert!(state.is_some());

    let a = state.unwrap();
    assert_eq!(a.a, 1);
    assert_eq!(a.b, 2.0);

    let state = take::<A>(&mut pool);
    assert!(state.is_none());
}

#[test]
fn pool_returns_most_recent_state_first() {
    let mut pool: SystemStatePoolImpl<u32> = SystemStatePoolImpl::new();
    let k = TypeId::of::<u32>();
    pool.set(k, 1);
    pool.set(k, 2);
    pool.set(TypeId::of::<u8>(), 9);
    assert_eq!(pool.get(k), Some(2));
    assert_eq!(pool.get(k), Some(1));
    assert_eq!(pool.get(k), None);
    assert_eq!(pool.get(TypeId::of::<u8>()), Some(9));
}
