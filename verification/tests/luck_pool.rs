use match3::luck::chances::chances;
use match3::luck::pool::{PoolWeight, RandomPool};
use match3::luck::LuckState;

#[test]
fn pool_get_returns_an_item_of_the_pool() {
    let mut luck = LuckState::new(7);
    let pool = RandomPool::equal(vec!['a', 'b', 'c']);
    for _ in 0..50 {
        let item = *pool.get(&mut luck);
        assert!(item == 'a' || item == 'b' || item == 'c');
    }
}

#[test]
fn pool_get_never_picks_zero_weight() {
    let mut luck = LuckState::new(11);
    let pool = RandomPool::new(vec!['a', 'b', 'c'], vec![0, 5, 0]);
    for _ in 0..50 {
        assert_eq!(*pool.get(&mut luck), 'b');
    }
}

#[test]
fn pool_from_weights_keeps_order() {
    let mut luck = LuckState::new(3);
    let pool = RandomPool::from_weights(vec![(0u64, 'x'), (4u64, 'y')]);
    for _ in 0..20 {
        assert_eq!(*pool.get(&mut luck), 'y');
    }
}

#[test]
fn into_weight_is_the_weight() {
    assert_eq!(9u64.into_weight(), 9);
}

#[test]
fn chances_lands_on_a_positive_weight() {
    let mut luck = LuckState::new(42);
    let weights = vec![0u64, 3, 0, 7, 0];
    for _ in 0..100 {
        let i = chances(&mut luck, &weights, None);
        assert!(weights[i] > 0);
    }
    for _ in 0..100 {
        let i = chances(&mut luck, &weights, Some(10));
        assert!(weights[i] > 0);
    }
    // A sum below the total restricts the draw to the weights' prefix.
    for _ in 0..100 {
        let i = chances(&mut luck, &weights, Some(3));
        assert_eq!(i, 1);
    }
}

#[test]
fn same_seed_same_draws() {
    let pool = RandomPool::equal(vec![1u32, 2, 3, 4, 5, 6, 7, 8]);
    let mut a = LuckState::new(123);
    let mut b = LuckState::new(123);
    for _ in 0..30 {
        assert_eq!(pool.get(&mut a), pool.get(&mut b));
    }
}

#[test]
fn new_seed_is_usable() {
    let seed = LuckState::new_seed();
    let mut luck = LuckState::new(seed);
    let pool = RandomPool::equal(vec![0u8, 1]);
    let v = *pool.get(&mut luck);
    assert!(v == 0 || v == 1);
}
