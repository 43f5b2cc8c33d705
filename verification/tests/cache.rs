use isosurface_simplex::cache::{CoordMap, EvaluationCache};
use isosurface_simplex::partition::PartitionCoord;

fn coord_at(path: &[usize]) -> PartitionCoord<3> {
    let mut coord = PartitionCoord::<3>::default();
    for index in path {
        coord = coord.child_coord(*index);
    }
    coord
}

#[test]
fn table_keeps_what_was_stored_first() {
    let mut table = CoordMap::<i64>::new();
    assert_eq!(table.len(), 0);
    assert_eq!(table.get(&coord_at(&[1])), None);
    assert_eq!(table.get_or_insert(&coord_at(&[1]), 10), 10);
    assert_eq!(table.get_or_insert(&coord_at(&[1]), 11), 10);
    assert_eq!(table.get(&coord_at(&[1])), Some(10));
    assert_eq!(table.len(), 1);
}

#[test]
fn table_finds_every_key() {
    let mut table = CoordMap::<usize>::new();
    let mut keys = Vec::new();
    for a in 0..8 {
        for b in 0..8 {
            keys.push(coord_at(&[(a * 3) % 8, (b * 5) % 8]));
        }
    }
    for (n, key) in keys.iter().enumerate() {
        assert_eq!(table.get_or_insert(key, n), n);
    }
    assert_eq!(table.len(), 64);
    for (n, key) in keys.iter().enumerate() {
        assert_eq!(table.get(key), Some(n));
    }
    assert_eq!(table.get(&coord_at(&[0])), None);
    assert_eq!(table.get(&coord_at(&[0, 0, 0])), None);
}

#[test]
fn cache_computes_each_value_once() {
    let mut cache = EvaluationCache::<f64, [f64; 3]>::new();
    let mut calls = 0;
    let at = coord_at(&[2, 3]);
    let first = cache.eval(&at, || {
        calls += 1;
        1.25
    });
    let second = cache.eval(&at, || {
        calls += 1;
        9.0
    });
    assert_eq!(first, 1.25);
    assert_eq!(second, 1.25);
    assert_eq!(calls, 1);
    let grad = cache.eval_grad(&at, || [1.0, 2.0, 3.0]);
    assert_eq!(grad, [1.0, 2.0, 3.0]);
    assert_eq!(cache.eval_grad(&at, || [0.0, 0.0, 0.0]), [1.0, 2.0, 3.0]);
    assert_eq!(cache.eval(&coord_at(&[2]), || 4.0), 4.0);
    assert_eq!(cache.func_vals.len(), 2);
    assert_eq!(cache.grad_vals.len(), 1);
}

#[test]
fn cloned_cache_shares_nothing() {
    let mut cache = EvaluationCache::<f64, [f64; 3]>::new();
    cache.eval(&coord_at(&[1]), || 1.0);
    let mut copy = cache.clone();
    assert_eq!(copy.eval(&coord_at(&[1]), || 5.0), 1.0);
    assert_eq!(copy.eval(&coord_at(&[2]), || 2.0), 2.0);
    assert_eq!(copy.func_vals.len(), 2);
    assert_eq!(cache.func_vals.len(), 1);
    assert_eq!(cache.eval(&coord_at(&[2]), || 7.0), 7.0);
}
