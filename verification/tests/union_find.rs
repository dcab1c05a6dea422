use mst_estimate::kruskals::UnionFind;

#[test]
fn singletons_have_distinct_representatives() {
    let mut uf = UnionFind::new(5);
    for i in 0..5u32 {
        assert_eq!(uf.find(i), i);
    }
}

#[test]
fn transitive_unions_share_a_representative() {
    let mut uf = UnionFind::new(6);
    uf.union(0, 1);
    uf.union(1, 2);
    assert_eq!(uf.find(0), uf.find(2));
    assert_eq!(uf.find(1), uf.find(2));
    assert_ne!(uf.find(0), uf.find(3));
    uf.union(4, 5);
    assert_eq!(uf.find(4), uf.find(5));
    assert_ne!(uf.find(4), uf.find(0));
}

#[test]
fn find_is_idempotent() {
    let mut uf = UnionFind::new(8);
    uf.union(0, 1);
    uf.union(2, 3);
    uf.union(1, 3);
    for x in 0..8u32 {
        let r = uf.find(x);
        assert_eq!(uf.find(r), r);
    }
}

fn distinct_representatives(uf: &mut UnionFind, n: u32) -> usize {
    let mut reps: Vec<u32> = (0..n).map(|i| uf.find(i)).collect();
    reps.sort_unstable();
    reps.dedup();
    reps.len()
}

#[test]
fn each_successful_union_reduces_the_count_by_one() {
    let n = 10u32;
    let mut uf = UnionFind::new(n);
    assert_eq!(distinct_representatives(&mut uf, n), 10);
    // four set-reducing unions: 10 - 4 representatives remain
    uf.union(0, 1);
    uf.union(2, 3);
    uf.union(0, 3);
    uf.union(7, 8);
    assert_eq!(distinct_representatives(&mut uf, n), 6);
    // a union of an already joined pair reduces nothing
    uf.union(1, 2);
    assert_eq!(distinct_representatives(&mut uf, n), 6);
    uf.union(0, 0);
    assert_eq!(distinct_representatives(&mut uf, n), 6);
}

#[test]
fn union_by_rank_keeps_representative_of_larger_tree() {
    // equal ranks: the second argument's root survives
    let mut uf = UnionFind::new(4);
    uf.union(0, 1);
    assert_eq!(uf.find(0), 1);
    // rank 1 tree meets rank 0 singleton: the rank 1 root survives
    uf.union(2, 1);
    assert_eq!(uf.find(2), 1);
}
