use scoped_unify::union_find::{new, UnionFind};

#[test]
fn simple() {
    new(|mut uf: UnionFind<u32>| {
        let k1 = uf.allocate(0);
        let k2 = uf.allocate(0);

        assert!(!uf.equivalent(k1, k2));

        uf.union_uncond(k1, k2, 1);

        assert!(uf.equivalent(k1, k2));
        assert_eq!(uf.get(k1), 1);
        assert_eq!(uf.get(k2), 1);
    })
}

#[test]
fn allocate_keeps_classes_apart() {
    new(|mut uf: UnionFind<u32>| {
        let k1 = uf.allocate(7);
        let k2 = uf.allocate(8);
        let k3 = uf.allocate(9);
        assert!(!uf.equivalent(k1, k2));
        assert!(!uf.equivalent(k2, k3));
        assert!(uf.equivalent(k1, k1));
        assert_eq!(uf.get(k1), 7);
        assert_eq!(uf.get(k2), 8);
        assert_eq!(uf.get(k3), 9);
    })
}

#[test]
fn union_merge_function_decides_value() {
    new(|mut uf: UnionFind<u32>| {
        let k1 = uf.allocate(3);
        let k2 = uf.allocate(4);
        let out = uf.union(k1, k2, 0, |a, b| (Some(a * 10 + b), 99));
        assert_eq!(out, 99);
        assert!(uf.equivalent(k1, k2));
        assert_eq!(uf.get(k1), 34);
        assert_eq!(uf.get(k2), 34);
    })
}

#[test]
fn union_veto_leaves_classes_untouched() {
    new(|mut uf: UnionFind<u32>| {
        let k1 = uf.allocate(3);
        let k2 = uf.allocate(4);
        let out = uf.union(k1, k2, true, |_, _| (None, false));
        assert!(!out);
        assert!(!uf.equivalent(k1, k2));
        assert_eq!(uf.get(k1), 3);
        assert_eq!(uf.get(k2), 4);
    })
}

#[test]
fn union_on_equivalent_keys_is_a_noop() {
    new(|mut uf: UnionFind<u32>| {
        let k1 = uf.allocate(1);
        let k2 = uf.allocate(2);
        uf.union_uncond(k1, k2, 5);
        // already equivalent: default comes back and the value stays
        let out = uf.union(k1, k2, 42, |_, _| (Some(0), 7));
        assert_eq!(out, 42);
        assert_eq!(uf.get(k1), 5);
        // unioning a key with itself changes nothing either
        uf.union_uncond(k1, k1, 6);
        assert_eq!(uf.get(k1), 5);
    })
}

#[test]
fn union_chains_share_one_value() {
    new(|mut uf: UnionFind<u32>| {
        let k1 = uf.allocate(1);
        let k2 = uf.allocate(2);
        let k3 = uf.allocate(3);
        let k4 = uf.allocate(4);
        uf.union_uncond(k1, k2, 12);
        uf.union_uncond(k3, k4, 34);
        assert!(!uf.equivalent(k1, k3));
        uf.union_uncond(k2, k3, 99);
        assert!(uf.equivalent(k1, k4));
        assert_eq!(uf.get(k1), 99);
        assert_eq!(uf.get(k2), 99);
        assert_eq!(uf.get(k3), 99);
        assert_eq!(uf.get(k4), 99);
    })
}

#[test]
fn get_canonical_returns_representative_and_value() {
    new(|mut uf: UnionFind<u32>| {
        let k1 = uf.allocate(1);
        let k2 = uf.allocate(2);
        uf.union_uncond(k1, k2, 8);
        let (c1, v1) = uf.get_canonical(k1);
        let (c2, v2) = uf.get_canonical(k2);
        assert!(c1.same_index(c2));
        assert_eq!(v1, 8);
        assert_eq!(v2, 8);
    })
}
