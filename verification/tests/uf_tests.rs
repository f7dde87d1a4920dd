use pervec::arr::PerVecArena;
use pervec::arr::PerVecError;
use pervec::PerUnionFind;

#[test]
fn union_find_basic() {
    let mut arena = PerVecArena::new();
    let uf = PerUnionFind::new(&mut arena);
    let (x, uf) = uf.add(&mut arena);
    let (y, mut uf) = uf.add(&mut arena);
    assert_eq!(uf.find(&mut arena, x).unwrap(), x);
    assert_eq!(uf.find(&mut arena, y).unwrap(), y);
    let fx = uf.find(&mut arena, x).unwrap();
    let fy = uf.find(&mut arena, y).unwrap();
    assert_ne!(fx, fy);
    let mut new_uf = uf.merge(&mut arena, x, y).unwrap();
    let nfx = new_uf.find(&mut arena, x).unwrap();
    let nfy = new_uf.find(&mut arena, y).unwrap();
    assert_eq!(nfx, nfy);

    // old version still valid
    assert_eq!(uf.find(&mut arena, x).unwrap(), x);
    assert_eq!(uf.find(&mut arena, y).unwrap(), y);
    let fx = uf.find(&mut arena, x).unwrap();
    let fy = uf.find(&mut arena, y).unwrap();
    assert_ne!(fx, fy);
}

#[test]
fn historical_independence() {
    let mut arena = PerVecArena::new();
    let uf0 = PerUnionFind::new(&mut arena);
    let (a, uf1) = uf0.add(&mut arena);
    let (b, mut uf2) = uf1.add(&mut arena);
    let mut uf3 = uf2.merge(&mut arena, a, b).unwrap();

    // Against uf2's lineage, a and b stay apart, however often asked.
    let fa = uf2.find(&mut arena, a).unwrap();
    let fb = uf2.find(&mut arena, b).unwrap();
    assert_ne!(fa, fb);

    // Against uf3, they are joined.
    let ga = uf3.find(&mut arena, a).unwrap();
    let gb = uf3.find(&mut arena, b).unwrap();
    assert_eq!(ga, gb);

    // Asking again flips nothing back.
    let fa = uf2.find(&mut arena, a).unwrap();
    let fb = uf2.find(&mut arena, b).unwrap();
    assert_ne!(fa, fb);
}

#[test]
fn merge_chains_transitively() {
    let mut arena = PerVecArena::new();
    let uf = PerUnionFind::new(&mut arena);
    let (a, uf) = uf.add(&mut arena);
    let (b, uf) = uf.add(&mut arena);
    let (c, mut uf) = uf.add(&mut arena);
    let mut uf_ab = uf.merge(&mut arena, a, b).unwrap();
    let mut uf_abc = uf_ab.merge(&mut arena, b, c).unwrap();
    let fa = uf_abc.find(&mut arena, a).unwrap();
    let fb = uf_abc.find(&mut arena, b).unwrap();
    let fc = uf_abc.find(&mut arena, c).unwrap();
    assert_eq!(fa, fb);
    assert_eq!(fb, fc);
    // The two-set stage keeps c apart.
    let ga = uf_ab.find(&mut arena, a).unwrap();
    let gc = uf_ab.find(&mut arena, c).unwrap();
    assert_ne!(ga, gc);
}

#[test]
fn find_out_of_range() {
    let mut arena = PerVecArena::new();
    let mut uf = PerUnionFind::new(&mut arena);
    assert_eq!(
        uf.find(&mut arena, 0),
        Err(PerVecError::IndexOutOfRange { index: 0, len: 0 })
    );
    let (x, mut uf) = uf.add(&mut arena);
    assert_eq!(uf.find(&mut arena, x).unwrap(), x);
    assert_eq!(
        uf.find(&mut arena, 1),
        Err(PerVecError::IndexOutOfRange { index: 1, len: 1 })
    );
}

#[test]
fn merge_out_of_range() {
    let mut arena = PerVecArena::new();
    let uf = PerUnionFind::new(&mut arena);
    let (x, uf) = uf.add(&mut arena);
    let (y, mut uf) = uf.add(&mut arena);
    match uf.merge(&mut arena, 5, y) {
        Err(e) => assert_eq!(e, PerVecError::IndexOutOfRange { index: 5, len: 2 }),
        Ok(_) => panic!("merge accepted an out-of-range id"),
    }
    match uf.merge(&mut arena, x, 7) {
        Err(e) => assert_eq!(e, PerVecError::IndexOutOfRange { index: 7, len: 2 }),
        Ok(_) => panic!("merge accepted an out-of-range id"),
    }
    // The failed merges changed no partition.
    let fx = uf.find(&mut arena, x).unwrap();
    let fy = uf.find(&mut arena, y).unwrap();
    assert_ne!(fx, fy);
}

#[test]
fn add_leaves_older_structures_alone() {
    let mut arena = PerVecArena::new();
    let uf = PerUnionFind::new(&mut arena);
    let (a, uf1) = uf.add(&mut arena);
    let (b, mut uf2) = uf1.add(&mut arena);
    let uf3 = uf2.merge(&mut arena, a, b).unwrap();
    let (c, mut uf4) = uf3.add(&mut arena);
    assert_eq!(uf4.find(&mut arena, c).unwrap(), c);
    let fa = uf4.find(&mut arena, a).unwrap();
    let fb = uf4.find(&mut arena, b).unwrap();
    let fc = uf4.find(&mut arena, c).unwrap();
    assert_eq!(fa, fb);
    assert_ne!(fa, fc);
    // The pre-merge structure still sees a and b apart after all of it.
    let ga = uf2.find(&mut arena, a).unwrap();
    let gb = uf2.find(&mut arena, b).unwrap();
    assert_ne!(ga, gb);
}
