use data_structures::veb::Veb;
use rand::rngs::StdRng;
use rand::Rng;
use rand::SeedableRng;
use std::collections::BTreeSet;

struct Test {
    veb: Veb,
    set: BTreeSet<usize>,
}

impl Test {
    fn new(lg: u32) -> Self {
        let res = Self { veb: Veb::new(lg), set: BTreeSet::new() };
        res.postproces();
        res
    }
    fn contains(&self, x: usize) {
        assert_eq!(self.veb.contains(x), self.set.contains(&x));
        self.postproces();
    }
    fn min(&self) {
        assert_eq!(self.veb.min(), self.set.iter().next().copied());
        self.postproces();
    }
    fn max(&self) {
        assert_eq!(self.veb.max(), self.set.iter().rev().next().copied());
        self.postproces();
    }
    fn prev(&self, x: usize) {
        assert_eq!(self.veb.prev(x), self.set.range(..x).rev().next().copied());
        self.postproces();
    }
    fn succ(&self, x: usize) {
        assert_eq!(self.veb.succ(x), self.set.range(x + 1..).next().copied());
        self.postproces();
    }
    fn insert(&mut self, x: usize) {
        self.veb.insert(x);
        self.set.insert(x);
        self.postproces();
    }
    fn delete(&mut self, x: usize) {
        let result = self.veb.delete(x);
        let expected = self.set.remove(&x);
        assert_eq!(result, expected);
        self.postproces();
    }
    fn postproces(&self) {
        let result = self.veb.collect_vec();
        let expected = self.set.iter().copied().collect::<Vec<_>>();
        assert_eq!(&result, &expected);
    }
}

#[test]
fn test_rand() {
    let mut rng = StdRng::seed_from_u64(42);
    for lg in 1..18 {
        let mut test = Test::new(lg);
        let len: usize = 1 << lg;
        for _ in 0..100 {
            match rng.gen_range(0, 7) {
                0 => test.contains(rng.gen_range(0, len)),
                1 => test.min(),
                2 => test.max(),
                3 => test.prev(rng.gen_range(0, len)),
                4 => test.succ(rng.gen_range(0, len)),
                5 => test.insert(rng.gen_range(0, len)),
                6 => test.delete(rng.gen_range(0, len)),
                _ => unreachable!(),
            }
        }
    }
}

#[test]
fn test_bitvec() {
    let mut v = Veb::new(5);
    for x in [3usize, 7, 8, 21, 30] {
        v.insert(x);
    }
    let bits = v.collect_bitvec();
    assert_eq!(bits.len(), 32);
    for (i, b) in bits.iter().enumerate() {
        assert_eq!(*b, [3usize, 7, 8, 21, 30].contains(&i));
    }
    assert_eq!(v.collect_vec(), vec![3, 7, 8, 21, 30]);
}
