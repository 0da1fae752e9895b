use data_structures::llrb::LLRB;
use rand::rngs::StdRng;
use rand::Rng;
use rand::SeedableRng;

struct Test {
    llrb: LLRB,
    vec: Vec<(u64, u64)>,
}

impl Test {
    fn new() -> Self {
        Self { llrb: LLRB::new(), vec: Vec::new() }
    }
    fn len(&self) -> usize {
        self.vec.len()
    }
    fn get(&mut self, i: usize) {
        let result = self.llrb.get(i);
        let expected = self.vec.get(i).copied();
        assert_eq!(result, expected, "Failed in `get`");
        self.postprocess();
    }
    fn insert(&mut self, key: u64, value: u64) {
        self.llrb.insert(key, value);
        if let Err(i) = self.vec.binary_search_by_key(&key, |&(key, _)| key) {
            self.vec.insert(i, (key, value));
        }
        self.postprocess();
    }
    fn delete(&mut self, key: u64) {
        let r = self.llrb.delete(key);
        if let Ok(i) = self.vec.binary_search_by_key(&key, |&(key, _)| key) {
            let e = self.vec.remove(i);
            assert_eq!(r, Some(e));
        } else {
            assert_eq!(r, None);
        }
        self.postprocess();
    }
    fn fold(&mut self, l: usize, r: usize) {
        let result = self.llrb.fold(l, r).unwrap_or(0);
        let expected = self.vec[l..r].iter().map(|(_, value)| value).sum::<u64>();
        assert_eq!(result, expected, "Failed in `fold`");
        self.postprocess();
    }
    fn postprocess(&self) {
        assert_eq!(&self.llrb.collect_vec(), &self.vec);
        assert_eq!(self.llrb.len(), self.vec.len());
    }
}

fn test_rand(t: u32, q: u32, seed: u64) {
    let mut rng = StdRng::seed_from_u64(seed);
    for _ in 0..t {
        let mut test = Test::new();
        for _ in 0..q {
            match rng.gen_range(0, 3) {
                0 => test.insert(rng.gen_range(0, 30), rng.gen_range(0, 100)),
                1 => test.delete(rng.gen_range(0, 30)),
                2 => test.get(rng.gen_range(0, test.len() + 1)),
                _ => panic!(),
            }
        }
    }
}

#[test]
fn test_rand_small() {
    test_rand(10, 50, 42);
    test_rand(10, 50, 91);
}

#[test]
fn test_rand_large() {
    test_rand(10, 200, 42);
    test_rand(10, 200, 91);
}

// a differential run that also exercises the range fold
fn test_rand_fold(t: u32, q: u32, seed: u64) {
    let mut rng = StdRng::seed_from_u64(seed);
    for _ in 0..t {
        let mut test = Test::new();
        for _ in 0..q {
            match rng.gen_range(0, 4) {
                0 => test.insert(rng.gen_range(0, 30), rng.gen_range(0, 100)),
                1 => test.delete(rng.gen_range(0, 30)),
                2 => test.get(rng.gen_range(0, test.len() + 1)),
                3 => {
                    let n = test.len();
                    let l = rng.gen_range(0, n + 1);
                    let r = rng.gen_range(l, n + 1);
                    test.fold(l, r);
                },
                _ => panic!(),
            }
        }
    }
}

#[test]
fn test_rand_fold_small() {
    test_rand_fold(10, 50, 42);
    test_rand_fold(10, 200, 91);
}
