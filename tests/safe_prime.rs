use fast_paillier::utils;
use rand_core::RngCore;
use rug::integer::Order;
use rug::rand::{ThreadRandGen, ThreadRandState};
use rug::Integer;

struct Source<'a>(&'a mut rand_dev::DevRng);

impl ThreadRandGen for Source<'_> {
    fn gen(&mut self) -> u32 {
        self.0.next_u32()
    }
}

#[test]
fn safe_prime_size() {
    let mut dev = rand_dev::DevRng::new();
    let mut source = Source(&mut dev);
    let mut rng = ThreadRandState::new_custom(&mut source);
    for size in [500, 512, 513, 514] {
        let prime = utils::generate_safe_prime(&mut rng, size).unwrap();
        let mut prime = Integer::from_digits(&prime.magnitude().to_limbs(), Order::Lsf);
        // the top bit is bit `size - 1`
        prime >>= size - 1;
        assert_eq!(prime, 1);
    }
}
