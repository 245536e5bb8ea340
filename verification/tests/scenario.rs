use bgg_encoding::ciphertext::Ciphertext;
use bgg_encoding::eval::{m_eval_add_x, m_eval_mul_x};
use bgg_encoding::operations::{bit_decompose, vec_mat_mul};
use bgg_encoding::parameters::Parameters;
use bgg_encoding::pub_key::PublicKey;

fn small_base_errors(q: u64, n: usize, count: usize) -> Vec<Vec<u64>> {
    // Deterministic small noise standing in for the Gaussian draws: the inner
    // encoding that the homomorphism identities speak of does not depend on it.
    (0..count)
        .map(|t| (0..n).map(|j| ((t + j) as u64 % 7 + q - 3) % q).collect())
        .collect()
}

fn check_add_pair(pub_key: &PublicKey, ct_inner: &Vec<Vec<Vec<u64>>>, x: &Vec<u64>, i1: usize, i2: usize) {
    let m = pub_key.params().m();
    let n = pub_key.params().ring().ring_size();
    let q = pub_key.params().ring().modulus();
    let g = pub_key.params().g();
    let b_sum = pub_key.add_gate(i1, i2);
    let h = m_eval_add_x(pub_key.params());
    let concat = [ct_inner[i1].clone(), ct_inner[i2].clone()].concat();
    let lhs = vec_mat_mul(pub_key.params().ring(), concat, h).unwrap();
    let fx = (x[i1] + x[i2]) as u128;
    for i in 0..m {
        for j in 0..n {
            let rhs = (b_sum[i][j] as u128 + fx * (g[i][j] as u128)) % (q as u128);
            assert_eq!(lhs[i][j] as u128, rhs);
        }
    }
}

fn check_mul_pair(pub_key: &PublicKey, ct_inner: &Vec<Vec<Vec<u64>>>, x: &Vec<u64>, i1: usize, i2: usize) {
    let m = pub_key.params().m();
    let n = pub_key.params().ring().ring_size();
    let q = pub_key.params().ring().modulus();
    let g = pub_key.params().g();
    let b_prod = pub_key.mul_gate(i1, i2);
    let h = m_eval_mul_x(pub_key.params(), &pub_key.b()[i1], x[i2]).unwrap();
    let concat = [ct_inner[i1].clone(), ct_inner[i2].clone()].concat();
    let lhs = vec_mat_mul(pub_key.params().ring(), concat, h).unwrap();
    let fx = (x[i1] * x[i2]) as u128;
    for i in 0..m {
        for j in 0..n {
            let rhs = (b_prod[i][j] as u128 + fx * (g[i][j] as u128)) % (q as u128);
            assert_eq!(lhs[i][j] as u128, rhs);
        }
    }
}

#[test]
fn test_small_ring_homomorphisms() {
    // Ring size 32 (log 5), modulus bit-length 17, four attribute slots.
    let params = Parameters::new(5, 17, 3).unwrap();
    assert_eq!(params.m(), 17 + 2);
    assert_eq!(params.ring().ring_size(), 32);
    let q = params.ring().modulus();
    assert!(q >= 1 << 16 && q < 1 << 17);
    let pub_key = PublicKey::new(params);
    let x: Vec<u64> = vec![1, 1, 0, 1];
    let base = small_base_errors(q, 32, pub_key.params().m());
    let ciphertext = Ciphertext::new(&pub_key, &x, &base).unwrap();
    let ct_inner = ciphertext.inner();

    check_add_pair(&pub_key, ct_inner, &x, 1, 2);
    check_add_pair(&pub_key, ct_inner, &x, 2, 3);
    check_mul_pair(&pub_key, ct_inner, &x, 1, 2);
    check_mul_pair(&pub_key, ct_inner, &x, 2, 3);

    // The bit decomposition of b[1] round-trips against the gadget vector.
    let b1 = &pub_key.b()[1];
    let tau = bit_decompose(pub_key.params(), b1).unwrap();
    let reconstructed = vec_mat_mul(pub_key.params().ring(), pub_key.params().g().clone(), tau).unwrap();
    for i in 0..pub_key.params().m() {
        assert_eq!(b1[i], reconstructed[i]);
    }
}

#[test]
fn test_gate_operators_deterministic() {
    let params = Parameters::new(5, 17, 3).unwrap();
    let pub_key = PublicKey::new(params);
    assert_eq!(pub_key.add_gate(1, 2), pub_key.add_gate(1, 2));
    assert_eq!(pub_key.mul_gate(1, 2), pub_key.mul_gate(1, 2));
    assert_eq!(m_eval_add_x(pub_key.params()), m_eval_add_x(pub_key.params()));
    assert_eq!(
        m_eval_mul_x(pub_key.params(), &pub_key.b()[1], 1).unwrap(),
        m_eval_mul_x(pub_key.params(), &pub_key.b()[1], 1).unwrap()
    );
    assert_eq!(
        bit_decompose(pub_key.params(), &pub_key.b()[2]).unwrap(),
        bit_decompose(pub_key.params(), &pub_key.b()[2]).unwrap()
    );
}

#[test]
fn test_compute_ct_full_is_lwe_sample() {
    let params = Parameters::new(5, 17, 2).unwrap();
    let q = params.ring().modulus();
    let pub_key = PublicKey::new(params);
    let x: Vec<u64> = vec![1, 0, 1];
    let base = small_base_errors(q, 32, pub_key.params().m());
    let ciphertext = Ciphertext::new(&pub_key, &x, &base).unwrap();
    let full = ciphertext.compute_ct_full(pub_key.params().ring());
    assert_eq!(full.len(), 3);
    for row in &full {
        assert_eq!(row.len(), pub_key.params().m());
        for p in row {
            assert_eq!(p.len(), 32);
            for &c in p {
                assert!(c < q);
            }
        }
    }
}
