use bgg_encoding::ciphertext::Ciphertext;
use bgg_encoding::eval::m_eval_add_x;
use bgg_encoding::operations::{bit_decompose, vec_mat_mul};
use bgg_encoding::parameters::Parameters;
use bgg_encoding::pub_key::PublicKey;
use rand::Rng;
use rand_distr::{Distribution, Normal};

fn gaussian_base_errors(q: u64, n: usize, count: usize) -> Vec<Vec<u64>> {
    let normal: Normal<f64> = Normal::new(0.0, 3.19).unwrap();
    let mut rng = rand::thread_rng();
    (0..count)
        .map(|_| {
            (0..n)
                .map(|_| {
                    let e: i64 = normal.sample(&mut rng).round() as i64;
                    if e >= 0 {
                        (e as u64) % q
                    } else {
                        let r = ((-e) as u64) % q;
                        if r == 0 {
                            0
                        } else {
                            q - r
                        }
                    }
                })
                .collect()
        })
        .collect()
}

#[test]
fn test_matrix_encoding_homomorphism_add_gate() {
    let params = Parameters::new(12, 51, 7).unwrap();
    let pub_key = PublicKey::new(params);
    let mut rng = rand::thread_rng();
    let m = pub_key.params().m();
    let n = pub_key.params().ring().ring_size();
    let q = pub_key.params().ring().modulus();
    let ell = pub_key.params().ell();
    let mut x = (0..ell + 1).map(|_| rng.gen_range(0..2)).collect::<Vec<u64>>();
    x[0] = 1; // The actual attribute vector is x[1..]; index 0 is the fixed bias bit.

    let base_errors = gaussian_base_errors(q, n, m);
    let ciphertext = Ciphertext::new(&pub_key, &x, &base_errors).unwrap();
    let ct_inner = ciphertext.inner();

    // Perform add gate of b[1] and b[2]
    let b_1_plus_2 = pub_key.add_gate(1, 2);

    // Perform add gate of ct_inner[1] and ct_inner[2]
    let h_1_plus_2_x = m_eval_add_x(pub_key.params());

    // Verify (ct_inner[1] | ct_inner[2]) * h_1_plus_2_x = b_1_plus_2 + (x1+x2)G
    let concat_vec = [ct_inner[1].clone(), ct_inner[2].clone()].concat();
    let lhs = vec_mat_mul(pub_key.params().ring(), concat_vec, h_1_plus_2_x).unwrap();

    let g = pub_key.params().g();
    let fx = (x[1] + x[2]) as u128;
    for i in 0..m {
        for j in 0..n {
            let rhs = (b_1_plus_2[i][j] as u128 + fx * (g[i][j] as u128)) % (q as u128);
            assert_eq!(lhs[i][j] as u128, rhs);
        }
    }
}

#[test]
fn test_bit_decompose() {
    let params = Parameters::new(12, 51, 4).unwrap();
    let pub_key = PublicKey::new(params);
    let b1 = &pub_key.b()[1];
    let m = pub_key.params().m();
    let g = pub_key.params().g();
    let tau = bit_decompose(pub_key.params(), b1).unwrap();

    // Reconstruct the original input: for each column i, sum tau[h][i] * g[h].
    let reconstructed = vec_mat_mul(pub_key.params().ring(), g.clone(), tau).unwrap();

    for i in 0..m {
        assert_eq!(b1[i], reconstructed[i]);
    }
}
