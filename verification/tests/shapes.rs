use bgg_encoding::ciphertext::Ciphertext;
use bgg_encoding::eval::m_eval_mul_x;
use bgg_encoding::operations::{bit_decompose, poly_add, poly_sub, vec_mat_mul, vec_vec_dot_product};
use bgg_encoding::parameters::Parameters;
use bgg_encoding::pub_key::PublicKey;
use bgg_encoding::EncodingError;

#[test]
fn test_public_key_shape() {
    let params = Parameters::new(5, 17, 3).unwrap();
    let n = params.ring().ring_size();
    let q = params.ring().modulus();
    let m = params.m();
    let ell = params.ell();
    let pub_key = PublicKey::new(params);
    assert_eq!(pub_key.b().len(), ell + 1);
    for row in pub_key.b() {
        assert_eq!(row.len(), m);
        for p in row {
            assert_eq!(p.len(), n);
            for &c in p {
                assert!(c < q);
            }
        }
    }
}

#[test]
fn test_gadget_vector_values() {
    let params = Parameters::new(5, 17, 3).unwrap();
    let m = params.m();
    let n = params.ring().ring_size();
    let g = params.g();
    assert_eq!(m, 19);
    assert_eq!(g.len(), m);
    for i in 0..m {
        assert_eq!(g[i].len(), n);
        for j in 0..n {
            let expected = if j == 0 && i < m - 2 { 1u64 << i } else { 0 };
            assert_eq!(g[i][j], expected);
        }
    }
}

#[test]
fn test_modulus_is_compatible() {
    let params = Parameters::new(5, 17, 3).unwrap();
    let q = params.ring().modulus();
    // q = 1 (mod 2 * ring size), odd, of bit-length 17.
    assert_eq!(q % 64, 1);
    assert_eq!(q % 2, 1);
    assert!((1 << 16) <= q && q < (1 << 17));
}

#[test]
fn test_parameters_rejects_bad_configuration() {
    assert!(matches!(Parameters::new(3, 17, 4), Err(EncodingError::NoCompatibleModulus)));
    assert!(matches!(Parameters::new(12, 63, 4), Err(EncodingError::NoCompatibleModulus)));
    assert!(matches!(Parameters::new(12, 1, 4), Err(EncodingError::NoCompatibleModulus)));
    // The congruence q = 1 (mod 2^(log_ring_size + 1)) forces a bit-length of
    // at least log_ring_size + 2: below that no compatible prime exists.
    assert!(matches!(Parameters::new(12, 13, 4), Err(EncodingError::NoCompatibleModulus)));
}

#[test]
fn test_poly_ops_reject_length_mismatch() {
    let params = Parameters::new(5, 17, 1).unwrap();
    let ring = params.ring();
    let a = vec![1u64; 32];
    let b = vec![1u64; 31];
    assert_eq!(poly_add(ring, &a, &b).unwrap_err(), EncodingError::ShapeMismatch);
    assert_eq!(poly_sub(ring, &a, &b).unwrap_err(), EncodingError::ShapeMismatch);
    assert_eq!(
        vec_vec_dot_product(ring, &vec![a.clone()], &vec![]).unwrap_err(),
        EncodingError::ShapeMismatch
    );
    let mat = vec![vec![a.clone()], vec![a.clone()]];
    assert_eq!(vec_mat_mul(ring, vec![a.clone()], mat).unwrap_err(), EncodingError::ShapeMismatch);
}

#[test]
fn test_poly_add_and_sub_values() {
    let params = Parameters::new(5, 17, 1).unwrap();
    let ring = params.ring();
    let q = ring.modulus();
    let mut a = vec![0u64; 32];
    let mut b = vec![0u64; 32];
    a[0] = q - 1;
    b[0] = 5;
    a[3] = 7;
    b[3] = 9;
    let s = poly_add(ring, &a, &b).unwrap();
    assert_eq!(s[0], 4);
    assert_eq!(s[3], 16);
    assert_eq!(s[1], 0);
    let d = poly_sub(ring, &a, &b).unwrap();
    assert_eq!(d[0], q - 6);
    assert_eq!(d[3], q - 2);
}

#[test]
fn test_negacyclic_wraparound() {
    // In Z_q[X]/(X^32 + 1), X^16 * X^16 = X^32 = -1.
    let params = Parameters::new(5, 17, 1).unwrap();
    let ring = params.ring();
    let q = ring.modulus();
    let mut a = vec![0u64; 32];
    a[16] = 1;
    let prod = vec_vec_dot_product(ring, &vec![a.clone()], &vec![a.clone()]).unwrap();
    assert_eq!(prod[0], q - 1);
    for j in 1..32 {
        assert_eq!(prod[j], 0);
    }
    // (1 + X)^2 = 1 + 2X + X^2.
    let mut c = vec![0u64; 32];
    c[0] = 1;
    c[1] = 1;
    let sq = vec_vec_dot_product(ring, &vec![c.clone()], &vec![c.clone()]).unwrap();
    assert_eq!(sq[0], 1);
    assert_eq!(sq[1], 2);
    assert_eq!(sq[2], 1);
    for j in 3..32 {
        assert_eq!(sq[j], 0);
    }
}

#[test]
fn test_bit_decompose_rejects_bad_shapes() {
    let params = Parameters::new(5, 17, 1).unwrap();
    let m = params.m();
    let too_few = vec![vec![0u64; 32]; m - 1];
    assert_eq!(bit_decompose(&params, &too_few).unwrap_err(), EncodingError::ShapeMismatch);
    let wrong_width = vec![vec![0u64; 31]; m];
    assert_eq!(bit_decompose(&params, &wrong_width).unwrap_err(), EncodingError::ShapeMismatch);
    // A coefficient outside the m - 2 gadget bit planes is rejected, never
    // silently truncated.
    let mut oversized = vec![vec![0u64; 32]; m];
    oversized[0][0] = 1u64 << (m - 2);
    assert_eq!(bit_decompose(&params, &oversized).unwrap_err(), EncodingError::ShapeMismatch);
    let mut in_range = vec![vec![0u64; 32]; m];
    in_range[0][0] = (1u64 << (m - 2)) - 1;
    assert!(bit_decompose(&params, &in_range).is_ok());
}

#[test]
fn test_bit_decompose_values() {
    let params = Parameters::new(5, 17, 1).unwrap();
    let m = params.m();
    let mut u = vec![vec![0u64; 32]; m];
    u[0][0] = 0b1011;
    let tau = bit_decompose(&params, &u).unwrap();
    assert_eq!(tau.len(), m);
    assert_eq!(tau[0][0][0], 1);
    assert_eq!(tau[1][0][0], 1);
    assert_eq!(tau[2][0][0], 0);
    assert_eq!(tau[3][0][0], 1);
    assert_eq!(tau[4][0][0], 0);
}

#[test]
fn test_ciphertext_rejects_wrong_attribute_length() {
    let params = Parameters::new(5, 17, 3).unwrap();
    let q = params.ring().modulus();
    let m = params.m();
    let pub_key = PublicKey::new(params);
    let base = vec![vec![1u64 % q; 32]; m];
    let too_short: Vec<u64> = vec![1, 0];
    assert!(matches!(
        Ciphertext::new(&pub_key, &too_short, &base),
        Err(EncodingError::ShapeMismatch)
    ));
    let bad_base = vec![vec![1u64; 32]; m - 1];
    let x: Vec<u64> = vec![1, 0, 1, 0];
    assert!(matches!(Ciphertext::new(&pub_key, &x, &bad_base), Err(EncodingError::ShapeMismatch)));
    assert!(Ciphertext::new(&pub_key, &x, &base).is_ok());
}

#[test]
fn test_ciphertext_inner_encoding() {
    let params = Parameters::new(5, 17, 2).unwrap();
    let q = params.ring().modulus();
    let m = params.m();
    let pub_key = PublicKey::new(params);
    let base = vec![vec![0u64; 32]; m];
    let x: Vec<u64> = vec![1, 0, 1];
    let ct = Ciphertext::new(&pub_key, &x, &base).unwrap();
    let g = pub_key.params().g();
    for i in 0..3 {
        for si in 0..m {
            for j in 0..32 {
                let expected = if x[i] == 1 {
                    ((pub_key.b()[i][si][j] as u128 + g[si][j] as u128) % (q as u128)) as u64
                } else {
                    pub_key.b()[i][si][j]
                };
                assert_eq!(ct.inner()[i][si][j], expected);
            }
        }
    }
}

#[test]
fn test_m_eval_mul_x_rejects_wrong_row() {
    let params = Parameters::new(5, 17, 2).unwrap();
    let short_row = vec![vec![0u64; 32]; params.m() - 1];
    assert_eq!(
        m_eval_mul_x(&params, &short_row, 1).unwrap_err(),
        EncodingError::ShapeMismatch
    );
}
