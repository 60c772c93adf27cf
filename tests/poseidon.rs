use curve25519_dalek::scalar::Scalar;
use poseidon_gadget::circuit::Circuit;
use poseidon_gadget::field::Fe;
use poseidon_gadget::lc::LinearCombination;
use poseidon_gadget::params::{scalar_from_hex, ParamsError, PoseidonParams};
use poseidon_gadget::permutation::{Poseidon_hash_2, Poseidon_permutation};
use poseidon_gadget::sbox::SboxType;
use poseidon_gadget::{
    CircuitError, Poseidon_hash_2_gadget, Poseidon_permutation_constraints,
    Poseidon_permutation_gadget,
};
use rand::rngs::StdRng;
use rand::{RngCore, SeedableRng};

fn hex_of(bytes: &[u8; 32]) -> String {
    bytes.iter().map(|b| format!("{:02x}", b)).collect()
}

fn random_fe(rng: &mut StdRng) -> Fe {
    let mut b = [0u8; 32];
    rng.fill_bytes(&mut b);
    Fe::from_bytes_mod_order(b)
}

fn small(n: u64) -> Fe {
    let mut b = [0u8; 32];
    b[..8].copy_from_slice(&n.to_le_bytes());
    Fe::from_bytes_mod_order(b)
}

fn scalar(f: &Fe) -> Scalar {
    Scalar::from_bytes_mod_order(f.to_bytes())
}

/// Tables of hex constants: `n_keys` round keys and a `width x width` matrix.
fn tables(n_keys: usize, width: usize) -> (Vec<String>, Vec<Vec<String>>) {
    let mut rng: StdRng = SeedableRng::from_seed([7u8; 32]);
    let keys = (0..n_keys).map(|_| hex_of(&random_fe(&mut rng).to_bytes())).collect();
    let mds = (0..width)
        .map(|_| (0..width).map(|_| hex_of(&random_fe(&mut rng).to_bytes())).collect())
        .collect();
    (keys, mds)
}

fn build(width: usize, fb: usize, fe: usize, pr: usize) -> PoseidonParams {
    let (keys, mds) = tables((fb + fe + pr) * width, width);
    let key_refs: Vec<&str> = keys.iter().map(|s| s.as_str()).collect();
    let mds_refs: Vec<Vec<&str>> = mds.iter().map(|r| r.iter().map(|s| s.as_str()).collect()).collect();
    assert_eq!(PoseidonParams::table_error(width, fb, fe, pr, &key_refs, &mds_refs), None);
    PoseidonParams::new(width, fb, fe, pr, &key_refs, &mds_refs)
}

/// The permutation computed here with curve25519-dalek directly.
fn reference_permutation(input: &[Fe], p: &PoseidonParams, sbox: &SboxType) -> Vec<Fe> {
    let w = p.width;
    let mut state: Vec<Scalar> = input.iter().map(scalar).collect();
    let keys: Vec<Scalar> = p.round_keys.iter().map(scalar).collect();
    let total = p.full_rounds_beginning + p.partial_rounds + p.full_rounds_end;
    let mut off = 0;
    for r in 0..total {
        let full = r < p.full_rounds_beginning || r >= p.full_rounds_beginning + p.partial_rounds;
        for i in 0..w {
            state[i] += keys[off];
            off += 1;
            if full || i == w - 1 {
                state[i] = match sbox {
                    SboxType::Cube => state[i] * state[i] * state[i],
                    SboxType::Inverse => state[i].invert(),
                };
            }
        }
        let mut next = vec![Scalar::zero(); w];
        for i in 0..w {
            for j in 0..w {
                next[i] += state[j] * scalar(&p.MDS_matrix[i][j]);
            }
        }
        state = next;
    }
    state.iter().map(|s| Fe::from_bytes_mod_order(s.to_bytes())).collect()
}

fn poseidon_perm(sbox_type: &SboxType) {
    let mut test_rng: StdRng = SeedableRng::from_seed([24u8; 32]);
    let width = 6;
    let (full_b, full_e) = (4, 4);
    let partial_rounds = 140;
    let s_params = build(width, full_b, full_e, partial_rounds);

    let input: Vec<Fe> = (0..width).map(|_| random_fe(&mut test_rng)).collect();
    let expected_output = Poseidon_permutation(&input, &s_params, sbox_type).unwrap();
    assert_eq!(expected_output, reference_permutation(&input, &s_params, sbox_type));

    let mut prover = Circuit::new(true);
    let vars: Vec<usize> = input.iter().map(|x| prover.allocate(Some(*x))).collect();
    assert!(Poseidon_permutation_gadget(&mut prover, &vars, &s_params, sbox_type, &expected_output).is_ok());
    assert!(prover.is_satisfied());

    let mut verifier = Circuit::new(false);
    let vvars: Vec<usize> = (0..width).map(|_| verifier.allocate(None)).collect();
    assert!(Poseidon_permutation_gadget(&mut verifier, &vvars, &s_params, sbox_type, &expected_output).is_ok());
    assert_eq!(prover.gates.len(), verifier.gates.len());
    assert_eq!(prover.witness.len(), verifier.witness.len());
}

fn poseidon_hash(sbox_type: &SboxType) {
    let mut test_rng: StdRng = SeedableRng::from_seed([24u8; 32]);
    let width = 6;
    let (full_b, full_e) = (4, 4);
    let partial_rounds = 140;
    let s_params = build(width, full_b, full_e, partial_rounds);

    let xl = random_fe(&mut test_rng);
    let xr = random_fe(&mut test_rng);
    let expected_output = Poseidon_hash_2(xl, xr, &s_params, sbox_type).unwrap();
    let mut padded = vec![Fe::zero(); width];
    padded[1] = xl;
    padded[2] = xr;
    assert_eq!(expected_output, reference_permutation(&padded, &s_params, sbox_type)[1]);

    let mut prover = Circuit::new(true);
    let l = prover.allocate(Some(xl));
    let r = prover.allocate(Some(xr));
    let zeros: Vec<usize> = (2..width).map(|_| prover.allocate(Some(Fe::zero()))).collect();
    assert!(Poseidon_hash_2_gadget(&mut prover, l, r, &zeros, &s_params, sbox_type, &expected_output).is_ok());
    assert!(prover.is_satisfied());

    let mut verifier = Circuit::new(false);
    let lv = verifier.allocate(None);
    let rv = verifier.allocate(None);
    let vzeros: Vec<usize> = (2..width).map(|_| verifier.allocate(None)).collect();
    assert!(Poseidon_hash_2_gadget(&mut verifier, lv, rv, &vzeros, &s_params, sbox_type, &expected_output).is_ok());
    assert_eq!(prover.gates.len(), verifier.gates.len());
    assert_eq!(prover.witness.len(), verifier.witness.len());
}

#[test]
fn test_poseidon_perm_cube_sbox() {
    poseidon_perm(&SboxType::Cube);
}

#[test]
fn test_poseidon_perm_inverse_sbox() {
    poseidon_perm(&SboxType::Inverse);
}

#[test]
fn test_poseidon_hash_cube_sbox() {
    poseidon_hash(&SboxType::Cube);
}

#[test]
fn test_poseidon_hash_inverse_sbox() {
    poseidon_hash(&SboxType::Inverse);
}

#[test]
fn hash_gadget_rejects_altered_output() {
    let s_params = build(6, 2, 2, 6);
    let xl = small(11);
    let xr = small(29);
    let h = Poseidon_hash_2(xl, xr, &s_params, &SboxType::Cube).unwrap();
    let altered = Fe::from_bytes_mod_order((scalar(&h) + Scalar::one()).to_bytes());
    let mut cs = Circuit::new(true);
    let l = cs.allocate(Some(xl));
    let r = cs.allocate(Some(xr));
    let zeros: Vec<usize> = (2..6).map(|_| cs.allocate(Some(Fe::zero()))).collect();
    assert!(Poseidon_hash_2_gadget(&mut cs, l, r, &zeros, &s_params, &SboxType::Cube, &altered).is_ok());
    assert!(!cs.is_satisfied());
}

#[test]
fn circuit_outputs_evaluate_to_native_permutation() {
    let s_params = build(6, 2, 2, 10);
    let mut rng: StdRng = SeedableRng::from_seed([3u8; 32]);
    for sbox in [SboxType::Cube, SboxType::Inverse].iter() {
        let input: Vec<Fe> = (0..6).map(|_| random_fe(&mut rng)).collect();
        let native = Poseidon_permutation(&input, &s_params, sbox).unwrap();
        let mut cs = Circuit::new(true);
        let vars: Vec<usize> = input.iter().map(|x| cs.allocate(Some(*x))).collect();
        let outs = Poseidon_permutation_constraints(&mut cs, &vars, &s_params, sbox).unwrap();
        let evaluated: Vec<Fe> = outs.iter().map(|lc| cs.evaluate_lc(lc).unwrap()).collect();
        assert_eq!(evaluated, native);
        assert!(cs.is_satisfied());
    }
}

#[test]
fn circuit_topology_does_not_depend_on_witness() {
    let s_params = build(5, 3, 2, 7);
    for sbox in [SboxType::Cube, SboxType::Inverse].iter() {
        let mut prover = Circuit::new(true);
        let vars: Vec<usize> = (0..5).map(|i| prover.allocate(Some(small(i + 1)))).collect();
        Poseidon_permutation_constraints(&mut prover, &vars, &s_params, sbox).unwrap();
        let mut verifier = Circuit::new(false);
        let vvars: Vec<usize> = (0..5).map(|_| verifier.allocate(None)).collect();
        Poseidon_permutation_constraints(&mut verifier, &vvars, &s_params, sbox).unwrap();
        assert_eq!(prover.gates.len(), verifier.gates.len());
        assert_eq!(prover.witness.len(), verifier.witness.len());
    }
    // cube: 2 gates per S-box; (3 + 2) full rounds of 5 and 7 partial rounds of 1
    let mut cs = Circuit::new(false);
    let vars: Vec<usize> = (0..5).map(|_| cs.allocate(None)).collect();
    Poseidon_permutation_constraints(&mut cs, &vars, &s_params, &SboxType::Cube).unwrap();
    assert_eq!(cs.gates.len(), 2 * (5 * 5 + 7));
}

#[test]
fn permutation_of_zero_state_is_reproducible() {
    let s_params = build(6, 4, 4, 20);
    let zero = vec![Fe::zero(); 6];
    let first = Poseidon_permutation(&zero, &s_params, &SboxType::Cube);
    let second = Poseidon_permutation(&zero, &s_params, &SboxType::Cube);
    assert!(first.is_some());
    assert_eq!(first, second);
    assert_eq!(first.unwrap(), reference_permutation(&zero, &s_params, &SboxType::Cube));
}

#[test]
fn cube_sbox_cubes() {
    let mut rng: StdRng = SeedableRng::from_seed([5u8; 32]);
    assert_eq!(SboxType::Cube.apply_sbox(&Fe::zero()), Some(Fe::zero()));
    assert_eq!(SboxType::Cube.apply_sbox(&small(3)), Some(small(27)));
    for _ in 0..8 {
        let x = random_fe(&mut rng);
        let s = scalar(&x);
        let y = SboxType::Cube.apply_sbox(&x).unwrap();
        assert_eq!(y.to_bytes(), (s * s * s).to_bytes());
    }
}

#[test]
fn inverse_sbox_inverts() {
    let mut rng: StdRng = SeedableRng::from_seed([6u8; 32]);
    assert_eq!(SboxType::Inverse.apply_sbox(&Fe::zero()), None);
    assert_eq!(SboxType::Inverse.apply_sbox(&Fe::one()), Some(Fe::one()));
    for _ in 0..8 {
        let x = random_fe(&mut rng);
        let y = SboxType::Inverse.apply_sbox(&x).unwrap();
        assert_eq!((scalar(&y) * scalar(&x)).to_bytes(), Scalar::one().to_bytes());
        assert_ne!(y, x);
    }
}

#[test]
fn inverse_sbox_on_zero_fails_in_circuit() {
    let mut cs = Circuit::new(true);
    let v = cs.allocate(Some(Fe::zero()));
    let r = SboxType::Inverse.synthesize_sbox(&mut cs, LinearCombination::from_variable(v), &Fe::zero());
    assert_eq!(r, Err(CircuitError::GadgetError));
    let mut verifier = Circuit::new(false);
    let v = verifier.allocate(None);
    assert!(SboxType::Inverse.synthesize_sbox(&mut verifier, LinearCombination::from_variable(v), &Fe::zero()).is_ok());
}

#[test]
fn construction_rejects_width_mismatch() {
    let (keys, mds) = tables(6 * 12, 6);
    let key_refs: Vec<&str> = keys.iter().map(|s| s.as_str()).collect();
    let mds_refs: Vec<Vec<&str>> = mds.iter().map(|r| r.iter().map(|s| s.as_str()).collect()).collect();
    assert_eq!(PoseidonParams::table_error(5, 4, 4, 4, &key_refs, &mds_refs), Some(ParamsError::WidthMismatch));
    assert_eq!(PoseidonParams::table_error(0, 4, 4, 4, &key_refs, &mds_refs), Some(ParamsError::WidthMismatch));
    let mut ragged = mds_refs.clone();
    ragged[3].pop();
    assert_eq!(PoseidonParams::table_error(6, 4, 4, 4, &key_refs, &ragged), Some(ParamsError::WidthMismatch));
    assert_eq!(PoseidonParams::table_error(6, 4, 4, 4, &key_refs, &mds_refs), None);
    assert_eq!(PoseidonParams::new(6, 4, 4, 4, &key_refs, &mds_refs).width, 6);
}

#[test]
fn construction_rejects_short_round_key_table() {
    let (keys, mds) = tables(6 * 12 - 1, 6);
    let key_refs: Vec<&str> = keys.iter().map(|s| s.as_str()).collect();
    let mds_refs: Vec<Vec<&str>> = mds.iter().map(|r| r.iter().map(|s| s.as_str()).collect()).collect();
    assert_eq!(PoseidonParams::table_error(6, 4, 4, 4, &key_refs, &mds_refs), Some(ParamsError::NotEnoughRoundKeys));
    assert_eq!(
        PoseidonParams::table_error(6, usize::MAX, 1, 0, &key_refs, &mds_refs),
        Some(ParamsError::NotEnoughRoundKeys)
    );
}

#[test]
fn construction_rejects_malformed_constant() {
    let (keys, mds) = tables(6 * 12, 6);
    let mut key_refs: Vec<&str> = keys.iter().map(|s| s.as_str()).collect();
    let mut mds_refs: Vec<Vec<&str>> = mds.iter().map(|r| r.iter().map(|s| s.as_str()).collect()).collect();
    let bad = "zz".repeat(32);
    mds_refs[2][2] = &bad;
    assert_eq!(PoseidonParams::table_error(6, 4, 4, 4, &key_refs, &mds_refs), Some(ParamsError::MalformedConstant));
    key_refs[5] = "0101";
    assert_eq!(PoseidonParams::table_error(6, 4, 4, 4, &key_refs, &mds_refs), Some(ParamsError::MalformedConstant));
}

#[test]
fn construction_loads_tables() {
    let (keys, mds) = tables(6 * 3, 6);
    let key_refs: Vec<&str> = keys.iter().map(|s| s.as_str()).collect();
    let mds_refs: Vec<Vec<&str>> = mds.iter().map(|r| r.iter().map(|s| s.as_str()).collect()).collect();
    let p = PoseidonParams::new(6, 1, 1, 1, &key_refs, &mds_refs);
    assert_eq!(p.round_keys.len(), 18);
    assert_eq!(p.round_keys[4], scalar_from_hex(&keys[4]).unwrap());
    assert_eq!(p.MDS_matrix[5][1], scalar_from_hex(&mds[5][1]).unwrap());
}

#[test]
fn hex_constants_decode_little_endian() {
    let one = format!("01{}", "0".repeat(62));
    assert_eq!(scalar_from_hex(&one), Some(Fe::one()));
    let upper = format!("FF{}", "0".repeat(62));
    assert_eq!(scalar_from_hex(&upper), Some(small(255)));
    let high = format!("{}01", "0".repeat(62));
    let mut b = [0u8; 32];
    b[31] = 1;
    assert_eq!(scalar_from_hex(&high).unwrap().to_bytes(), Scalar::from_bytes_mod_order(b).to_bytes());
    assert_eq!(scalar_from_hex("01"), None);
    assert_eq!(scalar_from_hex(&format!("0g{}", "0".repeat(62))), None);
}

#[test]
fn field_elements_reduce_modulo_group_order() {
    let all = [0xffu8; 32];
    let f = Fe::from_bytes_mod_order(all);
    assert_ne!(f.to_bytes(), all);
    assert_eq!(f.to_bytes(), Scalar::from_bytes_mod_order(all).to_bytes());
    assert!(Fe::zero().is_zero());
    assert!(!Fe::one().is_zero());
    assert!(small(9).equals(&small(9)));
    assert!(!small(9).equals(&small(10)));
}

#[test]
fn linear_combinations_evaluate() {
    let mut cs = Circuit::new(true);
    let a = cs.allocate(Some(small(5)));
    let b = cs.allocate(Some(small(7)));
    let lc = LinearCombination::from_variable(a)
        .scale(&small(3))
        .plus(&LinearCombination::from_variable(b))
        .add_constant(&small(100));
    assert_eq!(cs.evaluate_lc(&lc), Some(small(122)));
    let merged = lc.plus(&LinearCombination::from_variable(a)).simplify(cs.witness.len());
    assert_eq!(merged.terms.len(), 2);
    assert_eq!(cs.evaluate_lc(&merged), Some(small(127)));
    let (_, _, o) = cs.multiply(LinearCombination::from_variable(a), LinearCombination::from_variable(b));
    assert_eq!(cs.witness[o], Some(small(35)));
    assert!(cs.is_satisfied());
    let mut verifier = Circuit::new(false);
    let v = verifier.allocate(None);
    assert_eq!(verifier.evaluate_lc(&LinearCombination::from_variable(v)), None);
}

#[test]
fn well_formedness_checks() {
    let mut p = build(6, 1, 1, 2);
    assert!(p.is_well_formed());
    assert!(Fe::one().is_canonical());
    let order = Fe { bytes: curve25519_dalek::constants::BASEPOINT_ORDER.to_bytes() };
    assert!(!order.is_canonical());
    p.round_keys[3] = order;
    assert!(!p.is_well_formed());
    let mut q = build(6, 1, 1, 2);
    q.round_keys.pop();
    assert!(!q.is_well_formed());
    let mut m = build(6, 1, 1, 2);
    m.MDS_matrix[2].pop();
    assert!(!m.is_well_formed());
}

#[test]
fn sbox_on_constant_input_in_both_roles() {
    let mut prover = Circuit::new(true);
    let v = SboxType::Cube.synthesize_sbox(&mut prover, LinearCombination::from_constant(small(2)), &small(1)).unwrap();
    assert_eq!(prover.witness[v], Some(small(27)));
    assert!(prover.is_satisfied());
    let mut verifier = Circuit::new(false);
    assert!(SboxType::Cube.synthesize_sbox(&mut verifier, LinearCombination::from_constant(small(2)), &small(1)).is_ok());
    assert!(SboxType::Inverse.synthesize_sbox(&mut verifier, LinearCombination::from_constant(Fe::zero()), &Fe::zero()).is_ok());
    assert_eq!(verifier.witness.iter().filter(|x| x.is_some()).count(), 0);
    let mut p2 = Circuit::new(true);
    assert_eq!(
        SboxType::Inverse.synthesize_sbox(&mut p2, LinearCombination::from_constant(Fe::zero()), &Fe::zero()),
        Err(CircuitError::GadgetError)
    );
}
