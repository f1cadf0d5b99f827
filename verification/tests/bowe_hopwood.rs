use ark_crypto_primitives::crh::bowe_hopwood;
use ark_crypto_primitives::crh::{pedersen, CRHScheme, CRHSchemeGadget};
use ark_ed_on_bls12_381::{constraints::FqVar, EdwardsConfig, Fq as Fr};
use ark_r1cs_std::fields::fp::FpVar;
use ark_r1cs_std::prelude::EqGadget;
use ark_r1cs_std::{alloc::AllocVar, uint8::UInt8, R1CSVar};
use ark_relations::r1cs::{ConstraintSystem, ConstraintSystemRef};
use ark_std::rand::RngCore;
use ark_std::test_rng;

use manta_circuits::bowe_hopwood::{generate_u8_input, Window};

#[derive(Clone)]
struct HashWindow;

impl pedersen::Window for HashWindow {
    const WINDOW_SIZE: usize = Window::WINDOW_SIZE;
    const NUM_WINDOWS: usize = Window::NUM_WINDOWS;
}

type TestCRH = bowe_hopwood::CRH<EdwardsConfig, HashWindow>;
type TestCRHGadget = bowe_hopwood::constraints::CRHGadget<EdwardsConfig, FqVar>;

#[test]
fn window_parameters() {
    assert_eq!(Window::WINDOW_SIZE, 63);
    assert_eq!(Window::NUM_WINDOWS, 2);
    assert_eq!(Window::max_input_bits(), 378);
}

#[test]
fn window_accepts_up_to_47_bytes() {
    assert!(Window::accepts_input_len(0));
    assert!(Window::accepts_input_len(32));
    assert!(Window::accepts_input_len(47));
    assert!(!Window::accepts_input_len(48));
    assert!(!Window::accepts_input_len(usize::MAX));
}

#[test]
fn generate_u8_input_keeps_order() {
    let vars: Vec<u32> = generate_u8_input(vec![3, 1, 2], |b| Ok::<u32, ()>(b as u32 * 10));
    assert_eq!(vars, vec![30, 10, 20]);
}

#[test]
fn generate_u8_input_empty_without_constraint_system() {
    let cs = ConstraintSystemRef::<Fr>::None;
    let vars = generate_u8_input(vec![], |b| UInt8::new_witness(cs.clone(), || Ok(b)));
    assert!(vars.is_empty());
}

#[test]
fn generate_u8_input_concatenates() {
    let f = |b: u8| Ok::<u16, ()>(b as u16 + 1);
    let x = vec![1u8, 255];
    let y = vec![0u8, 7, 9];
    let mut xy = x.clone();
    xy.extend(y.iter());
    let mut joined = generate_u8_input(x, f);
    joined.extend(generate_u8_input(y, f));
    assert_eq!(generate_u8_input(xy, f), joined);
}

#[test]
fn generate_u8_input_allocates_witnesses() {
    let cs = ConstraintSystem::<Fr>::new_ref();
    let input = vec![0u8, 1, 255, 42];
    let vars = generate_u8_input(input.clone(), |b| UInt8::new_witness(cs.clone(), || Ok(b)));
    assert_eq!(vars.len(), 4);
    for (v, b) in vars.iter().zip(input.iter()) {
        assert_eq!(v.value().unwrap(), *b);
    }
    // each byte is eight boolean witnesses
    assert_eq!(cs.num_witness_variables(), 32);
    assert!(cs.is_satisfied().unwrap());
}

#[test]
fn generate_u8_input_splits_with_fresh_variables() {
    let cs = ConstraintSystem::<Fr>::new_ref();
    let x = vec![1u8, 255];
    let y = vec![0u8, 7, 9];
    let mut xy = x.clone();
    xy.extend(y.iter());
    let vars = generate_u8_input(xy, |b| UInt8::new_witness(cs.clone(), || Ok(b)));
    let head: Vec<u8> = vars[..x.len()].iter().map(|v| v.value().unwrap()).collect();
    let tail: Vec<u8> = vars[x.len()..].iter().map(|v| v.value().unwrap()).collect();
    assert_eq!(head, x);
    assert_eq!(tail, y);
    assert_eq!(cs.num_witness_variables(), 8 * 5);
}

fn circuit_is_satisfied(input: &[u8], tamper: bool) -> bool {
    let rng = &mut test_rng();
    let cs = ConstraintSystem::<Fr>::new_ref();
    let parameters = TestCRH::setup(rng).unwrap();
    let mut primitive_result = TestCRH::evaluate(&parameters, input).unwrap();
    if tamper {
        primitive_result += Fr::from(1u64);
    }
    let input_var =
        generate_u8_input(input.to_vec(), |b| UInt8::new_witness(cs.clone(), || Ok(b)));
    let parameters_var =
        <TestCRHGadget as CRHSchemeGadget<TestCRH, Fr>>::ParametersVar::new_witness(
            cs.clone(),
            || Ok(&parameters),
        )
        .unwrap();
    let actual = TestCRHGadget::evaluate(&parameters_var, &input_var).unwrap();
    let expected = FpVar::new_witness(cs.clone(), || Ok(&primitive_result)).unwrap();
    actual.enforce_equal(&expected).unwrap();
    cs.is_satisfied().unwrap()
}

#[test]
fn hash_circuit_accepts_the_native_hash() {
    let mut input = vec![1u8; 32];
    test_rng().fill_bytes(&mut input);
    assert!(circuit_is_satisfied(&input, false));
}

#[test]
fn hash_circuit_rejects_a_wrong_hash() {
    let mut input = vec![1u8; 32];
    test_rng().fill_bytes(&mut input);
    assert!(!circuit_is_satisfied(&input, true));
}
