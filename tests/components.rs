use enigma_machine::plugboard::Plugboard;
use enigma_machine::rotor::{Reflector, Rotor, RotorChain};
use enigma_machine::EnigmaError;

#[test]
fn rotor_input() {
    let r = Rotor::default();
    let o = r.input(2).unwrap();
    let o1 = r.rev_input(o).unwrap();
    assert_eq!(2, o1);

    let o = r.input_with_offset(2, 1).unwrap();
    let mut o2 = r.input(3).unwrap();
    if o2 == 0 {
        o2 = 26
    }
    assert_eq!(o2 - 1, o);
}

#[test]
fn input_vs_output() {
    let r1: Rotor = Default::default();
    let r2: Rotor = Default::default();
    let re: Reflector = Reflector::init(26).unwrap(); // reflect

    let mut c1 = RotorChain::new(&vec![r1.clone(), r2.clone()], &re).unwrap();
    // need the new rotorchain for test
    let mut c2 = RotorChain::new(&vec![r1.clone(), r2.clone()], &re).unwrap();

    let output = c1.input(3).unwrap();
    assert_eq!(3, c2.input(output).unwrap());

    // output shoud different
    let output_1 = c1.input(3).unwrap();
    assert!(output_1 != output); // two times answers should not same as each other
    assert_eq!(3, c2.input(output_1).unwrap());

    // reset r1, because everytime, rotor spin one after input
    assert!(c2.spin_status[0] == c1.spin_status[0]);
    assert!(c2.spin_status[0] == 2);
    c2.reset_spin_status();
    assert!(output == c2.input(3).unwrap());

    // check spin status overflow
    c1.reset_spin_status();
    c1.spin_status = vec![25, 25];
    let _ = c1.input(3);
    assert_eq!(c1.spin_status, vec![0, 0]);
    assert_eq!(output, c1.input(3).unwrap());
}

fn small_rotor() -> Rotor {
    Rotor::from_wiring(vec![1, 2, 3, 0]).unwrap()
}

#[test]
fn rotor_exact_lookups() {
    let r = small_rotor();
    assert_eq!(r.len(), 4);
    assert_eq!(r.input(0), Ok(1));
    assert_eq!(r.input(3), Ok(0));
    assert_eq!(r.rev_input(0), Ok(3));
    assert_eq!(r.rev_input(2), Ok(1));
    assert_eq!(r.input(4), Err(EnigmaError::RangeError));
    assert_eq!(r.rev_input(4), Err(EnigmaError::RangeError));
}

#[test]
fn rotor_offset_formula() {
    let r = small_rotor();
    // (w[(3 + 1) mod 4] - 1) mod 4 = (1 - 1) mod 4 = 0
    assert_eq!(r.input_with_offset(3, 1), Ok(0));
    // (w[(0 + 3) mod 4] - 3) mod 4 = (0 - 3) mod 4 = 1
    assert_eq!(r.input_with_offset(0, 3), Ok(1));
    // (w⁻¹[(0 + 1) mod 4] - 1) mod 4 = (0 - 1) mod 4 = 3
    assert_eq!(r.rev_input_with_offset(0, 1), Ok(3));
    // an offset beyond the contact count wraps: 5 acts as 1
    assert_eq!(r.input_with_offset(3, 5), Ok(0));
    assert_eq!(r.input_with_offset(4, 1), Err(EnigmaError::RangeError));
    assert_eq!(r.rev_input_with_offset(4, 1), Err(EnigmaError::RangeError));
}

#[test]
fn rotor_forward_and_inverse_undo_each_other() {
    let r = Rotor::init(26).unwrap();
    for i in 0..26usize {
        assert_eq!(r.rev_input(r.input(i).unwrap()), Ok(i));
        for o in 0..26usize {
            let f = r.input_with_offset(i, o).unwrap();
            assert!(f < 26);
            assert_eq!(r.rev_input_with_offset(f, o), Ok(i));
        }
    }
}

#[test]
fn rotor_init_shuffles_the_wiring() {
    let r = Rotor::init(26).unwrap();
    let moved = (0..26usize).any(|i| r.input(i).unwrap() != i);
    assert!(moved);
}

#[test]
fn rotor_rejects_bad_wirings() {
    assert_eq!(Rotor::init(25).err(), Some(EnigmaError::ConstructionError));
    assert_eq!(Rotor::from_wiring(vec![0, 1, 2]).err(), Some(EnigmaError::ConstructionError));
    assert_eq!(Rotor::from_wiring(vec![0, 0]).err(), Some(EnigmaError::ConstructionError));
    assert_eq!(Rotor::from_wiring(vec![0, 2]).err(), Some(EnigmaError::ConstructionError));
}

#[test]
fn rotor_set_replaces_or_keeps() {
    let mut r = small_rotor();
    assert_eq!(r.set(vec![1, 0]), Ok(()));
    assert_eq!(r.len(), 2);
    assert_eq!(r.input(0), Ok(1));
    assert_eq!(r.set(vec![1, 1]), Err(EnigmaError::ConstructionError));
    assert_eq!(r.input(0), Ok(1));
}

#[test]
fn reflector_is_involution_without_fixed_points() {
    let re = Reflector::init(26).unwrap();
    assert_eq!(re.len(), 26);
    for i in 0..26usize {
        let p = re.input(i).unwrap();
        assert_ne!(p, i);
        assert_eq!(re.input(p), Ok(i));
    }
    assert_eq!(re.input(26), Err(EnigmaError::RangeError));
    assert_eq!(Reflector::init(7).err(), Some(EnigmaError::ConstructionError));
}

#[test]
fn reflector_from_wiring_checks_pairing() {
    let re = Reflector::from_wiring(vec![1, 0, 3, 2]).unwrap();
    assert_eq!(re.input(2), Ok(3));
    assert_eq!(Reflector::from_wiring(vec![0, 1]).err(), Some(EnigmaError::ConstructionError));
    assert_eq!(Reflector::from_wiring(vec![1, 2, 0, 3]).err(), Some(EnigmaError::ConstructionError));
    assert_eq!(Reflector::from_wiring(vec![1, 0, 2]).err(), Some(EnigmaError::ConstructionError));
}

#[test]
fn plugboard_swaps_pairs_both_ways() {
    let pb = Plugboard::new(&vec![(1, 23), (4, 9)]).unwrap();
    assert_eq!(pb.input(1), 23);
    assert_eq!(pb.input(23), 1);
    assert_eq!(pb.input(4), 9);
    assert_eq!(pb.input(9), 4);
    assert_eq!(pb.input(5), 5);
    for i in 0..26usize {
        assert_eq!(pb.input(pb.input(i)), i);
    }
    assert_eq!(Plugboard::default().input(7), 7);
}

#[test]
fn plugboard_rejects_overlapping_pairs() {
    assert_eq!(Plugboard::new(&vec![(1, 2), (2, 3)]).err(), Some(EnigmaError::ConstructionError));
    assert_eq!(Plugboard::new(&vec![(1, 2), (3, 1)]).err(), Some(EnigmaError::ConstructionError));
    assert_eq!(Plugboard::new(&vec![(5, 5)]).err(), Some(EnigmaError::ConstructionError));
}

fn small_chain() -> RotorChain {
    let re = Reflector::from_wiring(vec![1, 0, 3, 2]).unwrap();
    RotorChain::new(&vec![small_rotor()], &re).unwrap()
}

#[test]
fn chain_exact_outputs() {
    let mut c = small_chain();
    assert_eq!(c.len(), 4);
    assert_eq!(c.spin_status, vec![0]);
    // forward 0 -> 1, reflect 1 -> 0, back 0 -> 3
    assert_eq!(c.input(0), Ok(3));
    assert_eq!(c.spin_status, vec![1]);
    // forward 3 -> 0, reflect 0 -> 1, back 1 -> 0 (offset 1)
    assert_eq!(c.input(3), Ok(0));
    assert_eq!(c.spin_status, vec![2]);
}

#[test]
fn chain_range_errors_keep_state() {
    let mut c = small_chain();
    assert_eq!(c.input(4), Err(EnigmaError::RangeError));
    assert_eq!(c.spin_status, vec![0]);
    c.spin_status = vec![0, 0];
    assert_eq!(c.input(1), Err(EnigmaError::RangeError));
    c.spin_status = vec![4];
    assert_eq!(c.input(1), Err(EnigmaError::RangeError));
    assert_eq!(c.spin_status, vec![4]);
}

#[test]
fn chain_rejects_mismatched_sizes() {
    let re = Reflector::from_wiring(vec![1, 0]).unwrap();
    assert_eq!(RotorChain::new(&vec![small_rotor()], &re).err(), Some(EnigmaError::ConstructionError));
}

#[test]
fn chain_set_spin_status_checks_shape() {
    let mut c = small_chain();
    assert_eq!(c.set_spin_status(vec![3]), Ok(()));
    assert_eq!(c.spin_status, vec![3]);
    assert_eq!(c.set_spin_status(vec![4]), Err(EnigmaError::ConstructionError));
    assert_eq!(c.set_spin_status(vec![0, 0]), Err(EnigmaError::ConstructionError));
    assert_eq!(c.spin_status, vec![3]);
}

#[test]
fn odometer_full_carry_resets_all() {
    let re = Reflector::init(26).unwrap();
    let rotors = vec![Rotor::init(26).unwrap(), Rotor::init(26).unwrap(), Rotor::init(26).unwrap()];
    let mut c = RotorChain::new(&rotors, &re).unwrap();
    c.set_spin_status(vec![25, 25, 25]).unwrap();
    c.input(0).unwrap();
    assert_eq!(c.spin_status, vec![0, 0, 0]);
}

#[test]
fn odometer_last_slot_waits_for_carry() {
    let re = Reflector::init(26).unwrap();
    let rotors = vec![Rotor::init(26).unwrap(), Rotor::init(26).unwrap(), Rotor::init(26).unwrap()];
    let mut c = RotorChain::new(&rotors, &re).unwrap();
    c.set_spin_status(vec![0, 0, 25]).unwrap();
    c.input(0).unwrap();
    assert_eq!(c.spin_status, vec![1, 0, 25]);
    c.set_spin_status(vec![25, 24, 25]).unwrap();
    c.input(0).unwrap();
    assert_eq!(c.spin_status, vec![0, 25, 25]);
    c.input(0).unwrap();
    assert_eq!(c.spin_status, vec![1, 25, 25]);
    c.set_spin_status(vec![25, 25, 25]).unwrap();
    c.input(0).unwrap();
    assert_eq!(c.spin_status, vec![0, 0, 0]);
}

#[test]
fn identical_chains_are_deterministic() {
    let re = Reflector::init(26).unwrap();
    let rotors = vec![Rotor::init(26).unwrap(), Rotor::init(26).unwrap()];
    let mut a = RotorChain::new(&rotors, &re).unwrap();
    let mut b = RotorChain::new(&rotors, &re).unwrap();
    a.set_spin_status(vec![7, 3]).unwrap();
    b.set_spin_status(vec![7, 3]).unwrap();
    for x in 0..100usize {
        assert_eq!(a.input(x % 26), b.input(x % 26));
    }
}
