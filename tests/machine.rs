use enigma_machine::plugboard::Plugboard;
use enigma_machine::{EnigmaError, EnigmaM};

#[test]
fn test_input() {
    let pb = Plugboard::default(); // empty
    let mut enigma_machine = EnigmaM::new(26, 3, &pb).unwrap();

    let output = enigma_machine.input(3).unwrap();
    let output1 = enigma_machine.input(3).unwrap();
    assert_ne!(output, output1); // has a tiny ability that output equal output1

    // manually set spin status
    enigma_machine.set_spin_status(vec![0, 0, 0]).unwrap();
    assert_eq!(output, enigma_machine.input(3).unwrap());
    assert_eq!(output1, enigma_machine.input(3).unwrap());

    // test decrypt
    enigma_machine.set_spin_status(vec![0, 0, 0]).unwrap();
    assert_eq!(3, enigma_machine.input(output).unwrap());
    assert_eq!(3, enigma_machine.input(output1).unwrap());

    // test plugboard
    let pb = Plugboard::new(&vec![(1, 23), (4, 9)]).unwrap();
    enigma_machine = EnigmaM::new(26, 3, &pb).unwrap();

    let output = enigma_machine.input(3).unwrap();
    let output1 = enigma_machine.input(3).unwrap();
    assert_ne!(output, output1); // has a tiny ability that output equal output1

    // manually set spin status
    enigma_machine.set_spin_status(vec![0, 0, 0]).unwrap();
    assert_eq!(output, enigma_machine.input(3).unwrap());
    assert_eq!(output1, enigma_machine.input(3).unwrap());

    // test decrypt
    enigma_machine.set_spin_status(vec![0, 0, 0]).unwrap();
    assert_eq!(3, enigma_machine.input(output).unwrap());
    assert_eq!(3, enigma_machine.input(output1).unwrap());
}

#[test]
fn machine_rejects_odd_contact_count() {
    let pb = Plugboard::default();
    assert_eq!(EnigmaM::new(25, 3, &pb).err(), Some(EnigmaError::ConstructionError));
}

#[test]
fn machine_rejects_plugboard_beyond_contacts() {
    let pb = Plugboard::new(&vec![(1, 30)]).unwrap();
    assert_eq!(EnigmaM::new(26, 3, &pb).err(), Some(EnigmaError::ConstructionError));
}

#[test]
fn machine_rejects_index_out_of_range() {
    let pb = Plugboard::default();
    let mut m = EnigmaM::new(26, 3, &pb).unwrap();
    assert_eq!(m.input(26), Err(EnigmaError::RangeError));
    // the failed call left the offsets alone
    let first = m.input(5).unwrap();
    m.set_spin_status(vec![0, 0, 0]).unwrap();
    assert_eq!(m.input(5).unwrap(), first);
}

#[test]
fn machine_rejects_bad_spin_status() {
    let pb = Plugboard::default();
    let mut m = EnigmaM::new(26, 3, &pb).unwrap();
    assert_eq!(m.set_spin_status(vec![0, 0]), Err(EnigmaError::ConstructionError));
    assert_eq!(m.set_spin_status(vec![0, 26, 0]), Err(EnigmaError::ConstructionError));
    assert_eq!(m.set_spin_status(vec![25, 25, 25]), Ok(()));
}

#[test]
fn machine_is_self_reciprocal_over_a_sequence() {
    let pb = Plugboard::new(&vec![(1, 23), (4, 9)]).unwrap();
    let mut m = EnigmaM::new(26, 3, &pb).unwrap();
    m.set_spin_status(vec![24, 25, 3]).unwrap();
    let plain: Vec<usize> = (0..60).map(|x| (x * 7 + 3) % 26).collect();
    let cipher: Vec<usize> = plain.iter().map(|&x| m.input(x).unwrap()).collect();
    m.set_spin_status(vec![24, 25, 3]).unwrap();
    let back: Vec<usize> = cipher.iter().map(|&x| m.input(x).unwrap()).collect();
    assert_eq!(back, plain);
}

#[test]
fn machine_never_maps_a_symbol_to_itself() {
    let pb = Plugboard::new(&vec![(1, 23), (4, 9)]).unwrap();
    let mut m = EnigmaM::new(26, 3, &pb).unwrap();
    for x in 0..200usize {
        let i = x % 26;
        assert_ne!(m.input(i).unwrap(), i);
    }
}

#[test]
fn end_to_end_scenario_with_plugboard() {
    let pb = Plugboard::new(&vec![(1, 23), (4, 9)]).unwrap();
    let mut m = EnigmaM::new(26, 3, &pb).unwrap();
    m.set_spin_status(vec![0, 0, 0]).unwrap();
    let o0 = m.input(3).unwrap();
    let o1 = m.input(3).unwrap();
    m.set_spin_status(vec![0, 0, 0]).unwrap();
    assert_eq!(m.input(o0).unwrap(), 3);
    assert_eq!(m.input(o1).unwrap(), 3);
}
