use finite_topology::binary::Binary;

#[test]
fn when_new_binary_of_size_three_then_return_all_false() {
    let new_binary = Binary::new(3);
    let mut result = true;
    for should_be_false in new_binary.get() {
        result = result & (!should_be_false);
    }
    assert!(result);
}

#[test]
fn when_new_binary_of_size_three_and_goto_next_once_then_first_element_is_true_and_other_elements_are_false() {
    let mut new_binary = Binary::new(3);
    new_binary.next();

    let mut iter_bools = new_binary.get().iter();

    // first element should be true
    match iter_bools.next() {
        Some(should_be_true) => {
            assert!(should_be_true);
        },
        None => {
            panic!("Error in tests for struct Binary: first element in vector of booleans is missing");
        }
    }

    // second element should be false
    match iter_bools.next() {
        Some(should_be_false) => {
            assert!(!should_be_false);
        },
        None => {
            panic!("Error in tests for struct Binary: second element in vector of booleans is missing");
        }
    }

    // third element should be false
    match iter_bools.next() {
        Some(should_be_false) => {
            assert!(!should_be_false);
        },
        None => {
            panic!("Error in tests for struct Binary: third element in vector of booleans is missing");
        }
    }
}

#[test]
fn when_new_binary_of_size_three_and_goto_next_twice_then_first_element_is_false_second_is_true_and_third_is_false() {
    let mut new_binary = Binary::new(3);
    new_binary.next();
    new_binary.next();

    let mut iter_bools = new_binary.get().iter();

    // first element should be false
    match iter_bools.next() {
        Some(should_be_false) => {
            assert!(!should_be_false);
        },
        None => {
            panic!("Error in tests for struct Binary: first element in vector of booleans is missing");
        }
    }

    // second element should be true
    match iter_bools.next() {
        Some(should_be_true) => {
            assert!(should_be_true);
        },
        None => {
            panic!("Error in tests for struct Binary: second element in vector of booleans is missing");
        }
    }

    // third element should be false
    match iter_bools.next() {
        Some(should_be_false) => {
            assert!(!should_be_false);
        },
        None => {
            panic!("Error in tests for struct Binary: third element in vector of booleans is missing");
        }
    }
}

#[test]
fn when_new_binary_of_size_three_and_goto_next_three_times_then_first_element_is_true_second_is_true_and_third_is_false() {
    let mut new_binary = Binary::new(3);
    new_binary.next();
    new_binary.next();
    new_binary.next();

    let mut iter_bools = new_binary.get().iter();

    // first element should be true
    match iter_bools.next() {
        Some(should_be_true) => {
            assert!(should_be_true);
        },
        None => {
            panic!("Error in tests for struct Binary: first element in vector of booleans is missing");
        }
    }

    // second element should be true
    match iter_bools.next() {
        Some(should_be_true) => {
            assert!(should_be_true);
        },
        None => {
            panic!("Error in tests for struct Binary: second element in vector of booleans is missing");
        }
    }

    // third element should be false
    match iter_bools.next() {
        Some(should_be_false) => {
            assert!(!should_be_false);
        },
        None => {
            panic!("Error in tests for struct Binary: third element in vector of booleans is missing");
        }
    }
}

#[test]
fn when_new_binary_of_size_three_and_goto_next_four_times_then_first_element_is_false_second_is_false_and_third_is_true() {
    let mut new_binary = Binary::new(3);
    new_binary.next();
    new_binary.next();
    new_binary.next();
    new_binary.next();

    let mut iter_bools = new_binary.get().iter();

    // first element should be false
    match iter_bools.next() {
        Some(should_be_false) => {
            assert!(!should_be_false);
        },
        None => {
            panic!("Error in tests for struct Binary: first element in vector of booleans is missing");
        }
    }

    // second element should be false
    match iter_bools.next() {
        Some(should_be_false) => {
            assert!(!should_be_false);
        },
        None => {
            panic!("Error in tests for struct Binary: second element in vector of booleans is missing");
        }
    }

    // third element should be true
    match iter_bools.next() {
        Some(should_be_true) => {
            assert!(should_be_true);
        },
        None => {
            panic!("Error in tests for struct Binary: third element in vector of booleans is missing");
        }
    }
}

#[test]
fn when_new_binary_of_size_three_and_goto_next_five_times_then_first_element_is_true_second_is_false_and_third_is_true() {
    let mut new_binary = Binary::new(3);
    new_binary.next();
    new_binary.next();
    new_binary.next();
    new_binary.next();
    new_binary.next();

    let mut iter_bools = new_binary.get().iter();

    // first element should be true
    match iter_bools.next() {
        Some(should_be_true) => {
            assert!(should_be_true);
        },
        None => {
            panic!("Error in tests for struct Binary: first element in vector of booleans is missing");
        }
    }

    // second element should be false
    match iter_bools.next() {
        Some(should_be_false) => {
            assert!(!should_be_false);
        },
        None => {
            panic!("Error in tests for struct Binary: second element in vector of booleans is missing");
        }
    }

    // third element should be true
    match iter_bools.next() {
        Some(should_be_true) => {
            assert!(should_be_true);
        },
        None => {
            panic!("Error in tests for struct Binary: third element in vector of booleans is missing");
        }
    }
}

#[test]
fn when_new_binary_of_size_three_and_goto_next_six_times_then_first_element_is_false_second_is_true_and_third_is_true() {
    let mut new_binary = Binary::new(3);
    new_binary.next();
    new_binary.next();
    new_binary.next();
    new_binary.next();
    new_binary.next();
    new_binary.next();

    let mut iter_bools = new_binary.get().iter();

    // first element should be false
    match iter_bools.next() {
        Some(should_be_false) => {
            assert!(!should_be_false);
        },
        None => {
            panic!("Error in tests for struct Binary: first element in vector of booleans is missing");
        }
    }

    // second element should be false
    match iter_bools.next() {
        Some(should_be_true) => {
            assert!(should_be_true);
        },
        None => {
            panic!("Error in tests for struct Binary: second element in vector of booleans is missing");
        }
    }

    // third element should be true
    match iter_bools.next() {
        Some(should_be_true) => {
            assert!(should_be_true);
        },
        None => {
            panic!("Error in tests for struct Binary: third element in vector of booleans is missing");
        }
    }
}

#[test]
fn when_new_binary_of_size_three_and_goto_next_seven_times_then_all_elements_are_true() {
    let mut new_binary = Binary::new(3);
    new_binary.next();
    new_binary.next();
    new_binary.next();
    new_binary.next();
    new_binary.next();
    new_binary.next();
    new_binary.next();

    let mut result = true;
    for should_be_true in new_binary.get() {
        result = result & should_be_true;
    }
    assert!(result);
}

#[test]
fn when_new_binary_of_size_one_then_element_is_false() {
    let new_binary = Binary::new(1);
    let this_bool = new_binary.get().get(0);
    assert!(matches!(this_bool, Some(false)));
}

#[test]
fn when_new_binary_of_size_one_and_goto_next_once_then_element_is_true() {
    let mut new_binary = Binary::new(1);
    assert!(matches!(new_binary.next(), Some(_)));
    let this_bool = new_binary.get().get(0);
    assert!(matches!(this_bool, Some(true)));
}

#[test]
fn when_new_binary_of_size_three_and_goto_next_eight_times_then_return_none() {
    let mut new_binary = Binary::new(3);
    assert!(matches!(new_binary.next(), Some(_)));
    assert!(matches!(new_binary.next(), Some(_)));
    assert!(matches!(new_binary.next(), Some(_)));
    assert!(matches!(new_binary.next(), Some(_)));
    assert!(matches!(new_binary.next(), Some(_)));
    assert!(matches!(new_binary.next(), Some(_)));
    assert!(matches!(new_binary.next(), Some(_)));
    assert!(matches!(new_binary.next(), None));
}
