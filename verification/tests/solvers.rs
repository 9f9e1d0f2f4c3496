use grid_patrol::equation;
use grid_patrol::equation::{checked_concat, checked_pow10, count_digits, Equation};
use grid_patrol::instruction::{load_instructions, Instruction};
use grid_patrol::mul_instruction::MulInstruction;
use grid_patrol::num_wrapper::NumWrapper;
use grid_patrol::number_list::NumberList;
use grid_patrol::page_ordering::{
    get_middle, is_in_right_order, PageOrdering, PageOrderingElement,
};
use grid_patrol::report::{difference, is_safe, Report};
use grid_patrol::utilities::{DigitCount, IncrementAfter, IsEven, MoveElement};

#[test]
fn test_mul_inst_new() -> Result<(), &'static str> {
    let start = std::time::Instant::now();
    let (test, _) = MulInstruction::new("mul(1,2)")?;
    let expected = MulInstruction {
        value_1: 1,
        value_2: 2,
    };
    assert_eq!(test, expected);
    println!("{:?}", start.elapsed());
    Ok(())
}

#[test]
fn test() {
    let test_eq = Equation::new(21037, vec![9, 7, 18, 3]);
    assert!(!test_eq.is_possible_p1());
}

#[test]
fn test_cancat() {
    assert_eq!(equation::concat(10, 1), 101)
}

#[test]
fn test_number_list() {
    let test = NumberList::new(vec![1, 2, 3, 4]);
    assert_eq!(test[0], 1);
    let mut test = test;
    test[1] = 5;
    assert_eq!(test[1], 5);
}

#[test]
fn mul_reads_up_to_three_digits() {
    let (m, used) = MulInstruction::new("mul(123,456)").unwrap();
    assert_eq!(m, MulInstruction { value_1: 123, value_2: 456 });
    assert_eq!(used, 11);
    let (m, used) = MulInstruction::new("mul(12,3)xyz").unwrap();
    assert_eq!(m, MulInstruction { value_1: 12, value_2: 3 });
    assert_eq!(used, 8);
    let (m, used) = MulInstruction::new("mul(1,2)").unwrap();
    assert_eq!(m, MulInstruction { value_1: 1, value_2: 2 });
    assert_eq!(used, 7);
    let (m, _) = MulInstruction::new("mul(007,090)").unwrap();
    assert_eq!(m, MulInstruction { value_1: 7, value_2: 90 });
}

#[test]
fn mul_faults_have_their_words() {
    assert_eq!(
        MulInstruction::new("mal(1,2)xx").unwrap_err(),
        "The string does not start with a mul("
    );
    assert_eq!(
        MulInstruction::new("mul(,2)xxx").unwrap_err(),
        "v_1_counter is 0 so no value was read"
    );
    assert_eq!(MulInstruction::new("mul(1234,5)").unwrap_err(), "Expected an , after value_1");
    assert_eq!(MulInstruction::new("mul(12;34)").unwrap_err(), "Expected an , after value_1");
    assert_eq!(
        MulInstruction::new("mul(123,4").unwrap_err(),
        "Could not get a char from the string for value 1"
    );
    assert_eq!(
        MulInstruction::new("mul(123,").unwrap_err(),
        "Could not get a char from the string for value 1"
    );
    assert_eq!(
        MulInstruction::new("mul(1,)xxx").unwrap_err(),
        "v_2_counter is 0 so no value was read"
    );
    assert_eq!(
        MulInstruction::new("mul(1,2345)").unwrap_err(),
        "The chain does not end with a )"
    );
    assert_eq!(
        MulInstruction::new("mul(123,4567").unwrap_err(),
        "The chain does not end with a )"
    );
    assert_eq!(
        MulInstruction::new("mul(1,23]xx").unwrap_err(),
        "The chain does not end with a )"
    );
}

#[test]
fn instructions_are_found_in_order() {
    let text = "xmul(2,4)%&mul[3,7]!@^do_not_mul(5,5)+mul(32,64]then(mul(11,8)mul(8,5))........";
    let found = load_instructions(text);
    let mul = |a, b| Instruction::Mul(MulInstruction { value_1: a, value_2: b });
    assert_eq!(found, vec![mul(2, 4), mul(5, 5), mul(11, 8), mul(8, 5)]);
    let text = "xmul(2,4)&mul[3,7]!^don't()_mul(5,5)+mul(32,64](mul(11,8)undo()?mul(8,5))........";
    let found = load_instructions(text);
    assert_eq!(
        found,
        vec![mul(2, 4), Instruction::Dont, mul(5, 5), mul(11, 8), Instruction::Do, mul(8, 5)]
    );
    assert_eq!(load_instructions("mul(1,2)"), vec![]);
    assert_eq!(load_instructions("mul(1,2)x"), vec![mul(1, 2)]);
    assert_eq!(load_instructions(""), vec![]);
}

#[test]
fn instruction_kinds() {
    let m = MulInstruction { value_1: 3, value_2: 4 };
    assert!(Instruction::Mul(m).is_mul());
    assert!(!Instruction::Do.is_mul());
    assert!(!Instruction::Dont.is_mul());
    assert_eq!(Instruction::Mul(m).unwrap_mul(), m);
}

#[test]
fn wrapped_numbers_add_up() {
    let mut n = NumWrapper::new(5u32);
    assert_eq!(*n, 5);
    n.add_assign(7);
    assert_eq!(*n, 12);
    n.add_assign_wrapped(NumWrapper::new(8));
    assert_eq!(*n, 20);
    n.add_assign_mul(MulInstruction { value_1: 3, value_2: 4 });
    assert_eq!(*n, 32);
    assert_eq!(*(n + 1), 33);
    assert_eq!(*(n + NumWrapper::new(10)), 42);
    *n = 1;
    assert_eq!(*n, 1);
}

#[test]
fn equations_with_sum_and_product() {
    assert!(Equation::new(190, vec![10, 19]).is_possible_p1());
    assert!(Equation::new(3267, vec![81, 40, 27]).is_possible_p1());
    assert!(!Equation::new(83, vec![17, 5]).is_possible_p1());
    assert!(!Equation::new(156, vec![15, 6]).is_possible_p1());
    assert!(Equation::new(292, vec![11, 6, 16, 20]).is_possible_p1());
    assert!(Equation::new(7, vec![7]).is_possible_p1());
    assert!(!Equation::new(7, vec![8]).is_possible_p1());
    assert!(!Equation::new(u128::MAX, vec![u128::MAX, 2]).is_possible_p1());
    assert!(Equation::new(u128::MAX, vec![u128::MAX, 1]).is_possible_p1());
    assert!(!Equation::new(5, vec![6, 0, 5]).is_possible_p1());
}

#[test]
fn equations_with_joined_numbers() {
    assert!(Equation::new(156, vec![15, 6]).is_possible_p2());
    assert!(Equation::new(7290, vec![6, 8, 6, 15]).is_possible_p2());
    assert!(Equation::new(192, vec![17, 8, 14]).is_possible_p2());
    assert!(Equation::new(190, vec![10, 19]).is_possible_p2());
    assert!(!Equation::new(83, vec![17, 5]).is_possible_p2());
    assert!(!Equation::new(21037, vec![9, 7, 18, 13]).is_possible_p2());
    assert!(Equation::new(21037, vec![9, 7, 18, 13]).test_is_possible_p2(21037, 4));
    assert!(!Equation::new(21037, vec![9, 7, 18, 13]).test_is_possible_p1(21038, 4));
}

#[test]
fn digits_and_joining() {
    assert_eq!(count_digits(0), 0);
    assert_eq!(count_digits(9), 1);
    assert_eq!(count_digits(10), 2);
    assert_eq!(count_digits(u128::MAX), 39);
    assert_eq!(equation::concat(12, 345), 12345);
    assert_eq!(equation::concat(7, 0), 7);
    assert_eq!(equation::concat(0, 12), 12);
    assert_eq!(checked_concat(1, u128::MAX), None);
    assert_eq!(checked_concat(0, u128::MAX), Some(u128::MAX));
    assert_eq!(checked_concat(u128::MAX, 1), None);
    assert_eq!(checked_concat(34028236692093846346337460743176821145, 5), Some(u128::MAX));
    assert_eq!(checked_concat(34028236692093846346337460743176821145, 6), None);
    assert_eq!(checked_pow10(0), Some(1));
    assert_eq!(checked_pow10(3), Some(1000));
    assert_eq!(checked_pow10(38), Some(100000000000000000000000000000000000000));
    assert_eq!(checked_pow10(39), None);
}

#[test]
fn reports_zero_tolerance() {
    let report = |v: Vec<u32>| Report::new(NumberList::new(v));
    assert!(report(vec![7, 6, 4, 2, 1]).is_safe_zero_tolerance());
    assert!(!report(vec![1, 2, 7, 8, 9]).is_safe_zero_tolerance());
    assert!(!report(vec![9, 7, 6, 2, 1]).is_safe_zero_tolerance());
    assert!(!report(vec![1, 3, 2, 4, 5]).is_safe_zero_tolerance());
    assert!(!report(vec![8, 6, 4, 4, 1]).is_safe_zero_tolerance());
    assert!(report(vec![1, 3, 6, 7, 9]).is_safe_zero_tolerance());
    assert!(!report(vec![]).is_safe_zero_tolerance());
    assert!(!report(vec![5]).is_safe_zero_tolerance());
    assert!(report(vec![5, 6]).is_safe_zero_tolerance());
    assert!(!report(vec![5, 5]).is_safe_zero_tolerance());
    assert!(!report(vec![5, 9]).is_safe_zero_tolerance());
}

#[test]
fn reports_one_tolerance() {
    let report = |v: Vec<u32>| Report::new(NumberList::new(v));
    assert!(report(vec![7, 6, 4, 2, 1]).is_safe_one_tolerance());
    assert!(!report(vec![1, 2, 7, 8, 9]).is_safe_one_tolerance());
    assert!(!report(vec![9, 7, 6, 2, 1]).is_safe_one_tolerance());
    assert!(report(vec![1, 3, 2, 4, 5]).is_safe_one_tolerance());
    assert!(report(vec![8, 6, 4, 4, 1]).is_safe_one_tolerance());
    assert!(report(vec![1, 3, 6, 7, 9]).is_safe_one_tolerance());
    assert!(report(vec![9, 1, 2, 3]).is_safe_one_tolerance());
    assert!(report(vec![1, 2, 3, 9]).is_safe_one_tolerance());
    assert!(!report(vec![1, 2]).is_safe_one_tolerance() == false);
    assert!(!report(vec![1]).is_safe_one_tolerance());
    assert!(report(vec![1, 1, 2]).is_safe_one_tolerance());
    assert!(!report(vec![1, 1]).is_safe_one_tolerance());
}

#[test]
fn report_helpers() {
    assert_eq!(difference(3, 7), (4, true));
    assert_eq!(difference(7, 3), (4, false));
    assert_eq!(difference(5, 5), (0, false));
    assert!(is_safe(&vec![1, 2, 4]));
    assert!(!is_safe(&vec![1, 2, 2]));
}

#[test]
fn page_rules() {
    let rules = PageOrdering::new(vec![
        PageOrderingElement::new(47, 53),
        PageOrderingElement::new(97, 13),
        PageOrderingElement::new(97, 61),
        PageOrderingElement::new(75, 47),
        PageOrderingElement::new(u32::MAX, 0),
    ]);
    assert!(rules.should_be_before(47, 53));
    assert!(!rules.should_be_before(53, 47));
    assert!(rules.should_be_before(1, 2));
    assert!(rules.should_be_before(2, 1));
    assert!(!rules.should_be_before(0, u32::MAX));
    assert!(rules.should_be_before(u32::MAX, 0));
    assert!(rules.should_be_before(0, u32::MAX - 1));
    assert!(is_in_right_order(&rules, &vec![75, 47, 53]));
    assert!(!is_in_right_order(&rules, &vec![53, 47]));
    assert!(is_in_right_order(&rules, &vec![53, 75, 47]));
    assert!(is_in_right_order(&rules, &vec![53, 53]));
    assert!(is_in_right_order(&rules, &vec![]));
    assert!(is_in_right_order(&rules, &vec![13]));
    assert_eq!(get_middle(vec![75, 47, 61, 53, 29]), 61);
    assert_eq!(get_middle(vec![1, 2]), 2);
    assert_eq!(PageOrderingElement::new(3, 4).into_pair(), (3, 4));
    assert!(PageOrderingElement::new(3, 4) == PageOrderingElement::new(3, 4));
    assert!(PageOrderingElement::new(3, 4) != PageOrderingElement::new(4, 3));
}

#[test]
fn numeric_helpers() {
    assert!(4u32.is_even());
    assert!(!7usize.is_even());
    assert!(0u8.is_even());
    assert!(!u128::MAX.is_even());
    assert!(!u16::MAX.is_even());
    assert!((u64::MAX - 1).is_even());
    let mut n: usize = 3;
    assert_eq!(n.increment_after(), 3);
    assert_eq!(n, 4);
    let mut m: u8 = 254;
    assert_eq!(m.increment_after(), 254);
    assert_eq!(m, 255);
    assert_eq!(0u64.digit_count(), 0);
    assert_eq!(7u8.digit_count(), 1);
    assert_eq!(1000u32.digit_count(), 4);
    assert_eq!(u64::MAX.digit_count(), 20);
    assert_eq!(u128::MAX.digit_count(), 39);
    assert_eq!(999usize.digit_count(), 3);
    assert_eq!(u16::MAX.digit_count(), 5);
}

#[test]
fn elements_move() {
    let mut v = vec![0, 1, 2, 3, 4];
    v.move_element(1, 3);
    assert_eq!(v, vec![0, 2, 3, 1, 4]);
    v.move_element(4, 0);
    assert_eq!(v, vec![4, 0, 2, 3, 1]);
    v.move_element(2, 2);
    assert_eq!(v, vec![4, 0, 2, 3, 1]);
    v.move_element(5, 0);
    assert_eq!(v, vec![4, 0, 2, 3, 1]);
    v.move_element(0, 5);
    assert_eq!(v, vec![4, 0, 2, 3, 1]);
}
