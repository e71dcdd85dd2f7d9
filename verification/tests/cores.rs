use core_to_core_latency::cores::{parse_cores, CoreId, CoresError};

fn cores(n: usize) -> Vec<CoreId> {
    (0..n).map(|id| CoreId { id }).collect()
}

fn specs(list: &str) -> Vec<String> {
    list.split(',').map(|s| s.to_string()).collect()
}

fn chosen(list: &str, n: usize) -> Vec<usize> {
    parse_cores(&specs(list), &cores(n))
        .unwrap()
        .iter()
        .map(|c| c.id)
        .collect()
}

fn message(list: &str, n: usize) -> String {
    parse_cores(&specs(list), &cores(n)).unwrap_err().message()
}

#[test]
fn no_list_chooses_all_cores_in_order() {
    let all = vec![CoreId { id: 4 }, CoreId { id: 1 }, CoreId { id: 9 }];
    let none: Vec<String> = Vec::new();
    assert_eq!(parse_cores(&none, &all).unwrap(), all);
    assert_eq!(parse_cores(&none, &[CoreId { id: 3 }]).unwrap(), vec![CoreId { id: 3 }]);
}

#[test]
fn numbers_are_chosen_in_the_order_of_the_list() {
    assert_eq!(chosen("7,11,13", 16), vec![7, 11, 13]);
    assert_eq!(chosen("13,7", 16), vec![13, 7]);
}

#[test]
fn ranges_are_inclusive() {
    let mut expected: Vec<usize> = (9..45).collect();
    expected.extend(56..64);
    assert_eq!(chosen("9-44,56-63", 64), expected);
    assert_eq!(chosen("0-19", 20), (0..20).collect::<Vec<usize>>());
    assert_eq!(chosen("3-3,1", 4), vec![3, 1]);
}

#[test]
fn whitespace_and_plus_signs_are_accepted() {
    assert_eq!(chosen(" 2 ,\t+3\n", 4), vec![2, 3]);
    assert_eq!(chosen("\u{3000}0-1\u{a0}", 4), vec![0, 1]);
    assert_eq!(chosen("+0-+1", 4), vec![0, 1]);
    assert_eq!(chosen("0000000000000000000000002,1", 4), vec![2, 1]);
}

#[test]
fn whitespace_inside_an_item_is_not_accepted() {
    assert_eq!(message("0 - 1", 4), "Invalid range start in '0 - 1': '0 '");
    assert_eq!(message("1 2", 4), "Invalid core id: '1 2'");
}

#[test]
fn bad_range_starts_are_rejected() {
    assert_eq!(message("x-3", 4), "Invalid range start in 'x-3': 'x'");
    assert_eq!(message("-3", 4), "Invalid range start in '-3': ''");
    assert_eq!(message(" - ", 4), "Invalid range start in '-': ''");
}

#[test]
fn bad_range_ends_are_rejected() {
    assert_eq!(message("1-", 4), "Invalid range end in '1-': ''");
    assert_eq!(message("1-2-3", 4), "Invalid range end in '1-2-3': '2-3'");
    assert_eq!(message("1--3", 4), "Invalid range end in '1--3': '-3'");
}

#[test]
fn inverted_ranges_are_rejected() {
    assert_eq!(message("3-1", 4), "Invalid range '3-1': start (3) > end (1)");
}

#[test]
fn bad_numbers_are_rejected() {
    assert_eq!(message("", 4), "Invalid core id: ''");
    assert_eq!(message("+", 4), "Invalid core id: '+'");
    assert_eq!(message("0x1", 4), "Invalid core id: '0x1'");
    assert_eq!(message("\u{662}", 4), "Invalid core id: '\u{662}'");
    assert_eq!(
        message("99999999999999999999999999", 4),
        "Invalid core id: '99999999999999999999999999'"
    );
    let limit = format!("{}", usize::MAX);
    assert!(message(&limit, 4).starts_with("Core "));
}

#[test]
fn repeated_cores_are_rejected() {
    assert_eq!(message("1,2,1", 4), "Duplicate core id: 1");
    assert_eq!(message("0-2,2", 4), "Duplicate core id: 2");
    assert_eq!(message("9,9", 4), "Duplicate core id: 9");
}

#[test]
fn missing_cores_are_rejected() {
    assert_eq!(message("1,7", 3), "Core 7 not found. Available: [0, 1, 2]");
    let all = vec![CoreId { id: 12 }, CoreId { id: 3 }, CoreId { id: 12 }];
    match parse_cores(&specs("3,4"), &all) {
        Err(CoresError::NotFound { id, available }) => {
            assert_eq!(id, 4);
            assert_eq!(available, vec![3, 12]);
        }
        other => panic!("{:?}", other),
    }
    assert_eq!(
        parse_cores(&specs("3"), &[]).unwrap_err().message(),
        "Core 3 not found. Available: []"
    );
}

#[test]
fn one_core_is_too_few() {
    assert_eq!(message("2", 4), "--cores must specify at least 2 cores, got 1");
}

#[test]
fn the_first_fault_is_told() {
    assert_eq!(message("1,x,y", 4), "Invalid core id: 'x'");
    assert_eq!(message("9,1,1,x", 4), "Invalid core id: 'x'");
    assert_eq!(message("9,1,1", 4), "Duplicate core id: 1");
    assert_eq!(message("9", 4), "Core 9 not found. Available: [0, 1, 2, 3]");
}
