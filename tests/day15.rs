use aoc2023::day15::{get_boxes, Operation};

#[test]
fn get_hash() {
    assert_eq!(aoc2023::day15::get_hash("rn=1"), 30);
}

#[test]
fn get_hash_2() {
    assert_eq!(aoc2023::day15::get_hash("rn"), 0);
}

#[test]
fn parse_operations() {
    assert_eq!(
        aoc2023::day15::parse_operations("rn=2"),
        Some(vec![Operation { operator: b'=', label: b"rn".to_vec(), hash: 0, val: Some(2) }])
    );
    assert_eq!(
        aoc2023::day15::parse_operations("cm-"),
        Some(vec![Operation { operator: b'-', label: b"cm".to_vec(), hash: 0, val: None }])
    );
}

#[test]
fn calculate_focusing_power() {
    assert_eq!(
        aoc2023::day15::calculate_focusing_power(
            &get_boxes("rn=1,cm-,qp=3,cm=2,qp-,pc=4,ot=9,ab=5,pc-,pc=6,ot=7").unwrap()
        ),
        Some(145)
    );
}

#[test]
fn day15_boxes_and_errors() {
    assert_eq!(aoc2023::day15::get_hash("HASH"), 52);
    let boxes = get_boxes("rn=1,cm-,qp=3,cm=2,qp-,pc=4,ot=9,ab=5,pc-,pc=6,ot=7").unwrap();
    assert_eq!(boxes.len(), 256);
    assert_eq!(boxes[0], vec![(b"rn".to_vec(), 1), (b"cm".to_vec(), 2)]);
    assert_eq!(boxes[3], vec![(b"ot".to_vec(), 7), (b"ab".to_vec(), 5), (b"pc".to_vec(), 6)]);
    assert_eq!(aoc2023::day15::parse_operations("rn"), None);
    assert_eq!(aoc2023::day15::parse_operations("rn=x"), None);
    assert_eq!(get_boxes("a=1,,b=2"), None);
}

#[test]
fn day15_sum_of_hashes() {
    assert_eq!(
        aoc2023::day15::sum_of_hashes("rn=1,cm-,qp=3,cm=2,qp-,pc=4,ot=9,ab=5,pc-,pc=6,ot=7"),
        Some(1320)
    );
}
