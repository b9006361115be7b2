use aoc2023::day19::{apply_operator, parse, solve_1, Operator, Part, Rule, Workflow};

const EXAMPLE_INPUT: &str = "px{a<2006:qkq,m>2090:A,rfg}
pv{a>1716:R,A}
lnx{m>1548:A,A}
rfg{s<537:gd,x>2440:R,A}
qs{s>3448:A,lnx}
qkq{x<1416:A,crn}
crn{x>2662:A,R}
in{s<1351:px,qqz}
qqz{s>2770:qs,m<1801:hdj,R}
gd{a>3333:R,R}
hdj{m>838:A,pv}

{x=787,m=2655,a=1222,s=2876}
{x=1679,m=44,a=2067,s=496}
{x=2036,m=264,a=79,s=2244}
{x=2461,m=1339,a=466,s=291}
{x=2127,m=1623,a=2188,s=1013}";

#[test]
fn day19_parse() {
    assert_eq!(
        parse(&EXAMPLE_INPUT.lines().next().unwrap()),
        Some((
            vec![Workflow {
                name: b"px".to_vec(),
                rules: vec![
                    Rule {
                        operator: Some(Operator::LessThan),
                        reference: Some(2006),
                        element: Some(b'a'),
                        target: b"qkq".to_vec(),
                    },
                    Rule {
                        operator: Some(Operator::GreaterThan),
                        reference: Some(2090),
                        element: Some(b'm'),
                        target: b"A".to_vec(),
                    },
                    Rule { operator: None, reference: None, element: None, target: b"rfg".to_vec() },
                ]
            }],
            Vec::new()
        ))
    );
}

#[test]
fn parse_2() {
    assert_eq!(
        parse(&EXAMPLE_INPUT.lines().last().unwrap()),
        Some((Vec::new(), vec![Part { x: 2127, m: 1623, a: 2188, s: 1013 }]))
    );
}

#[test]
fn do_workflow() {
    let parsed_input = parse(&EXAMPLE_INPUT).unwrap();
    assert_eq!(
        aoc2023::day19::do_workflow(&parsed_input.0, &parsed_input.1.first().unwrap(), b"in"),
        Some(true)
    );
}

#[test]
fn day19_totals_and_rules() {
    assert_eq!(solve_1(EXAMPLE_INPUT), Some(19114));
    let parsed = parse(EXAMPLE_INPUT).unwrap();
    assert_eq!(aoc2023::day19::do_workflow(&parsed.0, &parsed.1[1], b"in"), Some(false));
    assert_eq!(aoc2023::day19::do_workflow(&parsed.0, &parsed.1[1], b"nowhere"), None);
    let p = Part { x: 1, m: 2, a: 3, s: 4 };
    assert_eq!(p.get(b's'), Some(4));
    assert_eq!(p.get(b'q'), None);
    let r = Rule { operator: Some(Operator::GreaterThan), reference: Some(3), element: Some(b'a'), target: b"A".to_vec() };
    assert_eq!(apply_operator(&r, &p), Some(false));
    let loops = parse("in{a{\nx{x>0:in,R}").unwrap();
    assert_eq!(loops.0.len(), 2);
    let cyc = parse("in{x>0:in,R}\n{x=1,m=0,a=0,s=0}").unwrap();
    assert_eq!(aoc2023::day19::do_workflow(&cyc.0, &cyc.1[0], b"in"), None);
    assert_eq!(parse("{x=1,m}"), None);
}
