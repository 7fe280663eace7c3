use point_clusters::bignum::Big;
use point_clusters::digits::parse_ll;
use point_clusters::joltage::{part1, part2};
use point_clusters::ranges::{is_fresh, merge_ranges, Range};
use point_clusters::repeats::{is_double_repeat, is_multi_repeat};

#[test]
fn parse_ll_reads_digits_only() {
    assert_eq!(parse_ll("123"), 123);
    assert_eq!(parse_ll("  4 5x6 "), 456);
    assert_eq!(parse_ll(""), 0);
    assert_eq!(parse_ll("abc"), 0);
    assert_eq!(parse_ll("9223372036854775807"), i64::MAX);
}

#[test]
fn double_repeat_detection() {
    assert!(is_double_repeat("55"));
    assert!(is_double_repeat("6464"));
    assert!(is_double_repeat("123123"));
    assert!(is_double_repeat(""));
    assert!(!is_double_repeat("101"));
    assert!(!is_double_repeat("1231"));
    assert!(!is_double_repeat("111"));
}

#[test]
fn multi_repeat_detection() {
    assert!(is_multi_repeat("111"));
    assert!(is_multi_repeat("121212"));
    assert!(is_multi_repeat("12341234"));
    assert!(is_multi_repeat("1188511885"));
    assert!(!is_multi_repeat("1"));
    assert!(!is_multi_repeat(""));
    assert!(!is_multi_repeat("12312"));
    assert!(!is_multi_repeat("1213"));
}

#[test]
fn part1_largest_two_digit_pair() {
    assert_eq!(part1("987654321111111"), 98);
    assert_eq!(part1("811111111111119"), 89);
    assert_eq!(part1("234234234234278"), 78);
    assert_eq!(part1("818181911112111"), 92);
    assert_eq!(part1("7"), 0);
    assert_eq!(part1(""), 0);
}

#[test]
fn is_fresh_binary_search() {
    let rs = vec![
        Range { left: 3, right: 5 },
        Range { left: 10, right: 20 },
        Range { left: 25, right: 25 },
    ];
    assert!(is_fresh(&rs, 3));
    assert!(is_fresh(&rs, 5));
    assert!(is_fresh(&rs, 17));
    assert!(is_fresh(&rs, 25));
    assert!(!is_fresh(&rs, 1));
    assert!(!is_fresh(&rs, 8));
    assert!(!is_fresh(&rs, 21));
    assert!(!is_fresh(&rs, 32));
    assert!(!is_fresh(&[], 0));
}

#[test]
fn big_addition_carries() {
    let mut a = Big::from_u64(u64::MAX);
    a.add_u64(1);
    assert_eq!(a.digits, vec![0, 1]);
    let b = Big::from_u64(u64::MAX);
    a.add_assign(&b);
    assert_eq!(a.digits, vec![u64::MAX, 1]);
    a.add_u64(1);
    assert_eq!(a.digits, vec![0, 2]);
}

#[test]
fn big_zero_is_empty() {
    let mut z = Big::new();
    assert!(z.digits.is_empty());
    z.add_assign(&Big::new());
    assert!(z.digits.is_empty());
    z.add_u64(0);
    assert!(z.digits.is_empty());
    z.add_u64(7);
    assert_eq!(z.digits, vec![7]);
}

#[test]
fn merge_ranges_joins_overlaps_and_neighbours() {
    let mut rs = vec![
        Range { left: 16, right: 20 },
        Range { left: 3, right: 5 },
        Range { left: 12, right: 18 },
        Range { left: 10, right: 14 },
        Range { left: 6, right: 6 },
        Range { left: 30, right: 31 },
    ];
    let merged = merge_ranges(&mut rs);
    assert_eq!(
        merged,
        vec![
            Range { left: 3, right: 6 },
            Range { left: 10, right: 20 },
            Range { left: 30, right: 31 },
        ]
    );
    let lefts: Vec<i64> = rs.iter().map(|r| r.left).collect();
    assert_eq!(lefts, vec![3, 6, 10, 12, 16, 30]);
    assert!(is_fresh(&merged, 6));
    assert!(is_fresh(&merged, 19));
    assert!(!is_fresh(&merged, 8));
    assert!(!is_fresh(&merged, 25));
}

#[test]
fn merge_ranges_of_nothing() {
    let mut rs: Vec<Range> = Vec::new();
    assert!(merge_ranges(&mut rs).is_empty());
}

#[test]
fn part2_keeps_largest_twelve_digits() {
    assert_eq!(part2("987654321111111"), 987654321111);
    assert_eq!(part2("811111111111119"), 811111111119);
    assert_eq!(part2("234234234234278"), 434234234278);
    assert_eq!(part2("818181911112111"), 888911112111);
}

#[test]
fn part2_edges() {
    assert_eq!(part2("12345678901"), 0);
    assert_eq!(part2(""), 0);
    assert_eq!(part2("123456789012"), 123456789012);
    assert_eq!(part2("1111111111119"), 111111111119);
    assert_eq!(part2("9999999999990"), 999999999999);
}
