use fath2boinc::fixed::parse_fixed;
use fath2boinc::fixed::SCALE;
use fath2boinc::hex::is_md5_hex;
use fath2boinc::user::User;

const CPID: &str = "0123456789abcdef0123456789abcdef";

fn chars(s: &str) -> Vec<char> {
    s.chars().collect()
}

#[test]
fn md5_hex_accepts_valid() {
    assert!(is_md5_hex(&String::from(CPID)));
    assert!(is_md5_hex(&String::from("ABCDEF0123456789abcdef0123456789")));
}

#[test]
fn md5_hex_rejects_bad() {
    assert!(!is_md5_hex(&String::from("")));
    assert!(!is_md5_hex(&String::from("0123456789abcdef0123456789abcde")));
    assert!(!is_md5_hex(&String::from("0123456789abcdef0123456789abcdef0")));
    assert!(!is_md5_hex(&String::from("0123456789abcdef0123456789abcdeg")));
    assert!(!is_md5_hex(&String::from("0123456789abcdef0123456789abcd_f")));
}

#[test]
fn parse_fixed_whole_and_fraction() {
    assert_eq!(parse_fixed(&chars("0")), Some(0));
    assert_eq!(parse_fixed(&chars("100.0")), Some(100 * SCALE));
    assert_eq!(parse_fixed(&chars("12.5")), Some(1_250_000_000));
    assert_eq!(parse_fixed(&chars("12345.67800000")), Some(1_234_567_800_000));
    assert_eq!(parse_fixed(&chars("0.00000001")), Some(1));
}

#[test]
fn parse_fixed_truncates_extra_digits() {
    assert_eq!(parse_fixed(&chars("1.000000019")), Some(100_000_001));
}

#[test]
fn parse_fixed_rejects_garbage() {
    assert_eq!(parse_fixed(&chars("")), None);
    assert_eq!(parse_fixed(&chars("abc")), None);
    assert_eq!(parse_fixed(&chars("1e5")), None);
    assert_eq!(parse_fixed(&chars("-1")), None);
    assert_eq!(parse_fixed(&chars("1.")), None);
    assert_eq!(parse_fixed(&chars(".5")), None);
    assert_eq!(parse_fixed(&chars("1.2.3")), None);
    assert_eq!(parse_fixed(&chars("99999999999999999999")), None);
}

#[test]
fn new_user_is_zeroed() {
    let u = User::new(&String::from(CPID));
    assert_eq!(u.cpid, CPID);
    assert_eq!(u.total_credit, 0);
    assert_eq!(u.expavg_credit, 0);
    assert_eq!(u.expavg_time, 0);
}

#[test]
fn first_observation_keeps_expavg() {
    let mut u = User::new(&String::from(CPID));
    u.update_stats(100 * SCALE, 1_000_000_000 * SCALE);
    assert_eq!(u.total_credit, 100 * SCALE);
    assert_eq!(u.expavg_credit, 0);
    assert_eq!(u.expavg_time, 1_000_000_000 * SCALE);
}

#[test]
fn negative_work_is_identity() {
    let mut u = User {
        cpid: String::from(CPID),
        total_credit: 500 * SCALE,
        expavg_credit: 7 * SCALE,
        expavg_time: 1_000_000_000 * SCALE,
    };
    u.update_stats(400 * SCALE, 1_000_086_400 * SCALE);
    assert_eq!(u.total_credit, 500 * SCALE);
    assert_eq!(u.expavg_credit, 7 * SCALE);
    assert_eq!(u.expavg_time, 1_000_000_000 * SCALE);
}

#[test]
fn one_day_decay_and_accumulate() {
    let mut u = User {
        cpid: String::from(CPID),
        total_credit: 100 * SCALE,
        expavg_credit: 0,
        expavg_time: 1_000_000_000 * SCALE,
    };
    u.update_stats(200 * SCALE, 1_000_086_400 * SCALE);
    assert_eq!(u.total_credit, 200 * SCALE);
    assert_eq!(u.expavg_credit, 942_763_200);
    assert_eq!(u.expavg_time, 1_000_086_400 * SCALE);
}

#[test]
fn one_second_interval_uses_weight_branch() {
    let mut u = User {
        cpid: String::from(CPID),
        total_credit: 0,
        expavg_credit: 10 * SCALE,
        expavg_time: 1_000_000_000 * SCALE,
    };
    u.update_stats(SCALE, 1_000_000_001 * SCALE);
    assert_eq!(u.total_credit, SCALE);
    assert_eq!(u.expavg_credit, 1_009_848_460);
    assert_eq!(u.expavg_time, 1_000_000_001 * SCALE);
}

#[test]
fn clock_regression_clamps_interval() {
    let mut u = User {
        cpid: String::from(CPID),
        total_credit: 0,
        expavg_credit: 10 * SCALE,
        expavg_time: 1_000_000_000 * SCALE,
    };
    u.update_stats(SCALE, 999_999_999 * SCALE);
    assert_eq!(u.total_credit, SCALE);
    assert_eq!(u.expavg_credit, 10 * SCALE + 9_902_102);
    assert_eq!(u.expavg_time, 999_999_999 * SCALE);
}

#[test]
fn replay_same_total_and_time_changes_nothing() {
    let mut u = User {
        cpid: String::from(CPID),
        total_credit: 200 * SCALE,
        expavg_credit: 942_763_200,
        expavg_time: 1_000_086_400 * SCALE,
    };
    u.update_stats(200 * SCALE, 1_000_086_400 * SCALE);
    assert_eq!(u.total_credit, 200 * SCALE);
    assert_eq!(u.expavg_credit, 942_763_200);
    assert_eq!(u.expavg_time, 1_000_086_400 * SCALE);
}

#[test]
fn csv_line_format() {
    let u = User {
        cpid: String::from(CPID),
        total_credit: 1_234_567_800_000,
        expavg_credit: 50 * SCALE,
        expavg_time: 1_000_000_000 * SCALE,
    };
    assert_eq!(
        u.to_csv(),
        format!("12345.67800000,50.00000000,1000000000.00000000,{}\n", CPID)
    );
}

#[test]
fn xml_block_format() {
    let u = User {
        cpid: String::from(CPID),
        total_credit: 100 * SCALE,
        expavg_credit: 0,
        expavg_time: 1_000_000_000 * SCALE,
    };
    let expected = format!(
        "<user>\n<total_credit>100.00000000</total_credit>\n<expavg_credit>0.00000000</expavg_credit>\n<expavg_time>1000000000.00000000</expavg_time>\n<cpid>{}</cpid>\n</user>\n",
        CPID
    );
    assert_eq!(u.to_xml(), expected);
}
