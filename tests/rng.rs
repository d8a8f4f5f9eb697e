use rustune::discovery::{is_offensive, offensive_alternate, DiscoveryConfig};
use rustune::rng::{env_truthy, parse_hardcoded_values, FortuneRng, RngError};

#[test]
fn hardcoded_values_are_read() {
    assert_eq!(parse_hardcoded_values("1, 2;3 \t4\n"), Ok(vec![1, 2, 3, 4]));
    assert_eq!(parse_hardcoded_values("+5"), Ok(vec![5]));
    assert_eq!(
        parse_hardcoded_values("18446744073709551615"),
        Ok(vec![u64::MAX])
    );
}

#[test]
fn hardcoded_value_errors() {
    assert_eq!(
        parse_hardcoded_values("1,x2,y"),
        Err(RngError::InvalidValue { start: 2, end: 4 })
    );
    assert_eq!(
        parse_hardcoded_values("18446744073709551616"),
        Err(RngError::InvalidValue { start: 0, end: 20 })
    );
    assert_eq!(
        parse_hardcoded_values("-1"),
        Err(RngError::InvalidValue { start: 0, end: 2 })
    );
    assert_eq!(parse_hardcoded_values("+"), Err(RngError::InvalidValue { start: 0, end: 1 }));
    assert_eq!(parse_hardcoded_values(""), Err(RngError::NoValues));
    assert_eq!(parse_hardcoded_values(" ,; "), Err(RngError::NoValues));
}

#[test]
fn truthy_flags() {
    for v in ["", "0", "false", "False", "FALSE"] {
        assert!(!env_truthy(v));
    }
    for v in ["1", "yes", "true", "fAlse", "00"] {
        assert!(env_truthy(v));
    }
}

#[test]
fn fixed_values_cycle() {
    let mut rng = FortuneRng::from_env_values(Some("3,4"), Some("1"), 9).expect("rng");
    assert_eq!(rng.next_u64(), 3);
    assert_eq!(rng.next_u64(), 4);
    assert_eq!(rng.next_u64(), 3);
    assert_eq!(rng.next_index(0), 0);
    assert_eq!(rng.next_index(3), 1);
    assert_eq!(rng.next_index(2), 1);
}

#[test]
fn bad_values_fail_construction() {
    assert_eq!(
        FortuneRng::from_env_values(Some("abc"), None, 0).err(),
        Some(RngError::InvalidValue { start: 0, end: 3 })
    );
    assert_eq!(
        FortuneRng::from_env_values(Some(""), Some("1"), 0).err(),
        Some(RngError::NoValues)
    );
}

#[test]
fn generated_draws_stay_below_bound() {
    let mut seeded = FortuneRng::from_env_values(None, Some("yes"), 42).expect("rng");
    let mut same = FortuneRng::seeded(42);
    for _ in 0..10 {
        assert_eq!(seeded.next_u64(), same.next_u64());
    }
    let mut thread = FortuneRng::from_env_values(None, Some("0"), 42).expect("rng");
    for upper in 1..50 {
        assert!(seeded.next_index(upper) < upper);
        assert!(thread.next_index(upper) < upper);
    }
}

#[test]
fn offensive_names() {
    assert!(is_offensive("art-o"));
    assert!(!is_offensive("art"));
    assert!(!is_offensive("o"));
    assert_eq!(offensive_alternate("art"), "art-o");
    assert_eq!(offensive_alternate("art-o"), "art");
    let default = DiscoveryConfig::default();
    assert!(default.admits("art"));
    assert!(!default.admits("art-o"));
    let any = DiscoveryConfig { allow_any: true, offensive_only: false };
    assert!(any.admits("art") && any.admits("art-o"));
    let only = DiscoveryConfig { allow_any: true, offensive_only: true };
    assert!(!only.admits("art") && only.admits("art-o"));
}
