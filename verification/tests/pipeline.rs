use lotto_picker::draw::DrawConfig;
use lotto_picker::error::LottoError;
use lotto_picker::history::LineLayout;
use lotto_picker::picker::{pick, Settings};
use lotto_picker::weights::{Policy, ValueRange};
use rand::rngs::StdRng;
use rand::SeedableRng;

fn text() -> Vec<String> {
    ["d", "1 1", "d", "1 2", "d", "2 3"].iter().map(|s| s.to_string()).collect()
}

fn settings() -> Settings {
    Settings {
        layout: LineLayout { group: 2, position: 2, numbers: 2 },
        domain: Some(ValueRange { lo: 1, hi: 6 }),
        policy: Policy::Direct,
        scale: 1000,
        draw: DrawConfig { draw_size: 2, draws: 20, bonus: Some(ValueRange { lo: 1, hi: 4 }) },
    }
}

#[test]
fn whole_run_on_a_small_history() {
    let mut rng = StdRng::seed_from_u64(21);
    let p = pick(&text(), &settings(), &mut rng).unwrap();
    assert_eq!(p.history.observations, vec![1, 1, 1, 2, 2, 3]);
    assert_eq!(p.table.weights(), &vec![500, 333, 166, 0, 0, 0]);
    assert_eq!(p.draws.len(), 20);
    for d in &p.draws {
        assert_eq!(d.numbers.len(), 2);
        assert!(d.numbers[0] < d.numbers[1]);
        assert!(d.numbers[1] <= 3 && d.numbers[0] >= 1);
        let b = d.bonus.unwrap();
        assert!(b >= 1 && b <= 4);
    }
}

#[test]
fn whole_run_with_observed_domain_and_inverse_weights() {
    let mut rng = StdRng::seed_from_u64(22);
    let mut s = settings();
    s.domain = None;
    s.policy = Policy::Inverse;
    s.draw = DrawConfig { draw_size: 3, draws: 4, bonus: None };
    let p = pick(&text(), &s, &mut rng).unwrap();
    assert_eq!(p.table.lo(), 1);
    assert_eq!(p.table.hi(), 3);
    assert_eq!(p.table.weights(), &vec![2000, 3000, 6000]);
    for d in &p.draws {
        assert_eq!(d.numbers, vec![1, 2, 3]);
        assert_eq!(d.bonus, None);
    }
}

#[test]
fn whole_run_reports_the_first_obstacle() {
    let mut rng = StdRng::seed_from_u64(23);
    let mut s = settings();
    s.draw.bonus = Some(ValueRange { lo: 2, hi: 1 });
    assert!(matches!(pick(&text(), &s, &mut rng), Err(LottoError::InvalidRange)));
    s.draw.draw_size = 4;
    s.draw.bonus = None;
    assert!(matches!(pick(&text(), &s, &mut rng), Err(LottoError::AllWeightsZero)));
    s.policy = Policy::Inverse;
    assert!(matches!(pick(&text(), &s, &mut rng), Err(LottoError::UndefinedWeight)));
    s.layout.numbers = 3;
    assert!(matches!(pick(&text(), &s, &mut rng), Err(LottoError::MalformedLine)));
    s.layout.position = 3;
    assert!(matches!(pick(&text(), &s, &mut rng), Err(LottoError::InvalidRange)));
}

#[test]
fn whole_run_on_no_lines_has_no_history() {
    let mut rng = StdRng::seed_from_u64(24);
    assert!(matches!(pick(&Vec::new(), &settings(), &mut rng), Err(LottoError::EmptyHistory)));
    let headers: Vec<String> = vec!["only a header".to_string()];
    assert!(matches!(pick(&headers, &settings(), &mut rng), Err(LottoError::EmptyHistory)));
}
