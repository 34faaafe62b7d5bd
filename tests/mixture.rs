use kde_stats::bandwidth::silverman_bandwith;
use kde_stats::kde::{KdeError, KDE};
use kde_stats::ratio::Ratio;
use statrs::distribution::{Continuous, Normal};


#[test]
fn priors_must_sum_to_one() {
    let r = KDE::new(&[Ratio::new(1, 2), Ratio::new(2, 5)], vec!['a', 'b']);
    assert_eq!(r.err(), Some(KdeError::PriorsNotNormalised));
}

#[test]
fn negative_prior_is_its_own_error() {
    let r = KDE::new(
        &[Ratio::new(1, 2), Ratio::new(-1, 10), Ratio::new(3, 5)],
        vec!['a', 'b', 'c'],
    );
    assert_eq!(r.err(), Some(KdeError::NegativePrior));
}

#[test]
fn lengths_must_match() {
    let r = KDE::new(&[Ratio::new(1, 1)], vec!['a', 'b']);
    assert_eq!(r.err(), Some(KdeError::LengthMismatch));
}

#[test]
fn mixed_denominators_sum_exactly() {
    let kde = KDE::new(
        &[Ratio::new(1, 2), Ratio::new(1, 3), Ratio::new(1, 6)],
        vec![1u8, 2, 3],
    )
    .unwrap();
    assert_eq!(kde.priors().len(), 3);
    assert_eq!(kde.kernels(), &[1u8, 2, 3]);
}

#[test]
fn single_component_reproduces_density() {
    let kde = KDE::new(&[Ratio::new(1, 1)], vec![()]).unwrap();
    let d = kde.pdf(&[Ratio::new(7, 3)]).unwrap();
    assert_eq!(d.numer * 3, 7 * d.denom);
}

#[test]
fn mixture_weights_densities() {
    let kde = KDE::new(&[Ratio::new(1, 4), Ratio::new(3, 4)], vec![(), ()]).unwrap();
    let d = kde.pdf(&[Ratio::new(2, 1), Ratio::new(1, 3)]).unwrap();
    // 1/4 * 2 + 3/4 * 1/3 = 3/4
    assert_eq!(d.numer * 4, 3 * d.denom);
    assert!(d.numer >= 0);
}

#[test]
fn end_to_end_normal_kernels() {
    let tenths = vec![5, 6, 7, 8];
    let bw = silverman_bandwith(&tenths).unwrap();
    let sq = bw.spread.square;
    let h = 0.9 * (sq.numer as f64 / sq.denom as f64).sqrt() * (bw.n as f64).powf(-0.2) / 10.0;
    let centers = [0.5, 0.6, 0.7, 0.8];
    let kernels: Vec<Normal> = centers.iter().map(|c| Normal::new(*c, h).unwrap()).collect();
    let priors = vec![Ratio::new(1, 4); 4];
    let kde = KDE::new(&priors, kernels).unwrap();
    let x = 0.65;
    let mut density = 0.0;
    for (p, k) in kde.priors().iter().zip(kde.kernels().iter()) {
        density += p.numer as f64 / p.denom as f64 * k.pdf(x);
    }
    let mut golden = 0.0;
    for c in centers.iter() {
        let z = (x - c) / h;
        golden += 0.25 * (-0.5 * z * z).exp() / (h * (2.0 * std::f64::consts::PI).sqrt());
    }
    assert!((density - golden).abs() <= 1e-12);
    assert!(density > 0.0);
}

#[test]
fn uniform_priors_of_ten() {
    let priors = vec![Ratio::new(1, 10); 10];
    let kde = KDE::new(&priors, vec![0u8; 10]).unwrap();
    assert_eq!(kde.priors().len(), 10);
}

#[test]
fn mixture_with_zero_density_component() {
    let kde = KDE::new(&[Ratio::new(1, 2), Ratio::new(1, 2)], vec![(), ()]).unwrap();
    let d = kde.pdf(&[Ratio::new(0, 1), Ratio::new(3, 5)]).unwrap();
    assert_eq!(d.numer * 10, 3 * d.denom);
}

#[test]
fn mixed_denominator_sum_not_one_is_reported() {
    // 1/2 + 1/3 + 1/4 = 13/12
    let r = KDE::new(&[Ratio::new(1, 2), Ratio::new(1, 3), Ratio::new(1, 4)], vec![(), (), ()]);
    assert_eq!(r.err(), Some(KdeError::PriorsNotNormalised));
}

#[test]
fn mixture_lies_between_component_densities() {
    let kde = KDE::new(&[Ratio::new(1, 3), Ratio::new(2, 3)], vec![(), ()]).unwrap();
    let d = kde.pdf(&[Ratio::new(1, 5), Ratio::new(4, 5)]).unwrap();
    let value = d.numer as f64 / d.denom as f64;
    assert!((value - 0.6).abs() < 1e-15);
    assert!(value >= 0.2 && value <= 0.8);
}

#[test]
fn repeated_pdf_calls_agree() {
    let kde = KDE::new(&[Ratio::new(1, 4); 4], vec![(); 4]).unwrap();
    let dens = [Ratio::new(1, 2), Ratio::new(3, 7), Ratio::new(0, 1), Ratio::new(5, 3)];
    let a = kde.pdf(&dens).unwrap();
    let b = kde.pdf(&dens).unwrap();
    assert_eq!((a.numer, a.denom), (b.numer, b.denom));
}
