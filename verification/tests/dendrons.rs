use dentritic_calculus::{Dendron, Natural};

fn natural(n: u64) -> Natural {
    Natural::from_u64(n)
}

#[test]
fn test_dendrons() {
    let zero = Dendron::zero();
    assert!(zero.is_zero());
    let one = Dendron::exp(zero);

    let two = Dendron::add(&one.clone(), &one);
    let three = Dendron::add(&one.clone(), &two);
    let threeb = Dendron::add(&two.clone(), &one);
    let threec = Dendron::from_int(natural(3));

    assert_eq!(three, threeb);
    assert_eq!(threeb, threec);
    assert_eq!(three, threec);

    assert_ne!(three, two);

    let omega = Dendron::exp(one.clone());
    let omega2 = Dendron::mul(omega.clone(), omega.clone());

    println!("{} squared is {}", omega.to_string(), omega2.to_string());

    assert_eq!(omega2, Dendron::exp(Dendron::from_int(natural(2))));

    let omega_plus_one = Dendron::add(&omega.clone(), &one);
    let omega_plus_oneb = Dendron::add(&one.clone(), &Dendron::exp(one.clone()));

    assert_eq!(omega_plus_one, omega_plus_oneb);
    println!("{}", omega_plus_oneb.to_string());

    let square = Dendron::mul(omega_plus_one.clone(), omega_plus_oneb);

    let desired_square = Dendron::from_terms_nonunique(vec![
        (two.clone(), natural(1)),
        (one.clone(), natural(2)),
        (Dendron::zero(), natural(1)),
    ]);

    println!("{} vs {}", square.to_string(), desired_square.to_string());
    assert_eq!(square, desired_square);

    assert_ne!(omega_plus_one, Dendron::exp(one.clone()));

    assert_eq!(omega.try_subtract(&one), None);
    assert_eq!(omega_plus_one.try_subtract(&one), Some(omega));

    assert_eq!(omega2.try_subtract(&omega2), Some(Dendron::zero()));

    assert_eq!(desired_square.try_subtract(&Dendron::zero()).unwrap(), desired_square);

    // omega^omega divided by omega^0: the exponent omega less zero is omega
    let omega = Dendron::exp(Dendron::exp(Dendron::zero()));
    assert_eq!(omega.try_subtract(&Dendron::zero()).unwrap(), omega);
}

#[test]
fn display_of_dendrons() {
    let one = Dendron::from_int(natural(1));
    let omega = Dendron::exp(one.clone());
    assert_eq!(Dendron::zero().to_string(), "0");
    assert_eq!(Dendron::from_int(natural(42)).to_string(), "42");
    assert_eq!(omega.to_string(), "[1]");
    assert_eq!(Dendron::add(&omega, &one).to_string(), "[1]+1");
    let w_w = Dendron::exp(omega.clone());
    let five_w_w = Dendron::mul(Dendron::from_int(natural(5)), w_w);
    let d = Dendron::add(&five_w_w, &Dendron::from_int(natural(7)));
    assert_eq!(d.to_string(), "5[[1]]+7");
    // a coefficient above 2^64
    let big = Natural::from_u64(u64::MAX).add(&natural(1));
    assert_eq!(Dendron::from_int(big).to_string(), "18446744073709551616");
}

#[test]
fn tex_of_dendrons() {
    let one = Dendron::from_int(natural(1));
    let omega = Dendron::exp(one.clone());
    assert_eq!(Dendron::zero().as_tex(), "0");
    assert_eq!(Dendron::add(&omega, &one).as_tex(), "1+\\omega");
    let two_w2 = Dendron::mul(Dendron::from_int(natural(2)), Dendron::exp(Dendron::from_int(natural(2))));
    assert_eq!(two_w2.as_tex(), "2\\omega^{2}");
    assert_eq!(Dendron::exp(omega.clone()).as_tex(), "\\omega^{\\omega}");
    assert_eq!(Dendron::exp(Dendron::zero()).as_tex(), "1");
}

#[test]
fn natural_sum_is_commutative_and_associative() {
    let one = Dendron::from_int(natural(1));
    let omega = Dendron::exp(one.clone());
    let a = Dendron::add(&omega, &Dendron::from_int(natural(3)));
    let b = Dendron::exp(omega.clone());
    let c = Dendron::mul(Dendron::from_int(natural(4)), omega.clone());
    assert_eq!(Dendron::add(&a, &b), Dendron::add(&b, &a));
    assert_eq!(
        Dendron::add(&Dendron::add(&a, &b), &c),
        Dendron::add(&a, &Dendron::add(&b, &c))
    );
    assert_eq!(Dendron::add(&a, &Dendron::zero()), a);
}

#[test]
fn subtraction_undoes_addition() {
    let omega = Dendron::exp(Dendron::from_int(natural(1)));
    let a = Dendron::add(&omega, &Dendron::from_int(natural(3)));
    let b = Dendron::mul(Dendron::from_int(natural(2)), omega.clone());
    let s = Dendron::add(&a, &b);
    assert_eq!(s.try_subtract(&b), Some(a.clone()));
    assert_eq!(Dendron::add(&s.try_subtract(&a).unwrap(), &a), s);
    assert_eq!(a.try_subtract(&b), None);
}

#[test]
fn product_of_terms() {
    let one = Dendron::from_int(natural(1));
    let omega = Dendron::exp(one.clone());
    let a = Dendron::add(&omega, &Dendron::from_int(natural(2)));
    let b = Dendron::add(&Dendron::exp(omega.clone()), &Dendron::from_int(natural(3)));
    // (w + 2)(w^w + 3) = w^(w+1) + 2 w^w + 3w + 6
    assert_eq!(Dendron::mul(a.clone(), b.clone()).to_string(), "[[1]+1]+2[[1]]+3[1]+6");
    assert_eq!(Dendron::mul(a.clone(), b.clone()), Dendron::mul(b.clone(), a.clone()));
    assert_eq!(Dendron::mul(a.clone(), one.clone()), a);
    assert!(Dendron::mul(a.clone(), Dendron::zero()).is_zero());
}

#[test]
fn decrement_and_compare() {
    let omega = Dendron::exp(Dendron::from_int(natural(1)));
    let mut d = Dendron::add(&omega, &Dendron::from_int(natural(1)));
    assert_eq!(d.try_decrement(), Some(()));
    assert_eq!(d, omega);
    assert_eq!(d.try_decrement(), None);
    assert_eq!(d, omega);
    assert!(Dendron::from_int(natural(1000)).compare(&omega) < 0);
    assert!(omega.compare(&Dendron::from_int(natural(1000))) > 0);
    assert_eq!(omega.compare(&omega.clone()), 0);
    assert!(Dendron::exp(nat_d(2)).compare(&Dendron::mul(nat_d(9), omega.clone())) > 0);
    assert!(Dendron::from_int(natural(1)).is_one());
    assert!(!omega.is_one());
}

fn nat_d(n: u64) -> Dendron {
    Dendron::from_int(natural(n))
}

#[test]
fn move_finite_and_divsub() {
    let omega = Dendron::exp(nat_d(1));
    let w2 = Dendron::exp(nat_d(2));
    // w + 3, finite part moved onto w^2: w + 3 w^2
    let mut d = Dendron::add(&omega, &nat_d(3));
    d.move_finite(&w2);
    assert_eq!(d.to_string(), "3[2]+[1]");
    // onto zero: only the floor stays
    let mut e = Dendron::add(&omega, &nat_d(3));
    e.move_finite(&Dendron::zero());
    assert_eq!(e, omega);
    // (3w + 1) / (w > 2) = 1 + 3 * 2
    let mut f = Dendron::add(&Dendron::mul(nat_d(3), omega.clone()), &nat_d(1));
    f.divsub(&omega, &nat_d(2));
    assert_eq!(f, nat_d(7));
    // dividing by one multiplies by the replacement
    let mut g = Dendron::add(&omega, &nat_d(2));
    g.divsub(&nat_d(1), &omega);
    assert_eq!(g, Dendron::mul(Dendron::add(&omega, &nat_d(2)), omega.clone()));
    // w / (w + 1 > 0): the piece (w + 1) w = w^2 + w does not fit
    let mut h = omega.clone();
    assert!(!h.try_divsub(&Dendron::add(&omega, &nat_d(1)), &Dendron::zero()));
    assert_eq!(h, omega);
}

#[test]
fn sum_of_dendrons() {
    let omega = Dendron::exp(nat_d(1));
    assert!(Dendron::sum(vec![]).is_zero());
    assert_eq!(Dendron::sum(vec![omega.clone(), nat_d(2), omega.clone()]).to_string(), "2[1]+2");
}

#[test]
fn dendron_as_string() {
    // "hi": byte 104 at position 0 and 105 at position 1
    let d = Dendron::add(&Dendron::mul(nat_d(105), Dendron::exp(nat_d(1))), &nat_d(104));
    assert_eq!(d.as_c_str(), Some("hi".to_string()));
    assert_eq!(Dendron::zero().as_c_str(), Some(String::new()));
    // a gap is a zero byte
    let gap = Dendron::mul(nat_d(65), Dendron::exp(nat_d(2)));
    assert_eq!(gap.as_c_str(), Some("\0\0A".to_string()));
    // a coefficient of 256 is no byte
    assert_eq!(nat_d(256).as_c_str(), None);
    // an exponent omega gives no position
    assert_eq!(Dendron::exp(Dendron::exp(nat_d(1))).as_c_str(), None);
    // 0xff is not UTF-8
    assert_eq!(nat_d(255).as_c_str(), None);
}

#[test]
fn natural_product_is_associative() {
    let omega = Dendron::exp(nat_d(1));
    let a = Dendron::add(&omega, &nat_d(1));
    let b = Dendron::add(&Dendron::exp(omega.clone()), &nat_d(2));
    let c = Dendron::mul(nat_d(3), omega.clone());
    let left = Dendron::mul(Dendron::mul(a.clone(), b.clone()), c.clone());
    let right = Dendron::mul(a.clone(), Dendron::mul(b.clone(), c.clone()));
    assert_eq!(left, right);
    // (w + 1)(w^w + 2)(3w) = 3w^(w+2) + 3w^(w+1) + 6w^2 + 6w
    assert_eq!(left.to_string(), "3[[1]+2]+3[[1]+1]+6[2]+6[1]");
}

#[test]
fn dividing_with_the_divisor_as_replacement_gives_back() {
    let omega = Dendron::exp(nat_d(1));
    let w2 = Dendron::exp(nat_d(2));
    // 2w^2 + 4w + 3 divided by (2w + 2), with (2w + 2) as replacement
    let xi = Dendron::add(
        &Dendron::add(&Dendron::mul(nat_d(2), w2.clone()), &Dendron::mul(nat_d(4), omega.clone())),
        &nat_d(3),
    );
    let pi = Dendron::add(&Dendron::mul(nat_d(2), omega.clone()), &nat_d(2));
    let mut d = xi.clone();
    assert!(d.try_divsub(&pi, &pi));
    assert_eq!(d, xi);
    // with replacement 0 only the remainder 1 is left: the quotient is w + 1
    let mut r = xi.clone();
    assert!(r.try_divsub(&pi, &Dendron::zero()));
    assert_eq!(r.to_string(), "1");
    // with replacement 1 the quotient itself is added
    let mut q = xi.clone();
    assert!(q.try_divsub(&pi, &nat_d(1)));
    assert_eq!(q.to_string(), "[1]+2");
}

#[test]
fn comparison_is_a_total_order() {
    let omega = Dendron::exp(nat_d(1));
    let a = nat_d(5);
    let b = Dendron::add(&omega, &nat_d(1));
    let c = Dendron::exp(nat_d(2));
    assert_eq!(a.compare(&b), -b.compare(&a));
    assert!(a.compare(&b) < 0 && b.compare(&c) < 0 && a.compare(&c) < 0);
    assert_eq!(b.compare(&Dendron::add(&nat_d(1), &omega)), 0);
    assert!(b.equals(&Dendron::add(&nat_d(1), &omega)));
    assert!(!b.equals(&c));
}

#[test]
fn string_reading_stops_before_far_positions() {
    let far = Natural::from_u64(u64::MAX).add(&natural(1));
    let far_term = Dendron::mul(nat_d(65), Dendron::exp(Dendron::from_int(far)));
    // a first term with no byte ends the reading before the far position
    let d = Dendron::add(&nat_d(300), &far_term);
    assert!(d.c_str_positions_fit());
    assert_eq!(d.as_c_str(), None);
    // a byte at the far position is reached
    let e = Dendron::add(&nat_d(65), &far_term);
    assert!(!e.c_str_positions_fit());
}

#[test]
fn single_term_divisor_always_divides() {
    let omega = Dendron::exp(nat_d(1));
    let three_w = Dendron::mul(nat_d(3), omega.clone());
    assert_eq!(three_w.num_terms(), 1);
    // 7w^2 + 5w + 2 divided by 3w: 7w^2 = 2(3w)w + w^2, 5w = 1(3w) + 2w
    let xi = Dendron::add(
        &Dendron::add(&Dendron::mul(nat_d(7), Dendron::exp(nat_d(2))), &Dendron::mul(nat_d(5), omega.clone())),
        &nat_d(2),
    );
    let mut d = xi.clone();
    assert!(d.try_divsub(&three_w, &Dendron::zero()));
    assert_eq!(d.to_string(), "[2]+2[1]+2");
    let mut e = xi.clone();
    assert!(e.try_divsub(&Dendron::zero(), &omega));
    assert_eq!(e, xi);
}

#[test]
fn natural_sum_is_strictly_monotone() {
    let omega = Dendron::exp(nat_d(1));
    let a = Dendron::add(&Dendron::mul(nat_d(2), omega.clone()), &nat_d(9));
    let b = Dendron::mul(nat_d(3), omega.clone());
    assert!(a.compare(&b) < 0);
    for c in [Dendron::zero(), nat_d(4), omega.clone(), Dendron::exp(omega.clone())] {
        assert!(Dendron::add(&a, &c).compare(&Dendron::add(&b, &c)) < 0);
        assert!(Dendron::add(&c, &a).compare(&Dendron::add(&c, &b)) < 0);
    }
}

#[test]
fn string_bytes_read_back() {
    let text = "h\u{e9}llo, \u{3c9}";
    let bytes = text.as_bytes();
    let mut d = Dendron::zero();
    for (i, b) in bytes.iter().enumerate() {
        let term = Dendron::mul(nat_d(*b as u64), Dendron::exp(nat_d(i as u64)));
        d = Dendron::add(&d, &term);
    }
    assert!(d.c_str_positions_fit());
    assert_eq!(d.as_c_str(), Some(text.to_string()));
}

#[test]
fn string_reading_at_the_last_position() {
    let last = Natural::from_u64(usize::MAX as u64);
    let at_last = Dendron::mul(nat_d(65), Dendron::exp(Dendron::from_int(last)));
    // a term that gives no position stops the reading after it: no buffer is needed
    let d = Dendron::add(&at_last, &Dendron::exp(Dendron::exp(nat_d(1))));
    assert!(d.c_str_positions_fit());
    assert_eq!(d.as_c_str(), None);
    // read to the end, the byte at the last position would need one more byte of memory
    assert!(!at_last.c_str_positions_fit());
}
