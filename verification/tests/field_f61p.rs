use cdm_oprf::f61p::F61p;
use cdm_oprf::poly61::Convolve;

#[test]
fn test_sum_overflow() {
    let neg1 = F61p::zero().sub(&F61p::one());
    let x = [neg1; 2];
    assert_eq!(F61p::sum(&x), neg1.add(&neg1));
}

#[test]
fn f61p_arithmetic() {
    let p: u128 = (1 << 61) - 1;
    let a = F61p::try_from(p - 1).unwrap();
    let b = F61p::try_from(5).unwrap();
    assert_eq!(a.add(&b).to_u128(), 4);
    assert_eq!(b.sub(&a).to_u128(), 6);
    assert_eq!(a.mul(&a).to_u128(), 1);
    assert_eq!(b.neg().to_u128(), p - 5);
    assert!(F61p::try_from(p).is_err());
    assert_eq!(b.mul(&b.inverse()), F61p::one());
    assert_eq!(F61p::generator().pow_var_time(3).to_u128(), 37 * 37 * 37);
}

#[test]
fn f61p_bytes() {
    let b = F61p::try_from(0x0102030405).unwrap();
    let bytes = b.to_bytes();
    assert_eq!(bytes, [5, 4, 3, 2, 1, 0, 0, 0]);
    assert_eq!(F61p::from_bytes(&bytes).unwrap(), b);
    assert!(F61p::from_bytes(&[0xff; 8]).is_err());
    let mut u = [0u8; 16];
    u[0] = 3;
    assert_eq!(F61p::from_uniform_bytes(&u).to_u128(), 3);
    let bits = b.bit_decomposition();
    assert_eq!(bits.len(), 61);
    assert!(bits[0] && !bits[1] && bits[2]);
}

#[test]
fn f61p_ct_and_convolve() {
    let a = F61p::try_from(7).unwrap();
    let b = F61p::try_from(9).unwrap();
    assert_eq!(a.ct_eq(&a), 1);
    assert_eq!(a.ct_eq(&b), 0);
    assert_eq!(F61p::conditional_select(&a, &b, 0), a);
    assert_eq!(F61p::conditional_select(&a, &b, 1), b);
    // (1 + 2t + 3t^2) (4 + 5t) = 4 + 13t + 22t^2 + 15t^3
    let mut z0 = F61p::zero();
    let mut zs = [F61p::zero(); 3];
    let xs = [F61p::try_from(2).unwrap(), F61p::try_from(3).unwrap()];
    let ys = [F61p::try_from(5).unwrap()];
    F61p::convolve(&mut z0, &mut zs, F61p::one(), &xs, F61p::try_from(4).unwrap(), &ys);
    assert_eq!(z0.to_u128(), 4);
    assert_eq!(zs[0].to_u128(), 13);
    assert_eq!(zs[1].to_u128(), 22);
    assert_eq!(zs[2].to_u128(), 15);
}

#[test]
fn f61p_into_u128() {
    let x = F61p::try_from(123456789u128).unwrap();
    let v: u128 = x.into();
    assert_eq!(v, 123456789);
    let m: u128 = F61p::zero().sub(&F61p::one()).into();
    assert_eq!(m, (1u128 << 61) - 2);
}
