use cdm_oprf::f3::F3;
use cdm_oprf::f3_serialize::{F3BitDeserializer, F3BitSerializer};

fn thread_rng() -> rand::rngs::StdRng {
    <rand::rngs::StdRng as rand::SeedableRng>::from_entropy()
}

#[test]
fn test_from_u8() {
    let a = F3::try_from(0u8).unwrap();
    assert_eq!(a, F3 { msb: 0, lsb: 0 });
    let b = F3::try_from(1u8).unwrap();
    assert_eq!(b, F3 { msb: 0, lsb: 1 });
    let c = F3::try_from(2u8).unwrap();
    assert_eq!(c, F3 { msb: 1, lsb: 0 });
}

#[test]
fn test_add() {
    let a = F3 { msb: 0, lsb: 1 };
    let b = F3 { msb: 0, lsb: 1 };
    let mut c = a;
    c.add_assign(&b);
    assert_eq!(c, F3 { msb: 1, lsb: 0 });
}

#[test]
fn test_sub() {
    let a = F3 { msb: 0, lsb: 1 };
    let b = F3 { msb: 1, lsb: 0 };
    let mut c = a;
    c.sub_assign(&b);
    assert_eq!(c, F3 { msb: 1, lsb: 0 });
}

#[test]
fn f3_test_mul() {
    let a = F3 { msb: 1, lsb: 0 };
    let b = F3 { msb: 1, lsb: 0 };
    let mut c = a;
    c.mul_assign(&b);
    assert_eq!(c, F3 { msb: 0, lsb: 1 });
}

#[test]
fn test_serialize_deserialize() {
    let a = F3 { msb: 1, lsb: 0 };
    let mut buf = Vec::new();
    let mut serializer = F3BitSerializer::new();
    serializer.write(&mut buf, a);
    serializer.finish(&mut buf);

    let mut deserializer = F3BitDeserializer::new();
    let mut pos = 0usize;
    let b = deserializer.read(buf.as_slice(), &mut pos).unwrap();
    assert_eq!(a, b);
}

#[test]
fn test_serialize_deserialize_multiple() {
    let a = F3 { msb: 1, lsb: 0 };
    let b = F3 { msb: 0, lsb: 1 };
    let mut buf = Vec::new();
    let mut serializer = F3BitSerializer::new();
    serializer.write(&mut buf, a);
    serializer.write(&mut buf, b);
    serializer.write(&mut buf, b);
    serializer.write(&mut buf, b);
    serializer.write(&mut buf, b);
    serializer.write(&mut buf, b);
    serializer.finish(&mut buf);

    let mut deserializer = F3BitDeserializer::new();
    let mut pos = 0usize;
    let c = deserializer.read(buf.as_slice(), &mut pos).unwrap();
    let _d = deserializer.read(buf.as_slice(), &mut pos).unwrap();
    let _d = deserializer.read(buf.as_slice(), &mut pos).unwrap();
    let _d = deserializer.read(buf.as_slice(), &mut pos).unwrap();
    let d = deserializer.read(buf.as_slice(), &mut pos).unwrap();
    assert_eq!(a, c);
    assert_eq!(b, d);
}

#[test]
fn test_serialize_size() {
    let size = F3BitSerializer::serialized_size(10);
    assert_eq!(size, 2);
    let size = F3BitSerializer::serialized_size(20);
    assert_eq!(size, 4);
    let size = F3BitSerializer::serialized_size(100);
    assert_eq!(size, 100 / 5);
}

#[test]
fn f3_field_values() {
    for x in 0u8..3 {
        for y in 0u8..3 {
            let a = F3::try_from(x).unwrap();
            let b = F3::try_from(y).unwrap();
            assert_eq!(a.add(&b).to_u8(), (x + y) % 3);
            assert_eq!(a.mul(&b).to_u8(), (x * y) % 3);
            assert_eq!((a.sub(&b).to_u8() + y) % 3, x);
        }
        let a = F3::try_from(x).unwrap();
        assert_eq!((a.neg().to_u8() + x) % 3, 0);
        if x != 0 {
            assert_eq!(a.inverse().mul(&a), F3::one());
        }
    }
}

#[test]
fn f3_try_from_refuses_three() {
    assert!(F3::try_from(3u8).is_err());
    assert!(F3::try_from_u64(7).is_err());
    assert!(F3::try_from_u128(2).is_ok());
    assert!(F3::from_bytes(&[5u8]).is_err());
    assert_eq!(F3::from_bytes(&[2u8]).unwrap(), F3::generator());
    assert_eq!(F3::generator().to_bytes(), [2u8]);
    assert_eq!(F3::generator().bit_decomposition(), [false, true]);
}

#[test]
fn f3_serialize_roundtrip_long() {
    let mut values = Vec::new();
    for i in 0..23u8 {
        values.push(F3::try_from((i * 7 + 1) % 3).unwrap());
    }
    let mut buf = Vec::new();
    let mut s = F3BitSerializer::new();
    for v in values.iter() {
        s.write(&mut buf, *v);
    }
    s.finish(&mut buf);
    assert_eq!(buf.len(), F3BitSerializer::serialized_size(values.len()));
    let mut d = F3BitDeserializer::new();
    let mut pos = 0usize;
    for v in values.iter() {
        assert_eq!(d.read(buf.as_slice(), &mut pos).unwrap(), *v);
    }
    // the last byte is padded with zeros
    assert_eq!(d.read(buf.as_slice(), &mut pos).unwrap(), F3::zero());
    assert_eq!(d.read(buf.as_slice(), &mut pos).unwrap(), F3::zero());
    assert!(d.read(buf.as_slice(), &mut pos).is_none());
}

#[test]
fn test_conditional_choose() {
    let a = F3::zero();
    let b = F3::one();
    let c = F3::conditional_select(&a, &b, 0);
    assert_eq!(c, a);
    let d = F3::conditional_select(&a, &b, 1);
    assert_eq!(d, b);
}

#[test]
fn f3_ct_eq_and_uniform_bytes() {
    assert_eq!(F3::one().ct_eq(&F3::one()), 1);
    assert_eq!(F3::one().ct_eq(&F3::generator()), 0);
    let mut bytes = [0u8; 16];
    bytes[0] = 5;
    assert_eq!(F3::from_uniform_bytes(&bytes), F3::generator());
    bytes[1] = 1; // 256 + 5 = 261 = 0 mod 3
    assert_eq!(F3::from_uniform_bytes(&bytes), F3::zero());
    let mut rng = thread_rng();
    for _ in 0..20 {
        assert_ne!(F3::random_nonzero(&mut rng), F3::zero());
    }
}
