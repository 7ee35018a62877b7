use c32::decode;
use c32::decode_check;
use c32::decode_check_into;
use c32::decode_check_prefixed;
use c32::decode_into;
use c32::decode_prefixed;
use c32::decoded_check_len;
use c32::decoded_len;
use c32::encode;
use c32::encode_check;
use c32::encode_check_into;
use c32::encode_check_prefixed;
use c32::encode_into;
use c32::encode_prefixed;
use c32::encoded_check_len;
use c32::encoded_len;
use c32::Error;
use rand::distr::Alphanumeric;
use rand::distr::SampleString;
use rand::Rng;

/// A random round-trip helper for the buffer-based API.
fn random_default(len: usize, rounds: usize) -> Result<(), Error> {
    let mut rng = rand::rng();
    for _ in 0..rounds {
        let len = rng.random_range(0..=len);
        let input = Alphanumeric.sample_string(&mut rng, len);

        let mut ebuf = vec![0u8; encoded_len(input.len())];
        let epos = encode_into(input.as_bytes(), &mut ebuf)?;

        let mut dbuf = vec![0u8; decoded_len(epos)];
        let dpos = decode_into(&ebuf[..epos], &mut dbuf)?;
        assert_eq!(&dbuf[..dpos], input.as_bytes());
    }
    Ok(())
}

/// A random round-trip helper for the allocating API.
fn random_alloc(len: usize, rounds: usize) -> Result<(), Error> {
    let mut rng = rand::rng();
    for _ in 0..rounds {
        let len = rng.random_range(0..=len);
        let input = Alphanumeric.sample_string(&mut rng, len);

        let en = encode(input.as_bytes());
        let de = decode(&en)?;
        assert_eq!(de, input.as_bytes());
    }
    Ok(())
}

/// A random round-trip helper for the buffer-based checksum API.
fn random_check(len: usize, rounds: usize) -> Result<(), Error> {
    let mut rng = rand::rng();
    for _ in 0..rounds {
        let len = rng.random_range(0..=len);
        let input = Alphanumeric.sample_string(&mut rng, len);
        let version = rng.random_range(0..32);

        let mut ebuf = vec![0u8; encoded_check_len(input.len())];
        let epos = encode_check_into(input.as_bytes(), &mut ebuf, version)?;

        let mut dbuf = vec![0u8; decoded_check_len(epos)];
        let (dpos, dver) = decode_check_into(&ebuf[..epos], &mut dbuf)?;

        assert_eq!(&dbuf[..dpos], input.as_bytes());
        assert_eq!(dver, version);
    }
    Ok(())
}

/// A random round-trip helper for the allocating checksum API.
fn random_check_alloc(len: usize, rounds: usize) -> Result<(), Error> {
    let mut rng = rand::rng();
    for _ in 0..rounds {
        let len = rng.random_range(0..=len);
        let input = Alphanumeric.sample_string(&mut rng, len);
        let version = rng.random_range(0..32);

        let en = encode_check(input.as_bytes(), version)?;
        let (de, de_version) = decode_check(&en)?;

        assert_eq!(de, input.as_bytes());
        assert_eq!(de_version, version);
    }
    Ok(())
}

/// A random round-trip helper for prefixed encoding and decoding.
fn random_prefixed(len: usize, rounds: usize) -> Result<(), Error> {
    let mut rng = rand::rng();
    for _ in 0..rounds {
        let len = rng.random_range(0..=len);
        let input = Alphanumeric.sample_string(&mut rng, len);
        let prefix = rng.random::<char>();

        let en = encode_prefixed(input.as_bytes(), prefix);
        let de = decode_prefixed(&en, prefix)?;

        assert_eq!(de, input.as_bytes());
    }
    Ok(())
}

/// A random round-trip helper for prefixed checksum encoding and
/// decoding.
fn random_check_prefixed(len: usize, rounds: usize) -> Result<(), Error> {
    let mut rng = rand::rng();
    for _ in 0..rounds {
        let len = rng.random_range(0..=len);
        let input = Alphanumeric.sample_string(&mut rng, len);
        let version = rng.random_range(0..32);
        let prefix = rng.random::<char>();

        let en = encode_check_prefixed(input.as_bytes(), prefix, version)?;
        let (de, de_version) = decode_check_prefixed(&en, prefix)?;

        assert_eq!(de, input.as_bytes());
        assert_eq!(de_version, version);
    }
    Ok(())
}

#[test]
fn test_rand_xs() {
    random_default(1, 10_000).unwrap()
}

#[test]
fn test_rand_xs_alloc() {
    random_alloc(1, 10_000).unwrap()
}

#[test]
fn test_rand_xs_check() {
    random_check(1, 10_000).unwrap()
}

#[test]
fn test_rand_xs_check_alloc() {
    random_check_alloc(1, 10_000).unwrap()
}

#[test]
fn test_rand_xs_prefixed() {
    random_prefixed(1, 10_000).unwrap()
}

#[test]
fn test_rand_xs_check_prefixed() {
    random_check_prefixed(1, 10_000).unwrap()
}

#[test]
fn test_rand_sm() {
    random_default(10, 10_000).unwrap()
}

#[test]
fn test_rand_sm_alloc() {
    random_alloc(10, 10_000).unwrap()
}

#[test]
fn test_rand_sm_check() {
    random_check(10, 10_000).unwrap()
}

#[test]
fn test_rand_sm_check_alloc() {
    random_check_alloc(10, 10_000).unwrap()
}

#[test]
fn test_rand_sm_prefixed() {
    random_prefixed(10, 10_000).unwrap()
}

#[test]
fn test_rand_sm_check_prefixed() {
    random_check_prefixed(10, 10_000).unwrap()
}

#[test]
fn test_rand_lg() {
    random_default(1_000, 1_000).unwrap()
}

#[test]
fn test_rand_lg_alloc() {
    random_alloc(1_000, 1_000).unwrap()
}

#[test]
fn test_rand_lg_check() {
    random_check(1_000, 1_000).unwrap()
}

#[test]
fn test_rand_lg_check_alloc() {
    random_check_alloc(1_000, 1_000).unwrap()
}

#[test]
fn test_rand_lg_prefixed() {
    random_prefixed(1_000, 1_000).unwrap()
}

#[test]
fn test_rand_lg_check_prefixed() {
    random_check_prefixed(1_000, 1_000).unwrap()
}

#[test]
fn test_rand_xl() {
    random_default(10_000, 1_000).unwrap()
}

#[test]
fn test_rand_xl_alloc() {
    random_alloc(10_000, 1_000).unwrap()
}

#[test]
fn test_rand_xl_check() {
    random_check(10_000, 1_000).unwrap()
}

#[test]
fn test_rand_xl_check_alloc() {
    random_check_alloc(10_000, 1_000).unwrap()
}

#[test]
fn test_rand_xl_prefixed() {
    random_prefixed(10_000, 1_000).unwrap()
}

#[test]
fn test_rand_xl_check_prefixed() {
    random_check_prefixed(10_000, 1_000).unwrap()
}
