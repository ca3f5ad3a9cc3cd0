use infinite_auction::{Currency, Second, Token, SECONDS_PER_DAY};

/// A sparse sweep of the 32-bit range: dense at the bottom, then sampled.
fn sparse_to_32() -> Vec<u64> {
    let mut v: Vec<u64> = Vec::new();
    for x in (0..64u64).step_by(1) {
        v.push(x);
    }
    for x in (64..65536u64).step_by(13) {
        v.push(x);
    }
    for x in (65536..4_294_967_296u64).step_by(67_867_967) {
        v.push(x);
    }
    v
}

/// The sweep extended over the 64-bit range.
fn sparse_to_64() -> Vec<u64> {
    let mut v = sparse_to_32();
    let mut x: u64 = 4_294_967_296;
    loop {
        v.push(x);
        match x.checked_add(184_467_447_370_955_227) {
            Some(next) => x = next,
            None => break,
        }
    }
    v
}

#[test]
fn no_typo_in_npd_constant() {
    assert_eq!(Second::from(SECONDS_PER_DAY), Second::from(60 * 60 * 24))
}

#[test]
fn test_add_sub() {
    let xs = sparse_to_64();
    for &x in xs.iter() {
        if x >= u64::max_value() / 2 {
            break;
        }
        for &y in xs.iter() {
            if y > x {
                break;
            }
            assert_eq!(
                Second::from(x + y),
                Second::from(x).add(Second::from(y)),
                "Second::from({}) + Second::from({})",
                x,
                y
            );
            assert_eq!(
                Second::from(x - y),
                Second::from(x).sub(Second::from(y)),
                "Second::from({}) - Second::from({})",
                x,
                y
            );
            let mut z = Second::from(x);
            z = z.add(Second::from(y));
            assert_eq!(Second::from(x + y), z, "Second::from({}) += Second::from({})", x, y);
            let mut z = Second::from(x);
            z = z.sub(Second::from(y));
            assert_eq!(Second::from(x - y), z, "Second::from({}) -= Second::from({})", x, y);

            assert_eq!(
                Currency::from(x + y),
                Currency::from(x).add(Currency::from(y)),
                "Currency::from({}) + Currency::from({})",
                x,
                y
            );
            assert_eq!(
                Currency::from(x - y),
                Currency::from(x).sub(Currency::from(y)),
                "Currency::from({}) - Currency::from({})",
                x,
                y
            );
            let mut z = Currency::from(x);
            z = z.add(Currency::from(y));
            assert_eq!(Currency::from(x + y), z, "Currency::from({}) += Currency::from({})", x, y);
            let mut z = Currency::from(x);
            z = z.sub(Currency::from(y));
            assert_eq!(Currency::from(x - y), z, "Currency::from({}) -= Currency::from({})", x, y);

            assert_eq!(
                Token::from(x + y),
                Token::from(x).add(Token::from(y)),
                "Token::from({}) + Token::from({})",
                x,
                y
            );
            assert_eq!(
                Token::from(x - y),
                Token::from(x).sub(Token::from(y)),
                "Token::from({}) - Token::from({})",
                x,
                y
            );
            let mut z = Token::from(x);
            z = z.add(Token::from(y));
            assert_eq!(Token::from(x + y), z, "Token::from({}) += Token::from({})", x, y);
            let mut z = Token::from(x);
            z = z.sub(Token::from(y));
            assert_eq!(Token::from(x - y), z, "Token::from({}) -= Token::from({})", x, y);
        }
    }
}

#[test]
fn test_mul() {
    let xs = sparse_to_32();
    for &x in xs.iter() {
        for &y in xs.iter() {
            assert_eq!(
                Token::from(x * y),
                Second::from(x).mul_currency(Currency::from(y)),
                "Second::from({}) * Currency::from({})",
                x,
                y
            );
            assert_eq!(
                Token::from(x * y),
                Currency::from(x).mul_second(Second::from(y)),
                "Currency::from({}) * Second::from({})",
                x,
                y
            );
            assert_eq!(Second::from(x * y), Second::from(x).mul(y), "{} * Second::from({})", y, x);
            assert_eq!(
                Currency::from(x * y),
                Currency::from(x).mul(y),
                "{} * Currency::from({})",
                y,
                x
            );
            assert_eq!(Token::from(x * y), Token::from(x).mul(y), "{} * Token::from({})", y, x);
        }
    }
}

#[test]
fn test_div_rem() {
    let xs = sparse_to_64();
    let ys = sparse_to_32();
    for &x in xs.iter() {
        for &y in ys.iter().skip(1) {
            assert_eq!(
                Currency::from(x / y),
                Token::from(x).div_second(Second::from(y)),
                "Token::from({}) / Second::from({})",
                x,
                y
            );
            assert_eq!(
                Currency::from(x % y),
                Token::from(x).rem_second(Second::from(y)),
                "Token::from({}) % Second::from({})",
                x,
                y
            );
            assert_eq!(
                Second::from(x / y),
                Token::from(x).div_currency(Currency::from(y)),
                "Token::from({}) / Currency::from({})",
                x,
                y
            );
            assert_eq!(
                Second::from(x % y),
                Token::from(x).rem_currency(Currency::from(y)),
                "Token::from({}) % Currency::from({})",
                x,
                y
            );
            assert_eq!(Second::from(x / y), Second::from(x).div(y), "Second::from({}) / {}", x, y);
            assert_eq!(Second::from(x % y), Second::from(x).rem(y), "Second::from({}) % {}", x, y);
            assert_eq!(
                Currency::from(x / y),
                Currency::from(x).div(y),
                "Currency::from({}) / {}",
                x,
                y
            );
            assert_eq!(
                Currency::from(x % y),
                Currency::from(x).rem(y),
                "Currency::from({}) % {}",
                x,
                y
            );
            assert_eq!(Token::from(x / y), Token::from(x).div(y), "Token::from({}) / {}", x, y);
            assert_eq!(Token::from(x % y), Token::from(x).rem(y), "Token::from({}) % {}", x, y);
        }
    }
}

#[test]
fn division_identity_exact() {
    // a == (a / b) * b + (a % b), component-wise for the divisor's dimension
    let a = Token::from(1_000_003);
    let b = Currency::from(460);
    let q: Second = a.div_currency(b);
    let r: Second = a.rem_currency(b);
    assert_eq!(q, Second::from(2173));
    assert_eq!(r, Second::from(423));
    assert_eq!(b.mul_second(q), Token::from(999_580));
    assert_eq!(q.0 * b.0 + r.0, a.0);
    assert!(r.0 < b.0);
}

#[test]
fn quantity_ordering() {
    assert!(Second::from(1) < Second::from(2));
    assert!(Currency::from(5) > Currency::from(0));
    assert!(Token::from(7) == Token::from(7));
    assert!(Token::from(7) <= Token::from(8));
}
