use brainfuck_optimiser::arith::div_u8;

fn gcd(mut x: u8, mut y: u8) -> u8 {
    while y != 0 {
        let z = x % y;
        x = y;
        y = z;
    }
    x
}

fn simple_case() {
    for x_ in 1..256 {
        let x: u8 = x_ as u8;
        for y_ in 1..256 {
            let y: u8 = y_ as u8;
            if (x as u16) * (y as u16) >= 256 {
                continue;
            }
            assert_eq!(Some(x), div_u8(x * y, y), "div_u8 failed to divide {x} * {y} by {y}")
        }
    }
}

fn coprime_case() {
    for x_ in 1..256 {
        let x: u8 = x_ as u8;
        for y_ in 1..256 {
            let y: u8 = y_ as u8;
            if y % 128 == 0 && x % 128 != 0 {
                continue;
            }
            if y % 64 == 0 && x % 64 != 0 {
                continue;
            }
            if y % 32 == 0 && x % 32 != 0 {
                continue;
            }
            if y % 16 == 0 && x % 16 != 0 {
                continue;
            }
            if y % 8 == 0 && x % 8 != 0 {
                continue;
            }
            if y % 4 == 0 && x % 4 != 0 {
                continue;
            }
            if y % 2 == 0 && x % 2 != 0 {
                continue;
            }
            if gcd(x, y) != 0 {
                continue;
            }
            assert_eq!(Some(x), div_u8(x.wrapping_mul(y), y), "div_u8 failed to divide {x} * {y} by {y}")
        }
    }
}

#[test]
fn interpreter_simple_test_div_u8() {
    simple_case();
}

#[test]
fn interpreter_coprime_test_div_u8() {
    coprime_case();
}

#[test]
fn interpreter_case_test_div_u8() {
    assert_eq!(Some(52), div_u8(4, 5));
}

#[test]
fn repl_simple_test_div_u8() {
    simple_case();
}

#[test]
fn repl_coprime_test_div_u8() {
    coprime_case();
}

#[test]
fn repl_case_test_div_u8() {
    assert_eq!(Some(52), div_u8(4, 5));
}

#[test]
fn odd_divisor_undoes_wrapping_product() {
    for y in (1..=255u8).step_by(2) {
        for x in 0..=255u8 {
            assert_eq!(Some(x), div_u8(x.wrapping_mul(y), y));
        }
    }
}

#[test]
fn zero_dividend_and_zero_divisor() {
    for y in 0..=255u8 {
        assert_eq!(Some(0), div_u8(0, y));
    }
    for x in 1..=255u8 {
        assert_eq!(None, div_u8(x, 0));
    }
}

#[test]
fn even_divisor_picks_smallest_quotient() {
    assert_eq!(Some(3), div_u8(12, 4));
    assert_eq!(None, div_u8(6, 4));
    assert_eq!(Some(1), div_u8(128, 128));
    assert_eq!(None, div_u8(64, 128));
    assert_eq!(Some(255), div_u8(1, 255));
}
