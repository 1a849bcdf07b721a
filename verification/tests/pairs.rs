use v_escape::codegen_base::pairs::{Pair, Pairs};
use v_escape::codegen_base::switch::Switch;

const E: &str = "f";

#[test]
fn pairs_test_1_escape() {
    let pairs = &[Pair::new(0, E)];
    let switch: Switch = Pairs(pairs).into();

    assert_eq!(switch, Switch::A { a: 0 })
}

#[test]
fn pairs_test_2_escape() {
    let pairs = &[Pair::new(0, E), Pair::new(2, E)];
    let switch: Switch = Pairs(pairs).into();

    assert_eq!(switch, Switch::AB { a: 0, b: 2 })
}

#[test]
fn pairs_test_3_escape() {
    let pairs = &[Pair::new(0, E), Pair::new(2, E), Pair::new(4, E)];
    let switch: Switch = Pairs(pairs).into();

    assert_eq!(switch, Switch::ABC { a: 0, b: 2, c: 4 })
}

#[test]
fn pairs_test_1_range() {
    let pairs = &[Pair::new(0, E), Pair::new(1, E)];
    let switch: Switch = Pairs(pairs).into();

    assert_eq!(switch, Switch::Ar { la: 0, ra: 1 })
}

#[test]
fn pairs_test_2_range() {
    let pairs = &[Pair::new(0, E), Pair::new(1, E), Pair::new(3, E), Pair::new(4, E)];
    let switch: Switch = Pairs(pairs).into();

    assert_eq!(
        switch,
        Switch::ArBr {
            la: 0,
            ra: 1,
            lb: 3,
            rb: 4
        }
    )
}

#[test]
fn pairs_test_3_range() {
    let pairs = &[Pair::new(0, E), Pair::new(1, E), Pair::new(3, E), Pair::new(4, E), Pair::new(6, E), Pair::new(7, E)];
    let switch: Switch = Pairs(pairs).into();

    assert_eq!(
        switch,
        Switch::ArBrCr {
            la: 0,
            ra: 1,
            lb: 3,
            rb: 4,
            lc: 6,
            rc: 7
        }
    );

    let pairs = &[Pair::new(0, E), Pair::new(1, E), Pair::new(3, E), Pair::new(5, E), Pair::new(7, E), Pair::new(9, E), Pair::new(50, E), Pair::new(52, E), Pair::new(55, E), Pair::new(60, E), Pair::new(61, E), Pair::new(62, E), Pair::new(63, E), Pair::new(64, E), Pair::new(126, E), Pair::new(127, E)];
    let switch: Switch = Pairs(pairs).into();

    assert_eq!(
        switch,
        Switch::ArBrCr {
            la: 0,
            ra: 9,
            lb: 50,
            rb: 64,
            lc: 126,
            rc: 127
        }
    )
}

#[test]
fn pairs_test_1_range_1_escape() {
    let pairs = &[Pair::new(0, E), Pair::new(1, E), Pair::new(3, E)];
    let switch: Switch = Pairs(pairs).into();

    assert_eq!(switch, Switch::ArB { la: 0, ra: 1, b: 3 });

    let pairs = &[Pair::new(0, E), Pair::new(2, E), Pair::new(3, E)];
    let switch: Switch = Pairs(pairs).into();

    assert_eq!(switch, Switch::ArB { la: 2, ra: 3, b: 0 });

    let pairs = &[Pair::new(0, E), Pair::new(1, E), Pair::new(2, E), Pair::new(4, E)];
    let switch: Switch = Pairs(pairs).into();

    assert_eq!(switch, Switch::ArB { la: 0, ra: 2, b: 4 });

    let pairs = &[Pair::new(50, E), Pair::new(51, E), Pair::new(52, E), Pair::new(53, E), Pair::new(54, E), Pair::new(55, E), Pair::new(67, E)];
    let switch: Switch = Pairs(pairs).into();

    assert_eq!(
        switch,
        Switch::ArB {
            la: 50,
            ra: 55,
            b: 67
        }
    );
}

#[test]
fn pairs_test_2_range_1_escape_a() {
    let pairs = &[Pair::new(0, E), Pair::new(1, E), Pair::new(3, E), Pair::new(4, E), Pair::new(6, E)];
    let switch: Switch = Pairs(pairs).into();

    assert_eq!(
        switch,
        Switch::ArBrC {
            la: 0,
            ra: 1,
            lb: 3,
            rb: 4,
            c: 6
        }
    );
}

#[test]
fn pairs_test_2_range_1_escape_b() {
    let pairs = &[Pair::new(0, E), Pair::new(4, E), Pair::new(5, E), Pair::new(7, E), Pair::new(8, E)];
    let switch: Switch = Pairs(pairs).into();

    assert_eq!(
        switch,
        Switch::ArBrC {
            la: 4,
            ra: 5,
            lb: 7,
            rb: 8,
            c: 0
        }
    );
}

#[test]
fn pairs_test_2_range_1_escape_c() {
    let pairs = &[Pair::new(14, E), Pair::new(15, E), Pair::new(16, E), Pair::new(50, E), Pair::new(51, E), Pair::new(52, E), Pair::new(98, E)];
    let switch: Switch = Pairs(pairs).into();

    assert_eq!(
        switch,
        Switch::ArBrC {
            la: 14,
            ra: 16,
            lb: 50,
            rb: 52,
            c: 98
        }
    );
}

#[test]
fn pairs_test_2_range_1_escape_d() {
    let pairs = &[Pair::new(14, E), Pair::new(15, E), Pair::new(16, E), Pair::new(50, E), Pair::new(51, E), Pair::new(52, E), Pair::new(98, E)];
    let switch: Switch = Pairs(pairs).into();

    assert_eq!(
        switch,
        Switch::ArBrC {
            la: 14,
            ra: 16,
            lb: 50,
            rb: 52,
            c: 98
        }
    );
    let pairs = &[Pair::new(14, E), Pair::new(15, E), Pair::new(16, E), Pair::new(17, E), Pair::new(18, E), Pair::new(19, E), Pair::new(50, E), Pair::new(51, E), Pair::new(52, E), Pair::new(53, E), Pair::new(54, E), Pair::new(55, E), Pair::new(56, E), Pair::new(57, E), Pair::new(58, E), Pair::new(98, E)];
    let switch: Switch = Pairs(pairs).into();

    assert_eq!(
        switch,
        Switch::ArBrC {
            la: 14,
            ra: 19,
            lb: 50,
            rb: 58,
            c: 98
        }
    );
}

#[test]
fn pairs_test_2_range_1_escape_e() {
    let pairs = &[Pair::new(14, E), Pair::new(16, E), Pair::new(50, E), Pair::new(51, E), Pair::new(52, E), Pair::new(98, E)];
    let switch: Switch = Pairs(pairs).into();

    assert_eq!(
        switch,
        Switch::ArBrC {
            la: 14,
            ra: 16,
            lb: 50,
            rb: 52,
            c: 98
        }
    );

    let pairs = &[Pair::new(14, E), Pair::new(16, E), Pair::new(17, E), Pair::new(18, E), Pair::new(19, E), Pair::new(50, E), Pair::new(52, E), Pair::new(53, E), Pair::new(56, E), Pair::new(57, E), Pair::new(58, E), Pair::new(98, E)];
    let switch: Switch = Pairs(pairs).into();

    assert_eq!(
        switch,
        Switch::ArBrC {
            la: 14,
            ra: 19,
            lb: 50,
            rb: 58,
            c: 98
        }
    );
}

#[test]
fn pairs_test_2_range_1_escape_f() {
    let pairs = &[Pair::new(60, E), Pair::new(61, E), Pair::new(65, E), Pair::new(80, E), Pair::new(81, E)];
    let switch: Switch = Pairs(pairs).into();

    assert_eq!(
        switch,
        Switch::ArBrC {
            la: 60,
            ra: 61,
            lb: 80,
            rb: 81,
            c: 65
        }
    );

    let pairs = &[Pair::new(52, E), Pair::new(53, E), Pair::new(56, E), Pair::new(58, E), Pair::new(60, E), Pair::new(61, E), Pair::new(62, E), Pair::new(80, E), Pair::new(101, E), Pair::new(102, E), Pair::new(104, E), Pair::new(105, E), Pair::new(108, E), Pair::new(110, E), Pair::new(120, E)];
    let switch: Switch = Pairs(pairs).into();

    assert_eq!(
        switch,
        Switch::ArBrC {
            la: 52,
            ra: 62,
            lb: 101,
            rb: 120,
            c: 80
        }
    );
}

#[test]
fn pairs_test_1_range_2_escape_a() {
    let pairs = &[Pair::new(0, E), Pair::new(1, E), Pair::new(4, E), Pair::new(6, E)];
    let switch: Switch = Pairs(pairs).into();

    assert_eq!(
        switch,
        Switch::ArBC {
            la: 0,
            ra: 1,
            b: 4,
            c: 6
        }
    );

    let pairs = &[Pair::new(0, E), Pair::new(1, E), Pair::new(2, E), Pair::new(3, E), Pair::new(4, E), Pair::new(5, E), Pair::new(6, E), Pair::new(7, E), Pair::new(8, E), Pair::new(9, E), Pair::new(10, E), Pair::new(11, E), Pair::new(12, E), Pair::new(13, E), Pair::new(14, E), Pair::new(73, E), Pair::new(127, E)];
    let switch: Switch = Pairs(pairs).into();

    assert_eq!(
        switch,
        Switch::ArBC {
            la: 0,
            ra: 14,
            b: 73,
            c: 127
        }
    );
}

#[test]
fn pairs_test_1_range_2_escape_b() {
    let pairs = &[Pair::new(0, E), Pair::new(2, E), Pair::new(5, E), Pair::new(6, E)];
    let switch: Switch = Pairs(pairs).into();

    assert_eq!(
        switch,
        Switch::ArBC {
            la: 5,
            ra: 6,
            b: 0,
            c: 2
        }
    );

    let pairs = &[Pair::new(0, E), Pair::new(2, E), Pair::new(5, E), Pair::new(6, E), Pair::new(7, E), Pair::new(8, E), Pair::new(9, E), Pair::new(10, E), Pair::new(11, E), Pair::new(12, E), Pair::new(13, E), Pair::new(14, E), Pair::new(15, E), Pair::new(16, E), Pair::new(17, E), Pair::new(18, E)];
    let switch: Switch = Pairs(pairs).into();

    assert_eq!(
        switch,
        Switch::ArBC {
            la: 5,
            ra: 18,
            b: 0,
            c: 2
        }
    );
}

#[test]
fn pairs_test_1_range_2_escape_c() {
    let pairs = &[Pair::new(0, E), Pair::new(2, E), Pair::new(3, E), Pair::new(8, E)];
    let switch: Switch = Pairs(pairs).into();

    assert_eq!(
        switch,
        Switch::ArBC {
            la: 2,
            ra: 3,
            b: 0,
            c: 8
        }
    );

    let pairs = &[Pair::new(0, E), Pair::new(2, E), Pair::new(3, E), Pair::new(4, E), Pair::new(5, E), Pair::new(6, E), Pair::new(7, E), Pair::new(8, E), Pair::new(9, E), Pair::new(10, E), Pair::new(11, E), Pair::new(12, E), Pair::new(13, E), Pair::new(14, E), Pair::new(15, E), Pair::new(16, E), Pair::new(17, E), Pair::new(127, E)];
    let switch: Switch = Pairs(pairs).into();

    assert_eq!(
        switch,
        Switch::ArBC {
            la: 2,
            ra: 17,
            b: 0,
            c: 127
        }
    );
}
