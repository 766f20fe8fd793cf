use simple_protection_system::capability::Capability;
use simple_protection_system::graph::Graph;
use simple_protection_system::right::Right;

#[test]
fn single_rights_are_bits_zero_one_two() {
    assert_eq!(u8::from(Right::read()), 1);
    assert_eq!(u8::from(Right::write()), 2);
    assert_eq!(u8::from(Right::execute()), 4);
    assert_eq!(u8::from(Right::empty()), 0);
    assert_eq!(u8::from(Right::full()), 7);
}

#[test]
fn into_gives_the_bit_mask() {
    let bits: u8 = (Right::read() | Right::execute()).into();
    assert_eq!(bits, 5);
}

#[test]
fn from_keeps_the_low_three_bits() {
    assert_eq!(Right::from(0), Right::empty());
    assert_eq!(Right::from(1), Right::read());
    assert_eq!(Right::from(6), Right::write() | Right::execute());
    assert_eq!(Right::from(7), Right::full());
    assert_eq!(Right::from(8), Right::empty());
    assert_eq!(Right::from(0xff), Right::full());
    assert_eq!(Right::from(0xf9), Right::read());
}

#[test]
fn full_is_the_union_of_the_three() {
    assert_eq!(Right::full(), Right::read() | Right::write() | Right::execute());
    assert_ne!(Right::full(), Right::read() | Right::write());
}

#[test]
fn union_laws_on_all_sets() {
    for a in 0u8..8 {
        for b in 0u8..8 {
            let (x, y) = (Right::from(a), Right::from(b));
            assert_eq!(x | y, y | x);
            assert_eq!(x | x, x);
            assert_eq!(u8::from(x | y), a | b);
            assert!((x | y).contains(&x));
            assert!((x | y).contains(&y));
            assert_eq!((x | y).is_empty(), x.is_empty() && y.is_empty());
            for c in 0u8..8 {
                let z = Right::from(c);
                assert_eq!((x | y) | z, x | (y | z));
            }
        }
    }
}

#[test]
fn contains_is_inclusion_of_bits() {
    for a in 0u8..8 {
        for b in 0u8..8 {
            let (x, y) = (Right::from(a), Right::from(b));
            assert_eq!(x.contains(&y), a & b == b);
        }
    }
}

#[test]
fn full_contains_every_set_and_every_set_contains_empty() {
    for a in 0u8..8 {
        let x = Right::from(a);
        assert!(Right::full().contains(&x));
        assert!(x.contains(&Right::empty()));
        assert_eq!(Right::empty().contains(&x), x.is_empty());
    }
}

#[test]
fn read_does_not_contain_write() {
    assert!(!Right::read().contains(&Right::write()));
    assert!(!Right::read().contains(&Right::full()));
    assert!(Right::read().contains(&Right::read()));
}

#[test]
fn turn_on_adds_rights() {
    let mut r = Right::read();
    r.turn_on(&Right::execute());
    assert_eq!(r, Right::from(5));
    r.turn_on(&Right::read());
    assert_eq!(r, Right::from(5));
    r.turn_on(&Right::empty());
    assert_eq!(r, Right::from(5));
}

#[test]
fn turn_off_takes_rights_out() {
    let mut r = Right::full();
    r.turn_off(&Right::write());
    assert_eq!(r, Right::from(5));
    r.turn_off(&Right::write());
    assert_eq!(r, Right::from(5));
    r.turn_off(&(Right::read() | Right::execute()));
    assert_eq!(r, Right::empty());
    assert!(r.is_empty());
}

#[test]
fn only_empty_is_empty() {
    assert!(Right::empty().is_empty());
    assert!(!Right::empty().is_any());
    for a in 1u8..8 {
        assert!(!Right::from(a).is_empty());
        assert!(Right::from(a).is_any());
    }
}

#[test]
fn a_right_is_a_value() {
    let r = Right::write();
    let copy = r;
    let cloned = r.clone();
    assert_eq!(r, copy);
    assert_eq!(r, cloned);
    assert_eq!(format!("{:?}", Right::empty()), format!("{:?}", Right::from(0)));
}

#[test]
fn capability_keeps_its_end_points_and_rights() {
    let mut graph = Graph::new();
    let a = graph.new_object();
    let b = graph.new_object();

    let cap = Capability::new_with_rights(a, b, Right::write());
    assert_eq!(cap.from(), a);
    assert_eq!(cap.to(), b);
    assert_eq!(*cap.rights(), Right::write());

    let none = Capability::new_with_empty(b, a);
    assert_eq!(none.from(), b);
    assert_eq!(none.to(), a);
    assert_eq!(*none.rights(), Right::empty());

    let all = Capability::new_with_full(a, a);
    assert_eq!(all.from(), a);
    assert_eq!(all.to(), a);
    assert_eq!(*all.rights(), Right::full());
}

#[test]
fn capability_contains_goes_by_its_rights() {
    let mut graph = Graph::new();
    let a = graph.new_object();
    let b = graph.new_object();

    let cap = Capability::new_with_rights(a, b, Right::read() | Right::write());
    assert!(cap.contains(&Right::read()));
    assert!(cap.contains(&Right::write()));
    assert!(cap.contains(&Right::empty()));
    assert!(!cap.contains(&Right::execute()));
    assert!(!cap.contains(&Right::full()));
    assert!(!Capability::new_with_empty(a, b).contains(&Right::read()));
    assert!(Capability::new_with_full(a, b).contains(&Right::full()));
}

#[test]
fn capability_equality_ignores_rights() {
    let mut graph = Graph::new();
    let a = graph.new_object();
    let b = graph.new_object();

    assert!(Capability::new_with_empty(a, b) == Capability::new_with_full(a, b));
    assert!(Capability::new_with_rights(a, b, Right::read()) == Capability::new_with_empty(a, b));
    assert!(Capability::new_with_full(a, b) != Capability::new_with_full(b, a));
    assert!(Capability::new_with_full(a, b) != Capability::new_with_full(a, a));
}
