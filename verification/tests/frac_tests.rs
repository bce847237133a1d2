use dendrogram::frac::{gcd_u64, u64_text, Frac};
use dendrogram::linkage::average_linkage;
use dendrogram::tree::ClusterTree;

#[test]
fn integer_heights_drop_the_denominator() {
    assert_eq!(Frac { num: 18, den: 6 }.to_text(), "3");
    assert_eq!(Frac { num: 2, den: 2 }.to_text(), "1");
    assert_eq!(Frac { num: 0, den: 5 }.to_text(), "0");
}

#[test]
fn fractional_heights_reduce() {
    assert_eq!(Frac { num: 3, den: 2 }.to_text(), "3/2");
    assert_eq!(Frac { num: 10, den: 4 }.to_text(), "5/2");
    assert_eq!(Frac { num: 7, den: 3 }.to_text(), "7/3");
}

#[test]
fn decimal_text() {
    assert_eq!(u64_text(0), "0");
    assert_eq!(u64_text(9), "9");
    assert_eq!(u64_text(10), "10");
    assert_eq!(u64_text(12345), "12345");
    assert_eq!(u64_text(18446744073709551615), "18446744073709551615");
}

#[test]
fn gcd_values() {
    assert_eq!(gcd_u64(18, 6), 6);
    assert_eq!(gcd_u64(6, 18), 6);
    assert_eq!(gcd_u64(7, 3), 1);
    assert_eq!(gcd_u64(0, 5), 5);
    assert_eq!(gcd_u64(5, 0), 5);
}

#[test]
fn exact_comparison() {
    let a = Frac { num: 1, den: 3 };
    let b = Frac { num: 2, den: 6 };
    let c = Frac { num: 1, den: 2 };
    assert!(!a.lt(&b));
    assert!(!b.lt(&a));
    assert!(a.lt(&c));
    assert!(!c.lt(&a));
}

#[test]
fn average_linkage_is_the_mean_over_the_cross_product() {
    // The {A,B} cluster of the reference matrix against C: distances 4 and
    // 4 over 2 * 1 pairs.
    let d = vec![
        vec![0, 2, 4, 6],
        vec![2, 0, 4, 6],
        vec![4, 4, 0, 6],
        vec![6, 6, 6, 0],
    ];
    let ab = ClusterTree::Merge(
        Box::new(ClusterTree::Leaf(0)),
        Box::new(ClusterTree::Leaf(1)),
        Frac { num: 2, den: 2 },
    );
    let c = ClusterTree::Leaf(2);
    let link = average_linkage(&d, &ab, &c);
    assert_eq!(link.num, 8);
    assert_eq!(link.den, 2);
    let dd = ClusterTree::Leaf(3);
    let abc = ClusterTree::Merge(Box::new(ab), Box::new(c), Frac { num: 8, den: 4 });
    let link2 = average_linkage(&d, &abc, &dd);
    assert_eq!(link2.num, 18);
    assert_eq!(link2.den, 3);
}
