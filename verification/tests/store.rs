use derivre::{byteset_contains, Expr, ExprRef, ExprSet};

fn words(bits_set: &[usize]) -> Vec<u32> {
    let mut v = vec![0u32; 8];
    for &b in bits_set {
        v[b / 32] |= 1u32 << (b % 32);
    }
    v
}

#[test]
fn reserved_identifiers() {
    let s = ExprSet::new(256);
    assert_eq!(s.len(), 5);
    assert_eq!(ExprRef::empty_string(), ExprRef(1));
    assert_eq!(ExprRef::no_match(), ExprRef(2));
    assert_eq!(ExprRef::any_byte(), ExprRef(3));
    assert_eq!(ExprRef::any_string(), ExprRef(4));
    assert_eq!(ExprRef::non_empty_string(), ExprRef(5));
    assert!(!ExprRef(0).is_valid());
    assert!(ExprRef(1).is_valid());
    assert_eq!(ExprRef(4).as_u32(), 4);
    assert_eq!(ExprRef(4).as_usize(), 4);
    assert_eq!(s.alphabet_size(), 256);
    assert_eq!(s.alphabet_words(), 8);
    assert!(s.bytes() > 0);
}

#[test]
fn reserved_nullability() {
    let s = ExprSet::new(256);
    assert!(s.is_nullable(ExprRef(1)));
    assert!(!s.is_nullable(ExprRef(2)));
    assert!(!s.is_nullable(ExprRef(3)));
    assert!(s.is_nullable(ExprRef(4)));
    assert!(!s.is_nullable(ExprRef(5)));
}

#[test]
fn reserved_decoding() {
    let s = ExprSet::new(256);
    assert_eq!(s.get(ExprRef(1)), Expr::EmptyString);
    assert_eq!(s.get(ExprRef(2)), Expr::NoMatch);
    match s.get(ExprRef(3)) {
        Expr::ByteSet(bits) => {
            assert_eq!(bits, vec![0xffff_ffffu32; 8]);
        },
        other => panic!("expected a byte set, got {:?}", other),
    }
    match s.get(ExprRef(4)) {
        Expr::Repeat(f, child, lo, hi) => {
            assert!(f.is_nullable());
            assert_eq!(child, ExprRef(3));
            assert_eq!(lo, 0);
            assert_eq!(hi, u32::MAX);
        },
        other => panic!("expected a repeat, got {:?}", other),
    }
    match s.get(ExprRef(5)) {
        Expr::Repeat(f, child, lo, hi) => {
            assert!(!f.is_nullable());
            assert_eq!(child, ExprRef(3));
            assert_eq!(lo, 1);
            assert_eq!(hi, u32::MAX);
        },
        other => panic!("expected a repeat, got {:?}", other),
    }
}

// hash-consing: rebuilding a concatenation returns the same reference
#[test]
fn concat_is_hash_consed() {
    let mut s = ExprSet::new(256);
    let n0 = s.len();
    let a = s.mk_byte(b'a');
    let b = s.mk_byte(b'b');
    let ab1 = s.mk_concat(vec![a, b]);
    assert_eq!(s.len(), n0 + 3);
    let a2 = s.mk_byte(b'a');
    let b2 = s.mk_byte(b'b');
    let ab2 = s.mk_concat(vec![a2, b2]);
    assert_eq!(a, a2);
    assert_eq!(b, b2);
    assert_eq!(ab1, ab2);
    assert_eq!(s.len(), n0 + 3);
}

// a union deduplicates and sorts its children
#[test]
fn or_deduplicates_and_sorts() {
    let mut s = ExprSet::new(256);
    let a = s.mk_byte(b'a');
    let b = s.mk_byte(b'b');
    let o1 = s.mk_or(vec![a, b, a]);
    let o2 = s.mk_or(vec![b, a]);
    assert_eq!(o1, o2);
    let children = s.get_args(o1);
    assert_eq!(children.len(), 2);
    assert!(children[0].as_u32() < children[1].as_u32());
    assert_eq!(children, vec![a, b]);
}

// intersecting a nullable expression with EmptyString gives EmptyString
#[test]
fn and_empty_with_nullable() {
    let mut s = ExprSet::new(256);
    let a = s.mk_byte(b'a');
    let star = s.mk_star(a);
    let r = s.mk_and(vec![star, ExprRef(1)]);
    assert_eq!(r, ExprRef(1));
}

// intersecting a non-nullable expression with EmptyString gives NoMatch
#[test]
fn and_empty_with_non_nullable() {
    let mut s = ExprSet::new(256);
    let a = s.mk_byte(b'a');
    let plus = s.mk_plus(a);
    let r = s.mk_and(vec![plus, ExprRef(1)]);
    assert_eq!(r, ExprRef(2));
}

// a double complement returns the starting reference without growing the store
#[test]
fn not_involution_scenario() {
    let mut s = ExprSet::new(256);
    let x = s.mk_byte(b'x');
    let n = s.mk_not(x);
    let len_after_first = s.len();
    let back = s.mk_not(n);
    assert_eq!(back, x);
    assert_eq!(s.len(), len_after_first);
}

// repetitions of NoMatch collapse
#[test]
fn repeat_of_no_match() {
    let mut s = ExprSet::new(256);
    let r0 = s.mk_repeat(ExprRef(2), 0, 5);
    assert_eq!(r0, ExprRef(1));
    let r1 = s.mk_repeat(ExprRef(2), 1, 5);
    assert_eq!(r1, ExprRef(2));
}

#[test]
fn or_commutes() {
    let mut s = ExprSet::new(256);
    let a = s.mk_byte(b'a');
    let b = s.mk_byte(b'b');
    let o1 = s.mk_or(vec![a, b]);
    let o2 = s.mk_or(vec![b, a]);
    assert_eq!(o1, o2);
}

#[test]
fn or_associates() {
    let mut s = ExprSet::new(256);
    let a = s.mk_byte(b'a');
    let b = s.mk_byte(b'b');
    let c = s.mk_byte(b'c');
    let ab = s.mk_or(vec![a, b]);
    let left = s.mk_or(vec![ab, c]);
    let flat = s.mk_or(vec![a, b, c]);
    let bc = s.mk_or(vec![b, c]);
    let right = s.mk_or(vec![a, bc]);
    assert_eq!(left, flat);
    assert_eq!(right, flat);
}

#[test]
fn and_associates() {
    let mut s = ExprSet::new(256);
    let a = s.mk_byte(b'a');
    let b = s.mk_byte(b'b');
    let c = s.mk_byte(b'c');
    let sa = s.mk_star(a);
    let sb = s.mk_star(b);
    let sc = s.mk_star(c);
    let ab = s.mk_and(vec![sa, sb]);
    let left = s.mk_and(vec![ab, sc]);
    let flat = s.mk_and(vec![sa, sb, sc]);
    let bc = s.mk_and(vec![sb, sc]);
    let right = s.mk_and(vec![sa, bc]);
    assert_eq!(left, flat);
    assert_eq!(right, flat);
}

#[test]
fn idempotence_laws() {
    let mut s = ExprSet::new(256);
    let a = s.mk_byte(b'a');
    assert_eq!(s.mk_or(vec![a, a]), a);
    assert_eq!(s.mk_and(vec![a, a]), a);
    assert_eq!(s.mk_concat(vec![a]), a);
    let o = s.mk_or(vec![a, ExprRef(4)]);
    assert_eq!(o, ExprRef(4));
}

#[test]
fn identity_laws() {
    let mut s = ExprSet::new(256);
    let a = s.mk_byte(b'a');
    assert_eq!(s.mk_or(vec![a, ExprRef(2)]), a);
    assert_eq!(s.mk_and(vec![a, ExprRef(4)]), a);
    assert_eq!(s.mk_concat(vec![a, ExprRef(1)]), a);
    assert_eq!(s.mk_concat(vec![ExprRef(1), a]), a);
}

#[test]
fn absorption_laws() {
    let mut s = ExprSet::new(256);
    let a = s.mk_byte(b'a');
    assert_eq!(s.mk_or(vec![a, ExprRef(4)]), ExprRef(4));
    assert_eq!(s.mk_and(vec![a, ExprRef(2)]), ExprRef(2));
    assert_eq!(s.mk_concat(vec![a, ExprRef(2)]), ExprRef(2));
}

#[test]
fn not_fixed_points() {
    let mut s = ExprSet::new(256);
    assert_eq!(s.mk_not(ExprRef(1)), ExprRef(5));
    assert_eq!(s.mk_not(ExprRef(5)), ExprRef(1));
    assert_eq!(s.mk_not(ExprRef(4)), ExprRef(2));
    assert_eq!(s.mk_not(ExprRef(2)), ExprRef(4));
}

#[test]
fn not_involution_composite() {
    let mut s = ExprSet::new(256);
    let a = s.mk_byte(b'a');
    let b = s.mk_byte(b'b');
    let cat = s.mk_concat(vec![a, b]);
    let n = s.mk_not(cat);
    assert_eq!(s.mk_not(n), cat);
    assert!(s.is_nullable(n));
    assert!(!s.is_nullable(cat));
}

#[test]
fn repeat_equal_bounds() {
    let mut s = ExprSet::new(256);
    let a = s.mk_byte(b'a');
    assert_eq!(s.mk_repeat(a, 0, 0), ExprRef(1));
    assert_eq!(s.mk_repeat(a, 3, 3), ExprRef(1));
    // a single optional occurrence collapses to the expression itself
    assert_eq!(s.mk_repeat(a, 2, 3), a);
    // an empty range collapses to NoMatch
    assert_eq!(s.mk_repeat(a, 7, 4), ExprRef(2));
}

#[test]
fn repeat_nullability() {
    let mut s = ExprSet::new(256);
    let a = s.mk_byte(b'a');
    let star = s.mk_star(a);
    assert!(s.is_nullable(star));
    let plus = s.mk_plus(a);
    assert!(!s.is_nullable(plus));
    // a nullable body clamps the lower bound to zero
    let rep = s.mk_repeat(star, 3, 9);
    match s.get(rep) {
        Expr::Repeat(f, child, lo, hi) => {
            assert!(f.is_nullable());
            assert_eq!(child, star);
            assert_eq!(lo, 0);
            assert_eq!(hi, 9);
        },
        other => panic!("expected a repeat, got {:?}", other),
    }
}

#[test]
fn byte_set_boundaries() {
    let mut s = ExprSet::new(256);
    let zeros = vec![0u32; 8];
    assert_eq!(s.mk_byte_set(&zeros), ExprRef(2));
    let ones = vec![0xffff_ffffu32; 8];
    assert_eq!(s.mk_byte_set(&ones), ExprRef(3));
    assert_eq!(s.len(), 5);
}

#[test]
fn byte_set_membership() {
    let mut s = ExprSet::new(256);
    let bits = words(&[b'p' as usize, b'q' as usize]);
    let ps = s.mk_byte_set(&bits);
    assert!(byteset_contains(&bits, b'p' as usize));
    assert!(byteset_contains(&bits, b'q' as usize));
    assert!(!byteset_contains(&bits, b'r' as usize));
    match s.get(ps) {
        Expr::ByteSet(stored) => {
            assert_eq!(stored, bits);
            let e = Expr::ByteSet(stored);
            assert!(e.matches_byte(b'p'));
            assert!(!e.matches_byte(b'r'));
        },
        other => panic!("expected a byte set, got {:?}", other),
    }
    assert!(!s.is_nullable(ps));
}

#[test]
fn byte_nodes() {
    let mut s = ExprSet::new(256);
    let a = s.mk_byte(b'a');
    match s.get(a) {
        Expr::Byte(v) => assert_eq!(v, b'a'),
        other => panic!("expected a byte, got {:?}", other),
    }
    let e = s.get(a);
    assert!(e.matches_byte(b'a'));
    assert!(!e.matches_byte(b'b'));
    assert!(!e.nullable());
    assert!(!s.get(ExprRef(1)).matches_byte(b'a'));
    assert!(s.get(ExprRef(1)).nullable());
    assert!(!s.get(ExprRef(2)).matches_byte(b'a'));
    assert_eq!(s.get_args(a), vec![]);
}

#[test]
fn get_args_reads_children() {
    let mut s = ExprSet::new(256);
    let a = s.mk_byte(b'a');
    let b = s.mk_byte(b'b');
    let cat = s.mk_concat(vec![a, b]);
    assert_eq!(s.get_args(cat), vec![a, b]);
    let n = s.mk_not(cat);
    assert_eq!(s.get_args(n), vec![cat]);
    let rep = s.mk_repeat(a, 2, 9);
    assert_eq!(s.get_args(rep), vec![a]);
    assert_eq!(s.get_args(ExprRef(4)), vec![ExprRef(3)]);
}

#[test]
fn concat_keeps_order() {
    let mut s = ExprSet::new(256);
    let a = s.mk_byte(b'a');
    let b = s.mk_byte(b'b');
    let ab = s.mk_concat(vec![a, b]);
    let ba = s.mk_concat(vec![b, a]);
    assert_ne!(ab, ba);
    // nested concatenations are flattened
    let abba = s.mk_concat(vec![ab, ba]);
    assert_eq!(s.get_args(abba), vec![a, b, b, a]);
}

#[test]
fn or_nullability_flag() {
    let mut s = ExprSet::new(256);
    let a = s.mk_byte(b'a');
    let o = s.mk_or(vec![a, ExprRef(1)]);
    assert!(s.is_nullable(o));
    let b = s.mk_byte(b'b');
    let o2 = s.mk_or(vec![a, b]);
    assert!(!s.is_nullable(o2));
    match s.get(o2) {
        Expr::Or(f, children) => {
            assert!(!f.is_nullable());
            assert_eq!(children, vec![a, b]);
        },
        other => panic!("expected a union, got {:?}", other),
    }
}

#[test]
fn and_nullability_flag() {
    let mut s = ExprSet::new(256);
    let a = s.mk_byte(b'a');
    let b = s.mk_byte(b'b');
    let sa = s.mk_star(a);
    let sb = s.mk_star(b);
    let both = s.mk_and(vec![sa, sb]);
    assert!(s.is_nullable(both));
    match s.get(both) {
        Expr::And(f, children) => {
            assert!(f.is_nullable());
            assert_eq!(children.len(), 2);
        },
        other => panic!("expected an intersection, got {:?}", other),
    }
    let mixed = s.mk_and(vec![sa, b]);
    assert!(!s.is_nullable(mixed));
}

#[test]
fn len_counts_distinct_records() {
    let mut s = ExprSet::new(256);
    let n0 = s.len();
    let a = s.mk_byte(b'a');
    assert_eq!(s.len(), n0 + 1);
    let _ = s.mk_byte(b'a');
    assert_eq!(s.len(), n0 + 1);
    let b = s.mk_byte(b'b');
    assert_eq!(s.len(), n0 + 2);
    let bytes_before = s.bytes();
    let _ = s.mk_or(vec![a, b]);
    assert!(s.bytes() > bytes_before);
}

#[test]
fn star_of_any_byte_is_reserved() {
    let mut s = ExprSet::new(256);
    // rebuilding the reserved expressions finds the reserved identifiers
    assert_eq!(s.mk_star(ExprRef(3)), ExprRef(4));
    assert_eq!(s.mk_plus(ExprRef(3)), ExprRef(5));
    assert_eq!(s.len(), 5);
}

#[test]
fn small_alphabet() {
    let mut s = ExprSet::new(7);
    assert_eq!(s.alphabet_words(), 1);
    let zeros = vec![0u32];
    assert_eq!(s.mk_byte_set(&zeros), ExprRef(2));
    let ones = vec![0xffff_ffffu32];
    assert_eq!(s.mk_byte_set(&ones), ExprRef(3));
    let bits = vec![0b100u32];
    let two = s.mk_byte_set(&bits);
    assert!(two.is_valid());
    assert!(byteset_contains(&bits, 2));
    assert!(!byteset_contains(&bits, 3));
}
