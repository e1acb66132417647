use derivre_core::byteset::{
    byteset_256, byteset_clear, byteset_contains, byteset_from_range, byteset_intersection,
    byteset_set, byteset_set_range, byteset_union,
};
use derivre_core::expr::{Expr, ExprFlags, ExprRef, ExprTag};
use derivre_core::exprset::ExprSet;
use derivre_core::nextbyte::NextByte;

fn set() -> ExprSet {
    ExprSet::new(256)
}

#[test]
fn reserved_identifiers_are_stable() {
    for size in [256usize, 256, 100] {
        let s = ExprSet::new(size);
        assert_eq!(s.len(), 6);
        assert_eq!(s.get_tag(ExprRef::empty_string()), ExprTag::EmptyString);
        assert_eq!(s.get_tag(ExprRef::no_match()), ExprTag::NoMatch);
        assert_eq!(s.get_tag(ExprRef::any_byte()), ExprTag::ByteSet);
        assert_eq!(s.get_tag(ExprRef::any_byte_string()), ExprTag::Repeat);
        assert_eq!(s.get_tag(ExprRef::non_empty_byte_string()), ExprTag::Repeat);
        assert_eq!(s.cost(), 0);
        assert!(!s.is_valid(ExprRef::invalid()));
        assert!(s.is_valid(ExprRef::non_empty_byte_string()));
        assert!(!s.is_valid(ExprRef::new(6)));
    }
    assert_eq!(ExprRef::empty_string().as_u32(), 1);
    assert_eq!(ExprRef::no_match().as_u32(), 2);
    assert_eq!(ExprRef::any_byte().as_u32(), 3);
    assert_eq!(ExprRef::any_byte_string().as_u32(), 4);
    assert_eq!(ExprRef::non_empty_byte_string().as_usize(), 5);
    assert!(!ExprRef::invalid().is_valid());
}

#[test]
fn reserved_node_flags() {
    let s = set();
    assert!(s.is_nullable(ExprRef::empty_string()));
    assert!(s.is_positive(ExprRef::empty_string()));
    assert!(!s.is_nullable(ExprRef::no_match()));
    assert!(!s.is_positive(ExprRef::no_match()));
    assert!(!s.is_nullable(ExprRef::any_byte()));
    assert!(s.is_positive(ExprRef::any_byte()));
    assert!(s.is_nullable(ExprRef::any_byte_string()));
    assert!(!s.is_nullable(ExprRef::non_empty_byte_string()));
    assert!(s.is_positive(ExprRef::non_empty_byte_string()));
    assert_eq!(s.alphabet_size(), 256);
    assert_eq!(s.alphabet_words(), 8);
    assert_eq!(ExprSet::new(33).alphabet_words(), 2);
}

#[test]
fn identical_construction_gives_same_id() {
    let mut s = set();
    let a1 = s.mk(Expr::Byte(b'a'));
    let a2 = s.mk(Expr::Byte(b'a'));
    let b = s.mk(Expr::Byte(b'b'));
    assert_eq!(a1, a2);
    assert_ne!(a1, b);
    let c1 = s.mk_concat(vec![a1, b]);
    let c2 = s.mk_concat(vec![a2, b]);
    let c3 = s.mk_concat(vec![b, a1]);
    assert_eq!(c1, c2);
    assert_ne!(c1, c3);
    let r1 = s.mk(Expr::RemainderIs(3, 0));
    let r2 = s.mk(Expr::RemainderIs(3, 1));
    assert_ne!(r1, r2);
    assert_eq!(s.mk(Expr::EmptyString), ExprRef::empty_string());
    assert_eq!(s.mk(Expr::NoMatch), ExprRef::no_match());
}

#[test]
fn leaf_and_nary_flags() {
    let mut s = set();
    let r0 = s.mk(Expr::RemainderIs(7, 0));
    assert!(s.is_nullable(r0) && s.is_positive(r0));
    let r1 = s.mk(Expr::RemainderIs(7, 2));
    assert!(!s.is_nullable(r1) && s.is_positive(r1));
    let a = s.mk(Expr::Byte(b'a'));
    let e = ExprRef::empty_string();
    let any = ExprRef::any_byte_string();

    let cat_all = s.mk_concat(vec![e, any]);
    assert!(s.is_nullable(cat_all));
    let cat_one = s.mk_concat(vec![e, a]);
    assert!(!s.is_nullable(cat_one));
    assert!(s.is_positive(cat_one));

    let or_one = s.mk_or(vec![a, e]);
    assert!(s.is_nullable(or_one));
    let or_none = s.mk_or(vec![a, r1]);
    assert!(!s.is_nullable(or_none));
    assert!(s.is_positive(or_none));
    let or_dead = s.mk_or(vec![ExprRef::no_match(), ExprRef::no_match()]);
    assert!(!s.is_positive(or_dead));

    let and_all = s.mk_and(vec![e, any]);
    assert!(s.is_nullable(and_all));
    let and_one = s.mk_and(vec![a, any]);
    assert!(!s.is_nullable(and_one));
    assert_eq!(s.get_tag(and_one), ExprTag::And);
    assert_eq!(s.get_args(and_one), vec![a, any]);
}

fn words(e: &Expr) -> Vec<u32> {
    e.serialize()
}

#[test]
fn decode_reproduces_encoded_nodes() {
    let f = ExprFlags::from_nullable_positive(true, true);
    let g = ExprFlags::from_nullable_positive(false, true);
    let r3 = ExprRef::new(3);
    let r4 = ExprRef::new(4);
    let mut all_set = byteset_256();
    byteset_set_range(&mut all_set, 0, 255);
    let nodes = vec![
        Expr::EmptyString,
        Expr::NoMatch,
        Expr::Byte(0),
        Expr::Byte(255),
        Expr::ByteSet(byteset_256()),
        Expr::ByteSet(all_set),
        Expr::RemainderIs(10, 0),
        Expr::RemainderIs(10, 3),
        Expr::Lookahead(g, r3, 7),
        Expr::Not(g, r4),
        Expr::Repeat(f, r3, 0, u32::MAX),
        Expr::Repeat(g, r3, 2, 5),
        Expr::Concat(g, vec![r3, r4]),
        Expr::Or(f, vec![r4, r3, r4]),
        Expr::And(g, vec![r3, r4]),
    ];
    for n in &nodes {
        let w = words(n);
        let d = Expr::from_slice(&w);
        assert_eq!(words(&d), w);
        assert_eq!(d.nullable(), n.nullable());
        assert_eq!(d.args(), n.args());
    }
    match Expr::from_slice(&words(&Expr::Repeat(f, r3, 0, u32::MAX))) {
        Expr::Repeat(ff, e, a, b) => {
            assert!(ff.is_nullable() && ff.is_positive());
            assert_eq!(e, r3);
            assert_eq!((a, b), (0, u32::MAX));
        }
        _ => panic!("wrong variant"),
    }
    match Expr::from_slice(&words(&Expr::Byte(255))) {
        Expr::Byte(b) => assert_eq!(b, 255),
        _ => panic!("wrong variant"),
    }
    match Expr::from_slice(&words(&Expr::Or(f, vec![r4, r3]))) {
        Expr::Or(ff, es) => {
            assert!(ff.is_nullable());
            assert_eq!(es, vec![r4, r3]);
        }
        _ => panic!("wrong variant"),
    }
    assert_eq!(words(&Expr::EmptyString), vec![0x301]);
    assert_eq!(words(&Expr::Byte(7)), vec![0x203, 7]);
}

#[test]
fn stored_nodes_read_back() {
    let mut s = set();
    let a = s.mk(Expr::Byte(9));
    let n = s.mk(Expr::Not(ExprFlags::from_nullable_positive(true, true), a));
    assert_eq!(s.get_tag(n), ExprTag::Not);
    assert_eq!(s.get_args(n), vec![a]);
    assert!(s.get_args(a).is_empty());
    match s.get(n) {
        Expr::Not(f, e) => {
            assert!(f.is_nullable());
            assert_eq!(e, a);
        }
        _ => panic!("wrong variant"),
    }
    assert!(s.get_flags(n).is_positive());
}

#[test]
fn forced_bytes() {
    let mut s = set();
    let a = s.mk(Expr::Byte(b'a'));
    let b = s.mk(Expr::Byte(b'b'));
    let ab = s.mk_concat(vec![a, b]);
    for e in [a, b, ab, ExprRef::any_byte(), ExprRef::no_match()] {
        assert!(s.has_simply_forced_bytes(e, &[]));
    }
    assert!(s.has_simply_forced_bytes(a, b"a"));
    assert!(!s.has_simply_forced_bytes(a, b"b"));
    assert!(!s.has_simply_forced_bytes(a, b"aa"));
    assert!(s.has_simply_forced_bytes(ab, b"a"));
    assert!(s.has_simply_forced_bytes(ab, b"ab"));
    assert!(!s.has_simply_forced_bytes(ab, b"abc"));
    assert!(!s.has_simply_forced_bytes(ab, b"b"));
    assert!(!s.has_simply_forced_bytes(ExprRef::any_byte(), b"a"));
}

#[test]
fn lookahead_lengths() {
    let mut s = set();
    let g = ExprFlags::from_nullable_positive(true, true);
    let e = ExprRef::empty_string();
    let l3 = s.mk(Expr::Lookahead(g, e, 3));
    let l5 = s.mk(Expr::Lookahead(g, e, 5));
    let alt = s.mk_or(vec![l3, l5]);
    assert_eq!(s.lookahead_len(alt), Some(3));
    assert_eq!(s.possible_lookahead_len(alt), 5);
    assert_eq!(s.lookahead_len(l5), Some(5));
    assert_eq!(s.possible_lookahead_len(l5), 5);
    let a = s.mk(Expr::Byte(b'a'));
    assert_eq!(s.lookahead_len(a), None);
    assert_eq!(s.possible_lookahead_len(a), 0);
    let alt2 = s.mk_or(vec![a, ExprRef::any_byte()]);
    assert_eq!(s.lookahead_len(alt2), None);
    assert_eq!(s.possible_lookahead_len(alt2), 0);
    let la = s.mk(Expr::Lookahead(g, a, 4));
    assert_eq!(s.lookahead_len(la), None);
    assert_eq!(s.possible_lookahead_len(la), 4);
    let alt3 = s.mk_or(vec![la, l3]);
    assert_eq!(s.lookahead_len(alt3), Some(3));
    assert_eq!(s.possible_lookahead_len(alt3), 4);
}

#[test]
fn cost_grows_only_for_new_nodes() {
    let mut s = set();
    let c0 = s.cost();
    let a = s.mk(Expr::Byte(b'a'));
    let c1 = s.cost();
    assert_eq!(c1, c0 + 2);
    let a2 = s.mk(Expr::Byte(b'a'));
    assert_eq!(a, a2);
    assert_eq!(s.cost(), c1);
    let len = s.len();
    s.mk_concat(vec![a, a, a]);
    assert_eq!(s.cost(), c1 + 4);
    assert_eq!(s.len(), len + 1);
    s.mk_concat(vec![a, a, a]);
    assert_eq!(s.cost(), c1 + 4);
    assert_eq!(s.len(), len + 1);
    assert!(s.num_bytes() > 0);
}

#[test]
fn next_byte_lattice() {
    let all = [
        NextByte::ForcedByte(0),
        NextByte::ForcedByte(200),
        NextByte::ForcedEOI,
        NextByte::SomeBytes,
        NextByte::Dead,
    ];
    for &x in &all {
        assert_eq!(x & x, x);
        assert_eq!(x | x, x);
        assert_eq!(NextByte::Dead | x, x);
        assert_eq!(x & NextByte::Dead, NextByte::Dead);
        assert_eq!(NextByte::SomeBytes & x, x);
        for &y in &all {
            assert_eq!(x & y, y & x);
            assert_eq!(x | y, y | x);
        }
    }
    assert_eq!(NextByte::ForcedByte(1) & NextByte::ForcedByte(2), NextByte::Dead);
    assert_eq!(NextByte::ForcedByte(1) | NextByte::ForcedByte(2), NextByte::SomeBytes);
    assert_eq!(NextByte::ForcedEOI | NextByte::SomeBytes, NextByte::SomeBytes);
    assert_eq!(NextByte::ForcedEOI.meet(NextByte::SomeBytes), NextByte::ForcedEOI);
    assert_eq!(NextByte::ForcedEOI.join(NextByte::Dead), NextByte::ForcedEOI);
}

#[test]
fn byteset_operations() {
    let mut s = byteset_256();
    assert_eq!(s.len(), 8);
    assert!(!byteset_contains(&s, 0));
    byteset_set(&mut s, 0);
    byteset_set(&mut s, 255);
    byteset_set(&mut s, 33);
    assert!(byteset_contains(&s, 0) && byteset_contains(&s, 255) && byteset_contains(&s, 33));
    assert!(!byteset_contains(&s, 32) && !byteset_contains(&s, 34));
    assert_eq!(s[1], 2);
    byteset_clear(&mut s, 33);
    assert!(!byteset_contains(&s, 33));
    assert_eq!(s[1], 0);

    let r = byteset_from_range(b'a', b'c');
    assert!(byteset_contains(&r, b'a' as usize));
    assert!(byteset_contains(&r, b'c' as usize));
    assert!(!byteset_contains(&r, b'd' as usize));
    assert!(!byteset_contains(&r, b'`' as usize));
    let empty = byteset_from_range(5, 4);
    assert!(empty.iter().all(|&w| w == 0));
    let full = byteset_from_range(0, 255);
    assert!(full.iter().all(|&w| w == u32::MAX));

    let mut u = byteset_from_range(0, 10);
    byteset_union(&mut u, &byteset_from_range(20, 30));
    assert!(byteset_contains(&u, 5) && byteset_contains(&u, 25) && !byteset_contains(&u, 15));
    let mut i = byteset_from_range(0, 10);
    byteset_intersection(&mut i, &byteset_from_range(5, 30));
    assert!(byteset_contains(&i, 5) && byteset_contains(&i, 10) && !byteset_contains(&i, 4));
    assert!(!byteset_contains(&i, 11));
}

#[test]
fn simple_node_byte_queries() {
    let set = byteset_from_range(b'0', b'9');
    let bs = Expr::ByteSet(set);
    assert!(bs.matches_byte(b'5'));
    assert!(!bs.matches_byte(b'a'));
    assert!(bs.surely_no_match(b'a'));
    assert!(!bs.surely_no_match(b'5'));
    assert!(Expr::Byte(1).matches_byte(1));
    assert!(Expr::Byte(1).surely_no_match(2));
    assert!(!Expr::EmptyString.matches_byte(1));
    assert!(Expr::EmptyString.surely_no_match(1));
    assert!(Expr::NoMatch.surely_no_match(1));
    let g = ExprFlags::from_nullable_positive(false, true);
    assert!(!Expr::Not(g, ExprRef::new(3)).surely_no_match(1));
    assert!(!ExprFlags::zero().is_positive());
    assert!(ExprFlags::positive().is_positive());
    assert!(ExprFlags::positive_nullable().is_nullable());
    assert!(!ExprFlags::from_nullable_positive(false, false).is_positive());
    assert!(ExprFlags::from_nullable_positive(true, false).is_positive());
    assert_eq!(ExprTag::from_u8(9), ExprTag::Concat);
    assert_eq!(ExprTag::And.as_u32(), 11);
}

#[test]
fn reserved_byte_sets_after_new() {
    let mut s = ExprSet::new(256);
    let z = s.mk(Expr::ByteSet(vec![0u32; 8]));
    let a = s.mk(Expr::ByteSet(vec![0xffff_ffffu32; 8]));
    assert_eq!(a, ExprRef::any_byte());
    assert_ne!(z, a);
    match s.get(z) {
        Expr::ByteSet(w) => assert_eq!(w, vec![0u32; 8]),
        _ => panic!("wrong variant"),
    }
    let small = ExprSet::new(40);
    match small.get(ExprRef::any_byte()) {
        Expr::ByteSet(w) => assert_eq!(w, vec![0xffff_ffffu32; 2]),
        _ => panic!("wrong variant"),
    }
    let mut u = vec![0u32; 1];
    byteset_set_range(&mut u, 3, 20);
    assert!(byteset_contains(&u, 3) && byteset_contains(&u, 20) && !byteset_contains(&u, 21));
    let before = s.num_bytes();
    s.mk(Expr::ByteSet(vec![0u32; 8]));
    assert_eq!(s.num_bytes(), before);
    s.mk(Expr::Byte(1));
    assert_eq!(s.num_bytes(), before + 8);
}
