use std::cell::RefCell;
use std::collections::HashMap;

use derivre_core::expr::{Expr, ExprFlags, ExprRef};
use derivre_core::exprset::ExprSet;

#[test]
fn shared_node_is_processed_once() {
    let mut s = ExprSet::new(256);
    let a = s.mk(Expr::Byte(b'a'));
    let b = s.mk(Expr::Byte(b'b'));
    let c = s.mk(Expr::Byte(b'c'));
    let ab = s.mk_concat(vec![a, b]);
    let ac = s.mk_concat(vec![a, c]);
    let root = s.mk_or(vec![ab, ac]);
    let calls: RefCell<Vec<ExprRef>> = RefCell::new(Vec::new());
    let size = s.simple_map(root, |_: &ExprSet, kids: &Vec<u32>, e: ExprRef| {
        calls.borrow_mut().push(e);
        1 + kids.iter().sum::<u32>()
    });
    assert_eq!(size, 7);
    let calls = calls.into_inner();
    assert_eq!(calls.iter().filter(|&&e| e == a).count(), 1);
    assert_eq!(calls.len(), 6);
    let pos = |x: ExprRef| calls.iter().position(|&e| e == x).unwrap();
    assert!(pos(a) < pos(ab) && pos(b) < pos(ab) && pos(ab) < pos(root));
    assert!(pos(c) < pos(ac) && pos(ac) < pos(root));
}

#[test]
fn cache_is_reused_across_calls() {
    let mut s = ExprSet::new(256);
    let a = s.mk(Expr::Byte(b'a'));
    let aa = s.mk_concat(vec![a, a]);
    let mut cache: HashMap<u32, usize> = HashMap::new();
    let calls = RefCell::new(0usize);
    let f = |_: &ExprSet, kids: &Vec<usize>, _: ExprRef| {
        *calls.borrow_mut() += 1;
        kids.len()
    };
    assert_eq!(s.map(aa, &mut cache, false, |e| e.as_u32(), &f), 2);
    assert_eq!(*calls.borrow(), 2);
    assert_eq!(s.map(aa, &mut cache, false, |e| e.as_u32(), &f), 2);
    assert_eq!(*calls.borrow(), 2);
    assert_eq!(cache.get(&a.as_u32()), Some(&0));
}

#[test]
fn concat_pruning_stops_after_non_nullable_child() {
    let mut s = ExprSet::new(256);
    let a = s.mk(Expr::Byte(b'a'));
    let b = s.mk(Expr::Byte(b'b'));
    let e = ExprRef::empty_string();
    let cat = s.mk_concat(vec![e, a, b]);
    let seen: RefCell<Vec<ExprRef>> = RefCell::new(Vec::new());
    let mut cache: HashMap<u32, usize> = HashMap::new();
    let n = s.map(cat, &mut cache, true, |x| x.as_u32(), |_: &ExprSet, kids: &Vec<usize>, x: ExprRef| {
        seen.borrow_mut().push(x);
        kids.len()
    });
    assert_eq!(n, 2);
    assert!(!seen.borrow().contains(&b));
    let mut full: HashMap<u32, usize> = HashMap::new();
    let m = s.map(cat, &mut full, false, |x| x.as_u32(), |_: &ExprSet, kids: &Vec<usize>, _: ExprRef| kids.len());
    assert_eq!(m, 3);
}

#[test]
fn merged_keys_share_one_result() {
    let mut s = ExprSet::new(256);
    let a = s.mk(Expr::Byte(b'a'));
    let b = s.mk(Expr::Byte(b'b'));
    let alt = s.mk_or(vec![a, b]);
    let calls = RefCell::new(0usize);
    let mut cache: HashMap<u32, usize> = HashMap::new();
    let key = |x: ExprRef| if x == a || x == b { 0 } else { x.as_u32() };
    let r = s.map(alt, &mut cache, false, key, |_: &ExprSet, kids: &Vec<usize>, _: ExprRef| {
        *calls.borrow_mut() += 1;
        kids.len()
    });
    assert_eq!(*calls.borrow(), 2);
    assert_eq!(r, 2);
}

#[test]
fn identity_map_visits_shared_node_once() {
    let mut s = ExprSet::new(256);
    let pos = ExprFlags::positive();
    let x = s.mk(Expr::Byte(7));
    let p1 = s.mk(Expr::Not(pos, x));
    let p2 = s.mk(Expr::Lookahead(pos, x, 1));
    let root = s.mk(Expr::Or(pos, vec![p1, p2]));
    let calls: RefCell<Vec<ExprRef>> = RefCell::new(Vec::new());
    let res = s.simple_map(root, |_: &ExprSet, _: &Vec<ExprRef>, e: ExprRef| {
        calls.borrow_mut().push(e);
        e
    });
    assert_eq!(res, root);
    let calls = calls.into_inner();
    assert_eq!(calls.len(), 4);
    for e in [x, p1, p2, root] {
        assert_eq!(calls.iter().filter(|&&c| c == e).count(), 1);
    }
}
