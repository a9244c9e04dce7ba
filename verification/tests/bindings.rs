use polytype::{Substitution, Ty, Variable};

#[test]
fn add_binds_a_free_variable_only() {
    let mut sub = Substitution::with_capacity(2);
    assert!(sub.is_empty());
    assert!(sub.add(Variable(1), Ty(10)));
    assert!(sub.add(Variable(2), Ty(20)));
    assert!(!sub.add(Variable(1), Ty(30)));
    assert_eq!(sub.len(), 2);
    assert_eq!(sub.get(Variable(1)), Some(Ty(10)));
    assert_eq!(sub.get(Variable(2)), Some(Ty(20)));
    assert_eq!(sub.get(Variable(3)), None);
    assert_eq!(sub.as_slice(), &[(Variable(1), Ty(10)), (Variable(2), Ty(20))]);
}

#[test]
fn rollback_restores_the_bindings_of_the_snapshot() {
    let mut sub = Substitution::with_capacity(0);
    sub.add(Variable(0), Ty(5));
    let before = sub.clone();
    let snap = sub.snapshot();
    sub.add(Variable(1), Ty(6));
    sub.add(Variable(2), Ty(7));
    sub.add(Variable(3), Ty(8));
    assert_eq!(sub.len(), 4);
    sub.rollback(snap);
    assert_eq!(sub, before);
    assert_eq!(sub.len(), 1);
    assert_eq!(sub.get(Variable(2)), None);
    assert!(sub.add(Variable(2), Ty(9)));
}

#[test]
fn nested_snapshots_roll_back_in_reverse_order() {
    let mut sub = Substitution::with_capacity(0);
    sub.add(Variable(0), Ty(0));
    let outer_state = sub.clone();
    let outer = sub.snapshot();
    sub.add(Variable(1), Ty(1));
    let inner_state = sub.clone();
    let inner = sub.snapshot();
    sub.add(Variable(2), Ty(2));
    sub.add(Variable(3), Ty(3));
    sub.rollback(inner);
    assert_eq!(sub, inner_state);
    sub.add(Variable(4), Ty(4));
    let again = sub.snapshot();
    sub.add(Variable(5), Ty(5));
    sub.rollback(again);
    assert_eq!(sub.len(), 3);
    sub.rollback(outer);
    assert_eq!(sub, outer_state);
}

#[test]
fn rollback_to_a_later_snapshot_changes_nothing() {
    let mut sub = Substitution::with_capacity(0);
    sub.add(Variable(0), Ty(0));
    sub.add(Variable(1), Ty(1));
    let late = sub.snapshot();
    sub.rollback(late);
    assert_eq!(sub.len(), 2);
    let mut shorter = Substitution::with_capacity(0);
    shorter.add(Variable(0), Ty(0));
    shorter.rollback(late);
    assert_eq!(shorter.len(), 1);
}

#[test]
fn clean_removes_every_binding() {
    let mut sub = Substitution::with_capacity(1);
    let clean = sub.clone();
    sub.add(Variable(0), Ty(1));
    let dirty = sub.clone();
    sub.clean();
    assert_eq!(clean, sub);
    assert_ne!(clean, dirty);
    assert!(sub.is_empty());
}

#[test]
fn iter_walks_the_bindings_oldest_first() {
    let mut sub = Substitution::with_capacity(3);
    sub.add(Variable(7), Ty(1));
    sub.add(Variable(8), Ty(2));
    let mut it = sub.iter();
    assert_eq!(it.next(), Some(&(Variable(7), Ty(1))));
    assert_eq!(it.next(), Some(&(Variable(8), Ty(2))));
    assert_eq!(it.next(), None);
    assert_eq!(it.next(), None);
}
