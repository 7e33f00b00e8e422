use orbiter_logic::partition::{split_bodies, Others};

#[test]
fn split_gives_the_center_and_the_others_in_order() {
    let mut items = vec![10, 20, 30, 40, 50];
    let (center, rest) = split_bodies(&mut items, 2);
    assert_eq!(*center, 30);
    assert_eq!(rest.before, &[10, 20]);
    assert_eq!(rest.after, &[40, 50]);
    assert_eq!(rest.len(), 4);
    assert_eq!(*rest.get(0), 10);
    assert_eq!(*rest.get(1), 20);
    assert_eq!(*rest.get(2), 40);
    assert_eq!(*rest.get(3), 50);
}

#[test]
fn split_at_the_ends() {
    let mut items = vec![1, 2, 3];
    {
        let (center, rest) = split_bodies(&mut items, 0);
        assert_eq!(*center, 1);
        assert!(rest.before.is_empty());
        assert_eq!(rest.after, &[2, 3]);
        assert_eq!(*rest.get(0), 2);
    }
    {
        let (center, rest) = split_bodies(&mut items, 2);
        assert_eq!(*center, 3);
        assert_eq!(rest.before, &[1, 2]);
        assert!(rest.after.is_empty());
        assert_eq!(*rest.get(1), 2);
    }
    let mut single = vec![9];
    let (center, rest) = split_bodies(&mut single, 0);
    assert_eq!(*center, 9);
    assert_eq!(rest.len(), 0);
}

#[test]
fn writing_through_the_center_changes_that_element_only() {
    let mut items = vec![10, 20, 30, 40];
    let (center, rest) = split_bodies(&mut items, 1);
    *center = rest.get(0) + rest.get(1) + rest.get(2);
    assert_eq!(items, vec![10, 80, 30, 40]);
}

#[test]
fn others_reads_across_both_parts() {
    let before = [1, 2];
    let after = [3];
    let rest = Others { before: &before, after: &after };
    assert_eq!(rest.len(), 3);
    assert_eq!(*rest.get(0), 1);
    assert_eq!(*rest.get(1), 2);
    assert_eq!(*rest.get(2), 3);
}
