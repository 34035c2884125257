use vtui::apportion::{distribute, serve};

#[test]
fn largest_remainders_are_served_first() {
    let rems: Vec<u128> = vec![3, 9, 9, 0, 5];
    let all = vec![true; 5];
    let (chosen, order) = serve(&rems, &all, 3);
    assert_eq!(order, vec![1, 2, 4]);
    assert_eq!(chosen, vec![false, true, true, false, true]);
    assert_eq!(distribute(&rems, &all, 1), vec![false, true, false, false, false]);
    assert_eq!(distribute(&rems, &all, 0), vec![false; 5]);
}

#[test]
fn only_eligible_entries_are_served() {
    let rems: Vec<u128> = vec![7, 8, 9, 10];
    let eligible = vec![true, false, true, false];
    let (chosen, order) = serve(&rems, &eligible, 9);
    assert_eq!(order, vec![2, 0]);
    assert_eq!(chosen, vec![true, false, true, false]);
    let (chosen, order) = serve(&Vec::new(), &Vec::new(), 4);
    assert_eq!(chosen.len(), 0);
    assert_eq!(order.len(), 0);
}
