use smartnoise_core::graph::{release_schedule, topological_order};
use smartnoise_core::ErrorKind;

fn respects(arguments: &Vec<Vec<usize>>, order: &Vec<usize>) -> bool {
    let position = |id: usize| order.iter().position(|v| *v == id).unwrap();
    order.len() == arguments.len()
        && (0..arguments.len()).all(|k| arguments[k].iter().all(|a| position(*a) < position(k)))
}

#[test]
fn orders_mean_pipeline() {
    // source, clamp(source), mean(clamp), laplace(mean)
    let arguments = vec![vec![2], vec![], vec![1], vec![0]];
    let order = topological_order(&arguments).unwrap();
    assert_eq!(order, vec![1, 2, 0, 3]);
    assert!(respects(&arguments, &order));
}

#[test]
fn orders_diamond() {
    let arguments = vec![vec![], vec![0], vec![0], vec![1, 2]];
    let order = topological_order(&arguments).unwrap();
    assert!(respects(&arguments, &order));
    assert_eq!(topological_order(&vec![]).unwrap(), Vec::<usize>::new());
}

#[test]
fn rejects_cycle() {
    let arguments = vec![vec![], vec![2], vec![1]];
    assert_eq!(topological_order(&arguments).unwrap_err().kind, ErrorKind::PropertyViolation);
    assert!(topological_order(&vec![vec![0]]).is_err());
}

#[test]
fn rejects_dangling_argument() {
    let arguments = vec![vec![], vec![5]];
    assert_eq!(topological_order(&arguments).unwrap_err().kind, ErrorKind::MissingArgument);
}

#[test]
fn releases_dropped_after_last_reader() {
    let arguments = vec![vec![2], vec![], vec![1], vec![0]];
    let order = topological_order(&arguments).unwrap();
    let schedule = release_schedule(&arguments, &order);
    assert_eq!(schedule, vec![vec![], vec![1], vec![2], vec![0]]);
}

#[test]
fn shared_parent_dropped_after_both_readers() {
    let arguments = vec![vec![], vec![0], vec![0], vec![1, 2, 1]];
    let order = vec![0, 1, 2, 3];
    let schedule = release_schedule(&arguments, &order);
    assert_eq!(schedule, vec![vec![], vec![], vec![0], vec![1, 2]]);
}
