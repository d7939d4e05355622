use optimizeme::rat::Rat;
use optimizeme::views::{get_pviews, get_qviews, get_uncertainty_matrix, rank_order,
    uncertainty_matrix_with};

fn vq(num: i64, den: i64) -> Rat {
    Rat::new(num, den).unwrap()
}

#[test]
fn pviews_encode_the_relative_chain() {
    let returns = vec![vq(1, 10), vq(2, 10), vq(3, 10), vq(4, 10)];
    let p = get_pviews(&returns);
    let expected: [[i64; 4]; 4] = [
        [1, 0, -1, -1],
        [0, 1, 0, -1],
        [0, 0, 1, 0],
        [0, 0, 0, 1],
    ];
    for i in 0..4 {
        for j in 0..4 {
            assert!(p.get(i, j).eq_rat(&vq(expected[i][j], 1)));
        }
    }
}

#[test]
fn qviews_are_consecutive_differences() {
    let returns = vec![vq(-1, 10), vq(0, 1), vq(1, 20), vq(1, 10)];
    let q = get_qviews(&returns).unwrap();
    assert_eq!(q.len(), 4);
    assert!(q[0].eq_rat(&vq(-1, 10)));
    assert!(q[1].eq_rat(&vq(1, 10)));
    assert!(q[2].eq_rat(&vq(1, 20)));
    assert!(q[3].eq_rat(&vq(1, 20)));
}

#[test]
fn qviews_of_empty_input_is_empty() {
    let q = get_qviews(&Vec::new()).unwrap();
    assert!(q.is_empty());
}

#[test]
fn uncertainty_matrix_is_diagonal() {
    let omega = get_uncertainty_matrix(3);
    for i in 0..3 {
        for j in 0..3 {
            if i == j {
                assert!(omega.get(i, j).eq_rat(&vq(1, 100)));
            } else {
                assert!(omega.get(i, j).eq_rat(&Rat::zero()));
            }
        }
    }
    let custom = uncertainty_matrix_with(2, &vq(1, 50));
    assert!(custom.get(0, 0).eq_rat(&vq(1, 50)));
    assert!(custom.get(0, 1).eq_rat(&Rat::zero()));
}

#[test]
fn rank_order_sorts_ascending_and_stably() {
    let keys = vec![vq(3, 1), vq(1, 1), vq(2, 1), vq(1, 1)];
    let order = rank_order(&keys);
    // the two equal keys keep their original relative order
    assert_eq!(order, vec![1, 3, 2, 0]);
}

#[test]
fn rank_order_of_sorted_input_is_untouched() {
    let keys = vec![vq(-1, 2), vq(0, 1), vq(1, 2)];
    assert_eq!(rank_order(&keys), vec![0, 1, 2]);
}
