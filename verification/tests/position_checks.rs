use intertense::position::{advance_position, compute_offset, Position, PositionIter};

fn pairs(mut iter: PositionIter) -> Vec<[isize; 2]> {
    let mut out = Vec::new();
    while let Some(px) = iter.next() {
        out.push([px.as_slice()[0], px.as_slice()[1]]);
    }
    out
}

#[test]
fn advance() {
    let mut dims = vec![1, 1];
    let mut position: Vec<isize> = vec![0, 0];

    assert_eq!(advance_position(&dims, 1, &mut position), 1);
    assert_eq!(position, [0, 0]);

    dims = vec![1, 2];

    assert_eq!(advance_position(&dims, 1, &mut position), 0);
    assert_eq!(position, [0, 1]);
    assert_eq!(advance_position(&dims, 1, &mut position), 1);
    assert_eq!(position, [0, 0]);

    dims = vec![2, 4];

    assert_eq!(advance_position(&dims, 18, &mut position), 2);
    assert_eq!(position, [0, 2]);
}

#[test]
fn position_offset() {
    let dims = vec![4, 6];
    let strides = vec![2, 10];

    assert_eq!(compute_offset(&dims, &[2, 3], &strides), 34);
}

#[test]
fn position_iter_collect() {
    let expected: Vec<[isize; 2]> = vec![[0, 0], [0, 1], [0, 2], [1, 0], [1, 1], [1, 2]];
    let response: Vec<[isize; 2]> = pairs(PositionIter::new(&[2, 3]));

    assert_eq!(expected, response);
}

#[test]
fn position_iter_len() {
    let expected: Vec<usize> = vec![6, 5, 4, 3, 2, 1, 0];
    let mut iter = PositionIter::new(&[2, 3]);
    let response: Vec<usize> = (0..7)
        .map(|_| {
            let l = iter.len();
            if rand::random() {
                iter.next()
            } else {
                iter.next_back()
            };

            l
        })
        .collect();

    assert_eq!(expected, response);
    assert_eq!(iter.next(), None);

    let expected: Vec<usize> = vec![12, 10, 8, 6, 4, 2, 0];
    let mut iter = PositionIter::new(&[4, 3]);
    let response: Vec<usize> = (0..7)
        .map(|_| {
            let l = iter.len();
            if rand::random() {
                iter.nth(1)
            } else {
                iter.nth_back(1)
            };

            l
        })
        .collect();

    assert_eq!(expected, response);
    assert_eq!(iter.next(), None);
}

#[test]
fn position_iter_nth() {
    let iter = PositionIter::new(&[4, 1, 3, 2, 9]);
    for n in 0..12 * 18 + 10 {
        let mut a = iter.clone();
        let mut b = iter.clone();

        assert_eq!(a.nth(n), {
            for _ in 0..n {
                b.next();
            }
            b.next()
        });

        assert_eq!(a.len(), iter.len().saturating_sub(n + 1));
        assert_eq!(b.len(), iter.len().saturating_sub(n + 1));
    }
}

#[test]
fn position_iter_nth_back() {
    let iter = PositionIter::new(&[4, 1, 3, 2, 9]);
    for n in 0..12 * 18 + 10 {
        let mut a = iter.clone();
        let mut b = iter.clone();

        assert_eq!(a.nth_back(n), {
            for _ in 0..n {
                b.next_back();
            }
            b.next_back()
        });

        assert_eq!(a.len(), iter.len().saturating_sub(n + 1));
        assert_eq!(b.len(), iter.len().saturating_sub(n + 1));
    }
}

#[test]
fn position_iter_scalar() {
    let mut iter = PositionIter::new(&[]);

    assert_eq!(iter.len(), 1);
    assert_eq!(iter.next(), Some(Position::new(0)));
    assert_eq!(iter.next(), None);
    assert_eq!(iter.next(), None);
}
