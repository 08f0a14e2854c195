use line_sweep::event::Segment;
use line_sweep::status::Status;

type Pt = (f64, f64);

fn seg(p: Pt, q: Pt, id: usize) -> Segment<Pt> {
    Segment::new(p, q, id, p.0.partial_cmp(&q.0), p.1.partial_cmp(&q.1))
}

fn y_at(s: &Segment<Pt>, x: f64) -> f64 {
    if (s.q.0 - s.p.0).abs() < 1e-12 {
        (s.p.1 + s.q.1) / 2.0
    } else {
        let t = (x - s.p.0) / (s.q.0 - s.p.0);
        s.p.1 + t * (s.q.1 - s.p.1)
    }
}

/// Inserts as the sweep does at `x`: before the first active segment above.
fn insert_at(status: &mut Status<Pt>, s: Segment<Pt>, x: f64) {
    let y = y_at(&s, x);
    let above: Vec<bool> = status.segments().iter().map(|a| y_at(a, x) > y).collect();
    status.insert(s, &above);
}

fn ids(status: &Status<Pt>) -> Vec<usize> {
    status.segments().iter().map(|s| s.id).collect()
}

#[test]
fn test_insert_and_len() {
    let mut s = Status::new();
    insert_at(&mut s, seg((0.0, 0.0), (2.0, 2.0), 0), 1.0);
    insert_at(&mut s, seg((0.0, 2.0), (2.0, 0.0), 1), 1.0);
    assert_eq!(s.len(), 2);
}

#[test]
fn test_remove() {
    let mut s = Status::new();
    insert_at(&mut s, seg((0.0, 0.0), (2.0, 2.0), 0), 1.0);
    s.remove(0);
    assert!(s.is_empty());
}

#[test]
fn test_neighbors() {
    let mut s = Status::new();
    insert_at(&mut s, seg((0.0, 3.0), (2.0, 3.0), 0), 1.0);
    insert_at(&mut s, seg((0.0, 1.0), (2.0, 1.0), 1), 1.0);
    insert_at(&mut s, seg((0.0, 2.0), (2.0, 2.0), 2), 1.0);
    let (above, below) = s.neighbors(2);
    assert!(above.is_some());
    assert!(below.is_some());
}

#[test]
fn test_default() {
    let s: Status<Pt> = Status::default();
    assert!(s.is_empty());
}

#[test]
fn insert_goes_before_first_segment_above() {
    let mut s = Status::new();
    insert_at(&mut s, seg((0.0, 3.0), (2.0, 3.0), 0), 1.0);
    insert_at(&mut s, seg((0.0, 1.0), (2.0, 1.0), 1), 1.0);
    insert_at(&mut s, seg((0.0, 2.0), (2.0, 2.0), 2), 1.0);
    assert_eq!(ids(&s), vec![1, 2, 0]);
    assert_eq!(s.neighbors(2), (Some(0), Some(1)));
    assert_eq!(s.neighbors(1), (Some(2), None));
    assert_eq!(s.neighbors(0), (None, Some(2)));
}

#[test]
fn insert_with_explicit_answers() {
    let mut s: Status<Pt> = Status::new();
    s.insert(seg((0.0, 0.0), (1.0, 0.0), 10), &[]);
    s.insert(seg((0.0, 0.0), (1.0, 0.0), 11), &[false]);
    s.insert(seg((0.0, 0.0), (1.0, 0.0), 12), &[true, true]);
    s.insert(seg((0.0, 0.0), (1.0, 0.0), 13), &[false, false, true]);
    assert_eq!(ids(&s), vec![12, 10, 13, 11]);
}

#[test]
fn remove_drops_every_copy_and_keeps_order() {
    let mut s: Status<Pt> = Status::new();
    for (i, id) in [4usize, 7, 4, 9, 4].iter().enumerate() {
        let n = s.len();
        let above = vec![false; n];
        s.insert(seg((0.0, i as f64), (1.0, i as f64), *id), &above);
    }
    assert_eq!(ids(&s), vec![4, 7, 4, 9, 4]);
    s.remove(4);
    assert_eq!(ids(&s), vec![7, 9]);
    s.remove(5);
    assert_eq!(ids(&s), vec![7, 9]);
}

#[test]
fn neighbors_of_missing_or_removed_segment() {
    let mut s = Status::new();
    insert_at(&mut s, seg((0.0, 0.0), (2.0, 0.0), 0), 1.0);
    insert_at(&mut s, seg((0.0, 1.0), (2.0, 1.0), 1), 1.0);
    assert_eq!(s.neighbors(5), (None, None));
    s.remove(1);
    assert_eq!(s.neighbors(1), (None, None));
    assert_eq!(s.neighbors(0), (None, None));
}

#[test]
fn neighbors_use_first_copy_of_an_id() {
    let mut s: Status<Pt> = Status::new();
    for id in [1usize, 2, 3, 2].iter() {
        let above = vec![false; s.len()];
        s.insert(seg((0.0, 0.0), (1.0, 0.0), *id), &above);
    }
    assert_eq!(s.neighbors(2), (Some(3), Some(1)));
}

#[test]
fn remove_undoes_insert_on_example() {
    let mut s = Status::new();
    insert_at(&mut s, seg((0.0, 0.0), (4.0, 0.0), 0), 1.0);
    insert_at(&mut s, seg((0.0, 4.0), (4.0, 4.0), 1), 1.0);
    let before = ids(&s);
    insert_at(&mut s, seg((0.0, 2.0), (4.0, 2.0), 2), 1.0);
    assert_eq!(ids(&s), vec![0, 2, 1]);
    assert_eq!(s.neighbors(2), (Some(1), Some(0)));
    s.remove(2);
    assert_eq!(ids(&s), before);
}

#[test]
fn new_status_is_empty() {
    let s: Status<Pt> = Status::new();
    assert_eq!(s.len(), 0);
    assert!(s.is_empty());
    assert!(s.segments().is_empty());
}

#[test]
fn insertion_keeps_segments_sorted_by_height() {
    let mut s = Status::new();
    let heights = [3.0, -1.0, 7.5, 2.0, 2.0, 0.0, 9.0];
    for (i, h) in heights.iter().enumerate() {
        insert_at(&mut s, seg((0.0, *h), (4.0, *h), i), 1.0);
    }
    let ys: Vec<f64> = s.segments().iter().map(|x| y_at(x, 1.0)).collect();
    for w in ys.windows(2) {
        assert!(w[0] <= w[1]);
    }
    s.remove(3);
    s.remove(6);
    let ys: Vec<f64> = s.segments().iter().map(|x| y_at(x, 1.0)).collect();
    assert_eq!(ys, vec![-1.0, 0.0, 2.0, 3.0, 7.5]);
}
