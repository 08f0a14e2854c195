use line_sweep::event::{index_of_id, EventType, Segment};
use line_sweep::rectangle::OverlapSweep;
use line_sweep::order::lexicographic_order;
use line_sweep::segment::{event_queue, IntersectionSweep};

type Pt = (f64, f64);

fn seg(p: Pt, q: Pt, id: usize) -> Segment<Pt> {
    Segment::new(p, q, id, p.0.partial_cmp(&q.0), p.1.partial_cmp(&q.1))
}

/// Rectangles as (min x, min y, max x, max y, id).
type R = (f64, f64, f64, f64, usize);

fn overlaps(a: &R, b: &R) -> bool {
    a.0 < b.2 && a.2 > b.0 && a.1 < b.3 && a.3 > b.1
}

/// Drives the sweep over rectangles as the overlap search does.
fn sweep(rects: &[R]) -> Vec<(usize, usize)> {
    let mut events: Vec<(f64, bool, usize)> = Vec::new();
    for r in rects {
        events.push((r.0, true, r.4));
        events.push((r.2, false, r.4));
    }
    events.sort_by(|a, b| a.0.partial_cmp(&b.0).unwrap_or(std::cmp::Ordering::Equal));
    let mut s = OverlapSweep::new();
    for (_x, is_start, id) in events {
        if is_start {
            let cur = rects.iter().find(|r| r.4 == id).unwrap();
            let answers: Vec<bool> = s
                .active()
                .iter()
                .map(|a| overlaps(cur, rects.iter().find(|r| r.4 == *a).unwrap()))
                .collect();
            s.start(id, &answers);
        } else {
            s.end(id);
        }
    }
    s.into_pairs()
}

#[test]
fn event_queue_has_starts_then_ends() {
    let segs = vec![seg((2.0, 2.0), (0.0, 0.0), 4), seg((0.0, 1.0), (3.0, 1.0), 9)];
    let events = event_queue(&segs);
    assert_eq!(events.len(), 4);
    assert_eq!(events[0].point, (0.0, 0.0));
    assert_eq!(events[0].event_type, EventType::Start);
    assert_eq!(events[0].segment_ids, vec![4]);
    assert_eq!(events[1].point, (0.0, 1.0));
    assert_eq!(events[1].event_type, EventType::Start);
    assert_eq!(events[1].segment_ids, vec![9]);
    assert_eq!(events[2].point, (2.0, 2.0));
    assert_eq!(events[2].event_type, EventType::End);
    assert_eq!(events[2].segment_ids, vec![4]);
    assert_eq!(events[3].point, (3.0, 1.0));
    assert_eq!(events[3].event_type, EventType::End);
    assert_eq!(events[3].segment_ids, vec![9]);
}

#[test]
fn event_queue_of_nothing_is_empty() {
    let segs: Vec<Segment<Pt>> = Vec::new();
    assert!(event_queue(&segs).is_empty());
}

#[test]
fn index_of_id_finds_first_match() {
    let segs = vec![seg((0.0, 0.0), (1.0, 1.0), 3), seg((0.0, 0.0), (1.0, 1.0), 5), seg((0.0, 0.0), (1.0, 1.0), 3)];
    assert_eq!(index_of_id(&segs, 3), Some(0));
    assert_eq!(index_of_id(&segs, 5), Some(1));
    assert_eq!(index_of_id(&segs, 4), None);
}

#[test]
fn sweep_reports_single_overlap() {
    let rects = [(0.0, 0.0, 2.0, 2.0, 0), (1.0, 1.0, 3.0, 3.0, 1), (5.0, 5.0, 6.0, 6.0, 2)];
    assert_eq!(sweep(&rects), vec![(0, 1)]);
}

#[test]
fn sweep_reports_nothing_for_disjoint() {
    let rects = [(0.0, 0.0, 1.0, 1.0, 0), (2.0, 2.0, 3.0, 3.0, 1)];
    assert!(sweep(&rects).is_empty());
}

#[test]
fn sweep_reports_all_pairs_sorted() {
    let rects = [(2.0, 2.0, 5.0, 5.0, 2), (0.0, 0.0, 3.0, 3.0, 0), (1.0, 1.0, 4.0, 4.0, 1)];
    assert_eq!(sweep(&rects), vec![(0, 1), (0, 2), (1, 2)]);
}

#[test]
fn start_normalizes_and_deduplicates() {
    let mut s = OverlapSweep::new();
    s.start(5, &[]);
    s.start(2, &[true]);
    s.start(9, &[true, false]);
    assert_eq!(s.active(), &[5, 2, 9]);
    s.end(2);
    assert_eq!(s.active(), &[5, 9]);
    s.start(2, &[true, true]);
    assert_eq!(s.into_pairs(), vec![(2, 5), (2, 9), (5, 9)]);
}

#[test]
fn end_removes_every_copy() {
    let mut s = OverlapSweep::new();
    s.start(1, &[]);
    s.start(1, &[false]);
    s.start(3, &[false, false]);
    s.end(1);
    assert_eq!(s.active(), &[3]);
    s.end(7);
    assert_eq!(s.active(), &[3]);
    assert!(s.into_pairs().is_empty());
}

fn intersection(a: &Segment<Pt>, b: &Segment<Pt>) -> Option<Pt> {
    let d1x = a.q.0 - a.p.0;
    let d1y = a.q.1 - a.p.1;
    let d2x = b.q.0 - b.p.0;
    let d2y = b.q.1 - b.p.1;
    let cross = d1x * d2y - d1y * d2x;
    if cross.abs() < 1e-12 {
        return None;
    }
    let dx = b.p.0 - a.p.0;
    let dy = b.p.1 - a.p.1;
    let t = (dx * d2y - dy * d2x) / cross;
    let u = (dx * d1y - dy * d1x) / cross;
    if (-1e-12..=1.0 + 1e-12).contains(&t) && (-1e-12..=1.0 + 1e-12).contains(&u) {
        Some((a.p.0 + t * d1x, a.p.1 + t * d1y))
    } else {
        None
    }
}

fn y_at(s: &Segment<Pt>, x: f64) -> f64 {
    if (s.q.0 - s.p.0).abs() < 1e-12 {
        (s.p.1 + s.q.1) / 2.0
    } else {
        s.p.1 + (x - s.p.0) / (s.q.0 - s.p.0) * (s.q.1 - s.p.1)
    }
}

/// Drives the intersection sweep as the segment-intersection search does.
fn intersections(segs: &[Segment<Pt>]) -> Vec<(Pt, Vec<usize>)> {
    let mut events = event_queue(segs);
    events.sort_by(|a, b| {
        lexicographic_order(a.point.0.partial_cmp(&b.point.0), a.point.1.partial_cmp(&b.point.1))
    });
    let mut sweep = IntersectionSweep::new();
    for e in &events {
        match e.event_type {
            EventType::Start => {
                let s = segs[index_of_id(segs, e.segment_ids[0]).unwrap()];
                let hits: Vec<Option<Pt>> = sweep.active().iter().map(|a| intersection(&s, a)).collect();
                let y = y_at(&s, e.point.0);
                let above: Vec<bool> = sweep.active().iter().map(|a| y_at(a, e.point.0) > y).collect();
                sweep.start(s, &hits, &above);
            }
            EventType::End => sweep.end(e.segment_ids[0]),
            EventType::Intersection => {}
        }
    }
    sweep.into_found()
}

#[test]
fn intersection_sweep_finds_crossing() {
    let segs = vec![seg((0.0, 0.0), (2.0, 2.0), 0), seg((0.0, 2.0), (2.0, 0.0), 1)];
    let found = intersections(&segs);
    assert_eq!(found.len(), 1);
    let (pt, ids) = &found[0];
    assert!((pt.0 - 1.0).abs() < 1e-9);
    assert!((pt.1 - 1.0).abs() < 1e-9);
    assert_eq!(ids, &vec![1, 0]);
}

#[test]
fn intersection_sweep_finds_nothing_for_parallel() {
    let segs = vec![seg((0.0, 0.0), (2.0, 0.0), 0), seg((0.0, 1.0), (2.0, 1.0), 1)];
    assert!(intersections(&segs).is_empty());
}

#[test]
fn intersection_sweep_records_every_crossing_with_two_ids() {
    let mut segs = Vec::new();
    for i in 0..10 {
        let y = i as f64;
        segs.push(seg((0.0, y), (10.0, y), i));
    }
    segs.push(seg((5.0, -1.0), (5.0, 11.0), 10));
    let found = intersections(&segs);
    assert_eq!(found.len(), 10);
    for (_pt, ids) in &found {
        assert_eq!(ids.len(), 2);
        assert_eq!(ids[0], 10);
    }
}

#[test]
fn intersection_sweep_start_and_end() {
    let mut sweep: IntersectionSweep<Pt> = IntersectionSweep::new();
    sweep.start(seg((0.0, 0.0), (1.0, 0.0), 3), &[], &[]);
    sweep.start(seg((0.0, 1.0), (1.0, 1.0), 4), &[None], &[false]);
    sweep.start(seg((0.0, 2.0), (1.0, 2.0), 5), &[Some((7.0, 7.0)), None], &[false, true]);
    let ids: Vec<usize> = sweep.active().iter().map(|s| s.id).collect();
    assert_eq!(ids, vec![3, 5, 4]);
    sweep.end(5);
    let ids: Vec<usize> = sweep.active().iter().map(|s| s.id).collect();
    assert_eq!(ids, vec![3, 4]);
    assert_eq!(sweep.into_found(), vec![((7.0, 7.0), vec![5, 3])]);
}

#[test]
fn intersection_sweep_finds_touching_endpoint() {
    let segs = vec![seg((0.0, 0.0), (1.0, 1.0), 0), seg((1.0, 1.0), (2.0, 0.0), 1)];
    let found = intersections(&segs);
    assert_eq!(found.len(), 1);
    let (pt, ids) = &found[0];
    assert!((pt.0 - 1.0).abs() < 1e-9);
    assert!((pt.1 - 1.0).abs() < 1e-9);
    assert_eq!(ids, &vec![1, 0]);
}
