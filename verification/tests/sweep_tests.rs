use std::cmp::Ordering;

use interval_sweep::point::Point;
use interval_sweep::region::{str_cmp, Region, WithRegion};
use interval_sweep::sweep::{Components, ComponentsIter};

fn regions(spec: &[(&str, u32, u32)]) -> Vec<Region> {
    let mut out = Vec::new();
    for (chrom, begin, end) in spec {
        out.push(Region::new((*chrom).to_string(), *begin, *end));
    }
    out
}

type Emitted = (bool, usize, usize, String, u32, u32);

fn collect(mut iter: ComponentsIter<Region>) -> Vec<Emitted> {
    let mut out = Vec::new();
    while let Some(p) = iter.next() {
        out.push((
            p.is_open,
            p.index,
            p.depth,
            p.value.chrom().to_string(),
            p.value.begin(),
            p.value.end(),
        ));
    }
    out
}

fn emitted(is_open: bool, index: usize, depth: usize, chrom: &str, begin: u32, end: u32) -> Emitted {
    (is_open, index, depth, chrom.to_string(), begin, end)
}

#[test]
fn empty_input() {
    let events = collect(regions(&[]).components());
    assert_eq!(events.len(), 0);
}

#[test]
fn empty_input_stays_drained() {
    let mut iter = regions(&[]).components();
    assert!(iter.next().is_none());
    assert!(iter.next().is_none());
}

#[test]
fn single_interval() {
    let events = collect(regions(&[("chr1", 10, 20)]).components());
    assert_eq!(
        events,
        vec![
            emitted(true, 0, 1, "chr1", 10, 20),
            emitted(false, 0, 0, "chr1", 10, 20),
        ]
    );
}

#[test]
fn disjoint_intervals() {
    let events = collect(regions(&[("chr1", 10, 20), ("chr1", 30, 40)]).components());
    assert_eq!(
        events,
        vec![
            emitted(true, 0, 1, "chr1", 10, 20),
            emitted(false, 0, 0, "chr1", 10, 20),
            emitted(true, 1, 1, "chr1", 30, 40),
            emitted(false, 1, 0, "chr1", 30, 40),
        ]
    );
}

#[test]
fn overlap_scenario() {
    let events = collect(
        regions(&[("chr1", 10, 20), ("chr1", 15, 25), ("chr1", 30, 40)]).components(),
    );
    assert_eq!(
        events,
        vec![
            emitted(true, 0, 1, "chr1", 10, 20),
            emitted(true, 1, 2, "chr1", 15, 25),
            emitted(false, 0, 1, "chr1", 10, 20),
            emitted(false, 1, 0, "chr1", 15, 25),
            emitted(true, 2, 1, "chr1", 30, 40),
            emitted(false, 2, 0, "chr1", 30, 40),
        ]
    );
}

#[test]
fn touching_intervals_open_before_close() {
    // At an exact position tie the next interval is opened before the
    // pending close is flushed, so touching intervals overlap for one event.
    let events = collect(regions(&[("chr1", 10, 20), ("chr1", 20, 30)]).components());
    assert_eq!(
        events,
        vec![
            emitted(true, 0, 1, "chr1", 10, 20),
            emitted(true, 1, 2, "chr1", 20, 30),
            emitted(false, 0, 1, "chr1", 10, 20),
            emitted(false, 1, 0, "chr1", 20, 30),
        ]
    );
}

#[test]
fn two_chromosomes() {
    let events = collect(regions(&[("chr1", 10, 20), ("chr2", 5, 15)]).components());
    assert_eq!(
        events,
        vec![
            emitted(true, 0, 1, "chr1", 10, 20),
            emitted(false, 0, 0, "chr1", 10, 20),
            emitted(true, 1, 1, "chr2", 5, 15),
            emitted(false, 1, 0, "chr2", 5, 15),
        ]
    );
}

#[test]
fn count_law_on_nested_input() {
    let input = &[
        ("chr1", 0, 100),
        ("chr1", 10, 90),
        ("chr1", 20, 80),
        ("chr1", 30, 70),
    ];
    let events = collect(regions(input).components());
    assert_eq!(events.len(), 2 * input.len());
    for index in 0..input.len() {
        let opens: Vec<&Emitted> = events.iter().filter(|e| e.0 && e.1 == index).collect();
        let closes: Vec<&Emitted> = events.iter().filter(|e| !e.0 && e.1 == index).collect();
        assert_eq!(opens.len(), 1);
        assert_eq!(closes.len(), 1);
        let open_at = events.iter().position(|e| e.0 && e.1 == index).unwrap();
        let close_at = events.iter().position(|e| !e.0 && e.1 == index).unwrap();
        assert!(open_at < close_at);
    }
}

#[test]
fn determinism() {
    let input = &[("chr1", 10, 20), ("chr1", 15, 25), ("chr2", 0, 5)];
    let first = collect(regions(input).components());
    let second = collect(regions(input).components());
    assert_eq!(first, second);
}

#[test]
fn describe_open_and_close() {
    let events: Vec<Point<Region>> = {
        let mut iter = regions(&[("chr1", 10, 20)]).components();
        let mut out = Vec::new();
        while let Some(p) = iter.next() {
            out.push(p);
        }
        out
    };
    assert_eq!(events[0].describe(), "Open(chr1, 10, 1)");
    assert_eq!(events[1].describe(), "Close(chr1, 20, 0)");
}

#[test]
fn describe_large_numbers() {
    let p = Point {
        is_open: true,
        index: 7,
        depth: 305,
        value: Region::new("scaffold_12".to_string(), 1234567890, 4294967295),
    };
    assert_eq!(p.describe(), "Open(scaffold_12, 1234567890, 305)");
    let q = Point {
        is_open: false,
        index: 7,
        depth: 0,
        value: Region::new("scaffold_12".to_string(), 1234567890, 4294967295),
    };
    assert_eq!(q.describe(), "Close(scaffold_12, 4294967295, 0)");
}

#[test]
fn position_of_open_and_close() {
    let open = Point {
        is_open: true,
        index: 0,
        depth: 1,
        value: Region::new("chr1".to_string(), 10, 20),
    };
    let close = Point {
        is_open: false,
        index: 0,
        depth: 0,
        value: Region::new("chr1".to_string(), 10, 20),
    };
    let (chrom, coord) = open.position();
    assert_eq!((chrom, coord), ("chr1", 10));
    let (chrom, coord) = close.position();
    assert_eq!((chrom, coord), ("chr1", 20));
}

#[test]
fn close_sorts_before_open_at_tie() {
    let close = Point {
        is_open: false,
        index: 0,
        depth: 0,
        value: Region::new("chr1".to_string(), 10, 20),
    };
    let open = Point {
        is_open: true,
        index: 1,
        depth: 0,
        value: Region::new("chr1".to_string(), 20, 30),
    };
    assert_eq!(close.partial_cmp(&open), Some(Ordering::Less));
    assert_eq!(open.partial_cmp(&close), Some(Ordering::Greater));
}

#[test]
fn ordering_by_chromosome_then_coordinate() {
    let a = Point {
        is_open: true,
        index: 0,
        depth: 0,
        value: Region::new("chr1".to_string(), 50, 60),
    };
    let b = Point {
        is_open: true,
        index: 1,
        depth: 0,
        value: Region::new("chr2".to_string(), 10, 20),
    };
    assert_eq!(a.partial_cmp(&b), Some(Ordering::Less));
    let c = Point {
        is_open: true,
        index: 2,
        depth: 0,
        value: Region::new("chr1".to_string(), 55, 60),
    };
    assert_eq!(a.partial_cmp(&c), Some(Ordering::Less));
    assert_eq!(a.partial_cmp(&a), Some(Ordering::Equal));
}

#[test]
fn equality_ignores_kind_and_identity() {
    // Positions compare equal regardless of which interval they came from,
    // and equality looks at the position alone.
    let close = Point {
        is_open: false,
        index: 0,
        depth: 3,
        value: Region::new("chr1".to_string(), 10, 20),
    };
    let open = Point {
        is_open: true,
        index: 9,
        depth: 0,
        value: Region::new("chr1".to_string(), 20, 30),
    };
    assert!(close == open);
    let other = Point {
        is_open: true,
        index: 0,
        depth: 0,
        value: Region::new("chr1".to_string(), 21, 30),
    };
    assert!(close != other);
}

#[test]
fn output_positions_never_decrease() {
    let input = &[
        ("chr1", 10, 50),
        ("chr1", 20, 30),
        ("chr1", 30, 40),
        ("chr1", 60, 70),
        ("chr2", 0, 10),
        ("chr2", 5, 6),
    ];
    let mut iter = regions(input).components();
    let mut positions: Vec<(String, u32)> = Vec::new();
    while let Some(p) = iter.next() {
        let (chrom, coord) = p.position();
        positions.push((chrom.to_string(), coord));
    }
    assert_eq!(positions.len(), 2 * input.len());
    for pair in positions.windows(2) {
        assert!(pair[0] <= pair[1]);
    }
}

#[test]
fn str_cmp_orders_names() {
    assert_eq!(str_cmp("chr1", "chr2"), Ordering::Less);
    assert_eq!(str_cmp("chr2", "chr1"), Ordering::Greater);
    assert_eq!(str_cmp("chr1", "chr1"), Ordering::Equal);
    assert_eq!(str_cmp("chr1", "chr10"), Ordering::Less);
    assert_eq!(str_cmp("", "a"), Ordering::Less);
    assert_eq!(str_cmp("a", ""), Ordering::Greater);
    assert_eq!(str_cmp("", ""), Ordering::Equal);
}
