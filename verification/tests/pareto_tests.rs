use std::cmp::Ordering;
use timetabling::pareto::frontline::dedup;
use timetabling::pareto::order::sort_by_first;
use timetabling::pareto::{
    kung_recursive, kung_recursive_mosa, less_by_first, naive, random_frontline, random_mosa,
    CanDominate,
};

#[derive(Debug, PartialEq, Clone)]
struct Point {
    a: i8,
    b: i8,
    c: i8,
}

impl CanDominate for Point {
    fn dominates(&self, other: &Self) -> bool {
        self.a > other.a && self.b > other.b && self.c > other.c
    }

    fn compare_first_element(&self, other: &Self) -> Ordering {
        self.a.partial_cmp(&other.a).unwrap()
    }
}

fn to_strings(data: Vec<Point>) -> Vec<String> {
    let mut strings = vec![];
    for d in data {
        strings.push(format!("{},{},{}", d.a, d.b, d.c));
    }
    strings
}

fn sample() -> Vec<Point> {
    vec![
        Point { a: 1, b: 1, c: 1 },
        Point { a: 2, b: 2, c: 2 },
        Point { a: 1, b: 3, c: 1 },
        Point { a: 1, b: 3, c: 1 },
    ]
}

#[test]
fn test_kung_recursive() {
    let data = sample();

    let data = kung_recursive(data);
    let strings = to_strings(data);

    assert!(strings.iter().filter(|&s| s == "1,1,1").count() == 0);
    assert!(strings.iter().filter(|&s| s == "2,2,2").count() == 1);
    assert!(strings.iter().filter(|&s| s == "1,3,1").count() == 2);
}

#[test]
fn test_random_frontline() {
    let data = sample();

    let data = random_frontline(data, 3);
    let strings = to_strings(data);

    assert!(strings.len() == 2);
    assert!(strings.iter().filter(|&s| s == "1,1,1").count() == 0);
    assert!(strings.iter().filter(|&s| s == "2,2,2").count() == 1);
    assert!(strings.iter().filter(|&s| s == "1,3,1").count() == 1); // Dedup
}

#[test]
fn test_less_by_first() {
    let p = Point { a: 1, b: 1, c: 1 };
    let q = Point { a: 2, b: 2, c: 2 };
    assert!(less_by_first(&p, &q));
    assert!(!less_by_first(&q, &p));
    assert!(!less_by_first(&p, &p));
}

#[test]
fn test_sort_by_first_is_stable() {
    let data = vec![
        Point { a: 2, b: 0, c: 0 },
        Point { a: 1, b: 1, c: 0 },
        Point { a: 2, b: 2, c: 0 },
        Point { a: 1, b: 3, c: 0 },
        Point { a: 0, b: 4, c: 0 },
    ];
    let sorted = sort_by_first(data);
    assert_eq!(to_strings(sorted), vec!["0,4,0", "1,1,0", "1,3,0", "2,0,0", "2,2,0"]);
}

#[test]
fn test_kung_of_nothing_and_of_one() {
    assert!(kung_recursive(Vec::<Point>::new()).is_empty());
    let one = kung_recursive(vec![Point { a: 5, b: 5, c: 5 }]);
    assert_eq!(to_strings(one), vec!["5,5,5"]);
}

#[test]
fn test_kung_output_is_part_of_the_input_and_not_dominated() {
    let mut data = vec![];
    for a in 0..6i8 {
        for b in 0..6i8 {
            data.push(Point { a, b: (b * 3 + a) % 6, c: (7 * a + 5 * b) % 6 });
        }
    }
    let out = kung_recursive(data.clone());
    assert!(out.len() <= data.len());
    for x in out.iter() {
        assert!(data.contains(x));
        for y in out.iter() {
            assert!(!y.dominates(x));
        }
    }
    for x in data.iter() {
        if data.iter().all(|y| !y.dominates(x)) {
            assert!(out.contains(x));
        }
    }
}

#[test]
fn test_kung_is_idempotent() {
    let mut data = vec![];
    for a in 0..5i8 {
        for b in 0..5i8 {
            data.push(Point { a, b: (b + 2 * a) % 5, c: (3 * a + b) % 5 });
        }
    }
    let once = kung_recursive(data);
    let twice = kung_recursive(once.clone());
    assert_eq!(once.len(), twice.len());
    assert_eq!(once, twice);
}

#[test]
fn test_naive_keeps_what_is_not_dominated() {
    let out = naive(sample());
    assert_eq!(to_strings(out), vec!["2,2,2", "1,3,1", "1,3,1"]);
    assert!(naive(Vec::<Point>::new()).is_empty());
}

#[test]
fn test_dedup_removes_what_equals_an_earlier_item() {
    let data = vec![
        Point { a: 1, b: 1, c: 1 },
        Point { a: 1, b: 1, c: 1 },
        Point { a: 2, b: 2, c: 2 },
        Point { a: 1, b: 1, c: 1 },
        Point { a: 3, b: 0, c: 0 },
        Point { a: 2, b: 2, c: 2 },
    ];
    assert_eq!(to_strings(dedup(data)), vec!["1,1,1", "2,2,2", "3,0,0"]);
    assert!(dedup(Vec::<Point>::new()).is_empty());
}

#[test]
fn test_frontline_holds_no_item_twice() {
    // a, b, a: none dominates another
    let data = vec![
        Point { a: 1, b: 3, c: 0 },
        Point { a: 2, b: 2, c: 0 },
        Point { a: 1, b: 3, c: 0 },
    ];
    let front = random_frontline(data.clone(), 10);
    assert_eq!(front.len(), 2);
    assert!(front.contains(&data[0]) && front.contains(&data[1]));
    let hot = random_mosa(data.clone(), 10, &|_: &Point, _: &Vec<&Point>| true);
    assert_eq!(hot.len(), 2);
    let cold = random_mosa(data, 10, &|_: &Point, _: &Vec<&Point>| false);
    assert_eq!(cold.len(), 2);
}

#[test]
fn test_random_frontline_cuts_and_shuffles() {
    let mut data = vec![];
    for a in 0..30i8 {
        data.push(Point { a, b: 30 - a, c: 0 });
    }
    let all = random_frontline(data.clone(), 100);
    assert_eq!(all.len(), 30);
    let cut = random_frontline(data.clone(), 7);
    assert_eq!(cut.len(), 7);
    for x in cut.iter() {
        assert!(data.contains(x));
    }
    assert!(random_frontline(data.clone(), 0).is_empty());
    let mut reordered = false;
    for _ in 0..20 {
        if random_frontline(data.clone(), 100) != kung_recursive(data.clone()) {
            reordered = true;
        }
    }
    assert!(reordered);
}

#[test]
fn test_thermal_skyline_at_the_two_extremes() {
    let data = sample();
    let cold = kung_recursive_mosa(data.clone(), &|_: &Point, _: &Vec<&Point>| false);
    assert_eq!(cold, kung_recursive(data.clone()));
    let hot = kung_recursive_mosa(data.clone(), &|_: &Point, _: &Vec<&Point>| true);
    assert_eq!(hot, sort_by_first(data.clone()));
    assert!(hot.len() >= cold.len());
}

#[test]
fn test_thermal_skyline_asks_with_the_dominators() {
    let data = vec![Point { a: 1, b: 1, c: 1 }, Point { a: 3, b: 3, c: 3 }, Point { a: 2, b: 2, c: 2 }];
    let keep = |l: &Point, ds: &Vec<&Point>| {
        assert!(!ds.is_empty());
        for d in ds.iter() {
            assert!(d.dominates(l));
        }
        l.a == 2
    };
    let out = kung_recursive_mosa(data, &keep);
    assert_eq!(to_strings(out), vec!["2,2,2", "3,3,3"]);
}

#[test]
fn test_thermal_skyline_holds_the_skyline() {
    let data = vec![
        Point { a: 4, b: 1, c: 4 },
        Point { a: 1, b: 1, c: 1 },
        Point { a: 2, b: 2, c: 2 },
        Point { a: 1, b: 3, c: 1 },
        Point { a: 3, b: 3, c: 3 },
        Point { a: 1, b: 3, c: 1 },
        Point { a: 2, b: 3, c: 2 },
    ];
    let cold = kung_recursive(data.clone());
    assert_eq!(to_strings(cold.clone()), vec!["1,3,1", "1,3,1", "2,3,2", "3,3,3", "4,1,4"]);
    let odd = kung_recursive_mosa(data.clone(), &|l: &Point, _: &Vec<&Point>| l.a % 2 == 1);
    let one = kung_recursive_mosa(data.clone(), &|_: &Point, ds: &Vec<&Point>| ds.len() == 1);
    for out in [odd, one] {
        assert!(out.len() >= cold.len());
        for x in cold.iter() {
            let wanted = cold.iter().filter(|y| *y == x).count();
            let found = out.iter().filter(|y| *y == x).count();
            assert!(found >= wanted);
        }
    }
}

#[test]
fn test_random_mosa_keeps_the_undominated() {
    let data = sample();
    let out = random_mosa(data.clone(), 10, &|_: &Point, _: &Vec<&Point>| false);
    let strings = to_strings(out);
    assert_eq!(strings.len(), 2);
    assert!(strings.contains(&"2,2,2".to_string()));
    assert!(strings.contains(&"1,3,1".to_string()));
    let hot = random_mosa(data.clone(), 10, &|_: &Point, _: &Vec<&Point>| true);
    assert_eq!(hot.len(), 3);
    let cut = random_mosa(data, 1, &|_: &Point, _: &Vec<&Point>| true);
    assert_eq!(cut.len(), 1);
}

/// A point that another dominates as soon as it is no better in any
/// coordinate.
#[derive(Debug, PartialEq, Clone)]
struct Weak(i8, i8, i8);

impl CanDominate for Weak {
    fn dominates(&self, other: &Self) -> bool {
        self.0 >= other.0 && self.1 >= other.1 && self.2 >= other.2
    }

    fn compare_first_element(&self, other: &Self) -> Ordering {
        self.0.cmp(&other.0)
    }
}

#[test]
fn test_kung_drops_the_equal_of_a_later_item() {
    let data = vec![Weak(1, 1, 1), Weak(2, 2, 2), Weak(1, 3, 1), Weak(1, 3, 1)];
    let out = kung_recursive(data.clone());
    assert_eq!(out, vec![Weak(1, 3, 1), Weak(2, 2, 2)]);
    let front = random_frontline(data, 3);
    assert_eq!(front.len(), 2);
    assert!(front.contains(&Weak(2, 2, 2)) && front.contains(&Weak(1, 3, 1)));
    // an item that another with the same first coordinate dominates leaves,
    // whichever comes first
    let tied = kung_recursive(vec![Weak(1, 3, 0), Weak(1, 2, 0)]);
    assert_eq!(tied, vec![Weak(1, 3, 0)]);
    let tied = kung_recursive(vec![Weak(1, 2, 0), Weak(1, 3, 0)]);
    assert_eq!(tied, vec![Weak(1, 3, 0)]);
}

#[test]
fn test_sort_puts_a_dominated_item_before_its_dominator() {
    let sorted = sort_by_first(vec![
        Weak(2, 0, 0),
        Weak(1, 3, 0),
        Weak(1, 1, 0),
        Weak(1, 2, 5),
        Weak(1, 2, 0),
        Weak(0, 9, 9),
        Weak(1, 3, 0),
    ]);
    assert_eq!(
        sorted,
        vec![
            Weak(0, 9, 9),
            Weak(1, 1, 0),
            Weak(1, 2, 0),
            Weak(1, 3, 0),
            Weak(1, 2, 5),
            Weak(1, 3, 0),
            Weak(2, 0, 0),
        ]
    );
}

#[test]
fn test_kung_leaves_no_dominated_item_where_first_coordinates_are_equal() {
    let mut data = vec![];
    for a in 0..3i8 {
        for b in 0..4i8 {
            for c in 0..4i8 {
                data.push(Weak(a, (b * 3 + a) % 4, (c + b) % 4));
            }
        }
    }
    let out = kung_recursive(data.clone());
    for (i, x) in out.iter().enumerate() {
        assert!(data.contains(x));
        for (j, y) in out.iter().enumerate() {
            assert!(i == j || !y.dominates(x));
        }
    }
    assert_eq!(out, vec![Weak(2, 3, 3)]);
    let twice = kung_recursive(out.clone());
    assert_eq!(twice, out);
    let pairs = vec![Weak(1, 3, 0), Weak(0, 5, 1), Weak(1, 2, 4), Weak(1, 3, 2), Weak(0, 5, 0)];
    let out = kung_recursive(pairs);
    assert_eq!(out, vec![Weak(0, 5, 1), Weak(1, 2, 4), Weak(1, 3, 2)]);
    assert_eq!(kung_recursive(out.clone()), out);
}

#[test]
fn test_random_mosa_is_no_shorter_than_the_frontline() {
    let data = vec![
        Point { a: 4, b: 1, c: 4 },
        Point { a: 1, b: 1, c: 1 },
        Point { a: 2, b: 2, c: 2 },
        Point { a: 1, b: 3, c: 1 },
        Point { a: 3, b: 3, c: 3 },
        Point { a: 2, b: 3, c: 2 },
    ];
    for max in [0usize, 2, 4, 10] {
        let cold = random_frontline(data.clone(), max);
        let some = random_mosa(data.clone(), max, &|l: &Point, _: &Vec<&Point>| l.a == 2);
        let hot = random_mosa(data.clone(), max, &|_: &Point, _: &Vec<&Point>| true);
        assert_eq!(cold.len(), max.min(4));
        assert_eq!(some.len(), max.min(5));
        assert_eq!(hot.len(), max.min(6));
    }
}

#[test]
fn test_frontline_holds_no_dominated_item() {
    let data = vec![Weak(1, 3, 0), Weak(1, 2, 0), Weak(0, 9, 0), Weak(1, 3, 0), Weak(0, 8, 0)];
    for max in [1usize, 2, 5] {
        let front = random_frontline(data.clone(), max);
        assert_eq!(front.len(), max.min(2));
        for (i, x) in front.iter().enumerate() {
            assert!(*x == Weak(1, 3, 0) || *x == Weak(0, 9, 0));
            for (j, y) in front.iter().enumerate() {
                assert!(i == j || !y.dominates(x));
            }
        }
    }
}
