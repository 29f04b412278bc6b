use rrt::sampling::SampleSource;

#[test]
fn samples_lie_within_the_bounds() {
    let mut source = SampleSource::seeded(1, 500);
    let min = [-100, 40];
    let max = [100, 45];
    for _ in 0..500 {
        let conf = source.sample(&min, &max).unwrap();
        assert!(min[0] <= conf[0] && conf[0] <= max[0]);
        assert!(min[1] <= conf[1] && conf[1] <= max[1]);
    }
}

#[test]
fn samples_vary() {
    let mut source = SampleSource::seeded(2, 200);
    let min = [0, 0];
    let max = [1000, 1000];
    let mut xs = Vec::new();
    let mut ys = Vec::new();
    for _ in 0..200 {
        let conf = source.sample(&min, &max).unwrap();
        xs.push(conf[0]);
        ys.push(conf[1]);
    }
    assert!(xs.iter().any(|&x| x != min[0] && x != max[0]));
    assert!(ys.iter().any(|&y| y != min[1] && y != max[1]));
    assert!(xs.iter().any(|&x| x != xs[0]));
    assert!(ys.iter().any(|&y| y != ys[0]));
}

#[test]
fn a_bound_of_one_point_yields_that_point() {
    let mut source = SampleSource::seeded(3, 10);
    for _ in 0..10 {
        assert_eq!(source.sample(&[7, -7], &[7, -7]), Some([7, -7]));
    }
}

#[test]
fn supply_runs_out() {
    let mut source = SampleSource::seeded(4, 3);
    assert_eq!(source.supply(), 3);
    assert!(source.sample(&[0, 0], &[9, 9]).is_some());
    assert_eq!(source.supply(), 2);
    assert!(source.sample(&[0, 0], &[9, 9]).is_some());
    assert!(source.sample(&[0, 0], &[9, 9]).is_some());
    assert_eq!(source.supply(), 0);
    assert_eq!(source.sample(&[0, 0], &[9, 9]), None);
    assert_eq!(source.sample(&[0, 0], &[9, 9]), None);
    assert_eq!(source.supply(), 0);
}

#[test]
fn an_empty_source_yields_nothing() {
    let mut source = SampleSource::seeded(5, 0);
    assert_eq!(source.sample(&[0, 0], &[9, 9]), None);
}

#[test]
fn equal_seeds_give_equal_samples() {
    let mut one = SampleSource::seeded(99, 50);
    let mut two = SampleSource::seeded(99, 50);
    for _ in 0..50 {
        assert_eq!(
            one.sample(&[-1000, -1000], &[1000, 1000]),
            two.sample(&[-1000, -1000], &[1000, 1000])
        );
    }
}

#[test]
fn the_whole_coordinate_range_can_be_sampled() {
    let mut source = SampleSource::seeded(6, 20);
    for _ in 0..20 {
        assert!(source.sample(&[i32::MIN, i32::MIN], &[i32::MAX, i32::MAX]).is_some());
    }
}
