use historian::histo::Histo;

// Bucket ids used below are the logarithmic buckets of small values under
// the mapping round(100 * ln(1 + v)): 2 -> 110, 3 -> 139, 4 -> 161,
// 10 -> 240, 20 -> 304, 25 -> 326, 33 -> 353, 47 -> 387, 500 -> 622.

#[test]
fn it_works() {
    let mut c = Histo::default();
    assert_eq!(c.measure(110), 1);
    assert_eq!(c.measure(110), 2);
    assert_eq!(c.measure(139), 1);
    assert_eq!(c.measure(139), 2);
    assert_eq!(c.measure(161), 1);
    assert_eq!(c.percentile(0), Some(110));
    assert_eq!(c.percentile(4000), Some(110));
    assert_eq!(c.percentile(4010), Some(139));
    assert_eq!(c.percentile(8000), Some(139));
    assert_eq!(c.percentile(8010), Some(161));
    assert_eq!(c.percentile(10000), Some(161));
}

#[test]
fn high_percentiles() {
    let mut c = Histo::default();
    for _ in 0..9000 {
        c.measure(240);
    }
    for _ in 0..900 {
        c.measure(326);
    }
    for _ in 0..90 {
        c.measure(353);
    }
    for _ in 0..9 {
        c.measure(387);
    }
    c.measure(622);
    assert_eq!(c.percentile(0), Some(240));
    assert_eq!(c.percentile(9900), Some(326));
    assert_eq!(c.percentile(9989), Some(353));
    assert_eq!(c.percentile(9991), Some(387));
    assert_eq!(c.percentile(9999), Some(387));
    assert_eq!(c.percentile(10000), Some(622));
}

#[test]
fn empty_histogram_has_no_percentiles() {
    let c = Histo::default();
    assert_eq!(c.count(), 0);
    assert_eq!(c.percentile(0), None);
    assert_eq!(c.percentile(5000), None);
    assert_eq!(c.percentile(9999), None);
    assert_eq!(c.percentile(10000), None);
}

#[test]
fn count_tracks_every_measure() {
    let mut c = Histo::default();
    for i in 0..100u16 {
        c.measure(i % 7);
        assert_eq!(c.count(), (i as usize) + 1);
    }
    assert_eq!(c.count(), 100);
}

#[test]
fn repeated_measures_set_the_median() {
    let mut c = Histo::default();
    for _ in 0..10 {
        c.measure(304);
    }
    assert_eq!(c.count(), 10);
    assert_eq!(c.percentile(5000), Some(304));
}

#[test]
fn per_bucket_counts_grow_by_one() {
    let mut c = Histo::default();
    assert_eq!(c.measure(42), 1);
    assert_eq!(c.measure(42), 2);
    assert_eq!(c.measure(42), 3);
    assert_eq!(c.measure(7), 1);
    assert_eq!(c.measure(42), 4);
}

#[test]
fn extreme_bucket_ids() {
    let mut c = Histo::default();
    c.measure(0);
    c.measure(65535);
    assert_eq!(c.count(), 2);
    assert_eq!(c.percentile(0), Some(0));
    assert_eq!(c.percentile(5000), Some(0));
    assert_eq!(c.percentile(5001), Some(65535));
    assert_eq!(c.percentile(10000), Some(65535));
}
