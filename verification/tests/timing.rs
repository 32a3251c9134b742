use mapf_game::timing::Measurement;

#[test]
fn a_new_stopwatch_has_timed_nothing() {
    let watch = Measurement::new(3, 7);
    assert_eq!(watch.planned_epochs(), 3);
    assert_eq!(watch.planned_iters(), 7);
    assert!(watch.recorded_epochs().is_empty());
    assert!(watch.recorded_iters().is_empty());
    assert_eq!(watch.avg_epoch_time(), 0);
    assert_eq!(watch.avg_iter_time(), 0);
}

#[test]
fn one_epoch_of_one_iteration_is_its_own_mean() {
    let mut watch = Measurement::new(1, 1);
    watch.start_epoch();
    watch.start_iter();
    watch.end_iter(0);
    watch.end_epoch();
    assert_eq!(watch.recorded_epochs().len(), 1);
    assert_eq!(watch.recorded_iters().len(), 1);
    assert_eq!(watch.recorded_iters()[0].len(), 1);
    let (epoch_time, avg_iter) = watch.epoch_report(0);
    assert_eq!(epoch_time, watch.recorded_epochs()[0]);
    assert_eq!(avg_iter, watch.recorded_iters()[0][0]);
    assert_eq!(watch.avg_epoch_time(), epoch_time);
    assert_eq!(watch.avg_iter_time(), avg_iter);
    assert!(avg_iter <= epoch_time);
}

#[test]
fn means_are_sums_over_the_planned_counts() {
    let mut watch = Measurement::new(2, 3);
    for epoch in 0..2 {
        watch.start_epoch();
        for _ in 0..3 {
            watch.start_iter();
            let began = std::time::Instant::now();
            while began.elapsed() < std::time::Duration::from_millis(2) {}
            watch.end_iter(epoch);
        }
        watch.end_epoch();
    }
    let epochs = watch.recorded_epochs().clone();
    let iters = watch.recorded_iters().clone();
    assert_eq!(epochs.len(), 2);
    assert_eq!(iters.iter().map(|i| i.len()).collect::<Vec<_>>(), vec![3, 3]);
    assert!(iters.iter().flatten().all(|t| *t >= 2_000_000));
    assert_eq!(watch.avg_epoch_time(), (epochs[0] + epochs[1]) / 2);
    assert_eq!(watch.avg_iter_time(), iters.iter().flatten().sum::<u128>() / 6);
    assert_eq!(watch.epoch_report(1), (epochs[1], iters[1].iter().sum::<u128>() / 3));
    let cut = Measurement::new(0x1_0000_0002, 1);
    assert_eq!(cut.avg_epoch_time(), 0);
}
