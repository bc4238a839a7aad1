use hifisampler_core::reflect::{mirror_pad, reflect_extend, reflect_index, reflect_index_mel};

#[test]
fn reflection_sweeps_back_and_forth() {
    let swept: Vec<usize> = (0..10).map(|i| reflect_index(i, 4)).collect();
    assert_eq!(swept, vec![0, 1, 2, 3, 2, 1, 0, 1, 2, 3]);
    let swept: Vec<usize> = (0..10).map(|i| reflect_index_mel(i, 4)).collect();
    assert_eq!(swept, vec![0, 1, 2, 3, 2, 1, 0, 1, 2, 3]);
}

#[test]
fn reflection_of_short_signals_stays_at_the_start() {
    for i in 0..5 {
        assert_eq!(reflect_index(i, 0), 0);
        assert_eq!(reflect_index(i, 1), 0);
        assert_eq!(reflect_index_mel(i, 0), 0);
        assert_eq!(reflect_index_mel(i, 1), 0);
        assert_eq!(reflect_index(i, 2), i % 2);
    }
}

#[test]
fn extension_repeats_the_signal_from_its_start() {
    assert_eq!(reflect_extend(&[1, 2, 3], 8), vec![1, 2, 3, 1, 2, 3, 2, 1]);
    assert_eq!(reflect_extend(&[1, 2, 3], 3), vec![1, 2, 3]);
    assert_eq!(reflect_extend(&[1, 2, 3], 2), vec![1, 2, 3]);
}

#[test]
fn mirror_leaves_out_the_edge() {
    assert_eq!(mirror_pad(&[1, 2, 3, 4], 2), vec![3, 2, 1, 2, 3, 4, 3, 2]);
}

#[test]
fn mirror_of_a_short_signal_holds_its_ends() {
    assert_eq!(mirror_pad(&[1, 2], 3), vec![2, 2, 2, 1, 2, 1, 1, 1]);
    assert_eq!(mirror_pad(&[7], 2), vec![7, 7, 7, 7, 7]);
}
