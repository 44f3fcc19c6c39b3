//! Time stamps.

use lmflow::timestamp::Timestamp;

#[test]
fn sentinels_are_ordered() {
    assert!(Timestamp::unset() < Timestamp::unstarted());
    assert!(Timestamp::unstarted() < Timestamp::pre_stream());
    assert!(Timestamp::pre_stream() < Timestamp::min());
    assert!(Timestamp::min() < Timestamp::max());
    assert!(Timestamp::max() < Timestamp::post_stream());
    assert!(Timestamp::post_stream() < Timestamp::one_over_post_stream());
    assert!(Timestamp::one_over_post_stream() < Timestamp::done());
}

#[test]
fn default_is_unset() {
    assert_eq!(Timestamp::default(), Timestamp::unset());
}

#[test]
fn allowed_in_stream_range() {
    assert!(Timestamp::pre_stream().is_allowed_in_stream());
    assert!(Timestamp(0).is_allowed_in_stream());
    assert!(Timestamp::post_stream().is_allowed_in_stream());
    assert!(!Timestamp::unset().is_allowed_in_stream());
    assert!(!Timestamp::unstarted().is_allowed_in_stream());
    assert!(!Timestamp::one_over_post_stream().is_allowed_in_stream());
    assert!(!Timestamp::done().is_allowed_in_stream());
}

#[test]
fn range_value_only_covers_data_interval() {
    assert!(Timestamp(0).is_range_value());
    assert!(Timestamp::min().is_range_value());
    assert!(Timestamp::max().is_range_value());
    assert!(!Timestamp::pre_stream().is_range_value());
    assert!(!Timestamp::post_stream().is_range_value());
}

#[test]
fn next_allowed_in_stream_cases() {
    assert_eq!(Timestamp(5).next_allowed_in_stream(), Timestamp(6));
    assert_eq!(
        Timestamp::pre_stream().next_allowed_in_stream(),
        Timestamp::one_over_post_stream()
    );
    assert_eq!(
        Timestamp::max().next_allowed_in_stream(),
        Timestamp::one_over_post_stream()
    );
    assert_eq!(
        Timestamp::post_stream().next_allowed_in_stream(),
        Timestamp::one_over_post_stream()
    );
    assert_eq!(
        Timestamp::unstarted().next_allowed_in_stream(),
        Timestamp::min()
    );
    assert_eq!(
        Timestamp::unset().next_allowed_in_stream(),
        Timestamp::min()
    );
}

#[test]
fn previous_allowed_in_stream_cases() {
    assert_eq!(Timestamp(5).previous_allowed_in_stream(), Timestamp(4));
    assert_eq!(
        Timestamp::min().previous_allowed_in_stream(),
        Timestamp::unstarted()
    );
    assert_eq!(
        Timestamp::post_stream().previous_allowed_in_stream(),
        Timestamp::unstarted()
    );
    assert_eq!(
        Timestamp::done().previous_allowed_in_stream(),
        Timestamp::max()
    );
    assert_eq!(
        Timestamp::one_over_post_stream().previous_allowed_in_stream(),
        Timestamp::max()
    );
}

#[test]
fn has_next_allowed_in_stream() {
    assert!(Timestamp(0).has_next_allowed_in_stream());
    assert!(!Timestamp::pre_stream().has_next_allowed_in_stream());
    assert!(!Timestamp::max().has_next_allowed_in_stream());
    assert!(!Timestamp::done().has_next_allowed_in_stream());
}

#[test]
fn arithmetic_saturates_instead_of_overflowing() {
    assert_eq!(Timestamp::done() + 1, Timestamp::done());
    assert_eq!(Timestamp::unset() - 1, Timestamp::unset());
    assert_eq!(Timestamp(10) + 5, Timestamp(15));
    assert_eq!(Timestamp(10) - 5, Timestamp(5));
}

#[test]
fn display_names_sentinels() {
    assert_eq!(Timestamp::done().text(), "Done");
    assert_eq!(Timestamp::pre_stream().text(), "PreStream");
    assert_eq!(Timestamp(7).text(), "7");
}

#[test]
fn next_and_previous_undo_each_other() {
    for n in [-3i64, 0, 41] {
        let t = Timestamp(n);
        assert_eq!(t.next_allowed_in_stream().previous_allowed_in_stream(), t);
        assert_eq!(t.previous_allowed_in_stream().next_allowed_in_stream(), t);
    }
}

#[test]
fn nothing_lies_between_a_time_stamp_and_the_next() {
    let t = Timestamp(9);
    let next = t.next_allowed_in_stream();
    assert!(t < next);
    assert_eq!(next.0 - t.0, 1);
}

#[test]
fn moves_are_held_back_at_the_ends() {
    assert_eq!(Timestamp(i64::MAX - 1) + 5, Timestamp(i64::MAX));
    assert_eq!(Timestamp(i64::MIN + 1) - 5, Timestamp(i64::MIN));
    assert_eq!(Timestamp(3) + 4 - 4, Timestamp(3));
    assert_eq!(Timestamp(0) - i64::MIN, Timestamp(i64::MAX));
}

#[test]
fn sentinels_show_their_names() {
    assert_eq!(Timestamp::unset().text(), "Unset");
    assert_eq!(Timestamp::unstarted().text(), "Unstarted");
    assert_eq!(Timestamp::post_stream().text(), "PostStream");
    assert_eq!(Timestamp(-12).text(), "-12");
}
