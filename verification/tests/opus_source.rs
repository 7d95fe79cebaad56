use lowcat::opus_source::{
    known_duration, packet_step, seek_target, whole_frames, PacketOutcome, PacketStep,
};

#[test]
fn only_packets_with_frames_are_heard() {
    assert_eq!(packet_step(PacketOutcome::Decoded(960)), PacketStep::Play);
    assert_eq!(packet_step(PacketOutcome::Decoded(0)), PacketStep::Next);
    assert_eq!(packet_step(PacketOutcome::Foreign), PacketStep::Next);
    assert_eq!(packet_step(PacketOutcome::Damaged), PacketStep::Next);
    assert_eq!(packet_step(PacketOutcome::Failed), PacketStep::Stop);
}

#[test]
fn seek_ends_at_the_end() {
    assert_eq!(seek_target(100, Some(200)), 100);
    assert_eq!(seek_target(300, Some(200)), 200);
    assert_eq!(seek_target(300, None), 300);
}

#[test]
fn duration_of_nothing_is_unknown() {
    assert_eq!(known_duration(Some(0)), None);
    assert_eq!(known_duration(Some(7)), Some(7));
    assert_eq!(known_duration(None), None);
}

#[test]
fn skipped_samples_make_up_whole_frames() {
    assert_eq!(whole_frames(7, 2), 6);
    assert_eq!(whole_frames(6, 2), 6);
    assert_eq!(whole_frames(1, 6), 0);
}
