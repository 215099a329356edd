use soundz::decode::{first_audio_track, step_after_decode, step_after_read, DecodeOutcome, ReadOutcome, Step};

#[test]
fn read_steps() {
    assert_eq!(step_after_read(ReadOutcome::Packet { track_id: 3 }, 3), Step::Decode);
    assert_eq!(step_after_read(ReadOutcome::Packet { track_id: 2 }, 3), Step::Next);
    assert_eq!(step_after_read(ReadOutcome::EndOfStream, 3), Step::Finish);
    assert_eq!(step_after_read(ReadOutcome::ResetRequired, 3), Step::Next);
    assert_eq!(step_after_read(ReadOutcome::Failed, 3), Step::Fail);
}

#[test]
fn decode_steps() {
    assert_eq!(step_after_decode(DecodeOutcome::Decoded), Step::Keep);
    assert_eq!(step_after_decode(DecodeOutcome::IoError), Step::Finish);
    assert_eq!(step_after_decode(DecodeOutcome::BadData), Step::Next);
    assert_eq!(step_after_decode(DecodeOutcome::Failed), Step::Fail);
}

#[test]
fn first_track_with_a_codec() {
    assert_eq!(first_audio_track(&vec![false, true, true]), Some(1));
    assert_eq!(first_audio_track(&vec![false, false]), None);
    assert_eq!(first_audio_track(&vec![]), None);
}
