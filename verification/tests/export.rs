use soundz::export::{FormatError, OutputFormat};

#[test]
fn known_formats() {
    assert_eq!(OutputFormat::parse("wav"), Ok(OutputFormat::Wav));
    assert_eq!(OutputFormat::parse("mp3"), Ok(OutputFormat::Mp3));
    assert_eq!(OutputFormat::parse("flac"), Ok(OutputFormat::Flac));
    assert_eq!(OutputFormat::parse("ogg"), Ok(OutputFormat::Ogg));
    assert_eq!(OutputFormat::parse("aac"), Ok(OutputFormat::Aac));
}

#[test]
fn unknown_formats() {
    assert_eq!(OutputFormat::parse("WAV"), Err(FormatError::UnknownFormat));
    assert_eq!(OutputFormat::parse("opus"), Err(FormatError::UnknownFormat));
    assert_eq!(OutputFormat::parse(""), Err(FormatError::UnknownFormat));
}

#[test]
fn names_round_trip() {
    for f in [OutputFormat::Wav, OutputFormat::Mp3, OutputFormat::Flac, OutputFormat::Ogg, OutputFormat::Aac] {
        assert_eq!(OutputFormat::parse(f.name()), Ok(f));
    }
}

#[test]
fn only_wav_is_written_directly() {
    assert!(!OutputFormat::Wav.needs_transcoder());
    assert!(OutputFormat::Mp3.needs_transcoder());
    assert!(OutputFormat::Aac.needs_transcoder());
}
