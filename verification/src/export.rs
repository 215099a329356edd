use vstd::prelude::*;
use crate::text::same_text;

verus! {

/// A file format that processed audio can be exported to. WAV is written
/// directly; the others are produced by an external transcoder from a
/// temporary WAV file.
#[derive(Debug, Clone, Copy, PartialEq, Eq, Structural)]
pub enum OutputFormat {
    Wav,
    Mp3,
    Flac,
    Ogg,
    Aac,
}

/// Error of choosing an export format.
#[derive(Debug, Clone, Copy, PartialEq, Eq, Structural)]
pub enum FormatError {
    /// The name is none of `wav`, `mp3`, `flac`, `ogg`, `aac`.
    UnknownFormat,
}

/// The name of a format, as a caller asks for it.
pub open spec fn format_name(f: OutputFormat) -> Seq<char> {
    match f {
        OutputFormat::Wav => "wav"@,
        OutputFormat::Mp3 => "mp3"@,
        OutputFormat::Flac => "flac"@,
        OutputFormat::Ogg => "ogg"@,
        OutputFormat::Aac => "aac"@,
    }
}

/// The format that a name denotes, if any.
pub open spec fn named_format(name: Seq<char>) -> Option<OutputFormat> {
    if name == "wav"@ {
        Some(OutputFormat::Wav)
    } else if name == "mp3"@ {
        Some(OutputFormat::Mp3)
    } else if name == "flac"@ {
        Some(OutputFormat::Flac)
    } else if name == "ogg"@ {
        Some(OutputFormat::Ogg)
    } else if name == "aac"@ {
        Some(OutputFormat::Aac)
    } else {
        None
    }
}

impl OutputFormat {
    /// Chooses the export format named `name` (`wav`, `mp3`, `flac`, `ogg`
    /// or `aac`, in lower case); any other name is refused.
    pub fn parse(name: &str) -> (r: Result<OutputFormat, FormatError>)
        ensures
            match named_format(name@) {
                Some(f) => r == Ok::<OutputFormat, FormatError>(f),
                None => r == Err::<OutputFormat, FormatError>(FormatError::UnknownFormat),
            },
            r == Ok::<OutputFormat, FormatError>(OutputFormat::Wav) <==> name@ == "wav"@,
            r == Ok::<OutputFormat, FormatError>(OutputFormat::Mp3) <==> name@ == "mp3"@,
            r == Ok::<OutputFormat, FormatError>(OutputFormat::Flac) <==> name@ == "flac"@,
            r == Ok::<OutputFormat, FormatError>(OutputFormat::Ogg) <==> name@ == "ogg"@,
            r == Ok::<OutputFormat, FormatError>(OutputFormat::Aac) <==> name@ == "aac"@,
            r is Err <==> (name@ != "wav"@ && name@ != "mp3"@ && name@ != "flac"@ && name@ != "ogg"@
                && name@ != "aac"@),
    {
        proof {
            lemma_format_names_distinct();
        }
        if same_text(name, "wav") {
            Ok(OutputFormat::Wav)
        } else if same_text(name, "mp3") {
            Ok(OutputFormat::Mp3)
        } else if same_text(name, "flac") {
            Ok(OutputFormat::Flac)
        } else if same_text(name, "ogg") {
            Ok(OutputFormat::Ogg)
        } else if same_text(name, "aac") {
            Ok(OutputFormat::Aac)
        } else {
            Err(FormatError::UnknownFormat)
        }
    }

    /// The name of the format.
    pub fn name(&self) -> (r: &'static str)
        ensures
            r@ == format_name(*self),
            *self == OutputFormat::Wav ==> r@ == "wav"@,
            *self == OutputFormat::Mp3 ==> r@ == "mp3"@,
            *self == OutputFormat::Flac ==> r@ == "flac"@,
            *self == OutputFormat::Ogg ==> r@ == "ogg"@,
            *self == OutputFormat::Aac ==> r@ == "aac"@,
    {
        match self {
            OutputFormat::Wav => "wav",
            OutputFormat::Mp3 => "mp3",
            OutputFormat::Flac => "flac",
            OutputFormat::Ogg => "ogg",
            OutputFormat::Aac => "aac",
        }
    }

    /// Whether the format is produced by the external transcoder (every
    /// format but WAV).
    pub fn needs_transcoder(&self) -> (r: bool)
        ensures
            r == (*self != OutputFormat::Wav),
    {
        match self {
            OutputFormat::Wav => false,
            _ => true,
        }
    }
}

/// The five format names are different texts.
proof fn lemma_format_names_distinct()
    ensures
        "wav"@ != "mp3"@,
        "wav"@ != "flac"@,
        "wav"@ != "ogg"@,
        "wav"@ != "aac"@,
        "mp3"@ != "flac"@,
        "mp3"@ != "ogg"@,
        "mp3"@ != "aac"@,
        "flac"@ != "ogg"@,
        "flac"@ != "aac"@,
        "ogg"@ != "aac"@,
{
    reveal_strlit("wav");
    reveal_strlit("mp3");
    reveal_strlit("flac");
    reveal_strlit("ogg");
    reveal_strlit("aac");
    assert("mp3"@[0] != "wav"@[0]);
    assert("flac"@.len() != "wav"@.len());
    assert("flac"@.len() != "mp3"@.len());
    assert("ogg"@[0] != "wav"@[0]);
    assert("ogg"@[0] != "mp3"@[0]);
    assert("ogg"@.len() != "flac"@.len());
    assert("aac"@[0] != "wav"@[0]);
    assert("aac"@[0] != "mp3"@[0]);
    assert("aac"@.len() != "flac"@.len());
    assert("aac"@[0] != "ogg"@[0]);
}

/// Every format is chosen by its own name.
pub proof fn lemma_format_name_round_trip(f: OutputFormat)
    ensures
        named_format(format_name(f)) == Some(f),
{
    reveal_strlit("wav");
    reveal_strlit("mp3");
    reveal_strlit("flac");
    reveal_strlit("ogg");
    reveal_strlit("aac");
    assert("mp3"@[0] != "wav"@[0]);
    assert("flac"@.len() != "wav"@.len());
    assert("flac"@.len() != "mp3"@.len());
    assert("ogg"@[0] != "wav"@[0]);
    assert("ogg"@[0] != "mp3"@[0]);
    assert("ogg"@.len() != "flac"@.len());
    assert("aac"@[0] != "wav"@[0]);
    assert("aac"@[0] != "mp3"@[0]);
    assert("aac"@.len() != "flac"@.len());
    assert("aac"@[0] != "ogg"@[0]);
}

} // verus!
