use vstd::prelude::*;

verus! {

#[verifier::external_type_specification]
#[verifier::external_body]
pub struct ExIoError(std::io::Error);

/// Errors that can occur when reading or writing Aseprite files.
#[derive(Debug)]
pub enum AsepriteError {
    /// An I/O error occurred during reading or writing.
    Io(std::io::Error),
    /// The file does not start with the Aseprite magic number `0xA5E0`.
    InvalidMagic,
    /// The file uses a color depth that is not 8, 16, or 32 bits.
    UnsupportedColorDepth(u16),
    /// A frame index is out of bounds.
    FrameOutOfBounds(usize),
    /// Pixel data buffer size does not match the expected size.
    PixelSizeMismatch { expected: usize, actual: usize },
    /// A tag's frame range extends beyond the number of frames in the file.
    InvalidFrameRange,
    /// Indexed color mode requires a palette, but none was set.
    MissingPalette,
    /// A linked cel references a source frame without a cel on the same layer.
    LinkedCelNotFound { layer: usize, source_frame: usize },
    /// A chunk's declared size is invalid.
    InvalidChunkSize,
    /// A chunk or property type ID is not recognized.
    UnsupportedChunkType(u16),
    /// A value exceeds the format's limit (e.g., more than 256 palette entries).
    FormatLimitExceeded { field: &'static str, value: usize, max: usize },
}

/// The model of an error: what it says, the I/O error reduced to its kind.
pub enum ErrorModel {
    Io,
    InvalidMagic,
    UnsupportedColorDepth(u16),
    FrameOutOfBounds(usize),
    PixelSizeMismatch { expected: usize, actual: usize },
    InvalidFrameRange,
    MissingPalette,
    LinkedCelNotFound { layer: usize, source_frame: usize },
    InvalidChunkSize,
    UnsupportedChunkType(u16),
    FormatLimitExceeded { field: Seq<char>, value: usize, max: usize },
}

impl View for AsepriteError {
    type V = ErrorModel;

    open spec fn view(&self) -> ErrorModel {
        match self {
            AsepriteError::Io(_) => ErrorModel::Io,
            AsepriteError::InvalidMagic => ErrorModel::InvalidMagic,
            AsepriteError::UnsupportedColorDepth(d) => ErrorModel::UnsupportedColorDepth(*d),
            AsepriteError::FrameOutOfBounds(i) => ErrorModel::FrameOutOfBounds(*i),
            AsepriteError::PixelSizeMismatch { expected, actual } => ErrorModel::PixelSizeMismatch {
                expected: *expected,
                actual: *actual,
            },
            AsepriteError::InvalidFrameRange => ErrorModel::InvalidFrameRange,
            AsepriteError::MissingPalette => ErrorModel::MissingPalette,
            AsepriteError::LinkedCelNotFound { layer, source_frame } => ErrorModel::LinkedCelNotFound {
                layer: *layer,
                source_frame: *source_frame,
            },
            AsepriteError::InvalidChunkSize => ErrorModel::InvalidChunkSize,
            AsepriteError::UnsupportedChunkType(t) => ErrorModel::UnsupportedChunkType(*t),
            AsepriteError::FormatLimitExceeded { field, value, max } => ErrorModel::FormatLimitExceeded {
                field: field@,
                value: *value,
                max: *max,
            },
        }
    }
}

impl AsepriteError {
    /// The wrapped I/O error, if this is an I/O error.
    pub fn source(&self) -> (r: Option<&std::io::Error>)
        ensures
            r is Some <==> self is Io,
            r matches Some(x) ==> *self == AsepriteError::Io(*x),
    {
        match self {
            AsepriteError::Io(e) => Some(e),
            _ => None,
        }
    }
}


impl From<std::io::Error> for AsepriteError {
    fn from(e: std::io::Error) -> (r: AsepriteError) {
        AsepriteError::Io(e)
    }
}

impl vstd::std_specs::convert::FromSpecImpl<std::io::Error> for AsepriteError {
    open spec fn obeys_from_spec() -> bool {
        true
    }

    open spec fn from_spec(e: std::io::Error) -> AsepriteError {
        AsepriteError::Io(e)
    }
}

/// The decimal digits of `n`.
pub open spec fn decimal(n: nat) -> Seq<char>
    decreases n,
{
    if n < 10 {
        seq![(48 + n) as char]
    } else {
        decimal(n / 10).push((48 + n % 10) as char)
    }
}

/// An upper-case hexadecimal digit.
pub open spec fn hex_digit(d: nat) -> char {
    if d < 10 {
        (48 + d) as char
    } else {
        (55 + d) as char
    }
}

/// Four upper-case hexadecimal digits of `v`.
pub open spec fn hex4(v: u16) -> Seq<char> {
    seq![
        hex_digit((v / 4096) as nat),
        hex_digit((v / 256 % 16) as nat),
        hex_digit((v / 16 % 16) as nat),
        hex_digit((v % 16) as nat),
    ]
}

/// The message of an error that is not an I/O error.
pub open spec fn message_of(e: ErrorModel) -> Seq<char> {
    match e {
        ErrorModel::Io => "I/O error"@,
        ErrorModel::InvalidMagic => "invalid magic number (expected 0xA5E0)"@,
        ErrorModel::UnsupportedColorDepth(d) => "unsupported color depth: "@ + decimal(d as nat),
        ErrorModel::FrameOutOfBounds(i) => "frame index "@ + decimal(i as nat) + " out of bounds"@,
        ErrorModel::PixelSizeMismatch { expected, actual } => "pixel data size mismatch: expected "@ + decimal(
            expected as nat,
        ) + ", got "@ + decimal(actual as nat),
        ErrorModel::InvalidFrameRange => "invalid frame range"@,
        ErrorModel::MissingPalette => "indexed color mode requires a palette"@,
        ErrorModel::LinkedCelNotFound { layer, source_frame } => "linked cel not found: layer "@ + decimal(
            layer as nat,
        ) + ", source frame "@ + decimal(source_frame as nat),
        ErrorModel::InvalidChunkSize => "invalid chunk size"@,
        ErrorModel::UnsupportedChunkType(t) => "unsupported chunk type: 0x"@ + hex4(t),
        ErrorModel::FormatLimitExceeded { field, value, max } => "format limit exceeded for "@ + field + ": "@
            + decimal(value as nat) + " > "@ + decimal(max as nat),
    }
}

/// The one-character text of the hexadecimal digit `d`.
fn digit_text(d: usize) -> (s: &'static str)
    requires
        d < 16,
    ensures
        s@ == seq![hex_digit(d as nat)],
{
    let s = match d {
        0 => {
            proof {
                reveal_strlit("0");
            }
            "0"
        },
        1 => {
            proof {
                reveal_strlit("1");
            }
            "1"
        },
        2 => {
            proof {
                reveal_strlit("2");
            }
            "2"
        },
        3 => {
            proof {
                reveal_strlit("3");
            }
            "3"
        },
        4 => {
            proof {
                reveal_strlit("4");
            }
            "4"
        },
        5 => {
            proof {
                reveal_strlit("5");
            }
            "5"
        },
        6 => {
            proof {
                reveal_strlit("6");
            }
            "6"
        },
        7 => {
            proof {
                reveal_strlit("7");
            }
            "7"
        },
        8 => {
            proof {
                reveal_strlit("8");
            }
            "8"
        },
        9 => {
            proof {
                reveal_strlit("9");
            }
            "9"
        },
        10 => {
            proof {
                reveal_strlit("A");
            }
            "A"
        },
        11 => {
            proof {
                reveal_strlit("B");
            }
            "B"
        },
        12 => {
            proof {
                reveal_strlit("C");
            }
            "C"
        },
        13 => {
            proof {
                reveal_strlit("D");
            }
            "D"
        },
        14 => {
            proof {
                reveal_strlit("E");
            }
            "E"
        },
        _ => {
            proof {
                reveal_strlit("F");
            }
            "F"
        },
    };
    assert(s@ =~= seq![hex_digit(d as nat)]);
    s
}

/// The decimal digits of `n`.
fn decimal_text(n: usize) -> (s: String)
    ensures
        s@ == decimal(n as nat),
    decreases n,
{
    if n < 10 {
        digit_text(n).to_owned()
    } else {
        let head = decimal_text(n / 10);
        let s = head.concat(digit_text(n % 10));
        assert(s@ =~= decimal(n as nat));
        s
    }
}

/// Four upper-case hexadecimal digits of `v`.
fn hex4_text(v: u16) -> (s: String)
    ensures
        s@ == hex4(v),
{
    let a = digit_text((v / 4096) as usize).to_owned();
    let b = a.concat(digit_text((v / 256 % 16) as usize));
    let c = b.concat(digit_text((v / 16 % 16) as usize));
    let s = c.concat(digit_text((v % 16) as usize));
    assert(s@ =~= hex4(v));
    s
}

/// The first string followed by the second.
fn join(a: &str, b: &str) -> (s: String)
    ensures
        s@ == a@ + b@,
{
    a.to_owned().concat(b)
}

/// The `Display` text of an I/O error. What it holds is not stated: it
/// depends on the error's kind and origin.
#[verifier::external_body]
fn io_error_text(e: &std::io::Error) -> (s: String) {
    e.to_string()
}

impl AsepriteError {
    /// A human-readable description of the error.
    pub fn message(&self) -> (s: String)
        ensures
            !(self is Io) ==> s@ == message_of(self@),
            self is Io ==> s@.take(11) == "I/O error: "@,
    {
        match self {
            AsepriteError::Io(e) => {
                let t = io_error_text(e);
                let s = join("I/O error: ", t.as_str());
                proof {
                    reveal_strlit("I/O error: ");
                    assert(s@.take(11) =~= "I/O error: "@);
                }
                s
            },
            AsepriteError::InvalidMagic => "invalid magic number (expected 0xA5E0)".to_owned(),
            AsepriteError::UnsupportedColorDepth(d) => {
                let n = decimal_text(*d as usize);
                join("unsupported color depth: ", n.as_str())
            },
            AsepriteError::FrameOutOfBounds(i) => {
                let n = decimal_text(*i);
                let a = join("frame index ", n.as_str());
                join(a.as_str(), " out of bounds")
            },
            AsepriteError::PixelSizeMismatch { expected, actual } => {
                let a = join("pixel data size mismatch: expected ", decimal_text(*expected).as_str());
                let b = join(a.as_str(), ", got ");
                join(b.as_str(), decimal_text(*actual).as_str())
            },
            AsepriteError::InvalidFrameRange => "invalid frame range".to_owned(),
            AsepriteError::MissingPalette => "indexed color mode requires a palette".to_owned(),
            AsepriteError::LinkedCelNotFound { layer, source_frame } => {
                let a = join("linked cel not found: layer ", decimal_text(*layer).as_str());
                let b = join(a.as_str(), ", source frame ");
                join(b.as_str(), decimal_text(*source_frame).as_str())
            },
            AsepriteError::InvalidChunkSize => "invalid chunk size".to_owned(),
            AsepriteError::UnsupportedChunkType(t) => join("unsupported chunk type: 0x", hex4_text(*t).as_str()),
            AsepriteError::FormatLimitExceeded { field, value, max } => {
                let a = join("format limit exceeded for ", field);
                let b = join(a.as_str(), ": ");
                let c = join(b.as_str(), decimal_text(*value).as_str());
                let d = join(c.as_str(), " > ");
                join(d.as_str(), decimal_text(*max).as_str())
            },
        }
    }
}

} // verus!
