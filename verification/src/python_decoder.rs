//! Where a decoder that is written in Python comes from.
use vstd::prelude::*;

verus! {

/// The class that is looked for, unless another is named.
pub fn default_decoder_class_name() -> (name: String)
    ensures
        name@ == "Decoder"@,
{
    "Decoder".to_owned()
}

/// The decoders that come along.
#[derive(Debug, Clone, Copy, PartialEq, Eq, Structural)]
pub enum BuiltinDecoder {
    Naive,
    RelayBp,
    Tesseract,
}

impl BuiltinDecoder {
    /// The name of a decoder.
    pub open spec fn name(self) -> Seq<char> {
        match self {
            BuiltinDecoder::Naive => "naive_decoder"@,
            BuiltinDecoder::RelayBp => "relay_bp_decoder"@,
            BuiltinDecoder::Tesseract => "tesseract_decoder"@,
        }
    }

    /// The file name that tracebacks show.
    pub fn virtual_filename(self) -> (name: &'static str)
        ensures
            name@ == seq!['@'] + self.name(),
    {
        proof {
            reveal_strlit("naive_decoder");
            reveal_strlit("relay_bp_decoder");
            reveal_strlit("tesseract_decoder");
            reveal_strlit("@naive_decoder");
            reveal_strlit("@relay_bp_decoder");
            reveal_strlit("@tesseract_decoder");
            assert("@naive_decoder"@ =~= seq!['@'] + "naive_decoder"@);
            assert("@relay_bp_decoder"@ =~= seq!['@'] + "relay_bp_decoder"@);
            assert("@tesseract_decoder"@ =~= seq!['@'] + "tesseract_decoder"@);
        }
        match self {
            BuiltinDecoder::Naive => "@naive_decoder",
            BuiltinDecoder::RelayBp => "@relay_bp_decoder",
            BuiltinDecoder::Tesseract => "@tesseract_decoder",
        }
    }
}

/// The decoder with a name, if there is one.
pub open spec fn builtin_of(name: Seq<char>) -> Option<BuiltinDecoder> {
    if name == BuiltinDecoder::Naive.name() {
        Some(BuiltinDecoder::Naive)
    } else if name == BuiltinDecoder::RelayBp.name() {
        Some(BuiltinDecoder::RelayBp)
    } else if name == BuiltinDecoder::Tesseract.name() {
        Some(BuiltinDecoder::Tesseract)
    } else {
        None
    }
}

/// The decoder with a name, if there is one.
pub fn lookup(name: &String) -> (decoder: Option<BuiltinDecoder>)
    ensures
        decoder == builtin_of(name@),
{
    if *name == "naive_decoder".to_owned() {
        Some(BuiltinDecoder::Naive)
    } else if *name == "relay_bp_decoder".to_owned() {
        Some(BuiltinDecoder::RelayBp)
    } else if *name == "tesseract_decoder".to_owned() {
        Some(BuiltinDecoder::Tesseract)
    } else {
        None
    }
}

/// The names of the decoders that come along.
pub fn names() -> (names: Vec<&'static str>)
    ensures
        names@.len() == 3,
        names@[0]@ == BuiltinDecoder::Naive.name(),
        names@[1]@ == BuiltinDecoder::RelayBp.name(),
        names@[2]@ == BuiltinDecoder::Tesseract.name(),
{
    let mut names: Vec<&'static str> = Vec::new();
    names.push("naive_decoder");
    names.push("relay_bp_decoder");
    names.push("tesseract_decoder");
    names
}

/// Where a decoder comes from.
#[derive(Debug)]
pub enum DecoderSource {
    /// it comes along
    Builtin(BuiltinDecoder),
    /// it was to come along, but there is none of that name; this is what to say
    Unknown(String),
    /// a file
    File,
}

/// What is said of a name that no decoder has.
pub open spec fn unknown_message(name: Seq<char>) -> Seq<char> {
    "unknown builtin decoder '@"@ + name + "'.  Known builtins: @naive_decoder, @relay_bp_decoder, @tesseract_decoder"@
}

/// Finds out where a decoder comes from: a name after an at sign is that of a decoder
/// that comes along, and never a file.
pub fn decoder_source(file: &str) -> (source: DecoderSource)
    ensures
        if file@.len() > 0 && file@[0] == '@' {
            match builtin_of(file@.drop_first()) {
                Some(decoder) => source == DecoderSource::Builtin(decoder),
                None => source is Unknown && source->Unknown_0@ == unknown_message(file@.drop_first()),
            }
        } else {
            source is File
        },
{
    let len: usize = file.unicode_len();
    if len == 0 || file.get_char(0) != '@' {
        return DecoderSource::File;
    }
    let name_slice = file.substring_char(1, len);
    assert(name_slice@ =~= file@.drop_first());
    let name = name_slice.to_owned();
    match lookup(&name) {
        Some(decoder) => DecoderSource::Builtin(decoder),
        None => {
            let mut message = "unknown builtin decoder '@".to_owned();
            message.append(name_slice);
            message.append("'.  Known builtins: @naive_decoder, @relay_bp_decoder, @tesseract_decoder");
            DecoderSource::Unknown(message)
        },
    }
}

} // verus!
