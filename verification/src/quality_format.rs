//! The quality and format parameters of an image request.
use vstd::prelude::*;

use crate::error::IiifError;
use crate::text::{concat2, last_index_of, lemma_last_index_of, rfind_char, slice_chars, str_chars, str_eq, string_from_chars};

verus! {

/// IIIF Image API quality parameter.
#[derive(Debug, Clone, Copy, PartialEq, Eq)]
pub enum Quality {
    /// Server's default rendering.
    Default,
    /// Full color.
    Color,
    /// Grayscale.
    Gray,
    /// Black and white only.
    Bitonal,
}

/// The name of a quality in request paths.
pub open spec fn quality_name(q: Quality) -> Seq<char> {
    match q {
        Quality::Default => "default"@,
        Quality::Color => "color"@,
        Quality::Gray => "gray"@,
        Quality::Bitonal => "bitonal"@,
    }
}

/// The quality a name stands for, if any (names are case-sensitive).
pub open spec fn quality_from_name(s: Seq<char>) -> Option<Quality> {
    if s == "default"@ {
        Some(Quality::Default)
    } else if s == "color"@ {
        Some(Quality::Color)
    } else if s == "gray"@ {
        Some(Quality::Gray)
    } else if s == "bitonal"@ {
        Some(Quality::Bitonal)
    } else {
        None
    }
}

impl Quality {
    /// Parses a quality name; any other text is a `BadRequest`.
    pub fn parse(s: &str) -> (r: Result<Quality, IiifError>)
        ensures
            r matches Ok(q) ==> quality_from_name(s@) == Some(q),
            r is Err ==> quality_from_name(s@) is None,
            r matches Err(e) ==> e is BadRequest && e->BadRequest_0@ == "Unsupported quality: "@ + s@,
    {
        if str_eq(s, "default") {
            Ok(Quality::Default)
        } else if str_eq(s, "color") {
            Ok(Quality::Color)
        } else if str_eq(s, "gray") {
            Ok(Quality::Gray)
        } else if str_eq(s, "bitonal") {
            Ok(Quality::Bitonal)
        } else {
            Err(IiifError::BadRequest(concat2("Unsupported quality: ", s)))
        }
    }

    /// The quality's name, as written in request paths.
    pub fn as_str(&self) -> (r: &'static str)
        ensures
            r@ == quality_name(*self),
    {
        proof {
            reveal_strlit("default");
            reveal_strlit("color");
            reveal_strlit("gray");
            reveal_strlit("bitonal");
        }
        match self {
            Quality::Default => "default",
            Quality::Color => "color",
            Quality::Gray => "gray",
            Quality::Bitonal => "bitonal",
        }
    }
}

/// Parsing the name of any quality gives that quality back.
pub proof fn lemma_quality_name_roundtrip(q: Quality)
    ensures
        quality_from_name(quality_name(q)) == Some(q),
{
    reveal_strlit("default");
    reveal_strlit("color");
    reveal_strlit("gray");
    reveal_strlit("bitonal");
    assert(("color"@)[0] != ("default"@)[0]);
    assert(("gray"@)[0] != ("default"@)[0]);
    assert(("gray"@)[0] != ("color"@)[0]);
    assert(("bitonal"@)[0] != ("default"@)[0]);
    assert(("bitonal"@)[0] != ("color"@)[0]);
    assert(("bitonal"@)[0] != ("gray"@)[0]);
}

impl std::str::FromStr for Quality {
    type Err = IiifError;

    fn from_str(s: &str) -> (r: Result<Self, Self::Err>)
        ensures
            r matches Ok(q) ==> quality_from_name(s@) == Some(q),
            r is Err ==> quality_from_name(s@) is None,
            r matches Err(e) ==> e is BadRequest && e->BadRequest_0@ == "Unsupported quality: "@ + s@,
    {
        Quality::parse(s)
    }
}

/// IIIF Image API output format.
#[derive(Debug, Clone, Copy, PartialEq, Eq)]
pub enum OutputFormat {
    Jpg,
    Png,
    Gif,
    Webp,
    Tif,
}

/// The file extension of a format.
pub open spec fn format_extension(f: OutputFormat) -> Seq<char> {
    match f {
        OutputFormat::Jpg => "jpg"@,
        OutputFormat::Png => "png"@,
        OutputFormat::Gif => "gif"@,
        OutputFormat::Webp => "webp"@,
        OutputFormat::Tif => "tif"@,
    }
}

/// The MIME type of a format.
pub open spec fn format_content_type(f: OutputFormat) -> Seq<char> {
    match f {
        OutputFormat::Jpg => "image/jpeg"@,
        OutputFormat::Png => "image/png"@,
        OutputFormat::Gif => "image/gif"@,
        OutputFormat::Webp => "image/webp"@,
        OutputFormat::Tif => "image/tiff"@,
    }
}

/// The format an extension stands for, if any (`jpeg` and `tiff` included).
pub open spec fn format_from_name(s: Seq<char>) -> Option<OutputFormat> {
    if s == "jpg"@ || s == "jpeg"@ {
        Some(OutputFormat::Jpg)
    } else if s == "png"@ {
        Some(OutputFormat::Png)
    } else if s == "gif"@ {
        Some(OutputFormat::Gif)
    } else if s == "webp"@ {
        Some(OutputFormat::Webp)
    } else if s == "tif"@ || s == "tiff"@ {
        Some(OutputFormat::Tif)
    } else {
        None
    }
}

impl OutputFormat {
    /// MIME content type for HTTP responses.
    pub fn content_type(&self) -> (r: &'static str)
        ensures
            r@ == format_content_type(*self),
    {
        proof {
            reveal_strlit("image/jpeg");
            reveal_strlit("image/png");
            reveal_strlit("image/gif");
            reveal_strlit("image/webp");
            reveal_strlit("image/tiff");
        }
        match self {
            OutputFormat::Jpg => "image/jpeg",
            OutputFormat::Png => "image/png",
            OutputFormat::Gif => "image/gif",
            OutputFormat::Webp => "image/webp",
            OutputFormat::Tif => "image/tiff",
        }
    }

    /// File extension string.
    pub fn extension(&self) -> (r: &'static str)
        ensures
            r@ == format_extension(*self),
    {
        proof {
            reveal_strlit("jpg");
            reveal_strlit("png");
            reveal_strlit("gif");
            reveal_strlit("webp");
            reveal_strlit("tif");
        }
        match self {
            OutputFormat::Jpg => "jpg",
            OutputFormat::Png => "png",
            OutputFormat::Gif => "gif",
            OutputFormat::Webp => "webp",
            OutputFormat::Tif => "tif",
        }
    }

    /// Parses a format extension; any other text is a `BadRequest`.
    pub fn parse(s: &str) -> (r: Result<OutputFormat, IiifError>)
        ensures
            r matches Ok(f) ==> format_from_name(s@) == Some(f),
            r is Err ==> format_from_name(s@) is None,
            r matches Err(e) ==> e is BadRequest && e->BadRequest_0@ == "Unsupported format: "@ + s@,
    {
        if str_eq(s, "jpg") || str_eq(s, "jpeg") {
            Ok(OutputFormat::Jpg)
        } else if str_eq(s, "png") {
            Ok(OutputFormat::Png)
        } else if str_eq(s, "gif") {
            Ok(OutputFormat::Gif)
        } else if str_eq(s, "webp") {
            Ok(OutputFormat::Webp)
        } else if str_eq(s, "tif") || str_eq(s, "tiff") {
            Ok(OutputFormat::Tif)
        } else {
            Err(IiifError::BadRequest(concat2("Unsupported format: ", s)))
        }
    }
}

/// Parsing the extension of any format gives that format back.
pub proof fn lemma_format_extension_roundtrip(f: OutputFormat)
    ensures
        format_from_name(format_extension(f)) == Some(f),
{
    reveal_strlit("jpg");
    reveal_strlit("jpeg");
    reveal_strlit("png");
    reveal_strlit("gif");
    reveal_strlit("webp");
    reveal_strlit("tif");
    reveal_strlit("tiff");
    assert(("png"@)[0] != ("jpg"@)[0]);
    assert(("gif"@)[0] != ("jpg"@)[0]);
    assert(("gif"@)[0] != ("png"@)[0]);
    assert(("tif"@)[0] != ("jpg"@)[0]);
    assert(("tif"@)[0] != ("png"@)[0]);
    assert(("tif"@)[0] != ("gif"@)[0]);
    assert(("webp"@)[0] != ("jpeg"@)[0]);
    assert(("tiff"@)[0] != ("jpeg"@)[0]);
    assert(("tiff"@)[0] != ("webp"@)[0]);
}

impl std::str::FromStr for OutputFormat {
    type Err = IiifError;

    fn from_str(s: &str) -> (r: Result<Self, Self::Err>)
        ensures
            r matches Ok(f) ==> format_from_name(s@) == Some(f),
            r is Err ==> format_from_name(s@) is None,
            r matches Err(e) ==> e is BadRequest && e->BadRequest_0@ == "Unsupported format: "@ + s@,
    {
        OutputFormat::parse(s)
    }
}

/// The quality and format named by a `{quality}.{format}` segment: split at
/// the last `.`, both sides non-empty and recognised.
pub open spec fn quality_format_of(s: Seq<char>) -> Option<(Quality, OutputFormat)> {
    let k = last_index_of(s, '.');
    if k < 0 {
        None
    } else {
        let q = s.subrange(0, k);
        let f = s.subrange(k + 1, s.len() as int);
        if q.len() == 0 || f.len() == 0 {
            None
        } else {
            match (quality_from_name(q), format_from_name(f)) {
                (Some(qq), Some(ff)) => Some((qq, ff)),
                _ => None,
            }
        }
    }
}

/// Parse the combined `{quality}.{format}` path segment; every rejection is
/// a `BadRequest`.
pub fn parse_quality_format(s: &str) -> (r: Result<(Quality, OutputFormat), IiifError>)
    ensures
        r matches Ok(p) ==> quality_format_of(s@) == Some(p),
        r is Err ==> quality_format_of(s@) is None,
        r matches Err(e) ==> e is BadRequest,
{
    let cs = str_chars(s);
    proof {
        lemma_last_index_of(cs@, '.');
    }
    let dot = match rfind_char(&cs, '.') {
        Some(d) => d,
        None => {
            return Err(
                IiifError::BadRequest(
                    String::from_str("Missing format extension in quality.format segment"),
                ),
            );
        },
    };
    let qc = slice_chars(&cs, 0, dot);
    let fc = slice_chars(&cs, dot + 1, cs.len());
    if qc.len() == 0 {
        return Err(IiifError::BadRequest(String::from_str("Quality value is empty")));
    }
    if fc.len() == 0 {
        return Err(IiifError::BadRequest(String::from_str("Format extension is empty")));
    }
    let qs = string_from_chars(&qc);
    let fs = string_from_chars(&fc);
    let quality = Quality::parse(qs.as_str())?;
    let format = OutputFormat::parse(fs.as_str())?;
    Ok((quality, format))
}

} // verus!
