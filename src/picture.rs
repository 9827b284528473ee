//! The chart's output format, chosen by the extension of its path.
use vstd::prelude::*;
use vstd::string::StringSliceAdditionalSpecFns;

verus! {

/// The format of the chart file.
#[derive(Clone, Copy, Debug, PartialEq, Eq, Structural)]
pub enum PicFormat {
    Svg,
    Png,
}

/// Why an output path was refused.
#[derive(Clone, Copy, Debug, PartialEq, Eq, Structural)]
pub enum ConfigError {
    /// The path ends neither in `.svg`/`.SVG` nor in `.png`/`.PNG`.
    UnknownExtension,
}

/// Whether the bytes `s` end with the bytes `t`.
pub open spec fn ends_with(s: Seq<u8>, t: Seq<u8>) -> bool {
    t.len() <= s.len() && s.subrange(s.len() - t.len(), s.len() as int) == t
}

/// The four bytes `.`, `a`, `b`, `c`.
pub open spec fn ext(a: u8, b: u8, c: u8) -> Seq<u8> {
    seq![46u8, a, b, c]
}

pub open spec fn is_svg_path(s: Seq<u8>) -> bool {
    ends_with(s, ext(115, 118, 103)) || ends_with(s, ext(83, 86, 71))
}

pub open spec fn is_png_path(s: Seq<u8>) -> bool {
    ends_with(s, ext(112, 110, 103)) || ends_with(s, ext(80, 78, 71))
}

/// Whether `b` ends with `.` followed by `x`, `y`, `z`.
fn ends_with_ext(b: &[u8], x: u8, y: u8, z: u8) -> (r: bool)
    ensures
        r == ends_with(b@, ext(x, y, z)),
{
    let n = b.len();
    if n < 4 {
        return false;
    }
    let r = b[n - 4] == 46u8 && b[n - 3] == x && b[n - 2] == y && b[n - 1] == z;
    proof {
        let tail = b@.subrange(n - 4, n as int);
        if r {
            assert(tail =~= ext(x, y, z));
        } else {
            assert(tail[0] == b@[n - 4]);
            assert(tail[1] == b@[n - 3]);
            assert(tail[2] == b@[n - 2]);
            assert(tail[3] == b@[n - 1]);
            if tail == ext(x, y, z) {
                assert(ext(x, y, z)[0] == 46u8);
                assert(ext(x, y, z)[1] == x);
                assert(ext(x, y, z)[2] == y);
                assert(ext(x, y, z)[3] == z);
            }
        }
    }
    r
}

impl PicFormat {
    /// The format named by the path's extension, in lower or upper case.
    pub fn from_str(v: &str) -> (r: Result<PicFormat, ConfigError>)
        ensures
            is_svg_path(v.spec_bytes()) ==> r == Ok::<PicFormat, ConfigError>(PicFormat::Svg),
            !is_svg_path(v.spec_bytes()) && is_png_path(v.spec_bytes())
                ==> r == Ok::<PicFormat, ConfigError>(PicFormat::Png),
            !is_svg_path(v.spec_bytes()) && !is_png_path(v.spec_bytes())
                ==> r == Err::<PicFormat, ConfigError>(ConfigError::UnknownExtension),
    {
        let b = v.as_bytes();
        if ends_with_ext(b, 115, 118, 103) || ends_with_ext(b, 83, 86, 71) {
            Ok(PicFormat::Svg)
        } else if ends_with_ext(b, 112, 110, 103) || ends_with_ext(b, 80, 78, 71) {
            Ok(PicFormat::Png)
        } else {
            Err(ConfigError::UnknownExtension)
        }
    }
}

} // verus!
