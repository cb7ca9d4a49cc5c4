//! Path-string derivation for the loader: the file name after the
//! last slash, its stem and extension around the last dot, and the
//! directory before it; the extension gate; and the destination path.

use vstd::prelude::*;
use crate::convert::DOT;
use crate::text::copy_range;
use crate::text::append_bytes;

verus! {

/// ASCII `'/'`.
pub const SLASH: u8 = 0x2f;

/// Why a path is rejected before any conversion runs.
#[derive(PartialEq, Eq, Structural, Clone, Copy, Debug)]
pub enum PathError {
    /// The path ends in a separator or is empty: no file name.
    MissingName,
    /// The file name has no extension separator after its first byte.
    MissingExtension,
    /// The extension is not exactly `srt`.
    UnsupportedFormat,
}

/// The name, directory and extension parts of an input path.  The
/// directory runs up to and including the last slash (it is empty for
/// a bare file name), so the destination path is the directory with a
/// file name appended verbatim.
pub struct PathParts {
    pub directory: Vec<u8>,
    pub stem: Vec<u8>,
    pub extension: Vec<u8>,
}

/// Where the file name of `path` starts: just after the last slash,
/// or at the start when there is none.
pub open spec fn spec_name_start(path: Seq<u8>) -> int
    decreases path.len(),
{
    if path.len() == 0 {
        0
    } else if path.last() == SLASH {
        path.len() as int
    } else {
        spec_name_start(path.drop_last())
    }
}

/// The position of the last dot of `name` after its first byte, if
/// any: a dot that opens a hidden file's name does not separate an
/// extension.
pub open spec fn spec_last_dot(name: Seq<u8>) -> Option<int>
    decreases name.len(),
{
    if name.len() <= 1 {
        None
    } else if name.last() == DOT {
        Some(name.len() - 1)
    } else {
        spec_last_dot(name.drop_last())
    }
}

/// The directory, stem and extension that `path` splits into, or the
/// reason it is rejected: no file name after the last slash, or no
/// extension separator within the file name.
pub open spec fn spec_parse_path(path: Seq<u8>) -> Result<
    (Seq<u8>, Seq<u8>, Seq<u8>),
    PathError,
> {
    let ns = spec_name_start(path);
    let name = path.skip(ns);
    if name.len() == 0 {
        Err(PathError::MissingName)
    } else {
        match spec_last_dot(name) {
            None => Err(PathError::MissingExtension),
            Some(d) => Ok((path.take(ns), name.take(d), name.skip(d + 1))),
        }
    }
}

/// Finds where the file name starts, matching `spec_name_start`.
fn name_start_exec(path: &Vec<u8>) -> (r: usize)
    ensures
        r as int == spec_name_start(path@),
        r <= path@.len(),
{
    proof {
        assert(path@.take(path@.len() as int) =~= path@);
    }
    let mut i: usize = path.len();
    while i > 0
        invariant
            i <= path@.len(),
            spec_name_start(path@) == spec_name_start(path@.take(i as int)),
        decreases i,
    {
        proof {
            assert(path@.take(i as int).drop_last() =~= path@.take(i as int - 1));
        }
        if path[i - 1] == SLASH {
            return i;
        }
        i -= 1;
    }
    0
}

/// Finds the last dot after the first byte, matching `spec_last_dot`.
fn last_dot_exec(name: &Vec<u8>) -> (r: Option<usize>)
    ensures
        match r {
            Some(d) => spec_last_dot(name@) == Some(d as int) && 1 <= d < name@.len(),
            None => spec_last_dot(name@) == None::<int>,
        },
{
    proof {
        assert(name@.take(name@.len() as int) =~= name@);
    }
    let mut i: usize = name.len();
    while i > 1
        invariant
            i <= name@.len(),
            spec_last_dot(name@) == spec_last_dot(name@.take(i as int)),
        decreases i,
    {
        proof {
            assert(name@.take(i as int).drop_last() =~= name@.take(i as int - 1));
        }
        if name[i - 1] == DOT {
            return Some(i - 1);
        }
        i -= 1;
    }
    None
}

/// Splits a path into its parts, matching `spec_parse_path`.
pub fn parse_path(path: &Vec<u8>) -> (r: Result<PathParts, PathError>)
    ensures
        match r {
            Ok(parts) => spec_parse_path(path@) == Ok::<(Seq<u8>, Seq<u8>, Seq<u8>), PathError>(
                (parts.directory@, parts.stem@, parts.extension@),
            ),
            Err(e) => spec_parse_path(path@) == Err::<(Seq<u8>, Seq<u8>, Seq<u8>), PathError>(e),
        },
{
    let ns = name_start_exec(path);
    let name = copy_range(path, ns, path.len());
    proof {
        assert(name@ =~= path@.skip(ns as int));
    }
    if name.len() == 0 {
        return Err(PathError::MissingName);
    }
    let d = match last_dot_exec(&name) {
        Some(d) => d,
        None => {
            return Err(PathError::MissingExtension);
        },
    };
    let directory = copy_range(path, 0, ns);
    let stem = copy_range(&name, 0, d);
    let extension = copy_range(&name, d + 1, name.len());
    proof {
        assert(directory@ =~= path@.take(ns as int));
        assert(stem@ =~= name@.take(d as int));
        assert(extension@ =~= name@.skip(d as int + 1));
    }
    Ok(PathParts { directory, stem, extension })
}

/// The one extension the converter takes: `srt`, byte for byte.
pub open spec fn srt_ext() -> Seq<u8> {
    seq![0x73u8, 0x72u8, 0x74u8]
}

/// Tests the extension gate: exactly the bytes `srt`.
pub fn is_srt_extension(ext: &Vec<u8>) -> (r: bool)
    ensures
        r == (ext@ == srt_ext()),
{
    if ext.len() == 3 && ext[0] == 0x73 && ext[1] == 0x72 && ext[2] == 0x74 {
        proof {
            assert(ext@ =~= srt_ext());
        }
        true
    } else {
        false
    }
}

/// The suffix of the default destination name: `.lrc` with its dot.
pub open spec fn lrc_suffix() -> Seq<u8> {
    seq![0x2eu8, 0x6cu8, 0x72u8, 0x63u8]
}

/// The destination path: the directory with the supplied name
/// verbatim when one is given, else with the stem and `.lrc`.
pub open spec fn spec_output_path(
    directory: Seq<u8>,
    stem: Seq<u8>,
    explicit: Option<Seq<u8>>,
) -> Seq<u8> {
    match explicit {
        Some(name) => directory + name,
        None => directory + stem + lrc_suffix(),
    }
}

/// Builds the destination path, matching `spec_output_path`.
pub fn resolve_output_path(parts: &PathParts, explicit: Option<&Vec<u8>>) -> (r: Vec<u8>)
    ensures
        r@ == spec_output_path(
            parts.directory@,
            parts.stem@,
            (match explicit {
                Some(name) => Some(name@),
                None => None,
            }),
        ),
{
    let mut r = copy_range(&parts.directory, 0, parts.directory.len());
    proof {
        assert(r@ =~= parts.directory@);
    }
    match explicit {
        Some(name) => {
            append_bytes(&mut r, name);
        },
        None => {
            append_bytes(&mut r, &parts.stem);
            r.push(0x2e);
            r.push(0x6c);
            r.push(0x72);
            r.push(0x63);
            proof {
                assert(r@ =~= parts.directory@ + parts.stem@ + lrc_suffix());
            }
        },
    }
    r
}

/// The destination path for an input path, behind the extension
/// check: only an input whose extension is exactly `srt` has a
/// destination, so none is ever created for any other input.
pub open spec fn spec_plan(path: Seq<u8>, explicit: Option<Seq<u8>>) -> Result<Seq<u8>, PathError> {
    match spec_parse_path(path) {
        Err(e) => Err(e),
        Ok((directory, stem, extension)) => {
            if extension != srt_ext() {
                Err(PathError::UnsupportedFormat)
            } else {
                Ok(spec_output_path(directory, stem, explicit))
            }
        },
    }
}

/// Checks the extension gate and computes the destination path,
/// matching `spec_plan`: `Ok` exactly when the path has a name and an
/// `srt` extension, and then the destination the run may create.
pub fn plan_conversion(path: &Vec<u8>, explicit: Option<&Vec<u8>>) -> (r: Result<Vec<u8>, PathError>)
    ensures
        match r {
            Ok(out) => spec_plan(
                path@,
                (match explicit {
                    Some(name) => Some(name@),
                    None => None,
                }),
            ) == Ok::<Seq<u8>, PathError>(out@),
            Err(e) => spec_plan(
                path@,
                (match explicit {
                    Some(name) => Some(name@),
                    None => None,
                }),
            ) == Err::<Seq<u8>, PathError>(e),
        },
{
    let parts = match parse_path(path) {
        Ok(parts) => parts,
        Err(e) => {
            return Err(e);
        },
    };
    if !is_srt_extension(&parts.extension) {
        return Err(PathError::UnsupportedFormat);
    }
    Ok(resolve_output_path(&parts, explicit))
}

} // verus!
