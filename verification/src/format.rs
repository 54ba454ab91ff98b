//! Classifying a path as a Text or CSV source from its file extension.

use vstd::prelude::*;
use vstd::string::StringSliceAdditionalSpecFns;
use crate::error::DffError;

verus! {

pub const DOT: u8 = 46;

pub const SLASH: u8 = 47;

pub const UPPER_A: u8 = 65;

pub const UPPER_Z: u8 = 90;

pub const LOWER_T: u8 = 116;

pub const LOWER_X: u8 = 120;

pub const LOWER_C: u8 = 99;

pub const LOWER_S: u8 = 115;

pub const LOWER_V: u8 = 118;

/// The two source formats the tool understands.
#[derive(Clone, Copy, Debug, PartialEq, Eq, Structural)]
pub enum FileType {
    Text,
    Csv,
}

/// Index of the last occurrence of `b` in `s`, or `-1` if `b` does not occur.
pub open spec fn last_index_of(s: Seq<u8>, b: u8) -> int
    decreases s.len(),
{
    if s.len() == 0 {
        -1
    } else if s.last() == b {
        s.len() - 1
    } else {
        last_index_of(s.drop_last(), b)
    }
}

/// ASCII lower-casing of one byte; other bytes are unchanged.
pub open spec fn lower_byte(b: u8) -> u8 {
    if UPPER_A <= b && b <= UPPER_Z {
        (b + 32) as u8
    } else {
        b
    }
}

/// ASCII lower-casing of a byte sequence.
pub open spec fn lower_bytes(s: Seq<u8>) -> Seq<u8> {
    s.map_values(|b: u8| lower_byte(b))
}

/// The extension of a path, read from its UTF-8 bytes: the bytes after the
/// last `.` of the final path component (everything after the last `/`).
/// A component whose only `.` is its first byte (a hidden file) has no
/// extension, and neither does a path without a `.` in its final component.
pub open spec fn ext_of(s: Seq<u8>) -> Option<Seq<u8>> {
    let d = last_index_of(s, DOT);
    let sl = last_index_of(s, SLASH);
    if d >= 0 && d > sl + 1 {
        Some(s.subrange(d + 1, s.len() as int))
    } else {
        None
    }
}

/// The format an (already lower-cased) extension maps to: `txt` is Text,
/// `csv` is Csv, anything else is unsupported.
pub open spec fn spec_from_str(s: Seq<u8>) -> Result<FileType, DffError> {
    if s == seq![LOWER_T, LOWER_X, LOWER_T] {
        Ok(FileType::Text)
    } else if s == seq![LOWER_C, LOWER_S, LOWER_V] {
        Ok(FileType::Csv)
    } else {
        Err(DffError::UnsupportedExtension)
    }
}

/// The format of a path: its extension, lower-cased, looked up in the
/// extension table; a missing extension is unsupported.
pub open spec fn spec_filetype(path: Seq<u8>) -> Result<FileType, DffError> {
    match ext_of(path) {
        Some(e) => spec_from_str(lower_bytes(e)),
        None => Err(DffError::UnsupportedExtension),
    }
}

impl FileType {
    /// Exact lookup of an extension string: `txt` is Text, `csv` is Csv.
    pub fn from_str(s: &str) -> (r: Result<FileType, DffError>)
        ensures
            r == spec_from_str(s.spec_bytes()),
    {
        let bs = s.as_bytes();
        if bs.len() == 3 {
            let b0 = bs[0];
            let b1 = bs[1];
            let b2 = bs[2];
            proof {
                assert(s.spec_bytes() =~= seq![b0, b1, b2]);
            }
            if b0 == LOWER_T && b1 == LOWER_X && b2 == LOWER_T {
                return Ok(FileType::Text);
            }
            if b0 == LOWER_C && b1 == LOWER_S && b2 == LOWER_V {
                return Ok(FileType::Csv);
            }
            proof {
                assert(s.spec_bytes() != seq![LOWER_T, LOWER_X, LOWER_T]);
                assert(s.spec_bytes() != seq![LOWER_C, LOWER_S, LOWER_V]);
            }
            Err(DffError::UnsupportedExtension)
        } else {
            proof {
                assert(s.spec_bytes() != seq![LOWER_T, LOWER_X, LOWER_T]);
                assert(s.spec_bytes() != seq![LOWER_C, LOWER_S, LOWER_V]);
            }
            Err(DffError::UnsupportedExtension)
        }
    }
}

/// Classify a path by its extension, case-insensitively: `.txt` (in any
/// letter case) is a Text source, `.csv` a CSV source; anything else —
/// another extension, no extension, or a hidden file — is unsupported.
pub fn get_filetype(path: &str) -> (r: Result<FileType, DffError>)
    ensures
        r == spec_filetype(path.spec_bytes()),
{
    let bs = path.as_bytes();
    let n = bs.len();
    let mut dot: Option<usize> = None;
    let mut slash: Option<usize> = None;
    let mut i: usize = 0;
    while i < n
        invariant
            n == bs.len(),
            bs@ == path.spec_bytes(),
            i <= n,
            match dot {
                Some(d) => d == last_index_of(bs@.subrange(0, i as int), DOT) && d < i,
                None => last_index_of(bs@.subrange(0, i as int), DOT) == -1,
            },
            match slash {
                Some(d) => d == last_index_of(bs@.subrange(0, i as int), SLASH) && d < i,
                None => last_index_of(bs@.subrange(0, i as int), SLASH) == -1,
            },
        decreases n - i,
    {
        let b = bs[i];
        proof {
            assert(bs@.subrange(0, i + 1).drop_last() =~= bs@.subrange(0, i as int));
            assert(bs@.subrange(0, i + 1).last() == b);
        }
        if b == DOT {
            dot = Some(i);
        }
        if b == SLASH {
            slash = Some(i);
        }
        i += 1;
    }
    proof {
        assert(bs@.subrange(0, n as int) =~= bs@);
    }
    let sl_plus_one: usize = match slash {
        Some(s) => s + 1,
        None => 0,
    };
    match dot {
        Some(d) => {
            if d > sl_plus_one {
                let ghost ext = bs@.subrange(d + 1, n as int);
                proof {
                    assert(ext_of(path.spec_bytes()) == Some(ext));
                }
                let ext_len = n - d - 1;
                if ext_len == 3 {
                    let b0 = lower_byte_exec(bs[d + 1]);
                    let b1 = lower_byte_exec(bs[d + 2]);
                    let b2 = lower_byte_exec(bs[d + 3]);
                    proof {
                        assert(lower_bytes(ext) =~= seq![b0, b1, b2]);
                    }
                    if b0 == LOWER_T && b1 == LOWER_X && b2 == LOWER_T {
                        return Ok(FileType::Text);
                    }
                    if b0 == LOWER_C && b1 == LOWER_S && b2 == LOWER_V {
                        return Ok(FileType::Csv);
                    }
                    proof {
                        assert(lower_bytes(ext) != seq![LOWER_T, LOWER_X, LOWER_T]);
                        assert(lower_bytes(ext) != seq![LOWER_C, LOWER_S, LOWER_V]);
                    }
                    Err(DffError::UnsupportedExtension)
                } else {
                    proof {
                        assert(lower_bytes(ext).len() == ext.len());
                        assert(lower_bytes(ext) != seq![LOWER_T, LOWER_X, LOWER_T]);
                        assert(lower_bytes(ext) != seq![LOWER_C, LOWER_S, LOWER_V]);
                    }
                    Err(DffError::UnsupportedExtension)
                }
            } else {
                Err(DffError::UnsupportedExtension)
            }
        },
        None => Err(DffError::UnsupportedExtension),
    }
}

/// ASCII lower-casing of one byte, as `lower_byte` states it.
fn lower_byte_exec(b: u8) -> (r: u8)
    ensures
        r == lower_byte(b),
{
    if UPPER_A <= b && b <= UPPER_Z {
        b + 32
    } else {
        b
    }
}

} // verus!
