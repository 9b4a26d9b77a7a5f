//! Derived scalar and boolean features of a single record.
use vstd::prelude::*;

verus! {

/// The remote ratio (a percentage) at which a position counts as fully remote.
pub const REMOTE_THRESHOLD: u32 = 100;

/// The ordinal score of a company-size code: `S` (small) 1, `M` (medium) 2,
/// `L` (large) 3, anything else 0.
pub open spec fn size_score_of(code: Seq<char>) -> u8 {
    if code.len() != 1 {
        0
    } else if code[0] == 'S' {
        1
    } else if code[0] == 'M' {
        2
    } else if code[0] == 'L' {
        3
    } else {
        0
    }
}

/// Maps a company-size code to its ordinal score; unknown codes score 0.
pub fn company_size_score(size: &str) -> (r: u8)
    ensures
        r == size_score_of(size@),
        r <= 3,
{
    if size.unicode_len() != 1 {
        return 0;
    }
    let c = size.get_char(0);
    if c == 'S' {
        1
    } else if c == 'M' {
        2
    } else if c == 'L' {
        3
    } else {
        0
    }
}

/// Whether a remote ratio marks a fully remote position.
pub fn remote_work_indicator(remote_ratio: u32) -> (r: bool)
    ensures
        r == (remote_ratio == REMOTE_THRESHOLD),
{
    remote_ratio == REMOTE_THRESHOLD
}

} // verus!
