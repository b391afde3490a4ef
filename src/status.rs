//! Per-file status flags and their two-character "short format" code.

use vstd::prelude::*;

verus! {

/// Bit of `INDEX_NEW` in a backend status word.
pub const INDEX_NEW_BIT: u32 = 1;
/// Bit of `INDEX_MODIFIED`.
pub const INDEX_MODIFIED_BIT: u32 = 2;
/// Bit of `INDEX_DELETED`.
pub const INDEX_DELETED_BIT: u32 = 4;
/// Bit of `INDEX_RENAMED`.
pub const INDEX_RENAMED_BIT: u32 = 8;
/// Bit of `INDEX_TYPECHANGE`.
pub const INDEX_TYPECHANGE_BIT: u32 = 16;
/// Bit of `WT_NEW`.
pub const WT_NEW_BIT: u32 = 128;
/// Bit of `WT_MODIFIED`.
pub const WT_MODIFIED_BIT: u32 = 256;
/// Bit of `WT_DELETED`.
pub const WT_DELETED_BIT: u32 = 512;
/// Bit of `WT_TYPECHANGE`.
pub const WT_TYPECHANGE_BIT: u32 = 1024;
/// Bit of `WT_RENAMED`.
pub const WT_RENAMED_BIT: u32 = 2048;
/// Bit of `IGNORED`.
pub const IGNORED_BIT: u32 = 16384;
/// Bit of `CONFLICTED`.
pub const CONFLICTED_BIT: u32 = 32768;

/// The independent index-state and worktree-state flags of one file.
#[derive(Clone, Copy, Debug, PartialEq, Eq, Structural, Default)]
pub struct StatusFlags {
    pub index_new: bool,
    pub index_modified: bool,
    pub index_deleted: bool,
    pub index_renamed: bool,
    pub index_typechange: bool,
    pub wt_new: bool,
    pub wt_modified: bool,
    pub wt_deleted: bool,
    pub wt_renamed: bool,
    pub wt_typechange: bool,
    pub ignored: bool,
    pub conflicted: bool,
}

pub open spec fn has_bit(bits: u32, bit: u32) -> bool {
    bits & bit != 0
}

/// The flags that a backend status word carries.
pub open spec fn flags_of(bits: u32) -> StatusFlags {
    StatusFlags {
        index_new: has_bit(bits, INDEX_NEW_BIT),
        index_modified: has_bit(bits, INDEX_MODIFIED_BIT),
        index_deleted: has_bit(bits, INDEX_DELETED_BIT),
        index_renamed: has_bit(bits, INDEX_RENAMED_BIT),
        index_typechange: has_bit(bits, INDEX_TYPECHANGE_BIT),
        wt_new: has_bit(bits, WT_NEW_BIT),
        wt_modified: has_bit(bits, WT_MODIFIED_BIT),
        wt_deleted: has_bit(bits, WT_DELETED_BIT),
        wt_renamed: has_bit(bits, WT_RENAMED_BIT),
        wt_typechange: has_bit(bits, WT_TYPECHANGE_BIT),
        ignored: has_bit(bits, IGNORED_BIT),
        conflicted: has_bit(bits, CONFLICTED_BIT),
    }
}

/// The character that the index state maps to, before any override.
pub open spec fn index_state_char(f: StatusFlags) -> char {
    if f.index_new {
        'A'
    } else if f.index_modified {
        'M'
    } else if f.index_deleted {
        'D'
    } else if f.index_renamed {
        'R'
    } else if f.index_typechange {
        'T'
    } else {
        ' '
    }
}

/// The character that the worktree state maps to, before any override.
pub open spec fn wt_state_char(f: StatusFlags) -> char {
    if f.wt_new {
        '?'
    } else if f.wt_modified {
        'M'
    } else if f.wt_deleted {
        'D'
    } else if f.wt_renamed {
        'R'
    } else if f.wt_typechange {
        'T'
    } else {
        ' '
    }
}

/// First character of the short code.
pub open spec fn index_char(f: StatusFlags) -> char {
    if f.conflicted {
        'C'
    } else if f.ignored {
        '!'
    } else if f.wt_new && index_state_char(f) == ' ' {
        '?'
    } else {
        index_state_char(f)
    }
}

/// Second character of the short code.
pub open spec fn wt_char(f: StatusFlags) -> char {
    if f.conflicted {
        'C'
    } else if f.ignored {
        '!'
    } else {
        wt_state_char(f)
    }
}

/// The two-character short status code of a file.
pub open spec fn short_code(f: StatusFlags) -> Seq<char> {
    seq![index_char(f), wt_char(f)]
}

impl StatusFlags {
    /// Reads the flags out of a backend status word.
    pub fn from_bits(bits: u32) -> (r: StatusFlags)
        ensures
            r == flags_of(bits),
    {
        StatusFlags {
            index_new: bits & INDEX_NEW_BIT != 0,
            index_modified: bits & INDEX_MODIFIED_BIT != 0,
            index_deleted: bits & INDEX_DELETED_BIT != 0,
            index_renamed: bits & INDEX_RENAMED_BIT != 0,
            index_typechange: bits & INDEX_TYPECHANGE_BIT != 0,
            wt_new: bits & WT_NEW_BIT != 0,
            wt_modified: bits & WT_MODIFIED_BIT != 0,
            wt_deleted: bits & WT_DELETED_BIT != 0,
            wt_renamed: bits & WT_RENAMED_BIT != 0,
            wt_typechange: bits & WT_TYPECHANGE_BIT != 0,
            ignored: bits & IGNORED_BIT != 0,
            conflicted: bits & CONFLICTED_BIT != 0,
        }
    }
}

/// The one-character string holding `c`, for the characters a code uses.
fn code_char_str(c: char) -> (r: &'static str)
    requires
        c == 'A' || c == 'M' || c == 'D' || c == 'R' || c == 'T' || c == ' ' || c == '?'
            || c == '!' || c == 'C',
    ensures
        r@ == seq![c],
{
    proof {
        reveal_strlit("A");
        reveal_strlit("M");
        reveal_strlit("D");
        reveal_strlit("R");
        reveal_strlit("T");
        reveal_strlit(" ");
        reveal_strlit("?");
        reveal_strlit("!");
        reveal_strlit("C");
    }
    let r = if c == 'A' {
        "A"
    } else if c == 'M' {
        "M"
    } else if c == 'D' {
        "D"
    } else if c == 'R' {
        "R"
    } else if c == 'T' {
        "T"
    } else if c == '?' {
        "?"
    } else if c == '!' {
        "!"
    } else if c == 'C' {
        "C"
    } else {
        " "
    };
    assert(r@ =~= seq![c]);
    r
}

/// Translates a file's status flags to their two-character short code.
pub fn get_short_format_status(status: StatusFlags) -> (r: String)
    ensures
        r@ == short_code(status),
{
    let mut istatus: char = if status.index_new {
        'A'
    } else if status.index_modified {
        'M'
    } else if status.index_deleted {
        'D'
    } else if status.index_renamed {
        'R'
    } else if status.index_typechange {
        'T'
    } else {
        ' '
    };
    let mut wstatus: char = if status.wt_new {
        if istatus == ' ' {
            istatus = '?';
        }
        '?'
    } else if status.wt_modified {
        'M'
    } else if status.wt_deleted {
        'D'
    } else if status.wt_renamed {
        'R'
    } else if status.wt_typechange {
        'T'
    } else {
        ' '
    };
    if status.ignored {
        istatus = '!';
        wstatus = '!';
    }
    if status.conflicted {
        istatus = 'C';
        wstatus = 'C';
    }
    let mut r = String::from_str(code_char_str(istatus));
    r.append(code_char_str(wstatus));
    assert(r@ =~= short_code(status));
    r
}

/// A file flagged conflicted reads `CC`, whatever else is set.
pub proof fn lemma_conflicted_wins(f: StatusFlags)
    requires
        f.conflicted,
    ensures
        short_code(f) == seq!['C', 'C'],
{
}

/// A file flagged ignored and not conflicted reads `!!`, whatever else is set.
pub proof fn lemma_ignored_overrides(f: StatusFlags)
    requires
        f.ignored,
        !f.conflicted,
    ensures
        short_code(f) == seq!['!', '!'],
{
}

/// An untracked file with no index change reads `??`.
pub proof fn lemma_untracked_reads_twice(f: StatusFlags)
    requires
        f.wt_new,
        index_state_char(f) == ' ',
        !f.ignored,
        !f.conflicted,
    ensures
        short_code(f) == seq!['?', '?'],
{
}

} // verus!
