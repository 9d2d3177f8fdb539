//! ANSI terminal escape sequences used by the renderer and line colorizer.
//!
//! Each sequence is available twice: as a spec-level character sequence that
//! contracts speak about, and as an executable `&str` proved to match it.

use vstd::prelude::*;

verus! {

/// Control Sequence Introducer: the prefix of every escape sequence.
pub open spec fn csi_seq() -> Seq<char> {
    seq!['\x1b', '[']
}

/// Green foreground.
pub open spec fn green_seq() -> Seq<char> {
    seq!['\x1b', '[', '3', '2', 'm']
}

/// Purple foreground.
pub open spec fn purple_seq() -> Seq<char> {
    seq!['\x1b', '[', '3', '5', 'm']
}

/// Yellow foreground.
pub open spec fn yellow_seq() -> Seq<char> {
    seq!['\x1b', '[', '3', '3', 'm']
}

/// Red foreground.
pub open spec fn red_seq() -> Seq<char> {
    seq!['\x1b', '[', '3', '1', 'm']
}

/// Bright white foreground.
pub open spec fn white_seq() -> Seq<char> {
    seq!['\x1b', '[', '1', '\x1b', '[', '3', '7', 'm']
}

/// Bright yellow ("orange") foreground.
pub open spec fn orange_seq() -> Seq<char> {
    seq!['\x1b', '[', '9', '3', 'm']
}

/// Reset all attributes.
pub open spec fn reset_seq() -> Seq<char> {
    seq!['\x1b', '[', '0', 'm']
}

/// Control Sequence Introducer as text.
pub fn csi() -> (r: &'static str)
    ensures
        r@ == csi_seq(),
{
    let s = "\x1b[";
    proof {
        reveal_strlit("\x1b[");
        assert(s@ =~= csi_seq());
    }
    s
}

/// Green foreground as text.
pub fn green() -> (r: &'static str)
    ensures
        r@ == green_seq(),
{
    let s = "\x1b[32m";
    proof {
        reveal_strlit("\x1b[32m");
        assert(s@ =~= green_seq());
    }
    s
}

/// Purple foreground as text.
pub fn purple() -> (r: &'static str)
    ensures
        r@ == purple_seq(),
{
    let s = "\x1b[35m";
    proof {
        reveal_strlit("\x1b[35m");
        assert(s@ =~= purple_seq());
    }
    s
}

/// Yellow foreground as text.
pub fn yellow() -> (r: &'static str)
    ensures
        r@ == yellow_seq(),
{
    let s = "\x1b[33m";
    proof {
        reveal_strlit("\x1b[33m");
        assert(s@ =~= yellow_seq());
    }
    s
}

/// Red foreground as text.
pub fn red() -> (r: &'static str)
    ensures
        r@ == red_seq(),
{
    let s = "\x1b[31m";
    proof {
        reveal_strlit("\x1b[31m");
        assert(s@ =~= red_seq());
    }
    s
}

/// Bright white foreground as text.
pub fn white() -> (r: &'static str)
    ensures
        r@ == white_seq(),
{
    let s = "\x1b[1\x1b[37m";
    proof {
        reveal_strlit("\x1b[1\x1b[37m");
        assert(s@ =~= white_seq());
    }
    s
}

/// Bright yellow ("orange") foreground as text.
pub fn orange() -> (r: &'static str)
    ensures
        r@ == orange_seq(),
{
    let s = "\x1b[93m";
    proof {
        reveal_strlit("\x1b[93m");
        assert(s@ =~= orange_seq());
    }
    s
}

/// Reset all attributes, as text.
pub fn reset() -> (r: &'static str)
    ensures
        r@ == reset_seq(),
{
    let s = "\x1b[0m";
    proof {
        reveal_strlit("\x1b[0m");
        assert(s@ =~= reset_seq());
    }
    s
}

} // verus!
