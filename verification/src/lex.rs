//! Lexical primitives: the byte classes of the grammar and the maximal-run
//! scanners over them, each an executable function that computes exactly its
//! specification-level counterpart.

use vstd::prelude::*;

verus! {

/// A byte of inter-token whitespace: space, tab, carriage return, newline.
pub open spec fn is_ws_byte(b: u8) -> bool {
    b == 32 || b == 9 || b == 13 || b == 10
}

/// A byte that may stand inside an identifier or attribute word:
/// ASCII alphanumeric, or one of `-`, `_`, `.`, `/`, `!`.
/// A word token is a maximal run of such bytes; `~`, `{`, `}`, `(`, `)`,
/// `,` and `:` always delimit.
pub open spec fn is_word_byte(b: u8) -> bool {
    (48 <= b && b <= 57)  // 0-9
    || (65 <= b && b <= 90)  // A-Z
    || (97 <= b && b <= 122)  // a-z
    || b == 45  // -
    || b == 95  // _
    || b == 46  // .
    || b == 47  // /
    || b == 33  // !
}

/// End of the whitespace run starting at `pos`: the first position at or
/// after `pos` holding a non-whitespace byte, or the end of input.
pub open spec fn spec_skip_ws(s: Seq<u8>, pos: int) -> int
    decreases s.len() - pos,
{
    if 0 <= pos < s.len() && is_ws_byte(s[pos]) {
        spec_skip_ws(s, pos + 1)
    } else {
        pos
    }
}

/// End of the maximal word-byte run starting at `pos`.
pub open spec fn spec_scan_word(s: Seq<u8>, pos: int) -> int
    decreases s.len() - pos,
{
    if 0 <= pos < s.len() && is_word_byte(s[pos]) {
        spec_scan_word(s, pos + 1)
    } else {
        pos
    }
}

/// End of the maximal text run starting at `pos`: text extends until the
/// element marker `~` or a block delimiter `}` (or the end of input).
pub open spec fn spec_scan_text(s: Seq<u8>, pos: int) -> int
    decreases s.len() - pos,
{
    if 0 <= pos < s.len() && s[pos] != 126 && s[pos] != 125 {
        spec_scan_text(s, pos + 1)
    } else {
        pos
    }
}

/// Start of the whitespace run ending at `end`: the least position whose
/// suffix up to `end` is all whitespace.
pub open spec fn spec_rskip_ws(s: Seq<u8>, end: int) -> int
    decreases end,
{
    if 0 < end <= s.len() && is_ws_byte(s[end - 1]) {
        spec_rskip_ws(s, end - 1)
    } else {
        end
    }
}

/// Whether a byte is inter-token whitespace.
pub fn is_ws(b: u8) -> (r: bool)
    ensures
        r == is_ws_byte(b),
{
    b == 32 || b == 9 || b == 13 || b == 10
}

/// Whether a byte may stand inside a word token.
pub fn is_word(b: u8) -> (r: bool)
    ensures
        r == is_word_byte(b),
{
    (48 <= b && b <= 57) || (65 <= b && b <= 90) || (97 <= b && b <= 122) || b == 45 || b == 95
        || b == 46 || b == 47 || b == 33
}

/// Skip the whitespace run starting at `pos`.
pub fn skip_ws(s: &[u8], pos: usize) -> (r: usize)
    requires
        pos <= s@.len(),
    ensures
        r == spec_skip_ws(s@, pos as int),
        pos <= r <= s@.len(),
{
    let mut cur = pos;
    while cur < s.len() && is_ws(s[cur])
        invariant
            pos <= cur <= s@.len(),
            spec_skip_ws(s@, pos as int) == spec_skip_ws(s@, cur as int),
        decreases s@.len() - cur,
    {
        cur = cur + 1;
    }
    cur
}

/// Scan the maximal word run starting at `pos`.
pub fn scan_word(s: &[u8], pos: usize) -> (r: usize)
    requires
        pos <= s@.len(),
    ensures
        r == spec_scan_word(s@, pos as int),
        pos <= r <= s@.len(),
{
    let mut cur = pos;
    while cur < s.len() && is_word(s[cur])
        invariant
            pos <= cur <= s@.len(),
            spec_scan_word(s@, pos as int) == spec_scan_word(s@, cur as int),
        decreases s@.len() - cur,
    {
        cur = cur + 1;
    }
    cur
}

/// Scan the maximal text run starting at `pos`.
pub fn scan_text(s: &[u8], pos: usize) -> (r: usize)
    requires
        pos <= s@.len(),
    ensures
        r == spec_scan_text(s@, pos as int),
        pos <= r <= s@.len(),
{
    let mut cur = pos;
    while cur < s.len() && s[cur] != 126 && s[cur] != 125
        invariant
            pos <= cur <= s@.len(),
            spec_scan_text(s@, pos as int) == spec_scan_text(s@, cur as int),
        decreases s@.len() - cur,
    {
        cur = cur + 1;
    }
    cur
}

/// Find the start of the whitespace run ending at `end`.
pub fn rskip_ws(s: &[u8], end: usize) -> (r: usize)
    requires
        end <= s@.len(),
    ensures
        r == spec_rskip_ws(s@, end as int),
        r <= end,
{
    let mut cur = end;
    while cur > 0 && is_ws(s[cur - 1])
        invariant
            cur <= end <= s@.len(),
            spec_rskip_ws(s@, end as int) == spec_rskip_ws(s@, cur as int),
        decreases cur,
    {
        cur = cur - 1;
    }
    cur
}

} // verus!
