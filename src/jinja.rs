//! Text helpers used when a trace is rendered.
use vstd::prelude::*;

verus! {

/// `s` cut to its first `start` and last `end` characters with `delimiter`
/// between them, or `s` itself when it has fewer than `start + end`.
pub open spec fn shortened(s: Seq<char>, start: int, end: int, delimiter: Seq<char>) -> Seq<char> {
    if s.len() < start + end {
        s
    } else {
        s.take(start) + delimiter + s.skip(s.len() - end)
    }
}

/// Shortens a long identifier to a head and a tail around a delimiter.
pub fn shorten_string(value: &str, start: usize, end: usize, delimiter: &str) -> (r: String)
    ensures
        r@ == shortened(value@, start as int, end as int, delimiter@),
{
    let n = value.unicode_len();
    if start > n || end > n - start {
        return String::from_str(value);
    }
    let mut r = String::from_str(value.substring_char(0, start));
    r.append(delimiter);
    r.append(value.substring_char(n - end, n));
    assert(value@.subrange(0, start as int) =~= value@.take(start as int));
    assert(value@.subrange(n - end, n as int) =~= value@.skip(n - end));
    r
}

} // verus!
