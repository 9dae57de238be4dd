//! Character-level helpers: single characters and right padding.

use vstd::prelude::*;
use vstd::string::*;

verus! {

/// `n` space characters.
pub open spec fn spaces(n: nat) -> Seq<char> {
    Seq::new(n, |i: int| ' ')
}

/// `s` extended with spaces to `width` characters; a longer `s` is kept whole.
pub open spec fn padded(s: Seq<char>, width: int) -> Seq<char> {
    if s.len() < width {
        s + spaces((width - s.len()) as nat)
    } else {
        s
    }
}

/// The character of `s` at position `pos`, as a string of its own.
pub fn char_at(s: &String, pos: usize) -> (r: String)
    requires
        pos < s@.len(),
    ensures
        r@ == seq![s@[pos as int]],
{
    // The character count is a `usize`, so `pos + 1` cannot overflow.
    let _count = s.as_str().unicode_len();
    let piece = s.as_str().substring_char(pos, pos + 1);
    assert(piece@ =~= seq![s@[pos as int]]);
    String::from_str(piece)
}

/// Right-pads `base` with spaces to `padded_length` characters. A name that
/// is already as long is returned unchanged rather than cut.
pub fn pad_right(base: String, padded_length: usize) -> (r: String)
    ensures
        r@ == padded(base@, padded_length as int),
{
    let ghost b = base@;
    let len = base.as_str().unicode_len();
    let mut out = base;
    if len < padded_length {
        let mut i: usize = len;
        while i < padded_length
            invariant
                len == b.len(),
                len <= i <= padded_length,
                out@ == b + spaces((i - len) as nat),
            decreases padded_length - i,
        {
            proof {
                reveal_strlit(" ");
            }
            out.append(" ");
            assert(spaces((i - len) as nat) + " "@ =~= spaces((i + 1 - len) as nat));
            assert(b + spaces((i - len) as nat) + " "@ =~= b + spaces((i + 1 - len) as nat));
            i = i + 1;
        }
    }
    out
}

} // verus!
