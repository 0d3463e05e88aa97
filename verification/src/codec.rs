//! Text handling: decoding the legacy codepage of the database, and the
//! copyright-marker scan that suppresses unrelated area text.

use encoding::all::GBK;
use encoding::{DecoderTrap, Encoding};
use vstd::prelude::*;
use vstd::string::StrSliceExecFns;

verus! {

/// The text that a byte string of the database codepage decodes to.  The
/// decoding is a function of the bytes alone; it is left unspecified here and
/// supplied by the codepage decoder.
pub uninterp spec fn gbk_of(s: Seq<u8>) -> Seq<char>;

/// Whether a byte string is a valid byte sequence of the database codepage.
/// Validity is a function of the bytes alone; it is left unspecified here and
/// supplied by the codepage decoder.
pub uninterp spec fn gbk_ok(s: Seq<u8>) -> bool;

/// Relies on `encoding::types::Encoding::decode` with `DecoderTrap::Strict`
/// on the `GBK` codec: the result is a function of the input bytes alone,
/// success comes exactly on valid byte sequences, and an invalid sequence is
/// reported as an error rather than replaced.
#[verifier::external_body]
pub(crate) fn gbk_decode(b: &Vec<u8>) -> (r: Option<String>)
    ensures
        r is Some <==> gbk_ok(b@),
        r is Some ==> r->0@ == gbk_of(b@),
{
    match GBK.decode(b, DecoderTrap::Strict) {
        Ok(s) => Some(s),
        Err(_) => None,
    }
}

/// The copyright marker whose presence in a decoded area text voids it:
/// the text `CZ88.NET`.
pub open spec fn marker_text() -> Seq<char> {
    seq!['C', 'Z', '8', '8', '.', 'N', 'E', 'T']
}

/// The marker occurs at position `i` of the text `s`.
pub open spec fn marker_at(s: Seq<char>, i: int) -> bool {
    &&& 0 <= i
    &&& i + 8 <= s.len()
    &&& s.subrange(i, i + 8) =~= marker_text()
}

/// The marker occurs somewhere in the text `s`.
pub open spec fn has_marker(s: Seq<char>) -> bool {
    exists|i: int| marker_at(s, i)
}

/// Area text equal to the marker itself is among the suppressed values:
/// the marker occurs (at position 0) in its own text.
pub proof fn lemma_marker_collapses()
    ensures
        has_marker(marker_text()),
{
    assert(marker_at(marker_text(), 0)) by {
        assert(marker_text().subrange(0, 8) =~= marker_text());
    };
}

/// Compare the 8 characters at `i` against the marker.
fn marker_match(v: &str, i: usize) -> (r: bool)
    requires
        i + 8 <= v@.len(),
        v@.len() <= usize::MAX,
    ensures
        r == marker_at(v@, i as int),
{
    let r = v.get_char(i) == 'C' && v.get_char(i + 1) == 'Z' && v.get_char(i + 2) == '8'
        && v.get_char(i + 3) == '8' && v.get_char(i + 4) == '.' && v.get_char(i + 5) == 'N'
        && v.get_char(i + 6) == 'E' && v.get_char(i + 7) == 'T';
    proof {
        if r {
            assert(v@.subrange(i as int, i + 8) =~= marker_text());
        } else {
            assert(!(v@.subrange(i as int, i + 8) =~= marker_text())) by {
                if v@.subrange(i as int, i + 8) =~= marker_text() {
                    assert(forall|k: int|
                        0 <= k < 8 ==> v@.subrange(i as int, i + 8)[k] == marker_text()[k]);
                    assert(v@[i as int] == 'C');
                    assert(v@[i + 1] == 'Z');
                    assert(v@[i + 2] == '8');
                    assert(v@[i + 3] == '8');
                    assert(v@[i + 4] == '.');
                    assert(v@[i + 5] == 'N');
                    assert(v@[i + 6] == 'E');
                    assert(v@[i + 7] == 'T');
                }
            };
        }
    }
    r
}

/// Scan a decoded text for the copyright marker.
pub fn contains_marker(v: &str) -> (r: bool)
    ensures
        r == has_marker(v@),
{
    let n = v.unicode_len();
    if n < 8 {
        proof {
            assert(forall|i: int| !marker_at(v@, i));
        }
        return false;
    }
    let last = n - 8;
    let mut i: usize = 0;
    while i <= last
        invariant
            n == v@.len(),
            last == n - 8,
            n >= 8,
            i <= last + 1,
            forall|j: int| 0 <= j < i ==> !marker_at(v@, j),
        decreases last - i + 1,
    {
        if marker_match(v, i) {
            return true;
        }
        i = i + 1;
    }
    proof {
        assert(forall|j: int| marker_at(v@, j) ==> 0 <= j <= last);
    }
    false
}

} // verus!
