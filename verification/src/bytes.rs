//! The bytes that the format is made of, and the rule by which stored text
//! ends with a line feed.

use std::borrow::Cow;
use vstd::prelude::*;

verus! {

/// `\n`, which ends a line.
pub const NEWLINE: u8 = 10;

/// `\r`, which may stand before the line feed of a delimiter line.
pub const CARRIAGE_RETURN: u8 = 13;

/// `-`, of which the two markers hold two each.
pub const DASH: u8 = 45;

/// The space between a marker's dashes and the name.
pub const SPACE: u8 = 32;

/// `-- `, which opens a delimiter line.
pub open spec fn marker() -> Seq<u8> {
    seq![DASH, DASH, SPACE]
}

/// ` --`, which closes a delimiter line.
pub open spec fn marker_end() -> Seq<u8> {
    seq![SPACE, DASH, DASH]
}

/// Whether a segment may be stored as it is: it is empty or ends with a line
/// feed.
pub open spec fn is_normalized(s: Seq<u8>) -> bool {
    s.len() == 0 || s.last() == NEWLINE
}

/// A segment as an archive stores it: an empty segment stays empty, one that
/// ends with a line feed is kept, and any other gets one line feed appended.
pub open spec fn normalized(s: Seq<u8>) -> Seq<u8> {
    if is_normalized(s) {
        s
    } else {
        s.push(NEWLINE)
    }
}

/// What `normalized` yields may be stored, and storing it again changes
/// nothing.
pub proof fn lemma_normalized_is_normalized(s: Seq<u8>)
    ensures
        is_normalized(normalized(s)),
        normalized(normalized(s)) == normalized(s),
{
}

/// Brings a segment into the form in which it is stored. Only a segment that
/// lacks its line feed is copied; any other is left as it is, borrowed or
/// owned.
pub fn fix_newline<'a>(s: &mut Cow<'a, [u8]>)
    ensures
        final(s)@ == normalized(old(s)@),
        is_normalized(old(s)@) ==> *final(s) == *old(s),
{
    let missing = match s {
        Cow::Borrowed(b) => b.len() > 0 && b[b.len() - 1] != NEWLINE,
        Cow::Owned(v) => v.len() > 0 && v[v.len() - 1] != NEWLINE,
    };
    if missing {
        let mut owned: Vec<u8> = match s {
            Cow::Borrowed(b) => vstd::slice::slice_to_vec(b),
            Cow::Owned(v) => vstd::slice::slice_to_vec(v.as_slice()),
        };
        owned.push(NEWLINE);
        *s = Cow::Owned(owned);
    }
}

} // verus!
