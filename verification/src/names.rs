//! Display-name sanitation: trim surrounding whitespace, cap the display
//! width, and fall back to a default placeholder rather than ever storing an
//! empty name.

use vstd::prelude::*;
use vstd::utf8::{encode_utf8, is_ascii_chars, is_ascii_chars_encode_utf8};
use unicode_truncate::UnicodeTruncateStr;
use crate::constants::{NAME_MAX_BYTES, NAME_WIDTH};
use crate::player::name_ok;

verus! {

/// What `str::trim` keeps of a string: the characters between the leading
/// and the trailing Unicode whitespace.
pub uninterp spec fn trimmed_of(s: Seq<char>) -> Seq<char>;

/// What `unicode_truncate` keeps of a string: the longest prefix whose
/// display width is at most the given width.
pub uninterp spec fn width_prefix(s: Seq<char>, max_width: nat) -> Seq<char>;

/// Relies on str::trim: it returns a substring of its input — the input
/// without leading and trailing Unicode whitespace — and depends on the
/// characters alone.
#[verifier::external_body]
fn trim_whitespace(s: &str) -> (r: &str)
    ensures
        r@ == trimmed_of(s@),
        r@.len() <= s@.len(),
{
    s.trim()
}

/// Relies on UnicodeTruncateStr::unicode_truncate: it returns a prefix of
/// its input — the longest one whose display width fits — and depends on the
/// characters and the width alone.
#[verifier::external_body]
fn truncate_display_width(s: &str, max_width: usize) -> (r: String)
    ensures
        r@ == width_prefix(s@, max_width as nat),
        r@.len() <= s@.len(),
        r@ == s@.take(r@.len() as int),
{
    s.unicode_truncate(max_width).0.to_owned()
}

/// The placeholder stored when sanitation leaves nothing displayable.
pub open spec fn default_name() -> Seq<char> {
    "Mr Whitespace"@
}

/// The placeholder as a value.
pub fn default_player_name() -> (r: String)
    ensures
        r@ == default_name(),
        r@.len() > 0,
        name_ok(r@),
{
    let r = "Mr Whitespace".to_owned();
    proof {
        reveal_strlit("Mr Whitespace");
        assert(is_ascii_chars(default_name()));
        is_ascii_chars_encode_utf8(default_name());
    }
    r
}

/// The sanitized form of a requested display name: trimmed, capped to the
/// display width, and replaced by the placeholder when nothing displayable
/// (or nothing that fits the byte cap) remains.
pub open spec fn spec_sanitize(s: Seq<char>) -> Seq<char> {
    let t = trimmed_of(s);
    if t.len() == 0 {
        default_name()
    } else {
        let u = width_prefix(t, NAME_WIDTH as nat);
        if u.len() == 0 || encode_utf8(u).len() > NAME_MAX_BYTES {
            default_name()
        } else {
            u
        }
    }
}

/// Sanitizes a requested display name. The result is never empty and always
/// fits the byte cap, so it can be stored and put on the wire.
pub fn sanitize_name(s: &str) -> (r: String)
    ensures
        r@ == spec_sanitize(s@),
        r@.len() > 0,
        name_ok(r@),
{
    let t = trim_whitespace(s);
    if t.is_empty() {
        default_player_name()
    } else {
        let u = truncate_display_width(t, NAME_WIDTH);
        if u.as_str().is_empty() {
            default_player_name()
        } else if u.as_str().as_bytes().len() > NAME_MAX_BYTES {
            default_player_name()
        } else {
            u
        }
    }
}

} // verus!
