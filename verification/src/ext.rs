use vstd::prelude::*;

verus! {

/// Relies on std's String::push: appends the given character to the end of
/// the string.
#[verifier::external_body]
pub(crate) fn push_char(s: &mut String, c: char)
    ensures
        final(s)@ == old(s)@.push(c),
{
    s.push(c);
}

/// Relies on std's char::from_u32: returns the character with the given code
/// point, or None exactly when the value is a surrogate or above the maximum
/// scalar value.
#[verifier::external_body]
pub(crate) fn char_from_u32(u: u32) -> (r: Option<char>)
    ensures
        (u < 0xD800 || (0xE000 <= u && u <= 0x10FFFF)) ==> r == Some(u as char),
        !(u < 0xD800 || (0xE000 <= u && u <= 0x10FFFF)) ==> r.is_none(),
{
    char::from_u32(u)
}

/// Relies on chrono's DateTime::from_timestamp and DateTime::to_rfc3339:
/// the current instant, rendered as an RFC 3339 timestamp string. A clock
/// reading before the Unix epoch or outside chrono's representable range
/// is clamped to the epoch, so the call always returns. Nothing is
/// promised of the clock's value; an RFC 3339 string is documented as one
/// non-empty line (digits and the separators `-`, `:`, `T`, `.`, `+`),
/// never holding a line break.
#[verifier::external_body]
pub(crate) fn now_rfc3339() -> (r: String)
    ensures
        r@.len() > 0,
        forall|k: int| 0 <= k < r@.len() ==> r@[k] != '\n',
{
    let dt = match std::time::SystemTime::now().duration_since(std::time::UNIX_EPOCH) {
        Ok(d) if d.as_secs() <= i64::MAX as u64 => {
            chrono::DateTime::<chrono::Utc>::from_timestamp(d.as_secs() as i64, d.subsec_nanos())
                .unwrap_or(chrono::DateTime::<chrono::Utc>::UNIX_EPOCH)
        },
        _ => chrono::DateTime::<chrono::Utc>::UNIX_EPOCH,
    };
    dt.to_rfc3339()
}

} // verus!
