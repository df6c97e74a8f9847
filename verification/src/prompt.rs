use crate::constants::{
    default_password, spec_default_password, PASSWORD_MODE_DEFAULT, PASSWORD_MODE_PROMPTED,
};
use crate::error::PackError;
use crate::text::{str_eq, str_trim, strip_line_ending, strip_line_ending_spec, trim};
use vstd::prelude::*;

verus! {

/// A line of input as a prompt keeps it: without its line terminators and
/// surrounding whitespace.
pub fn prompt_line(line: &str) -> (r: String)
    ensures
        r@ == trim(strip_line_ending_spec(line@)),
{
    let raw = strip_line_ending(line);
    String::from_str(str_trim(raw.as_str()))
}

/// A password as entered, refused when empty unless empty is allowed.
pub fn accept_password(password: String, allow_empty: bool) -> (r: Result<String, PackError>)
    ensures
        password@.len() == 0 && !allow_empty ==> r == Err::<String, PackError>(
            PackError::EmptyPassword,
        ),
        password@.len() > 0 || allow_empty ==> r == Ok::<String, PackError>(password),
{
    if password.unicode_len() == 0 && !allow_empty {
        return Err(PackError::EmptyPassword);
    }
    Ok(password)
}

/// The first step of choosing a password for a new archive.
pub enum PasswordPair {
    /// No password was entered: the built-in one, with its mode.
    Chosen(String, u8),
    /// A password was entered and must be repeated.
    NeedRepeat,
}

/// What choosing a password gives for a first entry and its repetition: no
/// entry selects the built-in password; otherwise the repetition must be
/// non-empty and equal.
pub open spec fn password_pair_outcome(first: Seq<char>, repeat: Seq<char>) -> Result<
    (Seq<char>, u8),
    PackError,
> {
    if first.len() == 0 {
        Ok((spec_default_password(), PASSWORD_MODE_DEFAULT))
    } else if repeat.len() == 0 {
        Err(PackError::EmptyPassword)
    } else if first != repeat {
        Err(PackError::PasswordMismatch)
    } else {
        Ok((first, PASSWORD_MODE_PROMPTED))
    }
}

/// Decides on the first (possibly empty) password entry.
pub fn prompt_password_pair(first: &str) -> (r: PasswordPair)
    ensures
        first@.len() == 0 ==> (r matches PasswordPair::Chosen(p, m) && p@
            == spec_default_password() && m == PASSWORD_MODE_DEFAULT),
        first@.len() > 0 ==> r is NeedRepeat,
{
    if first.unicode_len() == 0 {
        PasswordPair::Chosen(default_password(), PASSWORD_MODE_DEFAULT)
    } else {
        PasswordPair::NeedRepeat
    }
}

/// Checks the repetition of a non-empty password.
pub fn confirm_password_pair(first: String, repeat: &str) -> (r: Result<(String, u8), PackError>)
    requires
        first@.len() > 0,
    ensures
        r matches Ok((p, m)) ==> password_pair_outcome(first@, repeat@) == Ok::<
            (Seq<char>, u8),
            PackError,
        >((p@, m)),
        r matches Err(e) ==> password_pair_outcome(first@, repeat@) == Err::<
            (Seq<char>, u8),
            PackError,
        >(e),
{
    if repeat.unicode_len() == 0 {
        return Err(PackError::EmptyPassword);
    }
    if !str_eq(first.as_str(), repeat) {
        return Err(PackError::PasswordMismatch);
    }
    Ok((first, PASSWORD_MODE_PROMPTED))
}


/// Choosing a password is decided by the two entries alone: an empty first
/// entry selects the built-in password (whatever the repetition); otherwise
/// an empty repetition is refused, and a non-empty one is accepted exactly
/// when it is the first entry character for character, giving that entry
/// with the prompted mode; any two different entries are a mismatch.
pub proof fn confirmation_requires_equal_entries(first: Seq<char>, repeat: Seq<char>)
    ensures
        first.len() == 0 ==> password_pair_outcome(first, repeat) == Ok::<(Seq<char>, u8), PackError>(
            (spec_default_password(), PASSWORD_MODE_DEFAULT),
        ),
        first.len() > 0 && repeat.len() == 0 ==> password_pair_outcome(first, repeat) == Err::<
            (Seq<char>, u8),
            PackError,
        >(PackError::EmptyPassword),
        first.len() > 0 && repeat.len() > 0 ==> (password_pair_outcome(first, repeat) is Ok
            <==> first =~= repeat),
        first.len() > 0 && repeat.len() > 0 && first != repeat ==> password_pair_outcome(
            first,
            repeat,
        ) == Err::<(Seq<char>, u8), PackError>(PackError::PasswordMismatch),
        first.len() > 0 && first == repeat ==> password_pair_outcome(first, repeat) == Ok::<
            (Seq<char>, u8),
            PackError,
        >((first, PASSWORD_MODE_PROMPTED)),
{
}

} // verus!
