use vstd::prelude::*;

use crate::extract::PasswordAttempt;
use crate::passwords::Password;

verus! {

/// The exit code unrar reserves for a wrong password.
pub const RAR_BADPWD: i32 = 11;

/// Classifies one run of the unrar tool: success means the password fit; the
/// reserved exit code is a password problem, any other failure counts as a
/// broken archive.
pub fn parse_rar_status(success: bool, exit_code: Option<i32>) -> (r: PasswordAttempt)
    ensures
        r == if success {
            PasswordAttempt::Correct
        } else if exit_code == Some(RAR_BADPWD) {
            PasswordAttempt::Incorrect
        } else {
            PasswordAttempt::CorruptArchive
        },
{
    if success {
        return PasswordAttempt::Correct;
    }
    match exit_code {
        Some(code) => {
            if code == RAR_BADPWD {
                PasswordAttempt::Incorrect
            } else {
                PasswordAttempt::CorruptArchive
            }
        },
        None => PasswordAttempt::CorruptArchive,
    }
}

/// The password argument handed to unrar: `-p-` asks for no password,
/// `-p<secret>` passes the candidate.
pub fn encode_pwd(pwd: &Password) -> (r: String)
    ensures
        r@ == match pwd@ {
            None => "-p-"@,
            Some(s) => "-p"@ + s,
        },
{
    match pwd {
        Password::NoPassword => String::from_str("-p-"),
        Password::Password(s) => {
            let mut r = String::from_str("-p");
            r.append(s.as_str());
            r
        },
    }
}

} // verus!
