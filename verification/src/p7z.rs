use vstd::prelude::*;

use crate::extract::PasswordAttempt;
use crate::passwords::Password;
use crate::text::has_substring;

verus! {

/// Classifies one run of the 7z tool: success means the password fit; a
/// failure whose diagnostics mention a wrong password is a password problem,
/// any other failure counts as a broken archive.
pub fn parse_7z_output(success: bool, stderr: &String) -> (r: PasswordAttempt)
    ensures
        r == if success {
            PasswordAttempt::Correct
        } else if has_substring(stderr@, "Wrong password?"@) {
            PasswordAttempt::Incorrect
        } else {
            PasswordAttempt::CorruptArchive
        },
{
    if success {
        return PasswordAttempt::Correct;
    }
    let mark = String::from_str("Wrong password?");
    if crate::text::contains_substring(stderr, &mark) {
        PasswordAttempt::Incorrect
    } else {
        PasswordAttempt::CorruptArchive
    }
}

/// The password argument handed to 7z: a bare `-p` tries the empty password,
/// `-p<secret>` passes the candidate.
pub fn encode_pwd(pwd: &Password) -> (r: String)
    ensures
        r@ == match pwd@ {
            None => "-p"@,
            Some(s) => "-p"@ + s,
        },
{
    match pwd {
        Password::NoPassword => String::from_str("-p"),
        Password::Password(s) => {
            let mut r = String::from_str("-p");
            r.append(s.as_str());
            r
        },
    }
}

} // verus!
