//! The rules of the account pages: which page a visitor gets, which names and
//! passwords registration accepts, and what login and registration answer.
use vstd::prelude::*;
use vstd::string::StrSliceExecFns;
use crate::responses::{resp_give_uuid, resp_log_reg_status, response_json};

verus! {

/// The characters a name or password may hold.
pub open spec fn legal_chars() -> Seq<char> {
    "qwertyuiopasdfghjklzxcvbnmQWERTYUIOPLKJHGFDSAZXCVBNM123456789"@
}

/// Every character of `s` is a legal one.
pub open spec fn all_legal(s: Seq<char>) -> bool {
    forall|i: int| 0 <= i < s.len() ==> legal_chars().contains(#[trigger] s[i])
}

/// Name and password are each 4 to 10 bytes long.
pub open spec fn lengths_ok(name: &str, password: &str) -> bool {
    4 <= name.len() <= 10 && 4 <= password.len() <= 10
}

/// Where registration stops before it looks the name up: too short or too long a name
/// or password (counted in bytes), then an illegal character in the name, then one in
/// the password.
pub open spec fn credentials_problem(name: &str, password: &str) -> Option<Seq<char>> {
    if !lengths_ok(name, password) {
        Some("username or password might be too short or too long"@)
    } else if !all_legal(name@) || !all_legal(password@) {
        Some("usage of special symbols is not allowed"@)
    } else {
        None
    }
}

/// The page a visitor gets: none when they bring no session cookie or no user has that
/// session, the game page when one does.
pub open spec fn landing(session_user_found: Option<bool>) -> Seq<char> {
    match session_user_found {
        Some(true) => "game.html"@,
        _ => "login.html"@,
    }
}

/// The update that logs a user in: the user with this name and password gets this
/// session id.
pub struct LoginUpdate {
    pub name: String,
    pub password: String,
    pub uuid: String,
}

/// The characters of a session id: lowercase hexadecimal digits.
pub open spec fn is_lower_hex(c: char) -> bool {
    ('0' <= c <= '9') || ('a' <= c <= 'f')
}

/// Calls `uuid::Uuid::new_v4` and writes the id with its `simple` formatter, whose
/// source writes 32 lowercase hexadecimal digits. Which id comes is up to chance.
#[verifier::external_body]
fn new_session_id() -> (r: String)
    ensures
        r@.len() == 32,
        forall|i: int| 0 <= i < r@.len() ==> is_lower_hex(#[trigger] r@[i]),
{
    uuid::Uuid::new_v4().simple().to_string()
}

/// Whether `c` is a legal character.
fn legal_char(c: char) -> (r: bool)
    ensures
        r == legal_chars().contains(c),
{
    let legal = "qwertyuiopasdfghjklzxcvbnmQWERTYUIOPLKJHGFDSAZXCVBNM123456789";
    let n = legal.unicode_len();
    let mut i: usize = 0;
    while i < n
        invariant
            n == legal@.len(),
            legal@ == legal_chars(),
            0 <= i <= n,
            forall|k: int| 0 <= k < i ==> legal@[k] != c,
        decreases n - i,
    {
        if legal.get_char(i) == c {
            proof {
                assert(legal@[i as int] == c);
            }
            return true;
        }
        i += 1;
    }
    false
}

/// Whether every character of `s` is legal.
fn all_legal_chars(s: &str) -> (r: bool)
    ensures
        r == all_legal(s@),
{
    let n = s.unicode_len();
    let mut i: usize = 0;
    while i < n
        invariant
            n == s@.len(),
            0 <= i <= n,
            forall|k: int| 0 <= k < i ==> legal_chars().contains(#[trigger] s@[k]),
        decreases n - i,
    {
        if !legal_char(s.get_char(i)) {
            return false;
        }
        i += 1;
    }
    true
}

/// Checks a name and password before registration: the message that refuses them, or
/// `None` where they may be registered.
pub fn check_credentials(name: &str, password: &str) -> (r: Option<&'static str>)
    ensures
        match r {
            Some(m) => credentials_problem(name, password) == Some(m@),
            None => credentials_problem(name, password) is None,
        },
{
    if 4 <= name.len() && 4 <= password.len() && name.len() <= 10 && password.len() <= 10 {
        if !all_legal_chars(name) {
            return Some("usage of special symbols is not allowed");
        }
        if !all_legal_chars(password) {
            return Some("usage of special symbols is not allowed");
        }
        None
    } else {
        Some("username or password might be too short or too long")
    }
}

/// What registration answers once the name has been looked up: `lookup` is whether a
/// user has the name, or an error of the lookup. The first part says whether the user
/// is to be added.
pub fn registration_outcome(lookup: Result<bool, ()>) -> (r: (bool, String))
    ensures
        r.0 == (lookup == Ok::<bool, ()>(false)),
        r.1@ == response_json("log_reg_status"@, match lookup {
            Ok(false) => "You're successfully created an account."@,
            Ok(true) => "Username is taken."@,
            Err(_) => "Internal register server error."@,
        }),
{
    match lookup {
        Ok(false) => (true, resp_log_reg_status("You're successfully created an account.")),
        Ok(true) => (false, resp_log_reg_status("Username is taken.")),
        Err(_) => (false, resp_log_reg_status("Internal register server error.")),
    }
}

/// Starts a login: a new random session id, to be given to the user with this name and
/// password.
pub fn begin_login(name: &str, password: &str) -> (r: LoginUpdate)
    ensures
        r.name@ == name@,
        r.password@ == password@,
        r.uuid@.len() == 32,
        forall|i: int| 0 <= i < r.uuid@.len() ==> is_lower_hex(#[trigger] r.uuid@[i]),
{
    LoginUpdate { name: name.to_owned(), password: password.to_owned(), uuid: new_session_id() }
}

/// What a login answers once the update has run: `modified` is how many users it
/// changed, or an error. None changed means a wrong name or password.
pub fn login_outcome(modified: Result<u64, ()>, uuid: String) -> (r: String)
    ensures
        r@ == match modified {
            Ok(0) => response_json("log_reg_status"@, "Login failed."@),
            Ok(_) => response_json("uuid"@, uuid@),
            Err(_) => response_json("log_reg_status"@, "Internal login server error."@),
        },
{
    match modified {
        Ok(count) => {
            if count == 0 {
                resp_log_reg_status("Login failed.")
            } else {
                resp_give_uuid(uuid)
            }
        },
        Err(_) => resp_log_reg_status("Internal login server error."),
    }
}

/// The page a visitor gets (see `landing`): `session_user_found` is `None` without a
/// session cookie, else whether a user has that session.
pub fn landing_page(session_user_found: Option<bool>) -> (r: &'static str)
    ensures
        r@ == landing(session_user_found),
{
    match session_user_found {
        Some(true) => "game.html",
        _ => "login.html",
    }
}

/// Whether a static file is served as a stylesheet: its name ends in `s`.
pub fn serves_as_css(file: &str) -> (r: bool)
    requires
        file@.len() > 0,
    ensures
        r == (file@.last() == 's'),
{
    let n = file.unicode_len();
    file.get_char(n - 1) == 's'
}

/// A letter of the English alphabet, small or capital, or a digit from 1 to 9.
pub open spec fn plain_char(c: char) -> bool {
    ('a' <= c <= 'z') || ('A' <= c <= 'Z') || ('1' <= c <= '9')
}

/// Every letter a-z and A-Z and every digit 1-9 is a legal character.
proof fn lemma_plain_is_legal(c: char)
    requires
        plain_char(c),
    ensures
        legal_chars().contains(c),
{
    reveal_strlit("qwertyuiopasdfghjklzxcvbnmQWERTYUIOPLKJHGFDSAZXCVBNM123456789");
    assert(legal_chars().len() == 61);
        if c == 'q' {
            assert(legal_chars()[0] == c);
        } else if c == 'w' {
            assert(legal_chars()[1] == c);
        } else if c == 'e' {
            assert(legal_chars()[2] == c);
        } else if c == 'r' {
            assert(legal_chars()[3] == c);
        } else if c == 't' {
            assert(legal_chars()[4] == c);
        } else if c == 'y' {
            assert(legal_chars()[5] == c);
        } else if c == 'u' {
            assert(legal_chars()[6] == c);
        } else if c == 'i' {
            assert(legal_chars()[7] == c);
        } else if c == 'o' {
            assert(legal_chars()[8] == c);
        } else if c == 'p' {
            assert(legal_chars()[9] == c);
        } else if c == 'a' {
            assert(legal_chars()[10] == c);
        } else if c == 's' {
            assert(legal_chars()[11] == c);
        } else if c == 'd' {
            assert(legal_chars()[12] == c);
        } else if c == 'f' {
            assert(legal_chars()[13] == c);
        } else if c == 'g' {
            assert(legal_chars()[14] == c);
        } else if c == 'h' {
            assert(legal_chars()[15] == c);
        } else if c == 'j' {
            assert(legal_chars()[16] == c);
        } else if c == 'k' {
            assert(legal_chars()[17] == c);
        } else if c == 'l' {
            assert(legal_chars()[18] == c);
        } else if c == 'z' {
            assert(legal_chars()[19] == c);
        } else if c == 'x' {
            assert(legal_chars()[20] == c);
        } else if c == 'c' {
            assert(legal_chars()[21] == c);
        } else if c == 'v' {
            assert(legal_chars()[22] == c);
        } else if c == 'b' {
            assert(legal_chars()[23] == c);
        } else if c == 'n' {
            assert(legal_chars()[24] == c);
        } else if c == 'm' {
            assert(legal_chars()[25] == c);
        } else if c == 'Q' {
            assert(legal_chars()[26] == c);
        } else if c == 'W' {
            assert(legal_chars()[27] == c);
        } else if c == 'E' {
            assert(legal_chars()[28] == c);
        } else if c == 'R' {
            assert(legal_chars()[29] == c);
        } else if c == 'T' {
            assert(legal_chars()[30] == c);
        } else if c == 'Y' {
            assert(legal_chars()[31] == c);
        } else if c == 'U' {
            assert(legal_chars()[32] == c);
        } else if c == 'I' {
            assert(legal_chars()[33] == c);
        } else if c == 'O' {
            assert(legal_chars()[34] == c);
        } else if c == 'P' {
            assert(legal_chars()[35] == c);
        } else if c == 'L' {
            assert(legal_chars()[36] == c);
        } else if c == 'K' {
            assert(legal_chars()[37] == c);
        } else if c == 'J' {
            assert(legal_chars()[38] == c);
        } else if c == 'H' {
            assert(legal_chars()[39] == c);
        } else if c == 'G' {
            assert(legal_chars()[40] == c);
        } else if c == 'F' {
            assert(legal_chars()[41] == c);
        } else if c == 'D' {
            assert(legal_chars()[42] == c);
        } else if c == 'S' {
            assert(legal_chars()[43] == c);
        } else if c == 'A' {
            assert(legal_chars()[44] == c);
        } else if c == 'Z' {
            assert(legal_chars()[45] == c);
        } else if c == 'X' {
            assert(legal_chars()[46] == c);
        } else if c == 'C' {
            assert(legal_chars()[47] == c);
        } else if c == 'V' {
            assert(legal_chars()[48] == c);
        } else if c == 'B' {
            assert(legal_chars()[49] == c);
        } else if c == 'N' {
            assert(legal_chars()[50] == c);
        } else if c == 'M' {
            assert(legal_chars()[51] == c);
        } else if c == '1' {
            assert(legal_chars()[52] == c);
        } else if c == '2' {
            assert(legal_chars()[53] == c);
        } else if c == '3' {
            assert(legal_chars()[54] == c);
        } else if c == '4' {
            assert(legal_chars()[55] == c);
        } else if c == '5' {
            assert(legal_chars()[56] == c);
        } else if c == '6' {
            assert(legal_chars()[57] == c);
        } else if c == '7' {
            assert(legal_chars()[58] == c);
        } else if c == '8' {
            assert(legal_chars()[59] == c);
        } else if c == '9' {
            assert(legal_chars()[60] == c);
        }
}

/// Registration accepts every name and password of 4 to 10 characters each of which is
/// a letter a-z or A-Z or a digit 1-9: no check refuses them.
pub proof fn law_plain_credentials_accepted(name: &str, password: &str)
    requires
        4 <= name@.len() <= 10,
        4 <= password@.len() <= 10,
        forall|i: int| 0 <= i < name@.len() ==> plain_char(#[trigger] name@[i]),
        forall|i: int| 0 <= i < password@.len() ==> plain_char(#[trigger] password@[i]),
    ensures
        credentials_problem(name, password) is None,
{
    assert forall|i: int| 0 <= i < name@.len() implies '\0' <= #[trigger] name@[i] <= '\u{7f}' by {}
    assert forall|i: int| 0 <= i < password@.len() implies '\0' <= #[trigger] password@[i] <= '\u{7f}' by {}
    assert forall|i: int| 0 <= i < name@.len() implies legal_chars().contains(#[trigger] name@[i]) by {
        lemma_plain_is_legal(name@[i]);
    }
    assert forall|i: int| 0 <= i < password@.len() implies legal_chars().contains(#[trigger] password@[i]) by {
        lemma_plain_is_legal(password@[i]);
    }
    assert(vstd::string::is_ascii(name));
    assert(vstd::string::is_ascii(password));
    vstd::string::is_ascii_spec_bytes(name);
    vstd::string::is_ascii_spec_bytes(password);
}

} // verus!
