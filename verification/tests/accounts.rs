use minesweeper_server::requests::RegisterForm;
use minesweeper_server::responses::{resp_give_uuid, resp_log_reg_status};
use minesweeper_server::service::{
    begin_login, check_credentials, landing_page, login_outcome, registration_outcome, serves_as_css,
};

const TOO_SHORT: &str = "username or password might be too short or too long";
const SPECIAL: &str = "usage of special symbols is not allowed";

#[test]
fn status_and_uuid_bodies() {
    assert_eq!(resp_log_reg_status("Login failed."), "{\"response_type\":\"log_reg_status\",\"message\":\"Login failed.\"}");
    assert_eq!(resp_log_reg_status("say \"hi\""), "{\"response_type\":\"log_reg_status\",\"message\":\"say \\\"hi\\\"\"}");
    assert_eq!(resp_give_uuid("abc".to_string()), "{\"response_type\":\"uuid\",\"message\":\"abc\"}");
}

#[test]
fn credentials_lengths_are_counted_in_bytes() {
    assert_eq!(check_credentials("anna", "pass"), None);
    assert_eq!(check_credentials("abcdefghij", "1234567891"), None);
    assert_eq!(check_credentials("ann", "password"), Some(TOO_SHORT));
    assert_eq!(check_credentials("anna", "pas"), Some(TOO_SHORT));
    assert_eq!(check_credentials("abcdefghijk", "password"), Some(TOO_SHORT));
    assert_eq!(check_credentials("anna", "passwordxyz"), Some(TOO_SHORT));
    assert_eq!(check_credentials("ääää", "password"), Some(SPECIAL));
    assert_eq!(check_credentials("äääää", "password"), Some(SPECIAL));
    assert_eq!(check_credentials("ääääää", "password"), Some(TOO_SHORT));
}

#[test]
fn credentials_refuse_symbols_and_zero() {
    assert_eq!(check_credentials("an_na", "password"), Some(SPECIAL));
    assert_eq!(check_credentials("anna", "pass word"), Some(SPECIAL));
    assert_eq!(check_credentials("anna0", "password"), Some(SPECIAL));
    assert_eq!(check_credentials("a", "p#"), Some(TOO_SHORT));
    assert_eq!(check_credentials("Anna9", "PassWord1"), None);
}

#[test]
fn registration_answers() {
    let (add, body) = registration_outcome(Ok(false));
    assert!(add);
    assert_eq!(body, resp_log_reg_status("You're successfully created an account."));
    let (add, body) = registration_outcome(Ok(true));
    assert!(!add);
    assert_eq!(body, "{\"response_type\":\"log_reg_status\",\"message\":\"Username is taken.\"}");
    let (add, body) = registration_outcome(Err(()));
    assert!(!add);
    assert_eq!(body, resp_log_reg_status("Internal register server error."));
}

#[test]
fn login_starts_with_a_fresh_session_id() {
    let a = begin_login("anna", "pass");
    let b = begin_login("anna", "pass");
    assert_eq!(a.name, "anna");
    assert_eq!(a.password, "pass");
    assert_eq!(a.uuid.len(), 32);
    assert!(a.uuid.chars().all(|c| c.is_ascii_digit() || ('a'..='f').contains(&c)));
    assert_ne!(a.uuid, b.uuid);
}

#[test]
fn login_answers() {
    assert_eq!(login_outcome(Ok(0), "x".to_string()), resp_log_reg_status("Login failed."));
    assert_eq!(login_outcome(Ok(1), "0123abcd".to_string()), "{\"response_type\":\"uuid\",\"message\":\"0123abcd\"}");
    assert_eq!(login_outcome(Ok(3), "u".to_string()), resp_give_uuid("u".to_string()));
    assert_eq!(login_outcome(Err(()), "x".to_string()), resp_log_reg_status("Internal login server error."));
}

#[test]
fn landing_pages() {
    assert_eq!(landing_page(None), "login.html");
    assert_eq!(landing_page(Some(false)), "login.html");
    assert_eq!(landing_page(Some(true)), "game.html");
}

#[test]
fn stylesheets_end_in_s() {
    assert!(serves_as_css("style.css"));
    assert!(serves_as_css("s"));
    assert!(serves_as_css("app.js"));
    assert!(!serves_as_css("logo.png"));
    assert!(!serves_as_css("index.html"));
}

#[test]
fn register_form_holds_name_and_password() {
    let f = RegisterForm { name: "anna".to_string(), password: "pass".to_string() };
    assert_eq!((f.name.as_str(), f.password.as_str()), ("anna", "pass"));
}
