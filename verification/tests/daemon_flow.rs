use rpm::daemon::{
    client, handle_change, handle_change_mp, handle_delete, handle_get, handle_init, handle_new,
    handle_validate, is_password_valid, FileWrite, Failure, Session,
};
use rpm::cli::{encode_request, Request};
use rpm::constants::{Event, Reason};

fn strings(v: &[&str]) -> Vec<String> {
    v.iter().map(|s| s.to_string()).collect()
}

fn hash_password(pass: &str) -> String {
    hash_written(&handle_init(pass, "").write).trim_end().to_string()
}

fn hash_written(w: &Option<FileWrite>) -> String {
    match w {
        Some(FileWrite::SetHash(h)) | Some(FileWrite::Reset(h)) => h.clone(),
        _ => panic!("expected a hash line"),
    }
}

fn record_written(w: &Option<FileWrite>) -> String {
    match w {
        Some(FileWrite::AppendRecord(t)) => t.clone(),
        _ => panic!("expected a record line"),
    }
}

#[test]
fn password_check_reasons() {
    assert_eq!(is_password_valid("pw", " \n"), Err(Reason::PasswordEmpty));
    let h = hash_password("pw");
    assert_eq!(is_password_valid("pw", &format!("{}\n", h)), Ok(()));
    assert_eq!(is_password_valid("other", &format!("{}\n", h)), Err(Reason::PasswordInvalid));
}

#[test]
fn init_then_validate() {
    let o = handle_init("master", "");
    assert_eq!(o.response, "Password set to given value");
    let h = hash_written(&o.write);
    assert_eq!(h, format!("{}\n", hash_password("master")));
    let again = handle_init("master", &h);
    assert_eq!(again.response, "Given password already matches current one, nothing changed");
    assert!(again.write.is_none());
    let other = handle_init("other", &h);
    assert_eq!(other.response, "Password already set, to change it, use change command");
    let mut s = Session::new();
    assert_eq!(handle_validate("master", &mut s, &h), "Successfully validated");
    assert!(s.validated);
    assert_eq!(s.valid_password, "master");
    assert_eq!(handle_validate("wrong", &mut s, &h), "Password is invalid");
    assert!(!s.validated);
    assert_eq!(s.valid_password, "");
}

#[test]
fn change_master_password() {
    let o = handle_change_mp("new", false);
    assert_eq!(o.response, "Not validated");
    assert!(o.write.is_none());
    let o = handle_change_mp("new", true);
    assert_eq!(o.response, "Password set to given value");
    assert_eq!(hash_written(&o.write), format!("{}\n", hash_password("new")));
}

#[test]
fn new_then_get_password_and_login() {
    let o = handle_new(true, &strings(&["mail", "me@x", "s3cret"]), "master", "").ok().unwrap();
    assert_eq!(o.response, "Record saved!");
    let storage = record_written(&o.write);
    assert!(storage.starts_with("mail ||| "));
    let mut args = strings(&["mail"]);
    assert_eq!(handle_get(true, &mut args, "master", &storage), Ok("s3cret".to_string()));
    let mut args = strings(&["mail", "-l"]);
    assert_eq!(handle_get(true, &mut args, "master", &storage), Ok("me@x".to_string()));
    assert_eq!(args, strings(&["mail"]));
}

#[test]
fn new_without_login() {
    let o = handle_new(true, &strings(&["bank", "1234"]), "master", "").ok().unwrap();
    let storage = record_written(&o.write);
    let mut args = strings(&["bank"]);
    assert_eq!(handle_get(true, &mut args, "master", &storage), Ok("1234".to_string()));
    let mut args = strings(&["-l", "bank"]);
    assert_eq!(
        handle_get(true, &mut args, "master", &storage),
        Ok("Exception: Record does not contain login data".to_string())
    );
}

#[test]
fn new_refusals() {
    assert_eq!(
        handle_new(false, &strings(&["k", "p"]), "master", "").ok().unwrap().response,
        "Exception: not validated"
    );
    assert_eq!(
        handle_new(true, &strings(&["k"]), "master", "").ok().unwrap().response,
        "Exception: Not enough arguments given"
    );
    let o = handle_new(true, &strings(&["k", "p"]), "master", "").ok().unwrap();
    let storage = record_written(&o.write);
    let again = handle_new(true, &strings(&["k", "q"]), "master", &storage).ok().unwrap();
    assert_eq!(again.response, "Exception: Key already used");
    assert!(again.write.is_none());
    assert_eq!(
        handle_new(true, &strings(&["k", "p"]), "master", "junk\n").err().unwrap(),
        Failure::MalformedStorage
    );
    assert_eq!(
        handle_new(true, &strings(&["k", "p"]), "", "").err().unwrap(),
        Failure::EncryptionFailed
    );
}

#[test]
fn get_refusals() {
    let mut args = strings(&["k"]);
    assert_eq!(handle_get(false, &mut args, "master", ""), Ok("Exception: not validated".to_string()));
    let mut args = strings(&["k"]);
    assert_eq!(handle_get(true, &mut args, "master", ""), Ok("Exception: Key does not exist".to_string()));
    let mut args = strings(&["-l"]);
    assert_eq!(handle_get(true, &mut args, "master", ""), Err(Failure::MissingKey));
    let mut args = strings(&["k"]);
    assert_eq!(handle_get(true, &mut args, "master", "x\n"), Err(Failure::MalformedStorage));
    let mut args = strings(&["k"]);
    assert_eq!(handle_get(true, &mut args, "master", "k ||| 1#@#2\n"), Err(Failure::Undecryptable));
}

fn request(event: Event, message: &str) -> Vec<u8> {
    encode_request(&Request { message: message.to_string(), event })
}

#[test]
fn client_session_flow() {
    let mut s = Session::new();
    let init = client(&mut s, &request(Event::Init, "master"), Some(""), Some("")).ok().unwrap();
    assert_eq!(init.response, "Password set to given value");
    assert_eq!(init.bytes[0], 0);
    let hash = hash_written(&init.write);

    let denied = client(&mut s, &request(Event::New, "k#@#p"), Some(&hash), Some("")).ok().unwrap();
    assert_eq!(denied.response, "Exception: not validated");

    let v = client(&mut s, &request(Event::Validate, "master"), Some(&hash), Some("")).ok().unwrap();
    assert!(v.newly_validated);
    assert_eq!(v.bytes[0], 1);
    assert_eq!(&v.bytes[1..], "Successfully validated".as_bytes());

    let n = client(&mut s, &request(Event::New, "k#@#me#@#pw"), Some(&hash), Some("")).ok().unwrap();
    assert_eq!(n.response, "Record saved!");
    assert!(!n.newly_validated);
    let storage = record_written(&n.write);

    let g = client(&mut s, &request(Event::Get, "k"), Some(&hash), Some(&storage)).ok().unwrap();
    assert_eq!(g.response, "pw");
    let g = client(&mut s, &request(Event::Get, "k#@#-l"), Some(&hash), Some(&storage)).ok().unwrap();
    assert_eq!(g.response, "me");

    let l = client(&mut s, &request(Event::List, ""), None, Some(&storage)).ok().unwrap();
    assert_eq!(l.response, "k");

    let c = client(&mut s, &request(Event::Change, "k#@#pw2"), None, Some(&storage)).ok().unwrap();
    assert_eq!(c.response, "Record changed!");
    let changed = storage_written(&c.write);
    let g = client(&mut s, &request(Event::Get, "k"), None, Some(&changed)).ok().unwrap();
    assert_eq!(g.response, "pw2");
    let d = client(&mut s, &request(Event::Delete, "k"), None, Some(&changed)).ok().unwrap();
    assert_eq!(d.response, "Record deleted!");
    assert_eq!(storage_written(&d.write), "");
    assert_eq!(
        client(&mut s, &request(Event::Delete, "k"), None, None).err().unwrap(),
        Failure::Unreadable
    );

    s.lock();
    assert!(!s.validated);
    let g = client(&mut s, &request(Event::Get, "k"), Some(&hash), Some(&storage)).ok().unwrap();
    assert_eq!(g.response, "Exception: not validated");
    assert_eq!(g.bytes[0], 0);
}

#[test]
fn client_failures() {
    let mut s = Session::new();
    assert_eq!(client(&mut s, &[], None, None).err().unwrap(), Failure::EmptyRequest);
    assert_eq!(client(&mut s, &[3, 0xff], None, None).err().unwrap(), Failure::InvalidUtf8);
    assert_eq!(
        client(&mut s, &request(Event::Validate, "pw"), None, None).err().unwrap(),
        Failure::Unreadable
    );
    assert_eq!(
        client(&mut s, &request(Event::List, ""), None, None).err().unwrap(),
        Failure::Unreadable
    );
    assert_eq!(
        client(&mut s, &request(Event::Delete, "k"), None, None).ok().unwrap().response,
        "Exception: not validated"
    );
    assert_eq!(
        client(&mut s, &request(Event::List, ""), None, Some("oops\n")).err().unwrap(),
        Failure::MalformedStorage
    );
}

#[test]
fn change_mp_replaces_password() {
    let init = handle_init("old", "");
    let file = hash_written(&init.write);
    assert_eq!(is_password_valid("old", &file), Ok(()));
    let change = handle_change_mp("new", true);
    assert!(matches!(change.write, Some(FileWrite::SetHash(_))));
    let file2 = hash_written(&change.write);
    assert_eq!(is_password_valid("new", &file2), Ok(()));
    assert_eq!(is_password_valid("old", &file2), Err(Reason::PasswordInvalid));
}

#[test]
fn init_empties_storage() {
    let o = handle_init("master", "   \n");
    assert!(matches!(o.write, Some(FileWrite::Reset(_))));
}

#[test]
fn secrets_with_hash_signs_come_back() {
    let o = handle_new(true, &strings(&["a#b", "l#o#g", "p#ss#"]), "master", "").ok().unwrap();
    let storage = record_written(&o.write);
    let mut args = strings(&["a#b"]);
    assert_eq!(handle_get(true, &mut args, "master", &storage), Ok("p#ss#".to_string()));
    let mut args = strings(&["a#b", "-l"]);
    assert_eq!(handle_get(true, &mut args, "master", &storage), Ok("l#o#g".to_string()));
}

fn storage_written(w: &Option<FileWrite>) -> String {
    match w {
        Some(FileWrite::SetStorage(t)) => t.clone(),
        _ => panic!("expected new storage"),
    }
}

#[test]
fn delete_and_change_records() {
    let a = handle_new(true, &strings(&["a", "pa"]), "master", "").ok().unwrap();
    let s1 = record_written(&a.write);
    let b = handle_new(true, &strings(&["b", "lb", "pb"]), "master", &s1).ok().unwrap();
    let s2 = format!("{}{}", s1, record_written(&b.write));

    assert_eq!(
        handle_delete(false, &strings(&["a"]), &s2).ok().unwrap().response,
        "Exception: not validated"
    );
    assert_eq!(
        handle_delete(true, &strings(&["zz"]), &s2).ok().unwrap().response,
        "Exception: Key does not exist"
    );
    let d = handle_delete(true, &strings(&["a"]), &s2).ok().unwrap();
    assert_eq!(d.response, "Record deleted!");
    let s3 = storage_written(&d.write);
    let mut args = strings(&["a"]);
    assert_eq!(handle_get(true, &mut args, "master", &s3), Ok("Exception: Key does not exist".to_string()));
    let mut args = strings(&["b"]);
    assert_eq!(handle_get(true, &mut args, "master", &s3), Ok("pb".to_string()));
    assert_eq!(handle_delete(true, &strings(&["a"]), "x\n").err().unwrap(), Failure::MalformedStorage);

    assert_eq!(
        handle_change(true, &strings(&["zz", "p"]), "master", &s2).ok().unwrap().response,
        "Exception: Key does not exist"
    );
    assert_eq!(
        handle_change(true, &strings(&["a"]), "master", &s2).ok().unwrap().response,
        "Exception: Not enough arguments given"
    );
    let c = handle_change(true, &strings(&["a", "newlogin", "newpw"]), "master", &s2).ok().unwrap();
    assert_eq!(c.response, "Record changed!");
    let s4 = storage_written(&c.write);
    let mut args = strings(&["a"]);
    assert_eq!(handle_get(true, &mut args, "master", &s4), Ok("newpw".to_string()));
    let mut args = strings(&["a", "-l"]);
    assert_eq!(handle_get(true, &mut args, "master", &s4), Ok("newlogin".to_string()));
    let mut args = strings(&["b", "-l"]);
    assert_eq!(handle_get(true, &mut args, "master", &s4), Ok("lb".to_string()));
    assert_eq!(
        handle_change(true, &strings(&["a", "p"]), "", &s2).err().unwrap(),
        Failure::EncryptionFailed
    );
}

#[test]
fn delete_and_change_keep_other_lines() {
    let storage = "a ||| x\r\nb ||| 1\nc ||| y\r";
    let d = handle_delete(true, &strings(&["b"]), storage).ok().unwrap();
    assert_eq!(d.response, "Record deleted!");
    assert_eq!(storage_written(&d.write), "a ||| x\r\nc ||| y\r");
    let d = handle_delete(true, &strings(&["c"]), storage).ok().unwrap();
    assert_eq!(storage_written(&d.write), "a ||| x\r\nb ||| 1\n");
    let c = handle_change(true, &strings(&["a", "pw"]), "master", storage).ok().unwrap();
    assert_eq!(c.response, "Record changed!");
    let changed = storage_written(&c.write);
    assert!(changed.ends_with("\nb ||| 1\nc ||| y\r"));
    assert!(changed.starts_with("a ||| "));
    let mut args = strings(&["a"]);
    assert_eq!(handle_get(true, &mut args, "master", &changed), Ok("pw".to_string()));
}

#[test]
fn new_after_unended_line_keeps_keys_distinct() {
    let storage = "a ||| 1";
    let o = handle_new(true, &strings(&["k", "pw"]), "master", storage).ok().unwrap();
    assert_eq!(o.response, "Record saved!");
    let line = match &o.write {
        Some(FileWrite::AppendRecord(t)) => t.clone(),
        _ => panic!("expected a record"),
    };
    let joined = format!("{}{}", storage, line);
    let recs = rpm::storage::parse_storage(&joined).unwrap();
    assert_eq!(recs.len(), 1);
    assert_eq!(recs[0].key, "a");
}
