use rpm::cli::{
    change, change_mp, concat_vec, confirm_change, delete, encode_request, first_zero, get, init, list, new,
    read_reply, run_app, validate, Outgoing, Request,
};
use rpm::constants::{Event, Reason};
use rpm::daemon::{frame_response, parse_request, Failure};

fn strings(v: &[&str]) -> Vec<String> {
    v.iter().map(|s| s.to_string()).collect()
}

#[test]
fn event_codes_are_one_to_eight() {
    let all = [
        Event::New,
        Event::Get,
        Event::Validate,
        Event::List,
        Event::ChangeMP,
        Event::Init,
        Event::Delete,
        Event::Change,
    ];
    for (i, e) in all.iter().enumerate() {
        assert_eq!(e.to_u8(), (i + 1) as u8);
        assert_eq!(Event::from(&e.to_u8()), *e);
    }
}

#[test]
fn unknown_event_byte_reads_as_validate() {
    assert_eq!(Event::from(&0u8), Event::Validate);
    assert_eq!(Event::from(&9u8), Event::Validate);
    assert_eq!(Event::from(&255u8), Event::Validate);
}

#[test]
fn reason_texts() {
    assert_eq!(Reason::PasswordEmpty.to_string(), "Password is empty");
    assert_eq!(Reason::PasswordInvalid.to_string(), "Password is invalid");
}

#[test]
fn concat_vec_joins_arguments_after_command() {
    assert_eq!(concat_vec(&strings(&["rpc", "new", "key", "login", "pw"])), "key#@#login#@#pw");
    assert_eq!(concat_vec(&strings(&["rpc", "get", "key"])), "key");
    assert_eq!(concat_vec(&strings(&["rpc", "list"])), "");
    assert_eq!(concat_vec(&strings(&["rpc"])), "");
}

#[test]
fn command_argument_counts() {
    assert_eq!(
        new(&strings(&["rpc", "new", "k"])).err().unwrap(),
        "Need at least 4 arguments !!! new, key, password (or new, key, login, password)"
    );
    let r = new(&strings(&["rpc", "new", "k", "p"])).ok().unwrap();
    assert_eq!(r.event, Event::New);
    assert_eq!(r.message, "k#@#p");
    assert_eq!(
        get(&strings(&["rpc", "get"])).err().unwrap(),
        "Need at least 3 arguments !!! get, key (returns password, login returned by -l flag)"
    );
    let r = get(&strings(&["rpc", "get", "k", "-l"])).ok().unwrap();
    assert_eq!(r.event, Event::Get);
    assert_eq!(r.message, "k#@#-l");
    assert_eq!(
        delete(&strings(&["rpc", "delete"])).err().unwrap(),
        "Need 2 arguments, delete and key of record which we try to delete"
    );
    assert_eq!(delete(&strings(&["rpc", "delete", "k"])).ok().unwrap().event, Event::Delete);
    assert_eq!(
        change(&strings(&["rpc", "change", "k"])).err().unwrap(),
        "Need at least 4 arguments !!! change, key, password (or new, key, login, password)"
    );
    assert_eq!(change(&strings(&["rpc", "change", "k", "p"])).ok().unwrap().message, "k#@#p");
}

#[test]
fn password_prompts() {
    match validate(&strings(&["rpc", "validate"])) {
        Outgoing::AskPassword { prompt, event } => {
            assert_eq!(prompt, "Type master password: ");
            assert_eq!(event, Event::Validate);
        }
        _ => panic!("expected a prompt"),
    }
    match validate(&strings(&["rpc", "validate", "secret"])) {
        Outgoing::Send(Request { message, event }) => {
            assert_eq!(message, "secret");
            assert_eq!(event, Event::Validate);
        }
        _ => panic!("expected a request"),
    }
    match init() {
        Outgoing::AskPassword { prompt, event } => {
            assert_eq!(prompt, "Type INITIAL master password (removes all records from storage): ");
            assert_eq!(event, Event::Init);
        }
        _ => panic!("expected a prompt"),
    }
    match change_mp() {
        Outgoing::ChangeMaster { old_prompt, new_prompt, again_prompt } => {
            assert_eq!(old_prompt, "Type old master password: ");
            assert_eq!(new_prompt, "Type NEW master password: ");
            assert_eq!(again_prompt, "Type NEW master password again: ");
        }
        _ => panic!("expected prompts"),
    }
    let l = list();
    assert_eq!(l.event, Event::List);
    assert_eq!(l.message, "");
}

#[test]
fn confirming_a_new_master_password() {
    let old = "old".to_string();
    assert_eq!(
        confirm_change(&old, &"a".to_string(), &"b".to_string()).err().unwrap(),
        "Passwords do not match"
    );
    let reqs = confirm_change(&old, &"new".to_string(), &"new".to_string()).ok().unwrap();
    assert_eq!(reqs.len(), 2);
    assert_eq!(reqs[0].event, Event::Validate);
    assert_eq!(reqs[0].message, "old");
    assert_eq!(reqs[1].event, Event::ChangeMP);
    assert_eq!(reqs[1].message, "new");
}

#[test]
fn run_app_dispatch() {
    assert_eq!(run_app(&strings(&["rpc"])).err().unwrap(), "No command specified...try --help");
    assert_eq!(run_app(&strings(&["rpc", "frobnicate"])).err().unwrap(), "Unknown command...try --help");
    assert!(matches!(run_app(&strings(&["rpc", "tui"])), Ok(Outgoing::Tui)));
    assert!(matches!(run_app(&strings(&["rpc", "--help"])), Ok(Outgoing::Help)));
    assert!(matches!(
        run_app(&strings(&["rpc", "init"])),
        Ok(Outgoing::AskPassword { event: Event::Init, .. })
    ));
    assert!(matches!(run_app(&strings(&["rpc", "changeMP"])), Ok(Outgoing::ChangeMaster { .. })));
    assert_eq!(
        run_app(&strings(&["rpc", "new", "k"])).err().unwrap(),
        "Need at least 4 arguments !!! new, key, password (or new, key, login, password)"
    );
    match run_app(&strings(&["rpc", "list"])) {
        Ok(Outgoing::Send(r)) => {
            assert_eq!(r.event, Event::List);
            assert_eq!(r.message, "");
        }
        _ => panic!("expected a list request"),
    }
    match run_app(&strings(&["rpc", "new", "mail", "me", "pw"])) {
        Ok(Outgoing::Send(r)) => {
            assert_eq!(r.event, Event::New);
            assert_eq!(r.message, "mail#@#me#@#pw");
        }
        _ => panic!("expected a new request"),
    }
    assert!(run_app(&strings(&["rpc", "get"])).is_err());
    assert!(matches!(
        run_app(&strings(&["rpc", "change", "k", "p"])),
        Ok(Outgoing::Send(Request { event: Event::Change, .. }))
    ));
}

#[test]
fn request_bytes_and_daemon_reading() {
    let req = Request { message: "k#@#pässword".to_string(), event: Event::New };
    let bytes = encode_request(&req);
    assert_eq!(bytes[0], 1);
    assert_eq!(&bytes[1..], "k#@#pässword".as_bytes());
    let (e, t) = parse_request(&bytes).ok().unwrap();
    assert_eq!(e, Event::New);
    assert_eq!(t, "k#@#pässword");
}

#[test]
fn daemon_request_errors() {
    assert_eq!(parse_request(&[]).err().unwrap(), Failure::EmptyRequest);
    assert_eq!(parse_request(&[2, 0xff, 0xfe]).err().unwrap(), Failure::InvalidUtf8);
    let (e, t) = parse_request(&[2, 0x67, 0x72, 0xc3, 0xbc, 0xc3, 0x9f]).ok().unwrap();
    assert_eq!(e, Event::Get);
    assert_eq!(t, "grüß");
    let (e, t) = parse_request(&[4]).ok().unwrap();
    assert_eq!(e, Event::List);
    assert_eq!(t, "");
}

#[test]
fn first_zero_skips_validation_byte() {
    let mut data = [0u8; 200];
    assert_eq!(first_zero(&data), 1);
    data[1] = b'a';
    data[2] = b'b';
    assert_eq!(first_zero(&data), 3);
    let full = [7u8; 200];
    assert_eq!(first_zero(&full), 200);
}

fn buffer(bytes: &[u8]) -> [u8; 200] {
    let mut data = [0u8; 200];
    data[..bytes.len()].copy_from_slice(bytes);
    data
}

#[test]
fn reply_round_trip() {
    let framed = frame_response(true, &"Record saved!".to_string());
    assert_eq!(framed[0], 1);
    let data = buffer(&framed);
    assert_eq!(read_reply(&data, Event::New), Some(Ok("Record saved!".to_string())));

    let framed = frame_response(false, &"Not validated".to_string());
    assert_eq!(framed[0], 0);
    let data = buffer(&framed);
    assert_eq!(
        read_reply(&data, Event::ChangeMP),
        Some(Err("Validation failed! use validate command".to_string()))
    );
    assert_eq!(read_reply(&data, Event::Init), Some(Ok("Not validated".to_string())));
}

#[test]
fn reply_that_is_not_utf8() {
    let data = buffer(&[1, 0xc3, 0x28]);
    assert_eq!(read_reply(&data, Event::Get), None);
}
