use vstd::prelude::*;
use vstd::utf8::{decode_utf8, encode_utf8, valid_utf8};
use crate::cipher::{lemma_join_push, lemma_piece_sep_hash, piece_sep, text_from_utf8};
use crate::constants::{event_code, Event};
use crate::daemon::{frame_spec, request_spec, Failure};
use crate::text::{chars_of, join, lemma_split_join, split, string_of, string_views};

verus! {

/// A request for the daemon: its kind and its text.
pub struct Request {
    pub message: String,
    pub event: Event,
}

/// What the client does for a command.
pub enum Outgoing {
    /// Send the request.
    Send(Request),
    /// Ask for a password with the prompt, then send it as a request of the
    /// given kind.
    AskPassword { prompt: String, event: Event },
    /// Ask for the old master password and then the new one twice, and
    /// change it where the two agree (see `confirm_change`).
    ChangeMaster { old_prompt: String, new_prompt: String, again_prompt: String },
    /// Start the terminal interface.
    Tui,
    /// Print the usage text.
    Help,
}

/// The text of a request made from command-line arguments: those after the
/// command, joined by "#@#".
pub open spec fn concat_args(args: Seq<Seq<char>>) -> Seq<char> {
    if args.len() <= 2 {
        seq![]
    } else {
        join(args.subrange(2, args.len() as int), piece_sep())
    }
}

/// The arguments after the command, joined by "#@#".
pub fn concat_vec(args: &Vec<String>) -> (r: String)
    ensures
        r@ == concat_args(string_views(args@)),
{
    let ghost av = string_views(args@);
    let mut out: Vec<char> = Vec::new();
    let mut i: usize = 2;
    if args.len() <= 2 {
        return String::new();
    }
    while i < args.len()
        invariant
            2 <= i <= args.len(),
            av == string_views(args@),
            out@ == join(av.subrange(2, i as int), piece_sep()),
        decreases args.len() - i,
    {
        let ghost before = av.subrange(2, i as int);
        let a = chars_of(args[i].as_str());
        assert(av[i as int] == a@);
        assert(av.subrange(2, i + 1) =~= before.push(a@));
        if i > 2 {
            out.push('#');
            out.push('@');
            out.push('#');
        }
        let ghost mid = out@;
        let mut j: usize = 0;
        while j < a.len()
            invariant
                j <= a.len(),
                out@ == mid + a@.subrange(0, j as int),
            decreases a.len() - j,
        {
            out.push(a[j]);
            j = j + 1;
            assert(out@ =~= mid + a@.subrange(0, j as int));
        }
        assert(a@.subrange(0, j as int) =~= a@);
        proof {
            if i > 2 {
                lemma_join_push(before, a@, piece_sep());
                assert(out@ =~= join(before, piece_sep()) + piece_sep() + a@);
            } else {
                assert(before.push(a@) =~= seq![a@]);
                assert(out@ =~= a@);
            }
        }
        i = i + 1;
    }
    string_of(&out)
}

/// The request for a new record: needs a key and a password (and may have a
/// login before the password).
pub fn new(args: &Vec<String>) -> (r: Result<Request, String>)
    ensures
        args.len() < 4 ==> (r matches Err(e) && e@
            == "Need at least 4 arguments !!! new, key, password (or new, key, login, password)"@),
        args.len() >= 4 ==> (r matches Ok(q) && q.event == Event::New && q.message@ == concat_args(
            string_views(args@),
        )),
{
    if args.len() < 4 {
        return Err(
            String::from_str(
                "Need at least 4 arguments !!! new, key, password (or new, key, login, password)",
            ),
        );
    }
    Ok(Request { message: concat_vec(args), event: Event::New })
}

/// The request for a record's password (or login with "-l").
pub fn get(args: &Vec<String>) -> (r: Result<Request, String>)
    ensures
        args.len() < 3 ==> (r matches Err(e) && e@
            == "Need at least 3 arguments !!! get, key (returns password, login returned by -l flag)"@),
        args.len() >= 3 ==> (r matches Ok(q) && q.event == Event::Get && q.message@ == concat_args(
            string_views(args@),
        )),
{
    if args.len() < 3 {
        return Err(
            String::from_str(
                "Need at least 3 arguments !!! get, key (returns password, login returned by -l flag)",
            ),
        );
    }
    Ok(Request { message: concat_vec(args), event: Event::Get })
}

/// The request to delete a record.
pub fn delete(args: &Vec<String>) -> (r: Result<Request, String>)
    ensures
        args.len() < 3 ==> (r matches Err(e) && e@
            == "Need 2 arguments, delete and key of record which we try to delete"@),
        args.len() >= 3 ==> (r matches Ok(q) && q.event == Event::Delete && q.message@
            == concat_args(string_views(args@))),
{
    if args.len() < 3 {
        return Err(
            String::from_str("Need 2 arguments, delete and key of record which we try to delete"),
        );
    }
    Ok(Request { message: concat_vec(args), event: Event::Delete })
}

/// The request to change a record.
pub fn change(args: &Vec<String>) -> (r: Result<Request, String>)
    ensures
        args.len() < 4 ==> (r matches Err(e) && e@
            == "Need at least 4 arguments !!! change, key, password (or new, key, login, password)"@),
        args.len() >= 4 ==> (r matches Ok(q) && q.event == Event::Change && q.message@
            == concat_args(string_views(args@))),
{
    if args.len() < 4 {
        return Err(
            String::from_str(
                "Need at least 4 arguments !!! change, key, password (or new, key, login, password)",
            ),
        );
    }
    Ok(Request { message: concat_vec(args), event: Event::Change })
}

/// The request to validate: the password given after the command, or one
/// to ask for.
pub fn validate(args: &Vec<String>) -> (r: Outgoing)
    ensures
        args.len() < 3 ==> (r matches Outgoing::AskPassword { prompt, event } && prompt@
            == "Type master password: "@ && event == Event::Validate),
        args.len() >= 3 ==> (r matches Outgoing::Send(q) && q.event == Event::Validate
            && q.message@ == args@[2]@),
{
    if args.len() < 3 {
        Outgoing::AskPassword {
            prompt: String::from_str("Type master password: "),
            event: Event::Validate,
        }
    } else {
        Outgoing::Send(Request { message: args[2].clone(), event: Event::Validate })
    }
}

/// The request to set the first master password, which is asked for.
pub fn init() -> (r: Outgoing)
    ensures
        r matches Outgoing::AskPassword { prompt, event } && prompt@
            == "Type INITIAL master password (removes all records from storage): "@ && event
            == Event::Init,
{
    Outgoing::AskPassword {
        prompt: String::from_str(
            "Type INITIAL master password (removes all records from storage): ",
        ),
        event: Event::Init,
    }
}

/// The prompts for changing the master password: the old one, then the new
/// one twice.
pub fn change_mp() -> (r: Outgoing)
    ensures
        r matches Outgoing::ChangeMaster { old_prompt, new_prompt, again_prompt } && old_prompt@
            == "Type old master password: "@ && new_prompt@ == "Type NEW master password: "@
            && again_prompt@ == "Type NEW master password again: "@,
{
    Outgoing::ChangeMaster {
        old_prompt: String::from_str("Type old master password: "),
        new_prompt: String::from_str("Type NEW master password: "),
        again_prompt: String::from_str("Type NEW master password again: "),
    }
}

/// The requests that change the master password from the three passwords
/// typed: where the new one was typed the same twice, validate with the
/// old one and then send the new one; otherwise an error and nothing sent.
pub fn confirm_change(old: &String, new: &String, again: &String) -> (r: Result<
    Vec<Request>,
    String,
>)
    ensures
        new@ != again@ ==> (r matches Err(e) && e@ == "Passwords do not match"@),
        new@ == again@ ==> (r matches Ok(v) && v.len() == 2 && v[0].event == Event::Validate
            && v[0].message@ == old@ && v[1].event == Event::ChangeMP && v[1].message@ == new@),
{
    let a = chars_of(new.as_str());
    let b = chars_of(again.as_str());
    if !crate::text::same_chars(&a, &b) {
        return Err(String::from_str("Passwords do not match"));
    }
    let mut v: Vec<Request> = Vec::new();
    v.push(Request { message: old.clone(), event: Event::Validate });
    v.push(Request { message: new.clone(), event: Event::ChangeMP });
    Ok(v)
}

/// The request for the list of keys.
pub fn list() -> (r: Request)
    ensures
        r.event == Event::List,
        r.message@ == Seq::<char>::empty(),
{
    Request { message: String::new(), event: Event::List }
}

/// The command names that the client knows.
pub open spec fn command_named(args: Seq<Seq<char>>, name: Seq<char>) -> bool {
    args.len() > 1 && args[1] == name
}

/// The commands that the client knows.
pub open spec fn known_command(c: Seq<char>) -> bool {
    ||| c == "new"@
    ||| c == "get"@
    ||| c == "delete"@
    ||| c == "validate"@
    ||| c == "changeMP"@
    ||| c == "change"@
    ||| c == "init"@
    ||| c == "list"@
    ||| c == "tui"@
    ||| c == "--help"@
}

/// The client sends a request of kind `e` with text `m` where `ok`, and
/// ends with the error `err` otherwise.
pub open spec fn sends(
    r: Result<Outgoing, String>,
    ok: bool,
    e: Event,
    m: Seq<char>,
    err: Seq<char>,
) -> bool {
    if ok {
        r matches Ok(Outgoing::Send(q)) && q.event == e && q.message@ == m
    } else {
        r matches Err(x) && x@ == err
    }
}

/// The client asks for a password with the prompt, for a request of kind
/// `e`.
pub open spec fn asks(r: Result<Outgoing, String>, prompt: Seq<char>, e: Event) -> bool {
    r matches Ok(Outgoing::AskPassword { prompt: p, event }) && p@ == prompt && event == e
}

/// What the client does for its command-line arguments (the program name
/// first): the command after it picks the request; an unknown or missing
/// command is an error.
pub fn run_app(args: &Vec<String>) -> (r: Result<Outgoing, String>)
    ensures
        args.len() <= 1 ==> (r matches Err(e) && e@ == "No command specified...try --help"@),
        command_named(string_views(args@), "list"@) ==> (r matches Ok(Outgoing::Send(q)) && q.event
            == Event::List && q.message@ == Seq::<char>::empty()),
        command_named(string_views(args@), "tui"@) ==> (r matches Ok(Outgoing::Tui)),
        command_named(string_views(args@), "--help"@) ==> (r matches Ok(Outgoing::Help)),
        command_named(string_views(args@), "init"@) ==> asks(
            r,
            "Type INITIAL master password (removes all records from storage): "@,
            Event::Init,
        ),
        command_named(string_views(args@), "changeMP"@) ==> (r matches Ok(
            Outgoing::ChangeMaster { old_prompt, new_prompt, again_prompt },
        ) && old_prompt@ == "Type old master password: "@ && new_prompt@
            == "Type NEW master password: "@ && again_prompt@
            == "Type NEW master password again: "@),
        command_named(string_views(args@), "new"@) ==> sends(
            r,
            args.len() >= 4,
            Event::New,
            concat_args(string_views(args@)),
            "Need at least 4 arguments !!! new, key, password (or new, key, login, password)"@,
        ),
        command_named(string_views(args@), "get"@) ==> sends(
            r,
            args.len() >= 3,
            Event::Get,
            concat_args(string_views(args@)),
            "Need at least 3 arguments !!! get, key (returns password, login returned by -l flag)"@,
        ),
        command_named(string_views(args@), "delete"@) ==> sends(
            r,
            args.len() >= 3,
            Event::Delete,
            concat_args(string_views(args@)),
            "Need 2 arguments, delete and key of record which we try to delete"@,
        ),
        command_named(string_views(args@), "change"@) ==> sends(
            r,
            args.len() >= 4,
            Event::Change,
            concat_args(string_views(args@)),
            "Need at least 4 arguments !!! change, key, password (or new, key, login, password)"@,
        ),
        command_named(string_views(args@), "validate"@) && args.len() < 3 ==> asks(
            r,
            "Type master password: "@,
            Event::Validate,
        ),
        command_named(string_views(args@), "validate"@) && args.len() >= 3 ==> sends(
            r,
            true,
            Event::Validate,
            args@[2]@,
            Seq::<char>::empty(),
        ),
        args.len() > 1 && !known_command(string_views(args@)[1]) ==> (r matches Err(e) && e@
            == "Unknown command...try --help"@),
{
    if args.len() <= 1 {
        return Err(String::from_str("No command specified...try --help"));
    }
    let command = chars_of(args[1].as_str());
    assert(string_views(args@)[1] == command@);
    proof {
        reveal_strlit("new");
        reveal_strlit("get");
        reveal_strlit("delete");
        reveal_strlit("validate");
        reveal_strlit("changeMP");
        reveal_strlit("change");
        reveal_strlit("init");
        reveal_strlit("list");
        reveal_strlit("tui");
        reveal_strlit("--help");
        assert("new"@.len() == 3 && "new"@[0] == 'n');
        assert("get"@.len() == 3 && "get"@[0] == 'g');
        assert("delete"@.len() == 6 && "delete"@[0] == 'd');
        assert("validate"@.len() == 8 && "validate"@[0] == 'v');
        assert("changeMP"@.len() == 8 && "changeMP"@[0] == 'c');
        assert("change"@.len() == 6 && "change"@[0] == 'c');
        assert("init"@.len() == 4 && "init"@[0] == 'i');
        assert("list"@.len() == 4 && "list"@[0] == 'l');
        assert("tui"@.len() == 3 && "tui"@[0] == 't');
        assert("--help"@.len() == 6 && "--help"@[0] == '-');
    }
    if crate::text::same_chars(&command, &chars_of("new")) {
        match new(args) {
            Ok(q) => Ok(Outgoing::Send(q)),
            Err(e) => Err(e),
        }
    } else if crate::text::same_chars(&command, &chars_of("get")) {
        match get(args) {
            Ok(q) => Ok(Outgoing::Send(q)),
            Err(e) => Err(e),
        }
    } else if crate::text::same_chars(&command, &chars_of("delete")) {
        match delete(args) {
            Ok(q) => Ok(Outgoing::Send(q)),
            Err(e) => Err(e),
        }
    } else if crate::text::same_chars(&command, &chars_of("validate")) {
        Ok(validate(args))
    } else if crate::text::same_chars(&command, &chars_of("changeMP")) {
        Ok(change_mp())
    } else if crate::text::same_chars(&command, &chars_of("change")) {
        match change(args) {
            Ok(q) => Ok(Outgoing::Send(q)),
            Err(e) => Err(e),
        }
    } else if crate::text::same_chars(&command, &chars_of("init")) {
        Ok(init())
    } else if crate::text::same_chars(&command, &chars_of("list")) {
        Ok(Outgoing::Send(list()))
    } else if crate::text::same_chars(&command, &chars_of("tui")) {
        Ok(Outgoing::Tui)
    } else if crate::text::same_chars(&command, &chars_of("--help")) {
        Ok(Outgoing::Help)
    } else {
        Err(String::from_str("Unknown command...try --help"))
    }
}


/// The bytes a request is sent as: the kind's byte, then the text's UTF-8
/// bytes.
pub open spec fn request_bytes(e: Event, message: Seq<char>) -> Seq<u8> {
    seq![event_code(e)] + encode_utf8(message)
}

/// The bytes to send for a request.
pub fn encode_request(req: &Request) -> (v: Vec<u8>)
    ensures
        v@ == request_bytes(req.event, req.message@),
{
    let bytes = req.message.as_str().as_bytes();
    let mut v: Vec<u8> = Vec::new();
    let mut i: usize = 0;
    while i < bytes.len()
        invariant
            i <= bytes@.len(),
            v@ == bytes@.subrange(0, i as int),
        decreases bytes.len() - i,
    {
        v.push(bytes[i]);
        i = i + 1;
        assert(v@ =~= bytes@.subrange(0, i as int));
    }
    assert(bytes@.subrange(0, i as int) =~= bytes@);
    v.insert(0, req.event.to_u8());
    assert(v@ =~= request_bytes(req.event, req.message@));
    v
}

/// The end of the answer in a reply buffer: the first zero byte after the
/// validation byte, or the buffer's end.
pub open spec fn zero_index(data: Seq<u8>) -> int {
    zero_from(data, 1)
}

/// The first zero byte at or after `i`, or the end.
pub open spec fn zero_from(data: Seq<u8>, i: int) -> int
    decreases data.len() - i,
{
    if i >= data.len() || i < 0 {
        data.len() as int
    } else if data[i] == 0 {
        i
    } else {
        zero_from(data, i + 1)
    }
}

/// The index of the first zero byte after the validation byte, or 200.
pub fn first_zero(data: &[u8; 200]) -> (r: usize)
    ensures
        r == zero_index(data@),
{
    let mut i: usize = 1;
    while i < 200
        invariant
            1 <= i <= 200,
            data@.len() == 200,
            zero_index(data@) == zero_from(data@, i as int),
        decreases 200 - i,
    {
        if data[i] == 0 {
            return i;
        }
        i = i + 1;
    }
    200
}

/// The message a client gets where its session is not validated.
pub open spec fn not_validated_message() -> Seq<char> {
    "Validation failed! use validate command"@
}

/// What the client makes of a reply buffer for a request of kind `e`: the
/// answer where the session is validated or the request is an init, an
/// error otherwise; nothing where the answer is not UTF-8.
pub open spec fn reply_spec(data: Seq<u8>, e: Event) -> Option<Result<Seq<char>, Seq<char>>> {
    let text = data.subrange(1, zero_index(data));
    if !valid_utf8(text) {
        None
    } else if data[0] == 0 && e != Event::Init {
        Some(Err(not_validated_message()))
    } else {
        Some(Ok(decode_utf8(text)))
    }
}

/// Reads the daemon's reply to a request of kind `event`.
pub fn read_reply(data: &[u8; 200], event: Event) -> (r: Option<Result<String, String>>)
    ensures
        r matches Some(Ok(t)) ==> reply_spec(data@, event) == Some(Ok::<Seq<char>, Seq<char>>(t@)),
        r matches Some(Err(t)) ==> reply_spec(data@, event) == Some(
            Err::<Seq<char>, Seq<char>>(t@),
        ),
        r is None ==> reply_spec(data@, event) is None,
{
    let zero_index = first_zero(data);
    proof {
        lemma_zero_from_bounds(data@, 1);
    }
    let mut text: Vec<u8> = Vec::new();
    let mut i: usize = 1;
    while i < zero_index
        invariant
            1 <= i <= zero_index <= 200,
            data@.len() == 200,
            text@ == data@.subrange(1, i as int),
        decreases zero_index - i,
    {
        text.push(data[i]);
        i = i + 1;
        assert(text@ =~= data@.subrange(1, i as int));
    }
    let decoded = match text_from_utf8(text.as_slice()) {
        None => {
            return None;
        },
        Some(t) => t,
    };
    if data[0] == 0 {
        match event {
            Event::Init => Some(Ok(decoded)),
            _ => Some(Err(String::from_str("Validation failed! use validate command"))),
        }
    } else {
        Some(Ok(decoded))
    }
}

proof fn lemma_zero_from_bounds(data: Seq<u8>, i: int)
    requires
        1 <= i <= data.len(),
    ensures
        i <= zero_from(data, i) <= data.len(),
    decreases data.len() - i,
{
    if i < data.len() && data[i] != 0 {
        lemma_zero_from_bounds(data, i + 1);
    }
}

/// The daemon reads a request as the kind and the text that the client
/// sent.
pub proof fn law_request_round_trip(e: Event, message: Seq<char>)
    ensures
        request_spec(request_bytes(e, message)) == Ok::<(Event, Seq<char>), Failure>((e, message)),
{
    let b = request_bytes(e, message);
    assert(b.drop_first() =~= encode_utf8(message));
    vstd::utf8::encode_utf8_valid_utf8(message);
    vstd::utf8::encode_utf8_decode_utf8(message);
    crate::constants::law_event_code_round_trip(e);
}

/// The daemon splits a request's text back into the arguments that the
/// client joined, where no argument holds '#'.
pub proof fn law_arguments_round_trip(args: Seq<Seq<char>>)
    requires
        args.len() >= 3,
        forall|i: int| 2 <= i < args.len() ==> !(#[trigger] args[i]).contains('#'),
    ensures
        split(concat_args(args), piece_sep()) == args.subrange(2, args.len() as int),
{
    let tail = args.subrange(2, args.len() as int);
    assert forall|i: int| 0 <= i < tail.len() implies !(#[trigger] tail[i]).contains('#') by {
        assert(tail[i] == args[i + 2]);
    }
    lemma_piece_sep_hash();
    lemma_split_join(tail, piece_sep(), '#', 0);
}

/// The buffer a client reads a reply into: the reply's bytes, then zeros.
pub open spec fn reply_buffer(reply: Seq<u8>) -> Seq<u8> {
    reply + Seq::new((200 - reply.len()) as nat, |i: int| 0u8)
}

proof fn lemma_zero_after(data: Seq<u8>, i: int, end: int)
    requires
        1 <= i <= end < data.len(),
        data[end] == 0,
        forall|j: int| i <= j < end ==> data[j] != 0,
    ensures
        zero_from(data, i) == end,
    decreases end - i,
{
    if i < end {
        lemma_zero_after(data, i + 1, end);
    }
}

/// A client gets the daemon's answer back from its reply, where the answer
/// fits the buffer and holds no zero byte: as the answer where the session
/// is validated or the request is an init, as a validation error otherwise.
pub proof fn law_reply_round_trip(validated: bool, text: Seq<char>, e: Event)
    requires
        encode_utf8(text).len() < 199,
        !encode_utf8(text).contains(0u8),
    ensures
        reply_spec(reply_buffer(frame_spec(validated, text)), e) == Some(
            if validated || e == Event::Init {
                Ok::<Seq<char>, Seq<char>>(text)
            } else {
                Err::<Seq<char>, Seq<char>>(not_validated_message())
            },
        ),
{
    let bytes = encode_utf8(text);
    let f = frame_spec(validated, text);
    let d = reply_buffer(f);
    let end = (1 + bytes.len()) as int;
    assert forall|j: int| 1 <= j < end implies d[j] != 0 by {
        assert(d[j] == bytes[j - 1]);
        if d[j] == 0 {
            assert(bytes.contains(0u8));
        }
    }
    assert(d[end] == 0);
    lemma_zero_after(d, 1, end);
    assert(d.subrange(1, end) =~= bytes);
    vstd::utf8::encode_utf8_valid_utf8(text);
    vstd::utf8::encode_utf8_decode_utf8(text);
}

} // verus!
