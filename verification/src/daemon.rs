use vstd::prelude::*;
use vstd::utf8::{decode_utf8, encode_utf8, valid_utf8};
use crate::cipher::{
    decode, decode_spec, encode, encode_spec, hash_password, is_lower_hex, lemma_piece_sep_hash,
    piece_sep, sha256_hex, text_from_utf8,
};
use crate::constants::{event_of_code, reason_text, Event, Reason};
use crate::storage::{
    appended_record, change_key, distinct_keys, find_record, handle_list, key_lines, key_used,
    lemma_list_after_append, lemma_parse_record_line, lemma_rewrite_records_keeps,
    lemma_rewrite_text, lemma_storage_append, lemma_storage_append_unended, lemma_stored_key,
    list_spec, lookup, parse_storage, parse_storage_spec, record_line, record_sep,
    record_storable, record_text, record_views, remove_key, rewrite_storage, rewrite_text,
    storage_well_formed, unique_keys, Record,
};
use crate::text::{
    char_views, chars_of, first_index_of, lemma_no_occurrence, lemma_split_cons_clear,
    lemma_split_whole, no_occurrence, slice_chars,
    lemma_trim_appended_line, same_chars, split, split_chars, string_views, strings_of, trim,
    trim_chars, trim_end,
};

verus! {

/// What the daemon remembers between requests: whether the master password
/// was validated, and that password.
pub struct Session {
    pub validated: bool,
    pub valid_password: String,
}

/// A session as a pair of plain values.
pub struct SessionView {
    pub validated: bool,
    pub password: Seq<char>,
}

impl View for Session {
    type V = SessionView;

    open spec fn view(&self) -> SessionView {
        SessionView { validated: self.validated, password: self.valid_password@ }
    }
}

impl Session {
    /// A session that is not validated.
    pub fn new() -> (s: Session)
        ensures
            !s@.validated,
            s@.password == Seq::<char>::empty(),
    {
        Session { validated: false, valid_password: String::new() }
    }

    /// Ends a validation when its time runs out.
    pub fn lock(&mut self)
        ensures
            !final(self)@.validated,
            final(self)@.password == Seq::<char>::empty(),
    {
        self.validated = false;
        self.valid_password = String::new();
    }
}

/// What a request changes in the daemon's files.
pub enum FileWrite {
    /// The hash file's new text (a new master password).
    SetHash(String),
    /// The hash file's new text, and the storage emptied (a first master
    /// password).
    Reset(String),
    /// Text added at the end of the storage file (a new record).
    AppendRecord(String),
    /// The storage file's new text (records deleted or changed).
    SetStorage(String),
}

/// A file write as plain values.
pub enum WriteSpec {
    SetHash(Seq<char>),
    Reset(Seq<char>),
    Record(Seq<char>),
    SetStorage(Seq<char>),
}

impl View for FileWrite {
    type V = WriteSpec;

    open spec fn view(&self) -> WriteSpec {
        match self {
            FileWrite::SetHash(t) => WriteSpec::SetHash(t@),
            FileWrite::Reset(t) => WriteSpec::Reset(t@),
            FileWrite::AppendRecord(t) => WriteSpec::Record(t@),
            FileWrite::SetStorage(t) => WriteSpec::SetStorage(t@),
        }
    }
}

/// An optional file write as plain values.
pub open spec fn write_view(w: Option<FileWrite>) -> Option<WriteSpec> {
    match w {
        Some(f) => Some(f@),
        None => None,
    }
}

/// The daemon's answer to a request and what it adds to its files.
pub struct Outcome {
    pub response: String,
    pub write: Option<FileWrite>,
}

/// An outcome as plain values.
pub open spec fn outcome_view(o: Outcome) -> (Seq<char>, Option<WriteSpec>) {
    (o.response@, write_view(o.write))
}

/// Why the daemon stops serving a request instead of answering it.
#[derive(Debug, Clone, Copy, PartialEq, Eq, Structural)]
pub enum Failure {
    /// The request had no bytes.
    EmptyRequest,
    /// The request's text is not UTF-8.
    InvalidUtf8,
    /// A file that the request needs could not be read.
    Unreadable,
    /// A storage line has no record separator.
    MalformedStorage,
    /// A get or delete request names no key.
    MissingKey,
    /// A stored record does not decrypt to text.
    Undecryptable,
    /// The master password is empty, the text is too long for the cipher,
    /// or encryption failed.
    EncryptionFailed,
}

// ---------------------------------------------------------------------------
// Master password
// ---------------------------------------------------------------------------

/// The check of a password against the hash file's text: refused as empty
/// where the file holds nothing but white space, as invalid where its
/// trimmed text is not the password's hash.
pub open spec fn password_check(pass: Seq<char>, hash_file: Seq<char>) -> Result<(), Reason> {
    let stored = trim(hash_file);
    if stored.len() == 0 {
        Err(Reason::PasswordEmpty)
    } else if sha256_hex(pass) != stored {
        Err(Reason::PasswordInvalid)
    } else {
        Ok(())
    }
}

/// The line that setting a master password adds to the hash file.
pub open spec fn hash_line(pass: Seq<char>) -> Seq<char> {
    sha256_hex(pass) + seq!['\n']
}

/// Checks a password against the text of the hash file.
pub fn is_password_valid(pass: &str, hash_file: &str) -> (r: Result<(), Reason>)
    ensures
        r == password_check(pass@, hash_file@),
{
    let hash = hash_password(pass);
    let hash_chars = chars_of(hash.as_str());
    let old_chars = chars_of(hash_file);
    let stored = trim_chars(&old_chars);
    if stored.len() == 0 {
        return Err(Reason::PasswordEmpty);
    }
    if !same_chars(&hash_chars, &stored) {
        return Err(Reason::PasswordInvalid);
    }
    Ok(())
}

/// A hexadecimal digit is not white space.
proof fn lemma_hex_not_white(c: char)
    requires
        is_lower_hex(c),
    ensures
        !crate::text::is_white(c),
{
}

/// Sets the master password: the hash file's new text, and the answer.
/// The new text accepts the password.
pub fn set_password(pass: &str) -> (o: Outcome)
    ensures
        outcome_view(o) == (
            "Password set to given value"@,
            Some(WriteSpec::SetHash(hash_line(pass@))),
        ),
        password_check(pass@, hash_line(pass@)) == Ok::<(), Reason>(()),
{
    let hash = hash_password(pass);
    let mut line = chars_of(hash.as_str());
    line.push('\n');
    let h = crate::text::string_of(&line);
    proof {
        let s = sha256_hex(pass@);
        assert(h@ =~= s + seq!['\n']);
        lemma_hex_not_white(s[0]);
        lemma_hex_not_white(s.last());
        let e = Seq::<char>::empty();
        assert(trim(e) == e);
        lemma_trim_appended_line(e, s);
        assert(e + h@ =~= h@);
    }
    Outcome {
        response: String::from_str("Password set to given value"),
        write: Some(FileWrite::SetHash(h)),
    }
}

/// The daemon's answer to an init request: where no master password is set,
/// it sets one and empties the storage.
pub open spec fn init_spec(pass: Seq<char>, hash_file: Seq<char>) -> (Seq<char>, Option<WriteSpec>) {
    match password_check(pass, hash_file) {
        Ok(()) => ("Given password already matches current one, nothing changed"@, None),
        Err(Reason::PasswordInvalid) => (
            "Password already set, to change it, use change command"@,
            None,
        ),
        Err(Reason::PasswordEmpty) => (
            "Password set to given value"@,
            Some(WriteSpec::Reset(hash_line(pass))),
        ),
    }
}

/// Where an init request set the master password, the hash file that it
/// leaves accepts that password.
pub open spec fn init_validates(
    pass: Seq<char>,
    r: Result<(Seq<char>, Option<WriteSpec>), Failure>,
) -> bool {
    match r {
        Ok((_, Some(WriteSpec::Reset(h)))) => password_check(pass, h) == Ok::<(), Reason>(()),
        _ => true,
    }
}

/// Sets the first master password and removes all records; refuses where
/// a master password is set.
pub fn handle_init(pass: &str, hash_file: &str) -> (o: Outcome)
    ensures
        outcome_view(o) == init_spec(pass@, hash_file@),
        init_validates(pass@, Ok(outcome_view(o))),
{
    match is_password_valid(pass, hash_file) {
        Ok(()) => Outcome {
            response: String::from_str(
                "Given password already matches current one, nothing changed",
            ),
            write: None,
        },
        Err(Reason::PasswordInvalid) => Outcome {
            response: String::from_str("Password already set, to change it, use change command"),
            write: None,
        },
        Err(Reason::PasswordEmpty) => {
            let o = set_password(pass);
            let write = match o.write {
                Some(FileWrite::SetHash(h)) => Some(FileWrite::Reset(h)),
                other => other,
            };
            Outcome { response: o.response, write }
        },
    }
}

/// The daemon's answer to a request to change the master password: where
/// the session is validated, the hash file holds the new password's hash
/// alone.
pub open spec fn change_mp_spec(pass: Seq<char>, validated: bool) -> (
    Seq<char>,
    Option<WriteSpec>,
) {
    if validated {
        ("Password set to given value"@, Some(WriteSpec::SetHash(hash_line(pass))))
    } else {
        ("Not validated"@, None)
    }
}

/// Where a change of master password was made, the hash file that it
/// leaves accepts the new password.
pub open spec fn change_validates(
    pass: Seq<char>,
    r: Result<(Seq<char>, Option<WriteSpec>), Failure>,
) -> bool {
    match r {
        Ok((_, Some(WriteSpec::SetHash(h)))) => password_check(pass, h) == Ok::<(), Reason>(()),
        _ => true,
    }
}

/// Replaces the master password where the session is validated.
pub fn handle_change_mp(pass: &str, validated: bool) -> (o: Outcome)
    ensures
        outcome_view(o) == change_mp_spec(pass@, validated),
        change_validates(pass@, Ok(outcome_view(o))),
{
    if validated {
        set_password(pass)
    } else {
        Outcome { response: String::from_str("Not validated"), write: None }
    }
}

/// The session after a validation request, and the answer.
pub open spec fn validate_spec(pass: Seq<char>, hash_file: Seq<char>) -> (SessionView, Seq<char>) {
    match password_check(pass, hash_file) {
        Ok(()) => (SessionView { validated: true, password: pass }, "Successfully validated"@),
        Err(r) => (SessionView { validated: false, password: Seq::empty() }, reason_text(r)),
    }
}

/// Validates the session with the given password, or ends its validation.
pub fn handle_validate(pass: &str, session: &mut Session, hash_file: &str) -> (r: String)
    ensures
        (final(session)@, r@) == validate_spec(pass@, hash_file@),
{
    match is_password_valid(pass, hash_file) {
        Ok(()) => {
            session.validated = true;
            session.valid_password = String::from_str(pass);
            String::from_str("Successfully validated")
        },
        Err(reason) => {
            session.validated = false;
            session.valid_password = String::new();
            reason.to_string()
        },
    }
}


// ---------------------------------------------------------------------------
// Records
// ---------------------------------------------------------------------------

/// The argument that asks for a record's login instead of its password.
pub open spec fn login_flag() -> Seq<char> {
    seq!['-', 'l']
}

/// The arguments without the login flag.
pub open spec fn without_flag(args: Seq<Seq<char>>) -> Seq<Seq<char>>
    decreases args.len(),
{
    if args.len() == 0 {
        seq![]
    } else {
        let r = without_flag(args.drop_last());
        if args.last() == login_flag() {
            r
        } else {
            r.push(args.last())
        }
    }
}

/// Whether the arguments hold the login flag; removes it from them.
pub fn has_login_flag(args: &mut Vec<String>) -> (r: bool)
    ensures
        r == string_views(old(args)@).contains(login_flag()),
        string_views(final(args)@) == without_flag(string_views(old(args)@)),
{
    let flag = vec!['-', 'l'];
    assert(flag@ =~= login_flag());
    let ghost all = string_views(args@);
    let mut kept: Vec<String> = Vec::new();
    let mut found = false;
    let mut i: usize = 0;
    while i < args.len()
        invariant
            i <= args.len(),
            all == string_views(args@),
            flag@ == login_flag(),
            string_views(kept@) == without_flag(all.subrange(0, i as int)),
            found == all.subrange(0, i as int).contains(login_flag()),
        decreases args.len() - i,
    {
        let a = chars_of(args[i].as_str());
        let ghost sub = all.subrange(0, i + 1);
        assert(sub.drop_last() =~= all.subrange(0, i as int));
        assert(sub.last() == a@);
        if same_chars(&a, &flag) {
            found = true;
            assert(sub[i as int] == login_flag());
        } else {
            let ghost before = string_views(kept@);
            kept.push(args[i].clone());
            assert(string_views(kept@) =~= before.push(a@));
            proof {
                if all.subrange(0, i as int).contains(login_flag()) {
                    let t = choose|t: int|
                        0 <= t < i && all.subrange(0, i as int)[t] == login_flag();
                    assert(sub[t] == login_flag());
                }
                if sub.contains(login_flag()) {
                    let t = choose|t: int| 0 <= t < i + 1 && sub[t] == login_flag();
                    assert(all.subrange(0, i as int)[t] == login_flag());
                }
            }
        }
        i = i + 1;
    }
    assert(all.subrange(0, i as int) =~= all);
    *args = kept;
    found
}

/// The piece of a decrypted record that a get request returns: the login
/// (first piece) where asked for, else the password (second piece, or the
/// only one).
pub open spec fn pick_piece(pieces: Seq<Seq<char>>, login: bool) -> Seq<char> {
    if login {
        if pieces.len() < 2 {
            "Exception: Record does not contain login data"@
        } else {
            pieces[0]
        }
    } else {
        if pieces.len() > 1 {
            pieces[1]
        } else {
            pieces[0]
        }
    }
}

/// The daemon's answer to a get request.
pub open spec fn get_spec(
    validated: bool,
    args: Seq<Seq<char>>,
    password: Seq<char>,
    storage: Seq<char>,
) -> Result<Seq<char>, Failure> {
    let login = args.contains(login_flag());
    let rest = without_flag(args);
    if !validated {
        Ok("Exception: not validated"@)
    } else if rest.len() == 0 {
        Err(Failure::MissingKey)
    } else {
        match parse_storage_spec(storage) {
            None => Err(Failure::MalformedStorage),
            Some(recs) => match lookup(recs, rest[0]) {
                None => Ok("Exception: Key does not exist"@),
                Some(d) => match decode_spec(d, password) {
                    None => Err(Failure::Undecryptable),
                    Some(m) => Ok(pick_piece(split(m, piece_sep()), login)),
                },
            },
        }
    }
}

/// Answers a get request: the stored password, or the login where the
/// arguments hold "-l".
pub fn handle_get(
    validated: bool,
    args: &mut Vec<String>,
    valid_password: &str,
    storage: &str,
) -> (r: Result<String, Failure>)
    ensures
        string_views(final(args)@) == without_flag(string_views(old(args)@)),
        r matches Ok(t) ==> get_spec(validated, string_views(old(args)@), valid_password@, storage@)
            == Ok::<Seq<char>, Failure>(t@),
        r matches Err(f) ==> get_spec(validated, string_views(old(args)@), valid_password@, storage@)
            == Err::<Seq<char>, Failure>(f),
{
    let return_login = has_login_flag(args);
    if !validated {
        return Ok(String::from_str("Exception: not validated"));
    }
    if args.len() == 0 {
        return Err(Failure::MissingKey);
    }
    let recs = match parse_storage(storage) {
        None => {
            return Err(Failure::MalformedStorage);
        },
        Some(recs) => recs,
    };
    let key = chars_of(args[0].as_str());
    let encrypted_data = match find_record(&recs, &key) {
        None => {
            return Ok(String::from_str("Exception: Key does not exist"));
        },
        Some(d) => d,
    };
    let decrypted = match decode(&encrypted_data, valid_password) {
        None => {
            return Err(Failure::Undecryptable);
        },
        Some(m) => m,
    };
    let m = chars_of(decrypted.as_str());
    let sep = vec!['#', '@', '#'];
    assert(sep@ =~= piece_sep());
    let pieces = split_chars(&m, &sep);
    proof {
        crate::text::lemma_split_scan_nonempty(m@, sep@, 0, 0);
    }
    let ghost pv = char_views(pieces@);
    if return_login {
        if pieces.len() < 2 {
            Ok(String::from_str("Exception: Record does not contain login data"))
        } else {
            assert(pv[0] == pieces@[0]@);
            Ok(crate::text::string_of(&pieces[0]))
        }
    } else {
        if pieces.len() > 1 {
            assert(pv[1] == pieces@[1]@);
            Ok(crate::text::string_of(&pieces[1]))
        } else {
            assert(pv[0] == pieces@[0]@);
            Ok(crate::text::string_of(&pieces[0]))
        }
    }
}

/// The text that a new request encrypts: the password, or the login and
/// the password joined by "#@#".
pub open spec fn new_message(args: Seq<Seq<char>>) -> Seq<char> {
    if args.len() < 3 {
        args[1]
    } else {
        args[1] + piece_sep() + args[2]
    }
}

/// What a get request for the key answers after a new request stored a
/// record from these arguments: the password.
pub open spec fn stored_secret(args: Seq<Seq<char>>) -> Seq<char> {
    if args.len() < 3 {
        args[1]
    } else {
        args[2]
    }
}

/// What a get request for the key with "-l" answers after that: the login,
/// where one was given.
pub open spec fn stored_login(args: Seq<Seq<char>>) -> Seq<char> {
    if args.len() < 3 {
        "Exception: Record does not contain login data"@
    } else {
        args[1]
    }
}

/// A key whose record line reads back as written, and that a get request
/// can name: the record separator begins nowhere inside it, it holds no
/// line break, and it is not the login flag.
pub open spec fn key_storable(k: Seq<char>) -> bool {
    &&& no_occurrence(k + record_sep().drop_last(), record_sep())
    &&& !k.contains('\n')
    &&& k != login_flag()
}

/// Login and password that come back apart from their record: "#@#"
/// begins nowhere inside the login, and occurs nowhere in the password.
pub open spec fn secret_separable(args: Seq<Seq<char>>) -> bool {
    if args.len() < 3 {
        no_occurrence(args[1], piece_sep())
    } else {
        &&& no_occurrence(args[1] + piece_sep().drop_last(), piece_sep())
        &&& no_occurrence(args[2], piece_sep())
    }
}

/// The answer to a new request: the record is stored where the session is
/// validated, the arguments name a key and a password, and the key is new.
pub open spec fn new_spec(
    validated: bool,
    args: Seq<Seq<char>>,
    password: Seq<char>,
    storage: Seq<char>,
) -> Result<(Seq<char>, Option<WriteSpec>), Failure> {
    if !validated {
        Ok(("Exception: not validated"@, None))
    } else if args.len() < 2 {
        Ok(("Exception: Not enough arguments given"@, None))
    } else {
        match parse_storage_spec(storage) {
            None => Err(Failure::MalformedStorage),
            Some(recs) => if lookup(recs, args[0]) is Some {
                Ok(("Exception: Key already used"@, None))
            } else {
                match encode_spec(new_message(args), password) {
                    None => Err(Failure::EncryptionFailed),
                    Some(d) => Ok(
                        ("Record saved!"@, Some(WriteSpec::Record(appended_record(args[0], d)))),
                    ),
                }
            },
        }
    }
}

/// The text to encrypt is short enough that its ciphertext goes back
/// through OpenSSL.
pub open spec fn message_fits(args: Seq<Seq<char>>) -> bool {
    encode_utf8(new_message(args)).len() + 16 <= crate::cipher::cipher_input_limit()
}

/// A get request for the key gives back the password, and with "-l" the
/// login.
pub open spec fn gets_back(args: Seq<Seq<char>>, password: Seq<char>, storage: Seq<char>) -> bool {
    &&& get_spec(true, seq![args[0]], password, storage) == Ok::<Seq<char>, Failure>(
        stored_secret(args),
    )
    &&& get_spec(true, seq![args[0], login_flag()], password, storage) == Ok::<
        Seq<char>,
        Failure,
    >(stored_login(args))
}

/// Where a new request stored a record: storage that parsed still parses
/// and its keys stay distinct, where the record separator begins nowhere
/// inside the key and it holds no line break; and where the storage ended
/// its last line and the key is storable, the storage stays well-formed,
/// the listing of keys ends with the new key, and, where login and password
/// come back apart and the text is short enough for the cipher, a get
/// request for the key gives back the password, and with "-l" the login.
pub open spec fn record_readable(
    args: Seq<Seq<char>>,
    password: Seq<char>,
    storage: Seq<char>,
    r: Result<(Seq<char>, Option<WriteSpec>), Failure>,
) -> bool {
    match r {
        Ok((_, Some(WriteSpec::Record(t)))) => (parse_storage_spec(storage) is Some
            && no_occurrence(args[0] + record_sep().drop_last(), record_sep()) && !args[0].contains(
            '\n',
        ) ==> {
            &&& parse_storage_spec(storage + t) is Some
            &&& unique_keys(parse_storage_spec(storage).unwrap()) ==> unique_keys(
                parse_storage_spec(storage + t).unwrap(),
            )
        }) && (storage_well_formed(storage) && key_storable(args[0]) ==> {
            &&& storage_well_formed(storage + t)
            &&& unique_keys(parse_storage_spec(storage).unwrap()) ==> unique_keys(
                parse_storage_spec(storage + t).unwrap(),
            )
            &&& list_spec(storage + t) == Some(
                trim_end(
                    key_lines(distinct_keys(parse_storage_spec(storage).unwrap()).push(args[0])),
                ),
            )
            &&& secret_separable(args) && message_fits(args) ==> gets_back(args, password, storage + t)
        }),
        _ => true,
    }
}

/// An outcome or failure as plain values.
pub open spec fn result_view(r: Result<Outcome, Failure>) -> Result<
    (Seq<char>, Option<WriteSpec>),
    Failure,
> {
    match r {
        Ok(o) => Ok(outcome_view(o)),
        Err(f) => Err(f),
    }
}

/// The text to encrypt for the arguments of a new or change request.
fn message_of(args: &Vec<String>) -> (m: String)
    requires
        args.len() >= 2,
    ensures
        m@ == new_message(string_views(args@)),
{
    let ghost av = string_views(args@);
    assert(av[1] == args@[1]@);
    if args.len() < 3 {
        args[1].clone()
    } else {
        assert(av[2] == args@[2]@);
        let mut m = chars_of(args[1].as_str());
        m.push('#');
        m.push('@');
        m.push('#');
        let rest = chars_of(args[2].as_str());
        let mut j: usize = 0;
        let ghost start = m@;
        while j < rest.len()
            invariant
                j <= rest.len(),
                m@ == start + rest@.subrange(0, j as int),
            decreases rest.len() - j,
        {
            m.push(rest[j]);
            j = j + 1;
            assert(m@ =~= start + rest@.subrange(0, j as int));
        }
        assert(rest@.subrange(0, j as int) =~= rest@);
        assert(m@ =~= new_message(av));
        crate::text::string_of(&m)
    }
}

/// Stores a new record where the session is validated and the key is new.
/// A record that is stored is what a later get request for its key gives
/// back: the password, or with "-l" the login.
pub fn handle_new(
    validated: bool,
    args: &Vec<String>,
    valid_password: &str,
    storage: &str,
) -> (r: Result<Outcome, Failure>)
    ensures
        result_view(r) == new_spec(validated, string_views(args@), valid_password@, storage@),
        record_readable(string_views(args@), valid_password@, storage@, result_view(r)),
{
    let ghost av = string_views(args@);
    if !validated {
        return Ok(Outcome { response: String::from_str("Exception: not validated"), write: None });
    }
    if args.len() < 2 {
        return Ok(
            Outcome {
                response: String::from_str("Exception: Not enough arguments given"),
                write: None,
            },
        );
    }
    let recs = match parse_storage(storage) {
        None => {
            return Err(Failure::MalformedStorage);
        },
        Some(recs) => recs,
    };
    let key = chars_of(args[0].as_str());
    assert(av[0] == args@[0]@);
    if key_used(&recs, &key) {
        return Ok(Outcome { response: String::from_str("Exception: Key already used"), write: None });
    }
    let message = message_of(args);
    let encrypted_data = match encode(&message, valid_password) {
        None => {
            return Err(Failure::EncryptionFailed);
        },
        Some(d) => d,
    };
    let line = record_text(&args[0], &encrypted_data);
    proof {
        lemma_new_then_get(storage@, av, valid_password@, encrypted_data@);
    }
    Ok(Outcome { response: String::from_str("Record saved!"), write: Some(FileWrite::AppendRecord(line)) })
}

/// Bytes written in decimal hold only digits and the separator, so the
/// record separator, line breaks and carriage returns are not among them.
proof fn lemma_render_excludes(c: Seq<u8>)
    ensures
        !crate::cipher::render_bytes(c).contains('|'),
        !crate::cipher::render_bytes(c).contains('\n'),
        !crate::cipher::render_bytes(c).contains('\r'),
        no_occurrence(crate::cipher::render_bytes(c), record_sep()),
{
    let p = crate::cipher::decimals(c);
    assert forall|i: int| 0 <= i < p.len() implies !(#[trigger] p[i]).contains('|') && !p[i].contains(
        '\n',
    ) && !p[i].contains('\r') by {
        crate::cipher::lemma_decimal_digits(c[i]);
    }
    assert(!piece_sep().contains('|') && !piece_sep().contains('\n') && !piece_sep().contains('\r'))
        by {
        if piece_sep().contains('|') || piece_sep().contains('\n') || piece_sep().contains('\r') {
            let i = choose|i: int|
                0 <= i < 3 && (piece_sep()[i] == '|' || piece_sep()[i] == '\n' || piece_sep()[i]
                    == '\r');
        }
    }
    crate::text::lemma_join_excludes(p, piece_sep(), '|');
    crate::text::lemma_join_excludes(p, piece_sep(), '\n');
    crate::text::lemma_join_excludes(p, piece_sep(), '\r');
    assert(first_index_of(record_sep(), '|', 1)) by {
        assert(record_sep()[0] == ' ');
    }
    lemma_no_occurrence(crate::cipher::render_bytes(c), record_sep(), '|', 1);
}

/// Encrypted data written as text holds neither the record separator, a
/// line break nor a carriage return.
proof fn lemma_encoded_clean(m: Seq<char>, password: Seq<char>, d: Seq<char>)
    requires
        encode_spec(m, password) == Some(d),
    ensures
        no_occurrence(d, record_sep()),
        !d.contains('\n'),
        !d.contains('\r'),
{
    let kb = encode_utf8(password);
    let c = crate::cipher::aes128_cbc_encrypt(
        crate::cipher::key16(kb),
        crate::cipher::record_iv(),
        encode_utf8(m),
    ).unwrap();
    lemma_render_excludes(c);
}

/// The record text for a key and encrypted data can be stored and read back.
proof fn lemma_encoded_storable(k: Seq<char>, d: Seq<char>, m: Seq<char>, password: Seq<char>)
    requires
        no_occurrence(k + record_sep().drop_last(), record_sep()),
        !k.contains('\n'),
        encode_spec(m, password) == Some(d),
    ensures
        record_storable(k, d),
{
    lemma_encoded_clean(m, password, d);
    if d.len() > 0 {
        assert(d.contains(d.last()));
    }
}

/// Where a record with the key holds the encrypted message, a get request
/// for the key gives back the password, and with "-l" the login.
proof fn lemma_get_finds(text: Seq<char>, args: Seq<Seq<char>>, password: Seq<char>, d: Seq<char>)
    requires
        args.len() >= 2,
        parse_storage_spec(text) is Some,
        lookup(parse_storage_spec(text).unwrap(), args[0]) == Some(d),
        decode_spec(d, password) == Some(new_message(args)),
        args[0] != login_flag(),
        secret_separable(args),
    ensures
        gets_back(args, password, text),
{
    let k = args[0];
    let one = seq![k];
    assert(without_flag(Seq::<Seq<char>>::empty()) =~= Seq::<Seq<char>>::empty());
    assert(one.drop_last() =~= Seq::<Seq<char>>::empty());
    assert(one.last() == k);
    assert(without_flag(one) =~= Seq::<Seq<char>>::empty().push(k));
    assert(without_flag(one) =~= one);
    assert(!one.contains(login_flag())) by {
        if one.contains(login_flag()) {
            let t = choose|t: int| 0 <= t < 1 && one[t] == login_flag();
        }
    }
    let two = seq![k, login_flag()];
    assert(two.drop_last() =~= one);
    assert(without_flag(two) =~= one);
    assert(two[1] == login_flag());
    assert(two.contains(login_flag()));
    if args.len() < 3 {
        lemma_split_whole(args[1], piece_sep());
    } else {
        lemma_split_cons_clear(args[1], piece_sep(), args[2]);
        lemma_split_whole(args[2], piece_sep());
        assert(seq![args[1]] + seq![args[2]] =~= seq![args[1], args[2]]);
    }
}

/// A record stored by a new request keeps the storage well-formed and its
/// keys distinct, is listed, and is found again by a get request for its
/// key.
proof fn lemma_new_then_get(
    storage: Seq<char>,
    args: Seq<Seq<char>>,
    password: Seq<char>,
    data: Seq<char>,
)
    requires
        args.len() >= 2,
        parse_storage_spec(storage) is Some,
        lookup(parse_storage_spec(storage).unwrap(), args[0]) is None,
        encode_spec(new_message(args), password) == Some(data),
        message_fits(args) ==> decode_spec(data, password) == Some(new_message(args)),
    ensures
        record_readable(
            args,
            password,
            storage,
            Ok(("Record saved!"@, Some(WriteSpec::Record(appended_record(args[0], data))))),
        ),
{
    let k = args[0];
    let recs = parse_storage_spec(storage).unwrap();
    if no_occurrence(k + record_sep().drop_last(), record_sep()) && !k.contains('\n') {
        lemma_encoded_storable(k, data, new_message(args), password);
        lemma_unique_push(recs, k, data);
        if storage_well_formed(storage) {
            lemma_storage_append(storage, k, data);
        } else {
            lemma_encoded_clean(new_message(args), password, data);
            lemma_record_line_clean(k, data);
            lemma_storage_append_unended(storage, record_line(k, data));
            assert(storage + appended_record(k, data) =~= storage + record_line(k, data) + seq![
                '\n',
            ]);
            let nr = parse_storage_spec(storage + appended_record(k, data)).unwrap();
            assert forall|i: int, j: int| unique_keys(recs) && 0 <= i < j < nr.len() implies #[trigger] nr[i].0
                != #[trigger] nr[j].0 by {
                assert(nr[i].0 == recs[i].0 && nr[j].0 == recs[j].0);
            }
        }
    }
    if storage_well_formed(storage) && key_storable(args[0]) {
        lemma_encoded_storable(k, data, new_message(args), password);
        lemma_storage_append(storage, k, data);
        let recs2 = recs.push((k, data));
        assert(recs2.drop_last() =~= recs);
        assert(lookup(recs2, k) == Some(data));
        lemma_list_after_append(recs, k, data);
        lemma_unique_push(recs, k, data);
        if secret_separable(args) && message_fits(args) {
            lemma_get_finds(storage + appended_record(k, data), args, password, data);
        }
    }
}

/// Adding a record with a key that no record has keeps the keys distinct.
proof fn lemma_unique_push(recs: Seq<(Seq<char>, Seq<char>)>, k: Seq<char>, d: Seq<char>)
    requires
        lookup(recs, k) is None,
    ensures
        unique_keys(recs) ==> unique_keys(recs.push((k, d))),
{
    lemma_lookup_none(recs, k);
    let r2 = recs.push((k, d));
    if unique_keys(recs) {
        assert forall|i: int, j: int| 0 <= i < j < r2.len() implies #[trigger] r2[i].0
            != #[trigger] r2[j].0 by {
            if j < recs.len() {
                assert(r2[i] == recs[i] && r2[j] == recs[j]);
            } else {
                assert(r2[i] == recs[i]);
            }
        }
    }
}

/// Where no record has the key, none of them has it.
proof fn lemma_lookup_none(recs: Seq<(Seq<char>, Seq<char>)>, k: Seq<char>)
    requires
        lookup(recs, k) is None,
    ensures
        forall|i: int| 0 <= i < recs.len() ==> (#[trigger] recs[i]).0 != k,
    decreases recs.len(),
{
    if recs.len() > 0 {
        lemma_lookup_none(recs.drop_last(), k);
        assert forall|i: int| 0 <= i < recs.len() implies (#[trigger] recs[i]).0 != k by {
            if i < recs.len() - 1 {
                assert(recs.drop_last()[i] == recs[i]);
            }
        }
    }
}

// ---------------------------------------------------------------------------
// Laws of the handlers
// ---------------------------------------------------------------------------

/// Once a master password is set (the hash file holds more than white
/// space), an init request writes no file, whatever password it carries;
/// only where none is set does it write the new hash and empty the storage.
pub proof fn law_init_only_when_unset(pass: Seq<char>, hash_file: Seq<char>)
    ensures
        trim(hash_file).len() > 0 ==> init_spec(pass, hash_file).1 is None,
        trim(hash_file).len() == 0 ==> init_spec(pass, hash_file).1 == Some(
            WriteSpec::Reset(hash_line(pass)),
        ),
{
}

/// After an init request set the master password, a second init request,
/// with any password, leaves the files alone.
pub proof fn law_init_twice(first: Seq<char>, second: Seq<char>, hash_file: Seq<char>, h: Seq<char>)
    requires
        init_spec(first, hash_file).1 == Some(WriteSpec::Reset(h)),
        password_check(first, h) == Ok::<(), Reason>(()),
    ensures
        init_spec(second, h).1 is None,
{
}

/// A new request, in a validated session, with a key and a password, whose
/// key no record has exactly, saves the record wherever the storage parses
/// and the text encrypts: other keys, whatever they share with it, do not
/// stand in its way.
pub proof fn law_new_saves_fresh_key(args: Seq<Seq<char>>, password: Seq<char>, storage: Seq<char>)
    requires
        args.len() >= 2,
        parse_storage_spec(storage) is Some,
        lookup(parse_storage_spec(storage).unwrap(), args[0]) is None,
        encode_spec(new_message(args), password) is Some,
    ensures
        new_spec(true, args, password, storage) == Ok::<(Seq<char>, Option<WriteSpec>), Failure>(
            (
                "Record saved!"@,
                Some(
                    WriteSpec::Record(
                        appended_record(args[0], encode_spec(new_message(args), password).unwrap()),
                    ),
                ),
            ),
        ),
{
}

/// A get request, in a validated session, for a key that no record has
/// exactly answers that the key does not exist.
pub proof fn law_get_unknown_key(args: Seq<Seq<char>>, password: Seq<char>, storage: Seq<char>)
    requires
        without_flag(args).len() > 0,
        parse_storage_spec(storage) is Some,
        lookup(parse_storage_spec(storage).unwrap(), without_flag(args)[0]) is None,
    ensures
        get_spec(true, args, password, storage) == Ok::<Seq<char>, Failure>(
            "Exception: Key does not exist"@,
        ),
{
}

/// A get request reads only the records of its key: two storages in which
/// that key finds the same data give the same answer, whatever other
/// records they hold.
pub proof fn law_get_reads_only_its_key(
    args: Seq<Seq<char>>,
    password: Seq<char>,
    first: Seq<char>,
    second: Seq<char>,
)
    requires
        without_flag(args).len() > 0,
        parse_storage_spec(first) is Some,
        parse_storage_spec(second) is Some,
        lookup(parse_storage_spec(first).unwrap(), without_flag(args)[0]) == lookup(
            parse_storage_spec(second).unwrap(),
            without_flag(args)[0],
        ),
    ensures
        get_spec(true, args, password, first) == get_spec(true, args, password, second),
{
}

// ---------------------------------------------------------------------------
// Deleting and changing records
// ---------------------------------------------------------------------------

/// The answer to a delete request: where the session is validated and a
/// record has the key, all records with the key are removed.
pub open spec fn delete_spec(validated: bool, args: Seq<Seq<char>>, storage: Seq<char>) -> Result<
    (Seq<char>, Option<WriteSpec>),
    Failure,
> {
    if !validated {
        Ok(("Exception: not validated"@, None))
    } else if args.len() == 0 {
        Err(Failure::MissingKey)
    } else {
        match parse_storage_spec(storage) {
            None => Err(Failure::MalformedStorage),
            Some(recs) => if lookup(recs, args[0]) is None {
                Ok(("Exception: Key does not exist"@, None))
            } else {
                Ok(
                    (
                        "Record deleted!"@,
                        Some(WriteSpec::SetStorage(rewrite_text(storage, args[0], None))),
                    ),
                )
            },
        }
    }
}

/// Where a delete request rewrote the storage: the new storage reads back
/// as the old records without the key's, no record has the key, every
/// other key finds what it found before, distinct keys stay distinct, and
/// storage whose last line was ended still ends it.
pub open spec fn record_deleted(
    args: Seq<Seq<char>>,
    storage: Seq<char>,
    r: Result<(Seq<char>, Option<WriteSpec>), Failure>,
) -> bool {
    match r {
        Ok((_, Some(WriteSpec::SetStorage(t)))) => {
            let recs = parse_storage_spec(storage).unwrap();
            let kept = remove_key(recs, args[0]);
            &&& parse_storage_spec(t) == Some(kept)
            &&& lookup(kept, args[0]) is None
            &&& forall|k: Seq<char>| k != args[0] ==> #[trigger] lookup(kept, k) == lookup(recs, k)
            &&& unique_keys(recs) ==> unique_keys(kept)
            &&& storage_well_formed(storage) ==> storage_well_formed(t)
        },
        _ => true,
    }
}

/// Deletes the records of a key where the session is validated.
pub fn handle_delete(validated: bool, args: &Vec<String>, storage: &str) -> (r: Result<
    Outcome,
    Failure,
>)
    ensures
        result_view(r) == delete_spec(validated, string_views(args@), storage@),
        record_deleted(string_views(args@), storage@, result_view(r)),
{
    let ghost av = string_views(args@);
    if !validated {
        return Ok(Outcome { response: String::from_str("Exception: not validated"), write: None });
    }
    if args.len() == 0 {
        return Err(Failure::MissingKey);
    }
    let recs = match parse_storage(storage) {
        None => {
            return Err(Failure::MalformedStorage);
        },
        Some(recs) => recs,
    };
    let key = chars_of(args[0].as_str());
    assert(av[0] == args@[0]@);
    if !key_used(&recs, &key) {
        return Ok(Outcome { response: String::from_str("Exception: Key does not exist"), write: None });
    }
    let text = rewrite_storage(storage, &key, None);
    proof {
        lemma_rewrite_text(storage@, key@, None, None);
        lemma_rewrite_records_keeps(record_views(recs@), key@, None);
    }
    Ok(Outcome { response: String::from_str("Record deleted!"), write: Some(FileWrite::SetStorage(text)) })
}

/// The answer to a change request: where the session is validated, the
/// arguments name a key and a password, and a record has the key, the
/// lines of the key's records are replaced by one with the newly encrypted
/// data, and every other line is kept as it was.
pub open spec fn change_spec(
    validated: bool,
    args: Seq<Seq<char>>,
    password: Seq<char>,
    storage: Seq<char>,
) -> Result<(Seq<char>, Option<WriteSpec>), Failure> {
    if !validated {
        Ok(("Exception: not validated"@, None))
    } else if args.len() < 2 {
        Ok(("Exception: Not enough arguments given"@, None))
    } else {
        match parse_storage_spec(storage) {
            None => Err(Failure::MalformedStorage),
            Some(recs) => if lookup(recs, args[0]) is None {
                Ok(("Exception: Key does not exist"@, None))
            } else {
                match encode_spec(new_message(args), password) {
                    None => Err(Failure::EncryptionFailed),
                    Some(d) => Ok(
                        (
                            "Record changed!"@,
                            Some(
                                WriteSpec::SetStorage(
                                    rewrite_text(storage, args[0], Some(record_line(args[0], d))),
                                ),
                            ),
                        ),
                    ),
                }
            },
        }
    }
}

/// Where a change request rewrote the storage: the new storage parses,
/// every other key finds what it found before, distinct keys stay
/// distinct, storage whose last line was ended still ends it, and, where
/// the key is not the login flag, login and password come back apart and
/// the text is short enough for the cipher, a get request for the key gives
/// back the new password, and with "-l" the new login.
pub open spec fn record_changed(
    args: Seq<Seq<char>>,
    password: Seq<char>,
    storage: Seq<char>,
    r: Result<(Seq<char>, Option<WriteSpec>), Failure>,
) -> bool {
    match r {
        Ok((_, Some(WriteSpec::SetStorage(t)))) => {
            let recs = parse_storage_spec(storage).unwrap();
            &&& parse_storage_spec(t) is Some
            &&& forall|k: Seq<char>|
                k != args[0] ==> #[trigger] lookup(parse_storage_spec(t).unwrap(), k) == lookup(
                    recs,
                    k,
                )
            &&& unique_keys(recs) ==> unique_keys(parse_storage_spec(t).unwrap())
            &&& storage_well_formed(storage) ==> storage_well_formed(t)
            &&& args[0] != login_flag() && secret_separable(args) && message_fits(args)
                ==> gets_back(args, password, t)
        },
        _ => true,
    }
}

/// Replaces the records of a key by one with new data where the session is
/// validated and the key is stored.
pub fn handle_change(
    validated: bool,
    args: &Vec<String>,
    valid_password: &str,
    storage: &str,
) -> (r: Result<Outcome, Failure>)
    ensures
        result_view(r) == change_spec(validated, string_views(args@), valid_password@, storage@),
        record_changed(string_views(args@), valid_password@, storage@, result_view(r)),
{
    let ghost av = string_views(args@);
    if !validated {
        return Ok(Outcome { response: String::from_str("Exception: not validated"), write: None });
    }
    if args.len() < 2 {
        return Ok(
            Outcome {
                response: String::from_str("Exception: Not enough arguments given"),
                write: None,
            },
        );
    }
    let recs = match parse_storage(storage) {
        None => {
            return Err(Failure::MalformedStorage);
        },
        Some(recs) => recs,
    };
    let key = chars_of(args[0].as_str());
    assert(av[0] == args@[0]@);
    if !key_used(&recs, &key) {
        return Ok(Outcome { response: String::from_str("Exception: Key does not exist"), write: None });
    }
    let message = message_of(args);
    let encrypted_data = match encode(&message, valid_password) {
        None => {
            return Err(Failure::EncryptionFailed);
        },
        Some(d) => d,
    };
    let full = chars_of(record_text(&args[0], &encrypted_data).as_str());
    let line = slice_chars(&full, 0, full.len() - 1);
    assert(line@ =~= record_line(av[0], encrypted_data@));
    let text = rewrite_storage(storage, &key, Some(&line));
    proof {
        lemma_change_then_get(storage@, av, valid_password@, encrypted_data@);
    }
    Ok(Outcome { response: String::from_str("Record changed!"), write: Some(FileWrite::SetStorage(text)) })
}

/// What a change request writes keeps the storage readable and gives back
/// the new data for the key.
proof fn lemma_change_then_get(
    storage: Seq<char>,
    args: Seq<Seq<char>>,
    password: Seq<char>,
    data: Seq<char>,
)
    requires
        args.len() >= 2,
        parse_storage_spec(storage) is Some,
        lookup(parse_storage_spec(storage).unwrap(), args[0]) is Some,
        encode_spec(new_message(args), password) == Some(data),
        message_fits(args) ==> decode_spec(data, password) == Some(new_message(args)),
    ensures
        record_changed(
            args,
            password,
            storage,
            Ok(
                (
                    "Record changed!"@,
                    Some(
                        WriteSpec::SetStorage(
                            rewrite_text(storage, args[0], Some(record_line(args[0], data))),
                        ),
                    ),
                ),
            ),
        ),
{
    let recs = parse_storage_spec(storage).unwrap();
    let k = args[0];
    let l = record_line(k, data);
    lemma_stored_key(storage, k);
    lemma_encoded_clean(new_message(args), password, data);
    lemma_parse_record_line(k, data);
    lemma_record_line_clean(k, data);
    lemma_rewrite_text(storage, k, Some(l), Some(data));
    lemma_rewrite_records_keeps(recs, k, Some(data));
    let t = rewrite_text(storage, k, Some(l));
    assert(parse_storage_spec(t) == Some(change_key(recs, k, data)));
    if k != login_flag() && secret_separable(args) && message_fits(args) {
        lemma_get_finds(t, args, password, data);
    }
}

/// A record line of a key and encrypted data holds no line break, and it
/// does not end in a carriage return.
proof fn lemma_record_line_clean(k: Seq<char>, d: Seq<char>)
    requires
        !k.contains('\n'),
        !d.contains('\n'),
        !d.contains('\r'),
    ensures
        !record_line(k, d).contains('\n'),
        record_line(k, d).len() > 0,
        record_line(k, d).last() != '\r',
{
    assert(!record_sep().contains('\n')) by {
        if record_sep().contains('\n') {
            let i = choose|i: int| 0 <= i < 5 && record_sep()[i] == '\n';
        }
    }
    crate::text::lemma_concat_contains(k, record_sep(), '\n');
    crate::text::lemma_concat_contains(k + record_sep(), d, '\n');
    if d.len() > 0 {
        assert(record_line(k, d).last() == d.last());
        assert(d.contains(d.last()));
    } else {
        assert(record_line(k, d).last() == ' ');
    }
}

// ---------------------------------------------------------------------------
// Requests
// ---------------------------------------------------------------------------

/// The kind of request and its text, as the daemon reads a request's
/// bytes: the first byte names the kind, the rest is UTF-8 text.
pub open spec fn request_spec(bytes: Seq<u8>) -> Result<(Event, Seq<char>), Failure> {
    if bytes.len() == 0 {
        Err(Failure::EmptyRequest)
    } else if !valid_utf8(bytes.drop_first()) {
        Err(Failure::InvalidUtf8)
    } else {
        Ok((event_of_code(bytes[0]), decode_utf8(bytes.drop_first())))
    }
}

/// Reads the kind and the text of a request.
pub fn parse_request(request: &[u8]) -> (r: Result<(Event, String), Failure>)
    ensures
        r matches Ok((e, t)) ==> request_spec(request@) == Ok::<(Event, Seq<char>), Failure>(
            (e, t@),
        ),
        r matches Err(f) ==> request_spec(request@) == Err::<(Event, Seq<char>), Failure>(f),
{
    if request.len() == 0 {
        return Err(Failure::EmptyRequest);
    }
    let mut rest: Vec<u8> = Vec::new();
    let mut i: usize = 1;
    while i < request.len()
        invariant
            1 <= i <= request.len(),
            rest@ == request@.subrange(1, i as int),
        decreases request.len() - i,
    {
        rest.push(request[i]);
        i = i + 1;
        assert(rest@ =~= request@.subrange(1, i as int));
    }
    assert(rest@ =~= request@.drop_first());
    let event = Event::from(&request[0]);
    match text_from_utf8(rest.as_slice()) {
        None => Err(Failure::InvalidUtf8),
        Some(t) => Ok((event, t)),
    }
}

/// The bytes of the daemon's reply: whether the session is validated, then
/// the answer's UTF-8 bytes.
pub open spec fn frame_spec(validated: bool, text: Seq<char>) -> Seq<u8> {
    seq![if validated { 1u8 } else { 0u8 }] + encode_utf8(text)
}

/// The reply bytes for an answer.
pub fn frame_response(validated: bool, response: &String) -> (v: Vec<u8>)
    ensures
        v@ == frame_spec(validated, response@),
{
    let mut v: Vec<u8> = Vec::new();
    v.push(if validated { 1u8 } else { 0u8 });
    let bytes = response.as_str().as_bytes();
    let mut i: usize = 0;
    let ghost start = v@;
    while i < bytes.len()
        invariant
            i <= bytes@.len(),
            bytes@ == encode_utf8(response@),
            v@ == start + bytes@.subrange(0, i as int),
        decreases bytes.len() - i,
    {
        v.push(bytes[i]);
        i = i + 1;
        assert(v@ =~= start + bytes@.subrange(0, i as int));
    }
    assert(bytes@.subrange(0, i as int) =~= bytes@);
    v
}

/// A text answer with nothing written.
pub open spec fn text_answer(r: Result<Seq<char>, Failure>) -> Result<
    (Seq<char>, Option<WriteSpec>),
    Failure,
> {
    match r {
        Ok(t) => Ok((t, None)),
        Err(f) => Err(f),
    }
}

/// An optional file text as plain values.
pub open spec fn file_view(f: Option<&str>) -> Option<Seq<char>> {
    match f {
        Some(t) => Some(t@),
        None => None,
    }
}

/// The answers the daemon may give to a request of kind `ev` with text
/// `content`, given the files' texts (nothing where a file cannot be read),
/// and the session after it.
pub open spec fn answer_allowed(
    before: SessionView,
    ev: Event,
    content: Seq<char>,
    hash_file: Option<Seq<char>>,
    storage: Option<Seq<char>>,
    after: SessionView,
    r: Result<(Seq<char>, Option<WriteSpec>), Failure>,
) -> bool {
    let args = split(content, piece_sep());
    match ev {
        Event::New => after == before && if before.validated && args.len() >= 2 {
            match storage {
                None => r == Err::<(Seq<char>, Option<WriteSpec>), Failure>(Failure::Unreadable),
                Some(st) => r == new_spec(true, args, before.password, st),
            }
        } else {
            r == new_spec(before.validated, args, before.password, seq![])
        },
        Event::Delete => after == before && if before.validated && args.len() >= 1 {
            match storage {
                None => r == Err::<(Seq<char>, Option<WriteSpec>), Failure>(Failure::Unreadable),
                Some(st) => r == delete_spec(true, args, st),
            }
        } else {
            r == delete_spec(before.validated, args, seq![])
        },
        Event::Change => after == before && if before.validated && args.len() >= 2 {
            match storage {
                None => r == Err::<(Seq<char>, Option<WriteSpec>), Failure>(Failure::Unreadable),
                Some(st) => r == change_spec(true, args, before.password, st),
            }
        } else {
            r == change_spec(before.validated, args, before.password, seq![])
        },
        Event::Get => after == before && if before.validated && without_flag(args).len() > 0 {
            match storage {
                None => r == Err::<(Seq<char>, Option<WriteSpec>), Failure>(Failure::Unreadable),
                Some(st) => r == text_answer(get_spec(true, args, before.password, st)),
            }
        } else {
            r == text_answer(get_spec(before.validated, args, before.password, seq![]))
        },
        Event::Validate => match hash_file {
            None => after == before && r == Err::<(Seq<char>, Option<WriteSpec>), Failure>(
                Failure::Unreadable,
            ),
            Some(h) => after == validate_spec(content, h).0 && r == Ok::<
                (Seq<char>, Option<WriteSpec>),
                Failure,
            >((validate_spec(content, h).1, None)),
        },
        Event::ChangeMP => after == before && r == Ok::<(Seq<char>, Option<WriteSpec>), Failure>(
            change_mp_spec(content, before.validated),
        ),
        Event::Init => after == before && match hash_file {
            None => r == Err::<(Seq<char>, Option<WriteSpec>), Failure>(Failure::Unreadable),
            Some(h) => r == Ok::<(Seq<char>, Option<WriteSpec>), Failure>(init_spec(content, h)),
        },
        Event::List => after == before && match storage {
            None => r == Err::<(Seq<char>, Option<WriteSpec>), Failure>(Failure::Unreadable),
            Some(st) => r == text_answer(
                match list_spec(st) {
                    Some(t) => Ok(t),
                    None => Err(Failure::MalformedStorage),
                },
            ),
        },
    }
}

/// What the daemon sends back for a request, what it adds to its files,
/// and whether the request began a validation (which starts its timeout).
pub struct Reply {
    pub response: String,
    pub bytes: Vec<u8>,
    pub write: Option<FileWrite>,
    pub newly_validated: bool,
}

/// A reply or failure as plain values.
pub open spec fn reply_answer(r: Result<Reply, Failure>) -> Result<
    (Seq<char>, Option<WriteSpec>),
    Failure,
> {
    match r {
        Ok(rep) => Ok((rep.response@, write_view(rep.write))),
        Err(f) => Err(f),
    }
}

/// Serves one request of a client: reads it, lets the handler of its kind
/// answer, and frames the answer behind the session's validation byte.
pub fn client(
    session: &mut Session,
    request: &[u8],
    hash_file: Option<&str>,
    storage: Option<&str>,
) -> (r: Result<Reply, Failure>)
    ensures
        request_spec(request@) matches Err(f) ==> r == Err::<Reply, Failure>(f) && final(session)@
            == old(session)@,
        request_spec(request@) matches Ok((ev, content)) ==> answer_allowed(
            old(session)@,
            ev,
            content,
            file_view(hash_file),
            file_view(storage),
            final(session)@,
            reply_answer(r),
        ),
        request_spec(request@) matches Ok((ev, content)) ==> ev == Event::New
            && old(session)@.validated && storage is Some ==> record_readable(
            split(content, piece_sep()),
            old(session)@.password,
            file_view(storage).unwrap(),
            reply_answer(r),
        ),
        request_spec(request@) matches Ok((ev, content)) ==> ev == Event::Init ==> init_validates(
            content,
            reply_answer(r),
        ),
        request_spec(request@) matches Ok((ev, content)) ==> ev == Event::ChangeMP
            ==> change_validates(content, reply_answer(r)),
        request_spec(request@) matches Ok((ev, content)) ==> ev == Event::Delete
            && old(session)@.validated && storage is Some ==> record_deleted(
            split(content, piece_sep()),
            file_view(storage).unwrap(),
            reply_answer(r),
        ),
        request_spec(request@) matches Ok((ev, content)) ==> ev == Event::Change
            && old(session)@.validated && storage is Some ==> record_changed(
            split(content, piece_sep()),
            old(session)@.password,
            file_view(storage).unwrap(),
            reply_answer(r),
        ),
        r matches Ok(rep) ==> rep.bytes@ == frame_spec(final(session)@.validated, rep.response@),
        r matches Ok(rep) ==> rep.newly_validated == (!old(session)@.validated
            && final(session)@.validated),
{
    let (event, content) = match parse_request(request) {
        Err(f) => {
            return Err(f);
        },
        Ok(p) => p,
    };
    let before = session.validated;
    let content_chars = chars_of(content.as_str());
    let sep = vec!['#', '@', '#'];
    assert(sep@ =~= piece_sep());
    let arg_chars = split_chars(&content_chars, &sep);
    let mut args = strings_of(&arg_chars);
    let ghost av = string_views(args@);
    assert(av == split(content@, piece_sep()));
    let outcome: Outcome = match event {
        Event::New => {
            let res = if session.validated && args.len() >= 2 {
                match storage {
                    None => {
                        return Err(Failure::Unreadable);
                    },
                    Some(st) => handle_new(true, &args, session.valid_password.as_str(), st),
                }
            } else {
                handle_new(session.validated, &args, session.valid_password.as_str(), "")
            };
            match res {
                Err(f) => {
                    return Err(f);
                },
                Ok(o) => o,
            }
        },
        Event::Get => {
            let mut keys = args.clone();
            let _ = has_login_flag(&mut keys);
            let res = if session.validated && keys.len() > 0 {
                match storage {
                    None => {
                        return Err(Failure::Unreadable);
                    },
                    Some(st) => handle_get(true, &mut args, session.valid_password.as_str(), st),
                }
            } else {
                handle_get(session.validated, &mut args, session.valid_password.as_str(), "")
            };
            match res {
                Err(f) => {
                    return Err(f);
                },
                Ok(t) => Outcome { response: t, write: None },
            }
        },
        Event::Validate => match hash_file {
            None => {
                return Err(Failure::Unreadable);
            },
            Some(h) => {
                let t = handle_validate(content.as_str(), session, h);
                Outcome { response: t, write: None }
            },
        },
        Event::ChangeMP => handle_change_mp(content.as_str(), session.validated),
        Event::Init => match hash_file {
            None => {
                return Err(Failure::Unreadable);
            },
            Some(h) => handle_init(content.as_str(), h),
        },
        Event::List => match storage {
            None => {
                return Err(Failure::Unreadable);
            },
            Some(st) => match handle_list(st) {
                None => {
                    return Err(Failure::MalformedStorage);
                },
                Some(t) => Outcome { response: t, write: None },
            },
        },
        Event::Delete => {
            let res = if session.validated && args.len() >= 1 {
                match storage {
                    None => {
                        return Err(Failure::Unreadable);
                    },
                    Some(st) => handle_delete(true, &args, st),
                }
            } else {
                handle_delete(session.validated, &args, "")
            };
            match res {
                Err(f) => {
                    return Err(f);
                },
                Ok(o) => o,
            }
        },
        Event::Change => {
            let res = if session.validated && args.len() >= 2 {
                match storage {
                    None => {
                        return Err(Failure::Unreadable);
                    },
                    Some(st) => handle_change(true, &args, session.valid_password.as_str(), st),
                }
            } else {
                handle_change(session.validated, &args, session.valid_password.as_str(), "")
            };
            match res {
                Err(f) => {
                    return Err(f);
                },
                Ok(o) => o,
            }
        },
    };
    let bytes = frame_response(session.validated, &outcome.response);
    let newly_validated = !before && session.validated;
    Ok(Reply { response: outcome.response, bytes, write: outcome.write, newly_validated })
}

} // verus!
