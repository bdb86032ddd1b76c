//! What provisioning asks its caller to do, and what the caller answers.

use vstd::prelude::*;
use vstd::utf8::encode_utf8;

use super::output::OutputError;
use crate::bytes::{le_bytes, push_all, push_u32_le, to_vec};
use crate::command::{Command, CommandView};
use crate::efi::auth::{AuthError, SecureBootVariable, SECURE_BOOT_VARIABLE_ATTRIBUTES};
use crate::efi::guid::{guid_text, Guid};
use crate::efi::signature_list::ListError;
use crate::path::{join, joined};
use crate::pcr7::PredictError;
use crate::pem::PemError;
use crate::text::{lemma_utf8_ascii, lemma_utf8_concat};
use crate::tpm_key::TpmKeyError;

verus! {

/// Why provisioning stops.
#[derive(Clone, Copy, PartialEq, Eq, Debug, Structural)]
pub enum ProvisionError {
    /// The state directory has no public key of the approver.
    NoApprover,
    /// The public key of a TPM key could not be read from its file.
    TpmKey(TpmKeyError),
    /// A value could not be read from a text.
    Output(OutputError),
    /// A certificate is not in PEM.
    Certificate(PemError),
    /// A certificate does not fit a signature list.
    List(ListError),
    /// A signature does not make an authenticated update.
    Auth(AuthError),
    /// PCR 7 could not be predicted.
    Predict(PredictError),
    /// The Secure Boot variables are too long to be measured.
    TooLarge,
    /// The end of the transition is beyond what the TPM clock can show.
    DeadlineOverflow,
    /// The path of the PK key is not valid UTF-8.
    KeyPath,
    /// The state directory has no certificate of the db key.
    NotAuthorized,
    /// No provider module for TPM keys is configured.
    NoProvider,
    /// The answer is not one to what was asked.
    UnexpectedReply,
}

/// What the caller is asked to do.
pub enum Action {
    /// Say whether there is a file, by [`Reply::Exists`].
    Exists { path: Vec<u8> },
    /// Read a file, by [`Reply::Bytes`].
    Read { path: Vec<u8> },
    /// Read a file of UTF-8 text, by [`Reply::Text`].
    ReadText { path: Vec<u8> },
    /// Read a file if there is one, by [`Reply::Present`].
    ReadIfPresent { path: Vec<u8> },
    /// Write a file, in a single write.
    Write { path: Vec<u8>, contents: Vec<u8> },
    /// Create a directory and those it is in, unless they exist.
    CreateDirectory { path: Vec<u8> },
    /// Run a program that must succeed.
    Run { command: Command },
    /// Run a program that must succeed, and give what it prints by [`Reply::Text`].
    RunForText { command: Command },
    /// Run a program that may fail.
    Attempt { command: Command },
    /// Sign the payload of an update of a variable with `openssl`, and give the `ContentInfo` of
    /// the signature by [`Reply::Bytes`].
    Sign { variable: SecureBootVariable, payload: Vec<u8>, key: String, certificate: Vec<u8> },
    /// Give random bytes, by [`Reply::Random`].
    Random,
    /// Give the `EFI_TIME` of the current time, by [`Reply::Timestamp`].
    Timestamp,
    /// Nothing more: everything is done.
    Finish,
}

/// What an [`Action`] stands for.
#[verifier::ext_equal]
pub enum ActionView {
    Exists { path: Seq<u8> },
    Read { path: Seq<u8> },
    ReadText { path: Seq<u8> },
    ReadIfPresent { path: Seq<u8> },
    Write { path: Seq<u8>, contents: Seq<u8> },
    CreateDirectory { path: Seq<u8> },
    Run { command: CommandView },
    RunForText { command: CommandView },
    Attempt { command: CommandView },
    Sign {
        variable: SecureBootVariable,
        payload: Seq<u8>,
        key: Seq<char>,
        certificate: Seq<u8>,
    },
    Random,
    Timestamp,
    Finish,
}

impl View for Action {
    type V = ActionView;

    open spec fn view(&self) -> ActionView {
        match *self {
            Action::Exists { path } => ActionView::Exists { path: path@ },
            Action::Read { path } => ActionView::Read { path: path@ },
            Action::ReadText { path } => ActionView::ReadText { path: path@ },
            Action::ReadIfPresent { path } => ActionView::ReadIfPresent { path: path@ },
            Action::Write { path, contents } => ActionView::Write {
                path: path@,
                contents: contents@,
            },
            Action::CreateDirectory { path } => ActionView::CreateDirectory { path: path@ },
            Action::Run { command } => ActionView::Run { command: command@ },
            Action::RunForText { command } => ActionView::RunForText { command: command@ },
            Action::Attempt { command } => ActionView::Attempt { command: command@ },
            Action::Sign { variable, payload, key, certificate } => ActionView::Sign {
                variable,
                payload: payload@,
                key: key@,
                certificate: certificate@,
            },
            Action::Random => ActionView::Random,
            Action::Timestamp => ActionView::Timestamp,
            Action::Finish => ActionView::Finish,
        }
    }
}

/// What the caller answers.
pub enum Reply {
    /// It is done. This also starts the provisioning.
    Done,
    Exists(bool),
    Bytes(Vec<u8>),
    Text(String),
    Present(Option<Vec<u8>>),
    Random([u8; 16]),
    Timestamp([u8; 16]),
}

/// What a [`Reply`] stands for.
#[verifier::ext_equal]
pub enum ReplyView {
    Done,
    Exists(bool),
    Bytes(Seq<u8>),
    Text(Seq<char>),
    Present(Option<Seq<u8>>),
    Random(Seq<u8>),
    Timestamp(Seq<u8>),
}

impl View for Reply {
    type V = ReplyView;

    open spec fn view(&self) -> ReplyView {
        match *self {
            Reply::Done => ReplyView::Done,
            Reply::Exists(answer) => ReplyView::Exists(answer),
            Reply::Bytes(bytes) => ReplyView::Bytes(bytes@),
            Reply::Text(text) => ReplyView::Text(text@),
            Reply::Present(Some(bytes)) => ReplyView::Present(Some(bytes@)),
            Reply::Present(None) => ReplyView::Present(None),
            Reply::Random(bytes) => ReplyView::Random(bytes@),
            Reply::Timestamp(bytes) => ReplyView::Timestamp(bytes@),
        }
    }
}

/// Whether a reply answers what was asked.
pub open spec fn answers(reply: ReplyView, action: ActionView) -> bool {
    match action {
        ActionView::Exists { .. } => reply is Exists,
        ActionView::Read { .. } | ActionView::Sign { .. } => reply is Bytes,
        ActionView::ReadText { .. } | ActionView::RunForText { .. } => reply is Text,
        ActionView::ReadIfPresent { .. } => reply is Present,
        ActionView::Random => reply is Random,
        ActionView::Timestamp => reply is Timestamp,
        ActionView::Finish => false,
        _ => reply is Done,
    }
}

/// A key that is held in the TPM.
#[derive(Clone, Copy, PartialEq, Eq, Debug, Structural)]
pub enum Key {
    Kek,
    Db,
}

/// The name of a key.
pub open spec fn key_name(key: Key) -> Seq<char> {
    match key {
        Key::Kek => "KEK"@,
        Key::Db => "db"@,
    }
}

impl Key {
    pub fn name(self) -> (name: &'static str)
        ensures
            name@ == key_name(self),
    {
        match self {
            Key::Kek => "KEK",
            Key::Db => "db",
        }
    }
}

/// The path of a file in a directory whose name is in two parts.
pub open spec fn file_in(directory: Seq<u8>, name: Seq<char>, extension: Seq<char>) -> Seq<u8> {
    joined(directory, encode_utf8(name + extension))
}

/// The path of a file in a directory whose name is in two parts.
pub fn file_path(directory: &[u8], name: &str, extension: &str) -> (path: Vec<u8>)
    ensures
        path@ == file_in(directory@, name@, extension@),
{
    let mut whole: Vec<u8> = to_vec(name.as_bytes());
    push_all(&mut whole, extension.as_bytes());
    proof {
        lemma_utf8_concat(name@, extension@);
    }
    join(directory, whole.as_slice())
}

/// The path of an EFI variable: its name and vendor in efivarfs.
pub open spec fn variable_file(name: Seq<char>, vendor: Seq<u8>) -> Seq<u8> {
    file_in(encode_utf8("/sys/firmware/efi/efivars"@), name + "-"@, guid_text(vendor))
}

/// The path of an EFI variable: its name and vendor in efivarfs.
pub fn variable_path(name: &str, vendor: Guid) -> (path: Vec<u8>)
    ensures
        path@ == variable_file(name@, vendor@),
{
    let mut whole: Vec<u8> = to_vec(name.as_bytes());
    push_all(&mut whole, "-".as_bytes());
    let vendor_text = vendor.to_string();
    push_all(&mut whole, vendor_text.as_str().as_bytes());
    proof {
        lemma_utf8_concat(name@, "-"@);
        lemma_utf8_concat(name@ + "-"@, vendor_text@);
    }
    join("/sys/firmware/efi/efivars".as_bytes(), whole.as_slice())
}

/// The contents of an EFI variable: the file without the attributes before them. A variable that
/// does not exist is as good as an empty one.
pub open spec fn contents_of_variable(file: Option<Seq<u8>>) -> Seq<u8> {
    match file {
        Some(bytes) => if bytes.len() >= 4 {
            bytes.skip(4)
        } else {
            Seq::empty()
        },
        None => Seq::empty(),
    }
}

/// The contents of an EFI variable (without efivarfs' attribute prefix), empty if it does not
/// exist.
pub fn variable_contents(file: Option<Vec<u8>>) -> (contents: Vec<u8>)
    ensures
        contents@ == contents_of_variable(
            match file {
                Some(bytes) => Some(bytes@),
                None => None,
            },
        ),
{
    match file {
        Some(bytes) => {
            if bytes.len() >= 4 {
                let contents = to_vec(vstd::slice::slice_subrange(bytes.as_slice(), 4, bytes.len()));
                assert(contents@ =~= bytes@.skip(4));
                contents
            } else {
                Vec::new()
            }
        },
        None => Vec::new(),
    }
}

/// What is written to an EFI variable to update it: its attributes, then the update.
pub open spec fn variable_write(update: Seq<u8>) -> Seq<u8> {
    le_bytes(SECURE_BOOT_VARIABLE_ATTRIBUTES as nat, 4) + update
}

/// What is written to an EFI variable through efivarfs to update it.
pub fn variable_update(update: &[u8]) -> (contents: Vec<u8>)
    ensures
        contents@ == variable_write(update@),
{
    let mut contents: Vec<u8> = Vec::new();
    push_u32_le(&mut contents, SECURE_BOOT_VARIABLE_ATTRIBUTES);
    push_all(&mut contents, update);
    assert(contents@ =~= variable_write(update@));
    contents
}

/// The contents of a variable are what was written behind its attributes.
pub proof fn law_variable_round_trip(update: Seq<u8>)
    ensures
        contents_of_variable(Some(variable_write(update))) == update,
{
    crate::bytes::lemma_widths(SECURE_BOOT_VARIABLE_ATTRIBUTES as nat, 4);
    assert(variable_write(update).skip(4) =~= update);
}

/// The path of a file whose name is given in two parts is that of the file with the whole name.
pub proof fn law_file_in(directory: Seq<u8>, name: Seq<char>, extension: Seq<char>)
    ensures
        file_in(directory, name, extension) == joined(
            directory,
            encode_utf8(name) + encode_utf8(extension),
        ),
{
    lemma_utf8_concat(name, extension);
}

/// The names of the files of the keys.
pub proof fn law_key_files(dir: Seq<u8>)
    ensures
        key_name(Key::Kek) == seq!['K', 'E', 'K'],
        key_name(Key::Db) == seq!['d', 'b'],
        file_in(dir, key_name(Key::Kek), ".key"@) == joined(dir, encode_utf8("KEK.key"@)),
        file_in(dir, key_name(Key::Kek), ".pub"@) == joined(dir, encode_utf8("KEK.pub"@)),
        file_in(dir, key_name(Key::Kek), ".crt"@) == joined(dir, encode_utf8("KEK.crt"@)),
        file_in(dir, key_name(Key::Db), ".key"@) == joined(dir, encode_utf8("db.key"@)),
        file_in(dir, key_name(Key::Db), ".pub"@) == joined(dir, encode_utf8("db.pub"@)),
        file_in(dir, key_name(Key::Db), ".crt"@) == joined(dir, encode_utf8("db.crt"@)),
        file_in(dir, "PK"@, ".pub"@) == joined(dir, encode_utf8("PK.pub"@)),
{
    reveal_strlit("KEK");
    reveal_strlit("db");
    reveal_strlit("PK");
    reveal_strlit(".key");
    reveal_strlit(".pub");
    reveal_strlit(".crt");
    reveal_strlit("KEK.key");
    reveal_strlit("KEK.pub");
    reveal_strlit("KEK.crt");
    reveal_strlit("db.key");
    reveal_strlit("db.pub");
    reveal_strlit("db.crt");
    reveal_strlit("PK.pub");
    assert("KEK"@ =~= seq!['K', 'E', 'K']);
    assert("db"@ =~= seq!['d', 'b']);
    assert("KEK"@ + ".key"@ =~= "KEK.key"@);
    assert("KEK"@ + ".pub"@ =~= "KEK.pub"@);
    assert("KEK"@ + ".crt"@ =~= "KEK.crt"@);
    assert("db"@ + ".key"@ =~= "db.key"@);
    assert("db"@ + ".pub"@ =~= "db.pub"@);
    assert("db"@ + ".crt"@ =~= "db.crt"@);
    assert("PK"@ + ".pub"@ =~= "PK.pub"@);
}

/// The names of the files that record the state of the machine and what is made of it.
pub proof fn law_record_files(dir: Seq<u8>)
    ensures
        file_in(dir, "dbx"@, ".esl"@) == joined(dir, encode_utf8("dbx.esl"@)),
        file_in(dir, "pcr7"@, ".current"@) == joined(dir, encode_utf8("pcr7.current"@)),
        file_in(dir, "pcr7"@, ".enrolled"@) == joined(dir, encode_utf8("pcr7.enrolled"@)),
        file_in(dir, "clock"@, ".current"@) == joined(dir, encode_utf8("clock.current"@)),
        file_in(dir, "policy."@, "enrolled"@) == joined(dir, encode_utf8("policy.enrolled"@)),
        file_in(dir, "policy."@, "transition"@) == joined(dir, encode_utf8("policy.transition"@)),
        file_in(dir, "PK"@, ".auth"@) == joined(dir, encode_utf8("PK.auth"@)),
        file_in(dir, "KEK"@, ".auth"@) == joined(dir, encode_utf8("KEK.auth"@)),
        file_in(dir, "db"@, ".auth"@) == joined(dir, encode_utf8("db.auth"@)),
{
    reveal_strlit("dbx");
    reveal_strlit(".esl");
    reveal_strlit("dbx.esl");
    reveal_strlit("pcr7");
    reveal_strlit(".current");
    reveal_strlit("pcr7.current");
    reveal_strlit(".enrolled");
    reveal_strlit("pcr7.enrolled");
    reveal_strlit("clock");
    reveal_strlit("clock.current");
    reveal_strlit("policy.");
    reveal_strlit("enrolled");
    reveal_strlit("policy.enrolled");
    reveal_strlit("transition");
    reveal_strlit("policy.transition");
    reveal_strlit("PK");
    reveal_strlit("KEK");
    reveal_strlit("db");
    reveal_strlit(".auth");
    reveal_strlit("PK.auth");
    reveal_strlit("KEK.auth");
    reveal_strlit("db.auth");
    assert("dbx"@ + ".esl"@ =~= "dbx.esl"@);
    assert("pcr7"@ + ".current"@ =~= "pcr7.current"@);
    assert("pcr7"@ + ".enrolled"@ =~= "pcr7.enrolled"@);
    assert("clock"@ + ".current"@ =~= "clock.current"@);
    assert("policy."@ + "enrolled"@ =~= "policy.enrolled"@);
    assert("policy."@ + "transition"@ =~= "policy.transition"@);
    assert("PK"@ + ".auth"@ =~= "PK.auth"@);
    assert("KEK"@ + ".auth"@ =~= "KEK.auth"@);
    assert("db"@ + ".auth"@ =~= "db.auth"@);
}

/// An EFI variable is the file in efivarfs that is named by the variable, a dash, and the text of
/// its vendor.
pub proof fn law_variable_file(name: Seq<char>, vendor: Seq<u8>)
    requires
        name.len() > 0,
        encode_utf8(name)[0] != 0x2f,
        encode_utf8(name).len() > 0,
    ensures
        variable_file(name, vendor) == encode_utf8("/sys/firmware/efi/efivars/"@) + encode_utf8(name)
            + encode_utf8("-"@) + encode_utf8(guid_text(vendor)),
{
    reveal_strlit("/sys/firmware/efi/efivars");
    reveal_strlit("/sys/firmware/efi/efivars/");
    reveal_strlit("-");
    let directory = "/sys/firmware/efi/efivars"@;
    let text = name + "-"@;
    lemma_utf8_concat(text, guid_text(vendor));
    lemma_utf8_concat(name, "-"@);
    lemma_utf8_ascii(directory);
    lemma_utf8_ascii("/sys/firmware/efi/efivars/"@);
    let path = encode_utf8(name) + encode_utf8("-"@) + encode_utf8(guid_text(vendor));
    assert(path == encode_utf8(text + guid_text(vendor)));
    assert(path[0] == encode_utf8(name)[0]);
    assert(encode_utf8(directory).last() == 's' as u8);
    assert(encode_utf8("/sys/firmware/efi/efivars/"@) =~= encode_utf8(directory) + seq!['/' as u8]);
    assert(joined(encode_utf8(directory), path) =~= encode_utf8("/sys/firmware/efi/efivars/"@)
        + encode_utf8(name) + encode_utf8("-"@) + encode_utf8(guid_text(vendor)));
}

/// The contents of a variable are its file without the first four bytes, and nothing where there is
/// no more or no file at all.
pub proof fn law_variable_contents(attributes: Seq<u8>, contents: Seq<u8>, short: Seq<u8>)
    requires
        attributes.len() == 4,
        short.len() <= 4,
    ensures
        contents_of_variable(Some(attributes + contents)) == contents,
        contents_of_variable(Some(short)).len() == 0,
        contents_of_variable(None).len() == 0,
{
    assert((attributes + contents).skip(4) =~= contents);
}

/// What is written to a variable starts with the attributes of a Secure Boot variable, and the
/// update follows.
pub proof fn law_variable_write(update: Seq<u8>)
    ensures
        variable_write(update) == seq![0x27u8, 0, 0, 0] + update,
{
    reveal_with_fuel(le_bytes, 5);
    assert(le_bytes(SECURE_BOOT_VARIABLE_ATTRIBUTES as nat, 4) =~= seq![0x27u8, 0, 0, 0]);
}

} // verus!
