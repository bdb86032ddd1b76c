//! Predict PCR 7 (the Secure Boot policy PCR) for a Secure Boot state, from the contents of its
//! variables rather than from a TPM event log. This works for a state that is not enrolled yet,
//! so a key can be bound to the PCR 7 value a machine will have after enrollment.
//!
//! Firmware extends PCR 7, in order, with the `SecureBoot`, `PK`, `KEK`, `db` and `dbx` variables,
//! a separator, and the `db` entry that authorized the boot loader. Every variable event is an
//! `EFI_VARIABLE_DATA`:
//!
//! ```text
//! VariableName (GUID) | UnicodeNameLength (u64) | VariableDataLength (u64)
//! | UnicodeName (UTF-16LE, unterminated) | VariableData
//! ```
//!
//! and extends the register by `PCR = SHA256(PCR || SHA256(event))`.

use vstd::prelude::*;

use crate::bytes::{
    byte_range, law_byte_ranges, law_le_round_trip, le_bytes, le_value, lemma_widths, push_all,
    push_u32_le, push_u64_le, to_vec, views,
};
use crate::efi::guid::{
    cert_x509_guid, global_variable_guid, image_security_database_guid, lemma_guid_lengths, Guid,
};
use crate::efi::signature_list::{
    find_certificate, first_with_data, law_find_certificate, law_lists_round_trip,
    lemma_entry_sizes, lists_bytes, lists_of, x509_entries, EntryView, ListError,
    ListView, SignatureList,
};
use crate::sha256::{sha256, sha256_digest, MAX_MESSAGE};
use crate::text::{law_utf16_is_injective, law_utf16_of_ascii, to_utf16, utf16};

verus! {

/// Why PCR 7 could not be predicted.
#[derive(Clone, Copy, PartialEq, Eq, Debug, Structural)]
pub enum PredictError {
    /// `db` is not a concatenation of signature lists.
    Db(ListError),
    /// The authorizing certificate is not in `db`.
    NoAuthority,
}

/// The contents of the Secure Boot variables, as enrolled (without efivarfs attribute bytes).
pub struct SecureBootState<'a> {
    pub pk: &'a [u8],
    pub kek: &'a [u8],
    pub db: &'a [u8],
    /// Empty when dbx is not set.
    pub dbx: &'a [u8],
}

/// What a [`SecureBootState`] stands for.
pub struct StateView {
    pub pk: Seq<u8>,
    pub kek: Seq<u8>,
    pub db: Seq<u8>,
    pub dbx: Seq<u8>,
}

impl<'a> View for SecureBootState<'a> {
    type V = StateView;

    open spec fn view(&self) -> StateView {
        StateView { pk: self.pk@, kek: self.kek@, db: self.db@, dbx: self.dbx@ }
    }
}

impl StateView {
    /// Whether the events of the variables are short enough to be hashed.
    pub open spec fn fits(self) -> bool {
        &&& self.pk.len() + 100 <= MAX_MESSAGE
        &&& self.kek.len() + 100 <= MAX_MESSAGE
        &&& self.db.len() + 100 <= MAX_MESSAGE
        &&& self.dbx.len() + 100 <= MAX_MESSAGE
    }
}

impl<'a> SecureBootState<'a> {
    /// Whether the events of the variables are short enough to be hashed.
    pub fn fits(&self) -> (result: bool)
        ensures
            result == self@.fits(),
    {
        let limit: u64 = MAX_MESSAGE - 100;
        self.pk.len() as u64 <= limit && self.kek.len() as u64 <= limit && self.db.len() as u64
            <= limit && self.dbx.len() as u64 <= limit
    }
}

/// The `EFI_VARIABLE_DATA` of a variable.
pub open spec fn variable_data(name: Seq<char>, vendor: Seq<u8>, data: Seq<u8>) -> Seq<u8> {
    vendor + le_bytes(utf16(name).len() / 2, 8) + le_bytes(data.len(), 8) + utf16(name) + data
}

/// What firmware measures into PCR 7 when it boots with Secure Boot enabled and `state` enrolled,
/// and the boot loader is authorized by `authority`.
pub open spec fn boot_events(state: StateView, authority: EntryView) -> Seq<Seq<u8>> {
    seq![
        variable_data("SecureBoot"@, global_variable_guid(), seq![1u8]),
        variable_data("PK"@, global_variable_guid(), state.pk),
        variable_data("KEK"@, global_variable_guid(), state.kek),
        variable_data("db"@, image_security_database_guid(), state.db),
        variable_data("dbx"@, image_security_database_guid(), state.dbx),
        le_bytes(0, 4),
        variable_data("db"@, image_security_database_guid(), authority.bytes()),
    ]
}

/// The `db` entry that holds a certificate.
pub open spec fn authority_in(db: Seq<u8>, certificate: Seq<u8>) -> Result<
    EntryView,
    PredictError,
> {
    match lists_of(db) {
        Err(error) => Err(PredictError::Db(error)),
        Ok(lists) => match first_with_data(x509_entries(lists), certificate) {
            None => Err(PredictError::NoAuthority),
            Some(entry) => Ok(entry),
        },
    }
}

/// The value of a PCR after it is extended with an event.
pub open spec fn extended(pcr: Seq<u8>, event: Seq<u8>) -> Seq<u8> {
    sha256_digest(pcr + sha256_digest(event))
}

/// The value of a PCR after it is extended with events in order.
pub open spec fn replayed(pcr: Seq<u8>, events: Seq<Seq<u8>>) -> Seq<u8>
    decreases events.len(),
{
    if events.len() == 0 {
        pcr
    } else {
        extended(replayed(pcr, events.drop_last()), events.last())
    }
}

/// The value of a PCR at reset.
pub open spec fn reset_value() -> Seq<u8> {
    Seq::new(32, |i: int| 0u8)
}

/// The `EFI_VARIABLE_DATA` of a variable.
pub fn variable_event(name: &str, vendor: Guid, data: &[u8]) -> (out: Vec<u8>)
    ensures
        out@ == variable_data(name@, vendor@, data@),
{
    let name_bytes = to_utf16(name);
    let mut out: Vec<u8> = to_vec(vendor.0.as_slice());
    push_u64_le(&mut out, (name_bytes.len() / 2) as u64);
    push_u64_le(&mut out, data.len() as u64);
    push_all(&mut out, name_bytes.as_slice());
    push_all(&mut out, data);
    out
}

/// What firmware measures into PCR 7, in order, with Secure Boot enabled, `state` enrolled, and
/// the boot loader authorized by the `db` entry holding `authority` (a DER certificate).
pub fn events(state: &SecureBootState, authority: &[u8]) -> (result: Result<
    Vec<Vec<u8>>,
    PredictError,
>)
    ensures
        match result {
            Ok(events) => authority_in(state@.db, authority@) is Ok && views(events@)
                == boot_events(state@, authority_in(state@.db, authority@)->Ok_0),
            Err(error) => authority_in(state@.db, authority@) == Err::<EntryView, PredictError>(
                error,
            ),
        },
{
    let lists = match SignatureList::parse_all(state.db) {
        Ok(lists) => lists,
        Err(error) => {
            return Err(PredictError::Db(error));
        },
    };
    let entry = match find_certificate(lists.as_slice(), authority) {
        Some(entry) => entry,
        None => {
            return Err(PredictError::NoAuthority);
        },
    };
    let enabled: [u8; 1] = [1];
    let mut separator: Vec<u8> = Vec::new();
    // EV_SEPARATOR for a successful boot.
    push_u32_le(&mut separator, 0);
    let mut events: Vec<Vec<u8>> = Vec::new();
    events.push(variable_event("SecureBoot", Guid::global_variable(), enabled.as_slice()));
    events.push(variable_event("PK", Guid::global_variable(), state.pk));
    events.push(variable_event("KEK", Guid::global_variable(), state.kek));
    events.push(variable_event("db", Guid::image_security_database(), state.db));
    events.push(variable_event("dbx", Guid::image_security_database(), state.dbx));
    events.push(separator);
    events.push(
        variable_event("db", Guid::image_security_database(), entry.to_bytes().as_slice()),
    );
    proof {
        assert(enabled@ =~= seq![1u8]);
        assert(separator@ =~= le_bytes(0, 4));
        assert(views(events@) =~= boot_events(state@, entry@));
    }
    Ok(events)
}

/// What is hashed to extend a PCR by the digest of an event.
pub fn extend_message(pcr: &[u8; 32], digest: &[u8; 32]) -> (message: Vec<u8>)
    ensures
        message@ == pcr@ + digest@,
{
    let mut message: Vec<u8> = to_vec(pcr.as_slice());
    push_all(&mut message, digest.as_slice());
    message
}

/// Predict PCR 7 (SHA-256 bank) with Secure Boot enabled, `state` enrolled, and the boot loader
/// authorized by the `db` entry holding `authority` (a DER certificate).
pub fn predict(state: &SecureBootState, authority: &[u8]) -> (result: Result<
    [u8; 32],
    PredictError,
>)
    requires
        state@.fits(),
    ensures
        match result {
            Ok(pcr) => authority_in(state@.db, authority@) is Ok && pcr@ == replayed(
                reset_value(),
                boot_events(state@, authority_in(state@.db, authority@)->Ok_0),
            ),
            Err(error) => authority_in(state@.db, authority@) == Err::<EntryView, PredictError>(
                error,
            ),
        },
{
    let events = match events(state, authority) {
        Ok(events) => events,
        Err(error) => {
            return Err(error);
        },
    };
    let ghost measured = views(events@);
    proof {
        lemma_events_fit(state@, authority@);
    }
    let mut pcr: [u8; 32] = [0;32];
    let mut i: usize = 0;
    assert(pcr@ =~= reset_value());
    assert(measured.take(0) =~= Seq::empty());
    while i < events.len()
        invariant
            i <= events@.len(),
            measured == views(events@),
            forall|j: int| 0 <= j < measured.len() ==> (#[trigger] measured[j]).len() <= MAX_MESSAGE,
            pcr@ == replayed(reset_value(), measured.take(i as int)),
        decreases events@.len() - i,
    {
        assert(measured[i as int] == events@[i as int]@);
        let digest: [u8; 32] = sha256(events[i].as_slice());
        let message = extend_message(&pcr, &digest);
        pcr = sha256(message.as_slice());
        i += 1;
        assert(measured.take(i as int).drop_last() =~= measured.take(i - 1));
    }
    assert(measured.take(i as int) =~= measured);
    Ok(pcr)
}

/// UTF-16 takes at most four bytes for a character.
proof fn lemma_utf16_length(text: Seq<char>)
    ensures
        utf16(text).len() <= 4 * text.len(),
    decreases text.len(),
{
    if text.len() > 0 {
        lemma_utf16_length(text.drop_last());
        let point = text.last() as nat;
        let above = (point - 0x1_0000) as nat;
        lemma_widths(point, 2);
        lemma_widths(0xd800 + above / 0x400, 2);
        lemma_widths(0xdc00 + above % 0x400, 2);
    }
}

/// The events of a state that fits can be hashed.
proof fn lemma_events_fit(state: StateView, authority: Seq<u8>)
    requires
        state.fits(),
        authority_in(state.db, authority) is Ok,
    ensures
        forall|i: int|
            0 <= i < boot_events(state, authority_in(state.db, authority)->Ok_0).len() ==> (
            #[trigger] boot_events(state, authority_in(state.db, authority)->Ok_0)[i]).len()
                <= MAX_MESSAGE,
{
    let entry = authority_in(state.db, authority)->Ok_0;
    let lists = lists_of(state.db)->Ok_0;
    lemma_entry_sizes(state.db);
    law_find_certificate(lists, authority);
    let (i, j) = choose|i: int, j: int|
        0 <= i < lists.len() && 0 <= j < lists[i].entries.len() && lists[i].signature_type
            == cert_x509_guid() && #[trigger] lists[i].entries[j] == entry;
    assert(lists[i].entries[j].bytes().len() <= state.db.len());
    reveal_strlit("SecureBoot");
    reveal_strlit("PK");
    reveal_strlit("KEK");
    reveal_strlit("db");
    reveal_strlit("dbx");
    lemma_variable_data_length("SecureBoot"@, global_variable_guid(), seq![1u8]);
    lemma_variable_data_length("PK"@, global_variable_guid(), state.pk);
    lemma_variable_data_length("KEK"@, global_variable_guid(), state.kek);
    lemma_variable_data_length("db"@, image_security_database_guid(), state.db);
    lemma_variable_data_length("dbx"@, image_security_database_guid(), state.dbx);
    lemma_variable_data_length("db"@, image_security_database_guid(), entry.bytes());
    lemma_widths(0, 4);
    lemma_guid_lengths();
}

proof fn lemma_variable_data_length(name: Seq<char>, vendor: Seq<u8>, data: Seq<u8>)
    ensures
        variable_data(name, vendor, data).len() <= vendor.len() + 16 + 4 * name.len() + data.len(),
{
    lemma_utf16_length(name);
    lemma_widths(utf16(name).len() / 2, 8);
    lemma_widths(data.len(), 8);
}

/// A certificate that an X.509 list of `db` holds can authorize the boot loader, wherever in `db` it
/// is: the entry that is measured holds that certificate.
pub proof fn law_enrolled_certificate_authorizes(
    lists: Seq<ListView>,
    list: int,
    entry: int,
    certificate: Seq<u8>,
)
    requires
        forall|i: int| 0 <= i < lists.len() ==> (#[trigger] lists[i]).is_readable(),
        0 <= list < lists.len(),
        lists[list].signature_type == cert_x509_guid(),
        0 <= entry < lists[list].entries.len(),
        lists[list].entries[entry].data == certificate,
    ensures
        authority_in(lists_bytes(lists), certificate) is Ok,
        authority_in(lists_bytes(lists), certificate)->Ok_0.data == certificate,
{
    law_lists_round_trip(lists);
    law_find_certificate(lists, certificate);
}

/// A certificate that no X.509 list of `db` holds cannot authorize the boot loader.
pub proof fn law_unknown_certificate_is_refused(lists: Seq<ListView>, certificate: Seq<u8>)
    requires
        forall|i: int| 0 <= i < lists.len() ==> (#[trigger] lists[i]).is_readable(),
        forall|i: int, j: int|
            0 <= i < lists.len() && 0 <= j < lists[i].entries.len() && lists[i].signature_type
                == cert_x509_guid() ==> (#[trigger] lists[i].entries[j]).data != certificate,
    ensures
        authority_in(lists_bytes(lists), certificate) == Err::<EntryView, PredictError>(
            PredictError::NoAuthority,
        ),
{
    law_lists_round_trip(lists);
    law_find_certificate(lists, certificate);
}

/// Different variables or contents are measured as different events: the event determines the
/// vendor, the name and the contents.
pub proof fn law_variable_data_is_injective(
    name: Seq<char>,
    vendor: Seq<u8>,
    data: Seq<u8>,
    other_name: Seq<char>,
    other_vendor: Seq<u8>,
    other_data: Seq<u8>,
)
    requires
        vendor.len() == 16,
        other_vendor.len() == 16,
        data.len() <= u64::MAX,
        other_data.len() <= u64::MAX,
        variable_data(name, vendor, data) == variable_data(other_name, other_vendor, other_data),
    ensures
        vendor == other_vendor,
        name == other_name,
        data == other_data,
{
    let event = variable_data(name, vendor, data);
    let other = variable_data(other_name, other_vendor, other_data);
    lemma_widths(utf16(name).len() / 2, 8);
    lemma_widths(utf16(other_name).len() / 2, 8);
    lemma_widths(data.len(), 8);
    lemma_widths(other_data.len(), 8);
    assert(byte_range(8) == 0x1_0000_0000_0000_0000) by {
        reveal_with_fuel(byte_range, 9);
    }
    law_le_round_trip(data.len(), 8);
    law_le_round_trip(other_data.len(), 8);
    assert(event.take(16) =~= vendor);
    assert(other.take(16) =~= other_vendor);
    assert(event.subrange(24, 32) =~= le_bytes(data.len(), 8));
    assert(other.subrange(24, 32) =~= le_bytes(other_data.len(), 8));
    let end = event.len() - data.len();
    assert(event.subrange(32, end) =~= utf16(name));
    assert(other.subrange(32, end) =~= utf16(other_name));
    law_utf16_is_injective(name, other_name);
    assert(event.skip(end) =~= data);
    assert(other.skip(end) =~= other_data);
}

/// Extending a PCR with two runs of events is extending it with the first, then with the second.
pub proof fn law_replay_continues(pcr: Seq<u8>, first: Seq<Seq<u8>>, second: Seq<Seq<u8>>)
    ensures
        replayed(pcr, first + second) == replayed(replayed(pcr, first), second),
    decreases second.len(),
{
    if second.len() == 0 {
        assert(first + second =~= first);
    } else {
        assert((first + second).drop_last() =~= first + second.drop_last());
        law_replay_continues(pcr, first, second.drop_last());
    }
}

/// The event of a variable, byte by byte: the vendor, how many UTF-16 units the name has, how long
/// the contents are, the name, and the contents, all of them.
pub proof fn law_variable_data_layout(name: Seq<char>, vendor: Seq<u8>, data: Seq<u8>)
    requires
        vendor.len() == 16,
        name.len() <= u32::MAX,
        data.len() <= u64::MAX,
    ensures
        ({
            let event = variable_data(name, vendor, data);
            let n = utf16(name).len() as int;
            &&& event.len() == 32 + n + data.len()
            &&& event.take(16) == vendor
            &&& le_value(event.subrange(16, 24)) == n / 2
            &&& le_value(event.subrange(24, 32)) == data.len()
            &&& event.subrange(32, 32 + n) == utf16(name)
            &&& event.skip(32 + n) == data
        }),
{
    let event = variable_data(name, vendor, data);
    let n = utf16(name).len() as int;
    let units = utf16(name).len() / 2;
    lemma_utf16_length(name);
    law_byte_ranges();
    law_le_round_trip(units, 8);
    law_le_round_trip(data.len(), 8);
    assert(event.take(16) =~= vendor);
    assert(event.subrange(16, 24) =~= le_bytes(units, 8));
    assert(event.subrange(24, 32) =~= le_bytes(data.len(), 8));
    assert(event.subrange(32, 32 + n) =~= utf16(name));
    assert(event.skip(32 + n) =~= data);
}

/// The event of a variable with a name of a few ASCII characters, byte by byte.
#[verifier::opaque]
pub open spec fn is_event_of(
    event: Seq<u8>,
    vendor: Seq<u8>,
    name: Seq<u8>,
    data: Seq<u8>,
) -> bool {
    let n = name.len() as int;
    &&& event.len() == 32 + n + data.len()
    &&& event.take(16) == vendor
    &&& 2 * le_value(event.subrange(16, 24)) == n
    &&& le_value(event.subrange(24, 32)) == data.len()
    &&& event.subrange(32, 32 + n) == name
    &&& event.skip(32 + n) == data
}

proof fn lemma_is_event_of(name: Seq<char>, units: Seq<u8>, vendor: Seq<u8>, data: Seq<u8>)
    requires
        vendor.len() == 16,
        name.len() <= 10,
        data.len() <= u64::MAX,
        utf16(name) == units,
        units.len() % 2 == 0,
    ensures
        is_event_of(variable_data(name, vendor, data), vendor, units, data),
{
    reveal(is_event_of);
    law_variable_data_layout(name, vendor, data);
}

/// The names that are measured, in UTF-16.
proof fn lemma_measured_names()
    ensures
        utf16("SecureBoot"@) == seq![
            0x53u8, 0, 0x65, 0, 0x63, 0, 0x75, 0, 0x72, 0, 0x65, 0, 0x42, 0, 0x6f, 0, 0x6f, 0,
            0x74, 0,
        ],
        utf16("PK"@) == seq![0x50u8, 0, 0x4b, 0],
        utf16("KEK"@) == seq![0x4bu8, 0, 0x45, 0, 0x4b, 0],
        utf16("db"@) == seq![0x64u8, 0, 0x62, 0],
        utf16("dbx"@) == seq![0x64u8, 0, 0x62, 0, 0x78, 0],
        "SecureBoot"@.len() == 10,
        "PK"@.len() == 2,
        "KEK"@.len() == 3,
        "db"@.len() == 2,
        "dbx"@.len() == 3,
{
    reveal_strlit("SecureBoot");
    reveal_strlit("PK");
    reveal_strlit("KEK");
    reveal_strlit("db");
    reveal_strlit("dbx");
    law_utf16_of_ascii("SecureBoot"@);
    law_utf16_of_ascii("PK"@);
    law_utf16_of_ascii("KEK"@);
    law_utf16_of_ascii("db"@);
    law_utf16_of_ascii("dbx"@);
    assert(utf16("SecureBoot"@) =~= seq![
        0x53u8, 0, 0x65, 0, 0x63, 0, 0x75, 0, 0x72, 0, 0x65, 0, 0x42, 0, 0x6f, 0, 0x6f, 0, 0x74, 0,
    ]);
    assert(utf16("PK"@) =~= seq![0x50u8, 0, 0x4b, 0]);
    assert(utf16("KEK"@) =~= seq![0x4bu8, 0, 0x45, 0, 0x4b, 0]);
    assert(utf16("db"@) =~= seq![0x64u8, 0, 0x62, 0]);
    assert(utf16("dbx"@) =~= seq![0x64u8, 0, 0x62, 0, 0x78, 0]);
}

/// What firmware measures, event by event: that Secure Boot is enabled, then each variable with its
/// vendor, its name, its whole length and its whole contents, then a separator, and last the `db`
/// entry of the authority with its owner.
pub proof fn law_boot_events(state: StateView, authority: EntryView)
    requires
        state.fits(),
        authority.bytes().len() <= u64::MAX,
    ensures
        ({
            let events = boot_events(state, authority);
            let global = global_variable_guid();
            let database = image_security_database_guid();
            let pk = seq![0x50u8, 0, 0x4b, 0];
            let kek = seq![0x4bu8, 0, 0x45, 0, 0x4b, 0];
            let db = seq![0x64u8, 0, 0x62, 0];
            let dbx = seq![0x64u8, 0, 0x62, 0, 0x78, 0];
            let secure_boot = seq![
                0x53u8, 0, 0x65, 0, 0x63, 0, 0x75, 0, 0x72, 0, 0x65, 0, 0x42, 0, 0x6f, 0, 0x6f, 0,
                0x74, 0,
            ];
            &&& events.len() == 7
            &&& is_event_of(events[0], global, secure_boot, seq![1u8])
            &&& is_event_of(events[1], global, pk, state.pk)
            &&& is_event_of(events[2], global, kek, state.kek)
            &&& is_event_of(events[3], database, db, state.db)
            &&& is_event_of(events[4], database, dbx, state.dbx)
            &&& events[5] == seq![0u8, 0, 0, 0]
            &&& is_event_of(events[6], database, db, authority.owner + authority.data)
        }),
{
    lemma_measured_names();
    lemma_guid_lengths();
    let global = global_variable_guid();
    let database = image_security_database_guid();
    lemma_is_event_of("SecureBoot"@, utf16("SecureBoot"@), global, seq![1u8]);
    lemma_is_event_of("PK"@, utf16("PK"@), global, state.pk);
    lemma_is_event_of("KEK"@, utf16("KEK"@), global, state.kek);
    lemma_is_event_of("db"@, utf16("db"@), database, state.db);
    lemma_is_event_of("dbx"@, utf16("dbx"@), database, state.dbx);
    lemma_is_event_of("db"@, utf16("db"@), database, authority.bytes());
    assert(le_bytes(0, 4) =~= seq![0u8, 0, 0, 0]) by {
        reveal_with_fuel(le_bytes, 5);
    }
}

/// Two states are measured alike only if all their variables are the same, and only with the same
/// `db` entry as the authority: a difference anywhere in a variable shows in the events.
pub proof fn law_states_are_told_apart(
    state: StateView,
    authority: EntryView,
    other: StateView,
    other_authority: EntryView,
)
    requires
        state.fits(),
        other.fits(),
        authority.bytes().len() <= u64::MAX,
        other_authority.bytes().len() <= u64::MAX,
        authority.owner.len() == 16,
        other_authority.owner.len() == 16,
        boot_events(state, authority) == boot_events(other, other_authority),
    ensures
        state.pk == other.pk,
        state.kek == other.kek,
        state.db == other.db,
        state.dbx == other.dbx,
        authority == other_authority,
{
    law_boot_events(state, authority);
    law_boot_events(other, other_authority);
    reveal(is_event_of);
    let both = authority.owner + authority.data;
    assert(both == other_authority.owner + other_authority.data);
    assert(both.take(16) =~= authority.owner);
    assert(both.take(16) =~= other_authority.owner);
    assert(both.skip(16) =~= authority.data);
    assert(both.skip(16) =~= other_authority.data);
}

/// A PCR starts with 32 zeros, keeps its value where nothing is measured, and is extended by an
/// event to the digest of its value and the digest of the event.
pub proof fn law_replay_of_one(pcr: Seq<u8>, event: Seq<u8>)
    ensures
        reset_value().len() == 32,
        forall|i: int| 0 <= i < 32 ==> reset_value()[i] == 0,
        replayed(pcr, Seq::empty()) == pcr,
        replayed(pcr, seq![event]) == sha256_digest(pcr + sha256_digest(event)),
{
    assert(seq![event].drop_last() =~= Seq::<Seq<u8>>::empty());
    assert(replayed(pcr, Seq::<Seq<u8>>::empty()) == pcr);
}

/// An authority is refused where `db` cannot be read, and where it can be read, if and only if no
/// X.509 list of it holds the certificate.
pub proof fn law_authority(db: Seq<u8>, certificate: Seq<u8>)
    ensures
        match authority_in(db, certificate) {
            Ok(entry) => lists_of(db) is Ok && entry.data == certificate && exists|i: int, j: int|
                0 <= i < lists_of(db)->Ok_0.len() && 0 <= j < lists_of(db)->Ok_0[i].entries.len()
                    && lists_of(db)->Ok_0[i].signature_type == cert_x509_guid() && #[trigger] lists_of(
                    db,
                )->Ok_0[i].entries[j] == entry,
            Err(PredictError::Db(error)) => lists_of(db) == Err::<Seq<ListView>, ListError>(error),
            Err(PredictError::NoAuthority) => lists_of(db) is Ok && forall|i: int, j: int|
                0 <= i < lists_of(db)->Ok_0.len() && 0 <= j < lists_of(db)->Ok_0[i].entries.len()
                    && lists_of(db)->Ok_0[i].signature_type == cert_x509_guid() ==> (
                #[trigger] lists_of(db)->Ok_0[i].entries[j]).data != certificate,
        },
{
    if lists_of(db) is Ok {
        law_find_certificate(lists_of(db)->Ok_0, certificate);
    }
}

/// A state can be measured if and only if each of its variables is a hundred bytes shorter than the
/// longest message that can be hashed.
pub proof fn law_state_fits(state: StateView)
    ensures
        state.fits() <==> state.pk.len() <= 0x1fff_ffff_ffff_ff9b && state.kek.len()
            <= 0x1fff_ffff_ffff_ff9b && state.db.len() <= 0x1fff_ffff_ffff_ff9b && state.dbx.len()
            <= 0x1fff_ffff_ffff_ff9b,
{
}

} // verus!
