//! `EFI_SIGNATURE_LIST`: the contents of the `PK`, `KEK`, `db` and `dbx` variables.
//!
//! A variable is a concatenation of lists. Each list holds entries of one signature type and
//! one size:
//!
//! ```text
//! EFI_SIGNATURE_LIST {
//!     SignatureType       GUID
//!     SignatureListSize   u32   (whole list, header included)
//!     SignatureHeaderSize u32   (always 0 for the types used here)
//!     SignatureSize       u32   (one EFI_SIGNATURE_DATA)
//!     SignatureHeader     [u8; SignatureHeaderSize]
//!     Signatures          [EFI_SIGNATURE_DATA { SignatureOwner GUID, SignatureData }]
//! }
//! ```

use vstd::prelude::*;
use vstd::slice::slice_subrange;

use super::guid::{cert_x509_guid, lemma_guid_lengths, Guid};
use crate::bytes::{
    byte_range, equal, law_byte_ranges, law_le_round_trip, le_bytes, le_value,
    lemma_le_bytes_of_value, lemma_widths, push_all, push_u32_le, to_vec, u32_le_at,
};

verus! {

/// Why a signature list could not be written or read.
#[derive(Clone, Copy, PartialEq, Eq, Debug, Structural)]
pub enum ListError {
    /// A signature list needs at least one entry.
    NoEntries,
    /// All entries of a signature list must have the same size.
    UnequalEntries,
    /// The list does not fit its 32-bit size field.
    TooLarge,
    /// The input ends in the header of a list.
    TruncatedHeader,
    /// The list is smaller than its headers, or reaches beyond the input.
    InvalidListSize(u32),
    /// The entries are too small to hold anything but their owner.
    InvalidEntrySize(u32),
    /// The size of the list is not a multiple of its entry size.
    NotMultiple,
}

/// One `EFI_SIGNATURE_DATA`: an owner GUID and the signature itself (e.g. a DER certificate).
#[derive(Clone, PartialEq, Eq, Debug)]
pub struct SignatureData {
    pub owner: Guid,
    pub data: Vec<u8>,
}

/// One `EFI_SIGNATURE_LIST`.
#[derive(Clone, PartialEq, Eq, Debug)]
pub struct SignatureList {
    pub signature_type: Guid,
    pub entries: Vec<SignatureData>,
}

/// What a [`SignatureData`] stands for.
#[verifier::ext_equal]
pub struct EntryView {
    pub owner: Seq<u8>,
    pub data: Seq<u8>,
}

/// What a [`SignatureList`] stands for.
#[verifier::ext_equal]
pub struct ListView {
    pub signature_type: Seq<u8>,
    pub entries: Seq<EntryView>,
}

impl View for SignatureData {
    type V = EntryView;

    open spec fn view(&self) -> EntryView {
        EntryView { owner: self.owner@, data: self.data@ }
    }
}

impl View for SignatureList {
    type V = ListView;

    open spec fn view(&self) -> ListView {
        ListView { signature_type: self.signature_type@, entries: entry_views(self.entries@) }
    }
}

/// What a sequence of entries stands for.
pub open spec fn entry_views(entries: Seq<SignatureData>) -> Seq<EntryView> {
    entries.map_values(|entry: SignatureData| entry@)
}

/// What a sequence of lists stands for.
pub open spec fn list_views(lists: Seq<SignatureList>) -> Seq<ListView> {
    lists.map_values(|list: SignatureList| list@)
}

impl EntryView {
    /// The entry as it is laid out in a list.
    pub open spec fn bytes(self) -> Seq<u8> {
        self.owner + self.data
    }

    /// The size of the entry: 16 bytes of owner, and the data.
    pub open spec fn size(self) -> nat {
        16 + self.data.len()
    }
}

/// Entries one after the other.
pub open spec fn entries_bytes(entries: Seq<EntryView>) -> Seq<u8>
    decreases entries.len(),
{
    if entries.len() == 0 {
        Seq::empty()
    } else {
        entries_bytes(entries.drop_last()) + entries.last().bytes()
    }
}

impl ListView {
    /// A list of a single X.509 certificate.
    pub open spec fn x509(owner: Seq<u8>, certificate: Seq<u8>) -> ListView {
        ListView {
            signature_type: cert_x509_guid(),
            entries: seq![EntryView { owner, data: certificate }],
        }
    }

    /// The size of the list: 28 bytes of header, and the entries.
    pub open spec fn size(self) -> nat {
        28 + self.entries[0].size() * self.entries.len()
    }

    /// Whether all entries have the size of the first.
    pub open spec fn is_even(self) -> bool {
        forall|i: int|
            0 <= i < self.entries.len() ==> (#[trigger] self.entries[i]).size()
                == self.entries[0].size()
    }

    /// The list as it is laid out in a variable.
    pub open spec fn bytes(self) -> Result<Seq<u8>, ListError> {
        if self.entries.len() == 0 {
            Err(ListError::NoEntries)
        } else if !self.is_even() {
            Err(ListError::UnequalEntries)
        } else if self.size() > u32::MAX {
            Err(ListError::TooLarge)
        } else {
            Ok(
                self.signature_type + le_bytes(self.size(), 4) + le_bytes(0, 4) + le_bytes(
                    self.entries[0].size(),
                    4,
                ) + entries_bytes(self.entries),
            )
        }
    }
}

/// The entries of `size` bytes each that make up a list body.
pub open spec fn entries_of(body: Seq<u8>, size: nat) -> Seq<EntryView>
    decreases body.len(),
{
    if size == 0 || body.len() < size {
        Seq::empty()
    } else {
        seq![EntryView { owner: body.take(16), data: body.subrange(16, size as int) }] + entries_of(
            body.skip(size as int),
            size,
        )
    }
}

/// The `SignatureListSize` of the list at the start of `data`.
pub open spec fn list_size(data: Seq<u8>) -> nat {
    le_value(data.subrange(16, 20))
}

/// The `SignatureHeaderSize` of the list at the start of `data`.
pub open spec fn header_size(data: Seq<u8>) -> nat {
    le_value(data.subrange(20, 24))
}

/// The `SignatureSize` of the list at the start of `data`.
pub open spec fn entry_size(data: Seq<u8>) -> nat {
    le_value(data.subrange(24, 28))
}

/// The list at the start of `data`.
pub open spec fn list_at_start(data: Seq<u8>) -> Result<ListView, ListError> {
    if data.len() < 28 {
        Err(ListError::TruncatedHeader)
    } else if !(28 + header_size(data) <= list_size(data) <= data.len()) {
        Err(ListError::InvalidListSize(list_size(data) as u32))
    } else if entry_size(data) <= 16 {
        Err(ListError::InvalidEntrySize(entry_size(data) as u32))
    } else if (list_size(data) - 28 - header_size(data)) % (entry_size(data) as int) != 0 {
        Err(ListError::NotMultiple)
    } else {
        Ok(
            ListView {
                signature_type: data.take(16),
                entries: entries_of(
                    data.subrange(28 + header_size(data) as int, list_size(data) as int),
                    entry_size(data),
                ),
            },
        )
    }
}

/// The lists that make up the contents of a variable.
pub open spec fn lists_of(data: Seq<u8>) -> Result<Seq<ListView>, ListError>
    decreases data.len(),
{
    if data.len() == 0 {
        Ok(Seq::empty())
    } else {
        match list_at_start(data) {
            Err(error) => Err(error),
            Ok(list) => match lists_of(data.skip(list_size(data) as int)) {
                Err(error) => Err(error),
                Ok(rest) => Ok(seq![list] + rest),
            },
        }
    }
}

/// The entries of all X.509 lists, in order.
pub open spec fn x509_entries(lists: Seq<ListView>) -> Seq<EntryView>
    decreases lists.len(),
{
    if lists.len() == 0 {
        Seq::empty()
    } else if lists.last().signature_type == cert_x509_guid() {
        x509_entries(lists.drop_last()) + lists.last().entries
    } else {
        x509_entries(lists.drop_last())
    }
}

/// The first entry that holds `data`.
pub open spec fn first_with_data(entries: Seq<EntryView>, data: Seq<u8>) -> Option<EntryView>
    decreases entries.len(),
{
    if entries.len() == 0 {
        None
    } else if entries.first().data == data {
        Some(entries.first())
    } else {
        first_with_data(entries.drop_first(), data)
    }
}

impl SignatureData {
    /// The entry as it is laid out in a list, and as firmware measures it into PCR 7 when it
    /// authorizes a boot binary (`EV_EFI_VARIABLE_AUTHORITY`).
    pub fn to_bytes(&self) -> (out: Vec<u8>)
        ensures
            out@ == self@.bytes(),
    {
        let mut out: Vec<u8> = to_vec(self.owner.0.as_slice());
        push_all(&mut out, self.data.as_slice());
        out
    }
}

impl SignatureList {
    /// A list with a single X.509 certificate (DER), as used for `PK`, `KEK` and `db` entries.
    pub fn x509(owner: Guid, certificate_der: Vec<u8>) -> (list: SignatureList)
        ensures
            list@ == ListView::x509(owner@, certificate_der@),
    {
        let mut entries: Vec<SignatureData> = Vec::new();
        entries.push(SignatureData { owner, data: certificate_der });
        let list = SignatureList { signature_type: Guid::cert_x509(), entries };
        assert(list@.entries =~= seq![EntryView { owner: owner@, data: certificate_der@ }]);
        list
    }

    /// The list as it is laid out in a variable.
    pub fn to_bytes(&self) -> (result: Result<Vec<u8>, ListError>)
        ensures
            match result {
                Ok(bytes) => self@.bytes() == Ok::<Seq<u8>, ListError>(bytes@),
                Err(error) => self@.bytes() == Err::<Seq<u8>, ListError>(error),
            },
    {
        let count: usize = self.entries.len();
        if count == 0 {
            return Err(ListError::NoEntries);
        }
        let length: usize = self.entries[0].data.len();
        let mut i: usize = 0;
        while i < count
            invariant
                i <= count == self.entries@.len(),
                count > 0,
                length == self.entries@[0].data@.len(),
                forall|j: int| 0 <= j < i ==> (#[trigger] self.entries@[j]).data@.len() == length,
            decreases count - i,
        {
            if self.entries[i].data.len() != length {
                assert(self@.entries[i as int].size() != self@.entries[0].size());
                return Err(ListError::UnequalEntries);
            }
            i += 1;
        }
        assert forall|j: int| 0 <= j < count implies (#[trigger] self@.entries[j]).size()
            == self@.entries[0].size() by {
            assert(self.entries@[j].data@.len() == length);
        }
        proof {
            assert((16 + length) * count >= 16 + length && (16 + length) * count >= count)
                by (nonlinear_arith)
                requires
                    count > 0,
            ;
        }
        if length > u32::MAX as usize || count > u32::MAX as usize {
            return Err(ListError::TooLarge);
        }
        assert((16 + length) * count <= 0x1_0000_000f * 0xffff_ffff) by (nonlinear_arith)
            requires
                length <= 0xffff_ffff,
                count <= 0xffff_ffff,
        ;
        let total: u128 = 28 + (16 + length as u128) * count as u128;
        if total > u32::MAX as u128 {
            return Err(ListError::TooLarge);
        }
        let mut out: Vec<u8> = to_vec(self.signature_type.0.as_slice());
        push_u32_le(&mut out, total as u32);
        push_u32_le(&mut out, 0);
        push_u32_le(&mut out, 16 + length as u32);
        let ghost header = out@;
        let mut i: usize = 0;
        assert(header + entries_bytes(self@.entries.take(0)) =~= header);
        while i < count
            invariant
                i <= count == self.entries@.len(),
                out@ == header + entries_bytes(self@.entries.take(i as int)),
            decreases count - i,
        {
            push_all(&mut out, self.entries[i].to_bytes().as_slice());
            i += 1;
            proof {
                let done = self@.entries.take(i as int);
                assert(done.drop_last() =~= self@.entries.take(i - 1));
                assert(out@ =~= header + entries_bytes(done));
            }
        }
        assert(self@.entries.take(count as int) =~= self@.entries);
        Ok(out)
    }
}

impl SignatureList {
    /// The list at the start of `data`.
    fn parse(data: &[u8]) -> (result: Result<SignatureList, ListError>)
        ensures
            match result {
                Ok(list) => list_at_start(data@) == Ok::<ListView, ListError>(list@),
                Err(error) => list_at_start(data@) == Err::<ListView, ListError>(error),
            },
    {
        if data.len() < 28 {
            return Err(ListError::TruncatedHeader);
        }
        let list_size: u32 = u32_le_at(data, 16);
        let header_size: u32 = u32_le_at(data, 20);
        let entry_size: u32 = u32_le_at(data, 24);
        if list_size < 28 || list_size as usize > data.len() || header_size > list_size - 28 {
            return Err(ListError::InvalidListSize(list_size));
        }
        if entry_size <= 16 {
            return Err(ListError::InvalidEntrySize(entry_size));
        }
        if (list_size - 28 - header_size) % entry_size != 0 {
            return Err(ListError::NotMultiple);
        }
        let body = slice_subrange(data, (28 + header_size) as usize, list_size as usize);
        let entries = read_entries(body, entry_size as usize);
        let signature_type = Guid::from_sixteen(slice_subrange(data, 0, 16));
        let list = SignatureList { signature_type, entries };
        assert(list@.signature_type =~= data@.take(16));
        Ok(list)
    }

    /// The lists that make up the contents of a variable.
    pub fn parse_all(data: &[u8]) -> (result: Result<Vec<SignatureList>, ListError>)
        ensures
            match result {
                Ok(lists) => lists_of(data@) == Ok::<Seq<ListView>, ListError>(list_views(lists@)),
                Err(error) => lists_of(data@) == Err::<Seq<ListView>, ListError>(error),
            },
    {
        let mut lists: Vec<SignatureList> = Vec::new();
        let mut offset: usize = 0;
        assert(data@.skip(0) =~= data@);
        while offset < data.len()
            invariant
                offset <= data@.len(),
                data@.len() == data.len(),
                match lists_of(data@.skip(offset as int)) {
                    Ok(rest) => lists_of(data@) == Ok::<Seq<ListView>, ListError>(
                        list_views(lists@) + rest,
                    ),
                    Err(error) => lists_of(data@) == Err::<Seq<ListView>, ListError>(error),
                },
            decreases data.len() - offset,
        {
            let rest = slice_subrange(data, offset, data.len());
            assert(rest@ =~= data@.skip(offset as int));
            match SignatureList::parse(rest) {
                Err(error) => {
                    return Err(error);
                },
                Ok(list) => {
                    let size: u32 = u32_le_at(rest, 16);
                    let ghost done = list_views(lists@);
                    lists.push(list);
                    proof {
                        assert(list_views(lists@) =~= done + seq![list@]);
                        assert(rest@.skip(size as int) =~= data@.skip(offset + size));
                        if let Ok(tail) = lists_of(rest@.skip(size as int)) {
                            assert(done + (seq![list@] + tail) =~= list_views(lists@) + tail);
                        }
                    }
                    offset += size as usize;
                },
            }
        }
        assert(list_views(lists@) + Seq::<ListView>::empty() =~= list_views(lists@));
        Ok(lists)
    }
}

/// The entries of `size` bytes each that make up a list body.
fn read_entries(body: &[u8], size: usize) -> (entries: Vec<SignatureData>)
    requires
        size > 16,
    ensures
        entry_views(entries@) == entries_of(body@, size as nat),
{
    let mut entries: Vec<SignatureData> = Vec::new();
    let mut offset: usize = 0;
    assert(body@.skip(0) =~= body@);
    assert(entry_views(entries@) + entries_of(body@, size as nat) =~= entries_of(
        body@,
        size as nat,
    ));
    while body.len() - offset >= size
        invariant
            size > 16,
            offset <= body@.len(),
            body@.len() == body.len(),
            entries_of(body@, size as nat) == entry_views(entries@) + entries_of(
                body@.skip(offset as int),
                size as nat,
            ),
        decreases body.len() - offset,
    {
        let ghost done = entry_views(entries@);
        let ghost rest = body@.skip(offset as int);
        let entry = read_entry(slice_subrange(body, offset, offset + size));
        entries.push(entry);
        proof {
            assert(entry_views(entries@) =~= done + seq![entry@]);
            assert(entry@.owner =~= rest.take(16));
            assert(entry@.data =~= rest.subrange(16, size as int));
            assert(rest.skip(size as int) =~= body@.skip(offset + size));
            let tail = entries_of(rest.skip(size as int), size as nat);
            assert(done + (seq![entry@] + tail) =~= entry_views(entries@) + tail);
        }
        offset += size;
    }
    assert(entry_views(entries@) + Seq::<EntryView>::empty() =~= entry_views(entries@));
    entries
}

/// A single entry.
fn read_entry(bytes: &[u8]) -> (entry: SignatureData)
    requires
        bytes@.len() > 16,
    ensures
        entry@ == (EntryView {
            owner: bytes@.take(16),
            data: bytes@.subrange(16, bytes@.len() as int),
        }),
{
    let entry = SignatureData {
        owner: Guid::from_sixteen(slice_subrange(bytes, 0, 16)),
        data: to_vec(slice_subrange(bytes, 16, bytes.len())),
    };
    assert(entry@.owner =~= bytes@.take(16));
    entry
}

/// The first X.509 entry holding exactly `certificate_der` in any list.
pub fn find_certificate<'a>(lists: &'a [SignatureList], certificate_der: &[u8]) -> (result: Option<
    &'a SignatureData,
>)
    ensures
        match result {
            Some(entry) => first_with_data(x509_entries(list_views(lists@)), certificate_der@)
                == Some(entry@),
            None => first_with_data(x509_entries(list_views(lists@)), certificate_der@) is None,
        },
{
    let ghost views = list_views(lists@);
    let mut i: usize = 0;
    assert(x509_entries(views.take(0)) =~= Seq::empty());
    while i < lists.len()
        invariant
            i <= lists@.len(),
            lists@.len() == lists.len(),
            views == list_views(lists@),
            first_with_data(x509_entries(views.take(i as int)), certificate_der@) is None,
        decreases lists.len() - i,
    {
        let list = &lists[i];
        let ghost before = x509_entries(views.take(i as int));
        assert(views.take(i + 1).drop_last() =~= views.take(i as int));
        if list.signature_type == Guid::cert_x509() {
            let mut j: usize = 0;
            assert(before + list@.entries.take(0) =~= before);
            while j < list.entries.len()
                invariant
                    i < lists@.len(),
                    list == lists@[i as int],
                    j <= list.entries@.len(),
                    views == list_views(lists@),
                    list@.signature_type == cert_x509_guid(),
                    views.take(i + 1).drop_last() == views.take(i as int),
                    before == x509_entries(views.take(i as int)),
                    first_with_data(before + list@.entries.take(j as int), certificate_der@)
                        is None,
                decreases list.entries.len() - j,
            {
                let entry = &list.entries[j];
                let ghost passed = before + list@.entries.take(j as int);
                if equal(entry.data.as_slice(), certificate_der) {
                    proof {
                        let rest = list@.entries.skip(j as int);
                        assert(passed + rest =~= x509_entries(views.take(i + 1)));
                        assert(views =~= views.take(i + 1) + views.skip(i + 1));
                        lemma_x509_entries(views.take(i + 1), views.skip(i + 1));
                        let tail = rest + x509_entries(views.skip(i + 1));
                        assert(passed + tail =~= x509_entries(views));
                        lemma_first_with_data(passed, tail, certificate_der@);
                        assert(tail.first() == entry@);
                    }
                    return Some(entry);
                }
                proof {
                    assert(before + list@.entries.take(j + 1) =~= passed + seq![entry@]);
                    lemma_first_with_data(passed, seq![entry@], certificate_der@);
                    assert(first_with_data(seq![entry@].drop_first(), certificate_der@) is None);
                }
                j += 1;
            }
            assert(list@.entries.take(j as int) =~= list@.entries);
        }
        i += 1;
    }
    assert(views.take(i as int) =~= views);
    None
}

/// The X.509 entries of two runs of lists are those of the first, then those of the second.
proof fn lemma_x509_entries(a: Seq<ListView>, b: Seq<ListView>)
    ensures
        x509_entries(a + b) == x509_entries(a) + x509_entries(b),
    decreases b.len(),
{
    if b.len() == 0 {
        assert(a + b =~= a);
        assert(x509_entries(a) + x509_entries(b) =~= x509_entries(a));
    } else {
        assert((a + b).drop_last() =~= a + b.drop_last());
        lemma_x509_entries(a, b.drop_last());
        assert(x509_entries(a + b) =~= x509_entries(a) + x509_entries(b));
    }
}

/// The search goes on in the second run where the first holds no match.
proof fn lemma_first_with_data(a: Seq<EntryView>, b: Seq<EntryView>, data: Seq<u8>)
    ensures
        first_with_data(a + b, data) == (match first_with_data(a, data) {
            Some(entry) => Some(entry),
            None => first_with_data(b, data),
        }),
    decreases a.len(),
{
    if a.len() == 0 {
        assert(a + b =~= b);
    } else {
        assert((a + b).drop_first() =~= a.drop_first() + b);
        lemma_first_with_data(a.drop_first(), b, data);
    }
}

impl ListView {
    /// Whether the GUIDs have the size of GUIDs.
    pub open spec fn has_guids(self) -> bool {
        &&& self.signature_type.len() == 16
        &&& forall|i: int| 0 <= i < self.entries.len() ==> (#[trigger] self.entries[i]).owner.len() == 16
    }

    /// Whether the list can be written, and its entries hold more than their owner.
    pub open spec fn is_readable(self) -> bool {
        &&& self.has_guids()
        &&& self.bytes() is Ok
        &&& self.entries[0].data.len() > 0
    }
}

/// Entries that were read have GUIDs for owners, and are shorter than what they were read from.
pub proof fn lemma_entry_sizes(data: Seq<u8>)
    requires
        lists_of(data) is Ok,
    ensures
        forall|i: int, j: int|
            0 <= i < lists_of(data)->Ok_0.len() && 0 <= j < lists_of(data)->Ok_0[i].entries.len()
                ==> (#[trigger] lists_of(data)->Ok_0[i].entries[j]).bytes().len() <= data.len(),
    decreases data.len(),
{
    if data.len() > 0 {
        let rest = data.skip(list_size(data) as int);
        let first = list_at_start(data)->Ok_0;
        lemma_entry_sizes(rest);
        let body = data.subrange(28 + header_size(data) as int, list_size(data) as int);
        lemma_entries_rewrite(body, entry_size(data));
        assert forall|i: int, j: int|
            0 <= i < lists_of(data)->Ok_0.len() && 0 <= j < lists_of(data)->Ok_0[i].entries.len()
                implies (#[trigger] lists_of(data)->Ok_0[i].entries[j]).bytes().len()
            <= data.len() by {
            if i == 0 {
                assert(first.entries[j].size() == entry_size(data));
                assert(entry_size(data) * first.entries.len() >= entry_size(data))
                    by (nonlinear_arith)
                    requires
                        first.entries.len() > 0,
                ;
            } else {
                assert(lists_of(rest)->Ok_0[i - 1].entries[j].bytes().len() <= rest.len());
            }
        }
    }
}

/// Lists one after the other, as the contents of a variable.
pub open spec fn lists_bytes(lists: Seq<ListView>) -> Seq<u8>
    decreases lists.len(),
{
    if lists.len() == 0 {
        Seq::empty()
    } else {
        lists.first().bytes()->Ok_0 + lists_bytes(lists.drop_first())
    }
}

/// Entries from the front.
proof fn lemma_entries_bytes(entries: Seq<EntryView>)
    requires
        entries.len() > 0,
    ensures
        entries_bytes(entries) == entries.first().bytes() + entries_bytes(entries.drop_first()),
    decreases entries.len(),
{
    if entries.len() == 1 {
        assert(entries.drop_last() =~= Seq::empty());
        assert(entries.drop_first() =~= Seq::empty());
        assert(entries_bytes(entries.drop_last()) =~= Seq::empty());
        assert(entries.last() == entries.first());
        assert(entries_bytes(entries) =~= entries.first().bytes());
        assert(entries.first().bytes() + entries_bytes(entries.drop_first())
            =~= entries.first().bytes());
    } else {
        let middle = entries.drop_last().drop_first();
        assert(middle =~= entries.drop_first().drop_last());
        lemma_entries_bytes(entries.drop_last());
        assert(entries_bytes(entries.drop_first()) == entries_bytes(middle)
            + entries.last().bytes());
        assert(entries_bytes(entries) =~= entries.first().bytes() + entries_bytes(
            entries.drop_first(),
        ));
    }
}

/// Entries of one size are read back from their bytes.
proof fn lemma_entries_round_trip(entries: Seq<EntryView>, size: nat)
    requires
        size > 16,
        forall|i: int|
            0 <= i < entries.len() ==> (#[trigger] entries[i]).size() == size
                && entries[i].owner.len() == 16,
    ensures
        entries_bytes(entries).len() == size * entries.len(),
        entries_of(entries_bytes(entries), size) == entries,
    decreases entries.len(),
{
    if entries.len() == 0 {
        assert(size * entries.len() == 0) by (nonlinear_arith)
            requires
                entries.len() == 0,
        ;
    } else {
        let first = entries.first();
        let rest = entries.drop_first();
        let body = entries_bytes(entries);
        assert forall|i: int| 0 <= i < rest.len() implies (#[trigger] rest[i]).size() == size
            && rest[i].owner.len() == 16 by {
            assert(rest[i] == entries[i + 1]);
        }
        lemma_entries_round_trip(rest, size);
        lemma_entries_bytes(entries);
        assert(first == entries[0]);
        assert(body.skip(size as int) =~= entries_bytes(rest));
        assert(body.take(16) =~= first.owner);
        assert(body.subrange(16, size as int) =~= first.data);
        assert(seq![first] + rest =~= entries);
        assert(size * entries.len() == size + size * rest.len()) by (nonlinear_arith)
            requires
                entries.len() == rest.len() + 1,
        ;
    }
}

/// A body that is a whole number of entries is their bytes.
proof fn lemma_entries_rewrite(body: Seq<u8>, size: nat)
    requires
        size > 16,
        body.len() % size == 0,
    ensures
        entries_bytes(entries_of(body, size)) == body,
        size * entries_of(body, size).len() == body.len(),
        forall|i: int|
            0 <= i < entries_of(body, size).len() ==> (#[trigger] entries_of(body, size)[i]).size()
                == size && entries_of(body, size)[i].owner.len() == 16,
    decreases body.len(),
{
    let entries = entries_of(body, size);
    if body.len() < size {
        assert(body.len() == 0) by (nonlinear_arith)
            requires
                body.len() < size,
                body.len() % size == 0,
        ;
        assert(size * entries.len() == 0) by (nonlinear_arith)
            requires
                entries.len() == 0,
        ;
        assert(entries_bytes(entries) =~= body);
    } else {
        let rest = body.skip(size as int);
        assert(rest.len() % size == 0) by (nonlinear_arith)
            requires
                body.len() % size == 0,
                rest.len() == body.len() - size,
                size > 0,
        ;
        lemma_entries_rewrite(rest, size);
        let tail = entries_of(rest, size);
        assert(entries.drop_first() =~= tail);
        lemma_entries_bytes(entries);
        assert(entries_bytes(entries) =~= body);
        assert(size * entries.len() == size + size * tail.len()) by (nonlinear_arith)
            requires
                entries.len() == tail.len() + 1,
        ;
        assert forall|i: int| 0 <= i < entries.len() implies (#[trigger] entries[i]).size() == size
            && entries[i].owner.len() == 16 by {
            if i > 0 {
                assert(entries[i] == tail[i - 1]);
            }
        }
    }
}

/// A list that was written is read back from the start of what follows.
proof fn lemma_list_round_trip(list: ListView, rest: Seq<u8>)
    requires
        list.is_readable(),
    ensures
        list_at_start(list.bytes()->Ok_0 + rest) == Ok::<ListView, ListError>(list),
        list_size(list.bytes()->Ok_0 + rest) == list.bytes()->Ok_0.len(),
        list.bytes()->Ok_0.len() >= 28,
{
    let size = list.entries[0].size();
    let bytes = list.bytes()->Ok_0;
    let data = bytes + rest;
    assert forall|i: int| 0 <= i < list.entries.len() implies (#[trigger] list.entries[i]).size()
        == size && list.entries[i].owner.len() == 16 by {}
    lemma_entries_round_trip(list.entries, size);
    assert(size <= list.size()) by {
        assert(size * list.entries.len() >= size) by (nonlinear_arith)
            requires
                list.entries.len() > 0,
        ;
    }
    lemma_widths(list.size(), 4);
    lemma_widths(0, 4);
    lemma_widths(size, 4);
    assert(byte_range(4) == 0x1_0000_0000) by {
        reveal_with_fuel(byte_range, 5);
    }
    law_le_round_trip(list.size(), 4);
    law_le_round_trip(0, 4);
    law_le_round_trip(size, 4);
    assert(data.take(16) =~= list.signature_type);
    assert(data.subrange(16, 20) =~= le_bytes(list.size(), 4));
    assert(data.subrange(20, 24) =~= le_bytes(0, 4));
    assert(data.subrange(24, 28) =~= le_bytes(size, 4));
    assert(data.subrange(28, list.size() as int) =~= entries_bytes(list.entries));
    assert((size * list.entries.len()) % size == 0) by (nonlinear_arith)
        requires
            size > 0,
    ;
}

/// Reading what was written gives the lists back, whatever their number and sizes. The entries
/// hold at least one byte besides their owner: reading refuses emptier ones.
pub proof fn law_lists_round_trip(lists: Seq<ListView>)
    requires
        forall|i: int| 0 <= i < lists.len() ==> (#[trigger] lists[i]).is_readable(),
    ensures
        lists_of(lists_bytes(lists)) == Ok::<Seq<ListView>, ListError>(lists),
    decreases lists.len(),
{
    if lists.len() == 0 {
        assert(lists =~= Seq::empty());
    } else {
        let first = lists.first();
        let rest = lists.drop_first();
        assert(first == lists[0]);
        assert forall|i: int| 0 <= i < rest.len() implies (#[trigger] rest[i]).is_readable() by {
            assert(rest[i] == lists[i + 1]);
        }
        law_lists_round_trip(rest);
        lemma_list_round_trip(first, lists_bytes(rest));
        let data = lists_bytes(lists);
        assert(data.skip(list_size(data) as int) =~= lists_bytes(rest));
        assert(seq![first] + rest =~= lists);
    }
}

/// Reading loses nothing: a list with entries and without a signature header is written again
/// byte for byte.
pub proof fn law_list_rewrite(data: Seq<u8>)
    requires
        list_at_start(data) is Ok,
        header_size(data) == 0,
        list_size(data) > 28,
    ensures
        list_at_start(data)->Ok_0.bytes() == Ok::<Seq<u8>, ListError>(
            data.take(list_size(data) as int),
        ),
{
    let list = list_at_start(data)->Ok_0;
    let size = entry_size(data);
    let body = data.subrange(28, list_size(data) as int);
    lemma_entries_rewrite(body, size);
    assert(list.entries.len() > 0) by {
        assert(size * list.entries.len() == 0 <== list.entries.len() == 0) by (nonlinear_arith);
    }
    assert(list.entries[0].size() == size);
    assert(list.is_even());
    assert(list.size() == list_size(data));
    lemma_le_bytes_of_value(data.subrange(16, 20));
    lemma_le_bytes_of_value(data.subrange(20, 24));
    lemma_le_bytes_of_value(data.subrange(24, 28));
    assert(byte_range(4) == 0x1_0000_0000) by {
        reveal_with_fuel(byte_range, 5);
    }
    assert(list.bytes()->Ok_0 =~= data.take(list_size(data) as int));
}

/// A certificate is found if and only if some X.509 list has an entry that holds it, and what is
/// found is such an entry.
pub proof fn law_find_certificate(lists: Seq<ListView>, certificate: Seq<u8>)
    ensures
        match first_with_data(x509_entries(lists), certificate) {
            Some(entry) => entry.data == certificate && exists|i: int, j: int|
                0 <= i < lists.len() && 0 <= j < lists[i].entries.len() && lists[i].signature_type
                    == cert_x509_guid() && #[trigger] lists[i].entries[j] == entry,
            None => forall|i: int, j: int|
                0 <= i < lists.len() && 0 <= j < lists[i].entries.len() && lists[i].signature_type
                    == cert_x509_guid() ==> (#[trigger] lists[i].entries[j]).data != certificate,
        },
    decreases lists.len(),
{
    if lists.len() > 0 {
        let before = lists.drop_last();
        let last = lists.last();
        law_find_certificate(before, certificate);
        assert forall|i: int| 0 <= i < before.len() implies before[i] == lists[i] by {}
        let last_entries = if last.signature_type == cert_x509_guid() {
            last.entries
        } else {
            Seq::empty()
        };
        assert(x509_entries(lists) =~= x509_entries(before) + last_entries);
        lemma_first_with_data(x509_entries(before), last_entries, certificate);
        lemma_first_is_member(last_entries, certificate);
        match first_with_data(x509_entries(lists), certificate) {
            Some(entry) => {
                if first_with_data(x509_entries(before), certificate) is Some {
                    let (i, j) = choose|i: int, j: int|
                        0 <= i < before.len() && 0 <= j < before[i].entries.len()
                            && before[i].signature_type == cert_x509_guid()
                            && #[trigger] before[i].entries[j] == entry;
                    assert(lists[i].entries[j] == entry);
                } else {
                    let j = choose|j: int|
                        0 <= j < last_entries.len() && #[trigger] last_entries[j] == entry;
                    assert(lists[lists.len() - 1].entries[j] == entry);
                }
            },
            None => {
                assert forall|i: int, j: int|
                    0 <= i < lists.len() && 0 <= j < lists[i].entries.len()
                        && lists[i].signature_type == cert_x509_guid() implies (
                #[trigger] lists[i].entries[j]).data != certificate by {
                    if i < before.len() {
                        assert(before[i].entries[j].data != certificate);
                    } else {
                        assert(last_entries[j].data != certificate);
                    }
                }
            },
        }
    }
}

/// What is found is in the run, and nothing is found only where nothing matches.
proof fn lemma_first_is_member(entries: Seq<EntryView>, data: Seq<u8>)
    ensures
        match first_with_data(entries, data) {
            Some(entry) => entry.data == data && exists|j: int|
                0 <= j < entries.len() && #[trigger] entries[j] == entry,
            None => forall|j: int|
                0 <= j < entries.len() ==> (#[trigger] entries[j]).data != data,
        },
    decreases entries.len(),
{
    if entries.len() > 0 {
        let rest = entries.drop_first();
        lemma_first_is_member(rest, data);
        match first_with_data(entries, data) {
            Some(entry) => {
                if entries[0].data == data {
                    assert(entries[0] == entry);
                } else {
                    let j = choose|j: int| 0 <= j < rest.len() && #[trigger] rest[j] == entry;
                    assert(entries[j + 1] == entry);
                }
            },
            None => {
                assert forall|j: int| 0 <= j < entries.len() implies (#[trigger] entries[j]).data
                    != data by {
                    if j > 0 {
                        assert(rest[j - 1].data != data);
                    }
                }
            },
        }
    }
}

/// A list as it is laid out, byte by byte: its type, its whole size, no signature header, the size of
/// an entry with its owner, and the entries in order.
pub proof fn law_list_layout(list: ListView)
    requires
        list.has_guids(),
        list.bytes() is Ok,
    ensures
        ({
            let bytes = list.bytes()->Ok_0;
            let size = 16 + list.entries[0].data.len();
            &&& bytes.len() == 28 + size * list.entries.len()
            &&& bytes.take(16) == list.signature_type
            &&& le_value(bytes.subrange(16, 20)) == bytes.len()
            &&& bytes.subrange(20, 24) == seq![0u8, 0, 0, 0]
            &&& le_value(bytes.subrange(24, 28)) == size
            &&& bytes.skip(28) == entries_bytes(list.entries)
        }),
{
    let size = list.entries[0].size();
    let bytes = list.bytes()->Ok_0;
    lemma_entries_length(list.entries, size);
    assert(size <= list.size()) by {
        assert(size * list.entries.len() >= size) by (nonlinear_arith)
            requires
                list.entries.len() > 0,
        ;
    }
    law_byte_ranges();
    lemma_widths(list.size(), 4);
    lemma_widths(0, 4);
    lemma_widths(size, 4);
    law_le_round_trip(list.size(), 4);
    law_le_round_trip(size, 4);
    assert(le_bytes(0, 4) =~= seq![0u8, 0, 0, 0]) by {
        reveal_with_fuel(le_bytes, 5);
    }
    assert(bytes.take(16) =~= list.signature_type);
    assert(bytes.subrange(16, 20) =~= le_bytes(list.size(), 4));
    assert(bytes.subrange(20, 24) =~= le_bytes(0, 4));
    assert(bytes.subrange(24, 28) =~= le_bytes(size, 4));
    assert(bytes.skip(28) =~= entries_bytes(list.entries));
}

proof fn lemma_entries_length(entries: Seq<EntryView>, size: nat)
    requires
        forall|i: int|
            0 <= i < entries.len() ==> (#[trigger] entries[i]).size() == size
                && entries[i].owner.len() == 16,
    ensures
        entries_bytes(entries).len() == size * entries.len(),
    decreases entries.len(),
{
    if entries.len() == 0 {
        assert(size * entries.len() == 0) by (nonlinear_arith)
            requires
                entries.len() == 0,
        ;
    } else {
        let front = entries.drop_last();
        assert forall|i: int| 0 <= i < front.len() implies (#[trigger] front[i]).size() == size
            && front[i].owner.len() == 16 by {
            assert(front[i] == entries[i]);
        }
        lemma_entries_length(front, size);
        assert(entries[entries.len() - 1].size() == size);
        assert(size * entries.len() == size * front.len() + size) by (nonlinear_arith)
            requires
                entries.len() == front.len() + 1,
        ;
    }
}

/// Entries in a row are those before, then those behind, and a single one is its owner and its data.
pub proof fn law_entries_bytes(first: Seq<EntryView>, second: Seq<EntryView>, entry: EntryView)
    ensures
        entries_bytes(Seq::empty()).len() == 0,
        entries_bytes(seq![entry]) == entry.owner + entry.data,
        entries_bytes(first + second) == entries_bytes(first) + entries_bytes(second),
    decreases second.len(),
{
    assert(seq![entry].drop_last() =~= Seq::<EntryView>::empty());
    assert(entries_bytes(Seq::<EntryView>::empty()) =~= Seq::empty());
    assert(entries_bytes(seq![entry]) =~= entry.owner + entry.data);
    if second.len() == 0 {
        assert(first + second =~= first);
        assert(entries_bytes(first) + entries_bytes(second) =~= entries_bytes(first));
    } else {
        law_entries_bytes(first, second.drop_last(), entry);
        assert((first + second).drop_last() =~= first + second.drop_last());
        assert(entries_bytes(first + second) =~= entries_bytes(first) + entries_bytes(second));
    }
}

/// A list is refused if it has no entries, else if two of them differ in length, else if it is too
/// long for its size field, and for nothing else.
pub proof fn law_list_refusals(list: ListView)
    ensures
        match list.bytes() {
            Ok(_) => list.entries.len() > 0 && 28 + (16 + list.entries[0].data.len())
                * list.entries.len() <= 0xffff_ffff && forall|i: int, j: int|
                0 <= i < list.entries.len() && 0 <= j < list.entries.len() ==> (
                #[trigger] list.entries[i]).data.len() == (#[trigger] list.entries[j]).data.len(),
            Err(error) => if list.entries.len() == 0 {
                error == ListError::NoEntries
            } else if exists|i: int|
                0 <= i < list.entries.len() && (#[trigger] list.entries[i]).data.len()
                    != list.entries[0].data.len() {
                error == ListError::UnequalEntries
            } else {
                error == ListError::TooLarge && 28 + (16 + list.entries[0].data.len())
                    * list.entries.len() > 0xffff_ffff
            },
        },
{
    if list.entries.len() > 0 {
        if list.is_even() {
            assert forall|i: int, j: int|
                0 <= i < list.entries.len() && 0 <= j < list.entries.len() implies (
            #[trigger] list.entries[i]).data.len() == (#[trigger] list.entries[j]).data.len() by {
                assert(list.entries[i].size() == list.entries[0].size());
                assert(list.entries[j].size() == list.entries[0].size());
            }
        } else {
            let i = choose|i: int|
                0 <= i < list.entries.len() && (#[trigger] list.entries[i]).size()
                    != list.entries[0].size();
            assert(list.entries[i].data.len() != list.entries[0].data.len());
        }
    }
}

/// The list of a certificate has its type and a single entry, of the owner and the certificate.
#[verifier::spinoff_prover]
#[verifier::rlimit(40)]
pub proof fn law_x509_list(owner: Seq<u8>, certificate: Seq<u8>)
    requires
        owner.len() == 16,
    ensures
        ({
            let list = ListView::x509(owner, certificate);
            &&& list.signature_type == cert_x509_guid()
            &&& list.entries == seq![EntryView { owner, data: certificate }]
            &&& match list.bytes() {
                Ok(bytes) => {
                    &&& bytes.len() == 44 + certificate.len()
                    &&& le_value(bytes.subrange(16, 20)) == 44 + certificate.len()
                    &&& le_value(bytes.subrange(24, 28)) == 16 + certificate.len()
                    &&& bytes.subrange(28, 44) == owner
                    &&& bytes.skip(44) == certificate
                },
                Err(error) => error == ListError::TooLarge && certificate.len() > 0xffff_ffff - 44,
            }
        }),
{
    let list = ListView::x509(owner, certificate);
    let entry = EntryView { owner, data: certificate };
    assert(list.entries[0] == entry);
    let size = list.entries[0].size();
    assert(size * list.entries.len() == size) by (nonlinear_arith)
        requires
            list.entries.len() == 1,
    ;
    assert(list.size() == 44 + certificate.len());
    assert(list.is_even());
    if list.bytes() is Ok {
        lemma_guid_lengths();
        law_list_layout(list);
        law_entries_bytes(Seq::empty(), Seq::empty(), entry);
        let bytes = list.bytes()->Ok_0;
        assert(bytes.skip(28) == owner + certificate);
        assert(bytes.subrange(28, 44) =~= bytes.skip(28).take(16));
        assert(bytes.subrange(28, 44) =~= owner);
        assert(bytes.skip(44) =~= bytes.skip(28).skip(16));
        assert(bytes.skip(44) =~= certificate);
    }
}

/// What is read of a list at the start of some bytes, or why it is refused: its header is 28 bytes;
/// its size covers that and the signature header and lies within the bytes; its entries have more
/// than an owner; and they fill what is left. Then its type is the first 16 bytes, and its entries,
/// written again, are the rest of it behind the signature header.
pub proof fn law_list_at_start(data: Seq<u8>)
    ensures
        ({
            let size = le_value(data.subrange(16, 20)) as int;
            let header = le_value(data.subrange(20, 24)) as int;
            let entry = le_value(data.subrange(24, 28)) as int;
            match list_at_start(data) {
                Ok(list) => {
                    &&& 28 + header <= size <= data.len()
                    &&& entry > 16
                    &&& (size - 28 - header) % entry == 0
                    &&& list.signature_type == data.take(16)
                    &&& entries_bytes(list.entries) == data.subrange(28 + header, size)
                    &&& entry * list.entries.len() == size - 28 - header
                    &&& forall|i: int|
                        0 <= i < list.entries.len() ==> (#[trigger] list.entries[i]).owner.len()
                            == 16 && list.entries[i].data.len() == entry - 16
                },
                Err(ListError::TruncatedHeader) => data.len() < 28,
                Err(ListError::InvalidListSize(found)) => data.len() >= 28 && found == size && (size
                    < 28 + header || size > data.len()),
                Err(ListError::InvalidEntrySize(found)) => data.len() >= 28 && 28 + header <= size
                    <= data.len() && found == entry && entry <= 16,
                Err(ListError::NotMultiple) => data.len() >= 28 && 28 + header <= size <= data.len()
                    && entry > 16 && (size - 28 - header) % entry != 0,
                Err(_) => false,
            }
        }),
{
    if data.len() >= 28 {
        law_byte_ranges();
        lemma_le_bytes_of_value(data.subrange(16, 20));
        lemma_le_bytes_of_value(data.subrange(24, 28));
        if list_at_start(data) is Ok {
            let body = data.subrange(28 + header_size(data) as int, list_size(data) as int);
            lemma_entries_rewrite(body, entry_size(data));
            let entries = list_at_start(data)->Ok_0.entries;
            assert forall|i: int| 0 <= i < entries.len() implies (#[trigger] entries[i]).owner.len()
                == 16 && entries[i].data.len() == entry_size(data) - 16 by {
                assert(entries[i].size() == entry_size(data));
            }
        }
    }
}

/// The contents of a variable are read list by list: behind a list that was read the reading goes on,
/// and the first list that is refused refuses the whole.
pub proof fn law_lists_of(data: Seq<u8>)
    ensures
        lists_of(Seq::empty()) == Ok::<Seq<ListView>, ListError>(Seq::empty()),
        data.len() > 0 ==> match list_at_start(data) {
            Err(error) => lists_of(data) == Err::<Seq<ListView>, ListError>(error),
            Ok(list) => {
                let size = le_value(data.subrange(16, 20)) as int;
                &&& 28 <= size <= data.len()
                &&& match lists_of(data.skip(size)) {
                    Err(error) => lists_of(data) == Err::<Seq<ListView>, ListError>(error),
                    Ok(rest) => lists_of(data) is Ok && lists_of(data)->Ok_0.len() == 1 + rest.len()
                        && lists_of(data)->Ok_0[0] == list && lists_of(data)->Ok_0.skip(1) == rest,
                }
            },
        },
{
    if data.len() > 0 && list_at_start(data) is Ok {
        let list = list_at_start(data)->Ok_0;
        if let Ok(rest) = lists_of(data.skip(list_size(data) as int)) {
            assert((seq![list] + rest).skip(1) =~= rest);
        }
    }
}

/// Two variables in a row, where the first can be read, are read as the lists of the first and then
/// those of the second.
pub proof fn law_lists_concat(first: Seq<u8>, second: Seq<u8>)
    requires
        lists_of(first) is Ok,
    ensures
        match lists_of(second) {
            Ok(lists) => lists_of(first + second) == Ok::<Seq<ListView>, ListError>(
                lists_of(first)->Ok_0 + lists,
            ),
            Err(error) => lists_of(first + second) == Err::<Seq<ListView>, ListError>(error),
        },
    decreases first.len(),
{
    let whole = first + second;
    if first.len() == 0 {
        assert(whole =~= second);
        if let Ok(lists) = lists_of(second) {
            assert(lists_of(first)->Ok_0 + lists =~= lists);
        }
    } else {
        let size = list_size(first) as int;
        let rest = first.skip(size);
        assert(whole.subrange(16, 20) =~= first.subrange(16, 20));
        assert(whole.subrange(20, 24) =~= first.subrange(20, 24));
        assert(whole.subrange(24, 28) =~= first.subrange(24, 28));
        let start = 28 + header_size(first) as int;
        assert(whole.subrange(start, size) =~= first.subrange(start, size));
        assert(whole.take(16) =~= first.take(16));
        assert(list_at_start(whole) == list_at_start(first));
        law_lists_concat(rest, second);
        assert(whole.skip(size) =~= rest + second);
        let list = list_at_start(first)->Ok_0;
        if let Ok(lists) = lists_of(second) {
            assert(seq![list] + (lists_of(rest)->Ok_0 + lists) =~= lists_of(first)->Ok_0 + lists);
        }
    }
}

/// Of several entries that hold a certificate, the first of the first X.509 list that has one is
/// found: what comes behind makes no difference, and lists of other types are passed over.
pub proof fn law_first_certificate_wins(
    lists: Seq<ListView>,
    behind: Seq<ListView>,
    other: ListView,
    certificate: Seq<u8>,
)
    requires
        other.signature_type != cert_x509_guid(),
    ensures
        ({
            let found = first_with_data(x509_entries(lists), certificate);
            &&& found is Some ==> first_with_data(x509_entries(lists + behind), certificate) == found
            &&& found is None ==> first_with_data(x509_entries(lists + behind), certificate)
                == first_with_data(x509_entries(behind), certificate)
            &&& first_with_data(x509_entries(lists.push(other)), certificate) == found
        }),
{
    lemma_x509_entries(lists, behind);
    lemma_first_with_data(x509_entries(lists), x509_entries(behind), certificate);
    assert(lists.push(other).drop_last() =~= lists);
}

/// In a single X.509 list, the entry that is found is the first one that holds the certificate.
pub proof fn law_first_entry_wins(list: ListView, at: int, certificate: Seq<u8>)
    requires
        list.signature_type == cert_x509_guid(),
        0 <= at < list.entries.len(),
        list.entries[at].data == certificate,
        forall|i: int| 0 <= i < at ==> (#[trigger] list.entries[i]).data != certificate,
    ensures
        first_with_data(x509_entries(seq![list]), certificate) == Some(list.entries[at]),
{
    assert(seq![list].drop_last() =~= Seq::<ListView>::empty());
    assert(x509_entries(Seq::<ListView>::empty()) =~= Seq::empty());
    assert(x509_entries(seq![list]) =~= list.entries);
    let before = list.entries.take(at);
    let behind = list.entries.skip(at);
    assert(before + behind =~= list.entries);
    lemma_first_with_data(before, behind, certificate);
    lemma_first_is_member(before, certificate);
    if first_with_data(before, certificate) is Some {
        let j = choose|j: int|
            0 <= j < before.len() && #[trigger] before[j] == first_with_data(
                before,
                certificate,
            )->0;
        assert(list.entries[j].data != certificate);
    }
    assert(behind.first() == list.entries[at]);
}

} // verus!
