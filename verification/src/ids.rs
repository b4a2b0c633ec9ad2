//! Identifiers of entries, groups, custom icons and attachments.

use vstd::prelude::*;
use crate::content::Content;
use crate::order::Key;

verus! {

/// A universally unique identifier, as a number of 128 bits (most significant byte first).
#[derive(Debug, Clone, Copy, PartialEq, Eq, Hash, Structural)]
pub struct Uuid(pub u128);

/// The lower-case hexadecimal digit of a number below sixteen.
pub open spec fn hex_digit(n: int) -> char {
    if n < 10 {
        (48 + n) as char
    } else {
        (87 + n) as char
    }
}

/// The hyphenated text of an identifier: thirty-two lower-case hexadecimal digits, most
/// significant first, in groups of eight, four, four, four and twelve.
pub open spec fn hyphenated(bits: u128) -> Seq<char> {
    Seq::new(
        36,
        |i: int|
            if i == 8 || i == 13 || i == 18 || i == 23 {
                '-'
            } else {
                let hyphens_before: int = if i < 8 {
                    0
                } else if i < 13 {
                    1
                } else if i < 18 {
                    2
                } else if i < 23 {
                    3
                } else {
                    4
                };
                let digit = i - hyphens_before;
                hex_digit(
                    (bits as int / vstd::arithmetic::power::pow(16, (31 - digit) as nat)) % 16,
                )
            },
    )
}

/// Whether an identifier is of version four: the version digit is four, and the two variant bits
/// are one and zero.
pub open spec fn version_four(bits: u128) -> bool {
    &&& (bits >> 76u128) & 0xf == 4
    &&& (bits >> 62u128) & 0x3 == 2
}

/// Draws a random identifier with `uuid::Uuid::new_v4`, and reads it with
/// `uuid::Uuid::as_u128`. The version digit is four and the two variant bits are one and zero;
/// the other bits are random, and nothing is claimed of them.
#[verifier::external_body]
fn random_bits() -> (result: u128)
    ensures
        version_four(result),
{
    uuid::Uuid::new_v4().as_u128()
}

/// The text of an identifier by `uuid::Uuid`'s `Display`: the hyphenated form in lower case.
#[verifier::external_body]
fn uuid_to_text(bits: u128) -> (result: String)
    ensures
        result@ == hyphenated(bits),
{
    uuid::Uuid::from_u128(bits).to_string()
}

impl Uuid {
    /// A new random identifier (version four).
    pub fn new_v4() -> (result: Self)
        ensures
            version_four(result.0),
    {
        Uuid(random_bits())
    }

    /// The identifier with the given bits.
    pub fn from_u128(bits: u128) -> (result: Self)
        ensures
            result == Uuid(bits),
    {
        Uuid(bits)
    }

    /// The bits of the identifier.
    pub fn as_u128(&self) -> (result: u128)
        ensures
            result == self.0,
    {
        self.0
    }

    /// The hyphenated text of the identifier.
    pub fn text(&self) -> (result: String)
        ensures
            result@ == hyphenated(self.0),
    {
        uuid_to_text(self.0)
    }
}

/// An identifier of version four for each number.
pub open spec fn numbered(n: u64) -> u128 {
    0x4000_8000_0000_0000_0000u128 | (n as u128 & 0x3fff_ffff_ffff_ffffu128) | ((n as u128
        >> 62u128) << 64u128)
}

/// Different numbers have different identifiers.
proof fn lemma_numbered(n: u64, m: u64)
    ensures
        version_four(numbered(n)),
        n != m ==> numbered(n) != numbered(m),
{
    let a = n as u128;
    let b = m as u128;
    let x = 0x4000_8000_0000_0000_0000u128 | (a & 0x3fff_ffff_ffff_ffffu128) | ((a >> 62u128)
        << 64u128);
    let y = 0x4000_8000_0000_0000_0000u128 | (b & 0x3fff_ffff_ffff_ffffu128) | ((b >> 62u128)
        << 64u128);
    assert((x >> 76u128) & 0xf == 4 && (x >> 62u128) & 0x3 == 2) by (bit_vector)
        requires
            a <= 0xffff_ffff_ffff_ffffu128,
            x == 0x4000_8000_0000_0000_0000u128 | (a & 0x3fff_ffff_ffff_ffffu128) | ((a >> 62u128)
                << 64u128),
    ;
    assert(a != b ==> x != y) by (bit_vector)
        requires
            a <= 0xffff_ffff_ffff_ffffu128,
            b <= 0xffff_ffff_ffff_ffffu128,
            x == 0x4000_8000_0000_0000_0000u128 | (a & 0x3fff_ffff_ffff_ffffu128) | ((a >> 62u128)
                << 64u128),
            y == 0x4000_8000_0000_0000_0000u128 | (b & 0x3fff_ffff_ffff_ffffu128) | ((b >> 62u128)
                << 64u128),
    ;
}

/// There are no more numbered identifiers on a list than it is long.
proof fn lemma_numbered_on_list(taken: Seq<Uuid>, n: nat)
    requires
        n <= 0x1_0000_0000_0000_0000,
        forall|m: u64| m < n ==> taken.contains(Uuid(#[trigger] numbered(m))),
    ensures
        n <= taken.len(),
{
    let first = Seq::new(n, |m: int| Uuid(numbered(m as u64)));
    assert forall|i: int, j: int| 0 <= i < n && 0 <= j < n && i != j implies first[i]
        != first[j] by {
        lemma_numbered(i as u64, j as u64);
    }
    first.unique_seq_to_set();
    taken.lemma_cardinality_of_set();
    vstd::seq_lib::seq_to_set_is_finite(taken);
    assert(first.to_set().subset_of(taken.to_set())) by {
        assert forall|id: Uuid| first.to_set().contains(id) implies taken.to_set().contains(
            id,
        ) by {
            let i = choose|i: int| 0 <= i < first.len() && first[i] == id;
            assert(taken.contains(Uuid(numbered(i as u64))));
        }
    }
    vstd::set_lib::lemma_len_subset(first.to_set(), taken.to_set());
}

/// Whether an identifier is on a list.
fn is_on_list(id: Uuid, taken: &Vec<Uuid>) -> (result: bool)
    ensures
        result == taken@.contains(id),
{
    let mut i: usize = 0;
    while i < taken.len()
        invariant
            i <= taken@.len(),
            forall|j: int| 0 <= j < i ==> taken@[j] != id,
        decreases taken@.len() - i,
    {
        if taken[i] == id {
            return true;
        }
        i += 1;
    }
    false
}

/// An identifier of version four that is not on a list.
pub(crate) fn unlisted(taken: &Vec<Uuid>) -> (result: Uuid)
    ensures
        version_four(result.0),
        !taken@.contains(result),
{
    let len: usize = taken.len();
    let mut n: u64 = 0;
    loop
        invariant
            n <= len,
            len == taken@.len(),
            forall|m: u64| m < n ==> taken@.contains(Uuid(#[trigger] numbered(m))),
        decreases len - n,
    {
        let wide: u128 = n as u128;
        let bits: u128 = 0x4000_8000_0000_0000_0000u128 | (wide & 0x3fff_ffff_ffff_ffffu128) | ((
        wide >> 62u128) << 64u128);
        let id = Uuid(bits);
        proof {
            lemma_numbered(n, n);
        }
        if !is_on_list(id, taken) {
            return id;
        }
        proof {
            lemma_numbered_on_list(taken@, (n + 1) as nat);
        }
        n += 1;
    }
}

impl DeepView for Uuid {
    type V = Uuid;

    open spec fn deep_view(&self) -> Uuid {
        *self
    }
}

impl Content for Uuid {
    fn duplicate(&self) -> (result: Self) {
        *self
    }

    fn same_as(&self, other: &Self) -> (result: bool) {
        *self == *other
    }
}

impl Key for Uuid {
    open spec fn precedes(a: Uuid, b: Uuid) -> bool {
        a.0 < b.0
    }

    fn is_before(&self, other: &Self) -> (result: bool) {
        self.0 < other.0
    }

    proof fn order_is_irreflexive(a: Uuid) {
    }

    proof fn order_is_transitive(a: Uuid, b: Uuid, c: Uuid) {
    }

    proof fn order_is_total(a: Uuid, b: Uuid) {
    }
}

/// Unique identifier for an [Entry](crate::entry::Entry)
#[derive(Debug, Clone, Copy, PartialEq, Eq, Hash, Structural)]
pub struct EntryId(pub Uuid);

impl EntryId {
    /// A new random identifier.
    pub fn new() -> (result: Self)
        ensures
            version_four(result.0.0),
    {
        EntryId(Uuid::new_v4())
    }

    /// The identifier with an existing [Uuid].
    pub fn from_uuid(uuid: Uuid) -> (result: Self)
        ensures
            result == EntryId(uuid),
    {
        EntryId(uuid)
    }

    /// Get the [Uuid] contained inside
    pub fn uuid(&self) -> (result: Uuid)
        ensures
            result == self.0,
    {
        self.0
    }

    /// The hyphenated text of the identifier.
    pub fn text(&self) -> (result: String)
        ensures
            result@ == hyphenated(self.0.0),
    {
        self.0.text()
    }
}

impl From<Uuid> for EntryId {
    fn from(uuid: Uuid) -> (result: Self) {
        EntryId(uuid)
    }
}

impl vstd::std_specs::convert::FromSpecImpl<Uuid> for EntryId {
    open spec fn obeys_from_spec() -> bool {
        true
    }

    open spec fn from_spec(uuid: Uuid) -> Self {
        EntryId(uuid)
    }
}

impl DeepView for EntryId {
    type V = EntryId;

    open spec fn deep_view(&self) -> EntryId {
        *self
    }
}

impl Content for EntryId {
    fn duplicate(&self) -> (result: Self) {
        *self
    }

    fn same_as(&self, other: &Self) -> (result: bool) {
        *self == *other
    }
}

impl Key for EntryId {
    open spec fn precedes(a: EntryId, b: EntryId) -> bool {
        a.0.0 < b.0.0
    }

    fn is_before(&self, other: &Self) -> (result: bool) {
        self.0.0 < other.0.0
    }

    proof fn order_is_irreflexive(a: EntryId) {
    }

    proof fn order_is_transitive(a: EntryId, b: EntryId, c: EntryId) {
    }

    proof fn order_is_total(a: EntryId, b: EntryId) {
    }
}

/// Unique identifier for a [Group](crate::group::Group)
#[derive(Debug, Clone, Copy, PartialEq, Eq, Hash, Structural)]
pub struct GroupId(pub Uuid);

impl GroupId {
    /// A new random identifier.
    pub fn new() -> (result: Self)
        ensures
            version_four(result.0.0),
    {
        GroupId(Uuid::new_v4())
    }

    /// The identifier with an existing [Uuid].
    pub fn from_uuid(uuid: Uuid) -> (result: Self)
        ensures
            result == GroupId(uuid),
    {
        GroupId(uuid)
    }

    /// Get the [Uuid] contained inside
    pub fn uuid(&self) -> (result: Uuid)
        ensures
            result == self.0,
    {
        self.0
    }

    /// The hyphenated text of the identifier.
    pub fn text(&self) -> (result: String)
        ensures
            result@ == hyphenated(self.0.0),
    {
        self.0.text()
    }
}

impl From<Uuid> for GroupId {
    fn from(uuid: Uuid) -> (result: Self) {
        GroupId(uuid)
    }
}

impl vstd::std_specs::convert::FromSpecImpl<Uuid> for GroupId {
    open spec fn obeys_from_spec() -> bool {
        true
    }

    open spec fn from_spec(uuid: Uuid) -> Self {
        GroupId(uuid)
    }
}

impl DeepView for GroupId {
    type V = GroupId;

    open spec fn deep_view(&self) -> GroupId {
        *self
    }
}

impl Content for GroupId {
    fn duplicate(&self) -> (result: Self) {
        *self
    }

    fn same_as(&self, other: &Self) -> (result: bool) {
        *self == *other
    }
}

impl Key for GroupId {
    open spec fn precedes(a: GroupId, b: GroupId) -> bool {
        a.0.0 < b.0.0
    }

    fn is_before(&self, other: &Self) -> (result: bool) {
        self.0.0 < other.0.0
    }

    proof fn order_is_irreflexive(a: GroupId) {
    }

    proof fn order_is_transitive(a: GroupId, b: GroupId, c: GroupId) {
    }

    proof fn order_is_total(a: GroupId, b: GroupId) {
    }
}

/// Unique identifier for a [CustomIcon](crate::icon::CustomIcon)
#[derive(Debug, Clone, Copy, PartialEq, Eq, Hash, Structural)]
pub struct CustomIconId(pub Uuid);

impl CustomIconId {
    /// A new random identifier.
    pub fn new() -> (result: Self)
        ensures
            version_four(result.0.0),
    {
        CustomIconId(Uuid::new_v4())
    }

    /// The identifier with an existing [Uuid].
    pub fn from_uuid(uuid: Uuid) -> (result: Self)
        ensures
            result == CustomIconId(uuid),
    {
        CustomIconId(uuid)
    }

    /// Get the [Uuid] contained inside
    pub fn uuid(&self) -> (result: Uuid)
        ensures
            result == self.0,
    {
        self.0
    }

    /// The hyphenated text of the identifier.
    pub fn text(&self) -> (result: String)
        ensures
            result@ == hyphenated(self.0.0),
    {
        self.0.text()
    }
}

impl From<Uuid> for CustomIconId {
    fn from(uuid: Uuid) -> (result: Self) {
        CustomIconId(uuid)
    }
}

impl vstd::std_specs::convert::FromSpecImpl<Uuid> for CustomIconId {
    open spec fn obeys_from_spec() -> bool {
        true
    }

    open spec fn from_spec(uuid: Uuid) -> Self {
        CustomIconId(uuid)
    }
}

impl DeepView for CustomIconId {
    type V = CustomIconId;

    open spec fn deep_view(&self) -> CustomIconId {
        *self
    }
}

impl Content for CustomIconId {
    fn duplicate(&self) -> (result: Self) {
        *self
    }

    fn same_as(&self, other: &Self) -> (result: bool) {
        *self == *other
    }
}

impl Key for CustomIconId {
    open spec fn precedes(a: CustomIconId, b: CustomIconId) -> bool {
        a.0.0 < b.0.0
    }

    fn is_before(&self, other: &Self) -> (result: bool) {
        self.0.0 < other.0.0
    }

    proof fn order_is_irreflexive(a: CustomIconId) {
    }

    proof fn order_is_transitive(a: CustomIconId, b: CustomIconId, c: CustomIconId) {
    }

    proof fn order_is_total(a: CustomIconId, b: CustomIconId) {
    }
}

/// Identifier for an [Attachment](crate::attachment::Attachment)
#[derive(Debug, Clone, Copy, PartialEq, Eq, Hash, Structural)]
pub struct AttachmentId(pub usize);

/// The text of a single decimal digit.
fn digit_to_text(digit: usize) -> (result: &'static str)
    requires
        digit < 10,
    ensures
        result@ == seq![(48 + digit) as char],
{
    match digit {
        0 => {
            proof {
                reveal_strlit("0");
            }
            "0"
        },
        1 => {
            proof {
                reveal_strlit("1");
            }
            "1"
        },
        2 => {
            proof {
                reveal_strlit("2");
            }
            "2"
        },
        3 => {
            proof {
                reveal_strlit("3");
            }
            "3"
        },
        4 => {
            proof {
                reveal_strlit("4");
            }
            "4"
        },
        5 => {
            proof {
                reveal_strlit("5");
            }
            "5"
        },
        6 => {
            proof {
                reveal_strlit("6");
            }
            "6"
        },
        7 => {
            proof {
                reveal_strlit("7");
            }
            "7"
        },
        8 => {
            proof {
                reveal_strlit("8");
            }
            "8"
        },
        _ => {
            proof {
                reveal_strlit("9");
            }
            "9"
        },
    }
}

/// The decimal text of a number.
fn number_to_text(number: usize) -> (result: String)
    ensures
        result@ == decimal(number as nat),
    decreases number,
{
    if number < 10 {
        digit_to_text(number).to_owned()
    } else {
        let mut result = number_to_text(number / 10);
        result.append(digit_to_text(number % 10));
        assert(result@ =~= decimal(number as nat));
        result
    }
}

/// The decimal digits of a number, most significant first.
pub open spec fn decimal(n: nat) -> Seq<char>
    decreases n,
{
    if n < 10 {
        seq![(48 + n) as char]
    } else {
        decimal(n / 10).push((48 + n % 10) as char)
    }
}

impl AttachmentId {
    /// The identifier with the given number.
    pub fn new(id: usize) -> (result: Self)
        ensures
            result == AttachmentId(id),
    {
        AttachmentId(id)
    }

    /// Get the underlying usize ID of this attachment.
    pub fn id(&self) -> (result: usize)
        ensures
            result == self.0,
    {
        self.0
    }

    /// The decimal text of the identifier.
    pub fn text(&self) -> (result: String)
        ensures
            result@ == decimal(self.0 as nat),
    {
        number_to_text(self.0)
    }
}

impl DeepView for AttachmentId {
    type V = AttachmentId;

    open spec fn deep_view(&self) -> AttachmentId {
        *self
    }
}

impl Content for AttachmentId {
    fn duplicate(&self) -> (result: Self) {
        *self
    }

    fn same_as(&self, other: &Self) -> (result: bool) {
        *self == *other
    }
}

impl Key for AttachmentId {
    open spec fn precedes(a: AttachmentId, b: AttachmentId) -> bool {
        a.0 < b.0
    }

    fn is_before(&self, other: &Self) -> (result: bool) {
        self.0 < other.0
    }

    proof fn order_is_irreflexive(a: AttachmentId) {
    }

    proof fn order_is_transitive(a: AttachmentId, b: AttachmentId, c: AttachmentId) {
    }

    proof fn order_is_total(a: AttachmentId, b: AttachmentId) {
    }
}

} // verus!
