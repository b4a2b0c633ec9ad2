//! Values that may be protected in memory, and the other plain data that entries and groups carry.

use vstd::prelude::*;
use crate::content::Content;
use crate::times::Timestamp;

verus! {

/// A value that is either stored as it is, or protected (meant to be encrypted when written out).
#[derive(Debug, Clone, PartialEq, Eq)]
pub enum Value<T> {
    /// A value stored as it is.
    Unprotected(T),
    /// A protected value.
    Protected(T),
}

impl<T> Value<T> {
    /// What the value holds, protected or not.
    pub open spec fn content(self) -> T {
        match self {
            Value::Unprotected(inner) => inner,
            Value::Protected(inner) => inner,
        }
    }

    /// An unprotected value.
    pub fn unprotected(value: T) -> (result: Self)
        ensures
            result == Value::Unprotected(value),
    {
        Value::Unprotected(value)
    }

    /// A protected value.
    pub fn protected(value: T) -> (result: Self)
        ensures
            result == Value::Protected(value),
    {
        Value::Protected(value)
    }

    /// What the value holds, protected or not.
    pub fn get(&self) -> (result: &T)
        ensures
            *result == self.content(),
    {
        match self {
            Value::Unprotected(inner) => inner,
            Value::Protected(inner) => inner,
        }
    }

    /// Whether the value is protected.
    pub fn is_protected(&self) -> (result: bool)
        ensures
            result == (self is Protected),
    {
        matches!(self, Value::Protected(_))
    }
}

impl Value<String> {
    /// The text that the value holds, protected or not.
    pub fn as_str(&self) -> (result: &str)
        ensures
            result@ == self.content()@,
    {
        self.get().as_str()
    }
}

impl<T: DeepView> DeepView for Value<T> {
    type V = Value<T::V>;

    open spec fn deep_view(&self) -> Value<T::V> {
        match self {
            Value::Unprotected(inner) => Value::Unprotected(inner.deep_view()),
            Value::Protected(inner) => Value::Protected(inner.deep_view()),
        }
    }
}

impl<T: Content> Content for Value<T> {
    fn duplicate(&self) -> (result: Self) {
        match self {
            Value::Unprotected(inner) => Value::Unprotected(inner.duplicate()),
            Value::Protected(inner) => Value::Protected(inner.duplicate()),
        }
    }

    fn same_as(&self, other: &Self) -> (result: bool) {
        match (self, other) {
            (Value::Unprotected(x), Value::Unprotected(y)) => x.same_as(y),
            (Value::Protected(x), Value::Protected(y)) => x.same_as(y),
            _ => false,
        }
    }
}

/// A color of an entry.
#[derive(Debug, Clone, Copy, PartialEq, Eq, Structural)]
pub struct Color {
    /// The red part.
    pub r: u8,
    /// The green part.
    pub g: u8,
    /// The blue part.
    pub b: u8,
}

impl DeepView for Color {
    type V = Color;

    open spec fn deep_view(&self) -> Color {
        *self
    }
}

impl Content for Color {
    fn duplicate(&self) -> (result: Self) {
        *self
    }

    fn same_as(&self, other: &Self) -> (result: bool) {
        *self == *other
    }
}

/// The value of a custom data item.
#[derive(Debug, Clone, PartialEq, Eq)]
pub enum CustomDataValue {
    /// A text.
    String(String),
    /// Bytes.
    Binary(Vec<u8>),
}

/// What a [CustomDataValue] holds.
pub enum CustomDataValueModel {
    /// A text.
    String(Seq<char>),
    /// Bytes.
    Binary(Seq<u8>),
}

impl DeepView for CustomDataValue {
    type V = CustomDataValueModel;

    open spec fn deep_view(&self) -> CustomDataValueModel {
        match self {
            CustomDataValue::String(text) => CustomDataValueModel::String(text.deep_view()),
            CustomDataValue::Binary(bytes) => CustomDataValueModel::Binary(bytes.deep_view()),
        }
    }
}

impl Content for CustomDataValue {
    fn duplicate(&self) -> (result: Self) {
        match self {
            CustomDataValue::String(text) => CustomDataValue::String(text.duplicate()),
            CustomDataValue::Binary(bytes) => CustomDataValue::Binary(bytes.duplicate()),
        }
    }

    fn same_as(&self, other: &Self) -> (result: bool) {
        match (self, other) {
            (CustomDataValue::String(x), CustomDataValue::String(y)) => x.same_as(y),
            (CustomDataValue::Binary(x), CustomDataValue::Binary(y)) => x.same_as(y),
            _ => false,
        }
    }
}

/// A custom data item of an entry or a group.
#[derive(Debug, Clone, PartialEq, Eq)]
pub struct CustomDataItem {
    /// The value of the item.
    pub value: Option<CustomDataValue>,
    /// When the item was last changed.
    pub last_modification_time: Option<Timestamp>,
}

/// What a [CustomDataItem] holds.
pub struct CustomDataItemModel {
    /// The value of the item.
    pub value: Option<CustomDataValueModel>,
    /// When the item was last changed.
    pub last_modification_time: Option<Timestamp>,
}

impl DeepView for CustomDataItem {
    type V = CustomDataItemModel;

    open spec fn deep_view(&self) -> CustomDataItemModel {
        CustomDataItemModel {
            value: self.value.deep_view(),
            last_modification_time: self.last_modification_time.deep_view(),
        }
    }
}

impl Content for CustomDataItem {
    fn duplicate(&self) -> (result: Self) {
        CustomDataItem {
            value: self.value.duplicate(),
            last_modification_time: self.last_modification_time.duplicate(),
        }
    }

    fn same_as(&self, other: &Self) -> (result: bool) {
        self.value.same_as(&other.value) && self.last_modification_time.same_as(
            &other.last_modification_time,
        )
    }
}

/// How auto-type hides what it types from programs that listen.
#[derive(Debug, Clone, Copy, PartialEq, Eq, Structural)]
pub enum DataTransferObfuscation {
    /// The text is typed as it is.
    Disabled,
    /// The text is split between typing and the clipboard.
    TwoChannel,
}

impl DeepView for DataTransferObfuscation {
    type V = DataTransferObfuscation;

    open spec fn deep_view(&self) -> DataTransferObfuscation {
        *self
    }
}

impl Content for DataTransferObfuscation {
    fn duplicate(&self) -> (result: Self) {
        *self
    }

    fn same_as(&self, other: &Self) -> (result: bool) {
        *self == *other
    }
}

/// The sequence to type into windows with a given title.
#[derive(Debug, Clone, PartialEq, Eq)]
pub struct AutoTypeAssociation {
    /// The window title.
    pub window: String,
    /// The sequence to type.
    pub sequence: String,
}

/// What an [AutoTypeAssociation] holds.
pub struct AutoTypeAssociationModel {
    /// The window title.
    pub window: Seq<char>,
    /// The sequence to type.
    pub sequence: Seq<char>,
}

impl DeepView for AutoTypeAssociation {
    type V = AutoTypeAssociationModel;

    open spec fn deep_view(&self) -> AutoTypeAssociationModel {
        AutoTypeAssociationModel {
            window: self.window.deep_view(),
            sequence: self.sequence.deep_view(),
        }
    }
}

impl Content for AutoTypeAssociation {
    fn duplicate(&self) -> (result: Self) {
        AutoTypeAssociation {
            window: self.window.duplicate(),
            sequence: self.sequence.duplicate(),
        }
    }

    fn same_as(&self, other: &Self) -> (result: bool) {
        self.window.same_as(&other.window) && self.sequence.same_as(&other.sequence)
    }
}

/// Auto-type settings of an entry.
#[derive(Debug, Clone, PartialEq, Eq)]
pub struct AutoType {
    /// Whether auto-type is on.
    pub enabled: bool,
    /// The sequence to type by default.
    pub default_sequence: Option<String>,
    /// How the typed text is hidden.
    pub data_transfer_obfuscation: Option<DataTransferObfuscation>,
    /// Sequences for particular windows.
    pub associations: Vec<AutoTypeAssociation>,
}

/// What an [AutoType] holds.
pub struct AutoTypeModel {
    /// Whether auto-type is on.
    pub enabled: bool,
    /// The sequence to type by default.
    pub default_sequence: Option<Seq<char>>,
    /// How the typed text is hidden.
    pub data_transfer_obfuscation: Option<DataTransferObfuscation>,
    /// Sequences for particular windows.
    pub associations: Seq<AutoTypeAssociationModel>,
}

impl DeepView for AutoType {
    type V = AutoTypeModel;

    open spec fn deep_view(&self) -> AutoTypeModel {
        AutoTypeModel {
            enabled: self.enabled,
            default_sequence: self.default_sequence.deep_view(),
            data_transfer_obfuscation: self.data_transfer_obfuscation.deep_view(),
            associations: self.associations.deep_view(),
        }
    }
}

impl Content for AutoType {
    fn duplicate(&self) -> (result: Self) {
        AutoType {
            enabled: self.enabled,
            default_sequence: self.default_sequence.duplicate(),
            data_transfer_obfuscation: self.data_transfer_obfuscation.duplicate(),
            associations: self.associations.duplicate(),
        }
    }

    fn same_as(&self, other: &Self) -> (result: bool) {
        self.enabled == other.enabled && self.default_sequence.same_as(&other.default_sequence)
            && self.data_transfer_obfuscation.same_as(&other.data_transfer_obfuscation)
            && self.associations.same_as(&other.associations)
    }
}

} // verus!
