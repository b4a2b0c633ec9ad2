//! What the models of objects hold: everything that the objects hold.

use vstd::prelude::*;
use crate::attachment::Attachment;
use crate::database::Database;
use crate::entry::Entry;
use crate::entry::History;
use crate::group::Group;
use crate::icon::CustomIcon;
use crate::times::Timestamp;
use crate::value::AutoType;
use crate::value::AutoTypeAssociation;
use crate::value::CustomDataItem;
use crate::value::CustomDataValue;
use crate::value::CustomDataValueModel;
use crate::value::Value;

verus! {

/// The model of an entry has each field of the entry.
pub proof fn entry_model_is_complete(entry: Entry)
    ensures
        entry.deep_view().id == entry.id,
        entry.deep_view().parent == entry.parent,
        entry.deep_view().fields == entry.fields.deep_view(),
        entry.deep_view().autotype == entry.autotype.deep_view(),
        entry.deep_view().tags == entry.tags.deep_view(),
        entry.deep_view().times == entry.times,
        entry.deep_view().custom_data == entry.custom_data.deep_view(),
        entry.deep_view().icon == entry.icon,
        entry.deep_view().foreground_color == entry.foreground_color,
        entry.deep_view().background_color == entry.background_color,
        entry.deep_view().override_url == entry.override_url.deep_view(),
        entry.deep_view().quality_check == entry.quality_check,
        entry.deep_view().attachments == entry.attachments.deep_view(),
        entry.deep_view().previous_parent_group == entry.previous_parent_group,
        entry.deep_view().history is Some == entry.history is Some,
        entry.history is Some ==> entry.deep_view().history->0 == entry.history->0.deep_view(),
{
}

/// The model of a history has each version in its place.
pub proof fn history_model_is_complete(history: History, i: int)
    requires
        0 <= i < history.entries@.len(),
    ensures
        history.deep_view().len() == history.entries@.len(),
        history.deep_view()[i] == history.entries@[i].deep_view(),
{
}

/// The model of a group has each field of the group.
pub proof fn group_model_is_complete(group: Group)
    ensures
        group.deep_view().id == group.id,
        group.deep_view().name == group.name@,
        group.deep_view().notes == group.notes.deep_view(),
        group.deep_view().icon == group.icon,
        group.deep_view().custom_data == group.custom_data.deep_view(),
        group.deep_view().times == group.times,
        group.deep_view().is_expanded == group.is_expanded,
        group.deep_view().default_autotype_sequence == group.default_autotype_sequence.deep_view(),
        group.deep_view().enable_autotype == group.enable_autotype,
        group.deep_view().enable_searching == group.enable_searching,
        group.deep_view().last_top_visible_entry == group.last_top_visible_entry,
        group.deep_view().entries == group.entries.deep_view(),
        group.deep_view().groups == group.groups.deep_view(),
        group.deep_view().parent == group.parent,
        group.deep_view().previous_parent_group == group.previous_parent_group,
{
}

/// The model of a custom icon has each field of the icon.
pub proof fn icon_model_is_complete(icon: CustomIcon)
    ensures
        icon.deep_view().id == icon.id,
        icon.deep_view().groups == icon.groups.deep_view(),
        icon.deep_view().name == icon.name.deep_view(),
        icon.deep_view().last_modification_time == icon.last_modification_time,
        icon.deep_view().data == icon.data@,
{
    match icon.last_modification_time {
        Some(time) => {},
        None => {},
    }
    assert(icon.data.deep_view() =~= icon.data@);
}

/// The model of an attachment has its identifier and its data.
pub proof fn attachment_model_is_complete(attachment: Attachment)
    ensures
        attachment.deep_view().id == attachment.id,
        attachment.deep_view().data == attachment.data.deep_view(),
{
}

/// The model of a database has each part of the database.
pub proof fn database_model_is_complete(db: Database)
    ensures
        db.deep_view().config == db.config,
        db.deep_view().meta == db.meta,
        db.deep_view().root == db.root,
        db.deep_view().attachments == db.attachments.deep_view(),
        db.deep_view().custom_icons == db.custom_icons.deep_view(),
        db.deep_view().entries == db.entries.deep_view(),
        db.deep_view().groups == db.groups.deep_view(),
        db.deep_view().deleted_objects == db.deleted_objects.deep_view(),
{
}

/// The model of a value tells protected values from others, and has what they hold.
pub proof fn value_model_is_complete(text: Value<String>, bytes: Value<Vec<u8>>)
    ensures
        match text {
            Value::Unprotected(inner) => text.deep_view() == Value::Unprotected(inner@),
            Value::Protected(inner) => text.deep_view() == Value::Protected(inner@),
        },
        match bytes {
            Value::Unprotected(inner) => bytes.deep_view() == Value::Unprotected(inner@),
            Value::Protected(inner) => bytes.deep_view() == Value::Protected(inner@),
        },
        match text {
            Value::Unprotected(inner) => text.content() == inner,
            Value::Protected(inner) => text.content() == inner,
        },
{
    match bytes {
        Value::Unprotected(inner) => {
            assert(inner.deep_view() =~= inner@);
        },
        Value::Protected(inner) => {
            assert(inner.deep_view() =~= inner@);
        },
    }
}

/// The models of custom data items and auto-type settings have all their parts.
pub proof fn settings_models_are_complete(
    item: CustomDataItem,
    value: CustomDataValue,
    association: AutoTypeAssociation,
    autotype: AutoType,
)
    ensures
        item.deep_view().value is Some == item.value is Some,
        item.value is Some ==> item.deep_view().value->0 == item.value->0.deep_view(),
        item.deep_view().last_modification_time == item.last_modification_time,
        match value {
            CustomDataValue::String(text) => value.deep_view() == CustomDataValueModel::String(
                text@,
            ),
            CustomDataValue::Binary(bytes) => value.deep_view() == CustomDataValueModel::Binary(
                bytes@,
            ),
        },
        association.deep_view().window == association.window@,
        association.deep_view().sequence == association.sequence@,
        autotype.deep_view().enabled == autotype.enabled,
        autotype.deep_view().default_sequence == autotype.default_sequence.deep_view(),
        autotype.deep_view().data_transfer_obfuscation == autotype.data_transfer_obfuscation,
        autotype.deep_view().associations == autotype.associations.deep_view(),
{
    if let CustomDataValue::Binary(bytes) = value {
        assert(bytes.deep_view() =~= bytes@);
    }
    match item.last_modification_time {
        Some(time) => {},
        None => {},
    }
    match autotype.data_transfer_obfuscation {
        Some(obfuscation) => {},
        None => {},
    }
}

/// A point in time is before another exactly if it has fewer seconds, or as many and fewer
/// nanoseconds.
pub proof fn order_of_time(a: Timestamp, b: Timestamp)
    ensures
        a.before(b) <==> a.spec_seconds() < b.spec_seconds() || (a.spec_seconds()
            == b.spec_seconds() && a.spec_nanos() < b.spec_nanos()),
{
}

} // verus!
