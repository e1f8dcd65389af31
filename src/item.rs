use vstd::prelude::*;

verus! {

/// Seconds since the Unix epoch.
pub type Timestamp = i64;

/// A task item.
#[derive(Debug, Clone)]
pub struct Item {
    pub id: u32,
    pub title: String,
    pub body: String,
    pub important: bool,
    pub urgent: bool,
    pub created: Timestamp,
    pub modified: Option<Timestamp>,
    pub deleted: Option<Timestamp>,
}

/// The mathematical value of an [`Item`]: its texts as character sequences.
pub struct ItemView {
    pub id: u32,
    pub title: Seq<char>,
    pub body: Seq<char>,
    pub important: bool,
    pub urgent: bool,
    pub created: Timestamp,
    pub modified: Option<Timestamp>,
    pub deleted: Option<Timestamp>,
}

impl View for Item {
    type V = ItemView;

    open spec fn view(&self) -> ItemView {
        ItemView {
            id: self.id,
            title: self.title@,
            body: self.body@,
            important: self.important,
            urgent: self.urgent,
            created: self.created,
            modified: self.modified,
            deleted: self.deleted,
        }
    }
}

impl ItemView {
    /// Active items are those that are not soft-deleted.
    pub open spec fn is_active(self) -> bool {
        self.deleted is None
    }

    /// The item after an update stamped at `t`.
    pub open spec fn touched(self, t: Timestamp) -> ItemView {
        ItemView { modified: Some(t), ..self }
    }

    /// The item after a soft delete stamped at `t`: both the deletion and the
    /// modification carry the stamp.
    pub open spec fn deleted_at(self, t: Timestamp) -> ItemView {
        ItemView { deleted: Some(t), modified: Some(t), ..self }
    }

    /// The item after a restore stamped at `t`.
    pub open spec fn restored_at(self, t: Timestamp) -> ItemView {
        ItemView { deleted: None, modified: Some(t), ..self }
    }
}

impl Item {
    /// A fresh item as `add` creates it: never modified, not deleted.
    pub fn new(id: u32, title: &str, body: &str, important: bool, urgent: bool, created: Timestamp) -> (r: Item)
        ensures
            r@ == (ItemView {
                id,
                title: title@,
                body: body@,
                important,
                urgent,
                created,
                modified: None,
                deleted: None,
            }),
    {
        Item {
            id,
            title: String::from_str(title),
            body: String::from_str(body),
            important,
            urgent,
            created,
            modified: None,
            deleted: None,
        }
    }

    /// A copy of the item.
    pub fn duplicate(&self) -> (r: Item)
        ensures
            r@ == self@,
    {
        Item {
            id: self.id,
            title: self.title.clone(),
            body: self.body.clone(),
            important: self.important,
            urgent: self.urgent,
            created: self.created,
            modified: self.modified,
            deleted: self.deleted,
        }
    }

    pub fn is_active(&self) -> (r: bool)
        ensures
            r == self@.is_active(),
    {
        self.deleted.is_none()
    }

    /// Stamp the item as modified at `t`.
    pub fn mark_modified(&mut self, t: Timestamp)
        ensures
            final(self)@ == old(self)@.touched(t),
    {
        self.modified = Some(t);
    }

    /// Mark the item as deleted at `t`.
    pub fn mark_deleted(&mut self, t: Timestamp)
        ensures
            final(self)@ == (ItemView { deleted: Some(t), ..old(self)@ }),
    {
        self.deleted = Some(t);
    }

    /// Clear the deletion mark.
    pub fn restore(&mut self)
        ensures
            final(self)@ == (ItemView { deleted: None, ..old(self)@ }),
    {
        self.deleted = None;
    }

    /// Replace the editable fields: title, body and the two flags.
    pub fn apply_edit(&mut self, title: &str, body: &str, important: bool, urgent: bool)
        ensures
            final(self)@ == (ItemView { title: title@, body: body@, important, urgent, ..old(self)@ }),
    {
        self.title = String::from_str(title);
        self.body = String::from_str(body);
        self.important = important;
        self.urgent = urgent;
    }
}

} // verus!
