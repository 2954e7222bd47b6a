//! The secret objects the controller reads, and their mathematical models.

use vstd::prelude::*;

verus! {

/// One entry of a secret's binary payload map.
pub struct DataEntry {
    pub key: String,
    pub value: Vec<u8>,
}

/// Model of a [`DataEntry`].
pub struct DataEntryView {
    pub key: Seq<char>,
    pub value: Seq<u8>,
}

impl View for DataEntry {
    type V = DataEntryView;

    open spec fn view(&self) -> DataEntryView {
        DataEntryView { key: self.key@, value: self.value@ }
    }
}

impl DeepView for DataEntry {
    type V = DataEntryView;

    open spec fn deep_view(&self) -> DataEntryView {
        self.view()
    }
}

/// One entry of a secret's text payload map.
pub struct StringDataEntry {
    pub key: String,
    pub value: String,
}

/// Model of a [`StringDataEntry`].
pub struct StringDataEntryView {
    pub key: Seq<char>,
    pub value: Seq<char>,
}

impl View for StringDataEntry {
    type V = StringDataEntryView;

    open spec fn view(&self) -> StringDataEntryView {
        StringDataEntryView { key: self.key@, value: self.value@ }
    }
}

impl DeepView for StringDataEntry {
    type V = StringDataEntryView;

    open spec fn deep_view(&self) -> StringDataEntryView {
        self.view()
    }
}

/// A secret as the controller reads it from its change feed: the cluster
/// identity (a secret reported without a namespace matches no directive) and
/// the four payload fields.
pub struct Secret {
    pub name: String,
    pub namespace: Option<String>,
    pub data: Vec<DataEntry>,
    pub string_data: Vec<StringDataEntry>,
    pub type_: Option<String>,
    pub immutable: Option<bool>,
}

/// Model of a [`Secret`].
pub struct SecretView {
    pub name: Seq<char>,
    pub namespace: Option<Seq<char>>,
    pub data: Seq<DataEntryView>,
    pub string_data: Seq<StringDataEntryView>,
    pub type_: Option<Seq<char>>,
    pub immutable: Option<bool>,
}

impl View for Secret {
    type V = SecretView;

    open spec fn view(&self) -> SecretView {
        SecretView {
            name: self.name@,
            namespace: self.namespace.deep_view(),
            data: self.data.deep_view(),
            string_data: self.string_data.deep_view(),
            type_: self.type_.deep_view(),
            immutable: self.immutable,
        }
    }
}

impl DeepView for Secret {
    type V = SecretView;

    open spec fn deep_view(&self) -> SecretView {
        self.view()
    }
}

/// The part of a secret that replication must carry over verbatim.
pub struct PayloadView {
    pub data: Seq<DataEntryView>,
    pub string_data: Seq<StringDataEntryView>,
    pub type_: Option<Seq<char>>,
    pub immutable: Option<bool>,
}

impl SecretView {
    /// The payload of this secret: everything but its identity.
    pub open spec fn payload(self) -> PayloadView {
        PayloadView {
            data: self.data,
            string_data: self.string_data,
            type_: self.type_,
            immutable: self.immutable,
        }
    }
}

/// Copies a binary value.
pub fn clone_bytes(v: &Vec<u8>) -> (r: Vec<u8>)
    ensures
        r@ == v@,
{
    let r = v.clone();
    proof {
        assert forall|j: int| 0 <= j < v@.len() implies r@[j] == v@[j] by {
            assert(cloned::<u8>(v[j], r[j]));
        }
        assert(v@ =~= r@);
    }
    r
}

/// Copies one binary payload map, entry for entry.
pub fn clone_data(entries: &Vec<DataEntry>) -> (r: Vec<DataEntry>)
    ensures
        r.deep_view() == entries.deep_view(),
{
    let mut r: Vec<DataEntry> = Vec::new();
    let mut i: usize = 0;
    while i < entries.len()
        invariant
            i <= entries.len(),
            r.len() == i,
            forall|j: int| 0 <= j < i ==> r@[j]@ == entries@[j]@,
        decreases entries.len() - i,
    {
        let entry = DataEntry { key: entries[i].key.clone(), value: clone_bytes(&entries[i].value) };
        assert(entry@ == entries@[i as int]@);
        r.push(entry);
        i = i + 1;
    }
    assert(r.deep_view() =~= entries.deep_view());
    r
}

/// Copies one text payload map, entry for entry.
pub fn clone_string_data(entries: &Vec<StringDataEntry>) -> (r: Vec<StringDataEntry>)
    ensures
        r.deep_view() == entries.deep_view(),
{
    let mut r: Vec<StringDataEntry> = Vec::new();
    let mut i: usize = 0;
    while i < entries.len()
        invariant
            i <= entries.len(),
            r.len() == i,
            forall|j: int| 0 <= j < i ==> r@[j]@ == entries@[j]@,
        decreases entries.len() - i,
    {
        let entry = StringDataEntry {
            key: entries[i].key.clone(),
            value: entries[i].value.clone(),
        };
        assert(entry@ == entries@[i as int]@);
        r.push(entry);
        i = i + 1;
    }
    assert(r.deep_view() =~= entries.deep_view());
    r
}

/// Copies an optional text field.
pub fn clone_opt_string(s: &Option<String>) -> (r: Option<String>)
    ensures
        r.deep_view() == s.deep_view(),
{
    match s {
        Some(v) => Some(v.clone()),
        None => None,
    }
}

} // verus!
