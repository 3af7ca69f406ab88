//! The tag model: the typed values that a tag document is made of, and the
//! ordered, named container that holds them.
//!
//! Text (names and string payloads) is kept as the bytes that stand in the
//! stream, so that a document read and written again keeps every name as it
//! was. Floating-point payloads are kept as their bit patterns for the same
//! reason.

use vstd::prelude::*;

verus! {

/// The kind of a tag: the one-byte id that announces it in a stream.
///
/// `End` is no value. It closes a compound, and it is the customary element
/// kind of an empty list.
#[derive(Clone, Copy, PartialEq, Eq, Structural, Debug)]
pub enum TagKind {
    End,
    Byte,
    Short,
    Int,
    Long,
    Float,
    Double,
    ByteArray,
    Str,
    List,
    Compound,
    IntArray,
    LongArray,
}

/// The id that stands for `kind` in a stream.
pub open spec fn kind_id(kind: TagKind) -> u8 {
    match kind {
        TagKind::End => 0,
        TagKind::Byte => 1,
        TagKind::Short => 2,
        TagKind::Int => 3,
        TagKind::Long => 4,
        TagKind::Float => 5,
        TagKind::Double => 6,
        TagKind::ByteArray => 7,
        TagKind::Str => 8,
        TagKind::List => 9,
        TagKind::Compound => 10,
        TagKind::IntArray => 11,
        TagKind::LongArray => 12,
    }
}

/// The kind that `id` stands for, if it is one of the thirteen known ids.
pub open spec fn kind_of_id(id: u8) -> Option<TagKind> {
    if id == 0 {
        Some(TagKind::End)
    } else if id == 1 {
        Some(TagKind::Byte)
    } else if id == 2 {
        Some(TagKind::Short)
    } else if id == 3 {
        Some(TagKind::Int)
    } else if id == 4 {
        Some(TagKind::Long)
    } else if id == 5 {
        Some(TagKind::Float)
    } else if id == 6 {
        Some(TagKind::Double)
    } else if id == 7 {
        Some(TagKind::ByteArray)
    } else if id == 8 {
        Some(TagKind::Str)
    } else if id == 9 {
        Some(TagKind::List)
    } else if id == 10 {
        Some(TagKind::Compound)
    } else if id == 11 {
        Some(TagKind::IntArray)
    } else if id == 12 {
        Some(TagKind::LongArray)
    } else {
        None
    }
}

impl TagKind {
    /// The id that announces this kind in a stream.
    pub fn id(self) -> (id: u8)
        ensures
            id == kind_id(self),
            kind_of_id(id) == Some(self),
    {
        match self {
            TagKind::End => 0,
            TagKind::Byte => 1,
            TagKind::Short => 2,
            TagKind::Int => 3,
            TagKind::Long => 4,
            TagKind::Float => 5,
            TagKind::Double => 6,
            TagKind::ByteArray => 7,
            TagKind::Str => 8,
            TagKind::List => 9,
            TagKind::Compound => 10,
            TagKind::IntArray => 11,
            TagKind::LongArray => 12,
        }
    }

    /// The kind that `id` announces; `None` for an id outside the known set.
    pub fn from_id(id: u8) -> (kind: Option<TagKind>)
        ensures
            kind == kind_of_id(id),
            kind matches Some(k) ==> kind_id(k) == id,
    {
        match id {
            0 => Some(TagKind::End),
            1 => Some(TagKind::Byte),
            2 => Some(TagKind::Short),
            3 => Some(TagKind::Int),
            4 => Some(TagKind::Long),
            5 => Some(TagKind::Float),
            6 => Some(TagKind::Double),
            7 => Some(TagKind::ByteArray),
            8 => Some(TagKind::Str),
            9 => Some(TagKind::List),
            10 => Some(TagKind::Compound),
            11 => Some(TagKind::IntArray),
            12 => Some(TagKind::LongArray),
            _ => None,
        }
    }
}

/// One value of a tag document.
#[derive(Debug, PartialEq, Eq)]
pub enum Tag {
    Byte(i8),
    Short(i16),
    Int(i32),
    Long(i64),
    /// A 32-bit float, as its bit pattern.
    Float(u32),
    /// A 64-bit float, as its bit pattern.
    Double(u64),
    ByteArray(Vec<i8>),
    /// Text, as the bytes that stand in the stream.
    Str(Vec<u8>),
    List(List),
    Compound(Compound),
    IntArray(Vec<i32>),
    LongArray(Vec<i64>),
}

/// An ordered sequence of tags of one kind. The kind is kept beside the
/// items, so that an empty list still says what it is a list of.
///
/// [`List::push`] takes only tags of the list's kind. A list that was put
/// together by hand with an item of another kind cannot be encoded.
#[derive(Debug, PartialEq, Eq)]
pub struct List {
    pub kind: TagKind,
    pub items: Vec<Tag>,
}

/// A tag with the name under which a compound holds it.
#[derive(Debug, PartialEq, Eq)]
pub struct Named {
    pub name: Vec<u8>,
    pub tag: Tag,
}

/// A mapping from names to tags that keeps the order in which the names
/// were first inserted.
///
/// [`Compound::insert`] keeps the names distinct, and so does decoding.
/// Where entries that were put together by hand repeat a name, a lookup
/// sees the first of them and [`Compound::remove`] takes out all.
#[derive(Debug, PartialEq, Eq)]
pub struct Compound {
    pub entries: Vec<Named>,
}

/// The mathematical value of a [`Tag`].
pub enum TagModel {
    Byte(i8),
    Short(i16),
    Int(i32),
    Long(i64),
    Float(u32),
    Double(u64),
    ByteArray(Seq<i8>),
    Str(Seq<u8>),
    List(TagKind, Seq<TagModel>),
    Compound(Seq<(Seq<u8>, TagModel)>),
    IntArray(Seq<i32>),
    LongArray(Seq<i64>),
}

/// The mathematical value of a [`Compound`]: its entries in order.
pub type Entries = Seq<(Seq<u8>, TagModel)>;

impl View for Tag {
    type V = TagModel;

    open spec fn view(&self) -> TagModel
        decreases self,
    {
        match self {
            Tag::Byte(v) => TagModel::Byte(*v),
            Tag::Short(v) => TagModel::Short(*v),
            Tag::Int(v) => TagModel::Int(*v),
            Tag::Long(v) => TagModel::Long(*v),
            Tag::Float(v) => TagModel::Float(*v),
            Tag::Double(v) => TagModel::Double(*v),
            Tag::ByteArray(v) => TagModel::ByteArray(v@),
            Tag::Str(v) => TagModel::Str(v@),
            Tag::List(l) => TagModel::List(l.kind, l.view()),
            Tag::Compound(c) => TagModel::Compound(c.view()),
            Tag::IntArray(v) => TagModel::IntArray(v@),
            Tag::LongArray(v) => TagModel::LongArray(v@),
        }
    }
}

impl View for List {
    type V = Seq<TagModel>;

    open spec fn view(&self) -> Seq<TagModel>
        decreases self,
    {
        Seq::new(
            self.items@.len(),
            |i: int|
                if 0 <= i < self.items@.len() {
                    self.items@[i].view()
                } else {
                    TagModel::Byte(0)
                },
        )
    }
}

impl View for Compound {
    type V = Entries;

    open spec fn view(&self) -> Entries
        decreases self,
    {
        Seq::new(
            self.entries@.len(),
            |i: int|
                if 0 <= i < self.entries@.len() {
                    (self.entries@[i].name@, self.entries@[i].tag.view())
                } else {
                    (Seq::empty(), TagModel::Byte(0))
                },
        )
    }
}

/// The mathematical value of a [`Document`]: the root's name and the
/// root's entries.
pub struct DocumentModel {
    pub name: Seq<u8>,
    pub root: Entries,
}

/// A tag document: the root compound and the name it stands under.
#[derive(Debug, PartialEq, Eq)]
pub struct Document {
    pub name: Vec<u8>,
    pub root: Compound,
}

impl View for Document {
    type V = DocumentModel;

    open spec fn view(&self) -> DocumentModel {
        DocumentModel { name: self.name@, root: self.root@ }
    }
}

/// The kind of the value `t`.
pub open spec fn kind_of(t: TagModel) -> TagKind {
    match t {
        TagModel::Byte(_) => TagKind::Byte,
        TagModel::Short(_) => TagKind::Short,
        TagModel::Int(_) => TagKind::Int,
        TagModel::Long(_) => TagKind::Long,
        TagModel::Float(_) => TagKind::Float,
        TagModel::Double(_) => TagKind::Double,
        TagModel::ByteArray(_) => TagKind::ByteArray,
        TagModel::Str(_) => TagKind::Str,
        TagModel::List(_, _) => TagKind::List,
        TagModel::Compound(_) => TagKind::Compound,
        TagModel::IntArray(_) => TagKind::IntArray,
        TagModel::LongArray(_) => TagKind::LongArray,
    }
}

/// Whether some entry of `es` is named `name`.
pub open spec fn has_key(es: Entries, name: Seq<u8>) -> bool {
    exists|i: int| 0 <= i < es.len() && (#[trigger] es[i]).0 == name
}

/// The index of the first entry of `es` at or after `from` that is named
/// `name`, or -1.
pub open spec fn index_from(es: Entries, name: Seq<u8>, from: int) -> int
    decreases es.len() - from,
{
    if from < 0 || from >= es.len() {
        -1
    } else if es[from].0 == name {
        from
    } else {
        index_from(es, name, from + 1)
    }
}

/// The index of the first entry of `es` that is named `name`, or -1.
pub open spec fn index_of(es: Entries, name: Seq<u8>) -> int {
    index_from(es, name, 0)
}

/// The tag that `es` holds under `name`.
pub open spec fn lookup(es: Entries, name: Seq<u8>) -> Option<TagModel> {
    let i = index_of(es, name);
    if i >= 0 {
        Some(es[i].1)
    } else {
        None
    }
}

/// `es` with `tag` under `name`: in the place of the first entry of that
/// name, or at the end where there is none.
pub open spec fn upsert(es: Entries, name: Seq<u8>, tag: TagModel) -> Entries {
    let i = index_of(es, name);
    if i >= 0 {
        es.update(i, (name, tag))
    } else {
        es.push((name, tag))
    }
}

/// `es` without the entries named `name`, the others in their order.
pub open spec fn without(es: Entries, name: Seq<u8>) -> Entries
    decreases es.len(),
{
    if es.len() == 0 {
        es
    } else if es[0].0 == name {
        without(es.drop_first(), name)
    } else {
        seq![es[0]] + without(es.drop_first(), name)
    }
}

/// No two entries of `es` have one name.
pub open spec fn unique_names(es: Entries) -> bool {
    forall|i: int, j: int| 0 <= i < j < es.len() ==> (#[trigger] es[i]).0 != (#[trigger] es[j]).0
}

impl Tag {
    /// The kind of this tag.
    pub fn kind(&self) -> (kind: TagKind)
        ensures
            kind == kind_of(self@),
            kind != TagKind::End,
    {
        match self {
            Tag::Byte(_) => TagKind::Byte,
            Tag::Short(_) => TagKind::Short,
            Tag::Int(_) => TagKind::Int,
            Tag::Long(_) => TagKind::Long,
            Tag::Float(_) => TagKind::Float,
            Tag::Double(_) => TagKind::Double,
            Tag::ByteArray(_) => TagKind::ByteArray,
            Tag::Str(_) => TagKind::Str,
            Tag::List(_) => TagKind::List,
            Tag::Compound(_) => TagKind::Compound,
            Tag::IntArray(_) => TagKind::IntArray,
            Tag::LongArray(_) => TagKind::LongArray,
        }
    }
}

/// Whether no compound inside `t`, at any depth, holds a name twice.
pub open spec fn distinct_names(t: TagModel) -> bool
    decreases t,
{
    match t {
        TagModel::List(_, items) => items_distinct(items),
        TagModel::Compound(es) => entries_distinct(es),
        _ => true,
    }
}

/// Whether no compound inside the items holds a name twice.
pub open spec fn items_distinct(items: Seq<TagModel>) -> bool
    decreases items,
{
    forall|i: int| 0 <= i < items.len() ==> distinct_names(#[trigger] items[i])
}

/// Whether the entries `es` have distinct names, and no compound inside
/// their tags holds a name twice.
pub open spec fn entries_distinct(es: Entries) -> bool
    decreases es,
{
    unique_names(es) && forall|i: int|
        0 <= i < es.len() ==> distinct_names((#[trigger] es[i]).1)
}

/// Why a typed lookup in a compound gave no value.
#[derive(Clone, Copy, Debug, PartialEq, Eq, Structural)]
pub enum AccessError {
    /// The compound holds nothing under the name.
    MissingKey,
    /// The compound holds a tag of another kind under the name.
    TypeMismatch,
}

/// What a lookup of `name` in `es` for a tag of kind `kind` gives.
pub open spec fn lookup_as(es: Entries, name: Seq<u8>, kind: TagKind) -> Result<
    TagModel,
    AccessError,
> {
    match lookup(es, name) {
        None => Err(AccessError::MissingKey),
        Some(t) => if kind_of(t) == kind {
            Ok(t)
        } else {
            Err(AccessError::TypeMismatch)
        },
    }
}

/// Where `index_from` finds an entry, it is the first of that name at or
/// after `from`; where it finds none, there is none.
pub proof fn lemma_index_from(es: Entries, name: Seq<u8>, from: int)
    requires
        0 <= from <= es.len(),
    ensures
        index_from(es, name, from) == -1 || from <= index_from(es, name, from) < es.len(),
        index_from(es, name, from) == -1 ==> forall|j: int|
            from <= j < es.len() ==> (#[trigger] es[j]).0 != name,
        index_from(es, name, from) != -1 ==> es[index_from(es, name, from)].0 == name
            && forall|j: int|
            from <= j < index_from(es, name, from) ==> (#[trigger] es[j]).0 != name,
    decreases es.len() - from,
{
    if from < es.len() && es[from].0 != name {
        lemma_index_from(es, name, from + 1);
    }
}

/// A name has an index exactly where some entry carries it.
pub proof fn lemma_index_of_has_key(es: Entries, name: Seq<u8>)
    ensures
        has_key(es, name) <==> index_of(es, name) >= 0,
        index_of(es, name) >= 0 ==> index_of(es, name) < es.len() && es[index_of(es, name)].0
            == name,
        index_of(es, name) >= -1,
{
    lemma_index_from(es, name, 0);
}

/// A lookup goes by the first entry, and by the others where the first
/// has another name.
pub proof fn lemma_lookup_step(es: Entries, name: Seq<u8>)
    requires
        es.len() > 0,
    ensures
        es[0].0 == name ==> index_of(es, name) == 0 && lookup(es, name) == Some(es[0].1),
        es[0].0 != name ==> lookup(es, name) == lookup(es.drop_first(), name),
        es[0].0 != name ==> index_of(es, name) == if index_of(es.drop_first(), name) == -1 {
            -1
        } else {
            index_of(es.drop_first(), name) + 1
        },
        es[0].0 != name ==> (has_key(es, name) <==> has_key(es.drop_first(), name)),
{
    if es[0].0 != name {
        lemma_index_shift(es, name, 0);
        lemma_index_of_has_key(es, name);
        lemma_index_of_has_key(es.drop_first(), name);
    }
}

proof fn lemma_index_shift(es: Entries, name: Seq<u8>, k: int)
    requires
        es.len() > 0,
        0 <= k,
    ensures
        index_from(es, name, k + 1) == if index_from(es.drop_first(), name, k) == -1 {
            -1
        } else {
            index_from(es.drop_first(), name, k) + 1
        },
    decreases es.len() - k,
{
    let rest = es.drop_first();
    if k + 1 < es.len() {
        assert(rest[k] == es[k + 1]);
        if es[k + 1].0 != name {
            lemma_index_shift(es, name, k + 1);
        }
    }
}

/// The first entry of a name is the one that a lookup finds.
pub proof fn lemma_index_of_first(es: Entries, name: Seq<u8>, i: int)
    requires
        0 <= i < es.len(),
        es[i].0 == name,
        forall|j: int| 0 <= j < i ==> (#[trigger] es[j]).0 != name,
    ensures
        index_of(es, name) == i,
{
    lemma_index_from(es, name, 0);
}

/// A name that no entry carries has no index.
pub proof fn lemma_index_of_none(es: Entries, name: Seq<u8>)
    requires
        forall|j: int| 0 <= j < es.len() ==> (#[trigger] es[j]).0 != name,
    ensures
        index_of(es, name) == -1,
{
    lemma_index_from(es, name, 0);
}

/// After `tag` was put under `name`, a lookup of `name` finds it, the
/// lookup of any other name finds what it found before, and names that
/// were distinct are distinct.
pub proof fn lemma_upsert(es: Entries, name: Seq<u8>, tag: TagModel, other: Seq<u8>)
    ensures
        lookup(upsert(es, name, tag), name) == Some(tag),
        has_key(upsert(es, name, tag), name),
        other != name ==> lookup(upsert(es, name, tag), other) == lookup(es, other),
        other != name ==> has_key(upsert(es, name, tag), other) == has_key(es, other),
        unique_names(es) ==> unique_names(upsert(es, name, tag)),
        index_of(es, name) >= 0 ==> upsert(es, name, tag).len() == es.len(),
        index_of(es, name) < 0 ==> upsert(es, name, tag).len() == es.len() + 1,
{
    let up = upsert(es, name, tag);
    let i = index_of(es, name);
    lemma_index_from(es, name, 0);
    lemma_index_from(es, other, 0);
    lemma_index_of_has_key(es, other);
    lemma_index_of_has_key(up, other);
    lemma_index_of_has_key(up, name);
    if i >= 0 {
        assert(up[i].0 == name);
        assert forall|j: int| 0 <= j < up.len() implies (#[trigger] up[j]).0 == es[j].0 by {}
        lemma_index_of_first(up, name, i);
        if other != name {
            let k = index_of(es, other);
            if k >= 0 {
                assert(up[k] == es[k]);
                assert forall|j: int| 0 <= j < k implies (#[trigger] up[j]).0 != other by {
                    assert(up[j].0 == es[j].0);
                }
                lemma_index_of_first(up, other, k);
            } else {
                assert forall|j: int| 0 <= j < up.len() implies (#[trigger] up[j]).0 != other by {
                    assert(up[j].0 == es[j].0);
                }
                lemma_index_of_none(up, other);
            }
        }
        if unique_names(es) {
            assert forall|a: int, b: int| 0 <= a < b < up.len() implies (#[trigger] up[a]).0 != (
            #[trigger] up[b]).0 by {
                assert(up[a].0 == es[a].0);
                assert(up[b].0 == es[b].0);
            }
        }
    } else {
        let n = es.len() as int;
        assert(up[n].0 == name);
        assert forall|j: int| 0 <= j < n implies (#[trigger] up[j]).0 != name by {
            assert(up[j] == es[j]);
        }
        lemma_index_of_first(up, name, n);
        if other != name {
            let k = index_of(es, other);
            if k >= 0 {
                assert(up[k] == es[k]);
                assert forall|j: int| 0 <= j < k implies (#[trigger] up[j]).0 != other by {
                    assert(up[j] == es[j]);
                }
                lemma_index_of_first(up, other, k);
            } else {
                assert forall|j: int| 0 <= j < up.len() implies (#[trigger] up[j]).0 != other by {
                    if j < n {
                        assert(up[j] == es[j]);
                    }
                }
                lemma_index_of_none(up, other);
            }
        }
        if unique_names(es) {
            assert forall|a: int, b: int| 0 <= a < b < up.len() implies (#[trigger] up[a]).0 != (
            #[trigger] up[b]).0 by {
                assert(up[a] == es[a]);
                if b < n {
                    assert(up[b] == es[b]);
                }
            }
        }
    }
}

/// Every entry that is left when a name is taken out was there before and
/// has another name.
pub proof fn lemma_without_entries(es: Entries, name: Seq<u8>)
    ensures
        without(es, name).len() <= es.len(),
        forall|i: int|
            0 <= i < without(es, name).len() ==> (#[trigger] without(es, name)[i]).0 != name
                && exists|j: int| 0 <= j < es.len() && es[j] == without(es, name)[i],
    decreases es.len(),
{
    if es.len() > 0 {
        let rest = es.drop_first();
        let w = without(es, name);
        let wr = without(rest, name);
        lemma_without_entries(rest, name);
        assert forall|i: int| 0 <= i < w.len() implies (#[trigger] w[i]).0 != name && exists|
            j: int,
        | 0 <= j < es.len() && es[j] == w[i] by {
            if es[0].0 == name {
                let j = choose|j: int| 0 <= j < rest.len() && rest[j] == wr[i];
                assert(es[j + 1] == w[i]);
            } else if i == 0 {
                assert(es[0] == w[0]);
            } else {
                assert(w[i] == wr[i - 1]);
                let j = choose|j: int| 0 <= j < rest.len() && rest[j] == wr[i - 1];
                assert(es[j + 1] == w[i]);
            }
        }
    }
}

/// Taking a name out leaves no entry of that name.
pub proof fn lemma_without_absent(es: Entries, name: Seq<u8>)
    ensures
        !has_key(without(es, name), name),
{
    lemma_without_entries(es, name);
    let w = without(es, name);
    if has_key(w, name) {
        let i = choose|i: int| 0 <= i < w.len() && (#[trigger] w[i]).0 == name;
        assert(w[i].0 != name);
    }
}

/// Taking a name out shortens the entries exactly where the name was
/// there, and changes nothing where it was not.
pub proof fn lemma_without_len(es: Entries, name: Seq<u8>)
    ensures
        without(es, name).len() <= es.len(),
        has_key(es, name) <==> without(es, name).len() < es.len(),
        !has_key(es, name) ==> without(es, name) == es,
    decreases es.len(),
{
    if es.len() > 0 {
        let rest = es.drop_first();
        lemma_without_len(rest, name);
        lemma_lookup_step(es, name);
        if es[0].0 == name {
            assert(has_key(es, name));
        } else {
            assert(without(es, name).drop_first() =~= without(rest, name));
            if !has_key(es, name) {
                assert(without(es, name) =~= es);
            }
        }
    } else {
        assert(!has_key(es, name));
    }
}

/// Taking a name out keeps the tag of every other name.
pub proof fn lemma_without_lookup(es: Entries, name: Seq<u8>, other: Seq<u8>)
    requires
        other != name,
    ensures
        lookup(without(es, name), other) == lookup(es, other),
        has_key(without(es, name), other) == has_key(es, other),
    decreases es.len(),
{
    let w = without(es, name);
    lemma_index_of_has_key(es, other);
    lemma_index_of_has_key(w, other);
    if es.len() > 0 {
        let rest = es.drop_first();
        lemma_without_lookup(rest, name, other);
        lemma_index_of_has_key(rest, other);
        lemma_index_of_has_key(without(rest, name), other);
        lemma_lookup_step(es, other);
        if es[0].0 != name {
            assert(w.drop_first() =~= without(rest, name));
            assert(w[0] == es[0]);
            lemma_lookup_step(w, other);
        }
    }
}

/// Taking a name out of entries with distinct names leaves distinct names.
pub proof fn lemma_without_unique(es: Entries, name: Seq<u8>)
    requires
        unique_names(es),
    ensures
        unique_names(without(es, name)),
    decreases es.len(),
{
    let w = without(es, name);
    if es.len() > 0 {
        let rest = es.drop_first();
        let wr = without(rest, name);
        assert forall|i: int, j: int| 0 <= i < j < rest.len() implies (#[trigger] rest[i]).0 != (
        #[trigger] rest[j]).0 by {
            assert(rest[i] == es[i + 1]);
            assert(rest[j] == es[j + 1]);
        }
        lemma_without_unique(rest, name);
        lemma_without_entries(rest, name);
        if es[0].0 != name {
            assert forall|i: int, j: int| 0 <= i < j < w.len() implies (#[trigger] w[i]).0 != (
            #[trigger] w[j]).0 by {
                assert(w[j] == wr[j - 1]);
                if i == 0 {
                    let k = choose|k: int| 0 <= k < rest.len() && rest[k] == wr[j - 1];
                    assert(rest[k] == es[k + 1]);
                } else {
                    assert(w[i] == wr[i - 1]);
                }
            }
        }
    }
}

/// Whether the two slices hold the same bytes.
pub fn bytes_eq(a: &[u8], b: &[u8]) -> (same: bool)
    ensures
        same == (a@ == b@),
{
    if a.len() != b.len() {
        return false;
    }
    let mut i: usize = 0;
    while i < a.len()
        invariant
            a@.len() == b@.len(),
            i <= a@.len(),
            forall|j: int| 0 <= j < i ==> a@[j] == b@[j],
        decreases a@.len() - i,
    {
        if a[i] != b[i] {
            return false;
        }
        i += 1;
    }
    assert(a@ =~= b@);
    true
}

/// A copy of the bytes of `a`.
pub fn bytes_to_vec(a: &[u8]) -> (v: Vec<u8>)
    ensures
        v@ == a@,
{
    let mut v: Vec<u8> = Vec::new();
    let mut i: usize = 0;
    while i < a.len()
        invariant
            i <= a@.len(),
            v@ == a@.take(i as int),
        decreases a@.len() - i,
    {
        v.push(a[i]);
        assert(a@.take(i + 1) =~= a@.take(i as int).push(a@[i as int]));
        i += 1;
    }
    assert(a@.take(a@.len() as int) =~= a@);
    v
}

impl List {
    /// An empty list of tags of kind `kind`.
    pub fn new(kind: TagKind) -> (list: List)
        ensures
            list.kind == kind,
            list@ == Seq::<TagModel>::empty(),
    {
        let list = List { kind, items: Vec::new() };
        assert(list@ =~= Seq::<TagModel>::empty());
        list
    }

    /// The number of items.
    pub fn len(&self) -> (n: usize)
        ensures
            n == self@.len(),
    {
        self.items.len()
    }

    /// Puts `tag` behind the items of the list, where it is of the list's
    /// kind; a tag of another kind is refused and the list left as it was.
    pub fn push(&mut self, tag: Tag) -> (r: Result<(), AccessError>)
        ensures
            final(self).kind == old(self).kind,
            match r {
                Ok(_) => kind_of(tag@) == old(self).kind && final(self)@ == old(self)@.push(tag@),
                Err(e) => e == AccessError::TypeMismatch && kind_of(tag@) != old(self).kind
                    && final(self)@ == old(self)@,
            },
    {
        if tag.kind() != self.kind {
            return Err(AccessError::TypeMismatch);
        }
        self.items.push(tag);
        assert(self@ =~= old(self)@.push(tag@));
        Ok(())
    }
}

impl Compound {
    /// A compound without entries.
    pub fn new() -> (c: Compound)
        ensures
            c@ == Seq::<(Seq<u8>, TagModel)>::empty(),
    {
        let c = Compound { entries: Vec::new() };
        assert(c@ =~= Seq::<(Seq<u8>, TagModel)>::empty());
        c
    }

    /// The number of entries.
    pub fn len(&self) -> (n: usize)
        ensures
            n == self@.len(),
    {
        self.entries.len()
    }

    /// The index of the first entry named `name`.
    pub fn position(&self, name: &[u8]) -> (at: Option<usize>)
        ensures
            match at {
                Some(i) => i == index_of(self@, name@) && i < self.entries@.len(),
                None => index_of(self@, name@) == -1,
            },
    {
        let mut i: usize = 0;
        while i < self.entries.len()
            invariant
                i <= self.entries@.len(),
                self@.len() == self.entries@.len(),
                index_of(self@, name@) == index_from(self@, name@, i as int),
            decreases self.entries@.len() - i,
        {
            if bytes_eq(self.entries[i].name.as_slice(), name) {
                return Some(i);
            }
            i += 1;
        }
        None
    }

    /// Whether an entry is named `name`.
    pub fn contains_key(&self, name: &[u8]) -> (found: bool)
        ensures
            found == has_key(self@, name@),
    {
        proof {
            lemma_index_of_has_key(self@, name@);
        }
        self.position(name).is_some()
    }

    /// The tag under `name`.
    pub fn get(&self, name: &[u8]) -> (found: Option<&Tag>)
        ensures
            match found {
                Some(t) => lookup(self@, name@) == Some(t@),
                None => lookup(self@, name@) == None::<TagModel>,
            },
    {
        match self.position(name) {
            Some(i) => Some(&self.entries[i].tag),
            None => None,
        }
    }

    /// The tag under `name`, where it is of kind `kind`. A name that is
    /// absent and a tag of another kind are told apart.
    pub fn get_as(&self, name: &[u8], kind: TagKind) -> (found: Result<&Tag, AccessError>)
        ensures
            match found {
                Ok(t) => lookup_as(self@, name@, kind) == Ok::<TagModel, AccessError>(t@),
                Err(e) => lookup_as(self@, name@, kind) == Err::<TagModel, AccessError>(e),
            },
    {
        match self.get(name) {
            None => Err(AccessError::MissingKey),
            Some(t) => if t.kind() == kind {
                Ok(t)
            } else {
                Err(AccessError::TypeMismatch)
            },
        }
    }

    /// The byte under `name`.
    pub fn get_byte(&self, name: &[u8]) -> (found: Result<i8, AccessError>)
        ensures
            match found {
                Ok(v) => lookup(self@, name@) == Some(TagModel::Byte(v)),
                Err(e) => lookup_as(self@, name@, TagKind::Byte) == Err::<TagModel, AccessError>(e),
            },
    {
        match self.get(name) {
            None => Err(AccessError::MissingKey),
            Some(t) => match t {
                Tag::Byte(v) => Ok(*v),
                _ => Err(AccessError::TypeMismatch),
            },
        }
    }

    /// Puts `tag` under `name`: in the place of the tag that the name had,
    /// or behind all entries where it had none.
    pub fn insert(&mut self, name: Vec<u8>, tag: Tag)
        ensures
            final(self)@ == upsert(old(self)@, name@, tag@),
    {
        match self.position(name.as_slice()) {
            Some(i) => {
                self.entries[i] = Named { name, tag };
                assert(self@ =~= upsert(old(self)@, name@, tag@));
            },
            None => {
                self.entries.push(Named { name, tag });
                assert(self@ =~= upsert(old(self)@, name@, tag@));
            },
        }
    }

    /// Takes out every entry named `name` and says whether there was one.
    pub fn remove(&mut self, name: &[u8]) -> (removed: bool)
        ensures
            final(self)@ == without(old(self)@, name@),
            removed == has_key(old(self)@, name@),
    {
        let mut removed = false;
        let mut i: usize = 0;
        assert(self@.skip(0) =~= self@);
        assert(self@.take(0) + without(self@, name@) =~= without(self@, name@));
        while i < self.entries.len()
            invariant
                i <= self.entries@.len(),
                self@.len() == self.entries@.len(),
                self@.len() <= old(self)@.len(),
                removed <==> self@.len() < old(self)@.len(),
                without(old(self)@, name@) == self@.take(i as int) + without(
                    self@.skip(i as int),
                    name@,
                ),
            decreases self.entries@.len() - i,
        {
            let ghost before = self@;
            assert(before.skip(i as int).drop_first() =~= before.skip(i + 1));
            assert(before.skip(i as int)[0] == before[i as int]);
            if bytes_eq(self.entries[i].name.as_slice(), name) {
                self.entries.remove(i);
                removed = true;
                assert(self@ =~= before.remove(i as int));
                assert(self@.take(i as int) =~= before.take(i as int));
                assert(self@.skip(i as int) =~= before.skip(i + 1));
            } else {
                assert(before.take(i + 1) =~= before.take(i as int) + seq![before[i as int]]);
                assert(before.take(i as int) + (seq![before[i as int]] + without(
                    before.skip(i + 1),
                    name@,
                )) =~= before.take(i + 1) + without(before.skip(i + 1), name@));
                i += 1;
            }
        }
        assert(self@.skip(i as int) =~= Seq::<(Seq<u8>, TagModel)>::empty());
        assert(self@.take(i as int) =~= self@);
        assert(self@ + Seq::<(Seq<u8>, TagModel)>::empty() =~= self@);
        proof {
            lemma_without_len(old(self)@, name@);
        }
        removed
    }
}

} // verus!
