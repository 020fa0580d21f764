//! Analysis of message descriptors into storage definitions.
use vstd::prelude::*;

verus! {

/// Descriptor type code of a `string` field.
pub const TYPE_STRING: i32 = 9;

/// Descriptor label code of a `repeated` field.
pub const LABEL_REPEATED: i32 = 3;

/// One field of a message, as the schema compiler describes it.
#[derive(Debug)]
pub struct FieldDescriptor {
    pub name: String,
    pub type_code: i32,
    pub label: i32,
    /// The custom field option marking the record's identifier.
    pub identifier: Option<bool>,
}

/// One message type, with its fields in declaration order.
#[derive(Debug)]
pub struct MessageDescriptor {
    pub name: String,
    pub fields: Vec<FieldDescriptor>,
    /// The custom message option marking a single-record type.
    pub single_record: Option<bool>,
    /// The custom message option asking for case-insensitive identifiers.
    pub case_insensitive: Option<bool>,
}

/// One schema file, with its message types in declaration order.
#[derive(Debug)]
pub struct FileDescriptor {
    pub messages: Vec<MessageDescriptor>,
}

/// The compiled schema: files in order.
#[derive(Debug)]
pub struct FileDescriptorSet {
    pub files: Vec<FileDescriptor>,
}

/// A collection: many records, each keyed by its identifier field, in a
/// partition named after the type.
#[derive(Debug)]
pub struct CollectionDef {
    pub name: String,
    pub key_field: String,
    pub case_insensitive: bool,
}

/// A single record: one instance, stored under the type's name in the shared
/// single-record partition.
#[derive(Debug)]
pub struct SingleRecordDef {
    pub name: String,
}

/// What the analysis derives for one message type.
#[derive(Debug)]
pub enum Definition {
    Collection(CollectionDef),
    SingleRecord(SingleRecordDef),
}

pub enum DefinitionView {
    Collection { name: Seq<char>, key_field: Seq<char>, case_insensitive: bool },
    SingleRecord { name: Seq<char> },
}

impl View for Definition {
    type V = DefinitionView;

    open spec fn view(&self) -> DefinitionView {
        match self {
            Definition::Collection(c) => DefinitionView::Collection {
                name: c.name@,
                key_field: c.key_field@,
                case_insensitive: c.case_insensitive,
            },
            Definition::SingleRecord(d) => DefinitionView::SingleRecord { name: d.name@ },
        }
    }
}

/// An invalid identifier declaration; each variant names the message type.
#[derive(Debug)]
pub enum SchemaError {
    /// More than one field is marked as identifier.
    MultipleIdentifiers(String),
    /// The identifier field is not a string.
    NonStringIdentifier(String),
    /// The identifier field is repeated.
    RepeatedIdentifier(String),
}

pub enum SchemaErrorView {
    MultipleIdentifiers(Seq<char>),
    NonStringIdentifier(Seq<char>),
    RepeatedIdentifier(Seq<char>),
}

impl View for SchemaError {
    type V = SchemaErrorView;

    open spec fn view(&self) -> SchemaErrorView {
        match self {
            SchemaError::MultipleIdentifiers(n) => SchemaErrorView::MultipleIdentifiers(n@),
            SchemaError::NonStringIdentifier(n) => SchemaErrorView::NonStringIdentifier(n@),
            SchemaError::RepeatedIdentifier(n) => SchemaErrorView::RepeatedIdentifier(n@),
        }
    }
}

pub open spec fn is_identifier(f: FieldDescriptor) -> bool {
    f.identifier == Some(true)
}

/// How many fields are marked as identifier.
pub open spec fn identifier_count(fields: Seq<FieldDescriptor>) -> nat
    decreases fields.len(),
{
    if fields.len() == 0 {
        0
    } else {
        identifier_count(fields.drop_last()) + if is_identifier(fields.last()) {
            1nat
        } else {
            0nat
        }
    }
}

/// Index of the last field marked as identifier, or -1 when there is none.
pub open spec fn identifier_index(fields: Seq<FieldDescriptor>) -> int
    decreases fields.len(),
{
    if fields.len() == 0 {
        -1
    } else if is_identifier(fields.last()) {
        fields.len() - 1
    } else {
        identifier_index(fields.drop_last())
    }
}

/// The collection a message defines, if it has an identifier field.
pub open spec fn collection_of(m: MessageDescriptor) -> Result<
    Option<DefinitionView>,
    SchemaErrorView,
> {
    let fields = m.fields@;
    if identifier_count(fields) > 1 {
        Err(SchemaErrorView::MultipleIdentifiers(m.name@))
    } else if identifier_count(fields) == 1 {
        let f = fields[identifier_index(fields)];
        if f.type_code != TYPE_STRING {
            Err(SchemaErrorView::NonStringIdentifier(m.name@))
        } else if f.label == LABEL_REPEATED {
            Err(SchemaErrorView::RepeatedIdentifier(m.name@))
        } else {
            Ok(
                Some(
                    DefinitionView::Collection {
                        name: m.name@,
                        key_field: f.name@,
                        case_insensitive: m.case_insensitive == Some(true),
                    },
                ),
            )
        }
    } else {
        Ok(None)
    }
}

/// The single record a message defines, if it carries the option.
pub open spec fn single_record_of(m: MessageDescriptor) -> Option<DefinitionView> {
    if m.single_record == Some(true) {
        Some(DefinitionView::SingleRecord { name: m.name@ })
    } else {
        None
    }
}

/// The classification of one message: a collection first, else a single
/// record, else nothing.
pub open spec fn definition_of(m: MessageDescriptor) -> Result<
    Option<DefinitionView>,
    SchemaErrorView,
> {
    match collection_of(m) {
        Ok(None) => Ok(single_record_of(m)),
        other => other,
    }
}

/// A prefix one field longer is the shorter prefix followed by that field.
proof fn lemma_fields_step(fields: Seq<FieldDescriptor>, i: int)
    requires
        0 <= i < fields.len(),
    ensures
        fields.subrange(0, i + 1).drop_last() == fields.subrange(0, i),
        fields.subrange(0, i + 1).last() == fields[i],
{
    assert(fields.subrange(0, i + 1).drop_last() =~= fields.subrange(0, i));
}

proof fn lemma_index_in_range(fields: Seq<FieldDescriptor>)
    requires
        identifier_count(fields) >= 1,
    ensures
        0 <= identifier_index(fields) < fields.len(),
        is_identifier(fields[identifier_index(fields)]),
    decreases fields.len(),
{
    if !is_identifier(fields.last()) {
        lemma_index_in_range(fields.drop_last());
    }
}

/// Derives the collection that `dp` defines: `None` when no field is marked
/// as identifier, an error when the marking is ambiguous or invalid.
pub fn generate_collection(dp: &MessageDescriptor) -> (r: Result<Option<Definition>, SchemaError>)
    ensures
        match r {
            Ok(Some(d)) => collection_of(*dp) == Ok::<_, SchemaErrorView>(Some(d@)),
            Ok(None) => collection_of(*dp) == Ok::<_, SchemaErrorView>(None::<DefinitionView>),
            Err(e) => collection_of(*dp) == Err::<Option<DefinitionView>, _>(e@),
        },
{
    let fields = &dp.fields;
    let mut count: usize = 0;
    let mut found: usize = 0;
    let mut i: usize = 0;
    while i < fields.len()
        invariant
            i <= fields@.len(),
            count == identifier_count(fields@.subrange(0, i as int)),
            count <= i,
            count > 0 ==> found as int == identifier_index(fields@.subrange(0, i as int)),
        decreases fields@.len() - i,
    {
        proof {
            lemma_fields_step(fields@, i as int);
        }
        if fields[i].identifier == Some(true) {
            count = count + 1;
            found = i;
        }
        i = i + 1;
    }
    assert(fields@.subrange(0, fields@.len() as int) =~= fields@);
    if count > 1 {
        return Err(SchemaError::MultipleIdentifiers(dp.name.clone()));
    }
    if count == 0 {
        return Ok(None);
    }
    proof {
        lemma_index_in_range(fields@);
    }
    let id_field = &fields[found];
    if id_field.type_code != TYPE_STRING {
        return Err(SchemaError::NonStringIdentifier(dp.name.clone()));
    }
    if id_field.label == LABEL_REPEATED {
        return Err(SchemaError::RepeatedIdentifier(dp.name.clone()));
    }
    Ok(
        Some(
            Definition::Collection(
                CollectionDef {
                    name: dp.name.clone(),
                    key_field: id_field.name.clone(),
                    case_insensitive: dp.case_insensitive == Some(true),
                },
            ),
        ),
    )
}

/// Derives the single record that `dp` defines, if it carries the
/// single-record option.
pub fn generate_single_record(dp: &MessageDescriptor) -> (r: Option<Definition>)
    ensures
        match r {
            Some(d) => single_record_of(*dp) == Some(d@),
            None => single_record_of(*dp) == None::<DefinitionView>,
        },
{
    if dp.single_record == Some(true) {
        Some(Definition::SingleRecord(SingleRecordDef { name: dp.name.clone() }))
    } else {
        None
    }
}

/// Classifies one message type: a collection when it has an identifier
/// field, else a single record when it carries that option, else nothing.
pub fn process_dp(dp: &MessageDescriptor) -> (r: Result<Option<Definition>, SchemaError>)
    ensures
        match r {
            Ok(Some(d)) => definition_of(*dp) == Ok::<_, SchemaErrorView>(Some(d@)),
            Ok(None) => definition_of(*dp) == Ok::<_, SchemaErrorView>(None::<DefinitionView>),
            Err(e) => definition_of(*dp) == Err::<Option<DefinitionView>, _>(e@),
        },
{
    match generate_collection(dp) {
        Ok(None) => Ok(generate_single_record(dp)),
        other => other,
    }
}

/// Every message of the set, file after file, in declaration order.
pub open spec fn all_messages(files: Seq<FileDescriptor>) -> Seq<MessageDescriptor>
    decreases files.len(),
{
    if files.len() == 0 {
        Seq::empty()
    } else {
        all_messages(files.drop_last()) + files.last().messages@
    }
}

/// The definitions of a sequence of messages in order, or the error of the
/// first message that is invalid.
pub open spec fn analysis(msgs: Seq<MessageDescriptor>) -> Result<
    Seq<DefinitionView>,
    SchemaErrorView,
>
    decreases msgs.len(),
{
    if msgs.len() == 0 {
        Ok(Seq::empty())
    } else {
        match analysis(msgs.drop_last()) {
            Err(e) => Err(e),
            Ok(defs) => match definition_of(msgs.last()) {
                Err(e) => Err(e),
                Ok(None) => Ok(defs),
                Ok(Some(d)) => Ok(defs.push(d)),
            },
        }
    }
}

proof fn lemma_analysis_error_sticks(msgs: Seq<MessageDescriptor>, more: Seq<MessageDescriptor>)
    requires
        analysis(msgs) is Err,
    ensures
        analysis(msgs + more) == analysis(msgs),
    decreases more.len(),
{
    if more.len() > 0 {
        lemma_analysis_error_sticks(msgs, more.drop_last());
        assert((msgs + more).drop_last() =~= msgs + more.drop_last());
    } else {
        assert(msgs + more =~= msgs);
    }
}

pub open spec fn views(defs: Seq<Definition>) -> Seq<DefinitionView> {
    defs.map_values(|d: Definition| d@)
}

/// Analyses a whole descriptor set: the definitions of all its messages in
/// order, or the error of the first invalid message.
pub fn process_fds(fds: &FileDescriptorSet) -> (r: Result<Vec<Definition>, SchemaError>)
    ensures
        match r {
            Ok(defs) => analysis(all_messages(fds.files@)) == Ok::<_, SchemaErrorView>(
                views(defs@),
            ),
            Err(e) => analysis(all_messages(fds.files@)) == Err::<Seq<DefinitionView>, _>(e@),
        },
{
    let files = &fds.files;
    let mut defs: Vec<Definition> = Vec::new();
    let mut i: usize = 0;
    assert(files@.subrange(0, 0) =~= Seq::<FileDescriptor>::empty());
    assert(views(defs@) =~= Seq::<DefinitionView>::empty());
    while i < files.len()
        invariant
            files@ == fds.files@,
            i <= files@.len(),
            analysis(all_messages(files@.subrange(0, i as int))) == Ok::<_, SchemaErrorView>(
                views(defs@),
            ),
        decreases files@.len() - i,
    {
        let ghost done = all_messages(files@.subrange(0, i as int));
        let msgs = &files[i].messages;
        let mut j: usize = 0;
        assert(done + msgs@.subrange(0, 0) =~= done);
        while j < msgs.len()
            invariant
                files@ == fds.files@,
                i < files@.len(),
                msgs == files@[i as int].messages,
                done == all_messages(files@.subrange(0, i as int)),
                j <= msgs@.len(),
                analysis(done + msgs@.subrange(0, j as int)) == Ok::<_, SchemaErrorView>(
                    views(defs@),
                ),
            decreases msgs@.len() - j,
        {
            let ghost before = done + msgs@.subrange(0, j as int);
            assert((done + msgs@.subrange(0, j as int + 1)).drop_last() =~= before);
            assert((done + msgs@.subrange(0, j as int + 1)).last() == msgs@[j as int]);
            let ghost before_defs = defs@;
            match process_dp(&msgs[j]) {
                Err(e) => {
                    proof {
                        let after = done + msgs@.subrange(0, j as int + 1);
                        assert(analysis(after) == Err::<Seq<DefinitionView>, _>(e@));
                        lemma_analysis_error_sticks(after, msgs@.subrange(j as int + 1, msgs@.len() as int));
                        assert(after + msgs@.subrange(j as int + 1, msgs@.len() as int) =~= done + msgs@);
                        let upto = files@.subrange(0, i as int + 1);
                        assert(upto.drop_last() =~= files@.subrange(0, i as int));
                        assert(upto.last() == files@[i as int]);
                        assert(all_messages(upto) == done + msgs@);
                        lemma_analysis_error_sticks(all_messages(upto), all_messages_from(files@, i as int + 1));
                        lemma_all_messages_split(files@, i as int + 1);
                        assert(analysis(all_messages(files@)) == Err::<Seq<DefinitionView>, _>(e@));
                    }
                    return Err(e);
                },
                Ok(None) => {},
                Ok(Some(d)) => {
                    defs.push(d);
                    assert(views(defs@) =~= views(before_defs).push(d@));
                },
            }
            j = j + 1;
        }
        proof {
            assert(msgs@.subrange(0, msgs@.len() as int) =~= msgs@);
            assert(files@.subrange(0, i as int + 1).drop_last() =~= files@.subrange(0, i as int));
            assert(files@.subrange(0, i as int + 1).last() == files@[i as int]);
        }
        i = i + 1;
    }
    assert(files@.subrange(0, files@.len() as int) =~= files@);
    Ok(defs)
}

/// The messages of the files from index `k` on.
spec fn all_messages_from(files: Seq<FileDescriptor>, k: int) -> Seq<MessageDescriptor> {
    all_messages(files.subrange(k, files.len() as int))
}

proof fn lemma_all_messages_concat(a: Seq<FileDescriptor>, b: Seq<FileDescriptor>)
    ensures
        all_messages(a + b) == all_messages(a) + all_messages(b),
    decreases b.len(),
{
    if b.len() == 0 {
        assert(a + b =~= a);
        assert(all_messages(a) + all_messages(b) =~= all_messages(a));
    } else {
        lemma_all_messages_concat(a, b.drop_last());
        assert((a + b).drop_last() =~= a + b.drop_last());
        assert((a + b).last() == b.last());
        assert(all_messages(a + b) =~= all_messages(a) + all_messages(b));
    }
}

proof fn lemma_all_messages_split(files: Seq<FileDescriptor>, k: int)
    requires
        0 <= k <= files.len(),
    ensures
        all_messages(files) == all_messages(files.subrange(0, k)) + all_messages_from(files, k),
{
    lemma_all_messages_concat(files.subrange(0, k), files.subrange(k, files.len() as int));
    assert(files.subrange(0, k) + files.subrange(k, files.len() as int) =~= files);
}

} // verus!
