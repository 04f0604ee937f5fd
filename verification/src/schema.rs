//! The declaration of an entity: the options that a record type is
//! declared with, read from the attributes on its definition and checked
//! against its fields.
//!
//! The attributes arrive here as plain values: a front end turns the
//! syntax of the declaration into the types of this module, and reports
//! the problems that this module finds at the attribute they belong to.

use vstd::prelude::*;
use vstd::string::StringExecFns;
use vstd::utf8::encode_utf8_decode_utf8;
use crate::codec::same_bytes;
use crate::family::DeletionBehaviour;
use crate::lexing::{number_in, parsed_u32, text_view};

verus! {

/// Whether two texts are the same.
pub fn same_text(a: &str, b: &str) -> (r: bool)
    ensures
        r == (a@ == b@),
{
    let r = same_bytes(a.as_bytes(), b.as_bytes());
    proof {
        encode_utf8_decode_utf8(a@);
        encode_utf8_decode_utf8(b@);
    }
    r
}

/// The policy that a name stands for, if any.
pub open spec fn policy_named(name: Seq<char>) -> Option<DeletionBehaviour> {
    if name == "Cascade"@ {
        Some(DeletionBehaviour::Cascade)
    } else if name == "BreakLink"@ {
        Some(DeletionBehaviour::BreakLink)
    } else if name == "Error"@ {
        Some(DeletionBehaviour::Error)
    } else {
        None
    }
}

/// The policy that `name` stands for: one of `Cascade`, `BreakLink` and
/// `Error`.
pub fn policy_from_name(name: &str) -> (policy: Option<DeletionBehaviour>)
    ensures
        policy == policy_named(name@),
{
    if same_text(name, "Cascade") {
        Some(DeletionBehaviour::Cascade)
    } else if same_text(name, "BreakLink") {
        Some(DeletionBehaviour::BreakLink)
    } else if same_text(name, "Error") {
        Some(DeletionBehaviour::Error)
    } else {
        None
    }
}

/// One token of what stands between the parentheses of a relation.
#[derive(Debug)]
pub enum Token {
    /// A string literal, with its value.
    Str(String),
    /// An identifier.
    Ident(String),
    /// Anything else.
    Other,
}

/// A declared relation: the name of the other store, and the policy.
#[derive(Debug)]
pub struct Relation(pub String, pub DeletionBehaviour);

/// The relations declared by one attribute.
#[derive(Debug)]
pub struct Relations(pub Vec<Relation>);

impl View for Relation {
    type V = (Seq<char>, DeletionBehaviour);

    open spec fn view(&self) -> (Seq<char>, DeletionBehaviour) {
        (self.0@, self.1)
    }
}

impl View for Relations {
    type V = Seq<(Seq<char>, DeletionBehaviour)>;

    open spec fn view(&self) -> Seq<(Seq<char>, DeletionBehaviour)> {
        Seq::new(self.0@.len(), |i: int| self.0@[i]@)
    }
}

/// The view of what reading a declaration gives: a value, or the text of
/// a complaint.
pub open spec fn outcome_view<T: View>(r: Result<T, String>) -> Result<T::V, Seq<char>> {
    match r {
        Ok(value) => Ok(value@),
        Err(message) => Err(message@),
    }
}

/// The complaint about a relation that is not a pair.
pub open spec fn relation_syntax() -> Seq<char> {
    "A relation must respect the syntax (\"store_name\",Cascade)"@
}

/// The complaint about a relation whose first part is no string.
pub open spec fn relation_first() -> Seq<char> {
    "The first part of the relation must be the store name as a string."@
}

/// The complaint about a relation whose second part is no policy.
pub open spec fn relation_second() -> Seq<char> {
    "The second part of the relation must be either Cascade, BreakLink or Error"@
}

/// The relation that the tokens between one pair of parentheses declare:
/// a string literal and the name of a policy.
pub open spec fn relation_of(group: Seq<Token>) -> Result<(Seq<char>, DeletionBehaviour), Seq<char>> {
    if group.len() != 2 {
        Err(relation_syntax())
    } else {
        match (group[0], group[1]) {
            (Token::Str(name), Token::Ident(policy)) => match policy_named(policy@) {
                Some(policy) => Ok((name@, policy)),
                None => Err(relation_second()),
            },
            (_, Token::Ident(_)) => Err(relation_first()),
            (Token::Str(_), _) => Err(relation_second()),
            _ => Err(relation_syntax()),
        }
    }
}

/// The relations that a list of parenthesised groups declares: all of
/// them, if there is at least one and each is a relation; else the
/// complaint about the first that is none.
pub open spec fn relations_of(groups: Seq<Vec<Token>>) -> Result<
    Seq<(Seq<char>, DeletionBehaviour)>,
    Seq<char>,
>
    decreases groups.len(),
{
    if groups.len() == 0 {
        Err(relation_syntax())
    } else if groups.len() == 1 {
        match relation_of(groups[0]@) {
            Ok(relation) => Ok(seq![relation]),
            Err(message) => Err(message),
        }
    } else {
        match relations_of(groups.drop_last()) {
            Err(message) => Err(message),
            Ok(relations) => match relation_of(groups.last()@) {
                Ok(relation) => Ok(relations.push(relation)),
                Err(message) => Err(message),
            },
        }
    }
}

impl Relation {
    /// Reads a relation from the tokens between one pair of parentheses.
    pub fn parse(group: &Vec<Token>) -> (r: Result<Relation, String>)
        ensures
            outcome_view(r) == relation_of(group@),
    {
        if group.len() != 2 {
            return Err(
                String::from_str("A relation must respect the syntax (\"store_name\",Cascade)"),
            );
        }
        match (&group[0], &group[1]) {
            (Token::Str(name), Token::Ident(policy)) => match policy_from_name(policy.as_str()) {
                Some(policy) => Ok(Relation(name.clone(), policy)),
                None => Err(
                    String::from_str(
                        "The second part of the relation must be either Cascade, BreakLink or Error",
                    ),
                ),
            },
            (_, Token::Ident(_)) => Err(
                String::from_str("The first part of the relation must be the store name as a string."),
            ),
            (Token::Str(_), _) => Err(
                String::from_str(
                    "The second part of the relation must be either Cascade, BreakLink or Error",
                ),
            ),
            _ => Err(
                String::from_str("A relation must respect the syntax (\"store_name\",Cascade)"),
            ),
        }
    }
}

impl Relations {
    /// No relations.
    pub fn new() -> (r: Relations)
        ensures
            r@ == Seq::<(Seq<char>, DeletionBehaviour)>::empty(),
    {
        let r = Relations(Vec::new());
        assert(r@ =~= Seq::<(Seq<char>, DeletionBehaviour)>::empty());
        r
    }

    /// Reads the relations of one attribute from its parenthesised
    /// groups. There must be at least one.
    pub fn parse(groups: &Vec<Vec<Token>>) -> (r: Result<Relations, String>)
        ensures
            outcome_view(r) == relations_of(groups@),
    {
        if groups.len() == 0 {
            return Err(
                String::from_str("A relation must respect the syntax (\"store_name\",Cascade)"),
            );
        }
        let mut found: Vec<Relation> = Vec::new();
        let mut i: usize = 0;
        while i < groups.len()
            invariant
                i <= groups@.len(),
                groups@.len() > 0,
                found@.len() == i,
                i > 0 ==> relations_of(groups@.take(i as int)) == Ok::<
                    Seq<(Seq<char>, DeletionBehaviour)>,
                    Seq<char>,
                >(Relations(found)@),
            decreases groups@.len() - i,
        {
            let ghost so_far = Relations(found)@;
            proof {
                assert(groups@.take(i + 1).drop_last() =~= groups@.take(i as int));
                assert(groups@.take(i + 1).last() == groups@[i as int]);
            }
            match Relation::parse(&groups[i]) {
                Ok(relation) => {
                    found.push(relation);
                    proof {
                        assert(Relations(found)@ =~= so_far.push(relation@));
                        if i == 0 {
                            assert(so_far =~= Seq::empty());
                            assert(Relations(found)@ =~= seq![relation@]);
                        }
                    }
                },
                Err(message) => {
                    proof {
                        lemma_relations_fail_at(groups@, i as int);
                    }
                    return Err(message);
                },
            }
            i += 1;
        }
        proof {
            assert(groups@.take(i as int) =~= groups@);
        }
        Ok(Relations(found))
    }
}

/// Where the groups before position `i` are relations and the one at `i`
/// is none, the complaint about the whole is the complaint about that
/// one.
proof fn lemma_relations_fail_at(groups: Seq<Vec<Token>>, i: int)
    requires
        0 <= i < groups.len(),
        i > 0 ==> relations_of(groups.take(i)) is Ok,
        relation_of(groups[i]@) is Err,
    ensures
        relations_of(groups) == Err::<Seq<(Seq<char>, DeletionBehaviour)>, Seq<char>>(
            relation_of(groups[i]@)->Err_0,
        ),
    decreases groups.len(),
{
    if groups.len() == 1 {
    } else if i == groups.len() - 1 {
        assert(groups.take(i) =~= groups.drop_last());
    } else {
        let shorter = groups.drop_last();
        assert(shorter.take(i) =~= groups.take(i));
        assert(shorter[i] == groups[i]);
        lemma_relations_fail_at(shorter, i);
    }
}

/// A literal in the arguments of an attribute.
#[derive(Debug)]
pub enum Literal {
    /// A string literal, with its value and with what its value reads as
    /// where it is taken for the declaration of a key.
    Str(String, IdArgs),
    /// An integer literal, with its digits in base ten.
    Int(String),
    /// Any other literal.
    Other,
}

/// The arguments of an attribute, as a tree: a bare path, a path with a
/// list of arguments in parentheses, or a path with a value.
#[derive(Debug)]
pub enum Meta {
    Path(String),
    List(String, Vec<Nested>),
    NameValue(String, Literal),
}

/// One argument in a list: a tree of its own, or a literal.
#[derive(Debug)]
pub enum Nested {
    Meta(Meta),
    Lit(Literal),
}

/// The shape of the key, as declared: one field, or a tuple of shapes.
#[derive(Debug)]
pub enum IdStructure {
    Simple(String),
    Tuple(Vec<IdStructure>),
}

/// The mathematical content of an [`IdStructure`].
pub enum IdShape {
    Simple(Seq<char>),
    Tuple(Seq<IdShape>),
}

/// The views of a list of key shapes.
pub open spec fn id_shapes(list: Seq<IdStructure>) -> Seq<IdShape>
    decreases list,
{
    Seq::new(list.len(), |i: int| if 0 <= i < list.len() { id_shape(list[i]) } else { IdShape::Tuple(Seq::empty()) })
}

/// The view of a key shape.
pub open spec fn id_shape(id: IdStructure) -> IdShape
    decreases id,
{
    match id {
        IdStructure::Simple(name) => IdShape::Simple(name@),
        IdStructure::Tuple(parts) => IdShape::Tuple(id_shapes(parts@)),
    }
}

/// The shape of a type, as far as the declaration of a key looks at it.
#[derive(Debug)]
pub enum TypeShape {
    /// A path, with the segments it consists of.
    Path(Vec<String>),
    /// A tuple, with the shapes of its elements.
    Tuple(Vec<TypeShape>),
    /// Any other type.
    Other,
}

/// What the declaration of a key reads as: the text of an `id` option,
/// or what stands between the parentheses of an `entity_id` attribute.
#[derive(Debug)]
pub enum IdArgs {
    /// A tuple, with the shapes of its elements.
    Tuple(Vec<TypeShape>),
    /// One identifier.
    Ident(String),
    /// Neither of the two.
    Neither,
}

/// One attribute of the declaration, read as far as its syntax goes.
#[derive(Debug)]
pub struct Attribute {
    /// The name of the attribute.
    pub path: String,
    /// The arguments as a tree, if they are one.
    pub meta: Option<Meta>,
    /// The arguments as parenthesised groups of tokens, if they are
    /// that.
    pub relations: Option<Vec<Vec<Token>>>,
    /// The arguments as a key shape.
    pub id: IdArgs,
    /// What the front end has to say where the arguments are neither a
    /// tree nor groups.
    pub failure: String,
}

/// A named field of the record type: its name and its type, as written.
#[derive(Debug)]
pub struct Field {
    pub name: String,
    pub ty: String,
}

/// A complaint about the declaration.
#[derive(Debug)]
pub struct Problem {
    /// The position of the attribute that the complaint is about; `None`
    /// if it is about the declaration as a whole.
    pub attribute: Option<usize>,
    /// The complaint.
    pub message: String,
}

/// The complaints about a declaration, in the order in which they were
/// found.
pub type Errors = Vec<Problem>;

/// The mathematical content of a [`Problem`].
pub type Note = (Option<usize>, Seq<char>);

/// The views of a list of complaints.
pub open spec fn notes(errors: Seq<Problem>) -> Seq<Note> {
    Seq::new(errors.len(), |i: int| (errors[i].attribute, errors[i].message@))
}

/// The options that a record type is declared with.
#[derive(Debug)]
pub struct EntityData {
    /// The name under which the code of the store is reached.
    pub crate_name: String,
    /// The name of the store.
    pub name: Option<String>,
    /// The schema version of the store.
    pub version: Option<u32>,
    /// The field or fields that make up the key.
    pub id: Option<IdStructure>,
    /// The type of the key, where the key is one field.
    pub id_type: Option<String>,
    /// The child stores.
    pub children: Relations,
    /// The sibling stores.
    pub siblings: Relations,
    /// The named fields of the record type.
    pub fields: Vec<Field>,
}

/// The mathematical content of an [`EntityData`].
pub struct Schema {
    pub crate_name: Seq<char>,
    pub name: Option<Seq<char>>,
    pub version: Option<u32>,
    pub id: Option<IdShape>,
    pub id_type: Option<Seq<char>>,
    pub children: Seq<(Seq<char>, DeletionBehaviour)>,
    pub siblings: Seq<(Seq<char>, DeletionBehaviour)>,
    pub fields: Seq<(Seq<char>, Seq<char>)>,
}

/// The views of a list of fields.
pub open spec fn fields_view(fields: Seq<Field>) -> Seq<(Seq<char>, Seq<char>)> {
    Seq::new(fields.len(), |i: int| (fields[i].name@, fields[i].ty@))
}

impl View for EntityData {
    type V = Schema;

    open spec fn view(&self) -> Schema {
        Schema {
            crate_name: self.crate_name@,
            name: text_view(self.name),
            version: self.version,
            id: match self.id {
                Some(id) => Some(id_shape(id)),
                None => None,
            },
            id_type: text_view(self.id_type),
            children: self.children@,
            siblings: self.siblings@,
            fields: fields_view(self.fields@),
        }
    }
}

/// A declaration as far as it has been read: the options found, and the
/// complaints made.
pub struct Reading {
    pub schema: Schema,
    pub notes: Seq<Note>,
}

impl Reading {
    /// The reading with one more complaint.
    pub open spec fn complain(self, at: Option<usize>, message: Seq<char>) -> Reading {
        Reading { schema: self.schema, notes: self.notes.push((at, message)) }
    }

    /// The reading with another schema.
    pub open spec fn with(self, schema: Schema) -> Reading {
        Reading { schema, notes: self.notes }
    }
}

/// The complaint about a key that is neither a field name nor a tuple of
/// field names.
pub open spec fn id_complaint() -> Seq<char> {
    "Could not parse id parameter. id must be a string containing either a field name, or a tuple of field names."@
}

/// The complaint about an element of a key tuple that is neither a field
/// name nor a tuple.
pub open spec fn element_complaint() -> Seq<char> {
    "Elements must be field names, or tuples of field names."@
}

/// The complaint about a value that is no string.
pub open spec fn string_complaint() -> Seq<char> {
    "Store name must be a string."@
}

/// The complaint about a version that is no number of 32 bits.
pub open spec fn version_complaint() -> Seq<char> {
    "Store version must be a positive integer."@
}

/// The complaint about a crate name that is no string.
pub open spec fn crate_complaint() -> Seq<char> {
    "Crate name must be a string."@
}

/// The complaint about an option that is not known.
pub open spec fn unknown_complaint() -> Seq<char> {
    "Unknown parameter"@
}

/// The complaint about an argument that is a bare path.
pub open spec fn path_complaint() -> Seq<char> {
    "Unrecognized argument 1"@
}

/// The complaint about an argument that is a bare literal.
pub open spec fn literal_complaint() -> Seq<char> {
    "Unrecognized argument 2"@
}

/// The complaint about a record type without named fields.
pub open spec fn fields_complaint() -> Seq<char> {
    "Reindeer only supports deriving Entity on named structs."@
}

/// The complaint about a declaration without a key.
pub open spec fn missing_id_complaint() -> Seq<char> {
    "Missing ID specification. Use either a field called  `id`, the `id` macro meta, or the `entity_id` attribute."@
}

/// The complaint about a key that names no field.
pub open spec fn unknown_field_complaint(name: Seq<char>) -> Seq<char> {
    "Cannot find referenced field '"@ + name + "'"@
}

/// One more complaint.
pub fn complain(errors: &mut Vec<Problem>, at: Option<usize>, message: &str)
    ensures
        notes(final(errors)@) == notes(old(errors)@).push((at, message@)),
{
    errors.push(Problem { attribute: at, message: String::from_str(message) });
    assert(notes(errors@) =~= notes(old(errors)@).push((at, message@)));
}

/// What the elements of a key tuple, up to position `upto`, give: the
/// shapes found, and the complaints about the elements that are neither
/// a field name nor a tuple.
pub open spec fn read_elements(elements: Seq<TypeShape>, upto: int, at: Option<usize>, before: Seq<Note>) -> (
    Seq<IdShape>,
    Seq<Note>,
)
    decreases elements, upto,
{
    if upto <= 0 || upto > elements.len() {
        (Seq::empty(), before)
    } else {
        let (shapes, found) = read_elements(elements, upto - 1, at, before);
        match elements[upto - 1] {
            TypeShape::Path(segments) => if segments@.len() == 1 {
                (shapes.push(IdShape::Simple(segments@[0]@)), found)
            } else {
                (shapes, found.push((at, element_complaint())))
            },
            TypeShape::Tuple(inner) => {
                let (shape, notes) = read_tuple(inner@, at, found);
                (shapes.push(shape), notes)
            },
            TypeShape::Other => (shapes, found.push((at, element_complaint()))),
        }
    }
}

/// What a key tuple gives: the tuple of the shapes of its elements, and
/// the complaints about them, with one more if no shape was found.
pub open spec fn read_tuple(elements: Seq<TypeShape>, at: Option<usize>, before: Seq<Note>) -> (
    IdShape,
    Seq<Note>,
)
    decreases elements, elements.len() + 1,
{
    let (shapes, found) = read_elements(elements, elements.len() as int, at, before);
    if shapes.len() == 0 {
        (IdShape::Tuple(shapes), found.push((at, id_complaint())))
    } else {
        (IdShape::Tuple(shapes), found)
    }
}

/// Reads the shape of a key from the elements of a tuple. An element
/// that is neither a field name nor a tuple is complained about and left
/// out; so is a tuple without any element that counts.
pub fn parse_id_tuple(elements: &Vec<TypeShape>, at: Option<usize>, errors: &mut Vec<Problem>) -> (id:
    IdStructure)
    ensures
        (id_shape(id), notes(final(errors)@)) == read_tuple(elements@, at, notes(old(errors)@)),
    decreases elements,
{
    let ghost before = notes(errors@);
    let mut result: Vec<IdStructure> = Vec::new();
    let mut i: usize = 0;
    assert(id_shapes(result@) =~= Seq::<IdShape>::empty());
    while i < elements.len()
        invariant
            i <= elements@.len(),
            (id_shapes(result@), notes(errors@)) == read_elements(elements@, i as int, at, before),
        decreases elements@.len() - i,
    {
        let ghost shapes = id_shapes(result@);
        match &elements[i] {
            TypeShape::Path(segments) => {
                if segments.len() == 1 {
                    result.push(IdStructure::Simple(segments[0].clone()));
                    assert(id_shapes(result@) =~= shapes.push(IdShape::Simple(segments@[0]@)));
                } else {
                    complain(errors, at, "Elements must be field names, or tuples of field names.");
                }
            },
            TypeShape::Tuple(inner) => {
                let part = parse_id_tuple(inner, at, errors);
                let ghost shape = id_shape(part);
                result.push(part);
                assert(id_shapes(result@) =~= shapes.push(shape));
            },
            TypeShape::Other => {
                complain(errors, at, "Elements must be field names, or tuples of field names.");
            },
        }
        i += 1;
    }
    if result.len() == 0 {
        complain(
            errors,
            at,
            "Could not parse id parameter. id must be a string containing either a field name, or a tuple of field names.",
        );
    }
    IdStructure::Tuple(result)
}

/// The position of the first field with the name `name`, from position
/// `from` on.
pub open spec fn find_field(fields: Seq<(Seq<char>, Seq<char>)>, name: Seq<char>, from: int) -> Option<int>
    decreases fields.len() - from,
{
    if from < 0 || from >= fields.len() {
        None
    } else if fields[from].0 == name {
        Some(from)
    } else {
        find_field(fields, name, from + 1)
    }
}

/// The position of the first field with the name `name`.
pub fn position_of(fields: &Vec<Field>, name: &str) -> (r: Option<usize>)
    ensures
        match r {
            Some(i) => find_field(fields_view(fields@), name@, 0) == Some(i as int) && i < fields@.len(),
            None => find_field(fields_view(fields@), name@, 0) is None,
        },
{
    let ghost all = fields_view(fields@);
    let mut i: usize = 0;
    while i < fields.len()
        invariant
            i <= fields@.len(),
            all == fields_view(fields@),
            find_field(all, name@, 0) == find_field(all, name@, i as int),
        decreases fields@.len() - i,
    {
        assert(all[i as int].0 == fields@[i as int].name@);
        if same_text(fields[i].name.as_str(), name) {
            return Some(i);
        }
        i += 1;
    }
    None
}

/// What the shape of a key gives when held against the fields: a
/// complaint for each name in it that names no field.
pub open spec fn check_shape(shape: IdShape, fields: Seq<(Seq<char>, Seq<char>)>, before: Seq<Note>) -> Seq<Note>
    decreases shape, 0int,
{
    match shape {
        IdShape::Simple(name) => if find_field(fields, name, 0) is Some {
            before
        } else {
            before.push((None, unknown_field_complaint(name)))
        },
        IdShape::Tuple(parts) => check_shapes(parts, parts.len() as int, fields, before),
    }
}

/// What the first `upto` shapes of a tuple give when held against the
/// fields.
pub open spec fn check_shapes(
    parts: Seq<IdShape>,
    upto: int,
    fields: Seq<(Seq<char>, Seq<char>)>,
    before: Seq<Note>,
) -> Seq<Note>
    decreases parts, upto,
{
    if upto <= 0 || upto > parts.len() {
        before
    } else {
        check_shape(parts[upto - 1], fields, check_shapes(parts, upto - 1, fields, before))
    }
}

/// The complaint about a key that names no field.
pub fn unknown_field(name: &str) -> (message: String)
    ensures
        message@ == unknown_field_complaint(name@),
{
    String::from_str("Cannot find referenced field '").concat(name).concat("'")
}

/// Holds the shape of a key against the fields, and complains about each
/// name in it that names no field.
pub fn check_names(id: &IdStructure, fields: &Vec<Field>, errors: &mut Vec<Problem>)
    ensures
        notes(final(errors)@) == check_shape(id_shape(*id), fields_view(fields@), notes(old(errors)@)),
    decreases id,
{
    match id {
        IdStructure::Simple(name) => {
            if position_of(fields, name.as_str()).is_none() {
                let message = unknown_field(name.as_str());
                complain(errors, None, message.as_str());
            }
        },
        IdStructure::Tuple(parts) => {
            let ghost before = notes(errors@);
            let ghost shapes = id_shapes(parts@);
            let mut i: usize = 0;
            while i < parts.len()
                invariant
                    i <= parts@.len(),
                    id is Tuple,
                    id->Tuple_0 == *parts,
                    shapes == id_shapes(parts@),
                    notes(errors@) == check_shapes(shapes, i as int, fields_view(fields@), before),
                decreases parts@.len() - i,
            {
                assert(shapes[i as int] == id_shape(parts@[i as int]));
                check_names(&parts[i], fields, errors);
                i += 1;
            }
        },
    }
}

/// What a declaration has been read as.
pub open spec fn reading(data: EntityData, errors: Seq<Problem>) -> Reading {
    Reading { schema: data@, notes: notes(errors) }
}

/// What the field found to be the key gives: the key is that field.
/// Where none was found, a complaint.
pub open spec fn read_id(parsed: Option<Seq<char>>, at: Option<usize>, state: Reading) -> Reading {
    match parsed {
        Some(id) => state.with(
            Schema {
                crate_name: state.schema.crate_name,
                name: state.schema.name,
                version: state.schema.version,
                id: Some(IdShape::Simple(id)),
                id_type: state.schema.id_type,
                children: state.schema.children,
                siblings: state.schema.siblings,
                fields: state.schema.fields,
            },
        ),
        None => state.complain(at, id_complaint()),
    }
}

/// What a number found in the digits of a `version` option gives: the
/// version is that number. Where none was found, a complaint.
pub open spec fn read_version(parsed: Option<u32>, at: Option<usize>, state: Reading) -> Reading {
    match parsed {
        Some(version) => state.with(
            Schema {
                crate_name: state.schema.crate_name,
                name: state.schema.name,
                version: Some(version),
                id: state.schema.id,
                id_type: state.schema.id_type,
                children: state.schema.children,
                siblings: state.schema.siblings,
                fields: state.schema.fields,
            },
        ),
        None => state.complain(at, version_complaint()),
    }
}

/// What one option with a value gives: `name`, `id` and `crate` take a
/// string, `version` takes an integer; any other option is complained
/// about, and so is a value of the wrong kind.
pub open spec fn read_value(key: Seq<char>, value: Literal, at: Option<usize>, state: Reading) -> Reading {
    if key == "name"@ {
        match value {
            Literal::Str(text, _) => state.with(
                Schema {
                    crate_name: state.schema.crate_name,
                    name: Some(text@),
                    version: state.schema.version,
                    id: state.schema.id,
                    id_type: state.schema.id_type,
                    children: state.schema.children,
                    siblings: state.schema.siblings,
                    fields: state.schema.fields,
                },
            ),
            _ => state.complain(at, string_complaint()),
        }
    } else if key == "version"@ {
        match value {
            Literal::Int(digits) => read_version(parsed_u32(digits@), at, state),
            _ => state.complain(at, string_complaint()),
        }
    } else if key == "id"@ {
        match value {
            Literal::Str(_, read) => read_entity_id(read, at, state),
            _ => state.complain(at, string_complaint()),
        }
    } else if key == "crate"@ {
        match value {
            Literal::Str(text, _) => state.with(
                Schema {
                    crate_name: text@,
                    name: state.schema.name,
                    version: state.schema.version,
                    id: state.schema.id,
                    id_type: state.schema.id_type,
                    children: state.schema.children,
                    siblings: state.schema.siblings,
                    fields: state.schema.fields,
                },
            ),
            _ => state.complain(at, crate_complaint()),
        }
    } else {
        state.complain(at, unknown_complaint())
    }
}

/// What the arguments of an `entity` attribute give: each option with a
/// value is read, in order, a later one overriding an earlier one; a
/// bare path and a bare literal are complained about.
pub open spec fn read_meta(meta: Meta, at: Option<usize>, state: Reading) -> Reading
    decreases meta, 0int,
{
    match meta {
        Meta::Path(_) => state.complain(at, path_complaint()),
        Meta::List(_, items) => read_items(items@, items@.len() as int, at, state),
        Meta::NameValue(key, value) => read_value(key@, value, at, state),
    }
}

/// What the first `upto` arguments of a list give.
pub open spec fn read_items(items: Seq<Nested>, upto: int, at: Option<usize>, state: Reading) -> Reading
    decreases items, upto,
{
    if upto <= 0 || upto > items.len() {
        state
    } else {
        let so_far = read_items(items, upto - 1, at, state);
        match items[upto - 1] {
            Nested::Meta(meta) => read_meta(meta, at, so_far),
            Nested::Lit(_) => so_far.complain(at, literal_complaint()),
        }
    }
}

/// What the fields of the record type give: they are taken down, after
/// those that are there already. A record type without named fields is
/// complained about.
pub open spec fn read_fields(fields: Option<Seq<(Seq<char>, Seq<char>)>>, state: Reading) -> Reading {
    match fields {
        Some(list) => state.with(
            Schema {
                crate_name: state.schema.crate_name,
                name: state.schema.name,
                version: state.schema.version,
                id: state.schema.id,
                id_type: state.schema.id_type,
                children: state.schema.children,
                siblings: state.schema.siblings,
                fields: state.schema.fields + list,
            },
        ),
        None => state.complain(None, fields_complaint()),
    }
}

/// What a `children` or `siblings` attribute gives: the relations it
/// declares take the place of the children, if the attribute is named
/// `children`, else of the siblings. Where it declares none, the
/// complaint about that.
pub open spec fn read_related(attr: Attribute, at: Option<usize>, state: Reading) -> Reading {
    match attr.relations {
        None => state.complain(at, attr.failure@),
        Some(groups) => match relations_of(groups@) {
            Err(message) => state.complain(at, message),
            Ok(relations) => if attr.path@ == "children"@ {
                state.with(
                    Schema {
                        crate_name: state.schema.crate_name,
                        name: state.schema.name,
                        version: state.schema.version,
                        id: state.schema.id,
                        id_type: state.schema.id_type,
                        children: relations,
                        siblings: state.schema.siblings,
                        fields: state.schema.fields,
                    },
                )
            } else {
                state.with(
                    Schema {
                        crate_name: state.schema.crate_name,
                        name: state.schema.name,
                        version: state.schema.version,
                        id: state.schema.id,
                        id_type: state.schema.id_type,
                        children: state.schema.children,
                        siblings: relations,
                        fields: state.schema.fields,
                    },
                )
            },
        },
    }
}

/// What the key gives when held against the fields. Without a declared
/// key, a field named `id` is the key; a key of one field takes its type
/// from that field; a key of several fields must name fields only.
pub open spec fn read_check(state: Reading) -> Reading {
    match state.schema.id {
        None => match find_field(state.schema.fields, "id"@, 0) {
            Some(i) => state.with(
                Schema {
                    crate_name: state.schema.crate_name,
                    name: state.schema.name,
                    version: state.schema.version,
                    id: Some(IdShape::Simple(state.schema.fields[i].0)),
                    id_type: Some(state.schema.fields[i].1),
                    children: state.schema.children,
                    siblings: state.schema.siblings,
                    fields: state.schema.fields,
                },
            ),
            None => state.complain(None, missing_id_complaint()),
        },
        Some(IdShape::Simple(name)) => read_check_id(name, state),
        Some(IdShape::Tuple(parts)) => Reading {
            schema: state.schema,
            notes: check_shape(IdShape::Tuple(parts), state.schema.fields, state.notes),
        },
    }
}

/// What a key of one field gives when held against the fields: the type
/// of the key is the type of that field. Where no field has the name, a
/// complaint.
pub open spec fn read_check_id(name: Seq<char>, state: Reading) -> Reading {
    match find_field(state.schema.fields, name, 0) {
        Some(i) => state.with(
            Schema {
                crate_name: state.schema.crate_name,
                name: state.schema.name,
                version: state.schema.version,
                id: state.schema.id,
                id_type: Some(state.schema.fields[i].1),
                children: state.schema.children,
                siblings: state.schema.siblings,
                fields: state.schema.fields,
            },
        ),
        None => state.complain(None, unknown_field_complaint(name)),
    }
}

/// What an `entity_id` attribute gives: the key it declares.
pub open spec fn read_entity_id(args: IdArgs, at: Option<usize>, state: Reading) -> Reading {
    match args {
        IdArgs::Tuple(elements) => {
            let (shape, found) = read_tuple(elements@, at, state.notes);
            Reading {
                schema: Schema {
                    crate_name: state.schema.crate_name,
                    name: state.schema.name,
                    version: state.schema.version,
                    id: Some(shape),
                    id_type: state.schema.id_type,
                    children: state.schema.children,
                    siblings: state.schema.siblings,
                    fields: state.schema.fields,
                },
                notes: found,
            }
        },
        IdArgs::Ident(name) => read_id(Some(name@), at, state),
        IdArgs::Neither => state.complain(at, id_complaint()),
    }
}

/// What one attribute gives. Attributes other than `entity`,
/// `entity_id`, `children` and `siblings` are passed over.
pub open spec fn read_attribute(attr: Attribute, at: Option<usize>, state: Reading) -> Reading {
    if attr.path@ == "entity"@ {
        match attr.meta {
            Some(meta) => read_meta(meta, at, state),
            None => state.complain(at, attr.failure@),
        }
    } else if attr.path@ == "entity_id"@ {
        read_entity_id(attr.id, at, state)
    } else if attr.path@ == "children"@ || attr.path@ == "siblings"@ {
        read_related(attr, at, state)
    } else {
        state
    }
}

/// What the first `upto` attributes give, each read at its position.
pub open spec fn read_attributes(attrs: Seq<Attribute>, upto: int, state: Reading) -> Reading
    decreases upto,
{
    if upto <= 0 || upto > attrs.len() {
        state
    } else {
        read_attribute(attrs[upto - 1], Some((upto - 1) as usize), read_attributes(attrs, upto - 1, state))
    }
}

/// The declaration before anything is read: the code of the store is
/// reached as `reindeer`, nothing else is set.
pub open spec fn blank() -> Schema {
    Schema {
        crate_name: "reindeer"@,
        name: None,
        version: None,
        id: None,
        id_type: None,
        children: Seq::empty(),
        siblings: Seq::empty(),
        fields: Seq::empty(),
    }
}

/// What a whole declaration gives: the fields are taken down, the
/// attributes are read in order, and the key is held against the fields.
pub open spec fn read_declaration(
    attrs: Seq<Attribute>,
    fields: Option<Seq<(Seq<char>, Seq<char>)>>,
    before: Seq<Note>,
) -> Reading {
    read_check(
        read_attributes(
            attrs,
            attrs.len() as int,
            read_fields(fields, Reading { schema: blank(), notes: before }),
        ),
    )
}

/// The views of an optional list of fields.
pub open spec fn optional_fields(fields: Option<&Vec<Field>>) -> Option<Seq<(Seq<char>, Seq<char>)>> {
    match fields {
        Some(list) => Some(fields_view(list@)),
        None => None,
    }
}

impl EntityData {
    /// A declaration in which nothing is set.
    pub fn new() -> (data: EntityData)
        ensures
            data@ == blank(),
    {
        let data = EntityData {
            crate_name: String::from_str("reindeer"),
            name: None,
            version: None,
            id: None,
            id_type: None,
            children: Relations::new(),
            siblings: Relations::new(),
            fields: Vec::new(),
        };
        assert(fields_view(data.fields@) =~= Seq::empty());
        data
    }

    /// Reads a whole declaration: takes the fields down, reads the
    /// attributes in order, and holds the key against the fields.
    pub fn parse(attrs: &Vec<Attribute>, fields: Option<&Vec<Field>>, errors: &mut Vec<Problem>) -> (data:
        EntityData)
        ensures
            reading(data, final(errors)@) == read_declaration(
                attrs@,
                optional_fields(fields),
                notes(old(errors)@),
            ),
    {
        let ghost before = notes(errors@);
        let mut data = EntityData::new();
        data.parse_fields(fields, errors);
        let ghost start = reading(data, errors@);
        let mut i: usize = 0;
        while i < attrs.len()
            invariant
                i <= attrs@.len(),
                reading(data, errors@) == read_attributes(attrs@, i as int, start),
            decreases attrs@.len() - i,
        {
            let attr = &attrs[i];
            if same_text(attr.path.as_str(), "entity") {
                match &attr.meta {
                    Some(meta) => {
                        data.parse_entity_args(meta, Some(i), errors);
                    },
                    None => {
                        complain(errors, Some(i), attr.failure.as_str());
                    },
                }
            } else if same_text(attr.path.as_str(), "entity_id") {
                data.parse_entity_id(&attr.id, Some(i), errors);
            } else if same_text(attr.path.as_str(), "children") || same_text(
                attr.path.as_str(),
                "siblings",
            ) {
                data.parse_related_stores(attr, Some(i), errors);
            }
            i += 1;
        }
        data.check(errors);
        data
    }

    /// Reads the arguments of an `entity` attribute.
    pub fn parse_entity_args(&mut self, meta: &Meta, at: Option<usize>, errors: &mut Vec<Problem>)
        ensures
            reading(*final(self), final(errors)@) == read_meta(
                *meta,
                at,
                reading(*old(self), old(errors)@),
            ),
        decreases meta,
    {
        match meta {
            Meta::Path(_) => {
                complain(errors, at, "Unrecognized argument 1");
            },
            Meta::List(_, items) => {
                let ghost start = reading(*self, errors@);
                let mut i: usize = 0;
                while i < items.len()
                    invariant
                        i <= items@.len(),
                        meta is List,
                        meta->List_1 == *items,
                        reading(*self, errors@) == read_items(items@, i as int, at, start),
                    decreases items@.len() - i,
                {
                    match &items[i] {
                        Nested::Meta(inner) => {
                            self.parse_entity_args(inner, at, errors);
                        },
                        Nested::Lit(_) => {
                            complain(errors, at, "Unrecognized argument 2");
                        },
                    }
                    i += 1;
                }
            },
            Meta::NameValue(key, value) => {
                if same_text(key.as_str(), "name") {
                    match value {
                        Literal::Str(text, _) => {
                            self.name = Some(text.clone());
                        },
                        _ => {
                            complain(errors, at, "Store name must be a string.");
                        },
                    }
                } else if same_text(key.as_str(), "version") {
                    match value {
                        Literal::Int(digits) => {
                            self.note_version(number_in(digits.as_str()), at, errors);
                        },
                        _ => {
                            complain(errors, at, "Store name must be a string.");
                        },
                    }
                } else if same_text(key.as_str(), "id") {
                    match value {
                        Literal::Str(_, read) => {
                            self.parse_id_attr(read, at, errors);
                        },
                        _ => {
                            complain(errors, at, "Store name must be a string.");
                        },
                    }
                } else if same_text(key.as_str(), "crate") {
                    match value {
                        Literal::Str(text, _) => {
                            self.crate_name = text.clone();
                        },
                        _ => {
                            complain(errors, at, "Crate name must be a string.");
                        },
                    }
                } else {
                    complain(errors, at, "Unknown parameter");
                }
            },
        }
    }

    /// Reads the text of an `id` option: one field name, which is then
    /// the key, or a tuple of field names and of such tuples.
    pub fn parse_id_attr(&mut self, read: &IdArgs, at: Option<usize>, errors: &mut Vec<Problem>)
        ensures
            reading(*final(self), final(errors)@) == read_entity_id(
                *read,
                at,
                reading(*old(self), old(errors)@),
            ),
    {
        self.parse_entity_id(read, at, errors);
    }

    /// Takes down the field that was found to be the key; complains if
    /// none was found.
    pub fn note_id(&mut self, parsed: Option<String>, at: Option<usize>, errors: &mut Vec<Problem>)
        ensures
            reading(*final(self), final(errors)@) == read_id(
                text_view(parsed),
                at,
                reading(*old(self), old(errors)@),
            ),
    {
        match parsed {
            Some(id) => {
                self.id = Some(IdStructure::Simple(id));
            },
            None => {
                complain(
                    errors,
                    at,
                    "Could not parse id parameter. id must be a string containing either a field name, or a tuple of field names.",
                );
            },
        }
    }

    /// Takes down the version that was found in the digits of a `version`
    /// option; complains if none was found.
    pub fn note_version(&mut self, parsed: Option<u32>, at: Option<usize>, errors: &mut Vec<Problem>)
        ensures
            reading(*final(self), final(errors)@) == read_version(
                parsed,
                at,
                reading(*old(self), old(errors)@),
            ),
    {
        match parsed {
            Some(version) => {
                self.version = Some(version);
            },
            None => {
                complain(errors, at, "Store version must be a positive integer.");
            },
        }
    }

    /// Reads the arguments of an `entity_id` attribute.
    pub fn parse_entity_id(&mut self, args: &IdArgs, at: Option<usize>, errors: &mut Vec<Problem>)
        ensures
            reading(*final(self), final(errors)@) == read_entity_id(
                *args,
                at,
                reading(*old(self), old(errors)@),
            ),
    {
        match args {
            IdArgs::Tuple(elements) => {
                let id = parse_id_tuple(elements, at, errors);
                self.id = Some(id);
            },
            IdArgs::Ident(name) => {
                self.note_id(Some(name.clone()), at, errors);
            },
            IdArgs::Neither => {
                self.note_id(None, at, errors);
            },
        }
    }

    /// Takes the named fields of the record type down; complains if the
    /// record type has none.
    pub fn parse_fields(&mut self, fields: Option<&Vec<Field>>, errors: &mut Vec<Problem>)
        ensures
            reading(*final(self), final(errors)@) == read_fields(
                optional_fields(fields),
                reading(*old(self), old(errors)@),
            ),
    {
        match fields {
            Some(list) => {
                let ghost before = fields_view(self.fields@);
                let mut i: usize = 0;
                while i < list.len()
                    invariant
                        i <= list@.len(),
                        fields_view(self.fields@) == before + fields_view(list@).take(i as int),
                        self.crate_name == old(self).crate_name,
                        self.name == old(self).name,
                        self.version == old(self).version,
                        self.id == old(self).id,
                        self.id_type == old(self).id_type,
                        self.children == old(self).children,
                        self.siblings == old(self).siblings,
                    decreases list@.len() - i,
                {
                    let ghost so_far = fields_view(self.fields@);
                    let field = Field { name: list[i].name.clone(), ty: list[i].ty.clone() };
                    self.fields.push(field);
                    proof {
                        let all = fields_view(list@);
                        assert(fields_view(self.fields@) =~= so_far.push(all[i as int]));
                        assert(all.take(i + 1) =~= all.take(i as int).push(all[i as int]));
                        assert(fields_view(self.fields@) =~= before + all.take(i + 1));
                    }
                    i += 1;
                }
                proof {
                    assert(fields_view(list@).take(i as int) =~= fields_view(list@));
                }
            },
            None => {
                complain(errors, None, "Reindeer only supports deriving Entity on named structs.");
            },
        }
    }

    /// Holds the key against the fields.
    pub fn check(&mut self, errors: &mut Vec<Problem>)
        ensures
            reading(*final(self), final(errors)@) == read_check(reading(*old(self), old(errors)@)),
    {
        let found = match &self.id {
            None => None,
            Some(IdStructure::Simple(name)) => Some(name.clone()),
            Some(IdStructure::Tuple(_)) => {
                match &self.id {
                    Some(id) => {
                        check_names(id, &self.fields, errors);
                    },
                    None => {},
                }
                return ;
            },
        };
        match found {
            None => match position_of(&self.fields, "id") {
                Some(i) => {
                    self.id = Some(IdStructure::Simple(self.fields[i].name.clone()));
                    self.id_type = Some(self.fields[i].ty.clone());
                },
                None => {
                    complain(
                        errors,
                        None,
                        "Missing ID specification. Use either a field called  `id`, the `id` macro meta, or the `entity_id` attribute.",
                    );
                },
            },
            Some(name) => {
                self.check_id(name.as_str(), errors);
            },
        }
    }

    /// Holds a key of one field against the fields.
    pub fn check_id(&mut self, ident: &str, errors: &mut Vec<Problem>)
        ensures
            reading(*final(self), final(errors)@) == read_check_id(
                ident@,
                reading(*old(self), old(errors)@),
            ),
    {
        match position_of(&self.fields, ident) {
            Some(i) => {
                self.id_type = Some(self.fields[i].ty.clone());
            },
            None => {
                let message = unknown_field(ident);
                complain(errors, None, message.as_str());
            },
        }
    }

    /// Reads a `children` or `siblings` attribute.
    pub fn parse_related_stores(&mut self, attr: &Attribute, at: Option<usize>, errors: &mut Vec<Problem>)
        ensures
            reading(*final(self), final(errors)@) == read_related(
                *attr,
                at,
                reading(*old(self), old(errors)@),
            ),
    {
        match &attr.relations {
            None => {
                complain(errors, at, attr.failure.as_str());
            },
            Some(groups) => match Relations::parse(groups) {
                Ok(relations) => {
                    if same_text(attr.path.as_str(), "children") {
                        self.children = relations;
                    } else {
                        self.siblings = relations;
                    }
                },
                Err(message) => {
                    complain(errors, at, message.as_str());
                },
            },
        }
    }
}

} // verus!
