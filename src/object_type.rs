use vstd::prelude::*;
use vstd::string::*;

verus! {

/// The primitive kinds an attribute can hold.
#[derive(Clone, Copy, Debug, PartialEq, Eq, Structural)]
pub enum DataType {
    Bool,
    Int,
    Float,
    String,
}

/// The name under which a data type is shown and stored.
pub open spec fn data_type_name(d: DataType) -> Seq<char> {
    match d {
        DataType::Bool => "Bool"@,
        DataType::Int => "Int"@,
        DataType::Float => "Float"@,
        DataType::String => "String"@,
    }
}

/// Every data type, in declaration order.
pub open spec fn all_data_types() -> Seq<DataType> {
    seq![DataType::Bool, DataType::Int, DataType::Float, DataType::String]
}

impl DataType {
    /// The variant's name, as shown to users.
    pub fn name(&self) -> (r: &'static str)
        ensures
            r@ == data_type_name(*self),
    {
        match self {
            DataType::Bool => "Bool",
            DataType::Int => "Int",
            DataType::Float => "Float",
            DataType::String => "String",
        }
    }

    /// All data types, in declaration order.
    pub fn all() -> (r: Vec<DataType>)
        ensures
            r@ == all_data_types(),
    {
        let mut r: Vec<DataType> = Vec::new();
        r.push(DataType::Bool);
        r.push(DataType::Int);
        r.push(DataType::Float);
        r.push(DataType::String);
        r
    }
}

impl Default for DataType {
    fn default() -> (r: DataType)
        ensures
            r == DataType::Bool,
    {
        DataType::Bool
    }
}

/// An attribute as a mathematical value.
pub struct AttributeView {
    pub name: Seq<char>,
    pub data_type: DataType,
    pub is_id_part: bool,
}

/// A named, typed field of an object type, possibly part of its identity.
#[derive(Debug, PartialEq, Eq)]
pub struct ObjectTypeAttribute {
    name: String,
    data_type: DataType,
    is_id_part: bool,
}

impl View for ObjectTypeAttribute {
    type V = AttributeView;

    closed spec fn view(&self) -> AttributeView {
        AttributeView { name: self.name@, data_type: self.data_type, is_id_part: self.is_id_part }
    }
}

/// The label shown for an attribute: its name, a colon and its data type.
pub open spec fn label_of(a: AttributeView) -> Seq<char> {
    a.name + ": "@ + data_type_name(a.data_type)
}

impl Clone for ObjectTypeAttribute {
    fn clone(&self) -> (r: Self)
        ensures
            r == *self,
    {
        ObjectTypeAttribute {
            name: self.name.clone(),
            data_type: self.data_type,
            is_id_part: self.is_id_part,
        }
    }
}

impl ObjectTypeAttribute {
    pub fn new(name: &str, data_type: DataType, is_id_part: bool) -> (r: Self)
        ensures
            r@ == (AttributeView { name: name@, data_type, is_id_part }),
    {
        ObjectTypeAttribute { name: name.to_owned(), data_type, is_id_part }
    }

    pub fn name(&self) -> (r: &String)
        ensures
            r@ == self@.name,
    {
        &self.name
    }

    pub fn data_type(&self) -> (r: DataType)
        ensures
            r == self@.data_type,
    {
        self.data_type
    }

    pub fn is_id_part(&self) -> (r: bool)
        ensures
            r == self@.is_id_part,
    {
        self.is_id_part
    }

    /// `"<name>: <data type>"`, the text a renderer shows for this attribute.
    pub fn label(&self) -> (r: String)
        ensures
            r@ == label_of(self@),
    {
        let mut r = self.name.clone();
        r.append(": ");
        r.append(self.data_type.name());
        r
    }
}

/// An object type as a mathematical value.
pub struct ObjectTypeView {
    pub name: Seq<char>,
    pub attributes: Seq<AttributeView>,
    pub id_parts: Seq<Seq<char>>,
}

/// Some attribute in `attrs` is named `name`.
pub open spec fn has_attribute_named(attrs: Seq<AttributeView>, name: Seq<char>) -> bool {
    exists|i: int| 0 <= i < attrs.len() && #[trigger] attrs[i].name == name
}

/// `i` is the position of the first attribute in `attrs` named `name`.
pub open spec fn is_first_named(attrs: Seq<AttributeView>, i: int, name: Seq<char>) -> bool {
    &&& 0 <= i < attrs.len()
    &&& attrs[i].name == name
    &&& forall|j: int| 0 <= j < i ==> #[trigger] attrs[j].name != name
}

/// No two attributes in `attrs` share a name.
pub open spec fn names_unique(attrs: Seq<AttributeView>) -> bool {
    forall|i: int, j: int|
        0 <= i < attrs.len() && 0 <= j < attrs.len() && i != j ==> #[trigger] attrs[i].name
            != #[trigger] attrs[j].name
}

/// The names of the attributes flagged as identity parts, in attribute order.
pub open spec fn id_part_names(attrs: Seq<AttributeView>) -> Seq<Seq<char>>
    decreases attrs.len(),
{
    if attrs.len() == 0 {
        Seq::empty()
    } else {
        let last = attrs.last();
        let rest = id_part_names(attrs.drop_last());
        if last.is_id_part {
            rest.push(last.name)
        } else {
            rest
        }
    }
}

impl ObjectTypeView {
    /// Attribute names are unique and `id_parts` lists the identity attributes.
    pub open spec fn wf(self) -> bool {
        &&& names_unique(self.attributes)
        &&& self.id_parts == id_part_names(self.attributes)
    }

    /// The value after an attempt to add `a`: unchanged when an attribute of
    /// that name exists, else `a` appended.
    pub open spec fn after_add(self, a: AttributeView) -> ObjectTypeView {
        if has_attribute_named(self.attributes, a.name) {
            self
        } else {
            self.with_attribute(a)
        }
    }

    /// The value after appending an attribute that is not yet present.
    pub open spec fn with_attribute(self, a: AttributeView) -> ObjectTypeView {
        ObjectTypeView {
            name: self.name,
            attributes: self.attributes.push(a),
            id_parts: if a.is_id_part {
                self.id_parts.push(a.name)
            } else {
                self.id_parts
            },
        }
    }
}

/// Why a change to an object type was refused.
#[derive(Clone, Debug, PartialEq, Eq)]
pub enum ObjectTypeError {
    /// The type already has an attribute with this name.
    DuplicateAttribute { name: String },
}

impl ObjectTypeError {
    pub open spec fn is_duplicate_of(&self, name: Seq<char>) -> bool {
        match self {
            ObjectTypeError::DuplicateAttribute { name: n } => n@ == name,
        }
    }

    /// A sentence describing the error.
    pub fn message(&self) -> (r: String)
        ensures
            match self {
                ObjectTypeError::DuplicateAttribute { name } => r@ == "Attribute named "@ + name@
                    + " already exists"@,
            },
    {
        match self {
            ObjectTypeError::DuplicateAttribute { name } => {
                let mut r = "Attribute named ".to_owned();
                r.append(name.as_str());
                r.append(" already exists");
                r
            },
        }
    }
}

/// A named schema: an ordered set of attributes and the names of those that
/// form the type's identity.
#[derive(Debug, PartialEq, Eq)]
pub struct ObjectType {
    name: String,
    attributes: Vec<ObjectTypeAttribute>,
    id_parts: Vec<String>,
}

/// The views of a sequence of object types.
pub open spec fn views(s: Seq<ObjectType>) -> Seq<ObjectTypeView> {
    s.map_values(|d: ObjectType| d@)
}

impl View for ObjectType {
    type V = ObjectTypeView;

    closed spec fn view(&self) -> ObjectTypeView {
        ObjectTypeView {
            name: self.name@,
            attributes: self.attributes@.map_values(|a: ObjectTypeAttribute| a@),
            id_parts: self.id_parts@.map_values(|s: String| s@),
        }
    }
}

impl Clone for ObjectType {
    fn clone(&self) -> (r: Self)
        ensures
            r@ == self@,
    {
        let attributes = self.attributes.clone();
        let id_parts = self.id_parts.clone();
        proof {
            assert forall|i: int| 0 <= i < attributes@.len() implies attributes@[i]
                == self.attributes@[i] by {
                assert(cloned::<ObjectTypeAttribute>(self.attributes@[i], attributes@[i]));
            }
            assert forall|i: int| 0 <= i < id_parts@.len() implies id_parts@[i]
                == self.id_parts@[i] by {
                assert(cloned::<String>(self.id_parts@[i], id_parts@[i]));
            }
            assert(attributes@ =~= self.attributes@);
            assert(id_parts@ =~= self.id_parts@);
        }
        ObjectType { name: self.name.clone(), attributes, id_parts }
    }
}

impl ObjectType {
    /// A type with the given name and no attributes.
    pub fn new(name: &str) -> (r: Self)
        ensures
            r@ == (ObjectTypeView { name: name@, attributes: seq![], id_parts: seq![] }),
            r@.wf(),
    {
        let r = ObjectType { name: name.to_owned(), attributes: Vec::new(), id_parts: Vec::new() };
        assert(r@.attributes =~= seq![]);
        assert(r@.id_parts =~= seq![]);
        r
    }

    pub fn name(&self) -> (r: &String)
        ensures
            r@ == self@.name,
    {
        &self.name
    }

    /// The attributes, in the order they were added.
    pub fn attributes(&self) -> (r: &Vec<ObjectTypeAttribute>)
        ensures
            r@.map_values(|a: ObjectTypeAttribute| a@) == self@.attributes,
    {
        &self.attributes
    }

    /// The names of the identity attributes, in the order they were added.
    pub fn id_parts(&self) -> (r: &Vec<String>)
        ensures
            r@.map_values(|s: String| s@) == self@.id_parts,
    {
        &self.id_parts
    }

    /// The first attribute with exactly this name, if any.
    pub fn get_attribute(&self, name: &str) -> (r: Option<&ObjectTypeAttribute>)
        ensures
            r.is_none() <==> !has_attribute_named(self@.attributes, name@),
            r matches Some(a) ==> exists|i: int|
                is_first_named(self@.attributes, i, name@) && a@ == self@.attributes[i],
    {
        let key = name.to_owned();
        let mut i: usize = 0;
        while i < self.attributes.len()
            invariant
                0 <= i <= self.attributes.len(),
                key@ == name@,
                forall|j: int| 0 <= j < i ==> #[trigger] self@.attributes[j].name != name@,
            decreases self.attributes.len() - i,
        {
            if self.attributes[i].name == key {
                assert(is_first_named(self@.attributes, i as int, name@));
                return Some(&self.attributes[i]);
            }
            i += 1;
        }
        None
    }

    /// Whether no attribute has exactly this name.
    pub fn attribute_is_absent(&self, name: &str) -> (r: bool)
        ensures
            r == !has_attribute_named(self@.attributes, name@),
    {
        self.get_attribute(name).is_none()
    }

    /// Appends the attribute unless one with the same name exists; on refusal
    /// the type is left unchanged.
    pub fn add_attribute(&mut self, name: &str, data_type: DataType, is_id_part: bool) -> (r: Result<
        (),
        ObjectTypeError,
    >)
        ensures
            r.is_ok() <==> !has_attribute_named(old(self)@.attributes, name@),
            final(self)@ == old(self)@.after_add(AttributeView { name: name@, data_type, is_id_part }),
            r.is_ok() ==> final(self)@ == old(self)@.with_attribute(
                AttributeView { name: name@, data_type, is_id_part },
            ),
            r matches Err(e) ==> final(self)@ == old(self)@ && e.is_duplicate_of(name@),
            old(self)@.wf() ==> final(self)@.wf(),
    {
        if self.attribute_is_absent(name) {
            let attribute = ObjectTypeAttribute::new(name, data_type, is_id_part);
            let ghost before = self@;
            self.attributes.push(attribute);
            if is_id_part {
                self.id_parts.push(name.to_owned());
            }
            let ghost a = AttributeView { name: name@, data_type, is_id_part };
            assert(self@.attributes =~= before.attributes.push(a));
            assert(self@.id_parts =~= before.with_attribute(a).id_parts);
            proof {
                assert(self@.attributes.drop_last() =~= before.attributes);
                if before.wf() {
                    assert forall|i: int, j: int|
                        0 <= i < self@.attributes.len() && 0 <= j < self@.attributes.len() && i
                            != j implies #[trigger] self@.attributes[i].name
                        != #[trigger] self@.attributes[j].name by {
                        if i == before.attributes.len() {
                            assert(before.attributes[j].name == self@.attributes[j].name);
                        } else if j == before.attributes.len() {
                            assert(before.attributes[i].name == self@.attributes[i].name);
                        }
                    }
                }
            }
            Ok(())
        } else {
            Err(ObjectTypeError::DuplicateAttribute { name: name.to_owned() })
        }
    }
}

/// Adding an attribute whose name was just added is refused and changes
/// nothing: after any attempt to add `a`, an attempt to add an attribute of
/// the same name leaves the type as the first attempt left it.
pub proof fn lemma_second_add_is_refused(t: ObjectTypeView, a: AttributeView, b: AttributeView)
    requires
        a.name == b.name,
    ensures
        has_attribute_named(t.after_add(a).attributes, b.name),
        t.after_add(a).after_add(b) == t.after_add(a),
{
    if !has_attribute_named(t.attributes, a.name) {
        let n = t.attributes.len() as int;
        assert(t.after_add(a).attributes[n].name == b.name);
    }
}

} // verus!
