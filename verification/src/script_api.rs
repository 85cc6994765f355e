//! Types describing scripting APIs: memory layouts, primitive types, struct
//! and function definitions, and the catalog that maps type paths to them.

use vstd::arithmetic::power2::is_pow2;
use vstd::prelude::*;

use crate::error::ScriptApiError;

verus! {

/// The path of a scripted type: a namespaced name such as
/// `"mygame::physics::RigidBody"`. Paths are unique within a catalog.
pub type TypePath = String;

/// A type memory layout: size and alignment in bytes.
///
/// Every value of this type built by [`DataLayout::from_size_align`]
/// satisfies [`DataLayout::wf`]: the alignment is a power of two and the
/// size is a multiple of the alignment.
#[derive(Debug, Clone, Copy, PartialEq, Eq, Structural)]
pub struct DataLayout {
    /// The number of bytes the type takes up.
    size: usize,
    /// The alignment of the type in bytes.
    align: usize,
}

/// Mirrors `is_pow2` so that callers can evaluate it on concrete widths.
fn exec_is_pow2(n: usize) -> (r: bool)
    ensures
        r == is_pow2(n as int),
    decreases n,
{
    proof {
        reveal(is_pow2);
    }
    if n == 0 {
        false
    } else if n == 1 {
        true
    } else if n % 2 == 0 {
        exec_is_pow2(n / 2)
    } else {
        false
    }
}

impl DataLayout {
    /// The size in bytes, as seen by specifications.
    pub closed spec fn spec_size(self) -> usize {
        self.size
    }

    /// The alignment in bytes, as seen by specifications.
    pub closed spec fn spec_align(self) -> usize {
        self.align
    }

    /// The layout invariant: alignment is a power of two and the size is a
    /// multiple of the alignment.
    pub open spec fn wf(self) -> bool {
        &&& is_pow2(self.spec_align() as int)
        &&& self.spec_size() as int % self.spec_align() as int == 0
    }

    /// Validate a size/alignment pair. Succeeds exactly when `align` is a
    /// power of two and `size` is a multiple of `align`.
    pub fn from_size_align(size: usize, align: usize) -> (r: Result<Self, ScriptApiError>)
        ensures
            r is Ok <==> is_pow2(align as int) && size as int % align as int == 0,
            r matches Ok(l) ==> l.spec_size() == size && l.spec_align() == align && l.wf(),
            r is Err ==> r == Err::<Self, _>(ScriptApiError::InvalidLayout),
    {
        if exec_is_pow2(align) {
            proof {
                reveal(is_pow2);
            }
            if size % align == 0 {
                Ok(Self { size, align })
            } else {
                Err(ScriptApiError::InvalidLayout)
            }
        } else {
            Err(ScriptApiError::InvalidLayout)
        }
    }

    /// The layout carrying the given raw size and alignment, unvalidated.
    /// Decoding a catalog rebuilds layouts through this value.
    pub closed spec fn spec_raw(size: usize, align: usize) -> DataLayout {
        DataLayout { size, align }
    }

    /// What `spec_raw` carries.
    pub proof fn lemma_spec_raw(size: usize, align: usize)
        ensures
            DataLayout::spec_raw(size, align).spec_size() == size,
            DataLayout::spec_raw(size, align).spec_align() == align,
    {
    }

    /// Every layout is `spec_raw` of its own size and alignment.
    pub proof fn lemma_spec_raw_id(self)
        ensures
            DataLayout::spec_raw(self.spec_size(), self.spec_align()) == self,
    {
    }

    /// Rebuild a layout from its raw parts, without validation.
    pub(crate) fn raw(size: usize, align: usize) -> (r: DataLayout)
        ensures
            r == DataLayout::spec_raw(size, align),
    {
        DataLayout { size, align }
    }

    /// The size in bytes.
    pub fn size(&self) -> (r: usize)
        ensures
            r == self.spec_size(),
    {
        self.size
    }

    /// The alignment in bytes.
    pub fn align(&self) -> (r: usize)
        ensures
            r == self.spec_align(),
    {
        self.align
    }
}

/// A primitive type crossing the module boundary.
#[derive(Debug, Clone, Copy, PartialEq, Eq, Structural)]
pub enum Primitive {
    U8,
    U16,
    U32,
    U64,
    U128,
    I8,
    I16,
    I32,
    I64,
    I128,
    F32,
    F64,
    Char,
    Bool,
}

/// The fixed size in bytes of each primitive type.
pub open spec fn primitive_size(p: Primitive) -> usize {
    match p {
        Primitive::Char => 1,
        Primitive::Bool => 1,
        Primitive::U8 => 1,
        Primitive::U16 => 2,
        Primitive::U32 => 4,
        Primitive::U64 => 8,
        Primitive::U128 => 16,
        Primitive::I8 => 1,
        Primitive::I16 => 2,
        Primitive::I32 => 4,
        Primitive::I64 => 8,
        Primitive::I128 => 16,
        Primitive::F32 => 4,
        Primitive::F64 => 8,
    }
}

/// The fixed alignment in bytes of each primitive type. Every primitive is
/// aligned to its own size.
pub open spec fn primitive_align(p: Primitive) -> usize {
    primitive_size(p)
}

/// Implemented by schema types that carry a [`DataLayout`].
pub trait HasDataLayout {
    fn get_data_layout(&self) -> DataLayout;
}

impl HasDataLayout for Primitive {
    fn get_data_layout(&self) -> (r: DataLayout)
        ensures
            r.spec_size() == primitive_size(*self),
            r.spec_align() == primitive_align(*self),
            r.wf(),
    {
        proof {
            reveal_with_fuel(is_pow2, 6);
            assert(is_pow2(1) && is_pow2(2) && is_pow2(4) && is_pow2(8) && is_pow2(16));
        }
        match self {
            Primitive::Char => DataLayout { size: 1, align: 1 },
            Primitive::Bool => DataLayout { size: 1, align: 1 },
            Primitive::U8 => DataLayout { size: 1, align: 1 },
            Primitive::U16 => DataLayout { size: 2, align: 2 },
            Primitive::U32 => DataLayout { size: 4, align: 4 },
            Primitive::U64 => DataLayout { size: 8, align: 8 },
            Primitive::U128 => DataLayout { size: 16, align: 16 },
            Primitive::I8 => DataLayout { size: 1, align: 1 },
            Primitive::I16 => DataLayout { size: 2, align: 2 },
            Primitive::I32 => DataLayout { size: 4, align: 4 },
            Primitive::I64 => DataLayout { size: 8, align: 8 },
            Primitive::I128 => DataLayout { size: 16, align: 16 },
            Primitive::F32 => DataLayout { size: 4, align: 4 },
            Primitive::F64 => DataLayout { size: 8, align: 8 },
        }
    }
}

/// A script-loaded type: either a struct definition or a function definition.
#[derive(Debug, PartialEq, Eq)]
pub enum ScriptType {
    /// A struct definition.
    Struct(StructDefinition),
    /// A function definition.
    Function(FunctionDefinition),
}

/// The information necessary to define a scripted struct: its memory layout,
/// its shape, and its associated methods.
#[derive(Debug, PartialEq, Eq)]
pub struct StructDefinition {
    /// The size and alignment of the struct.
    pub layout: DataLayout,
    /// The shape of the data: a pointer, a struct with fields, or a
    /// primitive.
    pub component_type: DataType,
    /// The definitions of the methods associated to the struct.
    pub method_definitions: Vec<FunctionDefinition>,
}

/// The shape of a value, usually of a function argument or return value.
#[derive(Debug, PartialEq, Eq)]
pub enum DataType {
    /// A pointer to a different type.
    Pointer(Box<ScriptType>),
    /// A struct with named fields.
    Struct { fields: Vec<(String, StructDefinition)> },
    /// A primitive type.
    Primitive(Primitive),
}

/// The definition of a scripted function: named arguments, each carrying the
/// path of its declared type, and an optional return type path.
#[derive(Debug, PartialEq, Eq)]
pub struct FunctionDefinition {
    /// The arguments of the function: each argument's name and the path of
    /// its declared type, in declaration order.
    pub arguments: Vec<(String, TypePath)>,
    /// The path of the return type, if the function returns a value.
    pub return_type: Option<TypePath>,
}

impl HasDataLayout for StructDefinition {
    fn get_data_layout(&self) -> (r: DataLayout)
        ensures
            r == self.layout,
    {
        self.layout
    }
}

/// The mathematical value of a [`ScriptType`].
pub enum ScriptTypeV {
    Struct(StructDefinitionV),
    Function(FunctionDefinitionV),
}

/// The mathematical value of a [`StructDefinition`].
pub struct StructDefinitionV {
    pub layout: DataLayout,
    pub component_type: DataTypeV,
    pub method_definitions: Seq<FunctionDefinitionV>,
}

/// The mathematical value of a [`DataType`].
pub enum DataTypeV {
    Pointer(Box<ScriptTypeV>),
    Struct { fields: Seq<(Seq<char>, StructDefinitionV)> },
    Primitive(Primitive),
}

/// The mathematical value of a [`FunctionDefinition`].
pub struct FunctionDefinitionV {
    pub arguments: Seq<(Seq<char>, Seq<char>)>,
    pub return_type: Option<Seq<char>>,
}

impl View for FunctionDefinition {
    type V = FunctionDefinitionV;

    open spec fn view(&self) -> FunctionDefinitionV {
        FunctionDefinitionV {
            arguments: self.arguments@.map_values(|a: (String, TypePath)| (a.0@, a.1@)),
            return_type: match self.return_type {
                Some(t) => Some(t@),
                None => None,
            },
        }
    }
}

pub open spec fn view_script_type(t: ScriptType) -> ScriptTypeV
    decreases t,
{
    match t {
        ScriptType::Struct(s) => ScriptTypeV::Struct(view_struct_definition(s)),
        ScriptType::Function(f) => ScriptTypeV::Function(f@),
    }
}

pub open spec fn view_struct_definition(s: StructDefinition) -> StructDefinitionV
    decreases s,
{
    StructDefinitionV {
        layout: s.layout,
        component_type: view_data_type(s.component_type),
        method_definitions: s.method_definitions@.map_values(|f: FunctionDefinition| f@),
    }
}

pub open spec fn view_data_type(d: DataType) -> DataTypeV
    decreases d,
{
    match d {
        DataType::Pointer(t) => DataTypeV::Pointer(Box::new(view_script_type(*t))),
        DataType::Struct { fields } => DataTypeV::Struct { fields: view_fields(fields@) },
        DataType::Primitive(p) => DataTypeV::Primitive(p),
    }
}

pub open spec fn view_fields(s: Seq<(String, StructDefinition)>) -> Seq<
    (Seq<char>, StructDefinitionV),
>
    decreases s,
{
    if s.len() == 0 {
        Seq::empty()
    } else {
        seq![(s[0].0@, view_struct_definition(s[0].1))] + view_fields(s.drop_first())
    }
}

impl FunctionDefinition {
    /// An owned copy with the same mathematical value.
    pub fn deep_clone(&self) -> (r: Self)
        ensures
            r@ == self@,
    {
        let mut arguments: Vec<(String, TypePath)> = Vec::new();
        let n = self.arguments.len();
        let mut i: usize = 0;
        while i < n
            invariant
                n == self.arguments.len(),
                i <= n,
                arguments@.len() == i,
                forall|j: int|
                    0 <= j < i ==> arguments@[j].0@ == self.arguments@[j].0@
                        && arguments@[j].1@ == self.arguments@[j].1@,
            decreases n - i,
        {
            let a = &self.arguments[i];
            arguments.push((a.0.clone(), a.1.clone()));
            i = i + 1;
        }
        let return_type = match &self.return_type {
            Some(t) => Some(t.clone()),
            None => None,
        };
        let r = FunctionDefinition { arguments, return_type };
        proof {
            assert(r@.arguments =~= self@.arguments);
        }
        r
    }
}

impl ScriptType {
    /// An owned copy with the same mathematical value.
    pub fn deep_clone(&self) -> (r: Self)
        ensures
            r@ == self@,
        decreases *self,
    {
        match self {
            ScriptType::Struct(s) => ScriptType::Struct(s.deep_clone()),
            ScriptType::Function(f) => ScriptType::Function(f.deep_clone()),
        }
    }
}

impl StructDefinition {
    /// An owned copy with the same mathematical value.
    pub fn deep_clone(&self) -> (r: Self)
        ensures
            r@ == self@,
        decreases *self,
    {
        let mut method_definitions: Vec<FunctionDefinition> = Vec::new();
        let n = self.method_definitions.len();
        let mut i: usize = 0;
        while i < n
            invariant
                n == self.method_definitions.len(),
                i <= n,
                method_definitions@.len() == i,
                forall|j: int|
                    0 <= j < i ==> method_definitions@[j]@ == self.method_definitions@[j]@,
            decreases n - i,
        {
            method_definitions.push(self.method_definitions[i].deep_clone());
            i = i + 1;
        }
        let r = StructDefinition {
            layout: self.layout,
            component_type: self.component_type.deep_clone(),
            method_definitions,
        };
        proof {
            assert(r@.method_definitions =~= self@.method_definitions);
        }
        r
    }
}

impl DataType {
    /// An owned copy with the same mathematical value.
    pub fn deep_clone(&self) -> (r: Self)
        ensures
            r@ == self@,
        decreases *self,
    {
        match self {
            DataType::Pointer(t) => DataType::Pointer(Box::new(t.deep_clone())),
            DataType::Struct { fields } => {
                let out = deep_clone_fields(fields);
                let r = DataType::Struct { fields: out };
                proof {
                    lemma_view_fields_pointwise(out@, fields@);
                }
                r
            },
            DataType::Primitive(p) => DataType::Primitive(*p),
        }
    }
}

/// An owned copy of a field list, entrywise equal in mathematical value.
fn deep_clone_fields(fields: &Vec<(String, StructDefinition)>) -> (out: Vec<
    (String, StructDefinition),
>)
    ensures
        out@.len() == fields@.len(),
        forall|j: int|
            0 <= j < out@.len() ==> out@[j].0@ == fields@[j].0@ && out@[j].1@ == fields@[j].1@,
    decreases fields@,
{
    let mut out: Vec<(String, StructDefinition)> = Vec::new();
    let n = fields.len();
    let mut i: usize = 0;
    while i < n
        invariant
            n == fields.len(),
            i <= n,
            out@.len() == i,
            forall|j: int|
                0 <= j < i ==> out@[j].0@ == fields@[j].0@ && out@[j].1@ == fields@[j].1@,
        decreases n - i,
    {
        let f = &fields[i];
        out.push((f.0.clone(), f.1.deep_clone()));
        i = i + 1;
    }
    out
}

/// How `view_fields` acts on each entry.
pub proof fn lemma_view_fields_index(s: Seq<(String, StructDefinition)>)
    ensures
        view_fields(s).len() == s.len(),
        forall|i: int|
            0 <= i < s.len() ==> #[trigger] view_fields(s)[i] == (
                s[i].0@,
                view_struct_definition(s[i].1),
            ),
    decreases s,
{
    if s.len() > 0 {
        lemma_view_fields_index(s.drop_first());
    }
}

/// Two field lists whose entries agree pairwise on their mathematical values
/// have the same view.
proof fn lemma_view_fields_pointwise(
    a: Seq<(String, StructDefinition)>,
    b: Seq<(String, StructDefinition)>,
)
    requires
        a.len() == b.len(),
        forall|j: int| 0 <= j < a.len() ==> a[j].0@ == b[j].0@ && a[j].1@ == b[j].1@,
    ensures
        view_fields(a) == view_fields(b),
    decreases a,
{
    if a.len() == 0 {
        assert(view_fields(a) =~= view_fields(b));
    } else {
        lemma_view_fields_pointwise(a.drop_first(), b.drop_first());
        assert(view_fields(a) =~= view_fields(b));
    }
}

impl View for ScriptType {
    type V = ScriptTypeV;

    open spec fn view(&self) -> ScriptTypeV {
        view_script_type(*self)
    }
}

/// Character-by-character string equality: true exactly when the two views
/// are the same character sequence.
pub fn str_eq(a: &str, b: &str) -> (r: bool)
    ensures
        r == (a@ == b@),
{
    let na = a.unicode_len();
    let nb = b.unicode_len();
    if na != nb {
        return false;
    }
    let mut i: usize = 0;
    while i < na
        invariant
            na == a@.len(),
            nb == b@.len(),
            na == nb,
            i <= na,
            forall|j: int| 0 <= j < i ==> a@[j] == b@[j],
        decreases na - i,
    {
        if a.get_char(i) != b.get_char(i) {
            return false;
        }
        i = i + 1;
    }
    proof {
        assert(a@ =~= b@);
    }
    true
}

impl View for StructDefinition {
    type V = StructDefinitionV;

    open spec fn view(&self) -> StructDefinitionV {
        view_struct_definition(*self)
    }
}

impl View for DataType {
    type V = DataTypeV;

    open spec fn view(&self) -> DataTypeV {
        view_data_type(*self)
    }
}

/// Some entry of the list carries the given path.
pub open spec fn entries_contain(v: Seq<(Seq<char>, ScriptTypeV)>, p: Seq<char>) -> bool {
    exists|i: int| 0 <= i < v.len() && v[i].0 == p
}

/// No path occurs twice in a catalog's entry list.
pub open spec fn paths_unique(v: Seq<(Seq<char>, ScriptTypeV)>) -> bool {
    forall|i: int, j: int| 0 <= i < j < v.len() ==> v[i].0 != v[j].0
}

/// A registry of scripted types mapping each unique type path to its
/// definition. Produced once per adapter; the host also owns one merged
/// catalog.
#[derive(Debug, PartialEq, Eq)]
pub struct ScriptApi {
    entries: Vec<(TypePath, ScriptType)>,
}

impl View for ScriptApi {
    type V = Seq<(Seq<char>, ScriptTypeV)>;

    closed spec fn view(&self) -> Seq<(Seq<char>, ScriptTypeV)> {
        self.entries@.map_values(|e: (TypePath, ScriptType)| (e.0@, view_script_type(e.1)))
    }
}

impl ScriptApi {
    /// True when some entry carries the given path.
    pub open spec fn spec_contains_path(self, p: Seq<char>) -> bool {
        exists|i: int| 0 <= i < self@.len() && self@[i].0 == p
    }

    /// The position of the entry carrying the given path.
    pub open spec fn spec_index_of_path(self, p: Seq<char>) -> int {
        choose|i: int| 0 <= i < self@.len() && self@[i].0 == p
    }

    /// The definition registered under the given path.
    pub open spec fn spec_lookup(self, p: Seq<char>) -> ScriptTypeV {
        self@[self.spec_index_of_path(p)].1
    }

    /// The catalog invariant: no path occurs twice.
    pub open spec fn wf(self) -> bool {
        paths_unique(self@)
    }

    /// An empty catalog.
    pub fn new() -> (r: Self)
        ensures
            r@ == Seq::<(Seq<char>, ScriptTypeV)>::empty(),
            r.wf(),
    {
        let r = ScriptApi { entries: Vec::new() };
        proof {
            assert(r@ =~= Seq::<(Seq<char>, ScriptTypeV)>::empty());
        }
        r
    }

    /// The number of entries.
    pub fn len(&self) -> (r: usize)
        ensures
            r == self@.len(),
    {
        self.entries.len()
    }

    /// True when an entry carries the given path.
    pub fn contains_path(&self, path: &str) -> (r: bool)
        ensures
            r == self.spec_contains_path(path@),
    {
        let n = self.entries.len();
        let mut i: usize = 0;
        while i < n
            invariant
                n == self.entries.len(),
                i <= n,
                forall|j: int| 0 <= j < i ==> self@[j].0 != path@,
            decreases n - i,
        {
            if str_eq(self.entries[i].0.as_str(), path) {
                proof {
                    assert(self@[i as int].0 == path@);
                }
                return true;
            }
            i = i + 1;
        }
        false
    }

    /// Register a definition under a path. Fails with `TypeRedefined`, and
    /// leaves the catalog unchanged, exactly when the path is already
    /// claimed.
    pub fn insert(&mut self, path: TypePath, script_type: ScriptType) -> (r: Result<
        (),
        ScriptApiError,
    >)
        requires
            old(self).wf(),
        ensures
            final(self).wf(),
            r is Ok <==> !old(self).spec_contains_path(path@),
            r is Ok ==> final(self)@ == old(self)@.push((path@, script_type@)),
            r is Err ==> final(self)@ == old(self)@ && r == Err::<(), _>(
                ScriptApiError::TypeRedefined(path),
            ),
    {
        if self.contains_path(path.as_str()) {
            return Err(ScriptApiError::TypeRedefined(path));
        }
        self.entries.push((path, script_type));
        proof {
            assert(self@ =~= old(self)@.push((path@, script_type@)));
            assert forall|i: int, j: int| 0 <= i < j < self@.len() implies self@[i].0
                != self@[j].0 by {
                if j == self@.len() - 1 {
                    assert(!old(self).spec_contains_path(path@));
                    if self@[i].0 == path@ {
                        assert(old(self)@[i].0 == path@);
                        assert(old(self).spec_contains_path(path@));
                    }
                }
            }
        }
        Ok(())
    }

    /// The definition registered under the given path, if any.
    pub fn get(&self, path: &str) -> (r: Option<&ScriptType>)
        requires
            self.wf(),
        ensures
            r is Some <==> self.spec_contains_path(path@),
            r matches Some(t) ==> t@ == self.spec_lookup(path@),
    {
        let n = self.entries.len();
        let mut i: usize = 0;
        while i < n
            invariant
                n == self.entries.len(),
                i <= n,
                self.wf(),
                forall|j: int| 0 <= j < i ==> self@[j].0 != path@,
            decreases n - i,
        {
            if str_eq(self.entries[i].0.as_str(), path) {
                proof {
                    assert(self@[i as int].0 == path@);
                    assert(self.spec_contains_path(path@));
                    let k = self.spec_index_of_path(path@);
                    assert(0 <= k < self@.len() && self@[k].0 == path@);
                    assert(k == i);
                }
                return Some(&self.entries[i].1);
            }
            i = i + 1;
        }
        None
    }

    /// The entry at a position: its path and its definition.
    pub fn entry_at(&self, i: usize) -> (r: &(TypePath, ScriptType))
        requires
            i < self@.len(),
        ensures
            r.0@ == self@[i as int].0,
            r.1@ == self@[i as int].1,
    {
        &self.entries[i]
    }

    /// An owned copy with the same mathematical value.
    pub fn deep_clone(&self) -> (r: Self)
        ensures
            r@ == self@,
    {
        let mut entries: Vec<(TypePath, ScriptType)> = Vec::new();
        let n = self.entries.len();
        let mut i: usize = 0;
        while i < n
            invariant
                n == self.entries.len(),
                i <= n,
                entries@.len() == i,
                forall|j: int|
                    0 <= j < i ==> entries@[j].0@ == self.entries@[j].0@ && entries@[j].1@
                        == self.entries@[j].1@,
            decreases n - i,
        {
            let e = &self.entries[i];
            entries.push((e.0.clone(), e.1.deep_clone()));
            i = i + 1;
        }
        let r = ScriptApi { entries };
        proof {
            assert(r@ =~= self@);
        }
        r
    }

    /// Append every entry of another catalog whose paths are disjoint from
    /// this one's. The result is the concatenation of the two catalogs.
    pub fn append_catalog(&mut self, other: &ScriptApi)
        requires
            old(self).wf(),
            other.wf(),
            forall|p: Seq<char>| old(self).spec_contains_path(p) ==> !other.spec_contains_path(p),
        ensures
            final(self)@ == old(self)@ + other@,
            final(self).wf(),
    {
        let n = other.entries.len();
        let mut i: usize = 0;
        while i < n
            invariant
                n == other.entries.len(),
                other.wf(),
                old(self).wf(),
                forall|p: Seq<char>|
                    old(self).spec_contains_path(p) ==> !other.spec_contains_path(p),
                i <= n,
                self@ == old(self)@ + other@.take(i as int),
            decreases n - i,
        {
            let e = other.entry_at(i);
            let ghost pre = self@;
            let p0 = e.0.clone();
            let p1 = e.1.deep_clone();
            self.entries.push((p0, p1));
            proof {
                assert(self@ =~= pre.push((p0@, p1@)));
                assert(p0@ == other@[i as int].0 && p1@ == other@[i as int].1);
                assert((p0@, p1@) == other@[i as int]);
                assert(self@ =~= old(self)@ + other@.take(i as int + 1));
            }
            i = i + 1;
        }
        proof {
            assert(other@.take(n as int) =~= other@);
            assert(self@ =~= old(self)@ + other@);
            assert forall|i: int, j: int| 0 <= i < j < self@.len() implies self@[i].0
                != self@[j].0 by {
                let m = old(self)@.len();
                if i < m && j >= m {
                    if self@[i].0 == self@[j].0 {
                        assert(old(self).spec_contains_path(old(self)@[i].0));
                        assert(other.spec_contains_path(other@[j - m].0));
                    }
                }
            }
        }
    }
}

} // verus!
