use vstd::prelude::*;

use ahash::AHashMap;

use crate::foreign::{slot_map_entries, slot_map_get, slot_map_insert, slot_map_new, SlotMap};
use crate::vm::heap::str_eq;

verus! {

/// The type of a value, as parameters declare it.
#[derive(Debug, Clone, Copy, PartialEq, Eq, Structural, Hash)]
pub enum TypeId {
    Nil,
    Bool,
    Number,
    String,
    Fn,
    /// A user-declared struct type, by definition id.
    Struct(u16),
    /// An untyped parameter: matches any argument.
    Any,
}

/// Definition of a named struct type. Names are interned symbols.
#[derive(Debug)]
pub struct StructDef {
    pub name: u32,
    pub fields: Vec<(u32, TypeId)>,
    pub methods: Vec<(u32, usize)>,
}

impl Clone for StructDef {
    fn clone(&self) -> (res: Self)
        ensures
            res.name == self.name,
            res.fields@ == self.fields@,
            res.methods@ == self.methods@,
    {
        StructDef {
            name: self.name,
            fields: copy_pairs(&self.fields),
            methods: copy_method_pairs(&self.methods),
        }
    }
}

/// Registry of all user-declared types.
pub struct TypeRegistry {
    structs: Vec<StructDef>,
    name_to_struct: SlotMap,
}

impl TypeRegistry {
    /// The definition id each declared name resolves to.
    pub closed spec fn names(&self) -> Map<u32, u16> {
        slot_map_entries(self.name_to_struct)
    }

    /// The declared definitions, by id.
    pub closed spec fn defs(&self) -> Seq<StructDef> {
        self.structs@
    }

    /// Every name resolves to a declared definition.
    pub closed spec fn wf(&self) -> bool {
        forall|n: u32| #[trigger] self.names().contains_key(n) ==> self.names()[n] < self.defs().len()
    }

    pub fn new() -> (res: Self)
        ensures
            res.wf(),
            res.defs().len() == 0,
            res.names().is_empty(),
    {
        TypeRegistry { structs: Vec::new(), name_to_struct: slot_map_new() }
    }

    // ── Structs ──

    /// Declares struct `name` with `fields`; the new definition takes the next
    /// id (reduced to 16 bits) and the name now resolves to it.
    pub fn declare_struct(&mut self, name: u32, fields: Vec<(u32, TypeId)>) -> (res: TypeId)
        requires
            old(self).wf(),
        ensures
            final(self).wf(),
            res == TypeId::Struct((old(self).defs().len() % 0x10000) as u16),
            final(self).defs().len() == old(self).defs().len() + 1,
            forall|i: int| 0 <= i < old(self).defs().len() ==> final(self).defs()[i] == old(self).defs()[i],
            final(self).defs().last().name == name,
            final(self).defs().last().fields@ == fields@,
            final(self).defs().last().methods@.len() == 0,
            final(self).names() == old(self).names().insert(
                name,
                (old(self).defs().len() % 0x10000) as u16,
            ),
    {
        let def_id = (self.structs.len() % 0x10000) as u16;
        slot_map_insert(&mut self.name_to_struct, name, def_id);
        self.structs.push(StructDef { name, fields, methods: Vec::new() });
        assert forall|n: u32| #[trigger] self.names().contains_key(n) implies self.names()[n]
            < self.defs().len() by {
            if n != name {
                assert(old(self).names().contains_key(n));
            }
        }
        TypeId::Struct(def_id)
    }

    /// The definition id `name` resolves to.
    pub fn resolve_struct(&self, name: u32) -> (res: Option<u16>)
        requires
            self.wf(),
        ensures
            res == (if self.names().contains_key(name) {
                Some(self.names()[name])
            } else {
                None
            }),
            res matches Some(d) ==> d < self.defs().len(),
    {
        let res = slot_map_get(&self.name_to_struct, name);
        proof {
            if self.names().contains_key(name) {
                assert(self.names()[name] < self.defs().len());
            }
        }
        res
    }

    /// The definition with id `def_id`.
    pub fn get_struct(&self, def_id: u16) -> (res: &StructDef)
        requires
            def_id < self.defs().len(),
        ensures
            *res == self.defs()[def_id as int],
    {
        &self.structs[def_id as usize]
    }

    /// The position of field `field_name` in definition `def_id`, if it has one.
    pub fn lookup_field(&self, def_id: u16, field_name: u32) -> (res: Option<u8>)
        requires
            def_id < self.defs().len(),
        ensures
            res matches Some(i) ==> {
                let fs = self.defs()[def_id as int].fields@;
                &&& (i as int) < fs.len()
                &&& fs[i as int].0 == field_name
                &&& forall|j: int| 0 <= j < i ==> fs[j].0 != field_name
            },
            res is None ==> forall|j: int|
                0 <= j < self.defs()[def_id as int].fields@.len() ==> #[trigger] self.defs()[def_id as int].fields@[j].0 != field_name
                    || j >= 256,
    {
        let def = self.get_struct(def_id);
        let mut i: usize = 0;
        while i < def.fields.len()
            invariant
                0 <= i <= def.fields.len(),
                *def == self.defs()[def_id as int],
                forall|j: int| 0 <= j < i ==> def.fields@[j].0 != field_name,
            decreases def.fields.len() - i,
        {
            if def.fields[i].0 == field_name {
                if i < 256 {
                    return Some(i as u8);
                } else {
                    return None;
                }
            }
            i = i + 1;
        }
        None
    }

    /// The builtin type a type name denotes.
    pub fn resolve_builtin_type_name(&self, name: &str) -> (res: Option<TypeId>)
        ensures
            res == spec_builtin_type(name@),
    {
        proof {
            reveal_strlit("Nil");
            reveal_strlit("Bool");
            reveal_strlit("Number");
            reveal_strlit("String");
            reveal_strlit("Fn");
            assert("Nil"@ =~= seq!['N', 'i', 'l']);
            assert("Bool"@ =~= seq!['B', 'o', 'o', 'l']);
            assert("Number"@ =~= seq!['N', 'u', 'm', 'b', 'e', 'r']);
            assert("String"@ =~= seq!['S', 't', 'r', 'i', 'n', 'g']);
            assert("Fn"@ =~= seq!['F', 'n']);
        }
        if str_eq(name, "Nil") {
            Some(TypeId::Nil)
        } else if str_eq(name, "Bool") {
            Some(TypeId::Bool)
        } else if str_eq(name, "Number") {
            Some(TypeId::Number)
        } else if str_eq(name, "String") {
            Some(TypeId::String)
        } else if str_eq(name, "Fn") {
            Some(TypeId::Fn)
        } else {
            None
        }
    }

    /// Looks up a method on a type. No type has methods yet.
    pub fn lookup_method(&self, type_id: TypeId, method_name: u32) -> (res: Option<usize>)
        ensures
            res is None,
    {
        None
    }
}

/// A copy of a list of (symbol, type) pairs.
pub fn copy_pairs(v: &Vec<(u32, TypeId)>) -> (res: Vec<(u32, TypeId)>)
    ensures
        res@ == v@,
{
    let mut res: Vec<(u32, TypeId)> = Vec::new();
    let mut i: usize = 0;
    while i < v.len()
        invariant
            0 <= i <= v.len(),
            res@ == v@.subrange(0, i as int),
        decreases v.len() - i,
    {
        res.push(v[i]);
        i = i + 1;
    }
    res
}

/// A copy of a list of (symbol, function id) pairs.
pub fn copy_method_pairs(v: &Vec<(u32, usize)>) -> (res: Vec<(u32, usize)>)
    ensures
        res@ == v@,
{
    let mut res: Vec<(u32, usize)> = Vec::new();
    let mut i: usize = 0;
    while i < v.len()
        invariant
            0 <= i <= v.len(),
            res@ == v@.subrange(0, i as int),
        decreases v.len() - i,
    {
        res.push(v[i]);
        i = i + 1;
    }
    res
}

/// The builtin type names: `Nil`, `Bool`, `Number`, `String` and `Fn`.
pub open spec fn spec_builtin_type(name: Seq<char>) -> Option<TypeId> {
    if name == seq!['N', 'i', 'l'] {
        Some(TypeId::Nil)
    } else if name == seq!['B', 'o', 'o', 'l'] {
        Some(TypeId::Bool)
    } else if name == seq!['N', 'u', 'm', 'b', 'e', 'r'] {
        Some(TypeId::Number)
    } else if name == seq!['S', 't', 'r', 'i', 'n', 'g'] {
        Some(TypeId::String)
    } else if name == seq!['F', 'n'] {
        Some(TypeId::Fn)
    } else {
        None
    }
}

} // verus!
