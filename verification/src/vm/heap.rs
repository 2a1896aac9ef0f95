use vstd::prelude::*;

use slab::Slab;
use vstd::string::StringSliceAdditionalSpecFns;

use crate::value::{Value, ValueModel};

verus! {

#[verifier::external_type_specification]
#[verifier::external_body]
#[verifier::reject_recursive_types(T)]
pub struct ExSlab<T>(slab::Slab<T>);

/// A captured variable.
pub enum Upvalue {
    /// The value is still live at `stack[absolute_index]`.
    Open(usize),
    /// The value has been moved off the stack.
    Closed(Value),
}

pub enum UpvalueModel {
    Open(usize),
    Closed(ValueModel),
}

impl View for Upvalue {
    type V = UpvalueModel;

    open spec fn view(&self) -> UpvalueModel {
        match self {
            Upvalue::Open(p) => UpvalueModel::Open(*p),
            Upvalue::Closed(v) => UpvalueModel::Closed(v@),
        }
    }
}

/// The field names of a struct type, in declaration order.
pub struct StructDefHeader {
    pub field_names: Vec<String>,
}

/// A heap-allocated struct instance.
pub struct StructObject {
    pub def_id: u16,
    pub fields: Vec<Value>,
}

pub struct StructModel {
    pub def_id: u16,
    pub fields: Seq<ValueModel>,
}

impl View for StructObject {
    type V = StructModel;

    open spec fn view(&self) -> StructModel {
        StructModel { def_id: self.def_id, fields: self.fields@.map_values(|v: Value| v@) }
    }
}

/// The upvalues a slab holds, by key.
pub uninterp spec fn upvalue_slots(s: Slab<Upvalue>) -> Map<usize, UpvalueModel>;

/// The struct instances a slab holds, by key.
pub uninterp spec fn struct_slots(s: Slab<StructObject>) -> Map<usize, StructModel>;

/// `slab::Slab::new` for upvalues: an empty slab.
#[verifier::external_body]
fn upvalue_slab_new() -> (s: Slab<Upvalue>)
    ensures
        upvalue_slots(s).is_empty(),
{
    Slab::new()
}

/// `Slab::insert` for upvalues: stores `v` under a key that was free, and returns the key.
#[verifier::external_body]
fn upvalue_slab_insert(s: &mut Slab<Upvalue>, v: Upvalue) -> (key: usize)
    ensures
        !upvalue_slots(*old(s)).contains_key(key),
        upvalue_slots(*final(s)) == upvalue_slots(*old(s)).insert(key, v@),
{
    s.insert(v)
}

/// `Slab::get` for upvalues: the upvalue under `key`, if there is one.
#[verifier::external_body]
fn upvalue_slab_get(s: &Slab<Upvalue>, key: usize) -> (res: Option<&Upvalue>)
    ensures
        res is Some <==> upvalue_slots(*s).contains_key(key),
        res matches Some(u) ==> u@ == upvalue_slots(*s)[key],
{
    s.get(key)
}

/// `Slab` indexing for upvalues: overwrites the upvalue under `key`.
#[verifier::external_body]
fn upvalue_slab_set(s: &mut Slab<Upvalue>, key: usize, v: Upvalue)
    requires
        upvalue_slots(*old(s)).contains_key(key),
    ensures
        upvalue_slots(*final(s)) == upvalue_slots(*old(s)).insert(key, v@),
{
    s[key] = v;
}

/// `slab::Slab::new` for struct instances: an empty slab.
#[verifier::external_body]
fn struct_slab_new() -> (s: Slab<StructObject>)
    ensures
        struct_slots(s).is_empty(),
{
    Slab::new()
}

/// `Slab::insert` for struct instances: stores `v` under a key that was free, and returns the key.
#[verifier::external_body]
fn struct_slab_insert(s: &mut Slab<StructObject>, v: StructObject) -> (key: usize)
    ensures
        !struct_slots(*old(s)).contains_key(key),
        struct_slots(*final(s)) == struct_slots(*old(s)).insert(key, v@),
{
    s.insert(v)
}

/// `Slab::get` for struct instances: the instance under `key`, if there is one.
#[verifier::external_body]
fn struct_slab_get(s: &Slab<StructObject>, key: usize) -> (res: Option<&StructObject>)
    ensures
        res is Some <==> struct_slots(*s).contains_key(key),
        res matches Some(o) ==> o@ == struct_slots(*s)[key],
{
    s.get(key)
}

/// `Slab` mutable indexing for struct instances: a mutable borrow of the
/// instance under `key`; what is written through it is what the slab holds after.
#[verifier::external_body]
fn struct_slab_get_mut(s: &mut Slab<StructObject>, key: usize) -> (r: &mut StructObject)
    requires
        struct_slots(*old(s)).contains_key(key),
    ensures
        (*r)@ == struct_slots(*old(s))[key],
        struct_slots(*final(s)) == struct_slots(*old(s)).insert(key, (*final(r))@),
{
    &mut s[key]
}

/// Upvalue cells, struct definitions and struct instances of a running program.
pub struct Heap {
    upvalues: Slab<Upvalue>,
    struct_defs: Vec<StructDefHeader>,
    structs: Slab<StructObject>,
}

impl Heap {
    /// The upvalue cells, by key.
    pub closed spec fn upvalues(&self) -> Map<usize, UpvalueModel> {
        upvalue_slots(self.upvalues)
    }

    /// The struct instances, by key.
    pub closed spec fn objects(&self) -> Map<usize, StructModel> {
        struct_slots(self.structs)
    }

    /// The field names of each struct definition.
    pub closed spec fn defs(&self) -> Seq<Seq<Seq<char>>> {
        self.struct_defs@.map_values(|d: StructDefHeader| d.field_names@.map_values(|s: String| s@))
    }

    pub fn new() -> (res: Heap)
        ensures
            res.upvalues().is_empty(),
            res.objects().is_empty(),
            res.defs().len() == 0,
    {
        Heap { upvalues: upvalue_slab_new(), struct_defs: Vec::new(), structs: struct_slab_new() }
    }

    // ── Upvalue pool ──

    /// Stores a new upvalue cell and returns its key, reduced to 16 bits as
    /// upvalue operands are.
    pub fn push_upvalue(&mut self, uv: Upvalue) -> (res: u16)
        ensures
            exists|k: usize|
                {
                    &&& !old(self).upvalues().contains_key(k)
                    &&& final(self).upvalues() == old(self).upvalues().insert(k, uv@)
                    &&& res == k % 0x10000
                },
            final(self).objects() == old(self).objects(),
            final(self).defs() == old(self).defs(),
    {
        let ghost old_slots = self.upvalues();
        let k = upvalue_slab_insert(&mut self.upvalues, uv);
        let res = (k % 0x10000) as u16;
        assert(!old_slots.contains_key(k) && self.upvalues() == old_slots.insert(k, uv@) && res
            == k % 0x10000);
        res
    }

    /// The upvalue cell under `key`, if any.
    pub fn upvalue(&self, key: u16) -> (res: Option<&Upvalue>)
        ensures
            res is Some <==> self.upvalues().contains_key(key as usize),
            res matches Some(u) ==> u@ == self.upvalues()[key as usize],
    {
        upvalue_slab_get(&self.upvalues, key as usize)
    }

    /// Overwrites the upvalue cell under `key`.
    pub fn set_upvalue(&mut self, key: u16, uv: Upvalue)
        requires
            old(self).upvalues().contains_key(key as usize),
        ensures
            final(self).upvalues() == old(self).upvalues().insert(key as usize, uv@),
            final(self).objects() == old(self).objects(),
            final(self).defs() == old(self).defs(),
    {
        upvalue_slab_set(&mut self.upvalues, key as usize, uv);
    }

    // ── Struct definitions ──

    /// Records the field names of definition `def_id` unless it already has some.
    pub fn ensure_struct_def(&mut self, def_id: u16, field_names: Vec<String>)
        ensures
            final(self).defs().len() == if def_id as int >= old(self).defs().len() {
                def_id as int + 1
            } else {
                old(self).defs().len() as int
            },
            forall|i: int|
                0 <= i < final(self).defs().len() && i != def_id as int ==> (#[trigger] final(self).defs()[i]) == (if i < old(self).defs().len() {
                    old(self).defs()[i]
                } else {
                    Seq::<Seq<char>>::empty()
                }),
            final(self).defs()[def_id as int] == if def_id < old(self).defs().len()
                && old(self).defs()[def_id as int].len() > 0 {
                old(self).defs()[def_id as int]
            } else {
                field_names@.map_values(|s: String| s@)
            },
            final(self).upvalues() == old(self).upvalues(),
            final(self).objects() == old(self).objects(),
            final(self).defs() == with_def(old(self).defs(), def_id as int, field_names@.map_values(|s: String| s@)),
    {
        let ghost names = field_names@.map_values(|s: String| s@);
        let idx = def_id as usize;
        if self.struct_defs.len() <= idx {
        while self.struct_defs.len() <= idx
            invariant
                self.struct_defs@.len() <= idx + 1,
                old(self).struct_defs@.len() <= self.struct_defs@.len(),
                forall|i: int|
                    0 <= i < self.struct_defs@.len() ==> (#[trigger] self.defs()[i]) == (if i
                        < old(self).struct_defs@.len() {
                        old(self).defs()[i]
                    } else {
                        Seq::<Seq<char>>::empty()
                    }),
                self.upvalues() == old(self).upvalues(),
                self.objects() == old(self).objects(),
            decreases idx + 1 - self.struct_defs@.len(),
        {
            let ghost before = self.defs();
            let h = StructDefHeader { field_names: Vec::new() };
            assert(h.field_names@.map_values(|s: String| s@) =~= Seq::<Seq<char>>::empty());
            self.struct_defs.push(h);
            assert(self.defs() =~= before.push(Seq::<Seq<char>>::empty()));
        }
        }
        if self.struct_defs[idx].field_names.len() == 0 {
            assert(self.defs()[idx as int].len() == 0);
            let ghost before = self.defs();
            self.struct_defs.set(idx, StructDefHeader { field_names });
            assert forall|i: int|
                0 <= i < self.struct_defs@.len() && i != idx implies (#[trigger] self.defs()[i])
                == before[i] by {}
        } else {
            assert(self.defs()[idx as int].len() > 0);
        }
        assert(self.defs() =~= with_def(old(self).defs(), def_id as int, names));
    }

    /// The position of field `name` in definition `def_id`, if it has one.
    pub fn struct_field_index(&self, def_id: u16, name: &str) -> (res: Option<usize>)
        ensures
            res is None <==> spec_field_index(self.defs(), def_id as int, name@) is None,
            res matches Some(i) ==> spec_field_index(self.defs(), def_id as int, name@) == Some(
                i as int,
            ),
    {
        if def_id as usize >= self.struct_defs.len() {
            return None;
        }
        let names = &self.struct_defs[def_id as usize].field_names;
        let ghost ns = self.defs()[def_id as int];
        assert(ns == names@.map_values(|s: String| s@));
        let mut i: usize = 0;
        while i < names.len()
            invariant
                0 <= i <= names.len(),
                ns == names@.map_values(|s: String| s@),
                0 <= def_id < self.defs().len(),
                ns == self.defs()[def_id as int],
                forall|j: int| 0 <= j < i ==> ns[j] != name@,
            decreases names.len() - i,
        {
            assert(ns[i as int] == names@[i as int]@);
            if str_eq(names[i].as_str(), name) {
                proof {
                    lemma_first_index(ns, name@, i as int);
                }
                return Some(i);
            }
            i = i + 1;
        }
        proof {
            lemma_first_index_none(ns, name@);
        }
        None
    }

    // ── Struct instances ──

    /// Stores a new struct instance and returns its key, reduced to 16 bits as
    /// struct references are.
    pub fn push_struct(&mut self, obj: StructObject) -> (res: u16)
        ensures
            exists|k: usize|
                {
                    &&& !old(self).objects().contains_key(k)
                    &&& final(self).objects() == old(self).objects().insert(k, obj@)
                    &&& res == k % 0x10000
                },
            final(self).upvalues() == old(self).upvalues(),
            final(self).defs() == old(self).defs(),
    {
        let ghost old_slots = self.objects();
        let ghost m = obj@;
        let k = struct_slab_insert(&mut self.structs, obj);
        let res = (k % 0x10000) as u16;
        assert(!old_slots.contains_key(k) && self.objects() == old_slots.insert(k, m) && res == k
            % 0x10000);
        res
    }

    /// The struct instance under `key`, if any.
    pub fn struct_ref(&self, key: u16) -> (res: Option<&StructObject>)
        ensures
            res is Some <==> self.objects().contains_key(key as usize),
            res matches Some(o) ==> o@ == self.objects()[key as usize],
    {
        struct_slab_get(&self.structs, key as usize)
    }

    /// Overwrites field `idx` of the struct instance under `key`.
    pub fn set_struct_field(&mut self, key: u16, idx: usize, val: Value)
        requires
            old(self).objects().contains_key(key as usize),
            idx < old(self).objects()[key as usize].fields.len(),
        ensures
            final(self).objects() == old(self).objects().insert(
                key as usize,
                StructModel {
                    def_id: old(self).objects()[key as usize].def_id,
                    fields: old(self).objects()[key as usize].fields.update(idx as int, val@),
                },
            ),
            final(self).upvalues() == old(self).upvalues(),
            final(self).defs() == old(self).defs(),
    {
        let obj = struct_slab_get_mut(&mut self.structs, key as usize);
        let ghost before = obj.fields@;
        obj.fields.set(idx, val);
        assert(obj.fields@.map_values(|v: Value| v@) =~= before.map_values(|v: Value| v@).update(
            idx as int,
            val@,
        ));
    }
}

/// The definitions after recording `names` as the field names of
/// definition `def_id`: the list grows with empty definitions up to it, and
/// a definition that already has field names keeps them.
pub open spec fn with_def(defs: Seq<Seq<Seq<char>>>, def_id: int, names: Seq<Seq<char>>) -> Seq<Seq<Seq<char>>> {
    let grown = if def_id >= defs.len() {
        defs + Seq::new((def_id + 1 - defs.len()) as nat, |i: int| Seq::<Seq<char>>::empty())
    } else {
        defs
    };
    if grown[def_id].len() > 0 {
        grown
    } else {
        grown.update(def_id, names)
    }
}

/// The position of the first name in `defs[def_id]` equal to `name`.
pub open spec fn spec_field_index(defs: Seq<Seq<Seq<char>>>, def_id: int, name: Seq<char>) -> Option<int> {
    if 0 <= def_id < defs.len() {
        spec_first_index(defs[def_id], name)
    } else {
        None
    }
}

/// The position of the first element of `s` equal to `x`.
pub open spec fn spec_first_index<T>(s: Seq<T>, x: T) -> Option<int>
    decreases s.len(),
{
    if s.len() == 0 {
        None
    } else if s[0] == x {
        Some(0int)
    } else {
        match spec_first_index(s.drop_first(), x) {
            Some(i) => Some(i + 1),
            None => None,
        }
    }
}

/// The first index of an element lies inside the sequence and holds it.
pub proof fn lemma_first_index_bounds<T>(s: Seq<T>, x: T)
    ensures
        spec_first_index(s, x) matches Some(i) ==> 0 <= i < s.len() && s[i] == x,
    decreases s.len(),
{
    if s.len() > 0 {
        lemma_first_index_bounds(s.drop_first(), x);
    }
}

pub proof fn lemma_first_index<T>(s: Seq<T>, x: T, i: int)
    requires
        0 <= i < s.len(),
        s[i] == x,
        forall|j: int| 0 <= j < i ==> s[j] != x,
    ensures
        spec_first_index(s, x) == Some(i),
    decreases s.len(),
{
    if i > 0 {
        assert forall|j: int| 0 <= j < i - 1 implies s.drop_first()[j] != x by {
            assert(s.drop_first()[j] == s[j + 1]);
        }
        lemma_first_index(s.drop_first(), x, i - 1);
    }
}

pub proof fn lemma_first_index_none<T>(s: Seq<T>, x: T)
    requires
        forall|j: int| 0 <= j < s.len() ==> s[j] != x,
    ensures
        spec_first_index(s, x) == None::<int>,
    decreases s.len(),
{
    if s.len() > 0 {
        assert forall|j: int| 0 <= j < s.len() - 1 implies s.drop_first()[j] != x by {
            assert(s.drop_first()[j] == s[j + 1]);
        }
        lemma_first_index_none(s.drop_first(), x);
    }
}

/// Whether two strings are equal.
pub fn str_eq(a: &str, b: &str) -> (res: bool)
    ensures
        res == (a@ == b@),
{
    let ab = a.as_bytes();
    let bb = b.as_bytes();
    proof {
        vstd::utf8::encode_utf8_decode_utf8(a@);
        vstd::utf8::encode_utf8_decode_utf8(b@);
    }
    if ab.len() != bb.len() {
        return false;
    }
    let mut i: usize = 0;
    while i < ab.len()
        invariant
            ab@ == a.spec_bytes(),
            bb@ == b.spec_bytes(),
            ab.len() == bb.len(),
            0 <= i <= ab.len(),
            forall|j: int| 0 <= j < i ==> ab@[j] == bb@[j],
        decreases ab.len() - i,
    {
        if ab[i] != bb[i] {
            return false;
        }
        i = i + 1;
    }
    assert(ab@ =~= bb@);
    true
}

} // verus!
