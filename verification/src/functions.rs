use vstd::prelude::*;

use crate::text::{decimal, join, spec_decimal, spec_digit_char};

use crate::types::TypeId;
use crate::value::{spec_value_eq, Value, ValueModel};
use crate::vm::heap::{str_eq, Heap, StructModel};

verus! {

/// Operators and builtins that source code can rebind with `@lang_item(name)`.
#[derive(Debug, Clone, Copy, PartialEq, Eq, Structural, Hash)]
pub enum LangItem {
    Add,
    Sub,
    Mul,
    Div,
    Rem,
    Neg,
    Not,
    Eq,
    Neq,
    Lt,
    Gt,
    Le,
    Ge,
}

/// The source name of each lang item.
pub open spec fn spec_lang_item_name(item: LangItem) -> Seq<char> {
    match item {
        LangItem::Add => seq!['a', 'd', 'd'],
        LangItem::Sub => seq!['s', 'u', 'b'],
        LangItem::Mul => seq!['m', 'u', 'l'],
        LangItem::Div => seq!['d', 'i', 'v'],
        LangItem::Rem => seq!['r', 'e', 'm'],
        LangItem::Neg => seq!['n', 'e', 'g'],
        LangItem::Not => seq!['n', 'o', 't'],
        LangItem::Eq => seq!['e', 'q'],
        LangItem::Neq => seq!['n', 'e', 'q'],
        LangItem::Lt => seq!['l', 't'],
        LangItem::Gt => seq!['g', 't'],
        LangItem::Le => seq!['l', 'e'],
        LangItem::Ge => seq!['g', 'e'],
    }
}

/// The lang item whose source name is `name`, if any.
pub open spec fn spec_lang_item_from_name(name: Seq<char>) -> Option<LangItem> {
    if name == spec_lang_item_name(LangItem::Add) {
        Some(LangItem::Add)
    } else if name == spec_lang_item_name(LangItem::Sub) {
        Some(LangItem::Sub)
    } else if name == spec_lang_item_name(LangItem::Mul) {
        Some(LangItem::Mul)
    } else if name == spec_lang_item_name(LangItem::Div) {
        Some(LangItem::Div)
    } else if name == spec_lang_item_name(LangItem::Rem) {
        Some(LangItem::Rem)
    } else if name == spec_lang_item_name(LangItem::Neg) {
        Some(LangItem::Neg)
    } else if name == spec_lang_item_name(LangItem::Not) {
        Some(LangItem::Not)
    } else if name == spec_lang_item_name(LangItem::Eq) {
        Some(LangItem::Eq)
    } else if name == spec_lang_item_name(LangItem::Neq) {
        Some(LangItem::Neq)
    } else if name == spec_lang_item_name(LangItem::Lt) {
        Some(LangItem::Lt)
    } else if name == spec_lang_item_name(LangItem::Gt) {
        Some(LangItem::Gt)
    } else if name == spec_lang_item_name(LangItem::Le) {
        Some(LangItem::Le)
    } else if name == spec_lang_item_name(LangItem::Ge) {
        Some(LangItem::Ge)
    } else {
        None
    }
}

/// Every lang item is found again under its own name.
pub proof fn lemma_lang_item_name_roundtrip(item: LangItem)
    ensures
        spec_lang_item_from_name(spec_lang_item_name(item)) == Some(item),
{
    let n = spec_lang_item_name(item);
    match item {
        LangItem::Add => {},
        LangItem::Sub => { assert(n[0] != 'a'); },
        LangItem::Mul => { assert(n[0] != 'a' && n[0] != 's'); },
        LangItem::Div => { assert(n[0] == 'd'); },
        LangItem::Rem => { assert(n[0] == 'r'); },
        LangItem::Neg => { assert(n[0] == 'n' && n[1] == 'e' && n.len() == 3); assert(n[2] == 'g'); },
        LangItem::Not => { assert(n[1] == 'o'); },
        LangItem::Eq => { assert(n[0] == 'e'); },
        LangItem::Neq => { assert(n[1] == 'e' && n[2] == 'q'); },
        LangItem::Lt => { assert(n[0] == 'l' && n[1] == 't'); },
        LangItem::Gt => { assert(n[0] == 'g' && n[1] == 't'); },
        LangItem::Le => { assert(n[0] == 'l' && n[1] == 'e'); },
        LangItem::Ge => { assert(n[0] == 'g' && n[1] == 'e'); },
    }
}

impl LangItem {
    /// The lang item named `name`, if any.
    pub fn from_name(name: &str) -> (res: Option<LangItem>)
        ensures
            res == spec_lang_item_from_name(name@),
    {
        proof {
            reveal_strlit("add");
            reveal_strlit("sub");
            reveal_strlit("mul");
            reveal_strlit("div");
            reveal_strlit("rem");
            reveal_strlit("neg");
            reveal_strlit("not");
            reveal_strlit("eq");
            reveal_strlit("neq");
            reveal_strlit("lt");
            reveal_strlit("gt");
            reveal_strlit("le");
            reveal_strlit("ge");
            assert("add"@ =~= spec_lang_item_name(LangItem::Add));
            assert("sub"@ =~= spec_lang_item_name(LangItem::Sub));
            assert("mul"@ =~= spec_lang_item_name(LangItem::Mul));
            assert("div"@ =~= spec_lang_item_name(LangItem::Div));
            assert("rem"@ =~= spec_lang_item_name(LangItem::Rem));
            assert("neg"@ =~= spec_lang_item_name(LangItem::Neg));
            assert("not"@ =~= spec_lang_item_name(LangItem::Not));
            assert("eq"@ =~= spec_lang_item_name(LangItem::Eq));
            assert("neq"@ =~= spec_lang_item_name(LangItem::Neq));
            assert("lt"@ =~= spec_lang_item_name(LangItem::Lt));
            assert("gt"@ =~= spec_lang_item_name(LangItem::Gt));
            assert("le"@ =~= spec_lang_item_name(LangItem::Le));
            assert("ge"@ =~= spec_lang_item_name(LangItem::Ge));
        }
        if str_eq(name, "add") {
            Some(LangItem::Add)
        } else if str_eq(name, "sub") {
            Some(LangItem::Sub)
        } else if str_eq(name, "mul") {
            Some(LangItem::Mul)
        } else if str_eq(name, "div") {
            Some(LangItem::Div)
        } else if str_eq(name, "rem") {
            Some(LangItem::Rem)
        } else if str_eq(name, "neg") {
            Some(LangItem::Neg)
        } else if str_eq(name, "not") {
            Some(LangItem::Not)
        } else if str_eq(name, "eq") {
            Some(LangItem::Eq)
        } else if str_eq(name, "neq") {
            Some(LangItem::Neq)
        } else if str_eq(name, "lt") {
            Some(LangItem::Lt)
        } else if str_eq(name, "gt") {
            Some(LangItem::Gt)
        } else if str_eq(name, "le") {
            Some(LangItem::Le)
        } else if str_eq(name, "ge") {
            Some(LangItem::Ge)
        } else {
            None
        }
    }
}


/// A modifier written before a function declaration.
#[derive(Debug, Clone, Copy)]
pub enum FnModifier {
    /// `@intrinsic`: the body is provided by the runtime.
    Intrinsic,
    /// `@lang_item(name)`: the function also implements an operator.
    LangItem(LangItem),
}

/// The name under which functions are registered.
#[derive(Debug)]
pub enum FnLookupKey {
    LangItem(LangItem),
    /// A function declared in source, by interned symbol.
    Name(u32),
    /// A function provided by the host, by name.
    External(String),
    /// An anonymous closure, by serial number.
    Anon(u32),
}

pub enum FnKeyModel {
    LangItem(LangItem),
    Name(u32),
    External(Seq<char>),
    Anon(u32),
}

impl View for FnLookupKey {
    type V = FnKeyModel;

    open spec fn view(&self) -> FnKeyModel {
        match self {
            FnLookupKey::LangItem(i) => FnKeyModel::LangItem(*i),
            FnLookupKey::Name(n) => FnKeyModel::Name(*n),
            FnLookupKey::External(s) => FnKeyModel::External(s@),
            FnLookupKey::Anon(a) => FnKeyModel::Anon(*a),
        }
    }
}

impl Clone for FnLookupKey {
    fn clone(&self) -> (res: Self)
        ensures
            res@ == self@,
    {
        match self {
            FnLookupKey::LangItem(i) => FnLookupKey::LangItem(*i),
            FnLookupKey::Name(n) => FnLookupKey::Name(*n),
            FnLookupKey::External(s) => FnLookupKey::External(s.clone()),
            FnLookupKey::Anon(a) => FnLookupKey::Anon(*a),
        }
    }
}

impl LangItem {
    /// The variant's name, as messages show it.
    pub open spec fn spec_label(self) -> Seq<char> {
        match self {
            LangItem::Add => "Add"@,
            LangItem::Sub => "Sub"@,
            LangItem::Mul => "Mul"@,
            LangItem::Div => "Div"@,
            LangItem::Rem => "Rem"@,
            LangItem::Neg => "Neg"@,
            LangItem::Not => "Not"@,
            LangItem::Eq => "Eq"@,
            LangItem::Neq => "Neq"@,
            LangItem::Lt => "Lt"@,
            LangItem::Gt => "Gt"@,
            LangItem::Le => "Le"@,
            LangItem::Ge => "Ge"@,
        }
    }

    /// The variant's name, as messages show it.
    pub fn describe(&self) -> (res: &'static str)
        ensures
            res@ == self.spec_label(),
    {
        match self {
            LangItem::Add => "Add",
            LangItem::Sub => "Sub",
            LangItem::Mul => "Mul",
            LangItem::Div => "Div",
            LangItem::Rem => "Rem",
            LangItem::Neg => "Neg",
            LangItem::Not => "Not",
            LangItem::Eq => "Eq",
            LangItem::Neq => "Neq",
            LangItem::Lt => "Lt",
            LangItem::Gt => "Gt",
            LangItem::Le => "Le",
            LangItem::Ge => "Ge",
        }
    }
}

/// How a key is shown in messages.
pub open spec fn spec_key_text(key: FnKeyModel) -> Seq<char> {
    match key {
        FnKeyModel::LangItem(item) => "lang-item("@ + item.spec_label() + ")"@,
        FnKeyModel::Name(sym) => "<fn#Spur("@ + spec_decimal(sym as nat + 1) + ")>"@,
        FnKeyModel::External(name) => name,
        FnKeyModel::Anon(id) => "<closure#"@ + spec_decimal(id as nat) + ">"@,
    }
}

impl FnLookupKey {
    /// How the key is shown in messages: `lang-item(Add)`, `<fn#Spur(8)>` for
    /// a declared name by its interner key (symbol 7), the host's name, or
    /// `<closure#3>`.
    pub fn describe(&self) -> (res: String)
        ensures
            res@ == spec_key_text(self@),
    {
        match self {
            FnLookupKey::LangItem(item) => {
                let a = join("lang-item(", item.describe());
                join(a.as_str(), ")")
            },
            FnLookupKey::Name(sym) => {
                // The key is the symbol plus one, which for the last symbol
                // does not fit a 32-bit `usize`: its last digit is added apart.
                let d = if *sym < u32::MAX {
                    decimal(*sym as usize + 1)
                } else {
                    proof {
                        reveal_strlit("6");
                        assert(spec_decimal(0x1_0000_0000nat) =~= spec_decimal(0x1999_9999nat) + "6"@);
                    }
                    join(decimal(0x1999_9999).as_str(), "6")
                };
                let a = join("<fn#Spur(", d.as_str());
                join(a.as_str(), ")>")
            },
            FnLookupKey::External(name) => name.clone(),
            FnLookupKey::Anon(id) => {
                let d = decimal(*id as usize);
                let a = join("<closure#", d.as_str());
                join(a.as_str(), ">")
            },
        }
    }

    /// Whether two keys name the same function.
    pub fn same(&self, other: &FnLookupKey) -> (res: bool)
        ensures
            res == (self@ == other@),
    {
        match self {
            FnLookupKey::LangItem(a) => match other {
                FnLookupKey::LangItem(b) => *a == *b,
                _ => false,
            },
            FnLookupKey::Name(a) => match other {
                FnLookupKey::Name(b) => *a == *b,
                _ => false,
            },
            FnLookupKey::External(a) => match other {
                FnLookupKey::External(b) => str_eq(a.as_str(), b.as_str()),
                _ => false,
            },
            FnLookupKey::Anon(a) => match other {
                FnLookupKey::Anon(b) => *a == *b,
                _ => false,
            },
        }
    }
}

/// The parameter types of one overload.
#[derive(Debug)]
pub struct FnTypeSig {
    pub param_types: Vec<TypeId>,
}

impl FnTypeSig {
    pub open spec fn params(&self) -> Seq<TypeId> {
        self.param_types@
    }

    /// Whether two signatures list the same parameter types.
    pub fn same(&self, other: &FnTypeSig) -> (res: bool)
        ensures
            res == (self.params() == other.params()),
    {
        if self.param_types.len() != other.param_types.len() {
            return false;
        }
        let mut i: usize = 0;
        while i < self.param_types.len()
            invariant
                0 <= i <= self.param_types.len(),
                self.param_types.len() == other.param_types.len(),
                forall|j: int| 0 <= j < i ==> self.param_types@[j] == other.param_types@[j],
            decreases self.param_types.len() - i,
        {
            if self.param_types[i] != other.param_types[i] {
                return false;
            }
            i = i + 1;
        }
        assert(self.params() =~= other.params());
        true
    }
}

/// A function the runtime provides.
#[derive(Debug, Clone, Copy, PartialEq, Eq, Structural)]
pub enum Intrinsic {
    Add,
    Sub,
    Mul,
    Div,
    Rem,
    Neg,
    Not,
    Eq,
    Neq,
    Lt,
    Le,
    Gt,
    Ge,
    Print,
    /// A function the embedding host defines, by its own number.
    Host(u32),
}

/// What a registered function runs: a runtime intrinsic or a compiled chunk.
#[derive(Debug, Clone, Copy, PartialEq, Eq, Structural)]
pub enum FnEntry {
    Intrinsic(Intrinsic),
    ChunkIdx(usize),
}

/// The overloads registered under one key, in declaration order.
#[derive(Debug)]
pub struct FnOverloads {
    pub key: FnLookupKey,
    pub overloads: Vec<(FnTypeSig, usize)>,
}

/// All registered functions: each has an id (its index in `entries`) and a key;
/// a key may have several overloads, told apart by parameter types.
#[derive(Debug)]
pub struct FunctionRegistry {
    keys: Vec<FnOverloads>,
    backward: Vec<FnLookupKey>,
    entries: Vec<FnEntry>,
}

/// The cost of calling a function with parameter types `params` on arguments
/// of types `args`: `None` when they do not match, otherwise the number of
/// untyped parameters that receive an argument of another type.
pub open spec fn spec_sig_cost(params: Seq<TypeId>, args: Seq<TypeId>) -> Option<nat>
    decreases params.len(),
{
    if params.len() != args.len() {
        None
    } else if params.len() == 0 {
        Some(0)
    } else {
        let p = params.last();
        let a = args.last();
        match spec_sig_cost(params.drop_last(), args.drop_last()) {
            None => None,
            Some(c) => if p == a {
                Some(c)
            } else if p == TypeId::Any {
                Some(c + 1)
            } else {
                None
            },
        }
    }
}

/// Overload `i` of `ovs` is the one least-cost matching chooses: it matches,
/// no overload costs less, and every earlier overload costs more.
pub open spec fn spec_is_best(ovs: Seq<(Seq<TypeId>, usize)>, args: Seq<TypeId>, i: int) -> bool {
    &&& 0 <= i < ovs.len()
    &&& spec_sig_cost(ovs[i].0, args) is Some
    &&& forall|j: int|
        0 <= j < ovs.len() && #[trigger] spec_sig_cost(ovs[j].0, args) is Some ==> spec_sig_cost(
            ovs[i].0,
            args,
        )->0 <= spec_sig_cost(ovs[j].0, args)->0
    &&& forall|j: int|
        0 <= j < i && #[trigger] spec_sig_cost(ovs[j].0, args) is Some ==> spec_sig_cost(
            ovs[i].0,
            args,
        )->0 < spec_sig_cost(ovs[j].0, args)->0
}

/// Overload resolution is deterministic: at most one overload is the one
/// least-cost matching chooses.
pub proof fn lemma_best_unique(ovs: Seq<(Seq<TypeId>, usize)>, args: Seq<TypeId>, i: int, j: int)
    requires
        spec_is_best(ovs, args, i),
        spec_is_best(ovs, args, j),
    ensures
        i == j,
{
    if i < j {
        assert(spec_sig_cost(ovs[i].0, args) is Some);
        assert(spec_sig_cost(ovs[j].0, args) is Some);
    } else if j < i {
        assert(spec_sig_cost(ovs[i].0, args) is Some);
        assert(spec_sig_cost(ovs[j].0, args) is Some);
    }
}

/// Parameter types equal to the argument types match at no cost.
pub proof fn lemma_exact_match_costs_nothing(ts: Seq<TypeId>)
    ensures
        spec_sig_cost(ts, ts) == Some(0nat),
    decreases ts.len(),
{
    if ts.len() > 0 {
        lemma_exact_match_costs_nothing(ts.drop_last());
    }
}

/// Parameters that match arguments free of `Any` at no cost are exactly the
/// argument types.
pub proof fn lemma_free_match_is_exact(params: Seq<TypeId>, args: Seq<TypeId>)
    requires
        spec_sig_cost(params, args) == Some(0nat),
        !args.contains(TypeId::Any),
    ensures
        params == args,
    decreases params.len(),
{
    if params.len() > 0 {
        assert(!args.drop_last().contains(TypeId::Any)) by {
            if args.drop_last().contains(TypeId::Any) {
                let k = choose|k: int| 0 <= k < args.drop_last().len() && args.drop_last()[k] == TypeId::Any;
                assert(args[k] == TypeId::Any);
            }
        }
        assert(args.last() != TypeId::Any) by {
            assert(args[args.len() - 1] == args.last());
        }
        lemma_free_match_is_exact(params.drop_last(), args.drop_last());
        assert(params =~= params.drop_last().push(params.last()));
        assert(args =~= args.drop_last().push(args.last()));
    } else {
        assert(params =~= args);
    }
}

/// The types of argument values never include `Any`.
pub proof fn lemma_arg_types_free(args: Seq<ValueModel>, objects: Map<usize, StructModel>)
    ensures
        spec_arg_types(args, objects) matches Some(ts) ==> !ts.contains(TypeId::Any),
    decreases args.len(),
{
    if args.len() > 0 {
        lemma_arg_types_free(args.drop_last(), objects);
        if let Some(ts) = spec_arg_types(args, objects) {
            let prev = spec_arg_types(args.drop_last(), objects)->0;
            assert(ts == prev.push(spec_type_of(args.last(), objects)->0));
            if ts.contains(TypeId::Any) {
                let k = choose|k: int| 0 <= k < ts.len() && ts[k] == TypeId::Any;
                if k < prev.len() {
                    assert(prev[k] == TypeId::Any);
                }
            }
        }
    }
}

/// Overload resolution prefers an exact match: when some overload's
/// parameter types are exactly the argument types (which never include
/// `Any`), the overload least-cost matching chooses has exactly those
/// parameter types, so no overload with an untyped parameter wins.
pub proof fn lemma_exact_overload_wins(ovs: Seq<(Seq<TypeId>, usize)>, args: Seq<TypeId>, best: int, exact: int)
    requires
        spec_is_best(ovs, args, best),
        0 <= exact < ovs.len(),
        ovs[exact].0 == args,
        !args.contains(TypeId::Any),
    ensures
        ovs[best].0 == args,
{
    lemma_exact_match_costs_nothing(args);
    assert(spec_sig_cost(ovs[exact].0, args) is Some);
    lemma_free_match_is_exact(ovs[best].0, args);
}

/// The type of a value; a struct reference that leads to no instance has none.
pub open spec fn spec_type_of(v: ValueModel, objects: Map<usize, StructModel>) -> Option<TypeId> {
    match v {
        ValueModel::Nil => Some(TypeId::Nil),
        ValueModel::Bool(_) => Some(TypeId::Bool),
        ValueModel::Number(_) => Some(TypeId::Number),
        ValueModel::Str(_) => Some(TypeId::String),
        ValueModel::Fn(_) => Some(TypeId::Fn),
        ValueModel::Closure(_, _) => Some(TypeId::Fn),
        ValueModel::FnProto(_, _) => Some(TypeId::Fn),
        ValueModel::Struct(k) => if objects.contains_key(k as usize) {
            Some(TypeId::Struct(objects[k as usize].def_id))
        } else {
            None
        },
    }
}

/// The type of a value.
pub fn type_of(v: &Value, heap: &Heap) -> (res: Option<TypeId>)
    ensures
        res == spec_type_of(v@, heap.objects()),
{
    match v {
        Value::Nil => Some(TypeId::Nil),
        Value::Bool(_) => Some(TypeId::Bool),
        Value::Number(_) => Some(TypeId::Number),
        Value::String(_) => Some(TypeId::String),
        Value::Fn(_) => Some(TypeId::Fn),
        Value::Closure { .. } => Some(TypeId::Fn),
        Value::FnProto { .. } => Some(TypeId::Fn),
        Value::Struct(k) => match heap.struct_ref(*k) {
            Some(obj) => Some(TypeId::Struct(obj.def_id)),
            None => None,
        },
    }
}

impl FunctionRegistry {
    /// The entry of each function id.
    pub closed spec fn entries(&self) -> Seq<FnEntry> {
        self.entries@
    }

    /// The key of each function id.
    pub closed spec fn key_of(&self) -> Seq<FnKeyModel> {
        self.backward@.map_values(|k: FnLookupKey| k@)
    }

    /// The keys that have overloads, in the order they were first registered.
    pub closed spec fn keys(&self) -> Seq<FnKeyModel> {
        self.keys@.map_values(|o: FnOverloads| o.key@)
    }

    /// The overloads of the `k`-th key: (parameter types, function id) pairs.
    pub closed spec fn overloads_at(&self, k: int) -> Seq<(Seq<TypeId>, usize)> {
        self.keys@[k].overloads@.map_values(|p: (FnTypeSig, usize)| (p.0.params(), p.1))
    }

    /// The overloads registered under `key`, in declaration order (none when
    /// the key is unknown).
    pub open spec fn overloads(&self, key: FnKeyModel) -> Seq<(Seq<TypeId>, usize)> {
        if exists|k: int| 0 <= k < self.keys().len() && self.keys()[k] == key {
            self.overloads_at(choose|k: int| 0 <= k < self.keys().len() && self.keys()[k] == key)
        } else {
            Seq::empty()
        }
    }

    /// Every overload names a registered function.
    pub proof fn lemma_overload_ids(&self, key: FnKeyModel, i: int)
        requires
            self.wf(),
            0 <= i < self.overloads(key).len(),
        ensures
            self.overloads(key)[i].1 < self.entries().len(),
    {
        let k = choose|k: int| 0 <= k < self.keys().len() && self.keys()[k] == key;
        assert(self.overloads_at(k)[i].1 < self.entries@.len());
    }

    pub closed spec fn wf(&self) -> bool {
        &&& self.backward@.len() == self.entries@.len()
        &&& forall|a: int, b: int| 0 <= a < b < self.keys().len() ==> self.keys()[a] != self.keys()[b]
        &&& forall|k: int, i: int|
            #![trigger self.overloads_at(k)[i]]
            0 <= k < self.keys().len() && 0 <= i < self.overloads_at(k).len() ==> {
                &&& self.overloads_at(k)[i].1 < self.entries@.len()
                &&& self.key_of()[self.overloads_at(k)[i].1 as int] == self.keys()[k]
            }
        &&& forall|k: int, i: int, j: int|
            #![trigger self.overloads_at(k)[i], self.overloads_at(k)[j]]
            0 <= k < self.keys().len() && 0 <= i < j < self.overloads_at(k).len()
                ==> self.overloads_at(k)[i].0 != self.overloads_at(k)[j].0
    }
}


/// Registering `(sig, id)` into an overload list: an overload with the same
/// parameter types is replaced in place, otherwise the new one goes last.
pub open spec fn spec_overload_insert(
    ovs: Seq<(Seq<TypeId>, usize)>,
    sig: Seq<TypeId>,
    id: usize,
) -> Seq<(Seq<TypeId>, usize)> {
    if exists|i: int| 0 <= i < ovs.len() && ovs[i].0 == sig {
        ovs.update(choose|i: int| 0 <= i < ovs.len() && ovs[i].0 == sig, (sig, id))
    } else {
        ovs.push((sig, id))
    }
}

/// Registering a signature again replaces the id it had: with distinct
/// signatures before, the signature then appears once, with the later id,
/// and the overloads are no more than after the first registration.
pub proof fn lemma_register_again_replaces(ovs: Seq<(Seq<TypeId>, usize)>, sig: Seq<TypeId>, first: usize, second: usize)
    requires
        forall|i: int, j: int| 0 <= i < j < ovs.len() ==> #[trigger] ovs[i].0 != #[trigger] ovs[j].0,
    ensures
        ({
            let once = spec_overload_insert(ovs, sig, first);
            let twice = spec_overload_insert(once, sig, second);
            &&& twice.len() == once.len()
            &&& forall|i: int| 0 <= i < twice.len() && #[trigger] twice[i].0 == sig ==> twice[i].1 == second
            &&& exists|i: int| 0 <= i < twice.len() && #[trigger] twice[i] == (sig, second)
        }),
{
    let once = spec_overload_insert(ovs, sig, first);
    let at: int = if exists|i: int| 0 <= i < ovs.len() && ovs[i].0 == sig {
        choose|i: int| 0 <= i < ovs.len() && ovs[i].0 == sig
    } else {
        ovs.len() as int
    };
    assert(once[at] == (sig, first));
    assert forall|i: int| 0 <= i < once.len() && once[i].0 == sig implies i == at by {
        if i != at {
            assert(once[i] == ovs[i]);
            if i < at {
                assert(ovs[i].0 != ovs[at].0);
            } else {
                assert(ovs[at].0 != ovs[i].0);
            }
        }
    }
    assert(exists|i: int| 0 <= i < once.len() && once[i].0 == sig);
    let twice = spec_overload_insert(once, sig, second);
    let c = choose|i: int| 0 <= i < once.len() && once[i].0 == sig;
    assert(c == at);
    assert(twice == once.update(at, (sig, second)));
    assert(twice[at] == (sig, second));
}

/// The types of a list of argument values; `None` when one has no type.
pub open spec fn spec_arg_types(args: Seq<ValueModel>, objects: Map<usize, StructModel>) -> Option<Seq<TypeId>>
    decreases args.len(),
{
    if args.len() == 0 {
        Some(Seq::empty())
    } else {
        match (spec_arg_types(args.drop_last(), objects), spec_type_of(args.last(), objects)) {
            (Some(ts), Some(t)) => Some(ts.push(t)),
            _ => None,
        }
    }
}

impl FunctionRegistry {
    pub fn new() -> (res: FunctionRegistry)
        ensures
            res.wf(),
            res.entries().len() == 0,
            res.keys().len() == 0,
            res.key_of().len() == 0,
    {
        let res = FunctionRegistry { keys: Vec::new(), backward: Vec::new(), entries: Vec::new() };
        assert(res.keys() =~= Seq::<FnKeyModel>::empty());
        res
    }

    proof fn lemma_overloads_at(&self, k: int)
        requires
            self.wf(),
            0 <= k < self.keys().len(),
        ensures
            self.overloads(self.keys()[k]) == self.overloads_at(k),
    {
        let key = self.keys()[k];
        let c = choose|c: int| 0 <= c < self.keys().len() && self.keys()[c] == key;
        if c != k {
            if c < k {
                assert(self.keys()[c] != self.keys()[k]);
            } else {
                assert(self.keys()[k] != self.keys()[c]);
            }
        }
    }

    proof fn lemma_overloads_absent(&self, key: FnKeyModel)
        requires
            forall|k: int| 0 <= k < self.keys().len() ==> self.keys()[k] != key,
        ensures
            self.overloads(key) == Seq::<(Seq<TypeId>, usize)>::empty(),
    {
    }

    /// The index of `key` among the keys, if it has overloads.
    fn find_key(&self, key: &FnLookupKey) -> (res: Option<usize>)
        ensures
            res matches Some(k) ==> k < self.keys().len() && self.keys()[k as int] == key@,
            res is None ==> forall|k: int| 0 <= k < self.keys().len() ==> self.keys()[k] != key@,
    {
        let mut k: usize = 0;
        while k < self.keys.len()
            invariant
                0 <= k <= self.keys.len(),
                self.keys().len() == self.keys@.len(),
                forall|j: int| 0 <= j < k ==> self.keys()[j] != key@,
            decreases self.keys.len() - k,
        {
            assert(self.keys()[k as int] == self.keys@[k as int].key@);
            if self.keys[k].key.same(key) {
                return Some(k);
            }
            k = k + 1;
        }
        None
    }

    /// Registers `entry` under `name` with parameter types `signature`, and
    /// returns its new id. An overload of `name` with the same parameter
    /// types is replaced by the new one.
    pub fn register(&mut self, name: FnLookupKey, entry: FnEntry, signature: FnTypeSig) -> (id: usize)
        requires
            old(self).wf(),
        ensures
            final(self).wf(),
            id == old(self).entries().len(),
            final(self).entries() == old(self).entries().push(entry),
            final(self).key_of().len() == final(self).entries().len(),
            final(self).key_of()[id as int] == name@,
            final(self).key_of() == old(self).key_of().push(name@),
            final(self).overloads(name@) == spec_overload_insert(
                old(self).overloads(name@),
                signature.params(),
                id,
            ),
            forall|other: FnKeyModel|
                other != name@ ==> #[trigger] final(self).overloads(other) == old(self).overloads(
                    other,
                ),
    {
        let ghost old_keys = old(self).keys();
        let ghost old_ovs = old(self).overloads(name@);
        self.entries.push(entry);
        let id = self.entries.len() - 1;
        let name_copy = name.clone();
        self.backward.push(name_copy);
        assert(self.key_of() =~= old(self).key_of().push(name@));
        assert(self.keys() == old_keys);
        assert forall|k: int, i: int|
            0 <= k < self.keys().len() && 0 <= i < self.overloads_at(k).len() implies {
                &&& self.overloads_at(k)[i].1 < self.entries@.len()
                &&& self.key_of()[self.overloads_at(k)[i].1 as int] == self.keys()[k]
            } by {
            assert(self.overloads_at(k) == old(self).overloads_at(k));
            assert(old(self).overloads_at(k)[i].1 < old(self).entries@.len());
        }
        let ghost sig = signature.params();
        match self.find_key(&name) {
            Some(k) => {
                proof {
                    old(self).lemma_overloads_at(k as int);
                    assert(old(self).overloads_at(k as int) == self.overloads_at(k as int));
                }
                let ghost before = *self;
                let mut o = self.keys.remove(k);
                let ghost ovs0 = o.overloads@.map_values(|p: (FnTypeSig, usize)| (p.0.params(), p.1));
                assert(ovs0 == before.overloads_at(k as int));
                let mut i: usize = 0;
                let mut found: bool = false;
                while i < o.overloads.len()
                    invariant_except_break
                        0 <= i <= o.overloads.len(),
                        ovs0 == o.overloads@.map_values(|p: (FnTypeSig, usize)| (p.0.params(), p.1)),
                        sig == signature.params(),
                        forall|j: int| 0 <= j < i ==> ovs0[j].0 != sig,
                        !found,
                    ensures
                        0 <= i <= o.overloads.len(),
                        ovs0 == o.overloads@.map_values(|p: (FnTypeSig, usize)| (p.0.params(), p.1)),
                        found ==> i < o.overloads.len() && ovs0[i as int].0 == sig,
                        !found ==> forall|j: int| 0 <= j < ovs0.len() ==> ovs0[j].0 != sig,
                    decreases o.overloads.len() - i,
                {
                    assert(ovs0[i as int].0 == o.overloads@[i as int].0.params());
                    if o.overloads[i].0.same(&signature) {
                        found = true;
                        break;
                    }
                    i = i + 1;
                }
                if found {
                    proof {
                        let c = choose|c: int| 0 <= c < ovs0.len() && ovs0[c].0 == sig;
                        if c != i {
                            if c < i {
                                assert(ovs0[c].0 != ovs0[i as int].0);
                            } else {
                                assert(ovs0[i as int].0 != ovs0[c].0);
                            }
                        }
                    }
                    o.overloads.set(i, (signature, id));
                } else {
                    o.overloads.push((signature, id));
                }
                let ghost ovs1 = o.overloads@.map_values(|p: (FnTypeSig, usize)| (p.0.params(), p.1));
                assert(ovs1 =~= spec_overload_insert(ovs0, sig, id));
                self.keys.insert(k, o);
                proof {
                    assert(self.keys() =~= old_keys);
                    assert forall|kk: int| 0 <= kk < self.keys().len() && kk != k implies
                        self.overloads_at(kk) == before.overloads_at(kk) by {
                        assert(self.keys@[kk] == before.keys@[kk]);
                    }
                    assert(self.overloads_at(k as int) == ovs1);
                    assert forall|kk: int, ii: int|
                        0 <= kk < self.keys().len() && 0 <= ii < self.overloads_at(kk).len() implies {
                            &&& self.overloads_at(kk)[ii].1 < self.entries@.len()
                            &&& self.key_of()[self.overloads_at(kk)[ii].1 as int] == self.keys()[kk]
                        } by {
                        if kk != k {
                            assert(before.overloads_at(kk)[ii].1 < before.entries@.len());
                        } else if found && ii == i {
                        } else if !found && ii == ovs0.len() {
                        } else {
                            assert(self.overloads_at(kk)[ii] == before.overloads_at(kk)[ii]);
                        }
                    }
                    assert forall|kk: int, a: int, b: int|
                        0 <= kk < self.keys().len() && 0 <= a < b < self.overloads_at(kk).len()
                        implies self.overloads_at(kk)[a].0 != self.overloads_at(kk)[b].0 by {
                        if kk != k {
                            assert(before.overloads_at(kk) == old(self).overloads_at(kk));
                            assert(old(self).overloads_at(kk)[a].0 != old(self).overloads_at(kk)[b].0);
                        } else if found {
                            if a != i && b != i {
                                assert(ovs0[a].0 != ovs0[b].0);
                            } else if a == i {
                                assert(ovs0[a].0 != ovs0[b].0);
                            } else {
                                assert(ovs0[a].0 != ovs0[b].0);
                            }
                        } else if b < ovs0.len() {
                            assert(ovs0[a].0 != ovs0[b].0);
                        }
                    }
                    assert(self.wf());
                    self.lemma_overloads_at(k as int);
                    assert forall|other: FnKeyModel| other != name@ implies #[trigger] self.overloads(
                        other,
                    ) == old(self).overloads(other) by {
                        if exists|kk: int| 0 <= kk < self.keys().len() && self.keys()[kk] == other {
                            let kk = choose|kk: int| 0 <= kk < self.keys().len() && self.keys()[kk] == other;
                            self.lemma_overloads_at(kk);
                            old(self).lemma_overloads_at(kk);
                            assert(old(self).overloads_at(kk) == before.overloads_at(kk));
                        }
                    }
                }
            },
            None => {
                proof {
                    old(self).lemma_overloads_absent(name@);
                }
                let ghost before = *self;
                let mut ovs: Vec<(FnTypeSig, usize)> = Vec::new();
                ovs.push((signature, id));
                self.keys.push(FnOverloads { key: name, overloads: ovs });
                proof {
                    let n = before.keys@.len() as int;
                    assert(self.keys() =~= old_keys.push(name@));
                    assert forall|kk: int| 0 <= kk < n implies self.overloads_at(kk) == before.overloads_at(kk) by {
                        assert(self.keys@[kk] == before.keys@[kk]);
                    }
                    assert(self.overloads_at(n) =~= seq![(sig, id)]);
                    assert forall|a: int, b: int| 0 <= a < b < self.keys().len() implies self.keys()[a]
                        != self.keys()[b] by {
                        if b == n {
                            assert(old_keys[a] != name@);
                        }
                    }
                    assert forall|kk: int, ii: int|
                        0 <= kk < self.keys().len() && 0 <= ii < self.overloads_at(kk).len() implies {
                            &&& self.overloads_at(kk)[ii].1 < self.entries@.len()
                            &&& self.key_of()[self.overloads_at(kk)[ii].1 as int] == self.keys()[kk]
                        } by {
                        if kk < n {
                            assert(before.overloads_at(kk) == old(self).overloads_at(kk));
                            assert(old(self).overloads_at(kk)[ii].1 < old(self).entries@.len());
                        }
                    }
                    assert forall|kk: int, a: int, b: int|
                        0 <= kk < self.keys().len() && 0 <= a < b < self.overloads_at(kk).len()
                        implies self.overloads_at(kk)[a].0 != self.overloads_at(kk)[b].0 by {
                        if kk < n {
                            assert(before.overloads_at(kk) == old(self).overloads_at(kk));
                            assert(old(self).overloads_at(kk)[a].0 != old(self).overloads_at(kk)[b].0);
                        }
                    }
                    assert(self.wf());
                    self.lemma_overloads_at(n);
                    assert(spec_overload_insert(old_ovs, sig, id) =~= seq![(sig, id)]);
                    assert forall|other: FnKeyModel| other != name@ implies #[trigger] self.overloads(
                        other,
                    ) == old(self).overloads(other) by {
                        if exists|kk: int| 0 <= kk < self.keys().len() && self.keys()[kk] == other {
                            let kk = choose|kk: int| 0 <= kk < self.keys().len() && self.keys()[kk] == other;
                            self.lemma_overloads_at(kk);
                            assert(kk < n);
                            old(self).lemma_overloads_at(kk);
                            assert(before.overloads_at(kk) == old(self).overloads_at(kk));
                        } else {
                            assert forall|kk: int| 0 <= kk < old_keys.len() implies old_keys[kk] != other by {
                                assert(self.keys()[kk] == old_keys[kk]);
                            }
                            old(self).lemma_overloads_absent(other);
                        }
                    }
                }
            },
        }
        id
    }
}


/// The cost of a signature on argument types, as `spec_sig_cost` gives it.
pub fn sig_cost(params: &Vec<TypeId>, args: &Vec<TypeId>) -> (res: Option<usize>)
    ensures
        res is None <==> spec_sig_cost(params@, args@) is None,
        res matches Some(c) ==> spec_sig_cost(params@, args@) == Some(c as nat),
{
    if params.len() != args.len() {
        return None;
    }
    let mut cost: usize = 0;
    let mut i: usize = 0;
    while i < params.len()
        invariant
            params.len() == args.len(),
            0 <= i <= params.len(),
            cost <= i,
            spec_sig_cost(params@.take(i as int), args@.take(i as int)) == Some(cost as nat),
        decreases params.len() - i,
    {
        assert(params@.take(i + 1).drop_last() =~= params@.take(i as int));
        assert(args@.take(i + 1).drop_last() =~= args@.take(i as int));
        let p = params[i];
        let a = args[i];
        if p == a {
        } else if p == TypeId::Any {
            cost = cost + 1;
        } else {
            proof {
                lemma_sig_cost_prefix_none(params@, args@, i as int + 1);
            }
            return None;
        }
        i = i + 1;
    }
    assert(params@.take(params.len() as int) =~= params@);
    assert(args@.take(args.len() as int) =~= args@);
    Some(cost)
}

/// A signature that fails to match on a prefix fails on the whole.
proof fn lemma_sig_cost_prefix_none(params: Seq<TypeId>, args: Seq<TypeId>, n: int)
    requires
        params.len() == args.len(),
        0 <= n <= params.len(),
        spec_sig_cost(params.take(n), args.take(n)) is None,
    ensures
        spec_sig_cost(params, args) is None,
    decreases params.len() - n,
{
    if n < params.len() {
        assert(params.take(n + 1).drop_last() =~= params.take(n));
        assert(args.take(n + 1).drop_last() =~= args.take(n));
        lemma_sig_cost_prefix_none(params, args, n + 1);
    } else {
        assert(params.take(n) =~= params);
        assert(args.take(n) =~= args);
    }
}

impl FunctionRegistry {
    /// The entry of function `id`, if it exists.
    pub fn get(&self, id: &usize) -> (res: Option<&FnEntry>)
        ensures
            res is Some <==> *id < self.entries().len(),
            res matches Some(e) ==> *e == self.entries()[*id as int],
    {
        if *id < self.entries.len() {
            Some(&self.entries[*id])
        } else {
            None
        }
    }

    /// Number of registered functions.
    pub fn len(&self) -> (res: usize)
        ensures
            res == self.entries().len(),
    {
        self.entries.len()
    }

    /// The key function `id` was registered under.
    pub fn resolve_id(&self, id: usize) -> (res: &FnLookupKey)
        requires
            self.wf(),
            id < self.entries().len(),
        ensures
            res@ == self.key_of()[id as int],
    {
        &self.backward[id]
    }

    /// Some function registered under `name`: the first of its overloads.
    pub fn get_static_id(&self, name: &FnLookupKey) -> (res: Option<usize>)
        requires
            self.wf(),
        ensures
            res is None <==> self.overloads(name@).len() == 0,
            res matches Some(id) ==> id == self.overloads(name@)[0].1 && id < self.entries().len(),
    {
        match self.find_key(name) {
            Some(k) => {
                proof {
                    self.lemma_overloads_at(k as int);
                }
                let o = &self.keys[k];
                if o.overloads.len() == 0 {
                    None
                } else {
                    assert(self.overloads_at(k as int)[0].1 == o.overloads@[0].1);
                    Some(o.overloads[0].1)
                }
            },
            None => {
                proof {
                    self.lemma_overloads_absent(name@);
                }
                None
            },
        }
    }

    /// Same as [`FunctionRegistry::get_static_id`].
    pub fn get_id(&self, name: &FnLookupKey) -> (res: Option<usize>)
        requires
            self.wf(),
        ensures
            res is None <==> self.overloads(name@).len() == 0,
            res matches Some(id) ==> id == self.overloads(name@)[0].1 && id < self.entries().len(),
    {
        self.get_static_id(name)
    }

    /// Runtime overload resolution by least-cost matching: an exact parameter
    /// type costs 0, an untyped parameter costs 1, any other mismatch rules the
    /// overload out; the cheapest overload wins, the earliest among equals.
    pub fn resolve_overload(&self, name: &FnLookupKey, args: &[Value], heap: &Heap) -> (res: Option<usize>)
        requires
            self.wf(),
        ensures
            match spec_arg_types(args@.map_values(|v: Value| v@), heap.objects()) {
                None => res is None,
                Some(ts) => {
                    &&& res is None <==> forall|i: int|
                        0 <= i < self.overloads(name@).len() ==> spec_sig_cost(
                            #[trigger] self.overloads(name@)[i].0,
                            ts,
                        ) is None
                    &&& res matches Some(id) ==> exists|i: int|
                        spec_is_best(self.overloads(name@), ts, i) && self.overloads(name@)[i].1 == id
                },
            },
    {
        let ghost vs = args@.map_values(|v: Value| v@);
        let mut arg_types: Vec<TypeId> = Vec::new();
        let mut i: usize = 0;
        while i < args.len()
            invariant
                0 <= i <= args.len(),
                vs == args@.map_values(|v: Value| v@),
                spec_arg_types(vs.take(i as int), heap.objects()) == Some(arg_types@),
            decreases args.len() - i,
        {
            assert(vs.take(i + 1).drop_last() =~= vs.take(i as int));
            assert(vs.take(i + 1).last() == args@[i as int]@);
            match type_of(&args[i], heap) {
                Some(t) => arg_types.push(t),
                None => {
                    proof {
                        lemma_arg_types_prefix_none(vs, heap.objects(), i as int + 1);
                    }
                    return None;
                },
            }
            i = i + 1;
        }
        assert(vs.take(args.len() as int) =~= vs);
        let ghost ts = arg_types@;
        let k = match self.find_key(name) {
            Some(k) => k,
            None => {
                proof {
                    self.lemma_overloads_absent(name@);
                }
                return None;
            },
        };
        proof {
            self.lemma_overloads_at(k as int);
        }
        let ovs = &self.keys[k].overloads;
        let ghost sov = self.overloads(name@);
        assert(sov == ovs@.map_values(|p: (FnTypeSig, usize)| (p.0.params(), p.1)));
        let mut best: Option<(usize, usize)> = None;
        let mut j: usize = 0;
        while j < ovs.len()
            invariant
                0 <= j <= ovs.len(),
                sov == ovs@.map_values(|p: (FnTypeSig, usize)| (p.0.params(), p.1)),
                ts == arg_types@,
                best is None ==> forall|m: int| 0 <= m < j ==> spec_sig_cost(#[trigger] sov[m].0, ts) is None,
                best matches Some((c, m)) ==> {
                    &&& m < j
                    &&& spec_sig_cost(sov[m as int].0, ts) == Some(c as nat)
                    &&& forall|q: int|
                        0 <= q < j && #[trigger] spec_sig_cost(sov[q].0, ts) is Some ==> c
                            <= spec_sig_cost(sov[q].0, ts)->0
                    &&& forall|q: int|
                        0 <= q < m && #[trigger] spec_sig_cost(sov[q].0, ts) is Some ==> c
                            < spec_sig_cost(sov[q].0, ts)->0
                },
            decreases ovs.len() - j,
        {
            assert(sov[j as int].0 == ovs@[j as int].0.params());
            match sig_cost(&ovs[j].0.param_types, &arg_types) {
                Some(c) => {
                    let better = match best {
                        None => true,
                        Some((bc, _)) => c < bc,
                    };
                    if better {
                        best = Some((c, j));
                    }
                },
                None => {},
            }
            j = j + 1;
        }
        match best {
            None => None,
            Some((_, m)) => {
                assert(sov[m as int].1 == ovs@[m as int].1);
                assert(spec_is_best(sov, ts, m as int));
                Some(ovs[m].1)
            },
        }
    }
}

/// An argument without a type on a prefix leaves the whole list without types.
proof fn lemma_arg_types_prefix_none(vs: Seq<ValueModel>, objects: Map<usize, StructModel>, n: int)
    requires
        0 <= n <= vs.len(),
        spec_arg_types(vs.take(n), objects) is None,
    ensures
        spec_arg_types(vs, objects) is None,
    decreases vs.len() - n,
{
    if n < vs.len() {
        assert(vs.take(n + 1).drop_last() =~= vs.take(n));
        lemma_arg_types_prefix_none(vs, objects, n + 1);
    } else {
        assert(vs.take(n) =~= vs);
    }
}


/// Number of functions the standard registry provides.
pub const STD_FN_COUNT: usize = 27;

/// The key of the `i`-th function of the standard registry: each operator's
/// lang item followed by the same function under its external name, then `print`.
pub open spec fn spec_std_key(i: int) -> FnKeyModel {
    if i == 0 {
        FnKeyModel::LangItem(LangItem::Add)
    } else if i == 1 {
        FnKeyModel::External("add"@)
    } else if i == 2 {
        FnKeyModel::LangItem(LangItem::Sub)
    } else if i == 3 {
        FnKeyModel::External("sub"@)
    } else if i == 4 {
        FnKeyModel::LangItem(LangItem::Mul)
    } else if i == 5 {
        FnKeyModel::External("mul"@)
    } else if i == 6 {
        FnKeyModel::LangItem(LangItem::Div)
    } else if i == 7 {
        FnKeyModel::External("div"@)
    } else if i == 8 {
        FnKeyModel::LangItem(LangItem::Rem)
    } else if i == 9 {
        FnKeyModel::External("rem"@)
    } else if i == 10 {
        FnKeyModel::LangItem(LangItem::Neg)
    } else if i == 11 {
        FnKeyModel::External("neg"@)
    } else if i == 12 {
        FnKeyModel::LangItem(LangItem::Not)
    } else if i == 13 {
        FnKeyModel::External("not"@)
    } else if i == 14 {
        FnKeyModel::LangItem(LangItem::Eq)
    } else if i == 15 {
        FnKeyModel::External("eq"@)
    } else if i == 16 {
        FnKeyModel::LangItem(LangItem::Neq)
    } else if i == 17 {
        FnKeyModel::External("neq"@)
    } else if i == 18 {
        FnKeyModel::LangItem(LangItem::Lt)
    } else if i == 19 {
        FnKeyModel::External("lt"@)
    } else if i == 20 {
        FnKeyModel::LangItem(LangItem::Le)
    } else if i == 21 {
        FnKeyModel::External("le"@)
    } else if i == 22 {
        FnKeyModel::LangItem(LangItem::Gt)
    } else if i == 23 {
        FnKeyModel::External("gt"@)
    } else if i == 24 {
        FnKeyModel::LangItem(LangItem::Ge)
    } else if i == 25 {
        FnKeyModel::External("ge"@)
    } else {
        FnKeyModel::External("print"@)
    }
}

/// The intrinsic the `i`-th function of the standard registry runs.
pub open spec fn spec_std_intrinsic(i: int) -> Intrinsic {
    if i == 0 {
        Intrinsic::Add
    } else if i == 1 {
        Intrinsic::Add
    } else if i == 2 {
        Intrinsic::Sub
    } else if i == 3 {
        Intrinsic::Sub
    } else if i == 4 {
        Intrinsic::Mul
    } else if i == 5 {
        Intrinsic::Mul
    } else if i == 6 {
        Intrinsic::Div
    } else if i == 7 {
        Intrinsic::Div
    } else if i == 8 {
        Intrinsic::Rem
    } else if i == 9 {
        Intrinsic::Rem
    } else if i == 10 {
        Intrinsic::Neg
    } else if i == 11 {
        Intrinsic::Neg
    } else if i == 12 {
        Intrinsic::Not
    } else if i == 13 {
        Intrinsic::Not
    } else if i == 14 {
        Intrinsic::Eq
    } else if i == 15 {
        Intrinsic::Eq
    } else if i == 16 {
        Intrinsic::Neq
    } else if i == 17 {
        Intrinsic::Neq
    } else if i == 18 {
        Intrinsic::Lt
    } else if i == 19 {
        Intrinsic::Lt
    } else if i == 20 {
        Intrinsic::Le
    } else if i == 21 {
        Intrinsic::Le
    } else if i == 22 {
        Intrinsic::Gt
    } else if i == 23 {
        Intrinsic::Gt
    } else if i == 24 {
        Intrinsic::Ge
    } else if i == 25 {
        Intrinsic::Ge
    } else {
        Intrinsic::Print
    }
}

/// The intrinsic that performs the operation of lang item `item`.
pub open spec fn spec_item_intrinsic(item: LangItem) -> Intrinsic {
    match item {
        LangItem::Add => Intrinsic::Add,
        LangItem::Sub => Intrinsic::Sub,
        LangItem::Mul => Intrinsic::Mul,
        LangItem::Div => Intrinsic::Div,
        LangItem::Rem => Intrinsic::Rem,
        LangItem::Neg => Intrinsic::Neg,
        LangItem::Not => Intrinsic::Not,
        LangItem::Eq => Intrinsic::Eq,
        LangItem::Neq => Intrinsic::Neq,
        LangItem::Lt => Intrinsic::Lt,
        LangItem::Gt => Intrinsic::Gt,
        LangItem::Le => Intrinsic::Le,
        LangItem::Ge => Intrinsic::Ge,
    }
}

/// The standard registry pairs each operator's lang item with the same
/// operator under its external name: both run the intrinsic of that
/// operation; the last function is `print`.
pub proof fn lemma_std_binds_operations(i: int)
    requires
        0 <= i < STD_FN_COUNT,
    ensures
        i < STD_FN_COUNT - 1 && i % 2 == 0 ==> {
            &&& spec_std_key(i) is LangItem
            &&& spec_std_intrinsic(i) == spec_item_intrinsic(spec_std_key(i)->LangItem_0)
            &&& spec_std_key(i + 1) == FnKeyModel::External(spec_lang_item_name(spec_std_key(i)->LangItem_0))
            &&& spec_std_intrinsic(i + 1) == spec_std_intrinsic(i)
        },
        spec_std_key(i) matches FnKeyModel::LangItem(item) ==> spec_std_intrinsic(i) == spec_item_intrinsic(item),
        i == STD_FN_COUNT - 1 ==> spec_std_key(i) == FnKeyModel::External("print"@) && spec_std_intrinsic(i) == Intrinsic::Print,
{
    reveal_strlit("add");
    reveal_strlit("sub");
    reveal_strlit("mul");
    reveal_strlit("div");
    reveal_strlit("rem");
    reveal_strlit("neg");
    reveal_strlit("not");
    reveal_strlit("eq");
    reveal_strlit("neq");
    reveal_strlit("lt");
    reveal_strlit("le");
    reveal_strlit("gt");
    reveal_strlit("ge");
    assert("add"@ =~= seq!['a', 'd', 'd']);
    assert("sub"@ =~= seq!['s', 'u', 'b']);
    assert("mul"@ =~= seq!['m', 'u', 'l']);
    assert("div"@ =~= seq!['d', 'i', 'v']);
    assert("rem"@ =~= seq!['r', 'e', 'm']);
    assert("neg"@ =~= seq!['n', 'e', 'g']);
    assert("not"@ =~= seq!['n', 'o', 't']);
    assert("eq"@ =~= seq!['e', 'q']);
    assert("neq"@ =~= seq!['n', 'e', 'q']);
    assert("lt"@ =~= seq!['l', 't']);
    assert("le"@ =~= seq!['l', 'e']);
    assert("gt"@ =~= seq!['g', 't']);
    assert("ge"@ =~= seq!['g', 'e']);
}

/// The parameter types of the `i`-th function of the standard registry.
pub open spec fn spec_std_sig(i: int) -> Seq<TypeId> {
    if i == 0 {
        seq![TypeId::Number, TypeId::Number]
    } else if i == 1 {
        seq![TypeId::Number, TypeId::Number]
    } else if i == 2 {
        seq![TypeId::Number, TypeId::Number]
    } else if i == 3 {
        seq![TypeId::Number, TypeId::Number]
    } else if i == 4 {
        seq![TypeId::Number, TypeId::Number]
    } else if i == 5 {
        seq![TypeId::Number, TypeId::Number]
    } else if i == 6 {
        seq![TypeId::Number, TypeId::Number]
    } else if i == 7 {
        seq![TypeId::Number, TypeId::Number]
    } else if i == 8 {
        seq![TypeId::Number, TypeId::Number]
    } else if i == 9 {
        seq![TypeId::Number, TypeId::Number]
    } else if i == 10 {
        seq![TypeId::Number]
    } else if i == 11 {
        seq![TypeId::Number]
    } else if i == 12 {
        seq![TypeId::Any]
    } else if i == 13 {
        seq![TypeId::Any]
    } else if i == 14 {
        seq![TypeId::Any, TypeId::Any]
    } else if i == 15 {
        seq![TypeId::Any, TypeId::Any]
    } else if i == 16 {
        seq![TypeId::Any, TypeId::Any]
    } else if i == 17 {
        seq![TypeId::Any, TypeId::Any]
    } else if i == 18 {
        seq![TypeId::Number, TypeId::Number]
    } else if i == 19 {
        seq![TypeId::Number, TypeId::Number]
    } else if i == 20 {
        seq![TypeId::Number, TypeId::Number]
    } else if i == 21 {
        seq![TypeId::Number, TypeId::Number]
    } else if i == 22 {
        seq![TypeId::Number, TypeId::Number]
    } else if i == 23 {
        seq![TypeId::Number, TypeId::Number]
    } else if i == 24 {
        seq![TypeId::Number, TypeId::Number]
    } else if i == 25 {
        seq![TypeId::Number, TypeId::Number]
    } else if i == 26 {
        seq![TypeId::Any]
    } else {
        seq![TypeId::Any]
    }
}

impl FunctionRegistry {
    /// The registry of the language's builtin operators and functions.
    pub fn with_std() -> (reg: FunctionRegistry)
        ensures
            reg.wf(),
            reg.entries().len() == STD_FN_COUNT,
            reg.key_of().len() == STD_FN_COUNT,
            forall|i: int|
                0 <= i < STD_FN_COUNT ==> reg.entries()[i] == FnEntry::Intrinsic(
                    spec_std_intrinsic(i),
                ) && #[trigger] reg.key_of()[i] == spec_std_key(i),
            forall|i: int|
                0 <= i < STD_FN_COUNT ==> #[trigger] reg.overloads(spec_std_key(i)) == seq![
                    (spec_std_sig(i), i as usize),
                ],
            forall|k: FnKeyModel| !std_key_among(k, STD_FN_COUNT as int) ==> #[trigger] reg.overloads(k).len() == 0,
    {
        let mut reg = FunctionRegistry::new();
        let mut i: usize = 0;
        while i < STD_FN_COUNT
            invariant
                reg.wf(),
                i <= STD_FN_COUNT,
                reg.entries().len() == i,
                forall|j: int|
                    0 <= j < i ==> reg.entries()[j] == FnEntry::Intrinsic(spec_std_intrinsic(j))
                        && #[trigger] reg.key_of()[j] == spec_std_key(j),
                forall|j: int|
                    0 <= j < i ==> #[trigger] reg.overloads(spec_std_key(j)) == seq![
                        (spec_std_sig(j), j as usize),
                    ],
                forall|k: FnKeyModel| !std_key_among(k, i as int) ==> #[trigger] reg.overloads(k).len() == 0,
            decreases STD_FN_COUNT - i,
        {
            let (key, entry, sig) = std_item(i);
            let ghost before = reg;
            proof {
                assert forall|j: int| 0 <= j < i implies spec_std_key(j) != spec_std_key(i as int) by {
                    lemma_std_keys_distinct(j, i as int);
                }
                assert(!std_key_among(spec_std_key(i as int), i as int));
            }
            reg.register(key, entry, sig);
            proof {
                assert(reg.overloads(spec_std_key(i as int)) =~= seq![(spec_std_sig(i as int), i)]);
                assert forall|j: int| 0 <= j < i + 1 implies #[trigger] reg.overloads(spec_std_key(j)) == seq![
                    (spec_std_sig(j), j as usize),
                ] by {
                    if j < i {
                        lemma_std_keys_distinct(j, i as int);
                        assert(reg.overloads(spec_std_key(j)) == before.overloads(spec_std_key(j)));
                    }
                }
                assert forall|k: FnKeyModel| !std_key_among(k, i + 1) implies #[trigger] reg.overloads(k).len() == 0 by {
                    if std_key_among(k, i as int) {
                        let j = choose|j: int| 0 <= j < i && spec_std_key(j) == k;
                        assert(std_key_among(k, i + 1));
                    }
                    if k == spec_std_key(i as int) {
                        assert(std_key_among(k, i + 1));
                    }
                    assert(reg.overloads(k) == before.overloads(k));
                }
            }
            i = i + 1;
        }
        reg
    }
}

/// Whether `k` is the key of one of the first `n` functions of the standard registry.
pub open spec fn std_key_among(k: FnKeyModel, n: int) -> bool {
    exists|j: int| 0 <= j < n && spec_std_key(j) == k
}

/// The standard registry registers each of its keys once.
pub proof fn lemma_std_keys_distinct(i: int, j: int)
    requires
        0 <= i < j < STD_FN_COUNT,
    ensures
        spec_std_key(i) != spec_std_key(j),
{
    reveal_strlit("add");
    reveal_strlit("sub");
    reveal_strlit("mul");
    reveal_strlit("div");
    reveal_strlit("rem");
    reveal_strlit("neg");
    reveal_strlit("not");
    reveal_strlit("eq");
    reveal_strlit("neq");
    reveal_strlit("lt");
    reveal_strlit("le");
    reveal_strlit("gt");
    reveal_strlit("ge");
    reveal_strlit("print");
    assert("add"@[0] == 'a' && "add"@[1] == 'd' && "add"@[2] == 'd');
    assert("sub"@[0] == 's' && "sub"@[1] == 'u' && "sub"@[2] == 'b');
    assert("mul"@[0] == 'm' && "mul"@[1] == 'u' && "mul"@[2] == 'l');
    assert("div"@[0] == 'd' && "div"@[1] == 'i' && "div"@[2] == 'v');
    assert("rem"@[0] == 'r' && "rem"@[1] == 'e' && "rem"@[2] == 'm');
    assert("neg"@[0] == 'n' && "neg"@[1] == 'e' && "neg"@[2] == 'g');
    assert("not"@[0] == 'n' && "not"@[1] == 'o' && "not"@[2] == 't');
    assert("eq"@[0] == 'e' && "eq"@[1] == 'q');
    assert("neq"@[0] == 'n' && "neq"@[1] == 'e' && "neq"@[2] == 'q');
    assert("lt"@[0] == 'l' && "lt"@[1] == 't');
    assert("le"@[0] == 'l' && "le"@[1] == 'e');
    assert("gt"@[0] == 'g' && "gt"@[1] == 't');
    assert("ge"@[0] == 'g' && "ge"@[1] == 'e');
    assert("print"@[0] == 'p' && "print"@[1] == 'r' && "print"@[2] == 'i');
}

/// The `i`-th function of the standard registry: its key, what it runs and
/// its parameter types.
fn std_item(i: usize) -> (res: (FnLookupKey, FnEntry, FnTypeSig))
    requires
        i < STD_FN_COUNT,
    ensures
        res.0@ == spec_std_key(i as int),
        res.1 == FnEntry::Intrinsic(spec_std_intrinsic(i as int)),
        res.2.params() == spec_std_sig(i as int),
{
    if i == 0 {
        (FnLookupKey::LangItem(LangItem::Add), FnEntry::Intrinsic(Intrinsic::Add), num_bin_sig())
    } else if i == 1 {
        (FnLookupKey::External("add".to_owned()), FnEntry::Intrinsic(Intrinsic::Add), num_bin_sig())
    } else if i == 2 {
        (FnLookupKey::LangItem(LangItem::Sub), FnEntry::Intrinsic(Intrinsic::Sub), num_bin_sig())
    } else if i == 3 {
        (FnLookupKey::External("sub".to_owned()), FnEntry::Intrinsic(Intrinsic::Sub), num_bin_sig())
    } else if i == 4 {
        (FnLookupKey::LangItem(LangItem::Mul), FnEntry::Intrinsic(Intrinsic::Mul), num_bin_sig())
    } else if i == 5 {
        (FnLookupKey::External("mul".to_owned()), FnEntry::Intrinsic(Intrinsic::Mul), num_bin_sig())
    } else if i == 6 {
        (FnLookupKey::LangItem(LangItem::Div), FnEntry::Intrinsic(Intrinsic::Div), num_bin_sig())
    } else if i == 7 {
        (FnLookupKey::External("div".to_owned()), FnEntry::Intrinsic(Intrinsic::Div), num_bin_sig())
    } else if i == 8 {
        (FnLookupKey::LangItem(LangItem::Rem), FnEntry::Intrinsic(Intrinsic::Rem), num_bin_sig())
    } else if i == 9 {
        (FnLookupKey::External("rem".to_owned()), FnEntry::Intrinsic(Intrinsic::Rem), num_bin_sig())
    } else if i == 10 {
        (FnLookupKey::LangItem(LangItem::Neg), FnEntry::Intrinsic(Intrinsic::Neg), num_un_sig())
    } else if i == 11 {
        (FnLookupKey::External("neg".to_owned()), FnEntry::Intrinsic(Intrinsic::Neg), num_un_sig())
    } else if i == 12 {
        (FnLookupKey::LangItem(LangItem::Not), FnEntry::Intrinsic(Intrinsic::Not), any_un_sig())
    } else if i == 13 {
        (FnLookupKey::External("not".to_owned()), FnEntry::Intrinsic(Intrinsic::Not), any_un_sig())
    } else if i == 14 {
        (FnLookupKey::LangItem(LangItem::Eq), FnEntry::Intrinsic(Intrinsic::Eq), any_bin_sig())
    } else if i == 15 {
        (FnLookupKey::External("eq".to_owned()), FnEntry::Intrinsic(Intrinsic::Eq), any_bin_sig())
    } else if i == 16 {
        (FnLookupKey::LangItem(LangItem::Neq), FnEntry::Intrinsic(Intrinsic::Neq), any_bin_sig())
    } else if i == 17 {
        (FnLookupKey::External("neq".to_owned()), FnEntry::Intrinsic(Intrinsic::Neq), any_bin_sig())
    } else if i == 18 {
        (FnLookupKey::LangItem(LangItem::Lt), FnEntry::Intrinsic(Intrinsic::Lt), num_bin_sig())
    } else if i == 19 {
        (FnLookupKey::External("lt".to_owned()), FnEntry::Intrinsic(Intrinsic::Lt), num_bin_sig())
    } else if i == 20 {
        (FnLookupKey::LangItem(LangItem::Le), FnEntry::Intrinsic(Intrinsic::Le), num_bin_sig())
    } else if i == 21 {
        (FnLookupKey::External("le".to_owned()), FnEntry::Intrinsic(Intrinsic::Le), num_bin_sig())
    } else if i == 22 {
        (FnLookupKey::LangItem(LangItem::Gt), FnEntry::Intrinsic(Intrinsic::Gt), num_bin_sig())
    } else if i == 23 {
        (FnLookupKey::External("gt".to_owned()), FnEntry::Intrinsic(Intrinsic::Gt), num_bin_sig())
    } else if i == 24 {
        (FnLookupKey::LangItem(LangItem::Ge), FnEntry::Intrinsic(Intrinsic::Ge), num_bin_sig())
    } else if i == 25 {
        (FnLookupKey::External("ge".to_owned()), FnEntry::Intrinsic(Intrinsic::Ge), num_bin_sig())
    } else {
        (FnLookupKey::External("print".to_owned()), FnEntry::Intrinsic(Intrinsic::Print), any_un_sig())
    }
}

fn num_bin_sig() -> (res: FnTypeSig)
    ensures
        res.params() == seq![TypeId::Number, TypeId::Number],
{
    let res = FnTypeSig { param_types: vec![TypeId::Number, TypeId::Number] };
    assert(res.params() =~= seq![TypeId::Number, TypeId::Number]);
    res
}

fn num_un_sig() -> (res: FnTypeSig)
    ensures
        res.params() == seq![TypeId::Number],
{
    let res = FnTypeSig { param_types: vec![TypeId::Number] };
    assert(res.params() =~= seq![TypeId::Number]);
    res
}

fn any_un_sig() -> (res: FnTypeSig)
    ensures
        res.params() == seq![TypeId::Any],
{
    let res = FnTypeSig { param_types: vec![TypeId::Any] };
    assert(res.params() =~= seq![TypeId::Any]);
    res
}

fn any_bin_sig() -> (res: FnTypeSig)
    ensures
        res.params() == seq![TypeId::Any, TypeId::Any],
{
    let res = FnTypeSig { param_types: vec![TypeId::Any, TypeId::Any] };
    assert(res.params() =~= seq![TypeId::Any, TypeId::Any]);
    res
}


impl Default for FunctionRegistry {
    fn default() -> (res: Self)
        ensures
            res.wf(),
            res.entries().len() == 0,
            res.keys().len() == 0,
    {
        FunctionRegistry::new()
    }
}

/// Nesting depth up to which struct equality looks into fields. A cyclic
/// structure compared with itself reaches it; an acyclic one never does.
pub const EQ_DEPTH: u64 = 0xffff_ffff_ffff_ffffu64;

/// Deep equality: two struct references are equal when both lead to instances
/// of the same definition whose fields are pairwise deeply equal (looking at
/// most `fuel` levels deep); other values compare as `==` does.
pub open spec fn spec_values_eq(a: ValueModel, b: ValueModel, objects: Map<usize, StructModel>, fuel: nat) -> bool
    decreases fuel,
{
    match (a, b) {
        (ValueModel::Struct(ka), ValueModel::Struct(kb)) => {
            &&& fuel > 0
            &&& objects.contains_key(ka as usize)
            &&& objects.contains_key(kb as usize)
            &&& objects[ka as usize].def_id == objects[kb as usize].def_id
            &&& objects[ka as usize].fields.len() == objects[kb as usize].fields.len()
            &&& forall|i: int|
                0 <= i < objects[ka as usize].fields.len() ==> spec_values_eq(
                    #[trigger] objects[ka as usize].fields[i],
                    objects[kb as usize].fields[i],
                    objects,
                    (fuel - 1) as nat,
                )
        },
        _ => spec_value_eq(a, b),
    }
}

/// Two struct references are deeply equal only when both instances exist,
/// belong to the same struct definition and have as many fields; their
/// fields are then pairwise deeply equal one level down.
pub proof fn lemma_struct_eq_same_def(ka: u16, kb: u16, objects: Map<usize, StructModel>, fuel: nat, i: int)
    requires
        spec_values_eq(ValueModel::Struct(ka), ValueModel::Struct(kb), objects, fuel),
    ensures
        fuel > 0,
        objects.contains_key(ka as usize),
        objects.contains_key(kb as usize),
        objects[ka as usize].def_id == objects[kb as usize].def_id,
        objects[ka as usize].fields.len() == objects[kb as usize].fields.len(),
        0 <= i < objects[ka as usize].fields.len() ==> spec_values_eq(
            objects[ka as usize].fields[i],
            objects[kb as usize].fields[i],
            objects,
            (fuel - 1) as nat,
        ),
{
}

/// Deep equality of values, looking into struct fields through the heap.
/// Used by the `==` and `!=` intrinsics.
pub fn values_eq(a: &Value, b: &Value, heap: &Heap) -> (res: bool)
    ensures
        res == spec_values_eq(a@, b@, heap.objects(), EQ_DEPTH as nat),
{
    values_eq_fuel(a, b, heap, EQ_DEPTH)
}

fn values_eq_fuel(a: &Value, b: &Value, heap: &Heap, fuel: u64) -> (res: bool)
    ensures
        res == spec_values_eq(a@, b@, heap.objects(), fuel as nat),
        // instances of different struct definitions are never equal
        res ==> (a@ matches ValueModel::Struct(ka) ==> (b@ matches ValueModel::Struct(kb) ==> {
            &&& heap.objects().contains_key(ka as usize)
            &&& heap.objects().contains_key(kb as usize)
            &&& heap.objects()[ka as usize].def_id == heap.objects()[kb as usize].def_id
            &&& heap.objects()[ka as usize].fields.len() == heap.objects()[kb as usize].fields.len()
        })),
    decreases fuel,
{
    match (a, b) {
        (Value::Struct(ka), Value::Struct(kb)) => {
            if fuel == 0 {
                return false;
            }
            let sa = match heap.struct_ref(*ka) {
                Some(o) => o,
                None => return false,
            };
            let sb = match heap.struct_ref(*kb) {
                Some(o) => o,
                None => return false,
            };
            if sa.def_id != sb.def_id || sa.fields.len() != sb.fields.len() {
                return false;
            }
            let ghost fa = heap.objects()[*ka as usize].fields;
            let ghost fb = heap.objects()[*kb as usize].fields;
            let mut i: usize = 0;
            #[verifier::loop_isolation(false)]
            while i < sa.fields.len()
                invariant
                    0 <= i <= sa.fields.len(),
                    sa.fields.len() == sb.fields.len(),
                    fa == sa.fields@.map_values(|v: Value| v@),
                    fb == sb.fields@.map_values(|v: Value| v@),
                    fuel > 0,
                    forall|j: int| 0 <= j < i ==> spec_values_eq(#[trigger] fa[j], fb[j], heap.objects(), (fuel - 1) as nat),
                decreases sa.fields.len() - i,
            {
                assert(fa[i as int] == sa.fields@[i as int]@ && fb[i as int] == sb.fields@[i as int]@);
                if !values_eq_fuel(&sa.fields[i], &sb.fields[i], heap, fuel - 1) {
                    return false;
                }
                i = i + 1;
            }
            true
        },
        _ => *a == *b,
    }
}

} // verus!
