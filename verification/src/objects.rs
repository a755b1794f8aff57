//! The runtime value type: a tagged union of null, integers, strings,
//! booleans, lists, builtin functions, closures and first-class error
//! values, with its equality, ordering and truthiness semantics.

use vstd::prelude::*;

use crate::interpreter::{so_height, so_seq_height};
use crate::node::{spec_node_of, Node, SpecNode};

verus! {

/// The native functions the evaluator can dispatch to.
#[derive(Clone, Copy, Debug, PartialEq, Eq, Structural)]
pub enum BuiltinKind {
    TypeOf,
    Len,
    Equals,
    NotEquals,
    LessThan,
    GreaterThan,
    Add,
    Subtract,
    Multiply,
    Divide,
    Modulo,
    ParseInt,
    Abs,
    Nth,
    Head,
    Tail,
    Slice,
    Sort,
    MapList,
    Flat,
    Concat,
    Reduce,
    Str,
    Lines,
    Split,
}

/// A runtime value.  A `Function` carries the arena index of its captured
/// environment and a stamp that makes closure identity observable: two
/// closures are the same value only if they came from the same evaluation
/// of a `fn` literal.
#[derive(Debug)]
pub enum Object {
    Null,
    Integer(isize),
    String(String),
    Bool(bool),
    List(Vec<Object>),
    Builtin(BuiltinKind),
    Function { id: u64, env: usize, parameters: Vec<String>, body: Node },
    Error(String),
}

/// The mathematical image of an `Object`.
pub ghost enum SpecObject {
    Null,
    Integer(int),
    String(Seq<char>),
    Bool(bool),
    List(Seq<SpecObject>),
    Builtin(BuiltinKind),
    Function { id: nat, env: int, parameters: Seq<Seq<char>>, body: SpecNode },
    Error(Seq<char>),
}

/// The mathematical image of a value.
pub open spec fn spec_obj_of(o: Object) -> SpecObject
    decreases o,
{
    match o {
        Object::Null => SpecObject::Null,
        Object::Integer(v) => SpecObject::Integer(v as int),
        Object::String(s) => SpecObject::String(s@),
        Object::Bool(b) => SpecObject::Bool(b),
        Object::List(v) => SpecObject::List(
            Seq::new(
                v@.len(),
                |i: int| if 0 <= i < v@.len() { spec_obj_of(v@[i]) } else { arbitrary() },
            ),
        ),
        Object::Builtin(k) => SpecObject::Builtin(k),
        Object::Function { id, env, parameters, body } => SpecObject::Function {
            id: id as nat,
            env: env as int,
            parameters: parameters@.map_values(|p: String| p@),
            body: spec_node_of(body),
        },
        Object::Error(m) => SpecObject::Error(m@),
    }
}

impl View for Object {
    type V = SpecObject;

    open spec fn view(&self) -> SpecObject {
        spec_obj_of(*self)
    }
}

/// The image of a value sequence.
pub open spec fn objs_view(v: Seq<Object>) -> Seq<SpecObject> {
    v.map_values(|o: Object| spec_obj_of(o))
}

/// A value and its image are always of the same variant.
pub proof fn lemma_obj_view_variants(o: Object)
    ensures
        o@ is Null <==> o is Null,
        o@ is Integer <==> o is Integer,
        o@ is String <==> o is String,
        o@ is Bool <==> o is Bool,
        o@ is List <==> o is List,
        o@ is Builtin <==> o is Builtin,
        o@ is Function <==> o is Function,
        o@ is Error <==> o is Error,
{
    match o {
        Object::Null => {},
        Object::Integer(_) => {},
        Object::String(_) => {},
        Object::Bool(_) => {},
        Object::List(_) => {},
        Object::Builtin(_) => {},
        Object::Function { .. } => {},
        Object::Error(_) => {},
    }
}

/// The name of a value's type, as used in diagnostics.
pub open spec fn spec_obj_type_of(o: SpecObject) -> Seq<char> {
    match o {
        SpecObject::Null => "null"@,
        SpecObject::Integer(_) => "int"@,
        SpecObject::String(_) => "string"@,
        SpecObject::Bool(_) => "bool"@,
        SpecObject::List(_) => "list"@,
        SpecObject::Builtin(_) => "builtin"@,
        SpecObject::Function { .. } => "function"@,
        SpecObject::Error(_) => "error"@,
    }
}

/// Language equality: structural for primitives and lists, identity for
/// builtins and closures — two independently built closures are never
/// equal, even from identical source.
pub open spec fn spec_obj_eq(a: SpecObject, b: SpecObject) -> bool
    decreases a,
{
    match a {
        SpecObject::Null => b is Null,
        SpecObject::Integer(x) => b matches SpecObject::Integer(y) && x == y,
        SpecObject::String(x) => b matches SpecObject::String(y) && x == y,
        SpecObject::Bool(x) => b matches SpecObject::Bool(y) && x == y,
        SpecObject::List(x) => b matches SpecObject::List(y) && x.len() == y.len() && (forall|
            i: int,
        |
            0 <= i < x.len() ==> spec_obj_eq(#[trigger] x[i], y[i])),
        SpecObject::Builtin(x) => b matches SpecObject::Builtin(y) && x == y,
        SpecObject::Function { id: x, .. } => b matches SpecObject::Function { id: y, .. } && x
            == y,
        SpecObject::Error(x) => b matches SpecObject::Error(y) && x == y,
    }
}

/// Truthiness: zero, the empty string, `false` and the empty list are
/// falsy; everything else counts as true.
pub open spec fn spec_truthy(o: SpecObject) -> bool {
    match o {
        SpecObject::Integer(v) => v != 0,
        SpecObject::String(s) => s.len() > 0,
        SpecObject::Bool(b) => b,
        SpecObject::List(v) => v.len() > 0,
        _ => true,
    }
}

/// The rank of a value's kind in the total order used by `sort`.
pub open spec fn spec_rank(o: SpecObject) -> int {
    match o {
        SpecObject::Null => 0,
        SpecObject::Bool(_) => 1,
        SpecObject::Integer(_) => 2,
        SpecObject::String(_) => 3,
        SpecObject::List(_) => 4,
        SpecObject::Builtin(_) => 5,
        SpecObject::Function { .. } => 6,
        SpecObject::Error(_) => 7,
    }
}

/// Lexicographic order on strings by code point.
pub open spec fn spec_chars_le(a: Seq<char>, b: Seq<char>) -> bool
    decreases a.len(),
{
    if a.len() == 0 {
        true
    } else if b.len() == 0 {
        false
    } else if a[0] == b[0] {
        spec_chars_le(a.drop_first(), b.drop_first())
    } else {
        (a[0] as int) < (b[0] as int)
    }
}

/// The order `sort` uses: by kind rank first; within a kind, booleans,
/// integers and strings by value, lists by length alone; null values,
/// builtins, closures and errors of the same kind tie.
pub open spec fn spec_obj_le(a: SpecObject, b: SpecObject) -> bool {
    if spec_rank(a) != spec_rank(b) {
        spec_rank(a) < spec_rank(b)
    } else {
        match a {
            SpecObject::Bool(x) => !x || b->Bool_0,
            SpecObject::Integer(x) => x <= b->Integer_0,
            SpecObject::String(x) => spec_chars_le(x, b->String_0),
            SpecObject::List(x) => x.len() <= b->List_0.len(),
            _ => true,
        }
    }
}

/// Well-formedness of a value against an arena of `n` environments:
/// every closure it holds points into the arena.
pub open spec fn spec_obj_wf(o: SpecObject, n: int) -> bool
    decreases o,
{
    match o {
        SpecObject::List(v) => forall|i: int|
            0 <= i < v.len() ==> spec_obj_wf(#[trigger] v[i], n),
        SpecObject::Function { env, .. } => 0 <= env < n,
        _ => true,
    }
}

/// A value stays well-formed as the arena grows.
pub proof fn lemma_obj_wf_mono(o: SpecObject, n: int, m: int)
    requires
        spec_obj_wf(o, n),
        n <= m,
    ensures
        spec_obj_wf(o, m),
    decreases o,
{
    match o {
        SpecObject::List(v) => {
            assert forall|i: int| 0 <= i < v.len() implies spec_obj_wf(#[trigger] v[i], m) by {
                lemma_obj_wf_mono(v[i], n, m);
            }
        },
        _ => {},
    }
}

impl Object {
    /// The name of this value's type.
    pub fn type_of(&self) -> (r: &'static str)
        ensures
            r@ == spec_obj_type_of(self@),
    {
        match self {
            Object::Null => "null",
            Object::Integer(_) => "int",
            Object::String(_) => "string",
            Object::Bool(_) => "bool",
            Object::List(_) => "list",
            Object::Builtin(_) => "builtin",
            Object::Function { .. } => "function",
            Object::Error(_) => "error",
        }
    }

    /// Language equality with `other`, per `spec_obj_eq`.
    pub fn equals(&self, other: &Object) -> (r: bool)
        ensures
            r == spec_obj_eq(self@, other@),
        decreases self, 1int,
    {
        proof {
            lemma_obj_view_variants(*self);
            lemma_obj_view_variants(*other);
        }
        match (self, other) {
            (Object::Null, Object::Null) => true,
            (Object::Integer(x), Object::Integer(y)) => x == y,
            (Object::String(x), Object::String(y)) => crate::strutil::str_eq_str(
                x.as_str(),
                y.as_str(),
            ),
            (Object::Bool(x), Object::Bool(y)) => x == y,
            (Object::List(x), Object::List(y)) => {
                let r = objs_equal(x, y);
                proof {
                    let sx = self@->List_0;
                    let sy = other@->List_0;
                    if r {
                        assert forall|i: int| 0 <= i < sx.len() implies spec_obj_eq(
                            #[trigger] sx[i],
                            sy[i],
                        ) by {
                            assert(sx[i] == spec_obj_of(x@[i]));
                            assert(sy[i] == spec_obj_of(y@[i]));
                            assert(spec_obj_eq(spec_obj_of(x@[i]), spec_obj_of(y@[i])));
                        }
                        assert(spec_obj_eq(self@, other@));
                    } else {
                        if x@.len() == y@.len() && spec_obj_eq(self@, other@) {
                            assert forall|i: int| 0 <= i < x@.len() implies spec_obj_eq(
                                #[trigger] spec_obj_of(x@[i]),
                                spec_obj_of(y@[i]),
                            ) by {
                                assert(sx[i] == spec_obj_of(x@[i]));
                                assert(sy[i] == spec_obj_of(y@[i]));
                                assert(spec_obj_eq(sx[i], sy[i]));
                            }
                            assert(false);
                        }
                        assert(!spec_obj_eq(self@, other@));
                    }
                }
                r
            },
            (Object::Builtin(x), Object::Builtin(y)) => x == y,
            (Object::Function { id: x, .. }, Object::Function { id: y, .. }) => x == y,
            (Object::Error(x), Object::Error(y)) => crate::strutil::str_eq_str(
                x.as_str(),
                y.as_str(),
            ),
            _ => false,
        }
    }

    /// Whether this value comes no later than `other` in the sort order,
    /// per `spec_obj_le`.
    pub fn le(&self, other: &Object) -> (r: bool)
        ensures
            r == spec_obj_le(self@, other@),
    {
        let ra = self.rank();
        let rb = other.rank();
        if ra != rb {
            return ra < rb;
        }
        match (self, other) {
            (Object::Bool(x), Object::Bool(y)) => !*x || *y,
            (Object::Integer(x), Object::Integer(y)) => *x <= *y,
            (Object::String(x), Object::String(y)) => chars_le(x.as_str(), y.as_str()),
            (Object::List(x), Object::List(y)) => x.len() <= y.len(),
            _ => true,
        }
    }

    /// The rank of this value's kind in the sort order.
    fn rank(&self) -> (r: u8)
        ensures
            r as int == spec_rank(self@),
    {
        match self {
            Object::Null => 0,
            Object::Bool(_) => 1,
            Object::Integer(_) => 2,
            Object::String(_) => 3,
            Object::List(_) => 4,
            Object::Builtin(_) => 5,
            Object::Function { .. } => 6,
            Object::Error(_) => 7,
        }
    }

    /// A deep copy of this value, with the same image.
    pub fn duplicate(&self) -> (r: Object)
        ensures
            r@ == self@,
        decreases self,
    {
        match self {
            Object::Null => Object::Null,
            Object::Integer(v) => Object::Integer(*v),
            Object::String(s) => Object::String(s.clone()),
            Object::Bool(b) => Object::Bool(*b),
            Object::List(v) => {
                let out = duplicate_objects(v);
                let ghost outv = out@;
                let r = Object::List(out);
                proof {
                    assert forall|m: int| 0 <= m < v@.len() implies #[trigger] r@->List_0[m]
                        == self@->List_0[m] by {
                        assert(r@->List_0[m] == spec_obj_of(outv[m]));
                        assert(self@->List_0[m] == spec_obj_of(v@[m]));
                    }
                    assert(r@->List_0 =~= self@->List_0);
                }
                r
            },
            Object::Builtin(k) => Object::Builtin(*k),
            Object::Function { id, env, parameters, body } => {
                let mut ps: Vec<String> = Vec::new();
                let n = parameters.len();
                let mut i: usize = 0;
                while i < n
                    invariant
                        i <= n,
                        n == parameters@.len(),
                        ps@.len() == i,
                        forall|m: int| 0 <= m < i ==> #[trigger] ps@[m] == parameters@[m],
                    decreases n - i,
                {
                    ps.push(parameters[i].clone());
                    i = i + 1;
                }
                let r = Object::Function {
                    id: *id,
                    env: *env,
                    parameters: ps,
                    body: body.duplicate(),
                };
                proof {
                    assert(r@->Function_parameters =~= self@->Function_parameters);
                }
                r
            },
            Object::Error(m) => Object::Error(m.clone()),
        }
    }
}

/// Element-wise language equality of two value lists.
fn objs_equal(x: &Vec<Object>, y: &Vec<Object>) -> (r: bool)
    ensures
        r == (x@.len() == y@.len() && (forall|i: int|
            0 <= i < x@.len() ==> spec_obj_eq(#[trigger] spec_obj_of(x@[i]), spec_obj_of(y@[i])))),
    decreases x, 0int,
{
    let n = x.len();
    if n != y.len() {
        return false;
    }
    let mut i: usize = 0;
    while i < n
        invariant
            i <= n,
            n == x@.len(),
            n == y@.len(),
            forall|m: int|
                0 <= m < i ==> spec_obj_eq(#[trigger] spec_obj_of(x@[m]), spec_obj_of(y@[m])),
        decreases n - i,
    {
        if !x[i].equals(&y[i]) {
            return false;
        }
        i = i + 1;
    }
    true
}

/// A deep copy of a value list, element for element.
fn duplicate_objects(v: &Vec<Object>) -> (r: Vec<Object>)
    ensures
        r@.len() == v@.len(),
        forall|i: int| 0 <= i < v@.len() ==> #[trigger] spec_obj_of(r@[i]) == spec_obj_of(v@[i]),
    decreases v,
{
    let mut out: Vec<Object> = Vec::new();
    let n = v.len();
    let mut i: usize = 0;
    while i < n
        invariant
            i <= n,
            n == v@.len(),
            out@.len() == i,
            forall|m: int| 0 <= m < i ==> #[trigger] spec_obj_of(out@[m]) == spec_obj_of(v@[m]),
        decreases n - i,
    {
        out.push(v[i].duplicate());
        i = i + 1;
    }
    out
}

/// Lexicographic comparison of two strings by code point.
fn chars_le(a: &str, b: &str) -> (r: bool)
    ensures
        r == spec_chars_le(a@, b@),
    decreases a@.len(),
{
    let na = a.unicode_len();
    let nb = b.unicode_len();
    if na == 0 {
        return true;
    }
    if nb == 0 {
        return false;
    }
    let ca = a.get_char(0);
    let cb = b.get_char(0);
    if ca == cb {
        let ra = a.substring_char(1, na);
        let rb = b.substring_char(1, nb);
        proof {
            assert(ra@ =~= a@.drop_first());
            assert(rb@ =~= b@.drop_first());
        }
        chars_le(ra, rb)
    } else {
        (ca as u32) < (cb as u32)
    }
}

/// Whether a value is an in-language error.
pub fn is_error(value: &Object) -> (r: bool)
    ensures
        r == (value@ is Error),
{
    proof {
        lemma_obj_view_variants(*value);
    }
    matches!(value, Object::Error(_))
}

/// The truthiness of a value, per `spec_truthy`.
pub fn is_truthy(value: &Object) -> (r: bool)
    ensures
        r == spec_truthy(value@),
{
    proof {
        lemma_obj_view_variants(*value);
    }
    match value {
        Object::Integer(v) => *v != 0,
        Object::String(s) => s.as_str().unicode_len() > 0,
        Object::Bool(b) => *b,
        Object::List(v) => v.len() > 0,
        _ => true,
    }
}

/// The shared boolean objects for a native truth value.
pub fn bool_from_native(value: bool) -> (r: Object)
    ensures
        r@ == SpecObject::Bool(value),
{
    Object::Bool(value)
}


/// The name of a builtin, as the rendering writes it.
pub open spec fn spec_kind_name(k: BuiltinKind) -> Seq<char> {
    match k {
        BuiltinKind::TypeOf => "TypeOf"@,
        BuiltinKind::Len => "Len"@,
        BuiltinKind::Equals => "Equals"@,
        BuiltinKind::NotEquals => "NotEquals"@,
        BuiltinKind::LessThan => "LessThan"@,
        BuiltinKind::GreaterThan => "GreaterThan"@,
        BuiltinKind::Add => "Add"@,
        BuiltinKind::Subtract => "Subtract"@,
        BuiltinKind::Multiply => "Multiply"@,
        BuiltinKind::Divide => "Divide"@,
        BuiltinKind::Modulo => "Modulo"@,
        BuiltinKind::ParseInt => "ParseInt"@,
        BuiltinKind::Abs => "Abs"@,
        BuiltinKind::Nth => "Nth"@,
        BuiltinKind::Head => "Head"@,
        BuiltinKind::Tail => "Tail"@,
        BuiltinKind::Slice => "Slice"@,
        BuiltinKind::Sort => "Sort"@,
        BuiltinKind::MapList => "MapList"@,
        BuiltinKind::Flat => "Flat"@,
        BuiltinKind::Concat => "Concat"@,
        BuiltinKind::Reduce => "Reduce"@,
        BuiltinKind::Str => "Str"@,
        BuiltinKind::Lines => "Lines"@,
        BuiltinKind::Split => "Split"@,
    }
}

/// The name of a builtin.
pub fn kind_name(k: BuiltinKind) -> (r: &'static str)
    ensures
        r@ == spec_kind_name(k),
{
    match k {
        BuiltinKind::TypeOf => "TypeOf",
        BuiltinKind::Len => "Len",
        BuiltinKind::Equals => "Equals",
        BuiltinKind::NotEquals => "NotEquals",
        BuiltinKind::LessThan => "LessThan",
        BuiltinKind::GreaterThan => "GreaterThan",
        BuiltinKind::Add => "Add",
        BuiltinKind::Subtract => "Subtract",
        BuiltinKind::Multiply => "Multiply",
        BuiltinKind::Divide => "Divide",
        BuiltinKind::Modulo => "Modulo",
        BuiltinKind::ParseInt => "ParseInt",
        BuiltinKind::Abs => "Abs",
        BuiltinKind::Nth => "Nth",
        BuiltinKind::Head => "Head",
        BuiltinKind::Tail => "Tail",
        BuiltinKind::Slice => "Slice",
        BuiltinKind::Sort => "Sort",
        BuiltinKind::MapList => "MapList",
        BuiltinKind::Flat => "Flat",
        BuiltinKind::Concat => "Concat",
        BuiltinKind::Reduce => "Reduce",
        BuiltinKind::Str => "Str",
        BuiltinKind::Lines => "Lines",
        BuiltinKind::Split => "Split",
    }
}

/// The rendering of a value, as the host prints it: lists bracketed with
/// single spaces between elements, strings quoted, closures shown by
/// their stamp, errors with an `Error:` prefix.
pub open spec fn spec_render(o: SpecObject) -> Seq<char>
    decreases o,
{
    match o {
        SpecObject::Null => "null"@,
        SpecObject::Integer(v) => crate::numfmt::spec_int_chars(v),
        SpecObject::String(s) => seq!['"'] + s + seq!['"'],
        SpecObject::Bool(b) => if b {
            "true"@
        } else {
            "false"@
        },
        SpecObject::List(v) => "["@ + spec_render_items(v) + "]"@,
        SpecObject::Builtin(k) => "BUILTIN["@ + spec_kind_name(k) + "]"@,
        SpecObject::Function { id, .. } => "FUNCTION["@ + crate::numfmt::spec_nat_chars(
            id as int,
        ) + "]"@,
        SpecObject::Error(m) => "Error:"@ + m,
    }
}

/// The renderings of a list's elements, one space between neighbours.
pub open spec fn spec_render_items(v: Seq<SpecObject>) -> Seq<char>
    decreases v,
{
    if v.len() == 0 {
        Seq::empty()
    } else if v.len() == 1 {
        spec_render(v[0])
    } else {
        spec_render(v[0]) + " "@ + spec_render_items(v.drop_first())
    }
}

impl Object {
    /// Render this value, per `spec_render`.
    pub fn render(&self) -> (r: String)
        ensures
            r@ == spec_render(self@),
        decreases so_height(self@), 1int,
    {
        proof {
            lemma_obj_view_variants(*self);
        }
        match self {
            Object::Null => {
                let mut m = String::new();
                m.append("null");
                proof {
                    assert(m@ =~= "null"@);
                }
                m
            },
            Object::Integer(v) => crate::numfmt::isize_to_string(*v),
            Object::String(s) => {
                let mut m = String::new();
                m.append("\"");
                m.append(s.as_str());
                m.append("\"");
                proof {
                    reveal_strlit("\"");
                    assert("\""@ =~= seq!['"']);
                    assert(m@ =~= seq!['"'] + s@ + seq!['"']);
                }
                m
            },
            Object::Bool(b) => {
                let mut m = String::new();
                if *b {
                    m.append("true");
                    proof {
                        assert(m@ =~= "true"@);
                    }
                } else {
                    m.append("false");
                    proof {
                        assert(m@ =~= "false"@);
                    }
                }
                m
            },
            Object::List(v) => {
                let mut m = String::new();
                m.append("[");
                proof {
                    assert(objs_view(v@) =~= self@->List_0);
                    assert(so_seq_height(objs_view(v@)) < so_height(self@));
                }
                let inner = render_items(v, 0);
                m.append(inner.as_str());
                m.append("]");
                proof {
                    assert(v@.skip(0) =~= v@);
                    assert(objs_view(v@.skip(0)) =~= self@->List_0);
                    lemma_render_items_congruent(objs_view(v@.skip(0)), self@->List_0);
                    assert(m@ =~= "["@ + spec_render_items(self@->List_0) + "]"@);
                }
                m
            },
            Object::Builtin(k) => {
                let mut m = String::new();
                m.append("BUILTIN[");
                m.append(kind_name(*k));
                m.append("]");
                proof {
                    assert(m@ =~= "BUILTIN["@ + spec_kind_name(*k) + "]"@);
                }
                m
            },
            Object::Function { id, .. } => {
                let mut m = String::new();
                m.append("FUNCTION[");
                let d = crate::numfmt::u64_to_string(*id);
                m.append(d.as_str());
                m.append("]");
                proof {
                    assert(m@ =~= "FUNCTION["@ + crate::numfmt::spec_nat_chars(*id as int)
                        + "]"@);
                }
                m
            },
            Object::Error(msg) => {
                let mut m = String::new();
                m.append("Error:");
                m.append(msg.as_str());
                proof {
                    assert(m@ =~= "Error:"@ + msg@);
                }
                m
            },
        }
    }
}

/// Renderings read only the element images.
proof fn lemma_render_items_congruent(a: Seq<SpecObject>, b: Seq<SpecObject>)
    requires
        a == b,
    ensures
        spec_render_items(a) == spec_render_items(b),
{
}

/// Render the elements of `v` from position `i` on.
fn render_items(v: &Vec<Object>, i: usize) -> (r: String)
    requires
        i <= v@.len(),
    ensures
        r@ == spec_render_items(objs_view(v@.skip(i as int))),
    decreases so_seq_height(objs_view(v@)), v@.len() - i,
{
    let ghost rest = objs_view(v@.skip(i as int));
    if i >= v.len() {
        let m = String::new();
        proof {
            assert(rest =~= Seq::<SpecObject>::empty());
        }
        m
    } else {
        proof {
            crate::interpreter::lemma_so_seq_height(objs_view(v@), i as int);
            assert(objs_view(v@)[i as int] == spec_obj_of(v@[i as int]));
            assert(rest[0] == spec_obj_of(v@[i as int]));
            assert(rest.drop_first() =~= objs_view(v@.skip(i as int + 1)));
        }
        let mut m = v[i].render();
        if i + 1 < v.len() {
            m.append(" ");
            let tail_str = render_items(v, i + 1);
            m.append(tail_str.as_str());
            proof {
                reveal_strlit(" ");
                assert(" "@ =~= seq![' ']);
                assert(m@ =~= spec_render(rest[0]) + " "@ + spec_render_items(
                    rest.drop_first(),
                ));
                assert(rest.len() > 1);
            }
        } else {
            proof {
                assert(rest.len() == 1);
            }
        }
        m
    }
}

} // verus!
