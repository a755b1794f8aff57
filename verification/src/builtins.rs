//! The builtin functions that operate on plain values: argument checking,
//! structured error construction, arithmetic, comparisons and list
//! operations, each pinned to an exact specification.

use vstd::prelude::*;
use vstd::string::*;

use crate::numfmt::{spec_nat_chars, spec_trunc_div, spec_trunc_rem, usize_to_string};
use crate::objects::{
    lemma_obj_view_variants, objs_view, spec_obj_eq, spec_obj_le, spec_obj_of, spec_obj_type_of,
    spec_obj_wf, Object, SpecObject,
};

verus! {

/// The message of an argument-count error.
pub open spec fn msg_args_len(name: Seq<char>, expected: int, got: int) -> Seq<char> {
    "Invalid amount of argument to function '"@ + name + "': expected: "@ + spec_nat_chars(
        expected,
    ) + " got: "@ + spec_nat_chars(got)
}

/// The message of a type error naming only the expected type.
pub open spec fn msg_type_error(name: Seq<char>, typename: Seq<char>) -> Seq<char> {
    "Invalid argument type for function '"@ + name + "': expected "@ + typename
}

/// The message of a type error naming the expected and the actual type.
pub open spec fn msg_type_error_with_got(
    name: Seq<char>,
    typename: Seq<char>,
    gottype: Seq<char>,
) -> Seq<char> {
    "Invalid argument type for function '"@ + name + "': expected "@ + typename + " got "@
        + gottype
}

/// The message of a type error with argument position and actual type.
pub open spec fn msg_type_error_with_got_and_pos(
    name: Seq<char>,
    pos: int,
    typename: Seq<char>,
    gottype: Seq<char>,
) -> Seq<char> {
    "Invalid argument type for function '"@ + name + "' at position "@ + spec_nat_chars(pos)
        + " expected "@ + typename + " got "@ + gottype
}

/// The message of a type error with argument position.
pub open spec fn msg_type_error_with_pos(
    name: Seq<char>,
    typename: Seq<char>,
    pos: int,
) -> Seq<char> {
    "Invalid argument type for function '"@ + name + "': expected "@ + typename + " at position "@
        + spec_nat_chars(pos)
}

/// An `Error` value reporting a wrong argument count.
pub fn new_args_len_error(name: &str, args: &Vec<Object>, expected: usize) -> (r: Object)
    ensures
        r@ == SpecObject::Error(msg_args_len(name@, expected as int, args@.len() as int)),
{
    let mut m = String::new();
    m.append("Invalid amount of argument to function '");
    m.append(name);
    m.append("': expected: ");
    let e = usize_to_string(expected);
    m.append(e.as_str());
    m.append(" got: ");
    let g = usize_to_string(args.len());
    m.append(g.as_str());
    proof {
        assert(m@ =~= msg_args_len(name@, expected as int, args@.len() as int));
    }
    Object::Error(m)
}

/// An `Error` value reporting a wrong argument type.
pub fn new_type_error(name: &str, typename: &str) -> (r: Object)
    ensures
        r@ == SpecObject::Error(msg_type_error(name@, typename@)),
{
    let mut m = String::new();
    m.append("Invalid argument type for function '");
    m.append(name);
    m.append("': expected ");
    m.append(typename);
    proof {
        assert(m@ =~= msg_type_error(name@, typename@));
    }
    Object::Error(m)
}

/// An `Error` value reporting a wrong argument type and what stood there.
pub fn new_type_error_with_got(name: &str, typename: &str, gottype: &str) -> (r: Object)
    ensures
        r@ == SpecObject::Error(msg_type_error_with_got(name@, typename@, gottype@)),
{
    let mut m = String::new();
    m.append("Invalid argument type for function '");
    m.append(name);
    m.append("': expected ");
    m.append(typename);
    m.append(" got ");
    m.append(gottype);
    proof {
        assert(m@ =~= msg_type_error_with_got(name@, typename@, gottype@));
    }
    Object::Error(m)
}

/// An `Error` value reporting a wrong argument type, its position and
/// what stood there.
pub fn new_type_error_with_got_and_pos(name: &str, pos: usize, typename: &str, gottype: &str) -> (r:
    Object)
    ensures
        r@ == SpecObject::Error(
            msg_type_error_with_got_and_pos(name@, pos as int, typename@, gottype@),
        ),
{
    let mut m = String::new();
    m.append("Invalid argument type for function '");
    m.append(name);
    m.append("' at position ");
    let p = usize_to_string(pos);
    m.append(p.as_str());
    m.append(" expected ");
    m.append(typename);
    m.append(" got ");
    m.append(gottype);
    proof {
        assert(m@ =~= msg_type_error_with_got_and_pos(name@, pos as int, typename@, gottype@));
    }
    Object::Error(m)
}

/// An `Error` value reporting a wrong argument type at a position.
pub fn new_type_error_with_pos(name: &str, typename: &str, pos: usize) -> (r: Object)
    ensures
        r@ == SpecObject::Error(msg_type_error_with_pos(name@, typename@, pos as int)),
{
    let mut m = String::new();
    m.append("Invalid argument type for function '");
    m.append(name);
    m.append("': expected ");
    m.append(typename);
    m.append(" at position ");
    let p = usize_to_string(pos);
    m.append(p.as_str());
    proof {
        assert(m@ =~= msg_type_error_with_pos(name@, typename@, pos as int));
    }
    Object::Error(m)
}

/// The index of the first non-integer argument, if any.
pub open spec fn spec_first_non_int(s: Seq<SpecObject>) -> Option<int>
    decreases s.len(),
{
    if s.len() == 0 {
        None
    } else if !(s[0] is Integer) {
        Some(0)
    } else {
        match spec_first_non_int(s.drop_first()) {
            None => None,
            Some(i) => Some(i + 1),
        }
    }
}

/// Every argument is an integer exactly when no first offender exists.
pub proof fn lemma_first_non_int(s: Seq<SpecObject>)
    ensures
        match spec_first_non_int(s) {
            None => forall|i: int| 0 <= i < s.len() ==> (#[trigger] s[i]) is Integer,
            Some(i) => 0 <= i < s.len() && !(s[i] is Integer) && (forall|j: int|
                0 <= j < i ==> (#[trigger] s[j]) is Integer),
        },
    decreases s.len(),
{
    if s.len() == 0 {
    } else if !(s[0] is Integer) {
    } else {
        let d = s.drop_first();
        lemma_first_non_int(d);
        match spec_first_non_int(d) {
            None => {
                assert forall|i: int| 0 <= i < s.len() implies (#[trigger] s[i]) is Integer by {
                    if i > 0 {
                        assert(d[i - 1] == s[i]);
                    }
                }
            },
            Some(i) => {
                assert(d[i] == s[i + 1]);
                assert forall|j: int| 0 <= j < i + 1 implies (#[trigger] s[j]) is Integer by {
                    if j > 0 {
                        assert(d[j - 1] == s[j]);
                    }
                }
            },
        }
    }
}

/// The arithmetic type error all four operators produce: the first
/// argument that is not an integer is named with its type.
pub open spec fn spec_int_type_error(name: Seq<char>, s: Seq<SpecObject>, bad: int) -> SpecObject {
    SpecObject::Error(msg_type_error_with_got(name, "int"@, spec_obj_type_of(s[bad])))
}

/// Return the type error for the first non-integer argument, if there is
/// one, mirroring the scan the arithmetic builtins share.
fn typecheck_ints(name: &str, args: &Vec<Object>) -> (r: Option<Object>)
    ensures
        match spec_first_non_int(objs_view(args@)) {
            None => r is None,
            Some(i) => r matches Some(o) && o@ == spec_int_type_error(name@, objs_view(args@), i),
        },
{
    proof {
        lemma_first_non_int(objs_view(args@));
    }
    let n = args.len();
    let mut i: usize = 0;
    while i < n
        invariant
            i <= n,
            n == args@.len(),
            forall|j: int| 0 <= j < i ==> (#[trigger] objs_view(args@)[j]) is Integer,
        decreases n - i,
    {
        proof {
            lemma_obj_view_variants(args@[i as int]);
            assert(objs_view(args@)[i as int] == spec_obj_of(args@[i as int]));
        }
        if !matches!(&args[i], Object::Integer(_)) {
            let r = new_type_error_with_got(name, "int", args[i].type_of());
            proof {
                lemma_first_non_int(objs_view(args@));
                assert(spec_first_non_int(objs_view(args@)) == Some(i as int));
            }
            return Some(r);
        }
        i = i + 1;
    }
    proof {
        lemma_first_non_int(objs_view(args@));
    }
    None
}

/// The integer value of an argument known to be an integer.
pub open spec fn int_of(o: SpecObject) -> isize {
    o->Integer_0 as isize
}

/// Left fold of wrapping addition over the arguments.
pub open spec fn spec_fold_add(s: Seq<SpecObject>, acc: isize) -> isize
    decreases s.len(),
{
    if s.len() == 0 {
        acc
    } else {
        spec_fold_add(s.drop_first(), vstd::wrapping::isize_specs::wrapping_add(acc, int_of(s[0])))
    }
}

/// Left fold of wrapping subtraction over the arguments.
pub open spec fn spec_fold_sub(s: Seq<SpecObject>, acc: isize) -> isize
    decreases s.len(),
{
    if s.len() == 0 {
        acc
    } else {
        spec_fold_sub(s.drop_first(), vstd::wrapping::isize_specs::wrapping_sub(acc, int_of(s[0])))
    }
}

/// Left fold of wrapping multiplication over the arguments.
pub open spec fn spec_fold_mul(s: Seq<SpecObject>, acc: isize) -> isize
    decreases s.len(),
{
    if s.len() == 0 {
        acc
    } else {
        spec_fold_mul(s.drop_first(), vstd::wrapping::isize_specs::wrapping_mul(acc, int_of(s[0])))
    }
}

/// Left fold of truncating division; `None` on a zero divisor.  The one
/// overflowing quotient wraps, so no input can fault the fold.
pub open spec fn spec_fold_div(s: Seq<SpecObject>, acc: isize) -> Option<isize>
    decreases s.len(),
{
    if s.len() == 0 {
        Some(acc)
    } else if int_of(s[0]) == 0 {
        None
    } else {
        let q = if acc == isize::MIN && int_of(s[0]) == -1 {
            isize::MIN
        } else {
            spec_trunc_div(acc as int, int_of(s[0]) as int) as isize
        };
        spec_fold_div(s.drop_first(), q)
    }
}

/// What `+` returns: the wrapping sum of the integers, or the type error
/// for the first argument that is not one.
pub open spec fn spec_add(s: Seq<SpecObject>) -> SpecObject {
    match spec_first_non_int(s) {
        Some(i) => spec_int_type_error("+"@, s, i),
        None => SpecObject::Integer(spec_fold_add(s, 0) as int),
    }
}

/// Adds integers; every argument must be one.
pub fn add(args: &Vec<Object>) -> (r: Object)
    ensures
        r@ == spec_add(objs_view(args@)),
{
    if let Some(err) = typecheck_ints("+", args) {
        return err;
    }
    proof {
        lemma_first_non_int(objs_view(args@));
    }
    let mut sum: isize = 0;
    let n = args.len();
    let mut i: usize = 0;
    proof {
        assert(objs_view(args@).skip(0) =~= objs_view(args@));
    }
    while i < n
        invariant
            i <= n,
            n == args@.len(),
            forall|j: int| 0 <= j < n ==> (#[trigger] objs_view(args@)[j]) is Integer,
            spec_fold_add(objs_view(args@).skip(i as int), sum) == spec_fold_add(
                objs_view(args@),
                0,
            ),
        decreases n - i,
    {
        proof {
            lemma_obj_view_variants(args@[i as int]);
            assert(objs_view(args@)[i as int] == spec_obj_of(args@[i as int]));
            assert(objs_view(args@).skip(i as int)[0] == objs_view(args@)[i as int]);
            assert(objs_view(args@).skip(i as int).drop_first() =~= objs_view(args@).skip(
                i as int + 1,
            ));
        }
        let v = match &args[i] {
            Object::Integer(v) => *v,
            _ => vstd::pervasive::unreached(),
        };
        sum = sum.wrapping_add(v);
        i = i + 1;
    }
    proof {
        assert(objs_view(args@).skip(n as int) =~= Seq::<SpecObject>::empty());
    }
    Object::Integer(sum)
}

/// What `-` returns: the first integer less the rest, wrapping, or an
/// error for a missing or ill-typed argument.
pub open spec fn spec_subtract(s: Seq<SpecObject>) -> SpecObject {
    match spec_first_non_int(s) {
        Some(i) => spec_int_type_error("-"@, s, i),
        None => if s.len() == 0 {
            SpecObject::Error(msg_args_len("-"@, 1, 0))
        } else {
            SpecObject::Integer(spec_fold_sub(s.drop_first(), int_of(s[0])) as int)
        },
    }
}

/// Subtracts integers from the first one.
pub fn subtract(args: &Vec<Object>) -> (r: Object)
    ensures
        r@ == spec_subtract(objs_view(args@)),
{
    if let Some(err) = typecheck_ints("-", args) {
        return err;
    }
    proof {
        lemma_first_non_int(objs_view(args@));
    }
    if args.len() == 0 {
        return new_args_len_error("-", args, 1);
    }
    proof {
        lemma_obj_view_variants(args@[0]);
        assert(objs_view(args@)[0] == spec_obj_of(args@[0]));
    }
    let mut total: isize = match &args[0] {
        Object::Integer(v) => *v,
        _ => vstd::pervasive::unreached(),
    };
    let n = args.len();
    let mut i: usize = 1;
    proof {
        assert(objs_view(args@).skip(1) =~= objs_view(args@).drop_first());
    }
    while i < n
        invariant
            1 <= i <= n,
            n == args@.len(),
            forall|j: int| 0 <= j < n ==> (#[trigger] objs_view(args@)[j]) is Integer,
            spec_fold_sub(objs_view(args@).skip(i as int), total) == spec_fold_sub(
                objs_view(args@).drop_first(),
                int_of(objs_view(args@)[0]),
            ),
        decreases n - i,
    {
        proof {
            lemma_obj_view_variants(args@[i as int]);
            assert(objs_view(args@)[i as int] == spec_obj_of(args@[i as int]));
            assert(objs_view(args@).skip(i as int)[0] == objs_view(args@)[i as int]);
            assert(objs_view(args@).skip(i as int).drop_first() =~= objs_view(args@).skip(
                i as int + 1,
            ));
        }
        let v = match &args[i] {
            Object::Integer(v) => *v,
            _ => vstd::pervasive::unreached(),
        };
        total = total.wrapping_sub(v);
        i = i + 1;
    }
    proof {
        assert(objs_view(args@).skip(n as int) =~= Seq::<SpecObject>::empty());
        assert(objs_view(args@).skip(1) =~= objs_view(args@).drop_first());
    }
    Object::Integer(total)
}

/// What `*` returns: the wrapping product chain, or an error for a
/// missing or ill-typed argument.
pub open spec fn spec_multiply(s: Seq<SpecObject>) -> SpecObject {
    match spec_first_non_int(s) {
        Some(i) => spec_int_type_error("*"@, s, i),
        None => if s.len() == 0 {
            SpecObject::Error(msg_args_len("*"@, 1, 0))
        } else {
            SpecObject::Integer(spec_fold_mul(s.drop_first(), int_of(s[0])) as int)
        },
    }
}

/// Multiplies integers.
pub fn multiply(args: &Vec<Object>) -> (r: Object)
    ensures
        r@ == spec_multiply(objs_view(args@)),
{
    if let Some(err) = typecheck_ints("*", args) {
        return err;
    }
    proof {
        lemma_first_non_int(objs_view(args@));
    }
    if args.len() == 0 {
        return new_args_len_error("*", args, 1);
    }
    proof {
        lemma_obj_view_variants(args@[0]);
        assert(objs_view(args@)[0] == spec_obj_of(args@[0]));
    }
    let mut total: isize = match &args[0] {
        Object::Integer(v) => *v,
        _ => vstd::pervasive::unreached(),
    };
    let n = args.len();
    let mut i: usize = 1;
    proof {
        assert(objs_view(args@).skip(1) =~= objs_view(args@).drop_first());
    }
    while i < n
        invariant
            1 <= i <= n,
            n == args@.len(),
            forall|j: int| 0 <= j < n ==> (#[trigger] objs_view(args@)[j]) is Integer,
            spec_fold_mul(objs_view(args@).skip(i as int), total) == spec_fold_mul(
                objs_view(args@).drop_first(),
                int_of(objs_view(args@)[0]),
            ),
        decreases n - i,
    {
        proof {
            lemma_obj_view_variants(args@[i as int]);
            assert(objs_view(args@)[i as int] == spec_obj_of(args@[i as int]));
            assert(objs_view(args@).skip(i as int)[0] == objs_view(args@)[i as int]);
            assert(objs_view(args@).skip(i as int).drop_first() =~= objs_view(args@).skip(
                i as int + 1,
            ));
        }
        let v = match &args[i] {
            Object::Integer(v) => *v,
            _ => vstd::pervasive::unreached(),
        };
        total = total.wrapping_mul(v);
        i = i + 1;
    }
    proof {
        assert(objs_view(args@).skip(n as int) =~= Seq::<SpecObject>::empty());
        assert(objs_view(args@).skip(1) =~= objs_view(args@).drop_first());
    }
    Object::Integer(total)
}

/// What `/` returns: the truncating quotient chain, a division-by-zero
/// error, or an error for a missing or ill-typed argument.
pub open spec fn spec_divide(s: Seq<SpecObject>) -> SpecObject {
    match spec_first_non_int(s) {
        Some(i) => spec_int_type_error("/"@, s, i),
        None => if s.len() == 0 {
            SpecObject::Error(msg_args_len("/"@, 1, 0))
        } else {
            match spec_fold_div(s.drop_first(), int_of(s[0])) {
                Some(q) => SpecObject::Integer(q as int),
                None => SpecObject::Error("division by zero"@),
            }
        },
    }
}

/// Divides the first integer by the rest, truncating toward zero; a zero
/// divisor yields an in-language error value.
pub fn divide(args: &Vec<Object>) -> (r: Object)
    ensures
        r@ == spec_divide(objs_view(args@)),
{
    if let Some(err) = typecheck_ints("/", args) {
        return err;
    }
    proof {
        lemma_first_non_int(objs_view(args@));
    }
    if args.len() == 0 {
        return new_args_len_error("/", args, 1);
    }
    proof {
        lemma_obj_view_variants(args@[0]);
        assert(objs_view(args@)[0] == spec_obj_of(args@[0]));
    }
    let mut total: isize = match &args[0] {
        Object::Integer(v) => *v,
        _ => vstd::pervasive::unreached(),
    };
    let n = args.len();
    let mut i: usize = 1;
    proof {
        assert(objs_view(args@).skip(1) =~= objs_view(args@).drop_first());
    }
    while i < n
        invariant
            1 <= i <= n,
            n == args@.len(),
            forall|j: int| 0 <= j < n ==> (#[trigger] objs_view(args@)[j]) is Integer,
            spec_fold_div(objs_view(args@).skip(i as int), total) == spec_fold_div(
                objs_view(args@).drop_first(),
                int_of(objs_view(args@)[0]),
            ),
        decreases n - i,
    {
        proof {
            lemma_obj_view_variants(args@[i as int]);
            assert(objs_view(args@)[i as int] == spec_obj_of(args@[i as int]));
            assert(objs_view(args@).skip(i as int)[0] == objs_view(args@)[i as int]);
            assert(objs_view(args@).skip(i as int).drop_first() =~= objs_view(args@).skip(
                i as int + 1,
            ));
        }
        let v = match &args[i] {
            Object::Integer(v) => *v,
            _ => vstd::pervasive::unreached(),
        };
        if v == 0 {
            let mut m = String::new();
            m.append("division by zero");
            proof {
                lemma_first_non_int(objs_view(args@));
                assert(m@ =~= "division by zero"@);
                assert(int_of(objs_view(args@).skip(i as int)[0]) == 0);
                assert(spec_fold_div(objs_view(args@).skip(i as int), total) is None);
            }
            return Object::Error(m);
        }
        if total == isize::MIN && v == -1 {
            total = isize::MIN;
        } else {
            total = crate::numfmt::div_isize(total, v);
        }
        i = i + 1;
    }
    proof {
        assert(objs_view(args@).skip(n as int) =~= Seq::<SpecObject>::empty());
        assert(objs_view(args@).skip(1) =~= objs_view(args@).drop_first());
    }
    Object::Integer(total)
}


/// What `%` returns: the truncating remainder, or a structured error for
/// a wrong count, a non-integer, or a zero divisor.
pub open spec fn spec_modulo(s: Seq<SpecObject>) -> SpecObject {
    if s.len() != 2 {
        SpecObject::Error(msg_args_len("mod"@, 2, s.len() as int))
    } else if !(s[0] is Integer) {
        SpecObject::Error(
            msg_type_error_with_got_and_pos("mod"@, 0, "int"@, spec_obj_type_of(s[0])),
        )
    } else if !(s[1] is Integer) {
        SpecObject::Error(
            msg_type_error_with_got_and_pos("mod"@, 1, "int"@, spec_obj_type_of(s[1])),
        )
    } else if int_of(s[1]) == 0 {
        SpecObject::Error("division by zero"@)
    } else {
        SpecObject::Integer(spec_trunc_rem(int_of(s[0]) as int, int_of(s[1]) as int))
    }
}

/// The remainder of the first integer by the second.
pub fn modulo(args: &Vec<Object>) -> (r: Object)
    ensures
        r@ == spec_modulo(objs_view(args@)),
{
    proof {
        obj_views(args@);
    }
    if args.len() != 2 {
        return new_args_len_error("mod", args, 2);
    }
    let a = match &args[0] {
        Object::Integer(v) => *v,
        _ => {
            return new_type_error_with_got_and_pos("mod", 0, "int", args[0].type_of());
        },
    };
    let b = match &args[1] {
        Object::Integer(v) => *v,
        _ => {
            return new_type_error_with_got_and_pos("mod", 1, "int", args[1].type_of());
        },
    };
    if b == 0 {
        let mut m = String::new();
        m.append("division by zero");
        proof {
            assert(m@ =~= "division by zero"@);
        }
        return Object::Error(m);
    }
    Object::Integer(crate::numfmt::rem_isize(a, b))
}

/// What `abs` returns: the magnitude, the minimum wrapping to itself, or
/// a structured error.
pub open spec fn spec_abs(s: Seq<SpecObject>) -> SpecObject {
    if s.len() != 1 {
        SpecObject::Error(msg_args_len("abs"@, 1, s.len() as int))
    } else if !(s[0] is Integer) {
        SpecObject::Error(
            msg_type_error_with_got_and_pos("abs"@, 0, "int"@, spec_obj_type_of(s[0])),
        )
    } else if int_of(s[0]) == isize::MIN {
        SpecObject::Integer(isize::MIN as int)
    } else {
        SpecObject::Integer(crate::numfmt::abs_int(int_of(s[0]) as int))
    }
}

/// The absolute value of an integer.
pub fn abs(args: &Vec<Object>) -> (r: Object)
    ensures
        r@ == spec_abs(objs_view(args@)),
{
    proof {
        obj_views(args@);
    }
    if args.len() != 1 {
        return new_args_len_error("abs", args, 1);
    }
    let a = match &args[0] {
        Object::Integer(v) => *v,
        _ => {
            return new_type_error_with_got_and_pos("abs", 0, "int", args[0].type_of());
        },
    };
    if a == isize::MIN {
        Object::Integer(isize::MIN)
    } else if a < 0 {
        Object::Integer(-a)
    } else {
        Object::Integer(a)
    }
}

/// What `parse_int` returns: the number a string spells, or an error
/// value.
pub open spec fn spec_parse_int_builtin(s: Seq<SpecObject>) -> SpecObject {
    if s.len() != 1 {
        SpecObject::Error(msg_args_len("parse_int"@, 1, s.len() as int))
    } else if !(s[0] is String) {
        SpecObject::Error(msg_type_error_with_pos("parse_int"@, "string"@, 0))
    } else {
        match crate::numfmt::spec_parse_int(s[0]->String_0) {
            Some(v) => if isize::MIN <= v <= isize::MAX {
                SpecObject::Integer(v)
            } else {
                SpecObject::Error("Could not parse int"@)
            },
            None => SpecObject::Error("Could not parse int"@),
        }
    }
}

/// Parse a string into an integer value.
pub fn parse_int(args: &Vec<Object>) -> (r: Object)
    ensures
        r@ == spec_parse_int_builtin(objs_view(args@)),
{
    proof {
        obj_views(args@);
    }
    if args.len() != 1 {
        return new_args_len_error("parse_int", args, 1);
    }
    let input = match &args[0] {
        Object::String(s) => s,
        _ => {
            return new_type_error_with_pos("parse_int", "string", 0);
        },
    };
    match crate::numfmt::parse_isize_str(input.as_str()) {
        Some(v) => Object::Integer(v),
        None => {
            let mut m = String::new();
            m.append("Could not parse int");
            proof {
                assert(m@ =~= "Could not parse int"@);
            }
            Object::Error(m)
        },
    }
}

/// What `len` returns: the length of a string in bytes or of a list in
/// elements, or a structured error.
pub open spec fn spec_len_builtin(s: Seq<SpecObject>) -> SpecObject {
    if s.len() != 1 {
        SpecObject::Error(msg_args_len("len"@, 1, s.len() as int))
    } else {
        match s[0] {
            SpecObject::String(cs) => SpecObject::Integer(
                vstd::utf8::encode_utf8(cs).len() as usize as isize as int,
            ),
            SpecObject::List(v) => SpecObject::Integer(v.len() as isize as int),
            _ => SpecObject::Error(
                msg_type_error_with_got_and_pos(
                    "len"@,
                    0,
                    "string or list"@,
                    spec_obj_type_of(s[0]),
                ),
            ),
        }
    }
}

/// The length of a string or a list.
pub fn len_builtin(args: &Vec<Object>) -> (r: Object)
    ensures
        r@ == spec_len_builtin(objs_view(args@)),
{
    proof {
        obj_views(args@);
    }
    if args.len() != 1 {
        return new_args_len_error("len", args, 1);
    }
    match &args[0] {
        Object::String(st) => {
            proof {
                assert(objs_view(args@)[0]->String_0 == st@);
            }
            Object::Integer(st.as_str().len() as isize)
        },
        Object::List(v) => {
            proof {
                assert(objs_view(args@)[0]->List_0.len() == v@.len());
            }
            Object::Integer(v.len() as isize)
        },
        _ => new_type_error_with_got_and_pos("len", 0, "string or list", args[0].type_of()),
    }
}

/// What `type` returns: the type name of the first argument, or null
/// when there is none.
pub open spec fn spec_type_builtin(s: Seq<SpecObject>) -> SpecObject {
    if s.len() == 0 {
        SpecObject::Null
    } else {
        SpecObject::String(spec_obj_type_of(s[0]))
    }
}

/// The type name of a value.
pub fn type_builtin(args: &Vec<Object>) -> (r: Object)
    ensures
        r@ == spec_type_builtin(objs_view(args@)),
{
    proof {
        obj_views(args@);
    }
    if args.len() == 0 {
        return Object::Null;
    }
    let mut m = String::new();
    m.append(args[0].type_of());
    proof {
        assert(m@ =~= spec_obj_type_of(objs_view(args@)[0]));
    }
    Object::String(m)
}

/// Whether every adjacent pair of arguments is equal in the language.
pub open spec fn spec_all_adjacent_eq(s: Seq<SpecObject>) -> bool {
    forall|i: int| 0 <= i < s.len() - 1 ==> spec_obj_eq(#[trigger] s[i], s[i + 1])
}

/// What `==` returns: whether all arguments are equal, pairwise along
/// the argument list; a single argument compares equal to nothing and
/// yields true.
pub open spec fn spec_equals_builtin(s: Seq<SpecObject>) -> SpecObject {
    if s.len() == 0 {
        SpecObject::Error(msg_args_len("=="@, 2, 0))
    } else if s.len() == 1 {
        SpecObject::Bool(true)
    } else {
        SpecObject::Bool(spec_all_adjacent_eq(s))
    }
}

/// Equality across all arguments.
pub fn equals_builtin(args: &Vec<Object>) -> (r: Object)
    ensures
        r@ == spec_equals_builtin(objs_view(args@)),
{
    proof {
        obj_views(args@);
    }
    let n = args.len();
    if n == 0 {
        return new_args_len_error("==", args, 2);
    }
    if n == 1 {
        return Object::Bool(true);
    }
    let mut i: usize = 0;
    while i < n - 1
        invariant
            i <= n - 1,
            n == args@.len(),
            n >= 2,
            forall|m: int|
                0 <= m < i ==> spec_obj_eq(
                    #[trigger] objs_view(args@)[m],
                    objs_view(args@)[m + 1],
                ),
        decreases n - i,
    {
        proof {
            obj_views(args@);
        }
        if !args[i].equals(&args[i + 1]) {
            proof {
                assert(!spec_obj_eq(objs_view(args@)[i as int], objs_view(args@)[i as int + 1]));
            }
            return Object::Bool(false);
        }
        i = i + 1;
    }
    Object::Bool(true)
}

/// What `!=` returns: whether some adjacent pair of arguments differs.
pub open spec fn spec_not_equals_builtin(s: Seq<SpecObject>) -> SpecObject {
    if s.len() == 0 {
        SpecObject::Error(msg_args_len("=="@, 2, 0))
    } else if s.len() == 1 {
        SpecObject::Bool(true)
    } else {
        SpecObject::Bool(!spec_all_adjacent_eq(s))
    }
}

/// Inequality across the argument list.
pub fn not_equals_builtin(args: &Vec<Object>) -> (r: Object)
    ensures
        r@ == spec_not_equals_builtin(objs_view(args@)),
{
    proof {
        obj_views(args@);
    }
    let n = args.len();
    if n == 0 {
        return new_args_len_error("==", args, 2);
    }
    if n == 1 {
        return Object::Bool(true);
    }
    let mut i: usize = 0;
    while i < n - 1
        invariant
            i <= n - 1,
            n == args@.len(),
            n >= 2,
            forall|m: int|
                0 <= m < i ==> spec_obj_eq(
                    #[trigger] objs_view(args@)[m],
                    objs_view(args@)[m + 1],
                ),
        decreases n - i,
    {
        proof {
            obj_views(args@);
        }
        if !args[i].equals(&args[i + 1]) {
            proof {
                assert(!spec_obj_eq(objs_view(args@)[i as int], objs_view(args@)[i as int + 1]));
            }
            return Object::Bool(true);
        }
        i = i + 1;
    }
    Object::Bool(false)
}

/// One step of the `<` chain: both integers and strictly increasing.
pub open spec fn spec_int_lt(a: SpecObject, b: SpecObject) -> bool {
    a is Integer && b is Integer && a->Integer_0 < b->Integer_0
}

/// One step of the `>` chain.
pub open spec fn spec_int_gt(a: SpecObject, b: SpecObject) -> bool {
    a is Integer && b is Integer && a->Integer_0 > b->Integer_0
}

/// What `<` returns: whether the arguments are a strictly increasing
/// chain of integers; anything not an integer breaks the chain.
pub open spec fn spec_less_than_builtin(s: Seq<SpecObject>) -> SpecObject {
    if s.len() == 0 {
        SpecObject::Error(msg_args_len("<"@, 2, 0))
    } else if s.len() == 1 {
        SpecObject::Bool(true)
    } else {
        SpecObject::Bool(
            forall|i: int| 0 <= i < s.len() - 1 ==> spec_int_lt(#[trigger] s[i], s[i + 1]),
        )
    }
}

/// Strictly-increasing comparison across the argument list.
pub fn less_than_builtin(args: &Vec<Object>) -> (r: Object)
    ensures
        r@ == spec_less_than_builtin(objs_view(args@)),
{
    proof {
        obj_views(args@);
    }
    let n = args.len();
    if n == 0 {
        return new_args_len_error("<", args, 2);
    }
    if n == 1 {
        return Object::Bool(true);
    }
    let mut i: usize = 0;
    while i < n - 1
        invariant
            i <= n - 1,
            n == args@.len(),
            n >= 2,
            forall|m: int|
                0 <= m < i ==> spec_int_lt(#[trigger] objs_view(args@)[m], objs_view(args@)[m + 1]),
        decreases n - i,
    {
        proof {
            obj_views(args@);
            lemma_obj_view_variants(args@[i as int]);
            lemma_obj_view_variants(args@[i as int + 1]);
        }
        let ok = match (&args[i], &args[i + 1]) {
            (Object::Integer(l), Object::Integer(rr)) => *l < *rr,
            _ => false,
        };
        if !ok {
            proof {
                assert(!spec_int_lt(objs_view(args@)[i as int], objs_view(args@)[i as int + 1]));
            }
            return Object::Bool(false);
        }
        i = i + 1;
    }
    Object::Bool(true)
}

/// What `>` returns: whether the arguments are a strictly decreasing
/// chain of integers.
pub open spec fn spec_greater_than_builtin(s: Seq<SpecObject>) -> SpecObject {
    if s.len() == 0 {
        SpecObject::Error(msg_args_len(">"@, 2, 0))
    } else if s.len() == 1 {
        SpecObject::Bool(true)
    } else {
        SpecObject::Bool(
            forall|i: int| 0 <= i < s.len() - 1 ==> spec_int_gt(#[trigger] s[i], s[i + 1]),
        )
    }
}

/// Strictly-decreasing comparison across the argument list.
pub fn greater_than_builtin(args: &Vec<Object>) -> (r: Object)
    ensures
        r@ == spec_greater_than_builtin(objs_view(args@)),
{
    proof {
        obj_views(args@);
    }
    let n = args.len();
    if n == 0 {
        return new_args_len_error(">", args, 2);
    }
    if n == 1 {
        return Object::Bool(true);
    }
    let mut i: usize = 0;
    while i < n - 1
        invariant
            i <= n - 1,
            n == args@.len(),
            n >= 2,
            forall|m: int|
                0 <= m < i ==> spec_int_gt(#[trigger] objs_view(args@)[m], objs_view(args@)[m + 1]),
        decreases n - i,
    {
        proof {
            obj_views(args@);
            lemma_obj_view_variants(args@[i as int]);
            lemma_obj_view_variants(args@[i as int + 1]);
        }
        let ok = match (&args[i], &args[i + 1]) {
            (Object::Integer(l), Object::Integer(rr)) => *l > *rr,
            _ => false,
        };
        if !ok {
            proof {
                assert(!spec_int_gt(objs_view(args@)[i as int], objs_view(args@)[i as int + 1]));
            }
            return Object::Bool(false);
        }
        i = i + 1;
    }
    Object::Bool(true)
}

/// Pointwise views of an argument vector, for the proofs above.
proof fn obj_views(v: Seq<Object>)
    ensures
        objs_view(v).len() == v.len(),
        forall|i: int| 0 <= i < v.len() ==> #[trigger] objs_view(v)[i] == spec_obj_of(v[i]),
{
}


/// What `nth` returns: the element at the index, or null when the index
/// falls outside the list; the index comes first, as the original
/// dispatch order had it.
pub open spec fn spec_nth(s: Seq<SpecObject>) -> SpecObject {
    if s.len() != 2 {
        SpecObject::Error(msg_args_len("nth"@, 2, s.len() as int))
    } else if !(s[0] is Integer) {
        SpecObject::Error(msg_type_error_with_pos("nth"@, "int"@, 1))
    } else if !(s[1] is List) {
        SpecObject::Error(msg_type_error_with_pos("nth"@, "list"@, 2))
    } else {
        let n = s[0]->Integer_0;
        let l = s[1]->List_0;
        if 0 <= n < l.len() {
            l[n]
        } else {
            SpecObject::Null
        }
    }
}

/// The n-th element of a list.
pub fn nth(args: &Vec<Object>) -> (r: Object)
    ensures
        r@ == spec_nth(objs_view(args@)),
{
    proof {
        obj_views(args@);
    }
    if args.len() != 2 {
        return new_args_len_error("nth", args, 2);
    }
    proof {
        lemma_obj_view_variants(args@[0]);
        lemma_obj_view_variants(args@[1]);
    }
    let n = match &args[0] {
        Object::Integer(v) => *v,
        _ => {
            return new_type_error_with_pos("nth", "int", 1);
        },
    };
    let l = match &args[1] {
        Object::List(v) => v,
        _ => {
            return new_type_error_with_pos("nth", "list", 2);
        },
    };
    if n >= 0 && (n as usize) < l.len() {
        proof {
            assert(objs_view(args@)[1]->List_0[n as int] == spec_obj_of(l@[n as int]));
        }
        l[n as usize].duplicate()
    } else {
        Object::Null
    }
}

/// What `head` returns: the first element, or null for an empty list.
pub open spec fn spec_head(s: Seq<SpecObject>) -> SpecObject {
    if s.len() != 1 {
        SpecObject::Error(msg_args_len("head"@, 1, s.len() as int))
    } else if !(s[0] is List) {
        SpecObject::Error(msg_type_error_with_pos("head"@, "list"@, 1))
    } else {
        let l = s[0]->List_0;
        if l.len() == 0 {
            SpecObject::Null
        } else {
            l[0]
        }
    }
}

/// The first element of a list.
pub fn head(args: &Vec<Object>) -> (r: Object)
    ensures
        r@ == spec_head(objs_view(args@)),
{
    proof {
        obj_views(args@);
    }
    if args.len() != 1 {
        return new_args_len_error("head", args, 1);
    }
    proof {
        lemma_obj_view_variants(args@[0]);
    }
    let l = match &args[0] {
        Object::List(v) => v,
        _ => {
            return new_type_error_with_pos("head", "list", 1);
        },
    };
    if l.len() == 0 {
        Object::Null
    } else {
        proof {
            assert(objs_view(args@)[0]->List_0[0] == spec_obj_of(l@[0]));
        }
        l[0].duplicate()
    }
}

/// What `tail` returns: everything after the first element.
pub open spec fn spec_tail(s: Seq<SpecObject>) -> SpecObject {
    if s.len() != 1 {
        SpecObject::Error(msg_args_len("tail"@, 1, s.len() as int))
    } else if !(s[0] is List) {
        SpecObject::Error(msg_type_error_with_pos("tail"@, "list"@, 1))
    } else {
        let l = s[0]->List_0;
        if l.len() == 0 {
            SpecObject::List(Seq::empty())
        } else {
            SpecObject::List(l.drop_first())
        }
    }
}

/// The tail of a list.
pub fn tail(args: &Vec<Object>) -> (r: Object)
    ensures
        r@ == spec_tail(objs_view(args@)),
{
    proof {
        obj_views(args@);
    }
    if args.len() != 1 {
        return new_args_len_error("tail", args, 1);
    }
    proof {
        lemma_obj_view_variants(args@[0]);
    }
    let l = match &args[0] {
        Object::List(v) => v,
        _ => {
            return new_type_error_with_pos("tail", "list", 1);
        },
    };
    let mut out: Vec<Object> = Vec::new();
    let n = l.len();
    let mut i: usize = 1;
    while i < n
        invariant
            n == l@.len(),
            1 <= i <= n || (n == 0 && i == 1),
            out@.len() == (if i <= n { i - 1 } else { 0 }),
            forall|m: int|
                0 <= m < out@.len() ==> #[trigger] spec_obj_of(out@[m]) == spec_obj_of(l@[m + 1]),
        decreases n - i,
    {
        out.push(l[i].duplicate());
        i = i + 1;
    }
    let ghost outv = out@;
    let r = Object::List(out);
    proof {
        let lv = objs_view(args@)[0]->List_0;
        assert forall|m: int| 0 <= m < outv.len() implies #[trigger] r@->List_0[m] == (if lv.len()
            == 0 {
            Seq::<SpecObject>::empty()
        } else {
            lv.drop_first()
        })[m] by {
            assert(r@->List_0[m] == spec_obj_of(outv[m]));
            assert(lv[m + 1] == spec_obj_of(l@[m + 1]));
        }
        assert(r@->List_0 =~= (if lv.len() == 0 {
            Seq::<SpecObject>::empty()
        } else {
            lv.drop_first()
        }));
    }
    r
}

/// The half-open element range `slice` copies: a negative start empties
/// the result; the end defaults to the list's length, is clamped into
/// the list, and may not come before the start.
pub open spec fn spec_slice_range(n: int, end_raw: Option<int>, len: int) -> (int, int) {
    if n < 0 {
        (0, 0)
    } else {
        let lo = if n < len {
            n
        } else {
            len
        };
        let e = match end_raw {
            Some(e) => e,
            None => len,
        };
        let hi = if e < 0 || e > len {
            len
        } else if e < lo {
            lo
        } else {
            e
        };
        (lo, hi)
    }
}

/// What `slice` returns: the elements of the range above, or a
/// structured error.
pub open spec fn spec_slice(s: Seq<SpecObject>) -> SpecObject {
    if s.len() != 2 && s.len() != 3 {
        SpecObject::Error(msg_args_len("slice"@, 2, s.len() as int))
    } else if !(s[0] is List) {
        SpecObject::Error(msg_type_error_with_pos("slice"@, "list"@, 0))
    } else if !(s[1] is Integer) {
        SpecObject::Error(msg_type_error_with_pos("slice"@, "int"@, 1))
    } else {
        let l = s[0]->List_0;
        let end_raw: Option<int> = if s.len() == 3 && s[2] is Integer {
            Some(s[2]->Integer_0)
        } else {
            None
        };
        let (lo, hi) = spec_slice_range(s[1]->Integer_0, end_raw, l.len() as int);
        SpecObject::List(l.subrange(lo, hi))
    }
}

/// A contiguous piece of a list.
pub fn slice(args: &Vec<Object>) -> (r: Object)
    ensures
        r@ == spec_slice(objs_view(args@)),
{
    proof {
        obj_views(args@);
    }
    if args.len() != 2 && args.len() != 3 {
        return new_args_len_error("slice", args, 2);
    }
    proof {
        lemma_obj_view_variants(args@[0]);
        lemma_obj_view_variants(args@[1]);
        if args@.len() == 3 {
            lemma_obj_view_variants(args@[2]);
        }
    }
    let l = match &args[0] {
        Object::List(v) => v,
        _ => {
            return new_type_error_with_pos("slice", "list", 0);
        },
    };
    let n = match &args[1] {
        Object::Integer(v) => *v,
        _ => {
            return new_type_error_with_pos("slice", "int", 1);
        },
    };
    let len = l.len();
    let mut lo: usize = 0;
    let mut hi: usize = 0;
    if n >= 0 {
        lo = if (n as usize) < len {
            n as usize
        } else {
            len
        };
        let mut have_end = false;
        let mut e: isize = 0;
        if args.len() == 3 {
            match &args[2] {
                Object::Integer(v) => {
                    have_end = true;
                    e = *v;
                },
                _ => {},
            }
        }
        if !have_end {
            hi = len;
        } else if e < 0 || (e as usize) > len {
            hi = len;
        } else if (e as usize) < lo {
            hi = lo;
        } else {
            hi = e as usize;
        }
    }
    let mut out: Vec<Object> = Vec::new();
    let mut i: usize = lo;
    proof {
        assert(lo <= hi <= l@.len());
    }
    while i < hi
        invariant
            lo <= i <= hi,
            hi <= l@.len(),
            out@.len() == i - lo,
            forall|m: int|
                0 <= m < out@.len() ==> #[trigger] spec_obj_of(out@[m]) == spec_obj_of(l@[m + lo]),
        decreases hi - i,
    {
        out.push(l[i].duplicate());
        i = i + 1;
    }
    let ghost outv = out@;
    let r = Object::List(out);
    proof {
        let lv = objs_view(args@)[0]->List_0;
        let pair = spec_slice_range(
            objs_view(args@)[1]->Integer_0,
            if args@.len() == 3 && objs_view(args@)[2] is Integer {
                Some(objs_view(args@)[2]->Integer_0)
            } else {
                None
            },
            lv.len() as int,
        );
        assert(pair.0 == lo as int && pair.1 == hi as int);
        assert forall|m: int| 0 <= m < outv.len() implies #[trigger] r@->List_0[m] == lv.subrange(
            lo as int,
            hi as int,
        )[m] by {
            assert(r@->List_0[m] == spec_obj_of(outv[m]));
            assert(lv[m + lo] == spec_obj_of(l@[m + lo]));
        }
        assert(r@->List_0 =~= lv.subrange(lo as int, hi as int));
    }
    r
}

/// The index of the first argument that is not a list, if any.
pub open spec fn spec_first_non_list(s: Seq<SpecObject>) -> Option<int>
    decreases s.len(),
{
    if s.len() == 0 {
        None
    } else if !(s[0] is List) {
        Some(0)
    } else {
        match spec_first_non_list(s.drop_first()) {
            None => None,
            Some(i) => Some(i + 1),
        }
    }
}

/// Every argument is a list exactly when no first offender exists.
pub proof fn lemma_first_non_list(s: Seq<SpecObject>)
    ensures
        match spec_first_non_list(s) {
            None => forall|i: int| 0 <= i < s.len() ==> (#[trigger] s[i]) is List,
            Some(i) => 0 <= i < s.len() && !(s[i] is List) && (forall|j: int|
                0 <= j < i ==> (#[trigger] s[j]) is List),
        },
    decreases s.len(),
{
    if s.len() == 0 {
    } else if !(s[0] is List) {
    } else {
        let d = s.drop_first();
        lemma_first_non_list(d);
        match spec_first_non_list(d) {
            None => {
                assert forall|i: int| 0 <= i < s.len() implies (#[trigger] s[i]) is List by {
                    if i > 0 {
                        assert(d[i - 1] == s[i]);
                    }
                }
            },
            Some(i) => {
                assert(d[i] == s[i + 1]);
                assert forall|j: int| 0 <= j < i + 1 implies (#[trigger] s[j]) is List by {
                    if j > 0 {
                        assert(d[j - 1] == s[j]);
                    }
                }
            },
        }
    }
}

/// The elements of a run of lists, joined in order.
pub open spec fn spec_concat_lists(s: Seq<SpecObject>) -> Seq<SpecObject>
    decreases s.len(),
{
    if s.len() == 0 {
        Seq::empty()
    } else {
        s[0]->List_0 + spec_concat_lists(s.drop_first())
    }
}

/// What `concat` returns: one list holding the elements of all the
/// argument lists in order, or a structured error.
pub open spec fn spec_concat(s: Seq<SpecObject>) -> SpecObject {
    if s.len() < 2 {
        SpecObject::Error(msg_args_len("concat"@, 2, s.len() as int))
    } else {
        match spec_first_non_list(s) {
            Some(i) => SpecObject::Error(
                msg_type_error_with_got("concat"@, "list"@, spec_obj_type_of(s[i])),
            ),
            None => SpecObject::List(spec_concat_lists(s)),
        }
    }
}

/// Concatenate lists.
pub fn concat(args: &Vec<Object>) -> (r: Object)
    ensures
        r@ == spec_concat(objs_view(args@)),
{
    proof {
        obj_views(args@);
        lemma_first_non_list(objs_view(args@));
    }
    if args.len() < 2 {
        return new_args_len_error("concat", args, 2);
    }
    let n = args.len();
    let mut i: usize = 0;
    while i < n
        invariant
            i <= n,
            n == args@.len(),
            n >= 2,
            forall|j: int| 0 <= j < i ==> (#[trigger] objs_view(args@)[j]) is List,
        decreases n - i,
    {
        proof {
            obj_views(args@);
            lemma_obj_view_variants(args@[i as int]);
        }
        if !matches!(&args[i], Object::List(_)) {
            let r = new_type_error_with_got("concat", "list", args[i].type_of());
            proof {
                lemma_first_non_list(objs_view(args@));
                assert(!(objs_view(args@)[i as int] is List));
                assert(spec_first_non_list(objs_view(args@)) == Some(i as int));
                assert(objs_view(args@).len() >= 2);
                assert(spec_concat(objs_view(args@)) == SpecObject::Error(
                    msg_type_error_with_got(
                        "concat"@,
                        "list"@,
                        spec_obj_type_of(objs_view(args@)[i as int]),
                    ),
                ));
                assert(r@ == spec_concat(objs_view(args@)));
            }
            return r;
        }
        i = i + 1;
    }
    proof {
        lemma_first_non_list(objs_view(args@));
    }
    let mut out: Vec<Object> = Vec::new();
    let mut i2: usize = 0;
    proof {
        assert(objs_view(args@).skip(0) =~= objs_view(args@));
        assert(objs_view(out@) =~= Seq::<SpecObject>::empty());
    }
    while i2 < n
        invariant
            i2 <= n,
            n == args@.len(),
            forall|j: int| 0 <= j < n ==> (#[trigger] objs_view(args@)[j]) is List,
            objs_view(out@) + spec_concat_lists(objs_view(args@).skip(i2 as int))
                =~= spec_concat_lists(objs_view(args@)),
        decreases n - i2,
    {
        proof {
            obj_views(args@);
            lemma_obj_view_variants(args@[i2 as int]);
            assert(objs_view(args@).skip(i2 as int)[0] == objs_view(args@)[i2 as int]);
            assert(objs_view(args@).skip(i2 as int).drop_first() =~= objs_view(args@).skip(
                i2 as int + 1,
            ));
        }
        let l = match &args[i2] {
            Object::List(v) => v,
            _ => vstd::pervasive::unreached(),
        };
        let ghost out_before = out@;
        let m = l.len();
        let mut k: usize = 0;
        while k < m
            invariant
                k <= m,
                m == l@.len(),
                out@.len() == out_before.len() + k,
                out@.take(out_before.len() as int) == out_before,
                forall|t: int|
                    0 <= t < k ==> #[trigger] spec_obj_of(out@[out_before.len() + t])
                        == spec_obj_of(l@[t]),
            decreases m - k,
        {
            out.push(l[k].duplicate());
            k = k + 1;
            proof {
                assert(out@.take(out_before.len() as int) =~= out_before);
            }
        }
        proof {
            let lv = objs_view(args@)[i2 as int]->List_0;
            let b = out_before.len() as int;
            assert(lv.len() == l@.len());
            assert forall|t: int| 0 <= t < out@.len() implies #[trigger] objs_view(out@)[t] == (
            objs_view(out_before) + lv)[t] by {
                assert(objs_view(out@)[t] == spec_obj_of(out@[t]));
                if t < b {
                    assert(out@[t] == out@.take(b)[t]);
                    assert(out@[t] == out_before[t]);
                    assert(objs_view(out_before)[t] == spec_obj_of(out_before[t]));
                } else {
                    assert(spec_obj_of(out@[out_before.len() + (t - b)]) == spec_obj_of(
                        l@[t - b],
                    ));
                    assert(out@[t] == out@[out_before.len() + (t - b)]);
                    assert(lv[t - b] == spec_obj_of(l@[t - b]));
                }
            }
            assert(objs_view(out@) =~= objs_view(out_before) + lv);
            assert(objs_view(out@) + spec_concat_lists(objs_view(args@).skip(i2 as int + 1))
                =~= spec_concat_lists(objs_view(args@)));
        }
        i2 = i2 + 1;
    }
    proof {
        assert(objs_view(args@).skip(n as int) =~= Seq::<SpecObject>::empty());
    }
    let ghost outv = out@;
    let r = Object::List(out);
    proof {
        assert forall|m: int| 0 <= m < outv.len() implies #[trigger] r@->List_0[m] == objs_view(
            outv,
        )[m] by {
            assert(r@->List_0[m] == spec_obj_of(outv[m]));
        }
        assert(r@->List_0 =~= spec_concat_lists(objs_view(args@)));
    }
    r
}


/// Deep flattening of one value: lists dissolve into their flattened
/// elements, everything else stands alone.
pub open spec fn spec_flatten_elem(o: SpecObject) -> Seq<SpecObject>
    decreases o, 1int,
{
    match o {
        SpecObject::List(v) => spec_flatten_list(v),
        _ => seq![o],
    }
}

/// Deep flattening of a list of values, in order.
pub open spec fn spec_flatten_list(v: Seq<SpecObject>) -> Seq<SpecObject>
    decreases v, 0int,
{
    if v.len() == 0 {
        Seq::empty()
    } else {
        spec_flatten_elem(v[0]) + spec_flatten_list(v.drop_first())
    }
}

/// What `flat` returns: the list flattened to any depth, or a structured
/// error.
pub open spec fn spec_flat(s: Seq<SpecObject>) -> SpecObject {
    if s.len() != 1 {
        SpecObject::Error(msg_args_len("flat"@, 1, s.len() as int))
    } else if !(s[0] is List) {
        SpecObject::Error(msg_type_error_with_pos("flat"@, "list"@, 0))
    } else {
        SpecObject::List(spec_flatten_list(s[0]->List_0))
    }
}

/// Append the deep flattening of `o` to `out`.
fn flatten_into(o: &Object, out: &mut Vec<Object>)
    ensures
        objs_view(final(out)@) == objs_view(old(out)@) + spec_flatten_elem(spec_obj_of(*o)),
    decreases o, 1int,
{
    proof {
        lemma_obj_view_variants(*o);
    }
    match o {
        Object::List(v) => {
            flatten_vec_into(v, out);
            proof {
                assert(spec_obj_of(*o)->List_0 =~= objs_view(v@));
                flatten_list_congruence(spec_obj_of(*o)->List_0, objs_view(v@));
            }
        },
        _ => {
            let ghost before = out@;
            out.push(o.duplicate());
            proof {
                assert(objs_view(out@) =~= objs_view(before) + seq![spec_obj_of(*o)]);
            }
        },
    }
}

/// Append the deep flattening of every element of `v` to `out`.
fn flatten_vec_into(v: &Vec<Object>, out: &mut Vec<Object>)
    ensures
        objs_view(final(out)@) == objs_view(old(out)@) + spec_flatten_list(objs_view(v@)),
    decreases v, 0int,
{
    let n = v.len();
    let mut i: usize = 0;
    proof {
        assert(objs_view(v@).skip(0) =~= objs_view(v@));
    }
    while i < n
        invariant
            i <= n,
            n == v@.len(),
            objs_view(out@) + spec_flatten_list(objs_view(v@).skip(i as int)) =~= objs_view(
                old(out)@,
            ) + spec_flatten_list(objs_view(v@)),
        decreases n - i,
    {
        proof {
            obj_views(v@);
            assert(objs_view(v@).skip(i as int)[0] == objs_view(v@)[i as int]);
            assert(objs_view(v@).skip(i as int).drop_first() =~= objs_view(v@).skip(i as int + 1));
        }
        flatten_into(&v[i], out);
        i = i + 1;
    }
    proof {
        assert(objs_view(v@).skip(n as int) =~= Seq::<SpecObject>::empty());
        assert(objs_view(out@) + Seq::<SpecObject>::empty() =~= objs_view(out@));
        assert(objs_view(out@) =~= objs_view(old(out)@) + spec_flatten_list(objs_view(v@)));
    }
}

/// Flattening reads only the sequence of element images.
proof fn flatten_list_congruence(a: Seq<SpecObject>, b: Seq<SpecObject>)
    requires
        a == b,
    ensures
        spec_flatten_list(a) == spec_flatten_list(b),
{
}

/// Flatten a list to any depth.
pub fn flat(args: &Vec<Object>) -> (r: Object)
    ensures
        r@ == spec_flat(objs_view(args@)),
{
    proof {
        obj_views(args@);
    }
    if args.len() != 1 {
        return new_args_len_error("flat", args, 1);
    }
    proof {
        lemma_obj_view_variants(args@[0]);
    }
    let l = match &args[0] {
        Object::List(v) => v,
        _ => {
            return new_type_error_with_pos("flat", "list", 0);
        },
    };
    let mut out: Vec<Object> = Vec::new();
    proof {
        assert(objs_view(out@) =~= Seq::<SpecObject>::empty());
    }
    flatten_vec_into(l, &mut out);
    let ghost outv = out@;
    let r = Object::List(out);
    proof {
        assert(objs_view(args@)[0]->List_0 =~= objs_view(l@));
        flatten_list_congruence(objs_view(args@)[0]->List_0, objs_view(l@));
        assert forall|m: int| 0 <= m < outv.len() implies #[trigger] r@->List_0[m] == objs_view(
            outv,
        )[m] by {
            assert(r@->List_0[m] == spec_obj_of(outv[m]));
        }
        assert(r@->List_0 =~= spec_flatten_list(objs_view(args@)[0]->List_0));
    }
    r
}

/// Stable insertion of `x` into `s`: `x` goes after every element that
/// compares no greater than it.
pub open spec fn spec_insert_sorted(x: SpecObject, s: Seq<SpecObject>) -> Seq<SpecObject>
    decreases s.len(),
{
    if s.len() > 0 && spec_obj_le(s[0], x) {
        seq![s[0]] + spec_insert_sorted(x, s.drop_first())
    } else {
        seq![x] + s
    }
}

/// Insertion sort of a value sequence, left to right: the functional
/// model of the `sort` builtin.
pub open spec fn spec_sort_objs(s: Seq<SpecObject>) -> Seq<SpecObject>
    decreases s.len(),
{
    if s.len() == 0 {
        Seq::empty()
    } else {
        spec_insert_sorted(s.last(), spec_sort_objs(s.drop_last()))
    }
}

/// What `sort` returns: the list in the order of `spec_obj_le`, equal
/// elements kept in their original order.
pub open spec fn spec_sort_builtin(s: Seq<SpecObject>) -> SpecObject {
    if s.len() != 1 {
        SpecObject::Error(msg_args_len("sort"@, 1, s.len() as int))
    } else if !(s[0] is List) {
        SpecObject::Error(msg_type_error_with_pos("sort"@, "list"@, 0))
    } else {
        SpecObject::List(spec_sort_objs(s[0]->List_0))
    }
}

/// A run of elements no greater than `x` pins the insertion point down.
proof fn lemma_insert_sorted_at(x: SpecObject, s: Seq<SpecObject>, j: int)
    requires
        0 <= j <= s.len(),
        forall|m: int| 0 <= m < j ==> spec_obj_le(#[trigger] s[m], x),
        j < s.len() ==> !spec_obj_le(s[j], x),
    ensures
        spec_insert_sorted(x, s) == s.take(j) + seq![x] + s.skip(j),
    decreases s.len(),
{
    if s.len() > 0 && spec_obj_le(s[0], x) {
        lemma_insert_sorted_at(x, s.drop_first(), j - 1);
        assert(s.drop_first().take(j - 1) =~= s.take(j).drop_first());
        assert(s.drop_first().skip(j - 1) =~= s.skip(j));
        assert(seq![s[0]] + (s.drop_first().take(j - 1) + seq![x] + s.drop_first().skip(j - 1))
            =~= s.take(j) + seq![x] + s.skip(j));
    } else {
        assert(s.take(0) =~= Seq::<SpecObject>::empty());
        assert(s.skip(0) =~= s);
        assert(seq![x] + s =~= s.take(0) + seq![x] + s.skip(0));
    }
}

/// Sort a list of values by `spec_obj_le`, per `spec_sort_objs`.
fn sort_objects(v: &Vec<Object>) -> (r: Vec<Object>)
    ensures
        objs_view(r@) == spec_sort_objs(objs_view(v@)),
{
    let mut out: Vec<Object> = Vec::new();
    let n = v.len();
    let mut i: usize = 0;
    proof {
        assert(objs_view(v@).take(0) =~= Seq::<SpecObject>::empty());
        assert(objs_view(out@) =~= Seq::<SpecObject>::empty());
    }
    while i < n
        invariant
            i <= n,
            n == v@.len(),
            objs_view(out@) == spec_sort_objs(objs_view(v@).take(i as int)),
        decreases n - i,
    {
        proof {
            obj_views(v@);
        }
        let x = v[i].duplicate();
        let m = out.len();
        let mut j: usize = 0;
        while j < m && out[j].le(&x)
            invariant
                j <= m,
                m == out@.len(),
                x@ == spec_obj_of(v@[i as int]),
                forall|t: int|
                    0 <= t < j ==> spec_obj_le(#[trigger] objs_view(out@)[t], spec_obj_of(
                        v@[i as int],
                    )),
            decreases m - j,
        {
            proof {
                obj_views(out@);
            }
            j = j + 1;
        }
        proof {
            obj_views(out@);
            if j < m {
                assert(!spec_obj_le(objs_view(out@)[j as int], spec_obj_of(v@[i as int])));
            }
            lemma_insert_sorted_at(spec_obj_of(v@[i as int]), objs_view(out@), j as int);
        }
        let ghost out_before = out@;
        out.insert(j, x);
        i = i + 1;
        proof {
            obj_views(out@);
            obj_views(out_before);
            assert(objs_view(out@) =~= objs_view(out_before).take(j as int) + seq![
                spec_obj_of(v@[i as int - 1]),
            ] + objs_view(out_before).skip(j as int)) by {
                assert forall|t: int| 0 <= t < out@.len() implies #[trigger] objs_view(out@)[t] == (
                objs_view(out_before).take(j as int) + seq![spec_obj_of(v@[i as int - 1])]
                    + objs_view(out_before).skip(j as int))[t] by {
                    if t < j {
                        assert(out@[t] == out_before[t]);
                    } else if t == j {
                    } else {
                        assert(out@[t] == out_before[t - 1]);
                    }
                }
            }
            assert(objs_view(v@).take(i as int).drop_last() =~= objs_view(v@).take(i as int - 1));
            assert(objs_view(v@).take(i as int).last() == spec_obj_of(v@[i as int - 1]));
        }
    }
    proof {
        assert(objs_view(v@).take(n as int) =~= objs_view(v@));
    }
    out
}

/// Sort a list.
pub fn sort(args: &Vec<Object>) -> (r: Object)
    ensures
        r@ == spec_sort_builtin(objs_view(args@)),
{
    proof {
        obj_views(args@);
    }
    if args.len() != 1 {
        return new_args_len_error("sort", args, 1);
    }
    proof {
        lemma_obj_view_variants(args@[0]);
    }
    let l = match &args[0] {
        Object::List(v) => v,
        _ => {
            return new_type_error_with_pos("sort", "list", 0);
        },
    };
    let out = sort_objects(l);
    let ghost outv = out@;
    let r = Object::List(out);
    proof {
        assert(objs_view(args@)[0]->List_0 =~= objs_view(l@));
        assert forall|m: int| 0 <= m < outv.len() implies #[trigger] r@->List_0[m] == objs_view(
            outv,
        )[m] by {
            assert(r@->List_0[m] == spec_obj_of(outv[m]));
        }
        assert(r@->List_0 =~= spec_sort_objs(objs_view(args@)[0]->List_0));
    }
    r
}


/// The index of the first argument that is not a string, if any.
pub open spec fn spec_first_non_string(s: Seq<SpecObject>) -> Option<int>
    decreases s.len(),
{
    if s.len() == 0 {
        None
    } else if !(s[0] is String) {
        Some(0)
    } else {
        match spec_first_non_string(s.drop_first()) {
            None => None,
            Some(i) => Some(i + 1),
        }
    }
}

/// Every argument is a string exactly when no first offender exists.
pub proof fn lemma_first_non_string(s: Seq<SpecObject>)
    ensures
        match spec_first_non_string(s) {
            None => forall|i: int| 0 <= i < s.len() ==> (#[trigger] s[i]) is String,
            Some(i) => 0 <= i < s.len() && !(s[i] is String) && (forall|j: int|
                0 <= j < i ==> (#[trigger] s[j]) is String),
        },
    decreases s.len(),
{
    if s.len() == 0 {
    } else if !(s[0] is String) {
    } else {
        let d = s.drop_first();
        lemma_first_non_string(d);
        match spec_first_non_string(d) {
            None => {
                assert forall|i: int| 0 <= i < s.len() implies (#[trigger] s[i]) is String by {
                    if i > 0 {
                        assert(d[i - 1] == s[i]);
                    }
                }
            },
            Some(i) => {
                assert(d[i] == s[i + 1]);
                assert forall|j: int| 0 <= j < i + 1 implies (#[trigger] s[j]) is String by {
                    if j > 0 {
                        assert(d[j - 1] == s[j]);
                    }
                }
            },
        }
    }
}

/// The characters of a run of strings, joined in order.
pub open spec fn spec_concat_strings(s: Seq<SpecObject>) -> Seq<char>
    decreases s.len(),
{
    if s.len() == 0 {
        Seq::empty()
    } else {
        s[0]->String_0 + spec_concat_strings(s.drop_first())
    }
}

/// What `str` returns: its arguments joined into one string, or the type
/// error for the first argument that is not one.
pub open spec fn spec_str_builtin(s: Seq<SpecObject>) -> SpecObject {
    match spec_first_non_string(s) {
        Some(i) => SpecObject::Error(
            msg_type_error_with_got_and_pos("str"@, i, "string"@, spec_obj_type_of(s[i])),
        ),
        None => SpecObject::String(spec_concat_strings(s)),
    }
}

/// Concatenate the arguments into one string.
pub fn str_builtin(args: &Vec<Object>) -> (r: Object)
    ensures
        r@ == spec_str_builtin(objs_view(args@)),
{
    proof {
        obj_views(args@);
        lemma_first_non_string(objs_view(args@));
    }
    let n = args.len();
    let mut i: usize = 0;
    while i < n
        invariant
            i <= n,
            n == args@.len(),
            forall|j: int| 0 <= j < i ==> (#[trigger] objs_view(args@)[j]) is String,
        decreases n - i,
    {
        proof {
            obj_views(args@);
            lemma_obj_view_variants(args@[i as int]);
        }
        if !matches!(&args[i], Object::String(_)) {
            let r = new_type_error_with_got_and_pos("str", i, "string", args[i].type_of());
            proof {
                lemma_first_non_string(objs_view(args@));
                assert(!(objs_view(args@)[i as int] is String));
                assert(spec_first_non_string(objs_view(args@)) == Some(i as int));
            }
            return r;
        }
        i = i + 1;
    }
    proof {
        lemma_first_non_string(objs_view(args@));
    }
    let mut out = String::new();
    let mut i2: usize = 0;
    proof {
        assert(objs_view(args@).skip(0) =~= objs_view(args@));
        assert(out@ + spec_concat_strings(objs_view(args@)) =~= spec_concat_strings(
            objs_view(args@),
        ));
    }
    while i2 < n
        invariant
            i2 <= n,
            n == args@.len(),
            forall|j: int| 0 <= j < n ==> (#[trigger] objs_view(args@)[j]) is String,
            out@ + spec_concat_strings(objs_view(args@).skip(i2 as int)) =~= spec_concat_strings(
                objs_view(args@),
            ),
        decreases n - i2,
    {
        proof {
            obj_views(args@);
            lemma_obj_view_variants(args@[i2 as int]);
            assert(objs_view(args@).skip(i2 as int)[0] == objs_view(args@)[i2 as int]);
            assert(objs_view(args@).skip(i2 as int).drop_first() =~= objs_view(args@).skip(
                i2 as int + 1,
            ));
        }
        let piece = match &args[i2] {
            Object::String(st) => st,
            _ => vstd::pervasive::unreached(),
        };
        out.append(piece.as_str());
        i2 = i2 + 1;
        proof {
            assert(out@ + spec_concat_strings(objs_view(args@).skip(i2 as int))
                =~= spec_concat_strings(objs_view(args@)));
        }
    }
    proof {
        assert(objs_view(args@).skip(n as int) =~= Seq::<SpecObject>::empty());
        assert(out@ =~= spec_concat_strings(objs_view(args@)));
    }
    Object::String(out)
}


/// Joining well-formed lists keeps every element well-formed.
pub proof fn lemma_concat_lists_wf(s: Seq<SpecObject>, n: int)
    requires
        forall|i: int| 0 <= i < s.len() ==> spec_obj_wf(#[trigger] s[i], n),
        forall|i: int| 0 <= i < s.len() ==> (#[trigger] s[i]) is List,
    ensures
        forall|i: int|
            0 <= i < spec_concat_lists(s).len() ==> spec_obj_wf(
                #[trigger] spec_concat_lists(s)[i],
                n,
            ),
    decreases s.len(),
{
    if s.len() > 0 {
        let d = s.drop_first();
        assert forall|i: int| 0 <= i < d.len() implies spec_obj_wf(#[trigger] d[i], n) && (
        #[trigger] d[i]) is List by {
            assert(d[i] == s[i + 1]);
        }
        lemma_concat_lists_wf(d, n);
        assert forall|i: int| 0 <= i < spec_concat_lists(s).len() implies spec_obj_wf(
            #[trigger] spec_concat_lists(s)[i],
            n,
        ) by {
            if i < s[0]->List_0.len() {
                if s[0] is List {
                    assert(spec_obj_wf(s[0], n));
                    assert(spec_concat_lists(s)[i] == s[0]->List_0[i]);
                }
            } else {
                assert(spec_concat_lists(s)[i] == spec_concat_lists(d)[i - s[0]->List_0.len()]);
            }
        }
    }
}

/// Flattening a well-formed value keeps every element well-formed.
pub proof fn lemma_flatten_elem_wf(o: SpecObject, n: int)
    requires
        spec_obj_wf(o, n),
    ensures
        forall|i: int|
            0 <= i < spec_flatten_elem(o).len() ==> spec_obj_wf(
                #[trigger] spec_flatten_elem(o)[i],
                n,
            ),
    decreases o, 1int,
{
    match o {
        SpecObject::List(v) => {
            lemma_flatten_list_wf(v, n);
            assert(spec_flatten_elem(o) == spec_flatten_list(v));
        },
        _ => {
            assert(spec_flatten_elem(o) == seq![o]);
            assert(spec_flatten_elem(o)[0] == o);
        },
    }
}

/// Flattening a well-formed list keeps every element well-formed.
pub proof fn lemma_flatten_list_wf(v: Seq<SpecObject>, n: int)
    requires
        forall|i: int| 0 <= i < v.len() ==> spec_obj_wf(#[trigger] v[i], n),
    ensures
        forall|i: int|
            0 <= i < spec_flatten_list(v).len() ==> spec_obj_wf(
                #[trigger] spec_flatten_list(v)[i],
                n,
            ),
    decreases v, 0int,
{
    if v.len() > 0 {
        let d = v.drop_first();
        assert forall|i: int| 0 <= i < d.len() implies spec_obj_wf(#[trigger] d[i], n) by {
            assert(d[i] == v[i + 1]);
        }
        lemma_flatten_elem_wf(v[0], n);
        lemma_flatten_list_wf(d, n);
        assert forall|i: int| 0 <= i < spec_flatten_list(v).len() implies spec_obj_wf(
            #[trigger] spec_flatten_list(v)[i],
            n,
        ) by {
            if i < spec_flatten_elem(v[0]).len() {
                assert(spec_flatten_list(v)[i] == spec_flatten_elem(v[0])[i]);
            } else {
                assert(spec_flatten_list(v)[i] == spec_flatten_list(d)[i - spec_flatten_elem(
                    v[0],
                ).len()]);
            }
        }
    }
}


/// The index of the first occurrence of `d` in `s`, if any.
pub open spec fn spec_find(s: Seq<char>, d: Seq<char>) -> Option<int>
    decreases s.len(),
{
    if d.len() == 0 {
        Some(0)
    } else if s.len() < d.len() {
        None
    } else if s.take(d.len() as int) == d {
        Some(0)
    } else {
        match spec_find(s.drop_first(), d) {
            None => None,
            Some(i) => Some(i + 1),
        }
    }
}

/// A found occurrence lies inside the string.
pub proof fn lemma_spec_find_bound(s: Seq<char>, d: Seq<char>)
    ensures
        spec_find(s, d) matches Some(i) ==> 0 <= i && i + d.len() <= s.len(),
    decreases s.len(),
{
    if d.len() > 0 && s.len() >= d.len() && !(s.take(d.len() as int) == d) {
        lemma_spec_find_bound(s.drop_first(), d);
    }
}

/// No match before `k` and a match at `k` pin the first occurrence.
pub proof fn lemma_spec_find_at(s: Seq<char>, d: Seq<char>, k: int)
    requires
        0 <= k,
        k + d.len() <= s.len(),
        forall|m: int| 0 <= m < k ==> #[trigger] s.subrange(m, m + d.len() as int) != d,
        s.subrange(k, k + d.len() as int) == d,
    ensures
        spec_find(s, d) == Some(k),
    decreases s.len(),
{
    if d.len() == 0 {
        if k > 0 {
            assert(d =~= Seq::<char>::empty());
            assert(s.subrange(0, 0 + d.len() as int) =~= d);
            assert(false);
        }
        return ;
    }
    assert(s.take(d.len() as int) =~= s.subrange(0, d.len() as int));
    if k == 0 {
    } else {
        assert(s.subrange(0, 0 + d.len() as int) != d);
        assert(s.subrange(0, d.len() as int) != d);
        let t = s.drop_first();
        assert forall|m: int| 0 <= m < k - 1 implies #[trigger] t.subrange(m, m + d.len() as int)
            != d by {
            assert(t.subrange(m, m + d.len() as int) =~= s.subrange(m + 1, m + 1 + d.len() as int));
        }
        assert(t.subrange(k - 1, k - 1 + d.len() as int) =~= s.subrange(k, k + d.len() as int));
        lemma_spec_find_at(t, d, k - 1);
    }
}

/// No match anywhere means no occurrence.
pub proof fn lemma_spec_find_none(s: Seq<char>, d: Seq<char>)
    requires
        forall|m: int|
            0 <= m && m + d.len() <= s.len() ==> #[trigger] s.subrange(m, m + d.len() as int)
                != d,
    ensures
        spec_find(s, d) is None,
    decreases s.len(),
{
    if d.len() == 0 {
        assert(d =~= Seq::<char>::empty());
        assert(s.subrange(0, 0 + d.len() as int) =~= d);
        assert(false);
    } else if s.len() >= d.len() {
        assert(s.subrange(0, 0 + d.len() as int) != d);
        assert(s.take(d.len() as int) =~= s.subrange(0, d.len() as int));
        let t = s.drop_first();
        assert forall|m: int| 0 <= m && m + d.len() <= t.len() implies #[trigger] t.subrange(
            m,
            m + d.len() as int,
        ) != d by {
            assert(t.subrange(m, m + d.len() as int) =~= s.subrange(m + 1, m + 1 + d.len() as int));
        }
        lemma_spec_find_none(t, d);
    }
}

/// The pieces of `s` split by a non-empty delimiter, left to right; a
/// delimiter at the edge leaves an empty piece there.
pub open spec fn spec_split_pieces(s: Seq<char>, d: Seq<char>) -> Seq<Seq<char>>
    decreases s.len(),
    via spec_split_pieces_decreases
{
    if d.len() == 0 {
        seq![s]
    } else {
        match spec_find(s, d) {
            None => seq![s],
            Some(i) => seq![s.take(i)] + spec_split_pieces(s.skip(i + d.len() as int), d),
        }
    }
}

#[via_fn]
proof fn spec_split_pieces_decreases(s: Seq<char>, d: Seq<char>) {
    lemma_spec_find_bound(s, d);
}

/// The pieces of `s` split by the empty delimiter: every code point on
/// its own, an empty piece at each edge.
pub open spec fn spec_split_empty(s: Seq<char>) -> Seq<Seq<char>> {
    Seq::new(
        s.len() + 2,
        |i: int|
            if i == 0 || i == s.len() + 1 {
                Seq::empty()
            } else {
                seq![s[i - 1]]
            },
    )
}

/// The split pieces as string values.
pub open spec fn strings_of(pieces: Seq<Seq<char>>) -> Seq<SpecObject> {
    pieces.map_values(|p: Seq<char>| SpecObject::String(p))
}

/// Turning pieces into string values distributes over joining one on.
proof fn lemma_strings_of_cons(p: Seq<char>, rest: Seq<Seq<char>>)
    ensures
        strings_of(seq![p] + rest) == seq![SpecObject::String(p)] + strings_of(rest),
{
    assert(strings_of(seq![p] + rest) =~= seq![SpecObject::String(p)] + strings_of(rest));
}

/// What `split` returns: the pieces of the first string around the
/// second, or a structured error.
pub open spec fn spec_split_builtin(s: Seq<SpecObject>) -> SpecObject {
    if s.len() != 2 {
        SpecObject::Error(msg_args_len("split"@, 2, s.len() as int))
    } else if !(s[0] is String) {
        SpecObject::Error(msg_type_error_with_pos("split"@, "string"@, 0))
    } else if !(s[1] is String) {
        SpecObject::Error(msg_type_error_with_pos("split"@, "string"@, 1))
    } else if s[1]->String_0.len() == 0 {
        SpecObject::List(strings_of(spec_split_empty(s[0]->String_0)))
    } else {
        SpecObject::List(strings_of(spec_split_pieces(s[0]->String_0, s[1]->String_0)))
    }
}

/// Whether `d` stands at position `q` of `s`.
fn match_at(s: &str, q: usize, d: &str) -> (r: bool)
    requires
        q + d@.len() <= s@.len(),
        s@.len() <= usize::MAX,
    ensures
        r == (s@.subrange(q as int, q + d@.len()) == d@),
{
    let dl = d.unicode_len();
    let mut i: usize = 0;
    while i < dl
        invariant
            i <= dl,
            dl == d@.len(),
            q + dl <= s@.len(),
            s@.len() <= usize::MAX,
            forall|m: int| 0 <= m < i ==> s@[q + m] == d@[m],
        decreases dl - i,
    {
        if s.get_char(q + i) != d.get_char(i) {
            proof {
                assert(s@.subrange(q as int, q + d@.len())[i as int] == s@[q + i]);
                assert(s@.subrange(q as int, q + d@.len()) != d@);
            }
            return false;
        }
        i = i + 1;
    }
    proof {
        assert(s@.subrange(q as int, q + d@.len()) =~= d@);
    }
    true
}

/// Split the first string around the second.
pub fn split(args: &Vec<Object>) -> (r: Object)
    ensures
        r@ == spec_split_builtin(objs_view(args@)),
{
    proof {
        obj_views(args@);
    }
    if args.len() != 2 {
        return new_args_len_error("split", args, 2);
    }
    proof {
        lemma_obj_view_variants(args@[0]);
        lemma_obj_view_variants(args@[1]);
    }
    let input = match &args[0] {
        Object::String(st) => st,
        _ => {
            return new_type_error_with_pos("split", "string", 0);
        },
    };
    let delim = match &args[1] {
        Object::String(st) => st,
        _ => {
            return new_type_error_with_pos("split", "string", 1);
        },
    };
    let s = input.as_str();
    let d = delim.as_str();
    let n = s.unicode_len();
    let dl = d.unicode_len();
    let mut out: Vec<Object> = Vec::new();
    if dl == 0 {
        out.push(Object::String(String::new()));
        let mut i: usize = 0;
        while i < n
            invariant
                i <= n,
                n == s@.len(),
                out@.len() == i + 1,
                forall|m: int|
                    0 <= m < i + 1 ==> #[trigger] spec_obj_of(out@[m]) == strings_of(
                        spec_split_empty(s@),
                    )[m],
            decreases n - i,
        {
            let piece = s.substring_char(i, i + 1).to_owned();
            proof {
                assert(piece@ =~= seq![s@[i as int]]);
            }
            out.push(Object::String(piece));
            i = i + 1;
        }
        out.push(Object::String(String::new()));
        let ghost outv = out@;
        let r = Object::List(out);
        proof {
            assert forall|m: int| 0 <= m < outv.len() implies #[trigger] r@->List_0[m]
                == strings_of(spec_split_empty(s@))[m] by {
                assert(r@->List_0[m] == spec_obj_of(outv[m]));
            }
            assert(r@->List_0 =~= strings_of(spec_split_empty(s@)));
        }
        return r;
    }
    let mut p: usize = 0;
    let ghost target = strings_of(spec_split_pieces(s@, d@));
    proof {
        assert(s@.skip(0) =~= s@);
        assert(objs_view(out@) + strings_of(spec_split_pieces(s@.skip(0), d@)) =~= target);
    }
    loop
        invariant_except_break
            p <= n,
            n == s@.len(),
            dl == d@.len(),
            dl >= 1,
            objs_view(out@) + strings_of(spec_split_pieces(s@.skip(p as int), d@)) =~= target,
            target == strings_of(spec_split_pieces(s@, d@)),
        ensures
            objs_view(out@) =~= target,
        decreases n - p + 1,
    {
        // find the next occurrence of the delimiter at or after p
        let mut q: usize = p;
        let mut found = false;
        if dl <= n && p <= n - dl {
            while q <= n - dl && !found
                invariant
                    p <= q,
                    q <= n - dl + 1,
                    dl <= n,
                    n == s@.len(),
                    dl == d@.len(),
                    dl >= 1,
                    forall|m: int|
                        0 <= m < q - p ==> #[trigger] s@.skip(p as int).subrange(m, m + dl as int)
                            != d@,
                    found ==> q + dl <= n && s@.subrange(q as int, q + dl as int) == d@,
                decreases n - dl - q + 1, (if found { 0int } else { 1int }),
            {
                if match_at(s, q, d) {
                    found = true;
                } else {
                    proof {
                        assert(s@.skip(p as int).subrange(q - p, q - p + dl) =~= s@.subrange(
                            q as int,
                            q + dl as int,
                        ));
                    }
                    q = q + 1;
                }
            }
        }
        let ghost rest = s@.skip(p as int);
        if found {
            proof {
                assert(rest.subrange(q - p, q - p + dl as int) =~= s@.subrange(
                    q as int,
                    q + dl as int,
                ));
                lemma_spec_find_at(rest, d@, q - p);
                assert(spec_split_pieces(rest, d@) == seq![rest.take(q - p)]
                    + spec_split_pieces(rest.skip(q - p + dl as int), d@));
            }
            let piece = s.substring_char(p, q).to_owned();
            proof {
                assert(piece@ =~= rest.take(q - p));
                assert(rest.skip(q - p + dl as int) =~= s@.skip(q + dl));
                lemma_strings_of_cons(
                    rest.take(q - p),
                    spec_split_pieces(s@.skip(q + dl), d@),
                );
            }
            let ghost out_before = out@;
            out.push(Object::String(piece));
            proof {
                assert(objs_view(out@) =~= objs_view(out_before) + seq![
                    SpecObject::String(rest.take(q - p)),
                ]);
                assert(objs_view(out@) + strings_of(spec_split_pieces(s@.skip(q + dl), d@))
                    =~= target);
            }
            p = q + dl;
            proof {
                assert(objs_view(out@) + strings_of(
                    spec_split_pieces(s@.skip(p as int), d@),
                ) =~= target);
            }
        } else {
            proof {
                if dl <= n && p <= n - dl {
                    assert(q == n - dl + 1);
                    assert forall|m: int|
                        0 <= m && m + dl <= rest.len() implies #[trigger] rest.subrange(
                        m,
                        m + dl as int,
                    ) != d@ by {
                        assert(0 <= m < q - p);
                        assert(s@.skip(p as int).subrange(m, m + dl as int) != d@);
                        assert(rest.subrange(m, m + dl as int) == s@.skip(p as int).subrange(
                            m,
                            m + dl as int,
                        ));
                    }
                } else {
                    assert(rest.len() < dl);
                }
                lemma_spec_find_none(rest, d@);
                assert(spec_split_pieces(rest, d@) == seq![rest]);
                assert(strings_of(seq![rest]) =~= seq![SpecObject::String(rest)]);
                assert(strings_of(spec_split_pieces(s@.skip(p as int), d@)) == seq![
                    SpecObject::String(rest),
                ]);
                assert(objs_view(out@) + seq![SpecObject::String(rest)] =~= target);
            }
            let piece = s.substring_char(p, n).to_owned();
            proof {
                assert(piece@ =~= rest);
            }
            let ghost out_before = out@;
            out.push(Object::String(piece));
            proof {
                assert(objs_view(out@) =~= objs_view(out_before) + seq![
                    SpecObject::String(rest),
                ]);
                assert(objs_view(out@) =~= target);
            }
            break ;
        }
    }
    let ghost outv = out@;
    let r = Object::List(out);
    proof {
        assert forall|m: int| 0 <= m < outv.len() implies #[trigger] r@->List_0[m] == objs_view(
            outv,
        )[m] by {
            assert(r@->List_0[m] == spec_obj_of(outv[m]));
        }
        assert(r@->List_0 =~= strings_of(spec_split_pieces(s@, d@)));
    }
    r
}

/// One line: the piece without a trailing carriage return, kept as the
/// standard line iteration strips it.
pub open spec fn strip_cr(p: Seq<char>) -> Seq<char> {
    if p.len() > 0 && p.last() == '\r' {
        p.drop_last()
    } else {
        p
    }
}

/// The lines of a string: the pieces around each line feed, without a
/// final empty piece when the text ends in one; a piece that was closed
/// by a line feed loses a trailing carriage return, the unterminated
/// final piece keeps its characters.
pub open spec fn spec_lines_of(s: Seq<char>) -> Seq<Seq<char>> {
    if s.len() == 0 {
        Seq::empty()
    } else {
        let pieces = spec_split_pieces(s, seq!['\n']);
        let trimmed = if s.last() == '\n' {
            pieces.drop_last()
        } else {
            pieces
        };
        Seq::new(
            trimmed.len(),
            |i: int|
                if s.last() == '\n' || i < trimmed.len() - 1 {
                    strip_cr(trimmed[i])
                } else {
                    trimmed[i]
                },
        )
    }
}

/// What `lines` returns: the lines of a string, or a structured error.
pub open spec fn spec_lines_builtin(s: Seq<SpecObject>) -> SpecObject {
    if s.len() != 1 {
        SpecObject::Error(msg_args_len("lines"@, 1, s.len() as int))
    } else if !(s[0] is String) {
        SpecObject::Error(msg_type_error_with_got("lines"@, "string"@, spec_obj_type_of(s[0])))
    } else {
        SpecObject::List(strings_of(spec_lines_of(s[0]->String_0)))
    }
}

/// Split a string into its lines.
pub fn lines(args: &Vec<Object>) -> (r: Object)
    ensures
        r@ == spec_lines_builtin(objs_view(args@)),
{
    proof {
        obj_views(args@);
    }
    if args.len() != 1 {
        return new_args_len_error("lines", args, 1);
    }
    proof {
        lemma_obj_view_variants(args@[0]);
    }
    let input = match &args[0] {
        Object::String(st) => st,
        _ => {
            return new_type_error_with_got("lines", "string", args[0].type_of());
        },
    };
    let mut two: Vec<Object> = Vec::new();
    two.push(Object::String(input.clone()));
    let mut nl = String::new();
    nl.append("\n");
    proof {
        reveal_strlit("\n");
        assert(nl@ =~= seq!['\n']);
    }
    two.push(Object::String(nl));
    let pieces_obj = split(&two);
    let ghost sv = objs_view(args@)[0]->String_0;
    let ghost raw = spec_split_pieces(sv, seq!['\n']);
    let ghost pv = spec_obj_of(pieces_obj);
    proof {
        assert(objs_view(two@)[0] == spec_obj_of(two@[0]));
        assert(objs_view(two@)[1] == spec_obj_of(two@[1]));
        assert(objs_view(two@).len() == 2);
        assert(spec_obj_of(two@[0]) == SpecObject::String(sv));
        assert(spec_obj_of(two@[1]) == SpecObject::String(seq!['\n']));
        assert(pv == SpecObject::List(strings_of(raw)));
        lemma_obj_view_variants(pieces_obj);
    }
    let pieces = match pieces_obj {
        Object::List(v) => v,
        _ => vstd::pervasive::unreached(),
    };
    proof {
        assert(pv->List_0 == strings_of(raw));
        assert(pieces@.len() == raw.len());
        assert forall|m: int| 0 <= m < pieces@.len() implies #[trigger] spec_obj_of(pieces@[m])
            == SpecObject::String(raw[m]) by {
            assert(pv->List_0[m] == spec_obj_of(pieces@[m]));
            assert(strings_of(raw)[m] == SpecObject::String(raw[m]));
        }
    }
    let n = input.as_str().unicode_len();
    if n == 0 {
        let r = Object::List(Vec::new());
        proof {
            assert(r@->List_0 =~= strings_of(spec_lines_of(sv)));
        }
        return r;
    }
    proof {
        lemma_split_pieces_len(sv, seq!['\n']);
    }
    let mut count = pieces.len();
    let ends_nl = input.as_str().get_char(n - 1) == '\n';
    if ends_nl {
        proof {
            assert(sv.last() == '\n');
        }
        count = count - 1;
    }
    let mut out: Vec<Object> = Vec::new();
    let mut i: usize = 0;
    while i < count
        invariant
            i <= count,
            count <= pieces@.len(),
            pieces@.len() == raw.len(),
            raw == spec_split_pieces(sv, seq!['\n']),
            sv.len() > 0,
            ends_nl == (sv.last() == '\n'),
            ends_nl ==> count == pieces@.len() - 1,
            !ends_nl ==> count == pieces@.len(),
            forall|m: int|
                0 <= m < pieces@.len() ==> #[trigger] spec_obj_of(pieces@[m])
                    == SpecObject::String(raw[m]),
            out@.len() == i,
            forall|m: int|
                0 <= m < i ==> #[trigger] spec_obj_of(out@[m]) == SpecObject::String(
                    if ends_nl || m < count - 1 {
                        strip_cr(raw[m])
                    } else {
                        raw[m]
                    },
                ),
        decreases count - i,
    {
        proof {
            lemma_obj_view_variants(pieces@[i as int]);
            assert(spec_obj_of(pieces@[i as int]) == SpecObject::String(raw[i as int]));
        }
        let piece = match &pieces[i] {
            Object::String(st) => st,
            _ => vstd::pervasive::unreached(),
        };
        proof {
            assert(piece@ == raw[i as int]);
        }
        let pl = piece.as_str().unicode_len();
        if (ends_nl || i < count - 1) && pl > 0 && piece.as_str().get_char(pl - 1) == '\r' {
            let stripped = piece.as_str().substring_char(0, pl - 1).to_owned();
            proof {
                assert(stripped@ =~= piece@.drop_last());
                assert(strip_cr(raw[i as int]) == piece@.drop_last());
            }
            out.push(Object::String(stripped));
        } else {
            proof {
                if ends_nl || i < count - 1 {
                    assert(strip_cr(raw[i as int]) == piece@);
                }
            }
            out.push(Object::String(piece.clone()));
        }
        i = i + 1;
    }
    let ghost outv = out@;
    let r = Object::List(out);
    proof {
        let want = strings_of(spec_lines_of(sv));
        assert(want.len() == count);
        assert forall|m: int| 0 <= m < outv.len() implies #[trigger] r@->List_0[m] == want[m] by {
            assert(r@->List_0[m] == spec_obj_of(outv[m]));
            if sv.last() == '\n' {
                assert(raw.drop_last()[m] == raw[m]);
            }
        }
        assert(r@->List_0 =~= want);
    }
    r
}

/// A split has at least one piece.
pub proof fn lemma_split_pieces_len(s: Seq<char>, d: Seq<char>)
    ensures
        spec_split_pieces(s, d).len() >= 1,
{
    lemma_spec_find_bound(s, d);
}

} // verus!
