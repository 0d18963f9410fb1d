//! Native procedures: the fixed, closed registry of built-in operations
//! that the VM's `Call` instruction can invoke. Addition takes exactly two
//! numbers; printing takes one value, emits it, and returns the
//! end-of-file sentinel.
use vstd::prelude::*;
use vstd::string::*;
use crate::value::{opt_val_view, vals_view, Value, ValueView};
use crate::vm::{VmError, VmErrorView};

verus! {

/// A built-in procedure.
#[derive(Debug, PartialEq, Eq, Clone, Copy, Structural)]
pub enum NativeFn {
    Add,
    Print,
}

/// The registry: `+` adds, `display` prints; no other name is native.
pub open spec fn native_of(name: Seq<char>) -> Option<NativeFn> {
    if name == seq!['+'] {
        Some(NativeFn::Add)
    } else if name == seq!['d', 'i', 's', 'p', 'l', 'a', 'y'] {
        Some(NativeFn::Print)
    } else {
        None
    }
}

/// What a native call yields: the result value and the value it prints,
/// if it prints one. Addition wants exactly two numbers whose sum fits;
/// anything else is a type or arity mismatch. Printing wants exactly one
/// value, emits it, and results in `Eof`.
pub open spec fn spec_native(f: NativeFn, args: Seq<ValueView>) -> Result<
    (ValueView, Option<ValueView>),
    VmErrorView,
> {
    match f {
        NativeFn::Add => {
            if args.len() != 2 {
                Err(VmErrorView::ArityMismatch)
            } else {
                match (args[0], args[1]) {
                    (ValueView::Number(a), ValueView::Number(b)) => {
                        if a + b <= usize::MAX {
                            Ok((ValueView::Number((a + b) as usize), None))
                        } else {
                            Err(VmErrorView::TypeMismatch)
                        }
                    },
                    _ => Err(VmErrorView::TypeMismatch),
                }
            }
        },
        NativeFn::Print => {
            if args.len() != 1 {
                Err(VmErrorView::ArityMismatch)
            } else {
                Ok((ValueView::Eof, Some(args[0])))
            }
        },
    }
}

/// Resolves a name against the registry, matching [`native_of`].
pub fn lookup_native(name: &String) -> (r: Option<NativeFn>)
    ensures
        r == native_of(name@),
{
    let s = name.as_str();
    let n = s.unicode_len();
    if n == 1 && s.get_char(0) == '+' {
        proof {
            assert(name@ =~= seq!['+']);
        }
        Some(NativeFn::Add)
    } else if n == 7 && s.get_char(0) == 'd' && s.get_char(1) == 'i' && s.get_char(2) == 's'
        && s.get_char(3) == 'p' && s.get_char(4) == 'l' && s.get_char(5) == 'a' && s.get_char(6)
        == 'y' {
        proof {
            assert(name@ =~= seq!['d', 'i', 's', 'p', 'l', 'a', 'y']);
        }
        Some(NativeFn::Print)
    } else {
        proof {
            if name@ == seq!['+'] {
                assert(name@.len() == 1 && name@[0] == '+');
            }
            if name@ == seq!['d', 'i', 's', 'p', 'l', 'a', 'y'] {
                assert(name@.len() == 7 && name@[0] == 'd');
            }
        }
        None
    }
}

/// Runs a native procedure on its popped arguments, returning the result
/// value and the printed value if the procedure prints; exactly what
/// [`spec_native`] says, including every failure.
pub fn execute_native(func: NativeFn, args: &Vec<Value>) -> (r: Result<
    (Value, Option<Value>),
    VmError,
>)
    ensures
        ({
            let m = spec_native(func, vals_view(args@));
            match r {
                Ok(p) => m == Ok::<(ValueView, Option<ValueView>), VmErrorView>(
                    (p.0@, opt_val_view(p.1)),
                ),
                Err(e) => m == Err::<(ValueView, Option<ValueView>), VmErrorView>(e@),
            }
        }),
{
    match func {
        NativeFn::Add => {
            if args.len() != 2 {
                return Err(VmError::ArityMismatch);
            }
            let a = match &args[0] {
                Value::Number(a) => *a,
                _ => {
                    return Err(VmError::TypeMismatch);
                },
            };
            let b = match &args[1] {
                Value::Number(b) => *b,
                _ => {
                    return Err(VmError::TypeMismatch);
                },
            };
            match a.checked_add(b) {
                Some(v) => Ok((Value::Number(v), None)),
                None => Err(VmError::TypeMismatch),
            }
        },
        NativeFn::Print => {
            if args.len() != 1 {
                return Err(VmError::ArityMismatch);
            }
            Ok((Value::Eof, Some(args[0].clone())))
        },
    }
}

} // verus!
