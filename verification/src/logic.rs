//! The language logic: the builtin function table and its dispatch.

use vstd::prelude::*;
use vstd::string::StringExecFns;

use crate::text::{ci_char, ci_eq, matches_ci, trim_bounds, trimmed};
use crate::tree::{Token, TokenExpression, TokenView};

verus! {

/// A failure of bottom-up evaluation.  Every variant names the
/// `(depth, index)` coordinate of the failing expression, so that the
/// caller can locate it in the tree.
#[derive(Debug, PartialEq, Eq, Structural, Clone, Copy)]
pub enum EvalError {
    /// The expression's keyword is absent or not in the builtin table.
    UnknownFunction {
        /// Depth of the failing expression.
        depth: usize,
        /// Its ordinal among the expressions of its depth.
        index: usize,
    },
    /// A builtin received an argument of the wrong kind, or an
    /// expression reference that was never resolved.
    InvalidArgument {
        /// Depth of the failing expression.
        depth: usize,
        /// Its ordinal among the expressions of its depth.
        index: usize,
    },
    /// The keyword names a builtin that is declared but not built.
    NotImplemented {
        /// Depth of the failing expression.
        depth: usize,
        /// Its ordinal among the expressions of its depth.
        index: usize,
    },
}

/// The depth an evaluation failure points at.
pub open spec fn err_depth(e: EvalError) -> int {
    match e {
        EvalError::UnknownFunction { depth, .. } => depth as int,
        EvalError::InvalidArgument { depth, .. } => depth as int,
        EvalError::NotImplemented { depth, .. } => depth as int,
    }
}

/// The index an evaluation failure points at.
pub open spec fn err_index(e: EvalError) -> int {
    match e {
        EvalError::UnknownFunction { index, .. } => index as int,
        EvalError::InvalidArgument { index, .. } => index as int,
        EvalError::NotImplemented { index, .. } => index as int,
    }
}

/// The builtin functions of the language.
#[derive(Debug, PartialEq, Eq, Structural, Clone, Copy)]
pub enum BuiltinFuncs {
    /// Renders its arguments; a placeholder in this library, where
    /// side-effecting output is left to the embedding application.
    Print,
    /// Fold-sum over numeric arguments.
    Add,
    /// Declared but not built.
    Substract,
    /// Declared but not built.
    Multiply,
    /// Declared but not built.
    Divide,
}

/// The word naming the print builtin.
pub open spec fn print_word() -> Seq<char> {
    seq!['p', 'r', 'i', 'n', 't']
}

/// The placeholder literal the print builtin yields; rendering proper
/// is a capability the embedding application supplies.
pub open spec fn print_placeholder() -> Seq<char> {
    "TODO"@
}

/// The builtin named by an operator word: the word is trimmed of ASCII
/// whitespace and matched without regard to ASCII case.
pub open spec fn builtin_of(name: Seq<char>) -> Option<BuiltinFuncs> {
    let t = trimmed(name);
    if matches_ci(t, print_word()) {
        Some(BuiltinFuncs::Print)
    } else if matches_ci(t, seq!['+']) {
        Some(BuiltinFuncs::Add)
    } else if matches_ci(t, seq!['-']) {
        Some(BuiltinFuncs::Substract)
    } else if matches_ci(t, seq!['*']) {
        Some(BuiltinFuncs::Multiply)
    } else if matches_ci(t, seq!['/']) {
        Some(BuiltinFuncs::Divide)
    } else {
        None
    }
}

/// The builtin a keyword token resolves to: only a variable token can
/// name a builtin.
pub open spec fn token_builtin(t: TokenView) -> Option<BuiltinFuncs> {
    match t {
        TokenView::Variable(name) => builtin_of(name),
        _ => None,
    }
}

impl BuiltinFuncs {
    /// Tries to match the passed token to a builtin function.
    pub fn try_from(value: &Token) -> (r: Result<BuiltinFuncs, &'static str>)
        ensures
            r is Ok <==> token_builtin(value@) is Some,
            r matches Ok(b) ==> token_builtin(value@) == Some(b),
    {
        match value {
            Token::Variable(name) => {
                let cs = crate::text::chars_vec(name.as_str());
                let (lo, hi) = trim_bounds(&cs);
                let ghost t = trimmed(name@);
                let n = hi - lo;
                if n == 5 && ci_char(cs[lo], 'p') && ci_char(cs[lo + 1], 'r') && ci_char(
                    cs[lo + 2],
                    'i',
                ) && ci_char(cs[lo + 3], 'n') && ci_char(cs[lo + 4], 't') {
                    proof {
                        assert forall|i: int| 0 <= i < t.len() implies ci_eq(
                            t[i],
                            print_word()[i],
                        ) by {
                            assert(t[i] == cs@[lo + i]);
                        }
                    }
                    Ok(BuiltinFuncs::Print)
                } else if n == 1 && ci_char(cs[lo], '+') {
                    proof {
                        assert(t[0] == cs@[lo as int]);
                    }
                    Ok(BuiltinFuncs::Add)
                } else if n == 1 && ci_char(cs[lo], '-') {
                    proof {
                        assert(t[0] == cs@[lo as int]);
                    }
                    Ok(BuiltinFuncs::Substract)
                } else if n == 1 && ci_char(cs[lo], '*') {
                    proof {
                        assert(t[0] == cs@[lo as int]);
                    }
                    Ok(BuiltinFuncs::Multiply)
                } else if n == 1 && ci_char(cs[lo], '/') {
                    proof {
                        assert(t[0] == cs@[lo as int]);
                    }
                    Ok(BuiltinFuncs::Divide)
                } else {
                    proof {
                        if matches_ci(t, print_word()) {
                            assert(cs@[lo as int] == t[0]);
                            assert(cs@[lo + 1] == t[1]);
                            assert(cs@[lo + 2] == t[2]);
                            assert(cs@[lo + 3] == t[3]);
                            assert(cs@[lo + 4] == t[4]);
                        }
                        if matches_ci(t, seq!['+']) || matches_ci(t, seq!['-']) || matches_ci(
                            t,
                            seq!['*'],
                        ) || matches_ci(t, seq!['/']) {
                            assert(cs@[lo as int] == t[0]);
                        }
                    }
                    Err("Unknown function passed.")
                }
            },
            _ => Err("Unknown function passed."),
        }
    }
}

/// Addition on 64-bit signed values that clamps at the type's bounds.
pub open spec fn sat_add_i64(a: int, b: int) -> int {
    if a + b > 0x7fff_ffff_ffff_ffff {
        0x7fff_ffff_ffff_ffff
    } else if a + b < -0x8000_0000_0000_0000 {
        -0x8000_0000_0000_0000
    } else {
        a + b
    }
}

/// The numeric value a token contributes to a sum.
pub open spec fn token_num(t: TokenView) -> int {
    match t {
        TokenView::Number(n) => n,
        _ => 0,
    }
}

/// Whether every argument is a numeric token.
pub open spec fn all_numbers(args: Seq<TokenView>) -> bool {
    forall|i: int| 0 <= i < args.len() ==> (#[trigger] args[i]) is Number
}

/// Left fold of the arguments under clamping addition, starting at zero.
pub open spec fn sum_args(args: Seq<TokenView>) -> int
    decreases args.len(),
{
    if args.len() == 0 {
        0
    } else {
        sat_add_i64(sum_args(args.drop_last()), token_num(args.last()))
    }
}

/// What dispatching one expression yields: the keyword must be a
/// variable token naming a builtin; addition folds its arguments, which
/// must all be numbers; printing yields a placeholder literal; the
/// remaining builtins are declared but not built.
pub open spec fn exec_view(e: crate::tree::ExprView) -> Result<TokenView, EvalError> {
    match e.keyword {
        None => Err(
            EvalError::UnknownFunction { depth: e.depth as usize, index: e.index as usize },
        ),
        Some(kw) => match token_builtin(kw) {
            None => Err(
                EvalError::UnknownFunction { depth: e.depth as usize, index: e.index as usize },
            ),
            Some(BuiltinFuncs::Print) => Ok(TokenView::Literal(print_placeholder())),
            Some(BuiltinFuncs::Add) => if all_numbers(e.args) {
                Ok(TokenView::Number(sum_args(e.args)))
            } else {
                Err(
                    EvalError::InvalidArgument {
                        depth: e.depth as usize,
                        index: e.index as usize,
                    },
                )
            },
            Some(_) => Err(
                EvalError::NotImplemented { depth: e.depth as usize, index: e.index as usize },
            ),
        },
    }
}

/// Addition on `i64` that clamps at the type's bounds.
fn sat_add(a: i64, b: i64) -> (r: i64)
    ensures
        r as int == sat_add_i64(a as int, b as int),
{
    if b >= 0 {
        if a > i64::MAX - b {
            i64::MAX
        } else {
            a + b
        }
    } else {
        if a < i64::MIN - b {
            i64::MIN
        } else {
            a + b
        }
    }
}

impl BuiltinFuncs {
    /// Reduces the token expression to a token result, as `exec_view`
    /// states.
    pub fn exec(exp: &TokenExpression) -> (r: Result<Token, EvalError>)
        ensures
            r is Ok <==> exec_view(exp@) is Ok,
            r matches Ok(t) ==> exec_view(exp@) matches Ok(v) && t@ == v,
            r matches Err(e) ==> exec_view(exp@) matches Err(v) && e == v,
    {
        let keyword = match &exp.keyword {
            Some(kw) => kw,
            None => {
                return Err(
                    EvalError::UnknownFunction { depth: exp.depth, index: exp.index },
                );
            },
        };
        match BuiltinFuncs::try_from(keyword) {
            Ok(BuiltinFuncs::Print) => {
                let placeholder = String::from_str("TODO");
                proof {
                    reveal_strlit("TODO");
                    assert(placeholder@ =~= print_placeholder());
                }
                Ok(Token::Literal(placeholder))
            },
            Ok(BuiltinFuncs::Add) => {
                let mut result: i64 = 0;
                let mut j: usize = 0;
                while j < exp.args.len()
                    invariant
                        exp@.keyword == Some(keyword@),
                        token_builtin(keyword@) == Some(BuiltinFuncs::Add),
                        j <= exp.args@.len(),
                        all_numbers(exp@.args.take(j as int)),
                        result as int == sum_args(exp@.args.take(j as int)),
                        exp@.args.len() == exp.args@.len(),
                        forall|i: int|
                            0 <= i < exp.args@.len() ==> exp@.args[i] == (
                            #[trigger] exp.args@[i])@,
                    decreases exp.args@.len() - j,
                {
                    proof {
                        assert(exp@.args.take(j + 1).drop_last() =~= exp@.args.take(j as int));
                        assert(exp@.args.take(j + 1).last() == exp@.args[j as int]);
                    }
                    let a = &exp.args[j];
                    proof {
                        assert(exp@.args[j as int] == exp.args@[j as int]@);
                    }
                    match a {
                        Token::Number(n) => {
                            result = sat_add(result, *n);
                        },
                        _ => {
                            proof {
                                assert(!(exp@.args[j as int] is Number));
                            }
                            return Err(
                                EvalError::InvalidArgument {
                                    depth: exp.depth,
                                    index: exp.index,
                                },
                            );
                        },
                    }
                    j = j + 1;
                }
                proof {
                    assert(exp@.args.take(exp@.args.len() as int) =~= exp@.args);
                }
                Ok(Token::Number(result))
            },
            Ok(_) => Err(EvalError::NotImplemented { depth: exp.depth, index: exp.index }),
            Err(_) => Err(EvalError::UnknownFunction { depth: exp.depth, index: exp.index }),
        }
    }
}

} // verus!
