//! The standard native-function library: registration of the five standard
//! natives into a scope, and a pure in-crate host that backs them with
//! buffers instead of the process's streams and file system.

use vstd::prelude::*;
use vstd::string::{StrSliceExecFns, StringExecFns};
use crate::eval::Host;
use crate::node::{Block, Node};
use crate::parser::Parser;
use crate::runtime::{
    scope_get, strings_view, lemma_assoc_find_push, lemma_strings_view_index,
    EvalError, Fault, Function, FunctionV, Object, ObjectV, Runtime, RuntimeError, Type,
};

verus! {

/// The identifiers the standard natives are registered under.
pub const NATIVE_PRINTLN: u64 = 0;

pub const NATIVE_PRINT: u64 = 1;

pub const NATIVE_CALL: u64 = 2;

pub const NATIVE_TOSTRING: u64 = 3;

/// The value `init` binds to a native name.
pub open spec fn native_obj(id: u64, param: Seq<char>) -> ObjectV {
    ObjectV::Function { func: FunctionV::Native(id), args: seq![param] }
}

/// The value `init` binds to `source`.
pub open spec fn source_obj() -> ObjectV {
    ObjectV::Function { func: FunctionV::Source, args: seq!["path"@] }
}

/// Builds one native function object.
fn make_native(id: u64, param: &str) -> (r: Object)
    ensures
        r@ == native_obj(id, param@),
{
    let mut args: Vec<String> = Vec::new();
    args.push(param.to_owned());
    proof {
        lemma_strings_view_index(args@);
        assert(strings_view(args@) =~= seq![param@]);
    }
    Object::Function { func: Box::new(Function::Native(id)), args }
}

/// Registers the standard library into the scope in slot `scope`:
/// `println`, `print`, `call` and `tostring` as host natives, and `source`
/// as the source-inclusion primitive. Fails, leaving some registrations
/// done, when a name is already bound.
pub fn init(rt: &mut Runtime, scope: usize) -> (r: bool)
    requires
        crate::runtime::rt_wf(old(rt)@),
        scope < old(rt)@.len(),
    ensures
        crate::runtime::rt_wf(final(rt)@),
        final(rt)@.len() == old(rt)@.len(),
        forall|j: int|
            0 <= j < old(rt)@.len() && j != scope ==> final(rt)@[j] == old(rt)@[j],
        final(rt)@[scope as int].parent == old(rt)@[scope as int].parent,
        r ==> scope_get(final(rt)@[scope as int], "println"@) == Option::Some(
            native_obj(NATIVE_PRINTLN, "text"@),
        ) && scope_get(final(rt)@[scope as int], "print"@) == Option::Some(
            native_obj(NATIVE_PRINT, "text"@),
        ) && scope_get(final(rt)@[scope as int], "call"@) == Option::Some(
            native_obj(NATIVE_CALL, "cmd"@),
        ) && scope_get(final(rt)@[scope as int], "tostring"@) == Option::Some(
            native_obj(NATIVE_TOSTRING, "value"@),
        ) && scope_get(final(rt)@[scope as int], "source"@) == Option::Some(source_obj()),
        r <==> (!crate::runtime::scope_has(old(rt)@[scope as int], "println"@)
            && !crate::runtime::scope_has(old(rt)@[scope as int], "print"@)
            && !crate::runtime::scope_has(old(rt)@[scope as int], "call"@)
            && !crate::runtime::scope_has(old(rt)@[scope as int], "tostring"@)
            && !crate::runtime::scope_has(old(rt)@[scope as int], "source"@)),
        r ==> forall|n: Seq<char>|
            (#[trigger] scope_get(old(rt)@[scope as int], n)) is Some ==> scope_get(
                final(rt)@[scope as int],
                n,
            ) == scope_get(old(rt)@[scope as int], n),
{
    proof {
        reveal_strlit("println");
        reveal_strlit("print");
        reveal_strlit("call");
        reveal_strlit("tostring");
        reveal_strlit("source");
        reveal_strlit("text");
        reveal_strlit("cmd");
        reveal_strlit("value");
        reveal_strlit("path");
    }
    let ghost s0 = rt@[scope as int];
    let o1 = make_native(NATIVE_PRINTLN, "text");
    let ok1 = rt.define_in(scope, "println", o1);
    if !ok1 {
        return false;
    }
    let ghost s1 = rt@[scope as int];
    let o2 = make_native(NATIVE_PRINT, "text");
    let ok2 = rt.define_in(scope, "print", o2);
    if !ok2 {
        proof {
            reveal_strlit("println");
            reveal_strlit("print");
            assert("println"@.len() == 7);
            assert("print"@.len() == 5);
            lemma_assoc_find_push(
                s0.names,
                ("println"@, s0.objects.len() as int),
                "print"@,
            );
            assert(crate::runtime::scope_has(s0, "print"@));
        }
        return false;
    }
    let ghost s2 = rt@[scope as int];
    let o3 = make_native(NATIVE_CALL, "cmd");
    let ok3 = rt.define_in(scope, "call", o3);
    if !ok3 {
        proof {
            reveal_strlit("println");
            reveal_strlit("print");
            reveal_strlit("call");
            assert("println"@.len() == 7 && "print"@.len() == 5 && "call"@.len() == 4);
            lemma_assoc_find_push(s1.names, ("print"@, s1.objects.len() as int), "call"@);
            assert(crate::runtime::scope_has(s1, "call"@));
            lemma_assoc_find_push(
                s0.names,
                ("println"@, s0.objects.len() as int),
                "call"@,
            );
            assert(crate::runtime::scope_has(s0, "call"@));
        }
        return false;
    }
    let ghost s3 = rt@[scope as int];
    let o4 = make_native(NATIVE_TOSTRING, "value");
    let ok4 = rt.define_in(scope, "tostring", o4);
    if !ok4 {
        proof {
            reveal_strlit("println");
            reveal_strlit("print");
            reveal_strlit("call");
            reveal_strlit("tostring");
            assert("println"@.len() == 7 && "print"@.len() == 5 && "call"@.len() == 4
                && "tostring"@.len() == 8);
            lemma_assoc_find_push(s2.names, ("call"@, s2.objects.len() as int), "tostring"@);
            assert(crate::runtime::scope_has(s2, "tostring"@));
            lemma_assoc_find_push(s1.names, ("print"@, s1.objects.len() as int), "tostring"@);
            assert(crate::runtime::scope_has(s1, "tostring"@));
            lemma_assoc_find_push(
                s0.names,
                ("println"@, s0.objects.len() as int),
                "tostring"@,
            );
            assert(crate::runtime::scope_has(s0, "tostring"@));
        }
        return false;
    }
    let ghost s4 = rt@[scope as int];
    let mut path_args: Vec<String> = Vec::new();
    path_args.push("path".to_owned());
    proof {
        lemma_strings_view_index(path_args@);
        assert(strings_view(path_args@) =~= seq!["path"@]);
    }
    let o5 = Object::Function { func: Box::new(Function::Source), args: path_args };
    let ok5 = rt.define_in(scope, "source", o5);
    if !ok5 {
        proof {
            reveal_strlit("println");
            reveal_strlit("print");
            reveal_strlit("call");
            reveal_strlit("tostring");
            reveal_strlit("source");
            assert("println"@.len() == 7 && "print"@.len() == 5 && "call"@.len() == 4
                && "tostring"@.len() == 8 && "source"@.len() == 6);
            lemma_assoc_find_push(
                s3.names,
                ("tostring"@, s3.objects.len() as int),
                "source"@,
            );
            assert(crate::runtime::scope_has(s3, "source"@));
            lemma_assoc_find_push(s2.names, ("call"@, s2.objects.len() as int), "source"@);
            assert(crate::runtime::scope_has(s2, "source"@));
            lemma_assoc_find_push(s1.names, ("print"@, s1.objects.len() as int), "source"@);
            assert(crate::runtime::scope_has(s1, "source"@));
            lemma_assoc_find_push(
                s0.names,
                ("println"@, s0.objects.len() as int),
                "source"@,
            );
            assert(crate::runtime::scope_has(s0, "source"@));
        }
        return false;
    }
    proof {
        reveal_strlit("println");
        reveal_strlit("print");
        reveal_strlit("call");
        reveal_strlit("tostring");
        reveal_strlit("source");
        let s0 = old(rt)@[scope as int];
        let s5 = rt@[scope as int];
        let e1 = ("println"@, s0.objects.len() as int);
        let e2 = ("print"@, s0.objects.len() + 1 as int);
        let e3 = ("call"@, s0.objects.len() + 2 as int);
        let e4 = ("tostring"@, s0.objects.len() + 3 as int);
        let e5 = ("source"@, s0.objects.len() + 4 as int);
        assert(s5.names =~= s0.names.push(e1).push(e2).push(e3).push(e4).push(e5));
        assert(s5.objects =~= s0.objects.push(native_obj(NATIVE_PRINTLN, "text"@)).push(
            native_obj(NATIVE_PRINT, "text"@),
        ).push(native_obj(NATIVE_CALL, "cmd"@)).push(native_obj(NATIVE_TOSTRING, "value"@)).push(
            source_obj(),
        ));
        let names1 = s0.names.push(e1);
        let names2 = names1.push(e2);
        let names3 = names2.push(e3);
        let names4 = names3.push(e4);
        let names5 = names4.push(e5);
        assert(s1.names =~= names1);
        assert(s2.names =~= names2);
        assert(s3.names =~= names3);
        assert(s4.names =~= names4);
        assert(s5.names =~= names5);
        let ov1 = native_obj(NATIVE_PRINTLN, "text"@);
        let ov2 = native_obj(NATIVE_PRINT, "text"@);
        let ov3 = native_obj(NATIVE_CALL, "cmd"@);
        let ov4 = native_obj(NATIVE_TOSTRING, "value"@);
        let ov5 = source_obj();
        assert(s5.objects[e1.1] == ov1);
        assert(s5.objects[e2.1] == ov2);
        assert(s5.objects[e3.1] == ov3);
        assert(s5.objects[e4.1] == ov4);
        assert(s5.objects[e5.1] == ov5);
        assert(crate::runtime::assoc_find(s0.names, "println"@) is None);
        assert(crate::runtime::assoc_find(names1, "print"@) is None);
        assert(crate::runtime::assoc_find(names2, "call"@) is None);
        assert(crate::runtime::assoc_find(names3, "tostring"@) is None);
        assert(crate::runtime::assoc_find(names4, "source"@) is None);
        assert forall|n: Seq<char>| true implies #[trigger] crate::runtime::assoc_find(names5, n)
            == (match crate::runtime::assoc_find(names4, n) {
            Option::Some(x) => Option::Some(x),
            Option::None => if e5.0 == n {
                Option::Some(e5.1)
            } else {
                Option::None
            },
        }) by {
            lemma_assoc_find_push(names4, e5, n);
        }
        assert forall|n: Seq<char>| true implies #[trigger] crate::runtime::assoc_find(names4, n)
            == (match crate::runtime::assoc_find(names3, n) {
            Option::Some(x) => Option::Some(x),
            Option::None => if e4.0 == n {
                Option::Some(e4.1)
            } else {
                Option::None
            },
        }) by {
            lemma_assoc_find_push(names3, e4, n);
        }
        assert forall|n: Seq<char>| true implies #[trigger] crate::runtime::assoc_find(names3, n)
            == (match crate::runtime::assoc_find(names2, n) {
            Option::Some(x) => Option::Some(x),
            Option::None => if e3.0 == n {
                Option::Some(e3.1)
            } else {
                Option::None
            },
        }) by {
            lemma_assoc_find_push(names2, e3, n);
        }
        assert forall|n: Seq<char>| true implies #[trigger] crate::runtime::assoc_find(names2, n)
            == (match crate::runtime::assoc_find(names1, n) {
            Option::Some(x) => Option::Some(x),
            Option::None => if e2.0 == n {
                Option::Some(e2.1)
            } else {
                Option::None
            },
        }) by {
            lemma_assoc_find_push(names1, e2, n);
        }
        assert forall|n: Seq<char>| true implies #[trigger] crate::runtime::assoc_find(names1, n)
            == (match crate::runtime::assoc_find(s0.names, n) {
            Option::Some(x) => Option::Some(x),
            Option::None => if e1.0 == n {
                Option::Some(e1.1)
            } else {
                Option::None
            },
        }) by {
            lemma_assoc_find_push(s0.names, e1, n);
        }
        assert("println"@.len() == 7);
        assert("print"@.len() == 5);
        assert("call"@.len() == 4);
        assert("tostring"@.len() == 8);
        assert("source"@.len() == 6);
        assert("print"@[0] == 'p' && "call"@[0] == 'c' && "source"@[0] == 's');
        assert(crate::runtime::assoc_find(names5, "println"@) == Option::Some(e1.1));
        assert(crate::runtime::assoc_find(names5, "print"@) == Option::Some(e2.1));
        assert(crate::runtime::assoc_find(names5, "call"@) == Option::Some(e3.1));
        assert(crate::runtime::assoc_find(names5, "tostring"@) == Option::Some(e4.1));
        assert(crate::runtime::assoc_find(names5, "source"@) == Option::Some(e5.1));
        assert(scope_get(s5, "println"@) == Option::Some(ov1));
        assert(scope_get(s5, "print"@) == Option::Some(ov2));
        assert(scope_get(s5, "call"@) == Option::Some(ov3));
        assert(scope_get(s5, "tostring"@) == Option::Some(ov4));
        assert(scope_get(s5, "source"@) == Option::Some(ov5));
    }
    true
}

// ----------------------------------------------------------------------------
// decimal rendering
// ----------------------------------------------------------------------------

/// The digit character of one decimal digit.
pub open spec fn dec_digit_char(d: int) -> char {
    if d == 0 {
        '0'
    } else if d == 1 {
        '1'
    } else if d == 2 {
        '2'
    } else if d == 3 {
        '3'
    } else if d == 4 {
        '4'
    } else if d == 5 {
        '5'
    } else if d == 6 {
        '6'
    } else if d == 7 {
        '7'
    } else if d == 8 {
        '8'
    } else {
        '9'
    }
}

/// The decimal digits of a non-negative number, most significant first.
pub open spec fn dec_digits(n: int) -> Seq<char>
    decreases n,
{
    if n <= 9 {
        seq![dec_digit_char(if n >= 0 {
            n
        } else {
            0
        })]
    } else {
        dec_digits(n / 10).push(dec_digit_char(n % 10))
    }
}

/// The decimal rendering of an integer: a minus sign and the magnitude's
/// digits.
pub open spec fn dec_string(i: int) -> Seq<char> {
    if i < 0 {
        seq!['-'] + dec_digits(-i)
    } else {
        dec_digits(i)
    }
}

/// Appends the decimal digits of `m`.
fn push_dec(s: &mut String, m: u32)
    ensures
        final(s)@ == old(s)@ + dec_digits(m as int),
    decreases m,
{
    if m <= 9 {
        let c: char = match m {
            0 => '0',
            1 => '1',
            2 => '2',
            3 => '3',
            4 => '4',
            5 => '5',
            6 => '6',
            7 => '7',
            8 => '8',
            _ => '9',
        };
        s.push(c);
        proof {
            assert(final(s)@ =~= old(s)@ + seq![dec_digit_char(m as int)]);
        }
    } else {
        push_dec(s, m / 10);
        let d = m % 10;
        let c: char = match d {
            0 => '0',
            1 => '1',
            2 => '2',
            3 => '3',
            4 => '4',
            5 => '5',
            6 => '6',
            7 => '7',
            8 => '8',
            _ => '9',
        };
        s.push(c);
        proof {
            assert(final(s)@ =~= old(s)@ + dec_digits(m as int));
        }
    }
}

/// Renders an integer in decimal, as `tostring` does.
pub fn int_to_string(i: i32) -> (r: String)
    ensures
        r@ == dec_string(i as int),
{
    let mut s = String::new();
    if i >= 0 {
        push_dec(&mut s, i as u32);
        proof {
            assert(s@ =~= dec_string(i as int));
        }
        s
    } else {
        s.push('-');
        let m: u32 = (-(i + 1)) as u32 + 1;
        proof {
            assert(m as int == -(i as int));
        }
        push_dec(&mut s, m);
        proof {
            assert(s@ =~= dec_string(i as int));
        }
        s
    }
}

/// Removes one trailing line break, as the shell native trims its
/// captured output; anything else passes unchanged.
pub fn strip_trailing_newline(s: &str) -> (r: String)
    ensures
        (s@.len() > 0 && s@.last() == '\n') ==> r@ == s@.drop_last(),
        !(s@.len() > 0 && s@.last() == '\n') ==> r@ == s@,
{
    let n = s.unicode_len();
    if n > 0 && s.get_char(n - 1) == '\n' {
        String::from_str(s.substring_char(0, n - 1))
    } else {
        s.to_owned()
    }
}

// ----------------------------------------------------------------------------
// a pure host for embedding without a machine
// ----------------------------------------------------------------------------

/// The text the host's file table holds under `path`: the first entry
/// with that path, if any.
pub open spec fn find_file(files: Seq<(String, String)>, path: Seq<char>) -> Option<Seq<char>>
    decreases files.len(),
{
    if files.len() == 0 {
        Option::None
    } else if files[0].0@ == path {
        Option::Some(files[0].1@)
    } else {
        find_file(files.drop_first(), path)
    }
}

/// A first matching entry at `k` settles the lookup.
proof fn lemma_find_file_at(files: Seq<(String, String)>, path: Seq<char>, k: int)
    requires
        0 <= k < files.len(),
        files[k].0@ == path,
        forall|j: int| 0 <= j < k ==> (#[trigger] files[j]).0@ != path,
    ensures
        find_file(files, path) == Option::Some(files[k].1@),
    decreases files.len(),
{
    if k > 0 {
        assert(forall|j: int| 0 <= j < files.len() - 1 ==> #[trigger] files.drop_first()[j]
            == files[j + 1]);
        lemma_find_file_at(files.drop_first(), path, k - 1);
    }
}

/// A path no entry holds is not found.
proof fn lemma_find_file_none(files: Seq<(String, String)>, path: Seq<char>)
    requires
        forall|j: int| 0 <= j < files.len() ==> (#[trigger] files[j]).0@ != path,
    ensures
        find_file(files, path) is None,
    decreases files.len(),
{
    if files.len() > 0 {
        assert(forall|j: int| 0 <= j < files.len() - 1 ==> #[trigger] files.drop_first()[j]
            == files[j + 1]);
        lemma_find_file_none(files.drop_first(), path);
    }
}

/// A host whose natives work on buffers: printing appends to `out`,
/// `source` reads from the preloaded `files`, shelling out is unsupported,
/// and conditions from sourced scripts land in `noted`.
pub struct BufferHost {
    /// Everything printed, in order; `println` entries end in a line break.
    pub out: Vec<String>,
    /// The texts `source` can load, by path.
    pub files: Vec<(String, String)>,
    /// The conditions sourced scripts failed with.
    pub noted: Vec<EvalError>,
    /// How many sourced texts failed to parse.
    pub syntax_errors: u64,
}

impl BufferHost {
    /// A host with nothing preloaded.
    pub fn new() -> (r: Self)
        ensures
            r.out@.len() == 0,
            r.files@.len() == 0,
            r.noted@.len() == 0,
            r.syntax_errors == 0,
    {
        BufferHost { out: Vec::new(), files: Vec::new(), noted: Vec::new(), syntax_errors: 0 }
    }

    /// Preloads one text under a path for `source`.
    pub fn add_file(&mut self, path: &str, text: &str)
        ensures
            final(self).out == old(self).out,
            final(self).noted == old(self).noted,
            final(self).syntax_errors == old(self).syntax_errors,
            final(self).files@.len() == old(self).files@.len() + 1,
            forall|j: int|
                0 <= j < old(self).files@.len() ==> final(self).files@[j] == old(self).files@[j],
            final(self).files@.last().0@ == path@,
            final(self).files@.last().1@ == text@,
    {
        self.files.push((path.to_owned(), text.to_owned()));
    }
}

impl Host for BufferHost {
    fn call_native(&mut self, id: u64, args: &Vec<Object>) -> (r: Result<Object, EvalError>)
        ensures
            final(self).files == old(self).files,
            final(self).noted == old(self).noted,
            final(self).syntax_errors == old(self).syntax_errors,
            (id == NATIVE_PRINTLN && args@.len() >= 1) ==> (match args@[0]@ {
                ObjectV::String(t) => ((r matches Ok(o) && o@ == ObjectV::Null)
                    && final(self).out@.len() == old(self).out@.len() + 1 && (forall|j: int|
                    0 <= j < old(self).out@.len() ==> final(self).out@[j] == old(self).out@[j])
                    && final(self).out@.last()@ == t.push('\n')),
                _ => r == Err::<Object, EvalError>(
                    EvalError::Condition(RuntimeError::ExpectedType(Type::String)),
                ) && final(self).out == old(self).out,
            }),
            (id == NATIVE_PRINT && args@.len() >= 1) ==> (match args@[0]@ {
                ObjectV::String(t) => ((r matches Ok(o) && o@ == ObjectV::Null)
                    && final(self).out@.len() == old(self).out@.len() + 1 && (forall|j: int|
                    0 <= j < old(self).out@.len() ==> final(self).out@[j] == old(self).out@[j])
                    && final(self).out@.last()@ == t),
                _ => r == Err::<Object, EvalError>(
                    EvalError::Condition(RuntimeError::ExpectedType(Type::String)),
                ) && final(self).out == old(self).out,
            }),
            (id == NATIVE_TOSTRING && args@.len() >= 1) ==> final(self).out == old(self).out
                && (match args@[0]@ {
                ObjectV::String(t) => r matches Ok(o) && o@ == ObjectV::String(t),
                ObjectV::Integer(i) => r matches Ok(o) && o@ == ObjectV::String(
                    dec_string(i as int),
                ),
                _ => r == Err::<Object, EvalError>(EvalError::Fault(Fault::Unsupported)),
            }),
            (id == NATIVE_CALL || id > NATIVE_TOSTRING) ==> r == Err::<Object, EvalError>(
                EvalError::Fault(Fault::Unsupported),
            ) && final(self).out == old(self).out,
            args@.len() == 0 ==> r == Err::<Object, EvalError>(
                EvalError::Fault(Fault::Unsupported),
            ) && final(self).out == old(self).out,
    {
        if id == NATIVE_PRINTLN || id == NATIVE_PRINT {
            if args.len() < 1 {
                return Err(EvalError::Fault(Fault::Unsupported));
            }
            match &args[0] {
                Object::String(text) => {
                    let mut line = text.clone();
                    if id == NATIVE_PRINTLN {
                        line.push('\n');
                    }
                    self.out.push(line);
                    Ok(Object::Null)
                },
                _ => Err(EvalError::Condition(RuntimeError::ExpectedType(Type::String))),
            }
        } else if id == NATIVE_TOSTRING {
            if args.len() < 1 {
                return Err(EvalError::Fault(Fault::Unsupported));
            }
            match &args[0] {
                Object::String(text) => Ok(Object::String(text.clone())),
                Object::Integer(i) => Ok(Object::String(int_to_string(*i))),
                _ => Err(EvalError::Fault(Fault::Unsupported)),
            }
        } else {
            // the shell native and anything unknown have no pure backing
            Err(EvalError::Fault(Fault::Unsupported))
        }
    }

    fn load_block(&mut self, path: &String) -> (r: Result<Option<Block>, EvalError>)
        ensures
            final(self).out == old(self).out,
            final(self).files == old(self).files,
            final(self).noted == old(self).noted,
            (match find_file(old(self).files@, path@) {
                Option::None => r == Err::<Option<Block>, EvalError>(
                    EvalError::Fault(Fault::Unsupported),
                ) && final(self).syntax_errors == old(self).syntax_errors,
                Option::Some(text) => (match crate::parser::program_at(text) {
                    Option::Some(vs) => (r matches Ok(ob) && (ob matches Option::Some(b)
                        && b@.statements == vs)) && final(self).syntax_errors == old(
                        self,
                    ).syntax_errors,
                    Option::None => true,
                }),
            }),
    {
        let n = self.files.len();
        let mut k: usize = 0;
        while k < n
            invariant
                n == self.files@.len(),
                k <= n,
                self.out == old(self).out,
                self.files == old(self).files,
                self.noted == old(self).noted,
                self.syntax_errors == old(self).syntax_errors,
                forall|j: int| 0 <= j < k ==> (#[trigger] self.files@[j]).0@ != path@,
            decreases n - k,
        {
            if self.files[k].0 == *path {
                proof {
                    lemma_find_file_at(self.files@, path@, k as int);
                }
                let text = self.files[k].1.clone();
                let mut parser = Parser::new(text);
                return match parser.parse() {
                    Ok(node) => match node {
                        Node::Block(b) => Ok(Option::Some(b)),
                        _ => Ok(Option::None),
                    },
                    Err(_) => {
                        if self.syntax_errors < u64::MAX {
                            self.syntax_errors = self.syntax_errors + 1;
                        }
                        Ok(Option::None)
                    },
                };
            }
            k = k + 1;
        }
        proof {
            lemma_find_file_none(self.files@, path@);
        }
        // an unreadable file is fatal to the run
        Err(EvalError::Fault(Fault::Unsupported))
    }

    fn note_error(&mut self, err: &EvalError)
        ensures
            final(self).out == old(self).out,
            final(self).files == old(self).files,
            final(self).syntax_errors == old(self).syntax_errors,
            final(self).noted@.len() == old(self).noted@.len() + 1,
            forall|j: int|
                0 <= j < old(self).noted@.len() ==> final(self).noted@[j] == old(self).noted@[j],
            final(self).noted@.last()@ == err@,
    {
        self.noted.push(err.clone());
    }
}

} // verus!
