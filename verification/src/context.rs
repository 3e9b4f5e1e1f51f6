use vstd::prelude::*;

use crate::text::str_eq;

verus! {

/// One value of the host's argument maps, reduced to what the lookups read.
#[derive(Debug)]
pub enum ArgValue {
    Str(String),
    Int(u64),
    Bool(bool),
    Nil,
}

/// A required argument was absent or had the wrong shape.
#[derive(Debug, Clone, Copy, PartialEq, Eq, Structural)]
pub enum ContextError {
    MissingContext,
}

/// The string under `key` in an argument map: the search fails on a
/// non-string key, on a missing key, and on a non-string value.
pub open spec fn lookup_str(map: Seq<(ArgValue, ArgValue)>, key: Seq<char>) -> Result<
    Seq<char>,
    ContextError,
>
    decreases map.len(),
{
    if map.len() == 0 {
        Err(ContextError::MissingContext)
    } else {
        match map.first().0 {
            ArgValue::Str(k) => if k@ == key {
                match map.first().1 {
                    ArgValue::Str(v) => Ok(v@),
                    _ => Err(ContextError::MissingContext),
                }
            } else {
                lookup_str(map.drop_first(), key)
            },
            _ => Err(ContextError::MissingContext),
        }
    }
}

/// The integer under `key` in an argument map, with the same failures.
pub open spec fn lookup_u64(map: Seq<(ArgValue, ArgValue)>, key: Seq<char>) -> Result<
    u64,
    ContextError,
>
    decreases map.len(),
{
    if map.len() == 0 {
        Err(ContextError::MissingContext)
    } else {
        match map.first().0 {
            ArgValue::Str(k) => if k@ == key {
                match map.first().1 {
                    ArgValue::Int(v) => Ok(v),
                    _ => Err(ContextError::MissingContext),
                }
            } else {
                lookup_u64(map.drop_first(), key)
            },
            _ => Err(ContextError::MissingContext),
        }
    }
}

fn lookup_str_at(map: &Vec<(ArgValue, ArgValue)>, lookup_key: &str, i: usize) -> (r: Result<
    String,
    ContextError,
>)
    requires
        i <= map@.len(),
    ensures
        match r {
            Ok(s) => lookup_str(map@.skip(i as int), lookup_key@) == Ok::<Seq<char>, ContextError>(
                s@,
            ),
            Err(e) => lookup_str(map@.skip(i as int), lookup_key@) == Err::<Seq<char>, ContextError>(
                e,
            ),
        },
    decreases map@.len() - i,
{
    if i == map.len() {
        proof {
            assert(map@.skip(i as int) =~= Seq::<(ArgValue, ArgValue)>::empty());
        }
        return Err(ContextError::MissingContext);
    }
    proof {
        assert(map@.skip(i as int).first() == map@[i as int]);
        assert(map@.skip(i as int).drop_first() =~= map@.skip(i + 1));
    }
    match &map[i].0 {
        ArgValue::Str(k) => {
            if str_eq(k.as_str(), lookup_key) {
                match &map[i].1 {
                    ArgValue::Str(v) => Ok(v.clone()),
                    _ => Err(ContextError::MissingContext),
                }
            } else {
                lookup_str_at(map, lookup_key, i + 1)
            }
        },
        _ => Err(ContextError::MissingContext),
    }
}

fn lookup_u64_at(map: &Vec<(ArgValue, ArgValue)>, lookup_key: &str, i: usize) -> (r: Result<
    u64,
    ContextError,
>)
    requires
        i <= map@.len(),
    ensures
        lookup_u64(map@.skip(i as int), lookup_key@) == r,
    decreases map@.len() - i,
{
    if i == map.len() {
        proof {
            assert(map@.skip(i as int) =~= Seq::<(ArgValue, ArgValue)>::empty());
        }
        return Err(ContextError::MissingContext);
    }
    proof {
        assert(map@.skip(i as int).first() == map@[i as int]);
        assert(map@.skip(i as int).drop_first() =~= map@.skip(i + 1));
    }
    match &map[i].0 {
        ArgValue::Str(k) => {
            if str_eq(k.as_str(), lookup_key) {
                match &map[i].1 {
                    ArgValue::Int(v) => Ok(*v),
                    _ => Err(ContextError::MissingContext),
                }
            } else {
                lookup_u64_at(map, lookup_key, i + 1)
            }
        },
        _ => Err(ContextError::MissingContext),
    }
}

/// Finds the string stored under `lookup_key`.
pub fn lookup_str_key(map: &Vec<(ArgValue, ArgValue)>, lookup_key: &str) -> (r: Result<
    String,
    ContextError,
>)
    ensures
        match r {
            Ok(s) => lookup_str(map@, lookup_key@) == Ok::<Seq<char>, ContextError>(s@),
            Err(e) => lookup_str(map@, lookup_key@) == Err::<Seq<char>, ContextError>(e),
        },
{
    proof {
        assert(map@.skip(0) =~= map@);
    }
    lookup_str_at(map, lookup_key, 0)
}

/// Finds the integer stored under `lookup_key`.
pub fn lookup_u64_key(map: &Vec<(ArgValue, ArgValue)>, lookup_key: &str) -> (r: Result<
    u64,
    ContextError,
>)
    ensures
        lookup_u64(map@, lookup_key@) == r,
{
    proof {
        assert(map@.skip(0) =~= map@);
    }
    lookup_u64_at(map, lookup_key, 0)
}

/// What a completion pass works on: the word under the cursor, the host's
/// working directory, and the current buffer.
#[derive(Debug)]
pub struct CompletionContext {
    pub word: String,
    pub cwd: String,
    pub bufnr: u64,
}

impl CompletionContext {
    /// Reads `word`, `cwd` and `bufnr` from an argument map; a missing or
    /// ill-shaped argument is a request-level failure, never a crash.
    pub fn from_args(map: &Vec<(ArgValue, ArgValue)>) -> (r: Result<
        CompletionContext,
        ContextError,
    >)
        ensures
            match r {
                Ok(c) => lookup_str(map@, "word"@) == Ok::<Seq<char>, ContextError>(c.word@)
                    && lookup_str(map@, "cwd"@) == Ok::<Seq<char>, ContextError>(c.cwd@)
                    && lookup_u64(map@, "bufnr"@) == Ok::<u64, ContextError>(c.bufnr),
                Err(e) => e == ContextError::MissingContext && (lookup_str(map@, "word"@) is Err
                    || lookup_str(map@, "cwd"@) is Err || lookup_u64(map@, "bufnr"@) is Err),
            },
    {
        let word = match lookup_str_key(map, "word") {
            Ok(w) => w,
            Err(_) => {
                return Err(ContextError::MissingContext);
            },
        };
        let cwd = match lookup_str_key(map, "cwd") {
            Ok(c) => c,
            Err(_) => {
                return Err(ContextError::MissingContext);
            },
        };
        let bufnr = match lookup_u64_key(map, "bufnr") {
            Ok(b) => b,
            Err(_) => {
                return Err(ContextError::MissingContext);
            },
        };
        Ok(CompletionContext { word, cwd, bufnr })
    }
}

/// Which sources a synchronous completion request enables.
#[derive(Debug, Clone, Copy)]
pub struct SourceContext {
    pub file: bool,
    pub buffer: bool,
}

/// How a map value is read as a flag: only an explicit boolean can enable.
pub open spec fn coerce_bool(v: ArgValue) -> bool {
    match v {
        ArgValue::Bool(b) => b,
        _ => false,
    }
}

/// The `file` and `buffer` flags after folding an argument map in order;
/// the later of two bindings for one key wins. Any non-string key fails the
/// whole read.
pub open spec fn flags_fold(map: Seq<(ArgValue, ArgValue)>) -> Result<(bool, bool), ContextError>
    decreases map.len(),
{
    if map.len() == 0 {
        Ok((false, false))
    } else {
        match flags_fold(map.drop_last()) {
            Err(e) => Err(e),
            Ok((f, b)) => match map.last().0 {
                ArgValue::Str(k) => if k@ == "file"@ {
                    Ok((coerce_bool(map.last().1), b))
                } else if k@ == "buffer"@ {
                    Ok((f, coerce_bool(map.last().1)))
                } else {
                    Ok((f, b))
                },
                _ => Err(ContextError::MissingContext),
            },
        }
    }
}

impl SourceContext {
    /// Reads the source-enable flags from an argument map.
    pub fn from_args(map: &Vec<(ArgValue, ArgValue)>) -> (r: Result<SourceContext, ContextError>)
        ensures
            match r {
                Ok(sc) => flags_fold(map@) == Ok::<(bool, bool), ContextError>((sc.file, sc.buffer)),
                Err(e) => flags_fold(map@) == Err::<(bool, bool), ContextError>(e),
            },
    {
        let mut file = false;
        let mut buffer = false;
        let mut i: usize = 0;
        proof {
            assert(map@.take(0) =~= Seq::<(ArgValue, ArgValue)>::empty());
        }
        while i < map.len()
            invariant
                i <= map@.len(),
                flags_fold(map@.take(i as int)) == Ok::<(bool, bool), ContextError>((file, buffer)),
            decreases map@.len() - i,
        {
            proof {
                assert(map@.take(i + 1).drop_last() =~= map@.take(i as int));
                assert(map@.take(i + 1).last() == map@[i as int]);
            }
            match &map[i].0 {
                ArgValue::Str(k) => {
                    if str_eq(k.as_str(), "file") {
                        file = match &map[i].1 {
                            ArgValue::Bool(v) => *v,
                            _ => false,
                        };
                    } else if str_eq(k.as_str(), "buffer") {
                        buffer = match &map[i].1 {
                            ArgValue::Bool(v) => *v,
                            _ => false,
                        };
                    }
                },
                _ => {
                    proof {
                        lemma_flags_err_extends(map@, i as int);
                    }
                    return Err(ContextError::MissingContext);
                },
            }
            i = i + 1;
        }
        proof {
            assert(map@.take(map@.len() as int) =~= map@);
        }
        Ok(SourceContext { file, buffer })
    }
}

/// Once the fold fails on a prefix, it fails on the whole map.
proof fn lemma_flags_err_extends(map: Seq<(ArgValue, ArgValue)>, i: int)
    requires
        0 <= i < map.len(),
        flags_fold(map.take(i + 1)) is Err,
    ensures
        flags_fold(map) is Err,
    decreases map.len() - i,
{
    if i + 1 < map.len() {
        assert(map.take(i + 2).drop_last() =~= map.take(i + 1));
        lemma_flags_err_extends(map, i + 1);
    } else {
        assert(map.take(i + 1) =~= map);
    }
}

} // verus!
