//! Where a received file goes: an existing file with the same content is
//! kept, otherwise the first free name among `name.ext`, `name (1).ext`,
//! `name (2).ext`, … is used. Which names are free is asked of the file
//! system by the application; the names and the decision are made here.
use crate::text::decimal;
use crate::text::lemma_decimal_digits;
use crate::text::lemma_decimal_injective;
use crate::text::push_decimal;
use crate::text::push_str;
use vstd::prelude::*;

verus! {

/// How many numbered names are tried before falling back to a name made
/// unique by the process id.
pub const LAST_NUMBERED: u32 = 9999;

/// A received file is already saved under its name when that file holds
/// exactly the received bytes; it is then left alone.
pub fn same_content(existing: &Option<Vec<u8>>, body: &[u8]) -> (r: bool)
    ensures
        r == (existing matches Some(b) && b@ == body@),
{
    match existing {
        Some(bytes) => {
            if bytes.len() != body.len() {
                return false;
            }
            let mut i: usize = 0;
            while i < body.len()
                invariant
                    existing matches Some(b) && b@ == bytes@,
                    bytes@.len() == body@.len(),
                    i <= body@.len(),
                    bytes@.take(i as int) == body@.take(i as int),
                decreases body.len() - i,
            {
                if bytes[i] != body[i] {
                    assert(bytes@[i as int] != body@[i as int]);
                    return false;
                }
                assert(bytes@.take(i + 1) =~= bytes@.take(i as int).push(bytes@[i as int]));
                assert(body@.take(i + 1) =~= body@.take(i as int).push(body@[i as int]));
                i = i + 1;
            }
            assert(bytes@ =~= bytes@.take(i as int));
            assert(body@ =~= body@.take(i as int));
            true
        },
        None => false,
    }
}

// ─── Stem and extension ─────────────────────────────────────────────────────

/// A file name that the path parsing of every platform reads as one plain
/// component: not empty, not `.` or `..`, and without `/`, `\` or `:`.
pub open spec fn plain_name(s: Seq<char>) -> bool {
    &&& s.len() > 0
    &&& s != seq!['.']
    &&& s != seq!['.', '.']
    &&& forall|i: int| 0 <= i < s.len() ==> s[i] != '/' && s[i] != '\\' && s[i] != ':'
}

/// The index of the last `.` in `s`, or -1.
pub open spec fn last_dot(s: Seq<char>) -> int
    decreases s.len(),
{
    if s.len() == 0 {
        -1
    } else if s.last() == '.' {
        s.len() - 1
    } else {
        last_dot(s.drop_last())
    }
}

/// The stem of a file name, as the documentation of `Path::file_stem` puts
/// it: the whole name when it has no `.` or its only `.` is the first
/// character, otherwise the part before the final `.`.
pub open spec fn name_stem(s: Seq<char>) -> Seq<char> {
    if last_dot(s) <= 0 {
        s
    } else {
        s.take(last_dot(s))
    }
}

/// The extension of a file name, as the documentation of `Path::extension`
/// puts it: none in the cases where the stem is the whole name, otherwise
/// the part after the final `.`.
pub open spec fn name_extension(s: Seq<char>) -> Option<Seq<char>> {
    if last_dot(s) <= 0 {
        None
    } else {
        Some(s.skip(last_dot(s) + 1))
    }
}

/// `Path::file_stem` of `name`, as a `String`. For a plain name the result
/// is the documented stem; for other names (with separators, a drive, or a
/// `..`) it depends on the platform's path syntax, and nothing is stated.
#[verifier::external_body]
fn file_stem(name: &str) -> (r: Option<String>)
    ensures
        plain_name(name@) ==> match r {
            Some(s) => s@ == name_stem(name@),
            None => false,
        },
{
    match std::path::Path::new(name).file_stem() {
        Some(stem) => Some(stem.to_string_lossy().into_owned()),
        None => None,
    }
}

/// `Path::extension` of `name`, as a `String`. For a plain name the result
/// is the documented extension; for other names nothing is stated.
#[verifier::external_body]
fn file_extension(name: &str) -> (r: Option<String>)
    ensures
        plain_name(name@) ==> match r {
            Some(e) => name_extension(name@) == Some(e@),
            None => name_extension(name@) is None,
        },
{
    match std::path::Path::new(name).extension() {
        Some(ext) => Some(ext.to_string_lossy().into_owned()),
        None => None,
    }
}

// ─── Numbered names ─────────────────────────────────────────────────────────

/// The stem used when a name has none.
pub open spec fn stem_or_default(stem: Option<Seq<char>>) -> Seq<char> {
    match stem {
        Some(s) => s,
        None => "file"@,
    }
}

/// `stem (i).ext`, or `stem (i)` without an extension.
pub open spec fn numbered(stem: Seq<char>, ext: Option<Seq<char>>, i: nat) -> Seq<char> {
    match ext {
        Some(e) => stem + " ("@ + decimal(i) + ")."@ + e,
        None => stem + " ("@ + decimal(i) + ")"@,
    }
}

/// `stem (i).ext` from a stem and an extension already split off (`file`
/// when there is no stem).
pub fn numbered_name_from(stem: Option<&str>, ext: Option<&str>, i: u32) -> (r: String)
    ensures
        r@ == numbered(
            stem_or_default(
                match stem {
                    Some(s) => Some(s@),
                    None => None,
                },
            ),
            match ext {
                Some(e) => Some(e@),
                None => None,
            },
            i as nat,
        ),
{
    let mut out = String::new();
    match stem {
        Some(s) => push_str(&mut out, s),
        None => push_str(&mut out, "file"),
    }
    push_str(&mut out, " (");
    push_decimal(&mut out, i as u64);
    match ext {
        Some(e) => {
            push_str(&mut out, ").");
            push_str(&mut out, e);
        },
        None => push_str(&mut out, ")"),
    }
    out
}

/// `filename` with ` (i)` put before its extension.
pub fn numbered_name(filename: &str, i: u32) -> (r: String)
    ensures
        plain_name(filename@) ==> r@ == numbered(name_stem(filename@), name_extension(filename@), i as nat),
        exists|stem: Seq<char>, ext: Option<Seq<char>>| r@ == numbered(stem, ext, i as nat),
{
    let stem = file_stem(filename);
    let ext = file_extension(filename);
    let s: Option<&str> = match &stem {
        Some(v) => Some(v.as_str()),
        None => None,
    };
    let e: Option<&str> = match &ext {
        Some(v) => Some(v.as_str()),
        None => None,
    };
    numbered_name_from(s, e, i)
}

/// The name tried at step `attempt` of the search for a free file name.
pub open spec fn spec_candidate(name: Seq<char>, attempt: nat) -> Seq<char> {
    if attempt == 0 {
        name
    } else {
        numbered(name_stem(name), name_extension(name), attempt)
    }
}

/// The name tried at step `attempt` of the search for a free file name:
/// the name itself, then ` (1)` up to ` (9999)` before the extension;
/// `None` once all of them are taken.
pub fn candidate_name(filename: &str, attempt: u32) -> (r: Option<String>)
    ensures
        attempt == 0 ==> (r matches Some(s) && s@ == filename@),
        1 <= attempt <= LAST_NUMBERED ==> r is Some,
        attempt <= LAST_NUMBERED && plain_name(filename@) ==> (r matches Some(s) && s@
            == spec_candidate(filename@, attempt as nat)),
        attempt > LAST_NUMBERED ==> r is None,
{
    if attempt == 0 {
        Some(filename.to_owned())
    } else if attempt <= LAST_NUMBERED {
        Some(numbered_name(filename, attempt))
    } else {
        None
    }
}

/// The search for a free file name, one step at a time: the application
/// asks the file system whether the proposed name is taken and, if it is,
/// asks for the next step.
pub enum NameStep {
    /// Try the name of step `attempt`.
    Try { attempt: u32, name: String },
    /// Every candidate is taken: use [`fallback_name`].
    UseFallback,
}

/// The first step: the name itself.
pub fn first_name_step(filename: &str) -> (r: NameStep)
    ensures
        r matches NameStep::Try { attempt, name } && attempt == 0 && name@ == filename@,
{
    NameStep::Try { attempt: 0, name: filename.to_owned() }
}

/// The step after the name of step `attempt` turned out to be taken: the
/// next numbered name while there is one (up to [`LAST_NUMBERED`]), then
/// the fallback.
pub fn next_name_step(filename: &str, attempt: u32) -> (r: NameStep)
    ensures
        attempt < LAST_NUMBERED ==> (r matches NameStep::Try { attempt: a, name } && a
            == attempt + 1 && (plain_name(filename@) ==> name@ == spec_candidate(
            filename@,
            a as nat,
        ))),
        attempt >= LAST_NUMBERED ==> r is UseFallback,
{
    if attempt < LAST_NUMBERED {
        let a = attempt + 1;
        match candidate_name(filename, a) {
            Some(name) => NameStep::Try { attempt: a, name },
            None => NameStep::UseFallback,
        }
    } else {
        NameStep::UseFallback
    }
}

/// `stem-pid.bin`: the last resort once every numbered name is taken.
pub fn fallback_name(filename: &str, pid: u32) -> (r: String)
    ensures
        plain_name(filename@) ==> r@ == name_stem(filename@) + "-"@ + decimal(pid as nat)
            + ".bin"@,
{
    let stem = file_stem(filename);
    let mut out = String::new();
    match &stem {
        Some(s) => push_str(&mut out, s.as_str()),
        None => push_str(&mut out, "file"),
    }
    push_str(&mut out, "-");
    push_decimal(&mut out, pid as u64);
    push_str(&mut out, ".bin");
    out
}

// ─── Every step tries another name ─────────────────────────────────────────

proof fn lemma_last_dot_range(s: Seq<char>)
    ensures
        -1 <= last_dot(s) < s.len(),
        last_dot(s) >= 0 ==> s[last_dot(s)] == '.',
    decreases s.len(),
{
    if s.len() > 0 && s.last() != '.' {
        lemma_last_dot_range(s.drop_last());
    }
}

/// Where the number sits in `stem (i).ext`: right after `stem (`, followed
/// by `)`.
proof fn lemma_numbered_layout(stem: Seq<char>, ext: Option<Seq<char>>, i: nat)
    ensures
        numbered(stem, ext, i).len() == stem.len() + 3 + decimal(i).len() + match ext {
            Some(e) => e.len() + 1,
            None => 0,
        },
        forall|k: int|
            0 <= k < decimal(i).len() ==> numbered(stem, ext, i)[stem.len() + 2 + k]
                == #[trigger] decimal(i)[k],
        numbered(stem, ext, i)[stem.len() + 2int + decimal(i).len()] == ')',
{
    reveal_strlit(" (");
    reveal_strlit(").");
    reveal_strlit(")");
}

/// The numbered names are longer than the name itself.
proof fn lemma_numbered_longer(name: Seq<char>, i: nat)
    ensures
        numbered(name_stem(name), name_extension(name), i).len() > name.len(),
{
    lemma_last_dot_range(name);
    lemma_numbered_layout(name_stem(name), name_extension(name), i);
}

/// The search for a free name never tries a name twice: different steps
/// give different names (the name itself first, then each number once).
/// For a plain file name these are the names `candidate_name` returns.
pub proof fn lemma_candidates_differ(name: Seq<char>, a: nat, b: nat)
    requires
        a != b,
    ensures
        spec_candidate(name, a) != spec_candidate(name, b),
{
    if a == 0 {
        lemma_numbered_longer(name, b);
    } else if b == 0 {
        lemma_numbered_longer(name, a);
    } else {
        let stem = name_stem(name);
        let ext = name_extension(name);
        let x = numbered(stem, ext, a);
        let y = numbered(stem, ext, b);
        let da = decimal(a);
        let db = decimal(b);
        lemma_numbered_layout(stem, ext, a);
        lemma_numbered_layout(stem, ext, b);
        lemma_decimal_digits(a);
        lemma_decimal_digits(b);
        let p: int = stem.len() + 2int;
        if x == y {
            if da.len() < db.len() {
                assert(x[p + da.len()] == ')');
                assert(y[p + da.len()] == db[da.len() as int]);
                assert(48 <= db[da.len() as int] as u32);
            } else if db.len() < da.len() {
                assert(y[p + db.len()] == ')');
                assert(x[p + db.len()] == da[db.len() as int]);
                assert(48 <= da[db.len() as int] as u32);
            } else {
                assert(da =~= db) by {
                    assert forall|k: int| 0 <= k < da.len() implies da[k] == db[k] by {
                        assert(x[p + k] == da[k]);
                        assert(y[p + k] == db[k]);
                    }
                }
                lemma_decimal_injective(a, b);
            }
        }
    }
}

} // verus!
