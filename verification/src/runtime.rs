//! The execution engine: a dependency-driven unit scheduler with
//! at-most-once semantics and aggregated dependency-failure reporting.
//!
//! The engine is a small-step machine.  It decides; the caller performs.
//! Each step either advances the run, or asks the caller to perform one
//! outside `Effect` (spawn a process, touch the filesystem, print) and
//! hand back an `Outcome`.  Environment mutations never leave the engine:
//! they only rewrite the engine's own snapshot, which is handed to every
//! spawned process.  A host loop that performs the requested effects and
//! keeps calling `tick` runs a unit exactly as the scripting language
//! promises, without the engine ever touching the real process state.

use vstd::prelude::*;
use vstd::string::StringExecFns;

use crate::parser::{Spanned, SpannedV};
use crate::{
    dup_command, dup_spanned_vec, find_unit, Command, CommandV, EnvCommand, EnvCommandV, FsCommand,
    FsCommandV, IoCommand, IoCommandV, Module, ModuleV,
};

verus! {

/// An error raised while running a unit.
#[derive(Debug, PartialEq, Eq)]
pub enum RuntimeError {
    /// One or more dependencies of this unit failed.
    DependencyError(Spanned),
    /// A dependency was seen to have failed; parent name, then the child.
    FailedDependency(String, Spanned),
    /// A process could not be spawned, or exited unsuccessfully.
    ExecutionFailure(Vec<Spanned>, String),
    FsError(FsError),
    /// The PATH entries could not be joined back together.
    JoinPathsError(String),
    /// The command is not supported on this runtime.
    CommandUnsupported(Command),
}

/// A failed filesystem command, with the spanned paths involved.
#[derive(Debug, PartialEq, Eq)]
pub enum FsError {
    CreateFileError(Spanned, String),
    CreateDirError(Spanned, String),
    RemoveError(Spanned, String),
    FileAccessError(Spanned, String),
    CopyError(Spanned, Spanned, String),
}

/// Spec-level model of a `RuntimeError`.
pub enum RuntimeErrorV {
    DependencyError(SpannedV),
    FailedDependency(Seq<char>, SpannedV),
    ExecutionFailure(Seq<SpannedV>, Seq<char>),
    FsError(FsErrorV),
    JoinPathsError(Seq<char>),
    CommandUnsupported(CommandV),
}

pub enum FsErrorV {
    CreateFileError(SpannedV, Seq<char>),
    CreateDirError(SpannedV, Seq<char>),
    RemoveError(SpannedV, Seq<char>),
    FileAccessError(SpannedV, Seq<char>),
    CopyError(SpannedV, SpannedV, Seq<char>),
}

impl DeepView for RuntimeError {
    type V = RuntimeErrorV;

    open spec fn deep_view(&self) -> RuntimeErrorV {
        match *self {
            RuntimeError::DependencyError(ref s) => RuntimeErrorV::DependencyError(s.deep_view()),
            RuntimeError::FailedDependency(ref p, ref c) => RuntimeErrorV::FailedDependency(
                p.deep_view(),
                c.deep_view(),
            ),
            RuntimeError::ExecutionFailure(ref a, ref m) => RuntimeErrorV::ExecutionFailure(
                a.deep_view(),
                m.deep_view(),
            ),
            RuntimeError::FsError(ref f) => RuntimeErrorV::FsError(f.deep_view()),
            RuntimeError::JoinPathsError(ref m) => RuntimeErrorV::JoinPathsError(m.deep_view()),
            RuntimeError::CommandUnsupported(ref c) => RuntimeErrorV::CommandUnsupported(
                c.deep_view(),
            ),
        }
    }
}

impl DeepView for FsError {
    type V = FsErrorV;

    open spec fn deep_view(&self) -> FsErrorV {
        match *self {
            FsError::CreateFileError(ref p, ref m) => FsErrorV::CreateFileError(
                p.deep_view(),
                m.deep_view(),
            ),
            FsError::CreateDirError(ref p, ref m) => FsErrorV::CreateDirError(
                p.deep_view(),
                m.deep_view(),
            ),
            FsError::RemoveError(ref p, ref m) => FsErrorV::RemoveError(
                p.deep_view(),
                m.deep_view(),
            ),
            FsError::FileAccessError(ref p, ref m) => FsErrorV::FileAccessError(
                p.deep_view(),
                m.deep_view(),
            ),
            FsError::CopyError(ref s, ref d, ref m) => FsErrorV::CopyError(
                s.deep_view(),
                d.deep_view(),
                m.deep_view(),
            ),
        }
    }
}

/// A copy of a filesystem error, equal at the level of the spec model.
fn dup_fs_error(e: &FsError) -> (r: FsError)
    ensures
        r.deep_view() == e.deep_view(),
{
    match e {
        FsError::CreateFileError(p, m) => FsError::CreateFileError(p.duplicate(), m.clone()),
        FsError::CreateDirError(p, m) => FsError::CreateDirError(p.duplicate(), m.clone()),
        FsError::RemoveError(p, m) => FsError::RemoveError(p.duplicate(), m.clone()),
        FsError::FileAccessError(p, m) => FsError::FileAccessError(p.duplicate(), m.clone()),
        FsError::CopyError(s, d, m) => FsError::CopyError(s.duplicate(), d.duplicate(), m.clone()),
    }
}

/// A copy of a runtime error, equal at the level of the spec model.
pub(crate) fn dup_runtime_error(e: &RuntimeError) -> (r: RuntimeError)
    ensures
        r.deep_view() == e.deep_view(),
{
    match e {
        RuntimeError::DependencyError(s) => RuntimeError::DependencyError(s.duplicate()),
        RuntimeError::FailedDependency(p, c) => RuntimeError::FailedDependency(
            p.clone(),
            c.duplicate(),
        ),
        RuntimeError::ExecutionFailure(a, m) => RuntimeError::ExecutionFailure(
            dup_spanned_vec(a),
            m.clone(),
        ),
        RuntimeError::FsError(f) => RuntimeError::FsError(dup_fs_error(f)),
        RuntimeError::JoinPathsError(m) => RuntimeError::JoinPathsError(m.clone()),
        RuntimeError::CommandUnsupported(c) => RuntimeError::CommandUnsupported(dup_command(c)),
    }
}

/// An event of the run, handed to the notifier and kept in the log.
///
/// `Call` names the unit whose command is being dispatched, so that an
/// observer can check the dependency-precedence guarantee from the log
/// alone.
#[derive(Debug, PartialEq, Eq)]
pub enum NotifierEvent {
    /// A command of the named unit is about to be dispatched.
    Call(String, Command),
    /// Work on the named unit has begun.
    Start(String),
    /// The named unit finished successfully.
    Complete(String),
    /// The errors a unit aggregated before giving up.
    Error(Vec<RuntimeError>),
    /// `parent` claimed the dependency `name` and will run it.
    Dependency { parent: String, name: String },
    /// `parent` waits for `name`, which another branch is running.
    BlockOn { parent: String, name: String },
}

/// An observer of runtime events, usually for logging.
pub trait Notifier {
    fn on_event(&self, event: &NotifierEvent);
}

/// A notifier that drops every event.
#[derive(Debug, Clone, Copy, PartialEq, Eq, Structural)]
pub struct SilentNotifier;

impl Notifier for SilentNotifier {
    fn on_event(&self, _event: &NotifierEvent) {
    }
}

/// One outside action the engine asks its caller to perform.
#[derive(Debug, PartialEq, Eq)]
pub enum Effect {
    /// Spawn `argv` with exactly this environment, inherit stdio, wait.
    Exec { argv: Vec<Spanned>, env: Vec<(String, String)> },
    /// Create an empty file, truncating an existing one.
    CreateFile { path: String },
    /// Create a directory and all missing parents.
    CreateDirAll { path: String },
    /// Remove a file, or a directory recursively.
    RemovePath { path: String },
    /// Copy a file, or a directory recursively.
    CopyPath { src: String, dst: String },
    /// Read a whole file as text; the outcome detail carries the contents.
    ReadFile { path: String },
    /// Resolve a path to its canonical absolute form.
    Canonicalize { path: String },
    /// Write text to stdout or stderr.
    Print { text: String, newline: bool, stderr: bool },
}

/// What came of performing an effect: success plus a detail string.
/// On success the detail is the effect's answer (file contents, the
/// canonical path); on failure it describes the error.
#[derive(Debug, PartialEq, Eq)]
pub struct Outcome {
    pub ok: bool,
    pub detail: String,
}

// ---------------------------------------------------------------------------
// Path extension for the fan-out commands
// ---------------------------------------------------------------------------

/// The destination rule of `CopyTo` and `MoveTo`: append with a separator
/// unless the head already ends in one.
pub open spec fn extended_path(head: Seq<char>, end: Seq<char>) -> Seq<char> {
    if head.len() > 0 && (head.last() == '/' || head.last() == '\\') {
        head + end
    } else {
        head + seq!['/'] + end
    }
}

/// Append `end` to `head`, inserting `/` unless `head` already ends in a
/// path separator.
pub fn extend_path(head: &String, end: &String) -> (r: String)
    ensures
        r@ == extended_path(head@, end@),
{
    let hc = crate::lexer::str_chars(head.as_str());
    let ec = crate::lexer::str_chars(end.as_str());
    let mut out: Vec<char> = hc;
    if !(out.len() > 0 && (out[out.len() - 1] == '/' || out[out.len() - 1] == '\\')) {
        out.push('/');
    }
    let mut k: usize = 0;
    while k < ec.len()
        invariant
            k <= ec@.len(),
            ec@ == end@,
            out@ == if head@.len() > 0 && (head@.last() == '/' || head@.last() == '\\') {
                head@ + ec@.take(k as int)
            } else {
                head@ + seq!['/'] + ec@.take(k as int)
            },
        decreases ec@.len() - k,
    {
        out.push(ec[k]);
        k += 1;
        proof {
            assert(ec@.take(k as int) =~= ec@.take(k - 1).push(ec@[k - 1]));
        }
    }
    proof {
        assert(ec@.take(ec@.len() as int) =~= ec@);
    }
    crate::lexer::chars_string(&out)
}

// ---------------------------------------------------------------------------
// The environment snapshot
// ---------------------------------------------------------------------------

/// The mathematical content of an environment snapshot.
pub open spec fn env_map(s: Seq<(Seq<char>, Seq<char>)>) -> Map<Seq<char>, Seq<char>>
    decreases s.len(),
{
    if s.len() == 0 {
        Map::empty()
    } else {
        env_map(s.drop_last()).insert(s.last().0, s.last().1)
    }
}

/// No variable is listed twice.
pub open spec fn env_keys_unique(s: Seq<(Seq<char>, Seq<char>)>) -> bool {
    forall|i: int, j: int| 0 <= i < j < s.len() ==> (#[trigger] s[i]).0 != (#[trigger] s[j]).0
}

/// The snapshot holds a key exactly when its map does.
pub proof fn lemma_env_map_domain(s: Seq<(Seq<char>, Seq<char>)>)
    ensures
        forall|k: Seq<char>|
            env_map(s).contains_key(k) <==> exists|i: int| 0 <= i < s.len() && (#[trigger] s[i]).0
                == k,
    decreases s.len(),
{
    if s.len() > 0 {
        lemma_env_map_domain(s.drop_last());
        assert forall|k: Seq<char>|
            env_map(s).contains_key(k) <==> exists|i: int|
                0 <= i < s.len() && (#[trigger] s[i]).0 == k by {
            if env_map(s).contains_key(k) {
                if k == s.last().0 {
                    assert(s[s.len() - 1].0 == k);
                } else {
                    assert(env_map(s.drop_last()).contains_key(k));
                    let i = choose|i: int|
                        0 <= i < s.drop_last().len() && (#[trigger] s.drop_last()[i]).0 == k;
                    assert(s[i].0 == k);
                }
            }
            if exists|i: int| 0 <= i < s.len() && (#[trigger] s[i]).0 == k {
                let i = choose|i: int| 0 <= i < s.len() && s[i].0 == k;
                if i < s.len() - 1 {
                    assert(s.drop_last()[i].0 == k);
                    assert(env_map(s.drop_last()).contains_key(k));
                }
            }
        }
    }
}

/// Updating the entry that holds a key updates the map at that key.
proof fn lemma_env_map_update(s: Seq<(Seq<char>, Seq<char>)>, i: int, v: Seq<char>)
    requires
        env_keys_unique(s),
        0 <= i < s.len(),
    ensures
        env_map(s.update(i, (s[i].0, v))) == env_map(s).insert(s[i].0, v),
    decreases s.len(),
{
    let t = s.update(i, (s[i].0, v));
    if i == s.len() - 1 {
        assert(t.drop_last() =~= s.drop_last());
        assert(env_map(t) =~= env_map(s).insert(s[i].0, v));
    } else {
        assert(t.drop_last() =~= s.drop_last().update(i, (s[i].0, v)));
        assert(s.drop_last()[i] == s[i]);
        lemma_env_map_update(s.drop_last(), i, v);
        assert(t.last() == s.last());
        assert(env_map(t) == env_map(s.drop_last()).insert(s[i].0, v).insert(
            s.last().0,
            s.last().1,
        ));
        assert(s[i].0 != s.last().0);
        assert(env_map(s.drop_last()).insert(s[i].0, v).insert(s.last().0, s.last().1)
            =~= env_map(s.drop_last()).insert(s.last().0, s.last().1).insert(s[i].0, v));
    }
}

/// Removing the entry that holds a key removes that key from the map.
proof fn lemma_env_map_remove(s: Seq<(Seq<char>, Seq<char>)>, i: int)
    requires
        env_keys_unique(s),
        0 <= i < s.len(),
    ensures
        env_map(s.remove(i)) == env_map(s).remove(s[i].0),
    decreases s.len(),
{
    let t = s.remove(i);
    if i == s.len() - 1 {
        assert(t =~= s.drop_last());
        lemma_env_map_domain(s.drop_last());
        assert(!env_map(s.drop_last()).contains_key(s[i].0));
        assert(env_map(t) =~= env_map(s).remove(s[i].0));
    } else {
        assert(t.drop_last() =~= s.drop_last().remove(i));
        assert(t.last() == s.last());
        assert(s.drop_last()[i] == s[i]);
        lemma_env_map_remove(s.drop_last(), i);
        assert(s[i].0 != s.last().0);
        assert(env_map(t) == env_map(s.drop_last()).remove(s[i].0).insert(
            s.last().0,
            s.last().1,
        ));
        assert(env_map(s.drop_last()).remove(s[i].0).insert(s.last().0, s.last().1)
            =~= env_map(s.drop_last()).insert(s.last().0, s.last().1).remove(s[i].0));
    }
}

/// The index of the variable, if it is set.
fn env_find(env: &Vec<(String, String)>, k: &String) -> (r: Option<usize>)
    ensures
        match r {
            Some(i) => i < env@.len() && env.deep_view()[i as int].0 == k@,
            None => forall|i: int| 0 <= i < env@.len() ==> (#[trigger] env.deep_view()[i]).0 != k@,
        },
{
    let mut i: usize = 0;
    while i < env.len()
        invariant
            i <= env@.len(),
            forall|j: int| 0 <= j < i ==> (#[trigger] env.deep_view()[j]).0 != k@,
        decreases env@.len() - i,
    {
        if env[i].0 == *k {
            return Some(i);
        }
        i += 1;
    }
    None
}

/// Copy-on-write update: set the variable in the snapshot.
pub fn env_set(env: &mut Vec<(String, String)>, k: &String, v: &String)
    requires
        env_keys_unique(old(env).deep_view()),
    ensures
        env_keys_unique(final(env).deep_view()),
        env_map(final(env).deep_view()) == env_map(old(env).deep_view()).insert(k@, v@),
{
    let ghost s = env.deep_view();
    match env_find(env, k) {
        Some(i) => {
            env[i] = (k.clone(), v.clone());
            proof {
                assert(env.deep_view() =~= s.update(i as int, (s[i as int].0, v@)));
                lemma_env_map_update(s, i as int, v@);
                assert forall|a: int, b: int|
                    0 <= a < b < env.deep_view().len() implies (#[trigger] env.deep_view()[
                    a
                ]).0 != (#[trigger] env.deep_view()[b]).0 by {
                    assert(env.deep_view()[a].0 == s[a].0);
                    assert(env.deep_view()[b].0 == s[b].0);
                }
            }
        },
        None => {
            env.push((k.clone(), v.clone()));
            proof {
                assert(env.deep_view() =~= s.push((k@, v@)));
                assert(env.deep_view().drop_last() =~= s);
                assert forall|a: int, b: int|
                    0 <= a < b < env.deep_view().len() implies (#[trigger] env.deep_view()[
                    a
                ]).0 != (#[trigger] env.deep_view()[b]).0 by {
                    if b < env.deep_view().len() - 1 {
                        assert(env.deep_view()[a].0 == s[a].0);
                        assert(env.deep_view()[b].0 == s[b].0);
                    } else {
                        assert(env.deep_view()[a].0 == s[a].0);
                    }
                }
            }
        },
    }
}

/// Copy-on-write update: unset the variable in the snapshot.
pub fn env_remove(env: &mut Vec<(String, String)>, k: &String)
    requires
        env_keys_unique(old(env).deep_view()),
    ensures
        env_keys_unique(final(env).deep_view()),
        env_map(final(env).deep_view()) == env_map(old(env).deep_view()).remove(k@),
{
    let ghost s = env.deep_view();
    match env_find(env, k) {
        Some(i) => {
            env.remove(i);
            proof {
                assert(env.deep_view() =~= s.remove(i as int));
                lemma_env_map_remove(s, i as int);
                assert forall|a: int, b: int|
                    0 <= a < b < env.deep_view().len() implies (#[trigger] env.deep_view()[
                    a
                ]).0 != (#[trigger] env.deep_view()[b]).0 by {
                    let sa = if a < i as int {
                        a
                    } else {
                        a + 1
                    };
                    let sb = if b < i as int {
                        b
                    } else {
                        b + 1
                    };
                    assert(env.deep_view()[a].0 == s[sa].0);
                    assert(env.deep_view()[b].0 == s[sb].0);
                }
            }
        },
        None => {
            proof {
                lemma_env_map_domain(s);
                assert(!env_map(s).contains_key(k@));
                assert(env_map(s).remove(k@) =~= env_map(s));
            }
        },
    }
}

// ---------------------------------------------------------------------------
// PATH lists
// ---------------------------------------------------------------------------

/// Split on `:` with an accumulator for the word being read.
pub open spec fn split_acc(s: Seq<char>, cur: Seq<char>) -> Seq<Seq<char>>
    decreases s.len(),
{
    if s.len() == 0 {
        seq![cur]
    } else if s.first() == ':' {
        seq![cur] + split_acc(s.drop_first(), Seq::empty())
    } else {
        split_acc(s.drop_first(), cur.push(s.first()))
    }
}

/// The entries of a PATH value, split at every `:`.
pub open spec fn split_colon_spec(s: Seq<char>) -> Seq<Seq<char>> {
    split_acc(s, Seq::empty())
}

/// The PATH value that lists the entries, separated by `:`.
pub open spec fn join_colon_spec(parts: Seq<Seq<char>>) -> Seq<char>
    decreases parts.len(),
{
    if parts.len() == 0 {
        Seq::empty()
    } else if parts.len() == 1 {
        parts[0]
    } else {
        join_colon_spec(parts.drop_last()) + seq![':'] + parts.last()
    }
}

/// No entry contains the separator, so the list survives a round trip.
pub open spec fn joinable(parts: Seq<Seq<char>>) -> bool {
    forall|i: int| 0 <= i < parts.len() ==> !(#[trigger] parts[i]).contains(':')
}

/// Split a PATH value at every `:`.
#[verifier::loop_isolation(false)]
pub fn split_colon(s: &String) -> (r: Vec<String>)
    ensures
        r.deep_view() == split_colon_spec(s@),
{
    let cs = crate::lexer::str_chars(s.as_str());
    let n = cs.len();
    let mut out: Vec<String> = Vec::new();
    let mut cur: Vec<char> = Vec::new();
    let mut i: usize = 0;
    proof {
        assert(cs@.skip(0) =~= cs@);
        assert(out.deep_view() + split_acc(cs@.skip(0), cur@) =~= split_acc(s@, Seq::empty()));
    }
    while i < n
        invariant
            i <= n,
            split_colon_spec(s@) == out.deep_view() + split_acc(cs@.skip(i as int), cur@),
        decreases n - i,
    {
        proof {
            assert(cs@.skip(i as int).first() == cs@[i as int]);
            assert(cs@.skip(i as int).drop_first() =~= cs@.skip(i + 1));
        }
        if cs[i] == ':' {
            out.push(crate::lexer::chars_string(&cur));
            cur = Vec::new();
            proof {
                assert(out.deep_view() + split_acc(cs@.skip(i + 1), cur@) =~= split_colon_spec(
                    s@,
                ));
            }
        } else {
            cur.push(cs[i]);
        }
        i += 1;
    }
    proof {
        assert(cs@.skip(n as int) =~= Seq::<char>::empty());
    }
    out.push(crate::lexer::chars_string(&cur));
    proof {
        assert(out.deep_view() =~= split_colon_spec(s@));
    }
    out
}

fn has_colon(p: &String) -> (r: bool)
    ensures
        r == p@.contains(':'),
{
    let cs = crate::lexer::str_chars(p.as_str());
    let mut i: usize = 0;
    while i < cs.len()
        invariant
            i <= cs@.len(),
            cs@ == p@,
            forall|j: int| 0 <= j < i ==> p@[j] != ':',
        decreases cs@.len() - i,
    {
        if cs[i] == ':' {
            return true;
        }
        i += 1;
    }
    proof {
        if p@.contains(':') {
            let j = choose|j: int| 0 <= j < p@.len() && p@[j] == ':';
        }
    }
    false
}

/// Join PATH entries with `:`; refuse an entry that contains the
/// separator, as the platform does.
#[verifier::loop_isolation(false)]
pub fn join_colon(parts: &Vec<String>) -> (r: Result<String, String>)
    ensures
        match r {
            Ok(s) => joinable(parts.deep_view()) && s@ == join_colon_spec(parts.deep_view()),
            Err(_) => !joinable(parts.deep_view()),
        },
{
    let mut out: Vec<char> = Vec::new();
    let mut k: usize = 0;
    while k < parts.len()
        invariant
            k <= parts@.len(),
            out@ == join_colon_spec(parts.deep_view().take(k as int)),
            forall|i: int| 0 <= i < k ==> !(#[trigger] parts.deep_view()[i]).contains(':'),
        decreases parts@.len() - k,
    {
        if has_colon(&parts[k]) {
            proof {
                assert(parts.deep_view()[k as int].contains(':'));
            }
            return Err(String::from_str("path entry contains a separator"));
        }
        let pc = crate::lexer::str_chars(parts[k].as_str());
        if k > 0 {
            out.push(':');
        }
        let mut j: usize = 0;
        while j < pc.len()
            invariant
                j <= pc@.len(),
                pc@ == parts.deep_view()[k as int],
                k < parts@.len(),
                out@ == if k == 0 {
                    pc@.take(j as int)
                } else {
                    join_colon_spec(parts.deep_view().take(k as int)) + seq![':'] + pc@.take(
                        j as int,
                    )
                },
            decreases pc@.len() - j,
        {
            out.push(pc[j]);
            j += 1;
            proof {
                assert(pc@.take(j as int) =~= pc@.take(j - 1).push(pc@[j - 1]));
            }
        }
        k += 1;
        proof {
            assert(pc@.take(pc@.len() as int) =~= pc@);
            let t = parts.deep_view().take(k as int);
            assert(t.drop_last() =~= parts.deep_view().take(k - 1));
            assert(t.last() == parts.deep_view()[k - 1]);
            if k == 1 {
                assert(out@ =~= join_colon_spec(t));
            } else {
                assert(out@ =~= join_colon_spec(t));
            }
        }
    }
    proof {
        assert(parts.deep_view().take(parts@.len() as int) =~= parts.deep_view());
    }
    Ok(crate::lexer::chars_string(&out))
}

/// With unique keys, the entry that holds a key gives the map's value.
proof fn lemma_env_map_at(s: Seq<(Seq<char>, Seq<char>)>, i: int)
    requires
        env_keys_unique(s),
        0 <= i < s.len(),
    ensures
        env_map(s).contains_key(s[i].0),
        env_map(s)[s[i].0] == s[i].1,
    decreases s.len(),
{
    if i == s.len() - 1 {
    } else {
        assert(s.drop_last()[i] == s[i]);
        lemma_env_map_at(s.drop_last(), i);
        assert(s[i].0 != s.last().0);
    }
}

/// The PATH entries of a snapshot, or none when PATH is unset.
pub open spec fn path_parts(m: Map<Seq<char>, Seq<char>>) -> Seq<Seq<char>> {
    if m.contains_key("PATH"@) {
        split_colon_spec(m["PATH"@])
    } else {
        Seq::empty()
    }
}

/// The entries that survive removing one path.
pub open spec fn drop_part(parts: Seq<Seq<char>>, p: Seq<char>) -> Seq<Seq<char>>
    decreases parts.len(),
{
    if parts.len() == 0 {
        Seq::empty()
    } else {
        let pre = drop_part(parts.drop_last(), p);
        if parts.last() == p {
            pre
        } else {
            pre.push(parts.last())
        }
    }
}

/// Append a canonical path to the snapshot's PATH.  Fails exactly when
/// an entry of the new PATH list holds the separator.
#[verifier::loop_isolation(false)]
pub fn env_path_push(env: &mut Vec<(String, String)>, canon: &String) -> (r: Result<(), String>)
    requires
        env_keys_unique(old(env).deep_view()),
    ensures
        env_keys_unique(final(env).deep_view()),
        r is Ok <==> joinable(path_parts(env_map(old(env).deep_view())) + seq![canon@]),
        match r {
            Ok(_) => env_map(final(env).deep_view()) == env_map(old(env).deep_view()).insert(
                "PATH"@,
                join_colon_spec(path_parts(env_map(old(env).deep_view())) + seq![canon@]),
            ),
            Err(_) => env_map(final(env).deep_view()) == env_map(old(env).deep_view()),
        },
{
    let ghost s = env.deep_view();
    let path_key = String::from_str("PATH");
    let mut parts: Vec<String> = match env_find(env, &path_key) {
        Some(i) => {
            proof {
                lemma_env_map_at(s, i as int);
            }
            split_colon(&env[i].1)
        },
        None => {
            proof {
                lemma_env_map_domain(s);
            }
            Vec::new()
        },
    };
    proof {
        assert(parts.deep_view() =~= path_parts(env_map(s)));
    }
    parts.push(canon.clone());
    proof {
        assert(parts.deep_view() =~= path_parts(env_map(s)) + seq![canon@]);
    }
    match join_colon(&parts) {
        Ok(joined) => {
            env_set(env, &path_key, &joined);
            Ok(())
        },
        Err(m) => Err(m),
    }
}

/// Drop every PATH entry equal to a canonical path.  Fails exactly when
/// a kept entry holds the separator; an unset PATH is a no-op.
#[verifier::loop_isolation(false)]
pub fn env_path_remove(env: &mut Vec<(String, String)>, canon: &String) -> (r: Result<
    (),
    String,
>)
    requires
        env_keys_unique(old(env).deep_view()),
    ensures
        env_keys_unique(final(env).deep_view()),
        r is Ok <==> (env_map(old(env).deep_view()).contains_key("PATH"@) ==> joinable(
            drop_part(path_parts(env_map(old(env).deep_view())), canon@),
        )),
        match r {
            Ok(_) => env_map(final(env).deep_view()) == if env_map(
                old(env).deep_view(),
            ).contains_key("PATH"@) {
                env_map(old(env).deep_view()).insert(
                    "PATH"@,
                    join_colon_spec(
                        drop_part(path_parts(env_map(old(env).deep_view())), canon@),
                    ),
                )
            } else {
                env_map(old(env).deep_view())
            },
            Err(_) => env_map(final(env).deep_view()) == env_map(old(env).deep_view()),
        },
{
    let ghost s = env.deep_view();
    let path_key = String::from_str("PATH");
    match env_find(env, &path_key) {
        Some(i) => {
            proof {
                lemma_env_map_at(s, i as int);
            }
            let parts = split_colon(&env[i].1);
            let ghost pv = parts.deep_view();
            let mut kept: Vec<String> = Vec::new();
            let mut k: usize = 0;
            while k < parts.len()
                invariant
                    k <= parts@.len(),
                    parts.deep_view() == pv,
                    kept.deep_view() == drop_part(pv.take(k as int), canon@),
                decreases parts@.len() - k,
            {
                proof {
                    assert(pv.take(k + 1).drop_last() =~= pv.take(k as int));
                    assert(pv.take(k + 1).last() == pv[k as int]);
                }
                if !(parts[k] == *canon) {
                    kept.push(parts[k].clone());
                    proof {
                        assert(kept.deep_view() =~= drop_part(pv.take(k as int), canon@).push(
                            pv[k as int],
                        ));
                    }
                }
                k += 1;
            }
            proof {
                assert(pv.take(parts@.len() as int) =~= pv);
            }
            match join_colon(&kept) {
                Ok(joined) => {
                    env_set(env, &path_key, &joined);
                    Ok(())
                },
                Err(m) => Err(m),
            }
        },
        None => {
            proof {
                lemma_env_map_domain(s);
            }
            Ok(())
        },
    }
}

// ---------------------------------------------------------------------------
// The scheduler machine
// ---------------------------------------------------------------------------

/// Unit states: the at-most-once protocol.
pub const UOS_INCOMPLETE: u8 = 0;

pub const UOS_IN_PROGRESS: u8 = 1;

pub const UOS_COMPLETE: u8 = 2;

pub const UOS_FAILED: u8 = 3;

/// Where a paused command continues when its effect's outcome arrives.
#[derive(Debug, Clone, Copy, PartialEq, Eq, Structural)]
pub enum EffCont {
    /// The spawned process finished.
    ExecWait,
    CreateWait,
    CreateDirWait,
    RemoveWait,
    /// A plain `copy` finished.
    CopyWait,
    /// The copy half of `move` finished; the removal follows.
    MoveCopyWait,
    /// The removal half of `move` finished.
    MoveRemoveWait,
    /// Pair `i` of a `copy_to` fan-out finished.
    CopyToWait { i: usize },
    /// The copy half of pair `i` of a `move_to` fan-out finished.
    MoveToCopyWait { i: usize },
    /// The removal half of pair `i` of a `move_to` fan-out finished.
    MoveToRemoveWait { i: usize },
    /// The file was read; it is printed next.
    ReadWait { stderr: bool },
    /// The text was printed; print outcomes are ignored.
    PrintWait,
    /// The path was canonicalized; the PATH list is edited next.
    CanonWait { push: bool },
}

/// What a running unit is doing.
#[derive(Debug, Clone, Copy, PartialEq, Eq, Structural)]
pub enum Phase {
    /// Scanning the dependency list at position `next`.
    Deps { next: usize },
    /// A frame for dependency `next` runs above this one.
    AwaitDep { next: usize },
    /// Dependency `next` was seen in progress elsewhere; poll it.
    Blocked { next: usize },
    /// Dispatching the command list at position `next`.
    Cmds { next: usize },
    /// Command `next` waits for the outcome of an outside effect.
    AwaitEffect { next: usize, cont: EffCont },
    /// Inside the `do(...)` list of command `next`, at entry `item`.
    DoStep { next: usize, item: usize },
    /// A frame for entry `item` of the `do(...)` list runs above this one.
    AwaitDo { next: usize, item: usize },
}

/// One activation record: a unit being run.
pub struct Frame {
    /// Index of the unit in the module's unit list.
    pub unit: usize,
    /// Whether this activation claimed the unit's state byte.  The root
    /// and every dependency activation claim; inline `do` invocations do
    /// not, and so may run a unit's body again.
    pub claimed: bool,
    pub phase: Phase,
    /// The dependency failures aggregated so far.
    pub errors: Vec<RuntimeError>,
    /// Which dependency each buffer entry accounts for, in scan order.
    pub err_deps: Ghost<Seq<int>>,
}

pub open spec fn udeps(m: ModuleV, u: int) -> Seq<SpannedV> {
    m.units[u].1.depends_on
}

pub open spec fn ucmds(m: ModuleV, u: int) -> Seq<CommandV> {
    m.units[u].1.commands
}

pub open spec fn uname(m: ModuleV, u: int) -> Seq<char> {
    m.units[u].0.text
}

/// The continuation agrees with the command it belongs to.
pub open spec fn cont_wf(m: ModuleV, u: int, next: int, cont: EffCont) -> bool {
    let c = ucmds(m, u)[next];
    match cont {
        EffCont::ExecWait => c is Exec,
        EffCont::CreateWait => c matches CommandV::Fs(f) && f is Create,
        EffCont::CreateDirWait => c matches CommandV::Fs(f) && f is CreateDir,
        EffCont::RemoveWait => c matches CommandV::Fs(f) && f is Remove,
        EffCont::CopyWait => c matches CommandV::Fs(f) && f is Copy,
        EffCont::MoveCopyWait => c matches CommandV::Fs(f) && f is Move,
        EffCont::MoveRemoveWait => c matches CommandV::Fs(f) && f is Move,
        EffCont::CopyToWait { i } => c matches CommandV::Fs(f) && f matches FsCommandV::CopyTo(
            _,
            map,
        ) && i < map.len(),
        EffCont::MoveToCopyWait { i } => c matches CommandV::Fs(f) && f matches FsCommandV::MoveTo(
            _,
            map,
        ) && i < map.len(),
        EffCont::MoveToRemoveWait { i } => c matches CommandV::Fs(f) && f
            matches FsCommandV::MoveTo(_, map) && i < map.len(),
        EffCont::ReadWait { .. } => c matches CommandV::Fs(f) && (f is PrintFile
            || f is EPrintFile),
        EffCont::PrintWait => true,
        EffCont::CanonWait { .. } => c matches CommandV::Env(e) && (e is PathPush
            || e is PathRemove),
    }
}

/// The frame's positions lie within its unit.
pub open spec fn frame_wf(m: ModuleV, f: Frame) -> bool {
    &&& 0 <= (f.unit as int) < m.units.len()
    &&& match f.phase {
        Phase::Deps { next } => next <= udeps(m, f.unit as int).len(),
        Phase::AwaitDep { next } => next < udeps(m, f.unit as int).len(),
        Phase::Blocked { next } => next < udeps(m, f.unit as int).len(),
        Phase::Cmds { next } => next <= ucmds(m, f.unit as int).len(),
        Phase::AwaitEffect { next, cont } => next < ucmds(m, f.unit as int).len() && cont_wf(
            m,
            f.unit as int,
            next as int,
            cont,
        ),
        Phase::DoStep { next, item } => next < ucmds(m, f.unit as int).len() && (ucmds(
            m,
            f.unit as int,
        )[next as int] matches CommandV::Do(list) && item <= list.len()),
        Phase::AwaitDo { next, item } => next < ucmds(m, f.unit as int).len() && (ucmds(
            m,
            f.unit as int,
        )[next as int] matches CommandV::Do(list) && item < list.len()),
    }
}

pub open spec fn is_waiting(f: Frame) -> bool {
    f.phase is AwaitDep || f.phase is AwaitDo
}

/// How many `Start` events name the unit.
pub open spec fn count_starts(evs: Seq<NotifierEvent>, n: Seq<char>) -> int
    decreases evs.len(),
{
    if evs.len() == 0 {
        0
    } else {
        count_starts(evs.drop_last(), n) + (match evs.last() {
            NotifierEvent::Start(s) => if s@ == n {
                1int
            } else {
                0int
            },
            _ => 0int,
        })
    }
}

proof fn lemma_count_starts_push(evs: Seq<NotifierEvent>, e: NotifierEvent, n: Seq<char>)
    ensures
        count_starts(evs.push(e), n) == count_starts(evs, n) + (match e {
            NotifierEvent::Start(s) => if s@ == n {
                1int
            } else {
                0int
            },
            _ => 0int,
        }),
{
    assert(evs.push(e).drop_last() =~= evs);
}

/// No unit's command list holds an inline invocation.
pub open spec fn no_do(m: ModuleV) -> bool {
    forall|u: int, c: int|
        0 <= u < m.units.len() && 0 <= c < ucmds(m, u).len() ==> !((#[trigger] ucmds(m, u)[c])
            is Do)
}

/// Every command of every unit is an environment operation.
pub open spec fn env_only(m: ModuleV) -> bool {
    forall|u: int, c: int|
        0 <= u < m.units.len() && 0 <= c < ucmds(m, u).len() ==> (#[trigger] ucmds(m, u)[c]) is Env
}

/// The index of the unit with this name; meaningful when a unit with the
/// name exists, unique whenever the module is well formed.
pub open spec fn uidx(m: ModuleV, n: Seq<char>) -> int {
    choose|k: int| 0 <= k < m.units.len() && uname(m, k) == n
}

/// With unique names, `uidx` inverts `uname`.
pub proof fn lemma_uidx(m: ModuleV, k: int)
    requires
        crate::module_wf(m),
        0 <= k < m.units.len(),
    ensures
        uidx(m, uname(m, k)) == k,
{
    assert(0 <= k < m.units.len() && uname(m, k) == uname(m, k));
    let j = uidx(m, uname(m, k));
    if j != k {
        if j < k {
            assert(m.units[j].0.text != m.units[k].0.text);
        } else {
            assert(m.units[k].0.text != m.units[j].0.text);
        }
    }
}

/// The state byte of dependency `d` of unit `u`.
pub open spec fn dep_state(m: ModuleV, states: Seq<u8>, u: int, d: int) -> u8 {
    states[uidx(m, udeps(m, u)[d].text)]
}

/// The dependencies scanned so far are settled, and all of them
/// successfully when no failure has been recorded yet.
pub open spec fn scanned_ok(m: ModuleV, states: Seq<u8>, f: Frame, upto: int) -> bool {
    &&& forall|d: int|
        0 <= d < upto ==> (#[trigger] dep_state(m, states, f.unit as int, d)) == 2 || dep_state(
            m,
            states,
            f.unit as int,
            d,
        ) == 3
    &&& f.errors@.len() == 0 ==> forall|d: int|
        0 <= d < upto ==> (#[trigger] dep_state(m, states, f.unit as int, d)) == 2
}

/// Every dependency of the unit has completed.
pub open spec fn all_deps_complete(m: ModuleV, states: Seq<u8>, u: int) -> bool {
    forall|d: int|
        0 <= d < udeps(m, u).len() ==> (#[trigger] dep_state(m, states, u, d)) == 2
}

/// What each phase knows about the unit's dependencies.
pub open spec fn frame_deps_ok(m: ModuleV, states: Seq<u8>, f: Frame) -> bool {
    match f.phase {
        Phase::Deps { next } => scanned_ok(m, states, f, next as int),
        Phase::AwaitDep { next } => scanned_ok(m, states, f, next as int),
        Phase::Blocked { next } => scanned_ok(m, states, f, next as int),
        Phase::Cmds { .. } => all_deps_complete(m, states, f.unit as int),
        Phase::AwaitEffect { .. } => all_deps_complete(m, states, f.unit as int),
        Phase::DoStep { .. } => all_deps_complete(m, states, f.unit as int),
        Phase::AwaitDo { .. } => all_deps_complete(m, states, f.unit as int),
    }
}

/// The indices of the dependencies among the first `k` that have failed,
/// in scan order.
pub open spec fn failed_list(m: ModuleV, states: Seq<u8>, u: int, k: int) -> Seq<int>
    decreases k,
{
    if k <= 0 {
        Seq::empty()
    } else {
        let pre = failed_list(m, states, u, k - 1);
        if dep_state(m, states, u, k - 1) == 3 {
            pre.push(k - 1)
        } else {
            pre
        }
    }
}

/// The failure buffer holds exactly one entry per failed dependency
/// among those already scanned — entry `j` accounts for the failed
/// dependency `f.err_deps@[j]`, and a `FailedDependency` entry names
/// exactly that dependency.  Once commands run, the buffer is empty.
pub open spec fn frame_errs_ok(m: ModuleV, states: Seq<u8>, f: Frame) -> bool {
    match f.phase {
        Phase::Deps { next } => scan_errs_ok(m, states, f, next as int),
        Phase::AwaitDep { next } => scan_errs_ok(m, states, f, next as int),
        Phase::Blocked { next } => scan_errs_ok(m, states, f, next as int),
        _ => f.errors@.len() == 0,
    }
}

pub open spec fn scan_errs_ok(m: ModuleV, states: Seq<u8>, f: Frame, upto: int) -> bool {
    &&& f.err_deps@ == failed_list(m, states, f.unit as int, upto)
    &&& f.errors@.len() == f.err_deps@.len()
    &&& forall|j: int|
        0 <= j < f.errors@.len() ==> ((#[trigger] f.errors@[j]) matches
            RuntimeError::FailedDependency(p, c) ==> p@ == uname(m, f.unit as int) && c@.text
            == udeps(m, f.unit as int)[f.err_deps@[j]].text)
}

/// Writing a non-terminal state byte does not change which settled
/// dependencies have failed.
proof fn lemma_failed_list_update(m: ModuleV, s0: Seq<u8>, t: int, v: u8, u: int, k: int)
    requires
        crate::module_wf(m),
        s0.len() == m.units.len(),
        0 <= t < s0.len(),
        s0[t] == 0 || s0[t] == 1,
        0 <= u < m.units.len(),
        k <= udeps(m, u).len(),
        forall|d: int|
            0 <= d < k ==> (#[trigger] dep_state(m, s0, u, d)) == 2 || dep_state(m, s0, u, d)
                == 3,
    ensures
        failed_list(m, s0.update(t, v), u, k) == failed_list(m, s0, u, k),
    decreases k,
{
    if k > 0 {
        lemma_failed_list_update(m, s0, t, v, u, k - 1);
        lemma_dep_idx_bounds(m, u, k - 1);
        let x = uidx(m, udeps(m, u)[k - 1].text);
        if x == t {
            assert(dep_state(m, s0, u, k - 1) == s0[t]);
        } else {
            assert(dep_state(m, s0.update(t, v), u, k - 1) == dep_state(m, s0, u, k - 1));
        }
    }
}

/// How a waiting frame relates to the activation above it.
pub open spec fn parent_link(m: ModuleV, parent: Frame, child: Frame) -> bool {
    match parent.phase {
        Phase::AwaitDep { next } => child.claimed && uname(m, child.unit as int) == udeps(
            m,
            parent.unit as int,
        )[next as int].text,
        Phase::AwaitDo { next, item } => !child.claimed && (ucmds(m, parent.unit as int)[
            next as int
        ] matches CommandV::Do(l) && uname(m, child.unit as int) == l[item as int].text),
        _ => false,
    }
}

/// Has the unit announced completion?
pub open spec fn has_complete(evs: Seq<NotifierEvent>, n: Seq<char>) -> bool {
    exists|j: int|
        0 <= j < evs.len() && (#[trigger] evs[j] matches NotifierEvent::Complete(s) && s@ == n)
}

/// Dependency precedence, read off the event log: by the time a unit's
/// command is dispatched, every one of its dependencies has announced
/// completion.
pub open spec fn call_prec(m: ModuleV, evs: Seq<NotifierEvent>, k: int) -> bool {
    evs[k] matches NotifierEvent::Call(un, _) ==> forall|uu: int, d: int|
        0 <= uu < m.units.len() && uname(m, uu) == un@ && 0 <= d < udeps(m, uu).len()
            ==> has_complete(evs.take(k), (#[trigger] udeps(m, uu)[d]).text)
}

/// Appending an event keeps every announced completion and every
/// precedence fact about earlier entries; a non-call entry is trivially
/// fine on its own.
proof fn lemma_log_extend(m: ModuleV, evs: Seq<NotifierEvent>, e: NotifierEvent)
    ensures
        forall|n: Seq<char>| has_complete(evs, n) ==> has_complete(evs.push(e), n),
        forall|k: int|
            0 <= k < evs.len() && call_prec(m, evs, k) ==> call_prec(m, evs.push(e), k),
        !(e is Call) ==> call_prec(m, evs.push(e), evs.len() as int),
{
    assert forall|n: Seq<char>| has_complete(evs, n) implies has_complete(evs.push(e), n) by {
        let j = choose|j: int|
            0 <= j < evs.len() && (#[trigger] evs[j] matches NotifierEvent::Complete(s) && s@
                == n);
        assert(evs.push(e)[j] == evs[j]);
    }
    assert forall|k: int|
        0 <= k < evs.len() && call_prec(m, evs, k) implies call_prec(m, evs.push(e), k) by {
        assert(evs.push(e)[k] == evs[k]);
        assert(evs.push(e).take(k) =~= evs.take(k));
    }
}

/// A dependency's name resolves to a unit index in range.
proof fn lemma_dep_idx_bounds(m: ModuleV, u: int, d: int)
    requires
        crate::module_wf(m),
        0 <= u < m.units.len(),
        0 <= d < udeps(m, u).len(),
    ensures
        0 <= uidx(m, udeps(m, u)[d].text) < m.units.len(),
        uname(m, uidx(m, udeps(m, u)[d].text)) == udeps(m, u)[d].text,
{
    assert(crate::unit_resolved(m.units[u].1, crate::mod_names(m)));
    assert(crate::mod_names(m).contains(udeps(m, u)[d].text));
    let k = choose|k: int|
        0 <= k < crate::mod_names(m).len() && crate::mod_names(m)[k] == udeps(m, u)[d].text;
    assert(uname(m, k) == udeps(m, u)[d].text);
}

/// Writing a state byte that was not yet terminal cannot unsettle what a
/// frame knows of its dependencies.
proof fn lemma_frame_deps_update(m: ModuleV, s0: Seq<u8>, t: int, v: u8, f: Frame)
    requires
        crate::module_wf(m),
        s0.len() == m.units.len(),
        0 <= t < s0.len(),
        s0[t] == 0 || s0[t] == 1,
        frame_deps_ok(m, s0, f),
        frame_wf(m, f),
    ensures
        frame_deps_ok(m, s0.update(t, v), f),
{
    let s1 = s0.update(t, v);
    let u = f.unit as int;
    assert forall|d: int|
        0 <= d < udeps(m, u).len() && (dep_state(m, s0, u, d) == 2 || dep_state(m, s0, u, d)
            == 3) implies #[trigger] dep_state(m, s1, u, d) == dep_state(m, s0, u, d) by {
        lemma_dep_idx_bounds(m, u, d);
        let x = uidx(m, udeps(m, u)[d].text);
        if x == t {
            assert(dep_state(m, s0, u, d) == s0[t]);
        }
    }
    assert forall|d: int|
        0 <= d < udeps(m, u).len() && (#[trigger] dep_state(m, s1, u, d)) != dep_state(
            m,
            s0,
            u,
            d,
        ) implies dep_state(m, s0, u, d) != 2 && dep_state(m, s0, u, d) != 3 by {
        lemma_dep_idx_bounds(m, u, d);
        let x = uidx(m, udeps(m, u)[d].text);
        if x == t {
            assert(dep_state(m, s0, u, d) == s0[t]);
        } else {
            assert(dep_state(m, s1, u, d) == dep_state(m, s0, u, d));
        }
    }
}
/// The execution engine.  It owns the module, the per-unit state bytes,
/// the environment snapshot and the event log; the caller performs the
/// requested effects.
pub struct Runtime<N> {
    pub module: Module,
    pub notifier: N,
    /// One state byte per unit, in unit order.
    pub states: Vec<u8>,
    /// The environment snapshot handed to spawned processes.
    pub env: Vec<(String, String)>,
    /// The activation stack; every frame below the top waits on its child.
    pub stack: Vec<Frame>,
    /// The result of the activation that just finished.
    pub ret: Option<Result<(), RuntimeError>>,
    /// The effect the caller must perform before the run can go on.
    pub pending: Option<Effect>,
    /// Every event emitted so far, oldest first.
    pub events: Vec<NotifierEvent>,
    /// The result of the whole run, once it has ended.
    pub done: Option<Result<(), RuntimeError>>,
    /// The units claimed so far, in claim order.
    pub claims: Ghost<Seq<int>>,
    /// Every effect ever requested, oldest first.
    pub effq: Ghost<Seq<Effect>>,
}

impl<N: Notifier> Runtime<N> {
    pub open spec fn mv(self) -> ModuleV {
        self.module.deep_view()
    }

    /// The machine's invariant apart from the stack-top coupling.
    pub open spec fn base_inv(self) -> bool {
        let m = self.mv();
        &&& crate::module_wf(m)
        &&& self.states@.len() == m.units.len()
        &&& forall|u: int| 0 <= u < self.states@.len() ==> (#[trigger] self.states@[u]) <= 3
        &&& env_keys_unique(self.env.deep_view())
        // claims record exactly the units whose state byte left INCOMPLETE
        &&& forall|k: int| 0 <= k < self.claims@.len() ==> 0 <= #[trigger] self.claims@[k]
            < m.units.len()
        &&& forall|k1: int, k2: int|
            0 <= k1 < k2 < self.claims@.len() ==> self.claims@[k1] != self.claims@[k2]
        &&& forall|u: int|
            0 <= u < self.states@.len() ==> ((#[trigger] self.states@[u]) != 0
                <==> self.claims@.contains(u))
        // at-most-once bookkeeping: without inline invocations, `Start`
        // events and claims are in one-to-one correspondence
        &&& no_do(m) ==> forall|u: int|
            0 <= u < m.units.len() ==> count_starts(self.events@, uname(m, u)) == (
            if self.claims@.contains(u) {
                1int
            } else {
                0int
            })
        // environment isolation: an Env-only module asks the host for
        // nothing but path canonicalization, a read
        &&& env_only(m) ==> (forall|k: int|
            0 <= k < self.effq@.len() ==> (#[trigger] self.effq@[k]) is Canonicalize)
        // claimed frames hold the claim
        &&& forall|i: int|
            0 <= i < self.stack@.len() && (#[trigger] self.stack@[i]).claimed ==> self.states@[
                self.stack@[i].unit as int
            ] == 1
        // no two activations hold the same claim
        &&& forall|i: int, j: int|
            0 <= i < j < self.stack@.len() && (#[trigger] self.stack@[i]).claimed && (
            #[trigger] self.stack@[j]).claimed ==> self.stack@[i].unit != self.stack@[j].unit
        // a completed unit has announced it
        &&& forall|u: int|
            0 <= u < self.states@.len() && (#[trigger] self.states@[u]) == 2 ==> has_complete(
                self.events@,
                uname(m, u),
            )
        // what each activation knows of its dependencies
        &&& forall|i: int|
            0 <= i < self.stack@.len() ==> frame_deps_ok(m, self.states@, #[trigger] self.stack@[i])
        // one aggregated entry per failed dependency
        &&& forall|i: int|
            0 <= i < self.stack@.len() ==> frame_errs_ok(m, self.states@, #[trigger] self.stack@[i])
        // dependency precedence over the whole log
        &&& forall|k: int| 0 <= k < self.events@.len() ==> call_prec(m, self.events@, k)
    }

    /// The full invariant, with the stack discipline.
    pub open spec fn inv(self) -> bool {
        &&& self.base_inv()
        &&& forall|i: int| 0 <= i < self.stack@.len() ==> frame_wf(self.mv(), #[trigger] self.stack@[i])
        &&& forall|i: int|
            0 <= i < self.stack@.len() - 1 ==> is_waiting(#[trigger] self.stack@[i])
        &&& (self.ret is Some <==> self.stack@.len() > 0 && is_waiting(self.stack@.last()))
        &&& (self.pending is Some <==> self.stack@.len() > 0 && self.stack@.last().phase
            is AwaitEffect)
        &&& (self.done is Some ==> self.stack@.len() == 0 && self.pending is None && self.ret
            is None)
        &&& match self.ret {
            Some(Err(e)) => !(e is FailedDependency),
            _ => true,
        }
        &&& forall|i: int|
            0 <= i < self.stack@.len() - 1 ==> parent_link(
                self.mv(),
                #[trigger] self.stack@[i],
                self.stack@[i + 1],
            )
        &&& (self.ret is Some ==> (self.stack@.last().phase matches Phase::AwaitDep { next }
            ==> dep_state(self.mv(), self.states@, self.stack@.last().unit as int, next as int)
            == (if self.ret->Some_0 is Ok {
            2u8
        } else {
            3u8
        })))
    }

    /// A fresh engine over a lowered module.  Every unit is incomplete;
    /// the snapshot starts from the environment the caller read at
    /// construction time.
    pub fn new(module: Module, notifier: N, initial_env: Vec<(String, String)>) -> (r: Runtime<N>)
        requires
            crate::module_wf(module.deep_view()),
            env_keys_unique(initial_env.deep_view()),
        ensures
            r.inv(),
            r.module == module,
            r.env == initial_env,
            r.events@.len() == 0,
            r.stack@.len() == 0,
            r.done is None,
            r.pending is None,
            r.claims@.len() == 0,
            r.effq@.len() == 0,
            forall|u: int| 0 <= u < r.states@.len() ==> (#[trigger] r.states@[u]) == 0,
    {
        let n = module.units.len();
        let mut states: Vec<u8> = Vec::new();
        let mut i: usize = 0;
        while i < n
            invariant
                i <= n,
                states@.len() == i,
                forall|u: int| 0 <= u < i ==> (#[trigger] states@[u]) == 0,
            decreases n - i,
        {
            states.push(0);
            i += 1;
        }
        Runtime {
            module,
            notifier,
            states,
            env: initial_env,
            stack: Vec::new(),
            ret: None,
            pending: None,
            events: Vec::new(),
            done: None,
            claims: Ghost(Seq::empty()),
            effq: Ghost(Seq::empty()),
        }
    }

    /// The observer this engine reports to.
    pub fn notifier(&self) -> (r: &N)
        ensures
            r == &self.notifier,
    {
        &self.notifier
    }

    /// The event log so far, oldest first.
    pub fn events(&self) -> (r: &Vec<NotifierEvent>)
        ensures
            r == &self.events,
    {
        &self.events
    }

    /// The effect the caller must perform next, if any.
    pub fn pending_effect(&self) -> (r: &Option<Effect>)
        ensures
            r == &self.pending,
    {
        &self.pending
    }

    /// The result of the run, once the run has ended.
    pub fn result(&self) -> (r: &Option<Result<(), RuntimeError>>)
        ensures
            r == &self.done,
    {
        &self.done
    }

    /// The current environment snapshot.
    pub fn env_snapshot(&self) -> (r: &Vec<(String, String)>)
        ensures
            r == &self.env,
    {
        &self.env
    }
}

/// The same frame in another phase.
pub open spec fn with_phase(fr: Frame, ph: Phase) -> Frame {
    Frame { unit: fr.unit, claimed: fr.claimed, phase: ph, errors: fr.errors, err_deps: fr.err_deps }
}

impl<N: Notifier> Runtime<N> {
    /// The acting activation ended: the result lands in `done` at the
    /// root, else in `ret` for the waiting parent below.
    pub open spec fn ended(base: Seq<Frame>, post: Self) -> bool {
        &&& post.stack@ == base
        &&& if base.len() == 0 {
            post.done is Some && post.ret is None
        } else {
            post.ret is Some && post.done is None
        }
    }

    /// The result the ended activation passed down.
    pub open spec fn ended_res(base: Seq<Frame>, post: Self) -> Result<(), RuntimeError> {
        if base.len() == 0 {
            post.done->Some_0
        } else {
            post.ret->Some_0
        }
    }

    /// The acting frame went on to command `next + 1`.
    pub open spec fn advanced(base: Seq<Frame>, post: Self, fr: Frame, next: int) -> bool {
        &&& post.stack@.len() == base.len() + 1
        &&& base.is_prefix_of(post.stack@)
        &&& post.stack@.last().unit == fr.unit
        &&& post.stack@.last().claimed == fr.claimed
        &&& post.stack@.last().errors@ == fr.errors@
        &&& post.stack@.last().phase == (Phase::Cmds { next: (next + 1) as usize })
        &&& post.pending is None
        &&& post.ret is None
        &&& post.done is None
    }

    /// The acting frame paused on an outside effect, which is now pending
    /// and recorded in the effect queue.
    pub open spec fn paused(
        base: Seq<Frame>,
        effq0: Seq<Effect>,
        post: Self,
        fr: Frame,
        next: int,
        cont: EffCont,
    ) -> bool {
        &&& post.stack@.len() == base.len() + 1
        &&& base.is_prefix_of(post.stack@)
        &&& post.stack@.last().unit == fr.unit
        &&& post.stack@.last().claimed == fr.claimed
        &&& post.stack@.last().errors@ == fr.errors@
        &&& post.stack@.last().phase == (Phase::AwaitEffect { next: next as usize, cont })
        &&& post.pending is Some
        &&& post.effq@ == effq0.push(post.pending->Some_0)
        &&& post.ret is None
        &&& post.done is None
    }

    /// The acting unit failed on error `ev`: exactly one `Error` event
    /// carrying `ev` alone is appended, the claim (if held) turns
    /// `FAILED`, and the activation ends with `Err(ev)`.
    pub open spec fn failed_with(
        base: Seq<Frame>,
        st0: Seq<u8>,
        ev0: Seq<NotifierEvent>,
        post: Self,
        u: int,
        claimed: bool,
        ev: RuntimeErrorV,
    ) -> bool {
        &&& post.events@.len() == ev0.len() + 1
        &&& ev0.is_prefix_of(post.events@)
        &&& (post.events@.last() matches NotifierEvent::Error(l) && l.deep_view().len() == 1
            && l.deep_view()[0] == ev)
        &&& post.states@ == if claimed {
            st0.update(u, 3u8)
        } else {
            st0
        }
        &&& Self::ended(base, post)
        &&& (Self::ended_res(base, post) matches Err(e) && e.deep_view() == ev)
        &&& post.pending is None
    }

    /// What one step does while the acting frame scans its dependency
    /// list at position `next`.  `base` is the stack below the acting
    /// frame; the `0`-suffixed arguments are the machine's parts before
    /// the step.
    pub open spec fn deps_transition(
        m: ModuleV,
        base: Seq<Frame>,
        st0: Seq<u8>,
        ev0: Seq<NotifierEvent>,
        env0: Seq<(Seq<char>, Seq<char>)>,
        post: Self,
        fr: Frame,
        next: int,
    ) -> bool {
        let u = fr.unit as int;
        let deps = udeps(m, u);
        &&& post.env.deep_view() == env0
        &&& if next == deps.len() {
            if fr.errors@.len() == 0 {
                // every dependency completed: the unit's commands begin
                &&& post.stack@ == base.push(with_phase(fr, Phase::Cmds { next: 0 }))
                &&& post.events@ == ev0
                &&& post.states@ == st0
                &&& post.pending is None
                &&& post.ret is None
                &&& post.done is None
            } else {
                // aggregated dependency failure: exactly one `Error`
                // event carrying the whole buffer, then
                // `DependencyError(unit)` — no `Call` was or will be
                // emitted by this unit
                &&& post.events@.len() == ev0.len() + 1
                &&& ev0.is_prefix_of(post.events@)
                &&& (post.events@.last() matches NotifierEvent::Error(l) && l.deep_view()
                    == fr.errors.deep_view())
                &&& post.states@ == if fr.claimed {
                    st0.update(u, 3u8)
                } else {
                    st0
                }
                &&& Self::ended(base, post)
                &&& (Self::ended_res(base, post) matches Err(e) && (e.deep_view() matches
                    RuntimeErrorV::DependencyError(s) && s.text == uname(m, u)))
                &&& post.pending is None
            }
        } else {
            let st = dep_state(m, st0, u, next);
            if st == 0 {
                // claim the dependency and run it above this frame
                let k = uidx(m, deps[next].text);
                &&& post.states@ == st0.update(k, 1u8)
                &&& post.stack@.len() == base.len() + 2
                &&& base.is_prefix_of(post.stack@)
                &&& post.stack@[base.len() as int] == with_phase(
                    fr,
                    Phase::AwaitDep { next: next as usize },
                )
                &&& post.stack@.last().unit as int == k
                &&& post.stack@.last().claimed
                &&& post.stack@.last().phase == (Phase::Deps { next: 0 })
                &&& post.stack@.last().errors@.len() == 0
                &&& post.events@.len() == ev0.len() + 2
                &&& ev0.is_prefix_of(post.events@)
                &&& (post.events@[ev0.len() as int] matches NotifierEvent::Dependency {
                    parent,
                    name,
                } && parent@ == uname(m, u) && name@ == deps[next].text)
                &&& (post.events@.last() matches NotifierEvent::Start(s) && s@
                    == deps[next].text)
                &&& post.pending is None
                &&& post.ret is None
                &&& post.done is None
            } else if st == 2 {
                // already complete: scan on
                &&& post.stack@ == base.push(
                    with_phase(fr, Phase::Deps { next: (next + 1) as usize }),
                )
                &&& post.events@ == ev0
                &&& post.states@ == st0
                &&& post.pending is None
                &&& post.ret is None
                &&& post.done is None
            } else if st == 3 {
                // already failed: record one `FailedDependency` and scan on
                &&& post.stack@.len() == base.len() + 1
                &&& base.is_prefix_of(post.stack@)
                &&& post.stack@.last().unit == fr.unit
                &&& post.stack@.last().claimed == fr.claimed
                &&& post.stack@.last().phase == (Phase::Deps { next: (next + 1) as usize })
                &&& post.stack@.last().errors@.len() == fr.errors@.len() + 1
                &&& fr.errors@.is_prefix_of(post.stack@.last().errors@)
                &&& (post.stack@.last().errors@.last() matches RuntimeError::FailedDependency(
                    p,
                    c,
                ) && p@ == uname(m, u) && c@ == deps[next])
                &&& post.events@ == ev0
                &&& post.states@ == st0
                &&& post.pending is None
                &&& post.ret is None
                &&& post.done is None
            } else {
                // another branch is running it: announce and poll
                &&& post.stack@ == base.push(
                    with_phase(fr, Phase::Blocked { next: next as usize }),
                )
                &&& post.events@.len() == ev0.len() + 1
                &&& ev0.is_prefix_of(post.events@)
                &&& (post.events@.last() matches NotifierEvent::BlockOn { parent, name }
                    && parent@ == uname(m, u) && name@ == deps[next].text)
                &&& post.states@ == st0
                &&& post.pending is None
                &&& post.ret is None
                &&& post.done is None
            }
        }
    }

    /// What one step does while the acting frame polls dependency `next`.
    pub open spec fn blocked_transition(
        m: ModuleV,
        base: Seq<Frame>,
        st0: Seq<u8>,
        ev0: Seq<NotifierEvent>,
        env0: Seq<(Seq<char>, Seq<char>)>,
        post: Self,
        fr: Frame,
        next: int,
    ) -> bool {
        let u = fr.unit as int;
        let deps = udeps(m, u);
        let st = dep_state(m, st0, u, next);
        &&& post.env.deep_view() == env0
        &&& post.events@ == ev0
        &&& post.states@ == st0
        &&& post.pending is None
        &&& post.ret is None
        &&& post.done is None
        &&& if st == 2 {
            post.stack@ == base.push(with_phase(fr, Phase::Deps { next: (next + 1) as usize }))
        } else if st == 3 {
            &&& post.stack@.len() == base.len() + 1
            &&& base.is_prefix_of(post.stack@)
            &&& post.stack@.last().unit == fr.unit
            &&& post.stack@.last().claimed == fr.claimed
            &&& post.stack@.last().phase == (Phase::Deps { next: (next + 1) as usize })
            &&& post.stack@.last().errors@.len() == fr.errors@.len() + 1
            &&& fr.errors@.is_prefix_of(post.stack@.last().errors@)
            &&& (post.stack@.last().errors@.last() matches RuntimeError::FailedDependency(p, c)
                && p@ == uname(m, u) && c@ == deps[next])
        } else {
            // still in progress: keep polling
            post.stack@ == base.push(fr)
        }
    }

    /// What one step does when a dependency's activation has ended with
    /// `ret0` and the acting frame awaited it.
    pub open spec fn await_dep_transition(
        base: Seq<Frame>,
        st0: Seq<u8>,
        ev0: Seq<NotifierEvent>,
        env0: Seq<(Seq<char>, Seq<char>)>,
        post: Self,
        fr: Frame,
        next: int,
        ret0: Result<(), RuntimeError>,
    ) -> bool {
        &&& post.env.deep_view() == env0
        &&& post.events@ == ev0
        &&& post.states@ == st0
        &&& post.pending is None
        &&& post.ret is None
        &&& post.done is None
        &&& post.stack@.len() == base.len() + 1
        &&& base.is_prefix_of(post.stack@)
        &&& post.stack@.last().unit == fr.unit
        &&& post.stack@.last().claimed == fr.claimed
        &&& post.stack@.last().phase == (Phase::Deps { next: (next + 1) as usize })
        &&& match ret0 {
            // a successful dependency adds nothing to the buffer
            Ok(_) => post.stack@.last().errors@ == fr.errors@,
            // a failed one bubbles its own error into the buffer
            Err(e) => post.stack@.last().errors@ == fr.errors@.push(e),
        }
    }

    /// What one step does when an inline invocation's activation has
    /// ended with `ret0` and the acting frame awaited it.
    pub open spec fn await_do_transition(
        base: Seq<Frame>,
        st0: Seq<u8>,
        ev0: Seq<NotifierEvent>,
        env0: Seq<(Seq<char>, Seq<char>)>,
        post: Self,
        fr: Frame,
        next: int,
        item: int,
        ret0: Result<(), RuntimeError>,
    ) -> bool {
        &&& post.env.deep_view() == env0
        &&& match ret0 {
            // the invoked unit succeeded: go to the next `do` entry
            Ok(_) => {
                &&& post.stack@ == base.push(
                    with_phase(fr, Phase::DoStep { next: next as usize, item: (item + 1) as usize }),
                )
                &&& post.events@ == ev0
                &&& post.states@ == st0
                &&& post.pending is None
                &&& post.ret is None
                &&& post.done is None
            },
            // it failed: the error propagates unchanged and ends this unit
            Err(e) => Self::failed_with(base, st0, ev0, post, fr.unit as int, fr.claimed, e.deep_view()),
        }
    }

    /// The step advanced to the next command and changed nothing else.
    pub open spec fn advanced_quiet(
        base: Seq<Frame>,
        st0: Seq<u8>,
        ev0: Seq<NotifierEvent>,
        env0: Seq<(Seq<char>, Seq<char>)>,
        effq0: Seq<Effect>,
        post: Self,
        fr: Frame,
        next: int,
    ) -> bool {
        &&& Self::advanced(base, post, fr, next)
        &&& post.events@ == ev0
        &&& post.states@ == st0
        &&& post.env.deep_view() == env0
        &&& post.effq@ == effq0
    }

    /// The step paused on an effect and changed nothing else.
    pub open spec fn paused_quiet(
        base: Seq<Frame>,
        st0: Seq<u8>,
        ev0: Seq<NotifierEvent>,
        env0: Seq<(Seq<char>, Seq<char>)>,
        effq0: Seq<Effect>,
        post: Self,
        fr: Frame,
        next: int,
        cont: EffCont,
    ) -> bool {
        &&& Self::paused(base, effq0, post, fr, next, cont)
        &&& post.events@ == ev0
        &&& post.states@ == st0
        &&& post.env.deep_view() == env0
    }

    /// The step failed on `ev` and touched neither the snapshot nor the
    /// effect queue.
    pub open spec fn failed_quiet(
        base: Seq<Frame>,
        st0: Seq<u8>,
        ev0: Seq<NotifierEvent>,
        env0: Seq<(Seq<char>, Seq<char>)>,
        effq0: Seq<Effect>,
        post: Self,
        u: int,
        claimed: bool,
        ev: RuntimeErrorV,
    ) -> bool {
        &&& Self::failed_with(base, st0, ev0, post, u, claimed, ev)
        &&& env_map(post.env.deep_view()) == env_map(env0)
        &&& post.effq@ == effq0
    }

    /// The step failed rejoining the PATH entries.
    pub open spec fn failed_join(
        base: Seq<Frame>,
        st0: Seq<u8>,
        ev0: Seq<NotifierEvent>,
        env0: Seq<(Seq<char>, Seq<char>)>,
        effq0: Seq<Effect>,
        post: Self,
        u: int,
        claimed: bool,
    ) -> bool {
        &&& post.events@.len() == ev0.len() + 1
        &&& ev0.is_prefix_of(post.events@)
        &&& (post.events@.last() matches NotifierEvent::Error(l) && l.deep_view().len() == 1
            && l.deep_view()[0] is JoinPathsError)
        &&& post.states@ == if claimed {
            st0.update(u, 3u8)
        } else {
            st0
        }
        &&& Self::ended(base, post)
        &&& (Self::ended_res(base, post) matches Err(e) && e.deep_view() is JoinPathsError)
        &&& env_map(post.env.deep_view()) == env_map(env0)
        &&& post.effq@ == effq0
        &&& post.pending is None
    }

    /// The resolved destination text of fan-out pair `i`: the head path
    /// extended with the pair's override, or with its source.
    pub open spec fn fan_dst(
        head: SpannedV,
        map: Seq<(SpannedV, Option<SpannedV>)>,
        i: int,
    ) -> Seq<char> {
        extended_path(
            head.text,
            if map[i].1 is Some {
                map[i].1->Some_0.text
            } else {
                map[i].0.text
            },
        )
    }

    /// What one step does when the acting frame dispatches command `next`
    /// (or, at the list's end, completes the unit).
    pub open spec fn cmds_transition(
        m: ModuleV,
        base: Seq<Frame>,
        st0: Seq<u8>,
        ev0: Seq<NotifierEvent>,
        env0: Seq<(Seq<char>, Seq<char>)>,
        effq0: Seq<Effect>,
        post: Self,
        fr: Frame,
        next: int,
    ) -> bool {
        let u = fr.unit as int;
        let cmds = ucmds(m, u);
        if next == cmds.len() {
            // every command succeeded, in source order: announce
            // `Complete`, store the terminal state, end with `Ok`
            &&& post.events@.len() == ev0.len() + 1
            &&& ev0.is_prefix_of(post.events@)
            &&& (post.events@.last() matches NotifierEvent::Complete(s) && s@ == uname(m, u))
            &&& post.states@ == if fr.claimed {
                st0.update(u, 2u8)
            } else {
                st0
            }
            &&& Self::ended(base, post)
            &&& Self::ended_res(base, post) is Ok
            &&& post.env.deep_view() == env0
            &&& post.effq@ == effq0
            &&& post.pending is None
        } else {
            let c = cmds[next];
            // exactly one `Call` event announcing this unit's command
            // precedes whatever the dispatch does
            &&& post.events@.len() >= ev0.len() + 1
            &&& ev0.is_prefix_of(post.events@)
            &&& (post.events@[ev0.len() as int] matches NotifierEvent::Call(n, cc) && n@ == uname(
                m,
                u,
            ) && cc.deep_view() == c)
            &&& match c {
                CommandV::DependsOn(_) => {
                    // hoisted during lowering; a defensive no-op here:
                    // no state, snapshot or effect, only the `Call` event
                    &&& Self::advanced(base, post, fr, next)
                    &&& post.events@.len() == ev0.len() + 1
                    &&& post.states@ == st0
                    &&& post.env.deep_view() == env0
                    &&& post.effq@ == effq0
                },
                CommandV::Meta(_) => {
                    &&& Self::advanced(base, post, fr, next)
                    &&& post.events@.len() == ev0.len() + 1
                    &&& post.states@ == st0
                    &&& post.env.deep_view() == env0
                    &&& post.effq@ == effq0
                },
                CommandV::Do(_) => {
                    &&& post.stack@ == base.push(
                        with_phase(fr, Phase::DoStep { next: next as usize, item: 0 }),
                    )
                    &&& post.events@.len() == ev0.len() + 1
                    &&& post.states@ == st0
                    &&& post.env.deep_view() == env0
                    &&& post.effq@ == effq0
                    &&& post.pending is None
                    &&& post.ret is None
                    &&& post.done is None
                },
                CommandV::Exec(argv) => {
                    // the host receives the argv and the engine's current
                    // snapshot — never the inherited process environment
                    &&& Self::paused(base, effq0, post, fr, next, EffCont::ExecWait)
                    &&& (post.pending->Some_0 matches Effect::Exec { argv: a, env: e }
                        && a.deep_view() == argv && e.deep_view() == env0)
                    &&& post.events@.len() == ev0.len() + 1
                    &&& post.states@ == st0
                    &&& post.env.deep_view() == env0
                },
                CommandV::Concurrent(_) => {
                    // not supported on this engine: rejected with a clear
                    // error before any effect
                    &&& post.events@.len() == ev0.len() + 2
                    &&& (post.events@.last() matches NotifierEvent::Error(l) && l.deep_view().len()
                        == 1 && (l.deep_view()[0] matches RuntimeErrorV::CommandUnsupported(cv)
                        && cv == c))
                    &&& post.states@ == if fr.claimed {
                        st0.update(u, 3u8)
                    } else {
                        st0
                    }
                    &&& Self::ended(base, post)
                    &&& (Self::ended_res(base, post) matches Err(e) && (e.deep_view() matches
                        RuntimeErrorV::CommandUnsupported(cv) && cv == c))
                    &&& post.env.deep_view() == env0
                    &&& post.effq@ == effq0
                    &&& post.pending is None
                },
                CommandV::Fs(f) => {
                    &&& post.events@.len() == ev0.len() + 1
                    &&& post.states@ == st0
                    &&& post.env.deep_view() == env0
                    &&& match f {
                        FsCommandV::Create(p) => {
                            &&& Self::paused(base, effq0, post, fr, next, EffCont::CreateWait)
                            &&& (post.pending->Some_0 matches Effect::CreateFile { path } && path@
                                == p.text)
                        },
                        FsCommandV::CreateDir(p) => {
                            &&& Self::paused(base, effq0, post, fr, next, EffCont::CreateDirWait)
                            &&& (post.pending->Some_0 matches Effect::CreateDirAll { path }
                                && path@ == p.text)
                        },
                        FsCommandV::Remove(p) => {
                            &&& Self::paused(base, effq0, post, fr, next, EffCont::RemoveWait)
                            &&& (post.pending->Some_0 matches Effect::RemovePath { path } && path@
                                == p.text)
                        },
                        FsCommandV::Copy(s, d) => {
                            &&& Self::paused(base, effq0, post, fr, next, EffCont::CopyWait)
                            &&& (post.pending->Some_0 matches Effect::CopyPath { src, dst } && src@
                                == s.text && dst@ == d.text)
                        },
                        FsCommandV::Move(s, d) => {
                            // a move is a copy whose success triggers the
                            // removal of the source
                            &&& Self::paused(base, effq0, post, fr, next, EffCont::MoveCopyWait)
                            &&& (post.pending->Some_0 matches Effect::CopyPath { src, dst } && src@
                                == s.text && dst@ == d.text)
                        },
                        FsCommandV::CopyTo(h, map) => {
                            if map.len() == 0 {
                                &&& Self::advanced(base, post, fr, next)
                                &&& post.effq@ == effq0
                            } else {
                                &&& Self::paused(
                                    base,
                                    effq0,
                                    post,
                                    fr,
                                    next,
                                    EffCont::CopyToWait { i: 0 },
                                )
                                &&& (post.pending->Some_0 matches Effect::CopyPath { src, dst }
                                    && src@ == map[0].0.text && dst@ == Self::fan_dst(h, map, 0))
                            }
                        },
                        FsCommandV::MoveTo(h, map) => {
                            if map.len() == 0 {
                                &&& Self::advanced(base, post, fr, next)
                                &&& post.effq@ == effq0
                            } else {
                                &&& Self::paused(
                                    base,
                                    effq0,
                                    post,
                                    fr,
                                    next,
                                    EffCont::MoveToCopyWait { i: 0 },
                                )
                                &&& (post.pending->Some_0 matches Effect::CopyPath { src, dst }
                                    && src@ == map[0].0.text && dst@ == Self::fan_dst(h, map, 0))
                            }
                        },
                        FsCommandV::PrintFile(p) => {
                            &&& Self::paused(
                                base,
                                effq0,
                                post,
                                fr,
                                next,
                                EffCont::ReadWait { stderr: false },
                            )
                            &&& (post.pending->Some_0 matches Effect::ReadFile { path } && path@
                                == p.text)
                        },
                        FsCommandV::EPrintFile(p) => {
                            &&& Self::paused(
                                base,
                                effq0,
                                post,
                                fr,
                                next,
                                EffCont::ReadWait { stderr: true },
                            )
                            &&& (post.pending->Some_0 matches Effect::ReadFile { path } && path@
                                == p.text)
                        },
                    }
                },
                CommandV::Io(io) => {
                    &&& post.events@.len() == ev0.len() + 1
                    &&& post.states@ == st0
                    &&& post.env.deep_view() == env0
                    &&& Self::paused(base, effq0, post, fr, next, EffCont::PrintWait)
                    &&& (post.pending->Some_0 matches Effect::Print { text, newline, stderr }
                        && match io {
                        IoCommandV::PrintLn(t) => text@ == t.text && newline && !stderr,
                        IoCommandV::Print(t) => text@ == t.text && !newline && !stderr,
                        IoCommandV::EPrintLn(t) => text@ == t.text && newline && stderr,
                        IoCommandV::EPrint(t) => text@ == t.text && !newline && stderr,
                    })
                },
                CommandV::Env(e) => {
                    &&& post.events@.len() == ev0.len() + 1
                    &&& post.states@ == st0
                    &&& match e {
                        EnvCommandV::SetVar(k, v) => {
                            // copy-on-write: only the snapshot changes
                            &&& Self::advanced(base, post, fr, next)
                            &&& env_map(post.env.deep_view()) == env_map(env0).insert(
                                k.text,
                                v.text,
                            )
                            &&& post.effq@ == effq0
                        },
                        EnvCommandV::RemoveVar(k) => {
                            &&& Self::advanced(base, post, fr, next)
                            &&& env_map(post.env.deep_view()) == env_map(env0).remove(k.text)
                            &&& post.effq@ == effq0
                        },
                        EnvCommandV::PathPush(p) => {
                            // the host only resolves the path; the PATH
                            // edit happens on the outcome
                            &&& Self::paused(
                                base,
                                effq0,
                                post,
                                fr,
                                next,
                                EffCont::CanonWait { push: true },
                            )
                            &&& (post.pending->Some_0 matches Effect::Canonicalize { path }
                                && path@ == p.text)
                            &&& post.env.deep_view() == env0
                        },
                        EnvCommandV::PathRemove(p) => {
                            &&& Self::paused(
                                base,
                                effq0,
                                post,
                                fr,
                                next,
                                EffCont::CanonWait { push: false },
                            )
                            &&& (post.pending->Some_0 matches Effect::Canonicalize { path }
                                && path@ == p.text)
                            &&& post.env.deep_view() == env0
                        },
                    }
                },
            }
        }
    }

    /// What handing the engine `outcome` does, per continuation: a failed
    /// process or filesystem action becomes the command's error, shaped
    /// as the command dictates; print outcomes are ignored; a
    /// canonicalized path flows into the PATH edit.
    pub open spec fn provide_transition(
        m: ModuleV,
        base: Seq<Frame>,
        st0: Seq<u8>,
        ev0: Seq<NotifierEvent>,
        env0: Seq<(Seq<char>, Seq<char>)>,
        effq0: Seq<Effect>,
        post: Self,
        fr: Frame,
        next: int,
        cont: EffCont,
        outcome: Outcome,
    ) -> bool {
        let u = fr.unit as int;
        let c = ucmds(m, u)[next];
        match cont {
            EffCont::ExecWait => if outcome.ok {
                Self::advanced_quiet(base, st0, ev0, env0, effq0, post, fr, next)
            } else {
                // the command fails exactly when the spawn or exit failed
                Self::failed_quiet(
                    base,
                    st0,
                    ev0,
                    env0,
                    effq0,
                    post,
                    fr.unit as int,
                    fr.claimed,
                    RuntimeErrorV::ExecutionFailure(c->Exec_0, outcome.detail@),
                )
            },
            EffCont::CreateWait => if outcome.ok {
                Self::advanced_quiet(base, st0, ev0, env0, effq0, post, fr, next)
            } else {
                Self::failed_quiet(
                    base,
                    st0,
                    ev0,
                    env0,
                    effq0,
                    post,
                    fr.unit as int,
                    fr.claimed,
                    RuntimeErrorV::FsError(
                        FsErrorV::CreateFileError(c->Fs_0->Create_0, outcome.detail@),
                    ),
                )
            },
            EffCont::CreateDirWait => if outcome.ok {
                Self::advanced_quiet(base, st0, ev0, env0, effq0, post, fr, next)
            } else {
                Self::failed_quiet(
                    base,
                    st0,
                    ev0,
                    env0,
                    effq0,
                    post,
                    fr.unit as int,
                    fr.claimed,
                    RuntimeErrorV::FsError(
                        FsErrorV::CreateDirError(c->Fs_0->CreateDir_0, outcome.detail@),
                    ),
                )
            },
            EffCont::RemoveWait => if outcome.ok {
                Self::advanced_quiet(base, st0, ev0, env0, effq0, post, fr, next)
            } else {
                Self::failed_quiet(
                    base,
                    st0,
                    ev0,
                    env0,
                    effq0,
                    post,
                    fr.unit as int,
                    fr.claimed,
                    RuntimeErrorV::FsError(
                        FsErrorV::RemoveError(c->Fs_0->Remove_0, outcome.detail@),
                    ),
                )
            },
            EffCont::CopyWait => if outcome.ok {
                Self::advanced_quiet(base, st0, ev0, env0, effq0, post, fr, next)
            } else {
                Self::failed_quiet(
                    base,
                    st0,
                    ev0,
                    env0,
                    effq0,
                    post,
                    fr.unit as int,
                    fr.claimed,
                    RuntimeErrorV::FsError(
                        FsErrorV::CopyError(c->Fs_0->Copy_0, c->Fs_0->Copy_1, outcome.detail@),
                    ),
                )
            },
            EffCont::MoveCopyWait => if outcome.ok {
                // the copy half succeeded: remove the source next
                &&& Self::paused_quiet(
                    base,
                    st0,
                    ev0,
                    env0,
                    effq0,
                    post,
                    fr,
                    next,
                    EffCont::MoveRemoveWait,
                )
                &&& (post.pending->Some_0 matches Effect::RemovePath { path } && path@
                    == c->Fs_0->Move_0.text)
            } else {
                // a failed copy keeps the copy's error shape
                Self::failed_quiet(
                    base,
                    st0,
                    ev0,
                    env0,
                    effq0,
                    post,
                    fr.unit as int,
                    fr.claimed,
                    RuntimeErrorV::FsError(
                        FsErrorV::CopyError(c->Fs_0->Move_0, c->Fs_0->Move_1, outcome.detail@),
                    ),
                )
            },
            EffCont::MoveRemoveWait => if outcome.ok {
                Self::advanced_quiet(base, st0, ev0, env0, effq0, post, fr, next)
            } else {
                Self::failed_quiet(
                    base,
                    st0,
                    ev0,
                    env0,
                    effq0,
                    post,
                    fr.unit as int,
                    fr.claimed,
                    RuntimeErrorV::FsError(
                        FsErrorV::RemoveError(c->Fs_0->Move_0, outcome.detail@),
                    ),
                )
            },
            EffCont::CopyToWait { i } => {
                let h = c->Fs_0->CopyTo_0;
                let map = c->Fs_0->CopyTo_1;
                if outcome.ok {
                    if i + 1 < map.len() {
                        // fan out to the next pair
                        &&& Self::paused_quiet(
                            base,
                            st0,
                            ev0,
                            env0,
                            effq0,
                            post,
                            fr,
                            next,
                            EffCont::CopyToWait { i: (i + 1) as usize },
                        )
                        &&& (post.pending->Some_0 matches Effect::CopyPath { src, dst } && src@
                            == map[i + 1].0.text && dst@ == Self::fan_dst(h, map, i + 1))
                    } else {
                        Self::advanced_quiet(base, st0, ev0, env0, effq0, post, fr, next)
                    }
                } else {
                    // the first failing pair aborts the fan-out
                    Self::failed_quiet(
                        base,
                        st0,
                        ev0,
                        env0,
                        effq0,
                        post,
                        fr.unit as int,
                        fr.claimed,
                        RuntimeErrorV::FsError(
                            FsErrorV::CopyError(
                                map[i as int].0,
                                SpannedV { text: Self::fan_dst(h, map, i as int), span: h.span },
                                outcome.detail@,
                            ),
                        ),
                    )
                }
            },
            EffCont::MoveToCopyWait { i } => {
                let h = c->Fs_0->MoveTo_0;
                let map = c->Fs_0->MoveTo_1;
                if outcome.ok {
                    &&& Self::paused_quiet(
                        base,
                        st0,
                        ev0,
                        env0,
                        effq0,
                        post,
                        fr,
                        next,
                        EffCont::MoveToRemoveWait { i },
                    )
                    &&& (post.pending->Some_0 matches Effect::RemovePath { path } && path@
                        == map[i as int].0.text)
                } else {
                    Self::failed_quiet(
                        base,
                        st0,
                        ev0,
                        env0,
                        effq0,
                        post,
                        fr.unit as int,
                        fr.claimed,
                        RuntimeErrorV::FsError(
                            FsErrorV::CopyError(
                                map[i as int].0,
                                SpannedV { text: Self::fan_dst(h, map, i as int), span: h.span },
                                outcome.detail@,
                            ),
                        ),
                    )
                }
            },
            EffCont::MoveToRemoveWait { i } => {
                let h = c->Fs_0->MoveTo_0;
                let map = c->Fs_0->MoveTo_1;
                if outcome.ok {
                    if i + 1 < map.len() {
                        &&& Self::paused_quiet(
                            base,
                            st0,
                            ev0,
                            env0,
                            effq0,
                            post,
                            fr,
                            next,
                            EffCont::MoveToCopyWait { i: (i + 1) as usize },
                        )
                        &&& (post.pending->Some_0 matches Effect::CopyPath { src, dst } && src@
                            == map[i + 1].0.text && dst@ == Self::fan_dst(h, map, i + 1))
                    } else {
                        Self::advanced_quiet(base, st0, ev0, env0, effq0, post, fr, next)
                    }
                } else {
                    Self::failed_quiet(
                        base,
                        st0,
                        ev0,
                        env0,
                        effq0,
                        post,
                        fr.unit as int,
                        fr.claimed,
                        RuntimeErrorV::FsError(
                            FsErrorV::RemoveError(map[i as int].0, outcome.detail@),
                        ),
                    )
                }
            },
            EffCont::ReadWait { stderr } => if outcome.ok {
                // the file's text is printed next, with a trailing newline
                &&& Self::paused_quiet(
                    base,
                    st0,
                    ev0,
                    env0,
                    effq0,
                    post,
                    fr,
                    next,
                    EffCont::PrintWait,
                )
                &&& (post.pending->Some_0 matches Effect::Print { text, newline, stderr: se }
                    && text@ == outcome.detail@ && newline && se == stderr)
            } else {
                Self::failed_quiet(
                    base,
                    st0,
                    ev0,
                    env0,
                    effq0,
                    post,
                    fr.unit as int,
                    fr.claimed,
                    RuntimeErrorV::FsError(
                        FsErrorV::FileAccessError(
                            if c->Fs_0 is PrintFile {
                                c->Fs_0->PrintFile_0
                            } else {
                                c->Fs_0->EPrintFile_0
                            },
                            outcome.detail@,
                        ),
                    ),
                )
            },
            // a print's outcome carries nothing: printing never fails a unit
            EffCont::PrintWait => Self::advanced_quiet(
                base,
                st0,
                ev0,
                env0,
                effq0,
                post,
                fr,
                next,
            ),
            EffCont::CanonWait { push } => if !outcome.ok {
                // the path could not be resolved
                Self::failed_quiet(
                    base,
                    st0,
                    ev0,
                    env0,
                    effq0,
                    post,
                    fr.unit as int,
                    fr.claimed,
                    RuntimeErrorV::JoinPathsError(outcome.detail@),
                )
            } else if push {
                let parts = path_parts(env_map(env0)) + seq![outcome.detail@];
                if joinable(parts) {
                    &&& Self::advanced(base, post, fr, next)
                    &&& post.events@ == ev0
                    &&& post.states@ == st0
                    &&& post.effq@ == effq0
                    &&& env_map(post.env.deep_view()) == env_map(env0).insert(
                        "PATH"@,
                        join_colon_spec(parts),
                    )
                } else {
                    Self::failed_join(base, st0, ev0, env0, effq0, post, fr.unit as int, fr.claimed)
                }
            } else {
                if !env_map(env0).contains_key("PATH"@) {
                    // no PATH: removing from it is a no-op
                    &&& Self::advanced(base, post, fr, next)
                    &&& post.events@ == ev0
                    &&& post.states@ == st0
                    &&& post.effq@ == effq0
                    &&& env_map(post.env.deep_view()) == env_map(env0)
                } else if joinable(drop_part(path_parts(env_map(env0)), outcome.detail@)) {
                    &&& Self::advanced(base, post, fr, next)
                    &&& post.events@ == ev0
                    &&& post.states@ == st0
                    &&& post.effq@ == effq0
                    &&& env_map(post.env.deep_view()) == env_map(env0).insert(
                        "PATH"@,
                        join_colon_spec(drop_part(path_parts(env_map(env0)), outcome.detail@)),
                    )
                } else {
                    Self::failed_join(base, st0, ev0, env0, effq0, post, fr.unit as int, fr.claimed)
                }
            },
        }
    }

    /// What one step does while the acting frame walks the `do(...)` list
    /// of command `next`, at entry `item`.  An inline invocation never
    /// claims the target's state byte, so a completed unit may run again.
    pub open spec fn dostep_transition(
        m: ModuleV,
        base: Seq<Frame>,
        st0: Seq<u8>,
        ev0: Seq<NotifierEvent>,
        env0: Seq<(Seq<char>, Seq<char>)>,
        post: Self,
        fr: Frame,
        next: int,
        item: int,
    ) -> bool {
        let u = fr.unit as int;
        let list = ucmds(m, u)[next]->Do_0;
        &&& post.env.deep_view() == env0
        &&& post.states@ == st0
        &&& if item == list.len() {
            // the whole list succeeded: the command is done
            &&& Self::advanced(base, post, fr, next)
            &&& post.events@ == ev0
        } else {
            // run entry `item` inline, unclaimed, above this frame
            &&& post.stack@.len() == base.len() + 2
            &&& base.is_prefix_of(post.stack@)
            &&& post.stack@[base.len() as int] == with_phase(
                fr,
                Phase::AwaitDo { next: next as usize, item: item as usize },
            )
            &&& post.stack@.last().unit as int == uidx(m, list[item].text)
            &&& !post.stack@.last().claimed
            &&& post.stack@.last().phase == (Phase::Deps { next: 0 })
            &&& post.stack@.last().errors@.len() == 0
            &&& post.events@.len() == ev0.len() + 1
            &&& ev0.is_prefix_of(post.events@)
            &&& (post.events@.last() matches NotifierEvent::Start(s) && s@ == list[item].text)
            &&& post.pending is None
            &&& post.ret is None
            &&& post.done is None
        }
    }
}

/// Pushing keeps the old members and adds the new one.
proof fn lemma_contains_push<T>(s: Seq<T>, x: T, y: T)
    ensures
        s.push(x).contains(y) <==> s.contains(y) || x == y,
{
    assert(s.push(x)[s.len() as int] == x);
    if s.contains(y) {
        let i = choose|i: int| 0 <= i < s.len() && s[i] == y;
        assert(s.push(x)[i] == y);
    }
    if s.push(x).contains(y) {
        let i = choose|i: int| 0 <= i < s.push(x).len() && s.push(x)[i] == y;
        if i < s.len() {
            assert(s[i] == y);
        }
    }
}

/// A copy of the environment snapshot, for a spawned process.
fn dup_string_pairs(v: &Vec<(String, String)>) -> (r: Vec<(String, String)>)
    ensures
        r.deep_view() == v.deep_view(),
{
    let mut r: Vec<(String, String)> = Vec::new();
    let mut k: usize = 0;
    while k < v.len()
        invariant
            k <= v@.len(),
            r@.len() == k,
            forall|j: int| 0 <= j < k ==> r.deep_view()[j] == v.deep_view()[j],
        decreases v@.len() - k,
    {
        r.push((v[k].0.clone(), v[k].1.clone()));
        k += 1;
    }
    assert(r.deep_view() =~= v.deep_view());
    r
}

impl<N: Notifier> Runtime<N> {
    /// Everything but the event log, unchanged.
    pub open spec fn same_but_events(self, o: Runtime<N>) -> bool {
        &&& self.module == o.module
        &&& self.notifier == o.notifier
        &&& self.states == o.states
        &&& self.env == o.env
        &&& self.stack == o.stack
        &&& self.ret == o.ret
        &&& self.pending == o.pending
        &&& self.done == o.done
        &&& self.claims == o.claims
        &&& self.effq == o.effq
    }

    /// Record one event and hand it to the notifier.
    fn emit(&mut self, e: NotifierEvent)
        ensures
            final(self).same_but_events(*old(self)),
            final(self).events@ == old(self).events@.push(e),
            forall|n: Seq<char>|
                count_starts(final(self).events@, n) == count_starts(old(self).events@, n)
                    + (match e {
                    NotifierEvent::Start(s) => if s@ == n {
                        1int
                    } else {
                        0int
                    },
                    _ => 0int,
                }),
            forall|n: Seq<char>|
                has_complete(old(self).events@, n) ==> has_complete(final(self).events@, n),
            forall|k: int|
                0 <= k < old(self).events@.len() && call_prec(
                    final(self).mv(),
                    old(self).events@,
                    k,
                ) ==> call_prec(final(self).mv(), final(self).events@, k),
            !(e is Call) ==> call_prec(
                final(self).mv(),
                final(self).events@,
                old(self).events@.len() as int,
            ),
    {
        proof {
            lemma_log_extend(self.mv(), self.events@, e);
        }
        self.notifier.on_event(&e);
        self.events.push(e);
        proof {
            assert forall|n: Seq<char>|
                count_starts(self.events@, n) == count_starts(old(self).events@, n) + (match e {
                    NotifierEvent::Start(s) => if s@ == n {
                        1int
                    } else {
                        0int
                    },
                    _ => 0int,
                }) by {
                lemma_count_starts_push(old(self).events@, e, n);
            }
        }
    }

    /// The step context: what each step method needs of the machine once
    /// the acting frame has been taken off the stack.
    pub open spec fn step_ctx(self, fr: Frame) -> bool {
        &&& self.base_inv()
        &&& forall|i: int|
            0 <= i < self.stack@.len() ==> frame_wf(self.mv(), #[trigger] self.stack@[i])
                && is_waiting(self.stack@[i])
        &&& self.ret is None
        &&& self.pending is None
        &&& self.done is None
        &&& frame_wf(self.mv(), fr)
        &&& frame_deps_ok(self.mv(), self.states@, fr)
        &&& frame_errs_ok(self.mv(), self.states@, fr)
        &&& (fr.claimed ==> self.states@[fr.unit as int] == 1)
        &&& (fr.claimed ==> forall|i: int|
            0 <= i < self.stack@.len() ==> !((#[trigger] self.stack@[i]).claimed && self.stack@[
                i
            ].unit == fr.unit))
        &&& (self.stack@.len() > 0 ==> parent_link(self.mv(), self.stack@.last(), fr))
        &&& forall|i: int|
            0 <= i < self.stack@.len() - 1 ==> parent_link(
                self.mv(),
                #[trigger] self.stack@[i],
                self.stack@[i + 1],
            )
    }

    /// End the acting frame's activation: store the terminal state byte
    /// if the frame held the claim, and pass the result down.
    fn finish(&mut self, fr_unit: usize, fr_claimed: bool, res: Result<(), RuntimeError>)
        requires
            old(self).base_inv(),
            forall|i: int|
                0 <= i < old(self).stack@.len() ==> frame_wf(
                    old(self).mv(),
                    #[trigger] old(self).stack@[i],
                ) && is_waiting(old(self).stack@[i]),
            old(self).ret is None,
            old(self).pending is None,
            old(self).done is None,
            (fr_unit as int) < old(self).mv().units.len(),
            fr_claimed ==> old(self).states@[fr_unit as int] == 1,
            fr_claimed ==> forall|i: int|
                0 <= i < old(self).stack@.len() ==> !((#[trigger] old(self).stack@[i]).claimed
                    && old(self).stack@[i].unit == fr_unit),
            forall|i: int|
                0 <= i < old(self).stack@.len() - 1 ==> parent_link(
                    old(self).mv(),
                    #[trigger] old(self).stack@[i],
                    old(self).stack@[i + 1],
                ),
            fr_claimed && res is Ok ==> has_complete(
                old(self).events@,
                uname(old(self).mv(), fr_unit as int),
            ),
            match res {
                Err(e) => !(e is FailedDependency),
                _ => true,
            },
            old(self).stack@.len() > 0 ==> match old(self).stack@.last().phase {
                Phase::AwaitDep { next } => fr_claimed && uname(old(self).mv(), fr_unit as int)
                    == udeps(old(self).mv(), old(self).stack@.last().unit as int)[
                    next as int
                ].text,
                Phase::AwaitDo { .. } => !fr_claimed,
                _ => false,
            },
        ensures
            final(self).inv(),
            final(self).done is None ==> final(self).stack@.len() > 0,
            final(self).module == old(self).module,
            final(self).events == old(self).events,
            final(self).stack@ == old(self).stack@,
            final(self).env == old(self).env,
            final(self).pending is None,
            final(self).effq@ == old(self).effq@,
            final(self).states@ == if fr_claimed {
                old(self).states@.update(
                    fr_unit as int,
                    if res is Ok {
                        2u8
                    } else {
                        3u8
                    },
                )
            } else {
                old(self).states@
            },
            Self::ended(old(self).stack@, *final(self)),
            Self::ended_res(old(self).stack@, *final(self)) == res,
    {
        if fr_claimed {
            let b: u8 = match &res {
                Ok(_) => 2,
                Err(_) => 3,
            };
            self.states[fr_unit] = b;
            proof {
                let m = self.mv();
                assert forall|u: int|
                    0 <= u < self.states@.len() implies ((#[trigger] self.states@[u]) != 0
                    <==> self.claims@.contains(u)) by {
                    if u != fr_unit as int {
                        assert(self.states@[u] == old(self).states@[u]);
                    }
                }
                assert forall|i: int|
                    0 <= i < self.stack@.len() implies frame_deps_ok(
                    m,
                    self.states@,
                    #[trigger] self.stack@[i],
                ) && frame_errs_ok(m, self.states@, #[trigger] self.stack@[i]) by {
                    lemma_frame_deps_update(
                        m,
                        old(self).states@,
                        fr_unit as int,
                        b,
                        self.stack@[i],
                    );
                    assert(self.states@ =~= old(self).states@.update(fr_unit as int, b));
                    let g = self.stack@[i];
                    match g.phase {
                        Phase::Deps { next } => {
                            lemma_failed_list_update(
                                m,
                                old(self).states@,
                                fr_unit as int,
                                b,
                                g.unit as int,
                                next as int,
                            );
                        },
                        Phase::AwaitDep { next } => {
                            lemma_failed_list_update(
                                m,
                                old(self).states@,
                                fr_unit as int,
                                b,
                                g.unit as int,
                                next as int,
                            );
                        },
                        Phase::Blocked { next } => {
                            lemma_failed_list_update(
                                m,
                                old(self).states@,
                                fr_unit as int,
                                b,
                                g.unit as int,
                                next as int,
                            );
                        },
                        _ => {},
                    }
                }
                assert forall|u: int|
                    0 <= u < self.states@.len() && (#[trigger] self.states@[u])
                    == 2 implies has_complete(self.events@, uname(m, u)) by {
                    if u != fr_unit as int {
                        assert(self.states@[u] == old(self).states@[u]);
                    }
                }
                if self.stack@.len() > 0 {
                    if let Phase::AwaitDep { next } = self.stack@.last().phase {
                        let p = self.stack@.last().unit as int;
                        lemma_dep_idx_bounds(m, p, next as int);
                        lemma_uidx(m, fr_unit as int);
                        assert(uidx(m, udeps(m, p)[next as int].text) == fr_unit as int);
                        assert(dep_state(m, self.states@, p, next as int) == b);
                    }
                }
            }
        }
        proof {
            if fr_claimed {
                assert(self.states@ =~= old(self).states@.update(
                    fr_unit as int,
                    if res is Ok {
                        2u8
                    } else {
                        3u8
                    },
                ));
            }
        }
        if self.stack.len() == 0 {
            self.done = Some(res);
        } else {
            self.ret = Some(res);
        }
    }

    /// A command failed: report it and end the unit with that error.
    fn cmd_fail(&mut self, fr_unit: usize, fr_claimed: bool, e: RuntimeError)
        requires
            old(self).base_inv(),
            forall|i: int|
                0 <= i < old(self).stack@.len() ==> frame_wf(
                    old(self).mv(),
                    #[trigger] old(self).stack@[i],
                ) && is_waiting(old(self).stack@[i]),
            old(self).ret is None,
            old(self).pending is None,
            old(self).done is None,
            (fr_unit as int) < old(self).mv().units.len(),
            fr_claimed ==> old(self).states@[fr_unit as int] == 1,
            fr_claimed ==> forall|i: int|
                0 <= i < old(self).stack@.len() ==> !((#[trigger] old(self).stack@[i]).claimed
                    && old(self).stack@[i].unit == fr_unit),
            forall|i: int|
                0 <= i < old(self).stack@.len() - 1 ==> parent_link(
                    old(self).mv(),
                    #[trigger] old(self).stack@[i],
                    old(self).stack@[i + 1],
                ),
            old(self).stack@.len() > 0 ==> match old(self).stack@.last().phase {
                Phase::AwaitDep { next } => fr_claimed && uname(old(self).mv(), fr_unit as int)
                    == udeps(old(self).mv(), old(self).stack@.last().unit as int)[
                    next as int
                ].text,
                Phase::AwaitDo { .. } => !fr_claimed,
                _ => false,
            },
            !(e is FailedDependency),
        ensures
            final(self).inv(),
            final(self).done is None ==> final(self).stack@.len() > 0,
            final(self).module == old(self).module,
            old(self).events@.is_prefix_of(final(self).events@),
            Self::failed_with(
                old(self).stack@,
                old(self).states@,
                old(self).events@,
                *final(self),
                fr_unit as int,
                fr_claimed,
                e.deep_view(),
            ),
            final(self).env == old(self).env,
            final(self).effq@ == old(self).effq@,
    {
        let mut list: Vec<RuntimeError> = Vec::new();
        list.push(dup_runtime_error(&e));
        proof {
            assert(list.deep_view() =~= seq![e.deep_view()]);
        }
        self.emit(NotifierEvent::Error(list));
        proof {
            assert(old(self).events@.is_prefix_of(self.events@));
        }
        self.finish(fr_unit, fr_claimed, Err(e));
    }

    /// Begin a run of the named unit.  Succeeds exactly when no run is in
    /// progress, a unit has the name, and its state byte is still
    /// `INCOMPLETE`; it then claims the unit, pushes its activation and
    /// emits `Start`.  Otherwise it returns false and does nothing.
    pub fn begin(&mut self, name: &String) -> (r: bool)
        requires
            old(self).inv(),
            old(self).done is None,
        ensures
            final(self).inv(),
            final(self).module == old(self).module,
            r == (old(self).stack@.len() == 0 && crate::mod_names(old(self).mv()).contains(name@)
                && old(self).states@[uidx(old(self).mv(), name@)] == 0),
            !r ==> *final(self) == *old(self),
            r ==> {
                let k = uidx(old(self).mv(), name@);
                &&& final(self).states@ == old(self).states@.update(k, 1u8)
                &&& final(self).claims@ == old(self).claims@.push(k)
                &&& final(self).stack@.len() == 1
                &&& final(self).stack@[0].unit as int == k
                &&& final(self).stack@[0].claimed
                &&& final(self).stack@[0].phase == (Phase::Deps { next: 0usize })
                &&& final(self).stack@[0].errors@.len() == 0
                &&& final(self).events@.len() == old(self).events@.len() + 1
                &&& old(self).events@.is_prefix_of(final(self).events@)
                &&& (final(self).events@.last() matches NotifierEvent::Start(s) && s@ == name@)
                &&& final(self).env == old(self).env
                &&& final(self).pending is None
                &&& final(self).done is None
            },
    {
        if self.stack.len() > 0 {
            return false;
        }
        let k = match find_unit(&self.module.units, name) {
            Some(k) => k,
            None => {
                return false;
            },
        };
        proof {
            let m = self.mv();
            assert(uname(m, k as int) == name@);
            lemma_uidx(m, k as int);
            assert(crate::mod_names(m)[k as int] == name@);
        }
        if self.states[k] != 0 {
            return false;
        }
        self.states[k] = 1;
        proof {
            self.claims@ = self.claims@.push(k as int);
        }
        let uname_s = self.module.units[k].0.text.clone();
        self.stack.push(
            Frame {
                unit: k,
                claimed: true,
                phase: Phase::Deps { next: 0 },
                errors: Vec::new(),
                err_deps: Ghost(Seq::empty()),
            },
        );
        self.emit(NotifierEvent::Start(uname_s));
        proof {
            assert(old(self).events@.is_prefix_of(self.events@));
            assert(self.states@ =~= old(self).states@.update(k as int, 1u8));
            let m = self.mv();
            assert forall|k1: int, k2: int|
                0 <= k1 < k2 < self.claims@.len() implies self.claims@[k1] != self.claims@[k2] by {
                if k2 < self.claims@.len() - 1 {
                    assert(old(self).claims@[k1] != old(self).claims@[k2]);
                } else {
                    assert(old(self).claims@.contains(old(self).claims@[k1]));
                    assert(old(self).states@[k as int] == 0);
                }
            }
            assert forall|u: int|
                0 <= u < self.states@.len() implies ((#[trigger] self.states@[u]) != 0
                <==> self.claims@.contains(u)) by {
                lemma_contains_push(old(self).claims@, k as int, u);
                if u != k as int {
                    assert(self.states@[u] == old(self).states@[u]);
                } else {
                    assert(self.claims@[self.claims@.len() - 1] == u);
                }
            }
            if no_do(m) {
                assert forall|u: int|
                    0 <= u < m.units.len() implies count_starts(self.events@, uname(m, u)) == (
                if self.claims@.contains(u) {
                    1int
                } else {
                    0int
                }) by {
                    lemma_contains_push(old(self).claims@, k as int, u);
                    if u == k as int {
                        assert(!old(self).claims@.contains(u));
                        assert(count_starts(old(self).events@, uname(m, u)) == 0);
                    } else {
                        assert(uname(m, u) != uname(m, k as int));
                    }
                }
            }
        }
        true
    }
}

impl<N: Notifier> Runtime<N> {
    /// One step of the dependency scan.
    #[verifier::rlimit(60)]
    fn step_deps(&mut self, fr: Frame, next: usize)
        requires
            old(self).step_ctx(fr),
            fr.phase == (Phase::Deps { next }),
        ensures
            final(self).inv(),
            final(self).done is None ==> final(self).stack@.len() > 0,
            final(self).module == old(self).module,
            old(self).events@.is_prefix_of(final(self).events@),
            Self::deps_transition(
                old(self).mv(),
                old(self).stack@,
                old(self).states@,
                old(self).events@,
                old(self).env.deep_view(),
                *final(self),
                fr,
                next as int,
            ),
    {
        let ghost fr0 = fr;
        let mut fr = fr;
        let u = fr.unit;
        let ndeps = self.module.units[u].1.depends_on.len();
        if next == ndeps {
            if fr.errors.len() == 0 {
                fr.phase = Phase::Cmds { next: 0 };
                self.stack.push(fr);
                proof {
                    assert(self.stack@ =~= old(self).stack@.push(
                        with_phase(fr0, Phase::Cmds { next: 0 }),
                    ));
                }
                return ;
            }
            let span = self.module.units[u].0.duplicate();
            let Frame { unit, claimed, errors, .. } = fr;
            self.emit(NotifierEvent::Error(errors));
            proof {
                assert(old(self).events@.is_prefix_of(self.events@));
            }
            self.finish(unit, claimed, Err(RuntimeError::DependencyError(span)));
            return ;
        }
        proof {
            let m = self.mv();
            assert(m.units[u as int].1 == self.module.units@[u as int].1.deep_view());
            assert(udeps(m, u as int).len() == self.module.units@[
                u as int
            ].1.depends_on@.len());
            assert(next < ndeps);
        }
        let dep_name: String = self.module.units[u].1.depends_on[next].text.clone();
        let dep_sp: Spanned = self.module.units[u].1.depends_on[next].duplicate();
        proof {
            let m = self.mv();
            assert(udeps(m, u as int)[next as int] == self.module.units@[
                u as int
            ].1.depends_on@[next as int]@);
            assert(crate::unit_resolved(m.units[u as int].1, crate::mod_names(m)));
            assert(crate::mod_names(m).contains(udeps(m, u as int)[next as int].text));
        }
        let k = match find_unit(&self.module.units, &dep_name) {
            Some(k) => k,
            None => {
                proof {
                    assert(false);
                }
                0
            },
        };
        let st = self.states[k];
        proof {
            let m = self.mv();
            lemma_dep_idx_bounds(m, u as int, next as int);
            lemma_uidx(m, k as int);
            assert(uidx(m, udeps(m, u as int)[next as int].text) == k as int);
            assert(dep_state(m, self.states@, u as int, next as int) == st);
        }
        if st == 0 {
            self.states[k] = 1;
            proof {
                self.claims@ = self.claims@.push(k as int);
                let m = self.mv();
                assert(self.states@ =~= old(self).states@.update(k as int, 1u8));
                assert forall|i: int|
                    0 <= i < self.stack@.len() implies frame_deps_ok(
                    m,
                    self.states@,
                    #[trigger] self.stack@[i],
                ) && frame_errs_ok(m, self.states@, #[trigger] self.stack@[i]) by {
                    lemma_frame_deps_update(m, old(self).states@, k as int, 1u8, self.stack@[i]);
                    let g = self.stack@[i];
                    match g.phase {
                        Phase::Deps { next: gn } => {
                            lemma_failed_list_update(
                                m,
                                old(self).states@,
                                k as int,
                                1u8,
                                g.unit as int,
                                gn as int,
                            );
                        },
                        Phase::AwaitDep { next: gn } => {
                            lemma_failed_list_update(
                                m,
                                old(self).states@,
                                k as int,
                                1u8,
                                g.unit as int,
                                gn as int,
                            );
                        },
                        Phase::Blocked { next: gn } => {
                            lemma_failed_list_update(
                                m,
                                old(self).states@,
                                k as int,
                                1u8,
                                g.unit as int,
                                gn as int,
                            );
                        },
                        _ => {},
                    }
                }
                lemma_frame_deps_update(m, old(self).states@, k as int, 1u8, fr);
                lemma_failed_list_update(
                    m,
                    old(self).states@,
                    k as int,
                    1u8,
                    u as int,
                    next as int,
                );
            }
            let parent_name = self.module.units[u].0.text.clone();
            self.emit(
                NotifierEvent::Dependency { parent: parent_name, name: dep_name.clone() },
            );
            proof {
                assert(scanned_ok(self.mv(), self.states@, fr, next as int));
            }
            fr.phase = Phase::AwaitDep { next };
            self.stack.push(fr);
            self.stack.push(
                Frame {
                    unit: k,
                    claimed: true,
                    phase: Phase::Deps { next: 0 },
                    errors: Vec::new(),
                    err_deps: Ghost(Seq::empty()),
                },
            );
            self.emit(NotifierEvent::Start(dep_name));
            proof {
                let m = self.mv();
                assert forall|k1: int, k2: int|
                    0 <= k1 < k2 < self.claims@.len() implies self.claims@[k1] != self.claims@[
                    k2
                ] by {
                    if k2 < self.claims@.len() - 1 {
                        assert(old(self).claims@[k1] != old(self).claims@[k2]);
                    } else {
                        assert(old(self).claims@.contains(old(self).claims@[k1]));
                        assert(old(self).states@[k as int] == 0);
                    }
                }
                assert forall|w: int|
                    0 <= w < self.states@.len() implies ((#[trigger] self.states@[w]) != 0
                    <==> self.claims@.contains(w)) by {
                    lemma_contains_push(old(self).claims@, k as int, w);
                    if w != k as int {
                        assert(self.states@[w] == old(self).states@[w]);
                    } else {
                        assert(self.claims@[self.claims@.len() - 1] == w);
                    }
                }
                if no_do(m) {
                    assert forall|w: int|
                        0 <= w < m.units.len() implies count_starts(self.events@, uname(m, w))
                        == (if self.claims@.contains(w) {
                        1int
                    } else {
                        0int
                    }) by {
                        lemma_contains_push(old(self).claims@, k as int, w);
                        assert(uname(m, k as int) == dep_name@);
                        if w == k as int {
                            assert(!old(self).claims@.contains(w));
                            assert(count_starts(old(self).events@, uname(m, w)) == 0);
                        } else {
                            assert(uname(m, w) != uname(m, k as int));
                        }
                    }
                }
                assert(old(self).stack@.is_prefix_of(self.stack@));
                assert(self.stack@[old(self).stack@.len() as int] == with_phase(
                    fr0,
                    Phase::AwaitDep { next },
                ));
                assert(old(self).events@.is_prefix_of(self.events@));
                assert(self.events@[old(self).events@.len() as int]
                    matches NotifierEvent::Dependency { parent, name } && parent@ == uname(
                    m,
                    u as int,
                ) && name@ == udeps(m, u as int)[next as int].text);
            }
        } else if st == 2 {
            proof {
                let m = self.mv();
                lemma_dep_idx_bounds(m, u as int, next as int);
                lemma_uidx(m, k as int);
                assert(uidx(m, udeps(m, u as int)[next as int].text) == k as int);
                assert(dep_state(m, self.states@, u as int, next as int) == 2);
            }
            fr.phase = Phase::Deps { next: next + 1 };
            self.stack.push(fr);
            proof {
                assert(self.stack@ =~= old(self).stack@.push(
                    with_phase(fr0, Phase::Deps { next: (next + 1) as usize }),
                ));
            }
        } else if st == 3 {
            proof {
                let m = self.mv();
                lemma_dep_idx_bounds(m, u as int, next as int);
                lemma_uidx(m, k as int);
                assert(uidx(m, udeps(m, u as int)[next as int].text) == k as int);
                assert(dep_state(m, self.states@, u as int, next as int) == 3);
            }
            let parent_name = self.module.units[u].0.text.clone();
            fr.errors.push(RuntimeError::FailedDependency(parent_name, dep_sp));
            proof {
                fr.err_deps@ = fr.err_deps@.push(next as int);
            }
            fr.phase = Phase::Deps { next: next + 1 };
            self.stack.push(fr);
            proof {
                assert(old(self).stack@.is_prefix_of(self.stack@));
                assert(self.stack@.last().errors@ == fr0.errors@.push(
                    self.stack@.last().errors@.last(),
                ));
                assert(fr0.errors@.is_prefix_of(self.stack@.last().errors@));
            }
        } else {
            let parent_name = self.module.units[u].0.text.clone();
            self.emit(NotifierEvent::BlockOn { parent: parent_name, name: dep_name });
            fr.phase = Phase::Blocked { next };
            self.stack.push(fr);
            proof {
                assert(self.stack@ =~= old(self).stack@.push(
                    with_phase(fr0, Phase::Blocked { next }),
                ));
                assert(old(self).events@.is_prefix_of(self.events@));
            }
        }
    }

    /// Poll a dependency that another branch is running.
    fn step_blocked(&mut self, fr: Frame, next: usize)
        requires
            old(self).step_ctx(fr),
            fr.phase == (Phase::Blocked { next }),
        ensures
            final(self).inv(),
            final(self).done is None ==> final(self).stack@.len() > 0,
            final(self).module == old(self).module,
            old(self).events@.is_prefix_of(final(self).events@),
            Self::blocked_transition(
                old(self).mv(),
                old(self).stack@,
                old(self).states@,
                old(self).events@,
                old(self).env.deep_view(),
                *final(self),
                fr,
                next as int,
            ),
    {
        let ghost fr0 = fr;
        let mut fr = fr;
        let u = fr.unit;
        let nd = self.module.units[u].1.depends_on.len();
        proof {
            let m = self.mv();
            assert(udeps(m, u as int).len() == self.module.units@[u as int].1.depends_on@.len());
            assert(next < nd);
        }
        let dep_name: String = self.module.units[u].1.depends_on[next].text.clone();
        let dep_sp: Spanned = self.module.units[u].1.depends_on[next].duplicate();
        proof {
            let m = self.mv();
            assert(udeps(m, u as int)[next as int] == self.module.units@[
                u as int
            ].1.depends_on@[next as int]@);
            assert(crate::unit_resolved(m.units[u as int].1, crate::mod_names(m)));
            assert(crate::mod_names(m).contains(udeps(m, u as int)[next as int].text));
        }
        let k = match find_unit(&self.module.units, &dep_name) {
            Some(k) => k,
            None => {
                proof {
                    assert(false);
                }
                0
            },
        };
        let st = self.states[k];
        proof {
            let m = self.mv();
            lemma_dep_idx_bounds(m, u as int, next as int);
            lemma_uidx(m, k as int);
            assert(uidx(m, udeps(m, u as int)[next as int].text) == k as int);
            assert(dep_state(m, self.states@, u as int, next as int) == st);
        }
        if st == 2 {
            fr.phase = Phase::Deps { next: next + 1 };
            self.stack.push(fr);
            proof {
                assert(self.stack@ =~= old(self).stack@.push(
                    with_phase(fr0, Phase::Deps { next: (next + 1) as usize }),
                ));
            }
        } else if st == 3 {
            let parent_name = self.module.units[u].0.text.clone();
            fr.errors.push(RuntimeError::FailedDependency(parent_name, dep_sp));
            proof {
                fr.err_deps@ = fr.err_deps@.push(next as int);
            }
            fr.phase = Phase::Deps { next: next + 1 };
            self.stack.push(fr);
            proof {
                assert(old(self).stack@.is_prefix_of(self.stack@));
                assert(fr0.errors@.is_prefix_of(self.stack@.last().errors@));
            }
        } else {
            self.stack.push(fr);
            proof {
                assert(self.stack@ =~= old(self).stack@.push(fr0));
            }
        }
    }

    /// Consume the result of a dependency's activation.
    fn step_await_dep(&mut self, fr: Frame, next: usize)
        requires
            old(self).base_inv(),
            forall|i: int|
                0 <= i < old(self).stack@.len() ==> frame_wf(
                    old(self).mv(),
                    #[trigger] old(self).stack@[i],
                ) && is_waiting(old(self).stack@[i]),
            old(self).ret is Some,
            old(self).pending is None,
            old(self).done is None,
            frame_wf(old(self).mv(), fr),
            frame_deps_ok(old(self).mv(), old(self).states@, fr),
            frame_errs_ok(old(self).mv(), old(self).states@, fr),
            fr.phase == (Phase::AwaitDep { next }),
            fr.claimed ==> old(self).states@[fr.unit as int] == 1,
            fr.claimed ==> forall|i: int|
                0 <= i < old(self).stack@.len() ==> !((#[trigger] old(self).stack@[i]).claimed
                    && old(self).stack@[i].unit == fr.unit),
            old(self).stack@.len() > 0 ==> parent_link(old(self).mv(), old(self).stack@.last(), fr),
            forall|i: int|
                0 <= i < old(self).stack@.len() - 1 ==> parent_link(
                    old(self).mv(),
                    #[trigger] old(self).stack@[i],
                    old(self).stack@[i + 1],
                ),
            dep_state(old(self).mv(), old(self).states@, fr.unit as int, next as int) == (
            if old(self).ret->Some_0 is Ok {
                2u8
            } else {
                3u8
            }),
            match old(self).ret {
                Some(Err(e)) => !(e is FailedDependency),
                _ => true,
            },
        ensures
            final(self).inv(),
            final(self).done is None ==> final(self).stack@.len() > 0,
            final(self).module == old(self).module,
            old(self).events@.is_prefix_of(final(self).events@),
            Self::await_dep_transition(
                old(self).stack@,
                old(self).states@,
                old(self).events@,
                old(self).env.deep_view(),
                *final(self),
                fr,
                next as int,
                old(self).ret->Some_0,
            ),
    {
        let ghost fr0 = fr;
        let mut fr = fr;
        let nd = self.module.units[fr.unit].1.depends_on.len();
        proof {
            let m = self.mv();
            assert(udeps(m, fr.unit as int).len() == self.module.units@[
                fr.unit as int
            ].1.depends_on@.len());
            assert(next < nd);
        }
        let r = self.ret.take();
        match r {
            Some(Ok(_)) => {},
            Some(Err(e)) => {
                fr.errors.push(e);
                proof {
                    fr.err_deps@ = fr.err_deps@.push(next as int);
                }
            },
            None => {},
        }
        fr.phase = Phase::Deps { next: next + 1 };
        self.stack.push(fr);
        proof {
            assert(old(self).stack@.is_prefix_of(self.stack@));
        }
    }

    /// Consume the result of an inline invocation's activation.
    fn step_await_do(&mut self, fr: Frame, next: usize, item: usize)
        requires
            old(self).base_inv(),
            forall|i: int|
                0 <= i < old(self).stack@.len() ==> frame_wf(
                    old(self).mv(),
                    #[trigger] old(self).stack@[i],
                ) && is_waiting(old(self).stack@[i]),
            old(self).ret is Some,
            old(self).pending is None,
            old(self).done is None,
            frame_wf(old(self).mv(), fr),
            frame_deps_ok(old(self).mv(), old(self).states@, fr),
            frame_errs_ok(old(self).mv(), old(self).states@, fr),
            fr.phase == (Phase::AwaitDo { next, item }),
            fr.claimed ==> old(self).states@[fr.unit as int] == 1,
            fr.claimed ==> forall|i: int|
                0 <= i < old(self).stack@.len() ==> !((#[trigger] old(self).stack@[i]).claimed
                    && old(self).stack@[i].unit == fr.unit),
            old(self).stack@.len() > 0 ==> parent_link(old(self).mv(), old(self).stack@.last(), fr),
            forall|i: int|
                0 <= i < old(self).stack@.len() - 1 ==> parent_link(
                    old(self).mv(),
                    #[trigger] old(self).stack@[i],
                    old(self).stack@[i + 1],
                ),
            match old(self).ret {
                Some(Err(e)) => !(e is FailedDependency),
                _ => true,
            },
        ensures
            final(self).inv(),
            final(self).done is None ==> final(self).stack@.len() > 0,
            final(self).module == old(self).module,
            old(self).events@.is_prefix_of(final(self).events@),
            Self::await_do_transition(
                old(self).stack@,
                old(self).states@,
                old(self).events@,
                old(self).env.deep_view(),
                *final(self),
                fr,
                next as int,
                item as int,
                old(self).ret->Some_0,
            ),
    {
        let ghost fr0 = fr;
        let mut fr = fr;
        let nlist = match &self.module.units[fr.unit].1.commands[next] {
            Command::Do(l) => l.len(),
            _ => 0,
        };
        proof {
            let m = self.mv();
            assert(ucmds(m, fr.unit as int).len() == self.module.units@[
                fr.unit as int
            ].1.commands@.len());
            assert(ucmds(m, fr.unit as int)[next as int] == crate::cmd_view(
                self.module.units@[fr.unit as int].1.commands@[next as int],
            ));
            assert(item < nlist);
        }
        let r = self.ret.take();
        match r {
            Some(Err(e)) => {
                self.cmd_fail(fr.unit, fr.claimed, e);
            },
            _ => {
                fr.phase = Phase::DoStep { next, item: item + 1 };
                self.stack.push(fr);
                proof {
                    assert(self.stack@ =~= old(self).stack@.push(
                        with_phase(
                            fr0,
                            Phase::DoStep { next, item: (item + 1) as usize },
                        ),
                    ));
                }
            },
        }
    }
}

/// A `do(...)` entry is among the unit's inline invocations.
proof fn lemma_dos_in_contains(cmds: Seq<CommandV>, c: int, k: int)
    requires
        0 <= c < cmds.len(),
        cmds[c] is Do,
        0 <= k < cmds[c]->Do_0.len(),
    ensures
        crate::dos_in(cmds).contains(cmds[c]->Do_0[k]),
    decreases cmds.len(),
{
    let pre = cmds.drop_last();
    if c == cmds.len() - 1 {
        let a = crate::dos_in(pre);
        let b = crate::do_entries(cmds.last());
        assert(crate::dos_in(cmds)[a.len() + k] == cmds[c]->Do_0[k]);
    } else {
        assert(pre[c] == cmds[c]);
        lemma_dos_in_contains(pre, c, k);
        let j = choose|j: int|
            0 <= j < crate::dos_in(pre).len() && crate::dos_in(pre)[j] == cmds[c]->Do_0[k];
        assert(crate::dos_in(cmds)[j] == cmds[c]->Do_0[k]);
    }
}

impl<N: Notifier> Runtime<N> {
    /// Pause the acting frame on an outside effect.
    fn set_effect(&mut self, eff: Effect, fr: Frame, next: usize, cont: EffCont)
        requires
            old(self).step_ctx(fr),
            (next as int) < ucmds(old(self).mv(), fr.unit as int).len(),
            cont_wf(old(self).mv(), fr.unit as int, next as int, cont),
            all_deps_complete(old(self).mv(), old(self).states@, fr.unit as int),
            fr.errors@.len() == 0,
            env_only(old(self).mv()) ==> eff is Canonicalize,
        ensures
            final(self).inv(),
            final(self).done is None ==> final(self).stack@.len() > 0,
            final(self).module == old(self).module,
            final(self).events == old(self).events,
            Self::paused(
                old(self).stack@,
                old(self).effq@,
                *final(self),
                fr,
                next as int,
                cont,
            ),
            final(self).pending == Some(eff),
            final(self).states@ == old(self).states@,
            final(self).env == old(self).env,
    {
        let mut fr = fr;
        proof {
            self.effq@ = self.effq@.push(eff);
        }
        self.pending = Some(eff);
        fr.phase = Phase::AwaitEffect { next, cont };
        self.stack.push(fr);
        proof {
            assert(old(self).stack@.is_prefix_of(self.stack@));
        }
    }

    /// The current command is done; go on to the next one.
    fn to_cmds(&mut self, fr: Frame, next: usize)
        requires
            old(self).step_ctx(fr),
            (next as int) < ucmds(old(self).mv(), fr.unit as int).len(),
            all_deps_complete(old(self).mv(), old(self).states@, fr.unit as int),
            fr.errors@.len() == 0,
        ensures
            final(self).inv(),
            final(self).done is None ==> final(self).stack@.len() > 0,
            final(self).module == old(self).module,
            final(self).events == old(self).events,
            Self::advanced_quiet(
                old(self).stack@,
                old(self).states@,
                old(self).events@,
                old(self).env.deep_view(),
                old(self).effq@,
                *final(self),
                fr,
                next as int,
            ),
            final(self).env == old(self).env,
    {
        let mut fr = fr;
        let nc = self.module.units[fr.unit].1.commands.len();
        proof {
            assert(ucmds(self.mv(), fr.unit as int).len() == self.module.units@[
                fr.unit as int
            ].1.commands@.len());
        }
        fr.phase = Phase::Cmds { next: next + 1 };
        self.stack.push(fr);
        proof {
            assert(old(self).stack@.is_prefix_of(self.stack@));
        }
    }

    /// Dispatch one command of the acting unit.
    #[verifier::rlimit(100)]
    fn step_cmds(&mut self, fr: Frame, next: usize)
        requires
            old(self).step_ctx(fr),
            fr.phase == (Phase::Cmds { next }),
        ensures
            final(self).inv(),
            final(self).done is None ==> final(self).stack@.len() > 0,
            final(self).module == old(self).module,
            old(self).events@.is_prefix_of(final(self).events@),
            Self::cmds_transition(
                old(self).mv(),
                old(self).stack@,
                old(self).states@,
                old(self).events@,
                old(self).env.deep_view(),
                old(self).effq@,
                *final(self),
                fr,
                next as int,
            ),
    {
        let ghost fr0 = fr;
        let mut fr = fr;
        let u = fr.unit;
        let ncmds = self.module.units[u].1.commands.len();
        proof {
            assert(ucmds(self.mv(), u as int).len() == self.module.units@[
                u as int
            ].1.commands@.len());
        }
        if next == ncmds {
            let name = self.module.units[u].0.text.clone();
            self.emit(NotifierEvent::Complete(name));
            self.finish(fr.unit, fr.claimed, Ok(()));
            return ;
        }
        let cmd = dup_command(&self.module.units[u].1.commands[next]);
        let cmd2 = dup_command(&cmd);
        let name = self.module.units[u].0.text.clone();
        proof {
            assert(ucmds(self.mv(), u as int)[next as int] == crate::cmd_view(
                self.module.units@[u as int].1.commands@[next as int],
            ));
            assert(cmd2.deep_view() == ucmds(self.mv(), u as int)[next as int]);
        }
        proof {
            let m = self.mv();
            assert(all_deps_complete(m, self.states@, u as int));
        }
        self.emit(NotifierEvent::Call(name, cmd));
        proof {
            let m = self.mv();
            let evs = self.events@;
            let kk = evs.len() - 1;
            assert(evs.take(kk) =~= old(self).events@);
            assert forall|uu: int, d: int|
                0 <= uu < m.units.len() && uname(m, uu) == uname(m, u as int) && 0 <= d < udeps(
                    m,
                    uu,
                ).len() implies has_complete(evs.take(kk), (#[trigger] udeps(m, uu)[d]).text) by {
                if uu != u as int {
                    if uu < u as int {
                        assert(m.units[uu].0.text != m.units[u as int].0.text);
                    } else {
                        assert(m.units[u as int].0.text != m.units[uu].0.text);
                    }
                }
                assert(dep_state(m, self.states@, u as int, d) == 2);
                lemma_dep_idx_bounds(m, u as int, d);
                let x = uidx(m, udeps(m, u as int)[d].text);
                assert(self.states@[x] == 2);
                assert(has_complete(old(self).events@, uname(m, x)));
            }
            assert(call_prec(m, evs, kk));
            assert forall|k2: int| 0 <= k2 < evs.len() implies call_prec(m, evs, k2) by {
                if k2 < evs.len() - 1 {
                    assert(call_prec(m, old(self).events@, k2));
                }
            }
        }
        match cmd2 {
            Command::DependsOn(_) => {
                self.to_cmds(fr, next);
            },
            Command::Meta(_) => {
                self.to_cmds(fr, next);
            },
            Command::Do(_) => {
                fr.phase = Phase::DoStep { next, item: 0 };
                self.stack.push(fr);
                proof {
                    assert(self.stack@ =~= old(self).stack@.push(
                        with_phase(fr0, Phase::DoStep { next, item: 0 }),
                    ));
                }
            },
            Command::Exec(args) => {
                proof {
                    if env_only(self.mv()) {
                        assert(ucmds(self.mv(), u as int)[next as int] is Env);
                        assert(false);
                    }
                }
                let envc = dup_string_pairs(&self.env);
                self.set_effect(
                    Effect::Exec { argv: args, env: envc },
                    fr,
                    next,
                    EffCont::ExecWait,
                );
            },
            Command::Concurrent(v) => {
                self.cmd_fail(
                    fr.unit,
                    fr.claimed,
                    RuntimeError::CommandUnsupported(Command::Concurrent(v)),
                );
            },
            Command::Fs(op) => {
                proof {
                    if env_only(self.mv()) {
                        assert(ucmds(self.mv(), u as int)[next as int] is Env);
                        assert(false);
                    }
                }
                match op {
                    FsCommand::Create(p) => {
                        self.set_effect(
                            Effect::CreateFile { path: p.text },
                            fr,
                            next,
                            EffCont::CreateWait,
                        );
                    },
                    FsCommand::CreateDir(p) => {
                        self.set_effect(
                            Effect::CreateDirAll { path: p.text },
                            fr,
                            next,
                            EffCont::CreateDirWait,
                        );
                    },
                    FsCommand::Remove(p) => {
                        self.set_effect(
                            Effect::RemovePath { path: p.text },
                            fr,
                            next,
                            EffCont::RemoveWait,
                        );
                    },
                    FsCommand::Copy(s, d) => {
                        self.set_effect(
                            Effect::CopyPath { src: s.text, dst: d.text },
                            fr,
                            next,
                            EffCont::CopyWait,
                        );
                    },
                    FsCommand::Move(s, d) => {
                        self.set_effect(
                            Effect::CopyPath { src: s.text, dst: d.text },
                            fr,
                            next,
                            EffCont::MoveCopyWait,
                        );
                    },
                    FsCommand::CopyTo(h, map) => {
                        if map.len() == 0 {
                            self.to_cmds(fr, next);
                        } else {
                            let dst = match &map[0].1 {
                                Option::Some(d) => extend_path(&h.text, &d.text),
                                Option::None => extend_path(&h.text, &map[0].0.text),
                            };
                            let src_path = map[0].0.text.clone();
                            self.set_effect(
                                Effect::CopyPath { src: src_path, dst },
                                fr,
                                next,
                                EffCont::CopyToWait { i: 0 },
                            );
                        }
                    },
                    FsCommand::MoveTo(h, map) => {
                        if map.len() == 0 {
                            self.to_cmds(fr, next);
                        } else {
                            let dst = match &map[0].1 {
                                Option::Some(d) => extend_path(&h.text, &d.text),
                                Option::None => extend_path(&h.text, &map[0].0.text),
                            };
                            let src_path = map[0].0.text.clone();
                            self.set_effect(
                                Effect::CopyPath { src: src_path, dst },
                                fr,
                                next,
                                EffCont::MoveToCopyWait { i: 0 },
                            );
                        }
                    },
                    FsCommand::PrintFile(p) => {
                        self.set_effect(
                            Effect::ReadFile { path: p.text },
                            fr,
                            next,
                            EffCont::ReadWait { stderr: false },
                        );
                    },
                    FsCommand::EPrintFile(p) => {
                        self.set_effect(
                            Effect::ReadFile { path: p.text },
                            fr,
                            next,
                            EffCont::ReadWait { stderr: true },
                        );
                    },
                }
            },
            Command::Io(op) => {
                proof {
                    if env_only(self.mv()) {
                        assert(ucmds(self.mv(), u as int)[next as int] is Env);
                        assert(false);
                    }
                }
                match op {
                    IoCommand::PrintLn(t) => {
                        self.set_effect(
                            Effect::Print { text: t.text, newline: true, stderr: false },
                            fr,
                            next,
                            EffCont::PrintWait,
                        );
                    },
                    IoCommand::Print(t) => {
                        self.set_effect(
                            Effect::Print { text: t.text, newline: false, stderr: false },
                            fr,
                            next,
                            EffCont::PrintWait,
                        );
                    },
                    IoCommand::EPrintLn(t) => {
                        self.set_effect(
                            Effect::Print { text: t.text, newline: true, stderr: true },
                            fr,
                            next,
                            EffCont::PrintWait,
                        );
                    },
                    IoCommand::EPrint(t) => {
                        self.set_effect(
                            Effect::Print { text: t.text, newline: false, stderr: true },
                            fr,
                            next,
                            EffCont::PrintWait,
                        );
                    },
                }
            },
            Command::Env(op) => {
                match op {
                    EnvCommand::SetVar(k, v) => {
                        env_set(&mut self.env, &k.text, &v.text);
                        self.to_cmds(fr, next);
                    },
                    EnvCommand::RemoveVar(k) => {
                        env_remove(&mut self.env, &k.text);
                        self.to_cmds(fr, next);
                    },
                    EnvCommand::PathPush(p) => {
                        self.set_effect(
                            Effect::Canonicalize { path: p.text },
                            fr,
                            next,
                            EffCont::CanonWait { push: true },
                        );
                    },
                    EnvCommand::PathRemove(p) => {
                        self.set_effect(
                            Effect::Canonicalize { path: p.text },
                            fr,
                            next,
                            EffCont::CanonWait { push: false },
                        );
                    },
                }
            },
        }
    }

    /// Continue an inline `do(...)` list: run its next target.
    fn step_dostep(&mut self, fr: Frame, next: usize, item: usize)
        requires
            old(self).step_ctx(fr),
            fr.phase == (Phase::DoStep { next, item }),
        ensures
            final(self).inv(),
            final(self).done is None ==> final(self).stack@.len() > 0,
            final(self).module == old(self).module,
            old(self).events@.is_prefix_of(final(self).events@),
            Self::dostep_transition(
                old(self).mv(),
                old(self).stack@,
                old(self).states@,
                old(self).events@,
                old(self).env.deep_view(),
                *final(self),
                fr,
                next as int,
                item as int,
            ),
    {
        let ghost fr0 = fr;
        let mut fr = fr;
        let u = fr.unit;
        proof {
            assert(ucmds(self.mv(), u as int).len() == self.module.units@[
                u as int
            ].1.commands@.len());
            assert(ucmds(self.mv(), u as int)[next as int] == crate::cmd_view(
                self.module.units@[u as int].1.commands@[next as int],
            ));
        }
        let nlist = match &self.module.units[u].1.commands[next] {
            Command::Do(l) => l.len(),
            _ => {
                proof {
                    assert(false);
                }
                0
            },
        };
        if item == nlist {
            self.to_cmds(fr, next);
            return ;
        }
        let tname: String = match &self.module.units[u].1.commands[next] {
            Command::Do(l) => l[item].text.clone(),
            _ => {
                proof {
                    assert(false);
                }
                String::new()
            },
        };
        proof {
            let m = self.mv();
            let cv = ucmds(m, u as int)[next as int];
            lemma_dos_in_contains(ucmds(m, u as int), next as int, item as int);
            assert(crate::unit_resolved(m.units[u as int].1, crate::mod_names(m)));
            let j = choose|j: int|
                0 <= j < crate::dos_in(ucmds(m, u as int)).len() && crate::dos_in(
                    ucmds(m, u as int),
                )[j] == cv->Do_0[item as int];
            assert(crate::mod_names(m).contains(
                crate::dos_in(m.units[u as int].1.commands)[j].text,
            ));
            assert(cv->Do_0[item as int].text == tname@);
        }
        let k = match find_unit(&self.module.units, &tname) {
            Some(k) => k,
            None => {
                proof {
                    assert(false);
                }
                0
            },
        };
        fr.phase = Phase::AwaitDo { next, item };
        self.stack.push(fr);
        self.stack.push(
            Frame {
                unit: k,
                claimed: false,
                phase: Phase::Deps { next: 0 },
                errors: Vec::new(),
                err_deps: Ghost(Seq::empty()),
            },
        );
        self.emit(NotifierEvent::Start(tname));
        proof {
            let m = self.mv();
            if no_do(m) {
                assert(!(ucmds(m, u as int)[next as int] is Do));
                assert(false);
            }
            lemma_uidx(m, k as int);
            assert(uname(m, k as int) == ucmds(m, u as int)[next as int]->Do_0[item as int].text);
            assert(old(self).stack@.is_prefix_of(self.stack@));
            assert(self.stack@[old(self).stack@.len() as int] == with_phase(
                fr0,
                Phase::AwaitDo { next, item },
            ));
            assert(old(self).events@.is_prefix_of(self.events@));
        }
    }
}

impl<N: Notifier> Runtime<N> {
    /// Hand the engine the outcome of the pending effect.
    ///
    /// A failed process or filesystem action becomes the command's error,
    /// shaped as the command dictates; print outcomes are ignored; a
    /// canonicalized path flows into the PATH edit, whose own failure is
    /// a `JoinPathsError`.
    #[verifier::rlimit(100)]
    pub fn provide(&mut self, outcome: Outcome)
        requires
            old(self).inv(),
            old(self).done is None,
            old(self).pending is Some,
        ensures
            final(self).inv(),
            final(self).done is None ==> final(self).stack@.len() > 0,
            final(self).module == old(self).module,
            old(self).events@.is_prefix_of(final(self).events@),
            (old(self).stack@.last().phase matches Phase::AwaitEffect { next, cont }
                ==> Self::provide_transition(
                old(self).mv(),
                old(self).stack@.drop_last(),
                old(self).states@,
                old(self).events@,
                old(self).env.deep_view(),
                old(self).effq@,
                *final(self),
                old(self).stack@.last(),
                next as int,
                cont,
                outcome,
            )),
    {
        self.pending = None;
        let fr = match self.stack.pop() {
            Some(f) => f,
            None => {
                proof {
                    assert(false);
                }
                return ;
            },
        };
        let u = fr.unit;
        let (next, cont) = match fr.phase {
            Phase::AwaitEffect { next, cont } => (next, cont),
            _ => {
                proof {
                    assert(false);
                }
                (0, EffCont::PrintWait)
            },
        };
        proof {
            assert(frame_wf(self.mv(), fr));
            assert(ucmds(self.mv(), u as int).len() == self.module.units@[
                u as int
            ].1.commands@.len());
            assert(ucmds(self.mv(), u as int)[next as int] == crate::cmd_view(
                self.module.units@[u as int].1.commands@[next as int],
            ));
            assert forall|i: int|
                0 <= i < self.stack@.len() implies frame_wf(
                self.mv(),
                #[trigger] self.stack@[i],
            ) && is_waiting(self.stack@[i]) by {
                assert(old(self).stack@[i] == self.stack@[i]);
            }
        }
        proof {
            let os = old(self).stack@;
            assert(os[os.len() - 1] == fr);
            assert forall|i: int|
                0 <= i < self.stack@.len() && (#[trigger] self.stack@[i]).claimed implies self.states@[
                self.stack@[i].unit as int
            ] == 1 by {
                assert(self.stack@[i] == os[i]);
            }
            assert forall|i: int, j: int|
                0 <= i < j < self.stack@.len() && (#[trigger] self.stack@[i]).claimed && (
                #[trigger] self.stack@[j]).claimed implies self.stack@[i].unit != self.stack@[
                j
            ].unit by {
                assert(self.stack@[i] == os[i] && self.stack@[j] == os[j]);
            }
            if fr.claimed {
                assert(old(self).states@[fr.unit as int] == 1);
                assert forall|i: int|
                    0 <= i < self.stack@.len() implies !((#[trigger] self.stack@[i]).claimed
                    && self.stack@[i].unit == fr.unit) by {
                    assert(self.stack@[i] == os[i]);
                }
            }
        }

        proof {
            let os = old(self).stack@;
            let m = self.mv();
            assert(frame_deps_ok(m, self.states@, fr));
            assert(frame_errs_ok(m, self.states@, fr));
            assert forall|i: int|
                0 <= i < self.stack@.len() implies frame_deps_ok(
                m,
                self.states@,
                #[trigger] self.stack@[i],
            ) && frame_errs_ok(m, self.states@, #[trigger] self.stack@[i]) by {
                assert(self.stack@[i] == os[i]);
            }
            assert forall|i: int|
                0 <= i < self.stack@.len() - 1 implies parent_link(
                m,
                #[trigger] self.stack@[i],
                self.stack@[i + 1],
            ) by {
                assert(self.stack@[i] == os[i] && self.stack@[i + 1] == os[i + 1]);
            }
            if self.stack@.len() > 0 {
                assert(parent_link(m, os[os.len() - 2], os[os.len() - 1]));
                assert(self.stack@.last() == os[os.len() - 2]);
            }
        }
        match cont {
            EffCont::ExecWait => {
                if outcome.ok {
                    self.to_cmds(fr, next);
                } else {
                    let argv = match &self.module.units[u].1.commands[next] {
                        Command::Exec(a) => dup_spanned_vec(a),
                        _ => {
                            proof {
                                assert(false);
                            }
                            Vec::new()
                        },
                    };
                    self.cmd_fail(
                        fr.unit,
                        fr.claimed,
                        RuntimeError::ExecutionFailure(argv, outcome.detail),
                    );
                }
            },
            EffCont::CreateWait => {
                if outcome.ok {
                    self.to_cmds(fr, next);
                } else {
                    let p = match &self.module.units[u].1.commands[next] {
                        Command::Fs(FsCommand::Create(p)) => p.duplicate(),
                        _ => {
                            proof {
                                assert(false);
                            }
                            Spanned::new(String::new())
                        },
                    };
                    self.cmd_fail(
                        fr.unit,
                        fr.claimed,
                        RuntimeError::FsError(FsError::CreateFileError(p, outcome.detail)),
                    );
                }
            },
            EffCont::CreateDirWait => {
                if outcome.ok {
                    self.to_cmds(fr, next);
                } else {
                    let p = match &self.module.units[u].1.commands[next] {
                        Command::Fs(FsCommand::CreateDir(p)) => p.duplicate(),
                        _ => {
                            proof {
                                assert(false);
                            }
                            Spanned::new(String::new())
                        },
                    };
                    self.cmd_fail(
                        fr.unit,
                        fr.claimed,
                        RuntimeError::FsError(FsError::CreateDirError(p, outcome.detail)),
                    );
                }
            },
            EffCont::RemoveWait => {
                if outcome.ok {
                    self.to_cmds(fr, next);
                } else {
                    let p = match &self.module.units[u].1.commands[next] {
                        Command::Fs(FsCommand::Remove(p)) => p.duplicate(),
                        _ => {
                            proof {
                                assert(false);
                            }
                            Spanned::new(String::new())
                        },
                    };
                    self.cmd_fail(
                        fr.unit,
                        fr.claimed,
                        RuntimeError::FsError(FsError::RemoveError(p, outcome.detail)),
                    );
                }
            },
            EffCont::CopyWait => {
                if outcome.ok {
                    self.to_cmds(fr, next);
                } else {
                    let (s, d) = match &self.module.units[u].1.commands[next] {
                        Command::Fs(FsCommand::Copy(s, d)) => (s.duplicate(), d.duplicate()),
                        _ => {
                            proof {
                                assert(false);
                            }
                            (Spanned::new(String::new()), Spanned::new(String::new()))
                        },
                    };
                    self.cmd_fail(
                        fr.unit,
                        fr.claimed,
                        RuntimeError::FsError(FsError::CopyError(s, d, outcome.detail)),
                    );
                }
            },
            EffCont::MoveCopyWait => {
                if outcome.ok {
                    let src = match &self.module.units[u].1.commands[next] {
                        Command::Fs(FsCommand::Move(s, _)) => s.text.clone(),
                        _ => {
                            proof {
                                assert(false);
                            }
                            String::new()
                        },
                    };
                    proof {
                        if env_only(self.mv()) {
                            assert(ucmds(self.mv(), u as int)[next as int] is Env);
                            assert(false);
                        }
                    }
                    self.set_effect(
                        Effect::RemovePath { path: src },
                        fr,
                        next,
                        EffCont::MoveRemoveWait,
                    );
                } else {
                    let (s, d) = match &self.module.units[u].1.commands[next] {
                        Command::Fs(FsCommand::Move(s, d)) => (s.duplicate(), d.duplicate()),
                        _ => {
                            proof {
                                assert(false);
                            }
                            (Spanned::new(String::new()), Spanned::new(String::new()))
                        },
                    };
                    self.cmd_fail(
                        fr.unit,
                        fr.claimed,
                        RuntimeError::FsError(FsError::CopyError(s, d, outcome.detail)),
                    );
                }
            },
            EffCont::MoveRemoveWait => {
                if outcome.ok {
                    self.to_cmds(fr, next);
                } else {
                    let s = match &self.module.units[u].1.commands[next] {
                        Command::Fs(FsCommand::Move(s, _)) => s.duplicate(),
                        _ => {
                            proof {
                                assert(false);
                            }
                            Spanned::new(String::new())
                        },
                    };
                    self.cmd_fail(
                        fr.unit,
                        fr.claimed,
                        RuntimeError::FsError(FsError::RemoveError(s, outcome.detail)),
                    );
                }
            },
            EffCont::CopyToWait { i } => {
                if outcome.ok {
                    let nmap = match &self.module.units[u].1.commands[next] {
                        Command::Fs(FsCommand::CopyTo(_, m)) => m.len(),
                        _ => {
                            proof {
                                assert(false);
                            }
                            0
                        },
                    };
                    if i + 1 < nmap {
                        let (src_path, dst) = match &self.module.units[u].1.commands[next] {
                            Command::Fs(FsCommand::CopyTo(h, m)) => {
                                let dst = match &m[i + 1].1 {
                                    Option::Some(d) => extend_path(&h.text, &d.text),
                                    Option::None => extend_path(&h.text, &m[i + 1].0.text),
                                };
                                (m[i + 1].0.text.clone(), dst)
                            },
                            _ => {
                                proof {
                                    assert(false);
                                }
                                (String::new(), String::new())
                            },
                        };
                        proof {
                            if env_only(self.mv()) {
                                assert(ucmds(self.mv(), u as int)[next as int] is Env);
                                assert(false);
                            }
                        }
                        self.set_effect(
                            Effect::CopyPath { src: src_path, dst },
                            fr,
                            next,
                            EffCont::CopyToWait { i: i + 1 },
                        );
                    } else {
                        self.to_cmds(fr, next);
                    }
                } else {
                    let (s, d) = match &self.module.units[u].1.commands[next] {
                        Command::Fs(FsCommand::CopyTo(h, m)) => {
                            let dst_text = match &m[i].1 {
                                Option::Some(d) => extend_path(&h.text, &d.text),
                                Option::None => extend_path(&h.text, &m[i].0.text),
                            };
                            (m[i].0.duplicate(), Spanned::with_span(dst_text, h.span))
                        },
                        _ => {
                            proof {
                                assert(false);
                            }
                            (Spanned::new(String::new()), Spanned::new(String::new()))
                        },
                    };
                    self.cmd_fail(
                        fr.unit,
                        fr.claimed,
                        RuntimeError::FsError(FsError::CopyError(s, d, outcome.detail)),
                    );
                }
            },
            EffCont::MoveToCopyWait { i } => {
                if outcome.ok {
                    let src = match &self.module.units[u].1.commands[next] {
                        Command::Fs(FsCommand::MoveTo(_, m)) => m[i].0.text.clone(),
                        _ => {
                            proof {
                                assert(false);
                            }
                            String::new()
                        },
                    };
                    proof {
                        if env_only(self.mv()) {
                            assert(ucmds(self.mv(), u as int)[next as int] is Env);
                            assert(false);
                        }
                    }
                    self.set_effect(
                        Effect::RemovePath { path: src },
                        fr,
                        next,
                        EffCont::MoveToRemoveWait { i },
                    );
                } else {
                    let (s, d) = match &self.module.units[u].1.commands[next] {
                        Command::Fs(FsCommand::MoveTo(h, m)) => {
                            let dst_text = match &m[i].1 {
                                Option::Some(d) => extend_path(&h.text, &d.text),
                                Option::None => extend_path(&h.text, &m[i].0.text),
                            };
                            (m[i].0.duplicate(), Spanned::with_span(dst_text, h.span))
                        },
                        _ => {
                            proof {
                                assert(false);
                            }
                            (Spanned::new(String::new()), Spanned::new(String::new()))
                        },
                    };
                    self.cmd_fail(
                        fr.unit,
                        fr.claimed,
                        RuntimeError::FsError(FsError::CopyError(s, d, outcome.detail)),
                    );
                }
            },
            EffCont::MoveToRemoveWait { i } => {
                if outcome.ok {
                    let nmap = match &self.module.units[u].1.commands[next] {
                        Command::Fs(FsCommand::MoveTo(_, m)) => m.len(),
                        _ => {
                            proof {
                                assert(false);
                            }
                            0
                        },
                    };
                    if i + 1 < nmap {
                        let (src_path, dst) = match &self.module.units[u].1.commands[next] {
                            Command::Fs(FsCommand::MoveTo(h, m)) => {
                                let dst = match &m[i + 1].1 {
                                    Option::Some(d) => extend_path(&h.text, &d.text),
                                    Option::None => extend_path(&h.text, &m[i + 1].0.text),
                                };
                                (m[i + 1].0.text.clone(), dst)
                            },
                            _ => {
                                proof {
                                    assert(false);
                                }
                                (String::new(), String::new())
                            },
                        };
                        proof {
                            if env_only(self.mv()) {
                                assert(ucmds(self.mv(), u as int)[next as int] is Env);
                                assert(false);
                            }
                        }
                        self.set_effect(
                            Effect::CopyPath { src: src_path, dst },
                            fr,
                            next,
                            EffCont::MoveToCopyWait { i: i + 1 },
                        );
                    } else {
                        self.to_cmds(fr, next);
                    }
                } else {
                    let s = match &self.module.units[u].1.commands[next] {
                        Command::Fs(FsCommand::MoveTo(_, m)) => m[i].0.duplicate(),
                        _ => {
                            proof {
                                assert(false);
                            }
                            Spanned::new(String::new())
                        },
                    };
                    self.cmd_fail(
                        fr.unit,
                        fr.claimed,
                        RuntimeError::FsError(FsError::RemoveError(s, outcome.detail)),
                    );
                }
            },
            EffCont::ReadWait { stderr } => {
                if outcome.ok {
                    proof {
                        if env_only(self.mv()) {
                            assert(ucmds(self.mv(), u as int)[next as int] is Env);
                            assert(false);
                        }
                    }
                    self.set_effect(
                        Effect::Print { text: outcome.detail, newline: true, stderr },
                        fr,
                        next,
                        EffCont::PrintWait,
                    );
                } else {
                    let p = match &self.module.units[u].1.commands[next] {
                        Command::Fs(FsCommand::PrintFile(p)) => p.duplicate(),
                        Command::Fs(FsCommand::EPrintFile(p)) => p.duplicate(),
                        _ => {
                            proof {
                                assert(false);
                            }
                            Spanned::new(String::new())
                        },
                    };
                    self.cmd_fail(
                        fr.unit,
                        fr.claimed,
                        RuntimeError::FsError(FsError::FileAccessError(p, outcome.detail)),
                    );
                }
            },
            EffCont::PrintWait => {
                self.to_cmds(fr, next);
            },
            EffCont::CanonWait { push } => {
                if outcome.ok {
                    let r = if push {
                        env_path_push(&mut self.env, &outcome.detail)
                    } else {
                        env_path_remove(&mut self.env, &outcome.detail)
                    };
                    match r {
                        Ok(_) => {
                            self.to_cmds(fr, next);
                        },
                        Err(m) => {
                            self.cmd_fail(fr.unit, fr.claimed, RuntimeError::JoinPathsError(m));
                        },
                    }
                } else {
                    self.cmd_fail(
                        fr.unit,
                        fr.claimed,
                        RuntimeError::JoinPathsError(outcome.detail),
                    );
                }
            },
        }
    }

    /// One step of the run.  Call it whenever no effect is pending and the
    /// run has not ended; a host loop of `tick`, `pending_effect` and
    /// `provide` drives the run to its result.
    pub fn tick(&mut self)
        requires
            old(self).inv(),
            old(self).done is None,
            old(self).pending is None,
            old(self).stack@.len() > 0,
        ensures
            final(self).inv(),
            final(self).done is None ==> final(self).stack@.len() > 0,
            final(self).module == old(self).module,
            old(self).events@.is_prefix_of(final(self).events@),
            match old(self).stack@.last().phase {
                Phase::Deps { next } => Self::deps_transition(
                    old(self).mv(),
                    old(self).stack@.drop_last(),
                    old(self).states@,
                    old(self).events@,
                    old(self).env.deep_view(),
                    *final(self),
                    old(self).stack@.last(),
                    next as int,
                ),
                Phase::Blocked { next } => Self::blocked_transition(
                    old(self).mv(),
                    old(self).stack@.drop_last(),
                    old(self).states@,
                    old(self).events@,
                    old(self).env.deep_view(),
                    *final(self),
                    old(self).stack@.last(),
                    next as int,
                ),
                Phase::Cmds { next } => Self::cmds_transition(
                    old(self).mv(),
                    old(self).stack@.drop_last(),
                    old(self).states@,
                    old(self).events@,
                    old(self).env.deep_view(),
                    old(self).effq@,
                    *final(self),
                    old(self).stack@.last(),
                    next as int,
                ),
                Phase::DoStep { next, item } => Self::dostep_transition(
                    old(self).mv(),
                    old(self).stack@.drop_last(),
                    old(self).states@,
                    old(self).events@,
                    old(self).env.deep_view(),
                    *final(self),
                    old(self).stack@.last(),
                    next as int,
                    item as int,
                ),
                Phase::AwaitDep { next } => Self::await_dep_transition(
                    old(self).stack@.drop_last(),
                    old(self).states@,
                    old(self).events@,
                    old(self).env.deep_view(),
                    *final(self),
                    old(self).stack@.last(),
                    next as int,
                    old(self).ret->Some_0,
                ),
                Phase::AwaitDo { next, item } => Self::await_do_transition(
                    old(self).stack@.drop_last(),
                    old(self).states@,
                    old(self).events@,
                    old(self).env.deep_view(),
                    *final(self),
                    old(self).stack@.last(),
                    next as int,
                    item as int,
                    old(self).ret->Some_0,
                ),
                // with no effect pending, no frame awaits one
                Phase::AwaitEffect { .. } => false,
            },
    {
        let fr = match self.stack.pop() {
            Some(f) => f,
            None => {
                proof {
                    assert(false);
                }
                return ;
            },
        };
        proof {
            assert(frame_wf(self.mv(), fr));
            assert forall|i: int|
                0 <= i < self.stack@.len() implies frame_wf(
                self.mv(),
                #[trigger] self.stack@[i],
            ) && is_waiting(self.stack@[i]) by {
                assert(old(self).stack@[i] == self.stack@[i]);
            }
        }
        proof {
            let os = old(self).stack@;
            assert(os[os.len() - 1] == fr);
            assert forall|i: int|
                0 <= i < self.stack@.len() && (#[trigger] self.stack@[i]).claimed implies self.states@[
                self.stack@[i].unit as int
            ] == 1 by {
                assert(self.stack@[i] == os[i]);
            }
            assert forall|i: int, j: int|
                0 <= i < j < self.stack@.len() && (#[trigger] self.stack@[i]).claimed && (
                #[trigger] self.stack@[j]).claimed implies self.stack@[i].unit != self.stack@[
                j
            ].unit by {
                assert(self.stack@[i] == os[i] && self.stack@[j] == os[j]);
            }
            if fr.claimed {
                assert(old(self).states@[fr.unit as int] == 1);
                assert forall|i: int|
                    0 <= i < self.stack@.len() implies !((#[trigger] self.stack@[i]).claimed
                    && self.stack@[i].unit == fr.unit) by {
                    assert(self.stack@[i] == os[i]);
                }
            }
        }

        proof {
            let os = old(self).stack@;
            let m = self.mv();
            assert(frame_deps_ok(m, self.states@, fr));
            assert(frame_errs_ok(m, self.states@, fr));
            assert forall|i: int|
                0 <= i < self.stack@.len() implies frame_deps_ok(
                m,
                self.states@,
                #[trigger] self.stack@[i],
            ) && frame_errs_ok(m, self.states@, #[trigger] self.stack@[i]) by {
                assert(self.stack@[i] == os[i]);
            }
            assert forall|i: int|
                0 <= i < self.stack@.len() - 1 implies parent_link(
                m,
                #[trigger] self.stack@[i],
                self.stack@[i + 1],
            ) by {
                assert(self.stack@[i] == os[i] && self.stack@[i + 1] == os[i + 1]);
            }
            if self.stack@.len() > 0 {
                assert(parent_link(m, os[os.len() - 2], os[os.len() - 1]));
                assert(self.stack@.last() == os[os.len() - 2]);
            }
        }
        let ph = fr.phase;
        match ph {
            Phase::Deps { next } => {
                self.step_deps(fr, next);
            },
            Phase::Blocked { next } => {
                self.step_blocked(fr, next);
            },
            Phase::Cmds { next } => {
                self.step_cmds(fr, next);
            },
            Phase::DoStep { next, item } => {
                self.step_dostep(fr, next, item);
            },
            Phase::AwaitDep { next } => {
                proof {
                    assert(old(self).stack@.last() == fr);
                }
                self.step_await_dep(fr, next);
            },
            Phase::AwaitDo { next, item } => {
                self.step_await_do(fr, next, item);
            },
            Phase::AwaitEffect { .. } => {
                proof {
                    assert(false);
                }
            },
        }
    }
}

/// At-most-once.  In a module without inline `do(...)` invocations, the
/// number of `Start` events a unit has emitted equals its number of state
/// transitions out of `INCOMPLETE` — which the claim protocol caps at one.
pub proof fn lemma_at_most_once<N: Notifier>(rt: &Runtime<N>, u: int)
    requires
        rt.inv(),
        no_do(rt.module.deep_view()),
        0 <= u < rt.module.deep_view().units.len(),
    ensures
        count_starts(rt.events@, uname(rt.module.deep_view(), u)) == (if rt.states@[u] != 0 {
            1int
        } else {
            0int
        }),
        count_starts(rt.events@, uname(rt.module.deep_view(), u)) <= 1,
{
}

/// Dependency precedence.  Whenever the log shows a `Call` from a unit,
/// every dependency of that unit has already announced `Complete`.
pub proof fn lemma_dependency_precedence<N: Notifier>(rt: &Runtime<N>, k: int, uu: int, d: int)
    requires
        rt.inv(),
        0 <= k < rt.events@.len(),
        rt.events@[k] is Call,
        0 <= uu < rt.module.deep_view().units.len(),
        uname(rt.module.deep_view(), uu) == rt.events@[k]->Call_0@,
        0 <= d < udeps(rt.module.deep_view(), uu).len(),
    ensures
        has_complete(rt.events@.take(k), udeps(rt.module.deep_view(), uu)[d].text),
{
    assert(call_prec(rt.module.deep_view(), rt.events@, k));
}

/// Environment isolation.  A module whose commands are all `Env.*`
/// operations asks the host for nothing but path canonicalization — a
/// read.  Every environment mutation stays inside the engine's snapshot,
/// so a host that performs exactly the requested effects leaves the real
/// process environment bit-identical to what it was before the run.
pub proof fn lemma_environment_isolation<N: Notifier>(rt: &Runtime<N>, k: int)
    requires
        rt.inv(),
        env_only(rt.module.deep_view()),
        0 <= k < rt.effq@.len(),
    ensures
        rt.effq@[k] is Canonicalize,
{
}

/// Failure aggregation, per activation.  While a unit scans its
/// dependencies, its buffer holds exactly one entry per settled
/// dependency that failed — entry `j` stands for failed dependency
/// `err_deps[j]`, so no failed dependency is ever recorded twice (as a
/// bubbled error and again as a `FailedDependency`) or dropped — and a
/// `FailedDependency` entry names exactly the unit and dependency it
/// stands for.  Once a unit's commands run, the buffer is empty: no
/// command is ever dispatched past a failed dependency.
///
/// The other half of the guarantee is `tick`'s contract: when the scan
/// ends with a non-empty buffer, `deps_transition` pins exactly one
/// `Error` event carrying the whole buffer, a `DependencyError(unit)`
/// result, and no `Call` from the unit.
pub proof fn lemma_failure_aggregation<N: Notifier>(rt: &Runtime<N>, i: int)
    requires
        rt.inv(),
        0 <= i < rt.stack@.len(),
    ensures
        rt.stack@[i].phase matches Phase::Deps { next } ==> scan_errs_ok(
            rt.module.deep_view(),
            rt.states@,
            rt.stack@[i],
            next as int,
        ),
        (rt.stack@[i].phase is Cmds || rt.stack@[i].phase is AwaitEffect || rt.stack@[i].phase
            is DoStep || rt.stack@[i].phase is AwaitDo) ==> rt.stack@[i].errors@.len() == 0,
{
    assert(frame_errs_ok(rt.module.deep_view(), rt.states@, rt.stack@[i]));
}

} // verus!
