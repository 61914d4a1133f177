//! A build orchestrator driven by a small declarative scripting language.
//!
//! A script declares named units (reusable procedures) and exposes up to two
//! of them under the well-known roles `build` and `test`.  The frontend lexes
//! and parses the script into an AST, and `Module::lower` validates and
//! deduplicates that AST into a `Module`.  The `runtime` module executes a
//! unit together with its dependency closure, with at-most-once semantics and
//! aggregated dependency-failure reporting.

use vstd::prelude::*;

pub mod cli;
pub mod lexer;
pub mod notifier;
pub mod parser;
pub mod runtime;

use crate::parser::{Spanned, SpannedV, AST, ASTV};

verus! {

broadcast use vstd::seq::axiom_seq_index_decreases, vstd::seq::axiom_seq_subrange_decreases, vstd::std_specs::vec::axiom_vec_decreases_to_view, vstd::std_specs::vec::axiom_vec_index_decreases;

/// A well-known role under which a unit can be exposed for invocation.
#[derive(Debug, Clone, Copy, PartialEq, Eq, Structural)]
pub enum Pragma {
    Test,
    Build,
}

impl DeepView for Pragma {
    type V = Pragma;

    open spec fn deep_view(&self) -> Pragma {
        *self
    }
}

/// One command in a unit body.
#[derive(Debug, PartialEq, Eq)]
pub enum Command {
    /// Declares the unit's dependencies; hoisted to the unit during lowering.
    DependsOn(Vec<Spanned>),
    /// Informational metadata; hoisted to the unit during lowering.
    Meta(Vec<(Spanned, String)>),
    /// Invoke other units inline, sequentially in source order.
    Do(Vec<Spanned>),
    /// Spawn a subprocess; the first element is the program, the rest arguments.
    Exec(Vec<Spanned>),
    /// Run the child commands concurrently.
    Concurrent(Vec<Command>),
    Fs(FsCommand),
    Io(IoCommand),
    Env(EnvCommand),
}

/// A filesystem mutation.
#[derive(Debug, PartialEq, Eq)]
pub enum FsCommand {
    /// Create an empty file, truncating an existing one.
    Create(Spanned),
    /// Create a directory and all missing parents.
    CreateDir(Spanned),
    /// Remove a file, or a directory recursively.
    Remove(Spanned),
    /// Copy then remove the source.
    Move(Spanned, Spanned),
    /// Fan-out move: each `(source, override)` pair goes to
    /// `head / (override ?? source)`.
    MoveTo(Spanned, Vec<(Spanned, Option<Spanned>)>),
    /// Copy a file, or a directory recursively.
    Copy(Spanned, Spanned),
    /// Fan-out copy with the same destination rule as `MoveTo`.
    CopyTo(Spanned, Vec<(Spanned, Option<Spanned>)>),
    /// Read a file and print its contents to stdout with a trailing newline.
    PrintFile(Spanned),
    /// Read a file and print its contents to stderr with a trailing newline.
    EPrintFile(Spanned),
}

/// A literal print to stdout or stderr.
#[derive(Debug, PartialEq, Eq)]
pub enum IoCommand {
    PrintLn(Spanned),
    Print(Spanned),
    EPrintLn(Spanned),
    EPrint(Spanned),
}

/// A mutation of the scheduler's environment snapshot.
#[derive(Debug, PartialEq, Eq)]
pub enum EnvCommand {
    SetVar(Spanned, Spanned),
    RemoveVar(Spanned),
    PathPush(Spanned),
    PathRemove(Spanned),
}

/// Spec-level model of a `Command`.
pub enum CommandV {
    DependsOn(Seq<SpannedV>),
    Meta(Seq<(SpannedV, Seq<char>)>),
    Do(Seq<SpannedV>),
    Exec(Seq<SpannedV>),
    Concurrent(Seq<CommandV>),
    Fs(FsCommandV),
    Io(IoCommandV),
    Env(EnvCommandV),
}

pub enum FsCommandV {
    Create(SpannedV),
    CreateDir(SpannedV),
    Remove(SpannedV),
    Move(SpannedV, SpannedV),
    MoveTo(SpannedV, Seq<(SpannedV, Option<SpannedV>)>),
    Copy(SpannedV, SpannedV),
    CopyTo(SpannedV, Seq<(SpannedV, Option<SpannedV>)>),
    PrintFile(SpannedV),
    EPrintFile(SpannedV),
}

pub enum IoCommandV {
    PrintLn(SpannedV),
    Print(SpannedV),
    EPrintLn(SpannedV),
    EPrint(SpannedV),
}

pub enum EnvCommandV {
    SetVar(SpannedV, SpannedV),
    RemoveVar(SpannedV),
    PathPush(SpannedV),
    PathRemove(SpannedV),
}

impl DeepView for Command {
    type V = CommandV;

    open spec fn deep_view(&self) -> CommandV {
        cmd_view(*self)
    }
}

pub open spec fn cmd_view(c: Command) -> CommandV
    decreases c,
{
    match c {
        Command::DependsOn(v) => CommandV::DependsOn(v.deep_view()),
        Command::Meta(v) => CommandV::Meta(v.deep_view()),
        Command::Do(v) => CommandV::Do(v.deep_view()),
        Command::Exec(v) => CommandV::Exec(v.deep_view()),
        Command::Concurrent(v) => CommandV::Concurrent(cmds_view(v@)),
        Command::Fs(f) => CommandV::Fs(f.deep_view()),
        Command::Io(f) => CommandV::Io(f.deep_view()),
        Command::Env(f) => CommandV::Env(f.deep_view()),
    }
}

pub open spec fn cmds_view(v: Seq<Command>) -> Seq<CommandV>
    decreases v,
{
    if v.len() == 0 {
        Seq::empty()
    } else {
        cmds_view(v.subrange(0, v.len() - 1)).push(cmd_view(v[v.len() - 1]))
    }
}

impl DeepView for FsCommand {
    type V = FsCommandV;

    open spec fn deep_view(&self) -> FsCommandV {
        match *self {
            FsCommand::Create(ref p) => FsCommandV::Create(p.deep_view()),
            FsCommand::CreateDir(ref p) => FsCommandV::CreateDir(p.deep_view()),
            FsCommand::Remove(ref p) => FsCommandV::Remove(p.deep_view()),
            FsCommand::Move(ref s, ref d) => FsCommandV::Move(s.deep_view(), d.deep_view()),
            FsCommand::MoveTo(ref h, ref m) => FsCommandV::MoveTo(h.deep_view(), m.deep_view()),
            FsCommand::Copy(ref s, ref d) => FsCommandV::Copy(s.deep_view(), d.deep_view()),
            FsCommand::CopyTo(ref h, ref m) => FsCommandV::CopyTo(h.deep_view(), m.deep_view()),
            FsCommand::PrintFile(ref p) => FsCommandV::PrintFile(p.deep_view()),
            FsCommand::EPrintFile(ref p) => FsCommandV::EPrintFile(p.deep_view()),
        }
    }
}

impl DeepView for IoCommand {
    type V = IoCommandV;

    open spec fn deep_view(&self) -> IoCommandV {
        match *self {
            IoCommand::PrintLn(ref s) => IoCommandV::PrintLn(s.deep_view()),
            IoCommand::Print(ref s) => IoCommandV::Print(s.deep_view()),
            IoCommand::EPrintLn(ref s) => IoCommandV::EPrintLn(s.deep_view()),
            IoCommand::EPrint(ref s) => IoCommandV::EPrint(s.deep_view()),
        }
    }
}

impl DeepView for EnvCommand {
    type V = EnvCommandV;

    open spec fn deep_view(&self) -> EnvCommandV {
        match *self {
            EnvCommand::SetVar(ref k, ref v) => EnvCommandV::SetVar(k.deep_view(), v.deep_view()),
            EnvCommand::RemoveVar(ref k) => EnvCommandV::RemoveVar(k.deep_view()),
            EnvCommand::PathPush(ref p) => EnvCommandV::PathPush(p.deep_view()),
            EnvCommand::PathRemove(ref p) => EnvCommandV::PathRemove(p.deep_view()),
        }
    }
}

/// An error found while lowering an AST into a `Module`.
#[derive(Debug, PartialEq, Eq)]
pub enum LowerError {
    /// A second binding for a pragma that is already exposed.
    DuplicateExpose(Pragma, Spanned),
    /// Two units share a name: the first definition, then the second.
    DuplicateUnit(Spanned, Spanned),
    /// A dependency named twice in one unit: first entry, then the repeat.
    DuplicateDependency(Spanned, Spanned),
    /// A meta key given twice in one unit: first entry, then the repeat.
    DuplicateMetaItem(Spanned, Spanned),
    /// A name that refers to no defined unit.
    NameError(Spanned),
}

/// A unit after lowering: dependencies and metadata hoisted out of the
/// command list, with the remaining commands kept in source order.
#[derive(Debug, PartialEq, Eq)]
pub struct Unit {
    /// The declared dependencies, first occurrence of each name only.
    pub depends_on: Vec<Spanned>,
    /// The metadata entries, first occurrence of each key only.
    pub meta: Vec<(Spanned, String)>,
    /// The commands to run, with `DependsOn` and `Meta` stripped.
    pub commands: Vec<Command>,
}

/// Spec-level model of a `Unit`.
pub struct UnitV {
    pub depends_on: Seq<SpannedV>,
    pub meta: Seq<(SpannedV, Seq<char>)>,
    pub commands: Seq<CommandV>,
}

impl DeepView for Unit {
    type V = UnitV;

    open spec fn deep_view(&self) -> UnitV {
        UnitV {
            depends_on: self.depends_on.deep_view(),
            meta: self.meta.deep_view(),
            commands: self.commands.deep_view(),
        }
    }
}

impl Default for Unit {
    /// A unit with no dependencies, metadata or commands.
    fn default() -> (r: Unit)
        ensures
            r.deep_view() == empty_unit(),
    {
        let r = Unit { depends_on: Vec::new(), meta: Vec::new(), commands: Vec::new() };
        proof {
            assert(r.deep_view().depends_on =~= empty_unit().depends_on);
            assert(r.deep_view().meta =~= empty_unit().meta);
            assert(r.deep_view().commands =~= empty_unit().commands);
        }
        r
    }
}

pub open spec fn empty_unit() -> UnitV {
    UnitV { depends_on: Seq::empty(), meta: Seq::empty(), commands: Seq::empty() }
}

/// The whole parse product of a script: its units plus the expose mapping.
#[derive(Debug, PartialEq, Eq)]
pub struct Module {
    /// Which unit each pragma is bound to; at most one entry per pragma.
    pub expose: Vec<(Pragma, Spanned)>,
    /// The units by name; names are unique.
    pub units: Vec<(Spanned, Unit)>,
}

/// Spec-level model of a `Module`.
pub struct ModuleV {
    pub expose: Seq<(Pragma, SpannedV)>,
    pub units: Seq<(SpannedV, UnitV)>,
}

impl DeepView for Module {
    type V = ModuleV;

    open spec fn deep_view(&self) -> ModuleV {
        ModuleV { expose: self.expose.deep_view(), units: self.units.deep_view() }
    }
}

// ---------------------------------------------------------------------------
// Spec functions describing the lowering
// ---------------------------------------------------------------------------

/// The names of a sequence of spanned values.
pub open spec fn names_of(s: Seq<SpannedV>) -> Seq<Seq<char>> {
    s.map_values(|x: SpannedV| x.text)
}

/// The key names of a sequence of metadata entries.
pub open spec fn key_names_of(s: Seq<(SpannedV, Seq<char>)>) -> Seq<Seq<char>> {
    s.map_values(|x: (SpannedV, Seq<char>)| x.0.text)
}

pub open spec fn dep_entries(c: CommandV) -> Seq<SpannedV> {
    match c {
        CommandV::DependsOn(v) => v,
        _ => Seq::empty(),
    }
}

pub open spec fn meta_entries(c: CommandV) -> Seq<(SpannedV, Seq<char>)> {
    match c {
        CommandV::Meta(v) => v,
        _ => Seq::empty(),
    }
}

pub open spec fn do_entries(c: CommandV) -> Seq<SpannedV> {
    match c {
        CommandV::Do(v) => v,
        _ => Seq::empty(),
    }
}

/// Is the command hoisted to the unit during lowering?
pub open spec fn is_hoisted(c: CommandV) -> bool {
    c is DependsOn || c is Meta
}

/// All dependency entries declared by a command list, in source order.
pub open spec fn deps_in(cmds: Seq<CommandV>) -> Seq<SpannedV>
    decreases cmds.len(),
{
    if cmds.len() == 0 {
        Seq::empty()
    } else {
        deps_in(cmds.drop_last()) + dep_entries(cmds.last())
    }
}

/// All metadata entries declared by a command list, in source order.
pub open spec fn metas_in(cmds: Seq<CommandV>) -> Seq<(SpannedV, Seq<char>)>
    decreases cmds.len(),
{
    if cmds.len() == 0 {
        Seq::empty()
    } else {
        metas_in(cmds.drop_last()) + meta_entries(cmds.last())
    }
}

/// All inline-invocation names in a command list, in source order.
pub open spec fn dos_in(cmds: Seq<CommandV>) -> Seq<SpannedV>
    decreases cmds.len(),
{
    if cmds.len() == 0 {
        Seq::empty()
    } else {
        dos_in(cmds.drop_last()) + do_entries(cmds.last())
    }
}

/// The commands that survive lowering, in source order.
pub open spec fn kept_cmds(cmds: Seq<CommandV>) -> Seq<CommandV>
    decreases cmds.len(),
{
    if cmds.len() == 0 {
        Seq::empty()
    } else {
        let p = kept_cmds(cmds.drop_last());
        if is_hoisted(cmds.last()) {
            p
        } else {
            p.push(cmds.last())
        }
    }
}

/// How many entries repeat a name that occurred earlier in the sequence.
pub open spec fn dup_count(names: Seq<Seq<char>>) -> int
    decreases names.len(),
{
    if names.len() == 0 {
        0
    } else {
        dup_count(names.drop_last()) + if names.drop_last().contains(names.last()) {
            1int
        } else {
            0int
        }
    }
}

/// The first occurrence of each name, in order.
pub open spec fn firsts(s: Seq<SpannedV>) -> Seq<SpannedV>
    decreases s.len(),
{
    if s.len() == 0 {
        s
    } else {
        let p = firsts(s.drop_last());
        if names_of(s.drop_last()).contains(s.last().text) {
            p
        } else {
            p.push(s.last())
        }
    }
}

/// The first occurrence of each metadata key, in order.
pub open spec fn meta_firsts(s: Seq<(SpannedV, Seq<char>)>) -> Seq<(SpannedV, Seq<char>)>
    decreases s.len(),
{
    if s.len() == 0 {
        s
    } else {
        let p = meta_firsts(s.drop_last());
        if key_names_of(s.drop_last()).contains(s.last().0.text) {
            p
        } else {
            p.push(s.last())
        }
    }
}

/// How many lowering errors a unit body produces on its own.
pub open spec fn unit_err_count(cmds: Seq<CommandV>) -> int {
    dup_count(names_of(deps_in(cmds))) + dup_count(key_names_of(metas_in(cmds)))
}

/// What a unit body lowers to when it has no errors of its own.
pub open spec fn lowered_unit(cmds: Seq<CommandV>) -> UnitV {
    UnitV {
        depends_on: firsts(deps_in(cmds)),
        meta: meta_firsts(metas_in(cmds)),
        commands: kept_cmds(cmds),
    }
}

/// Deduplication never repeats a name.
pub proof fn lemma_firsts_nodup(s: Seq<SpannedV>)
    ensures
        forall|a: int, b: int|
            0 <= a < b < firsts(s).len() ==> (#[trigger] firsts(s)[a]).text != (
            #[trigger] firsts(s)[b]).text,
    decreases s.len(),
{
    if s.len() > 0 {
        let pre = s.drop_last();
        lemma_firsts_nodup(pre);
        lemma_firsts_contains(pre);
        let f = firsts(s);
        let p = firsts(pre);
        assert forall|a: int, b: int|
            0 <= a < b < f.len() implies (#[trigger] f[a]).text != (#[trigger] f[b]).text by {
            if !names_of(pre).contains(s.last().text) {
                if b == f.len() - 1 {
                    assert(f[a] == p[a]);
                    assert(names_of(p)[a] == p[a].text);
                    assert(names_of(p).contains(p[a].text));
                    assert(names_of(pre).contains(p[a].text));
                    assert(f[b].text == s.last().text);
                } else {
                    assert(f[a] == p[a] && f[b] == p[b]);
                }
            }
        }
    }
}

/// Every lowered unit keeps its dependencies unique.
proof fn lemma_lowered_units_deps_nodup(items: Seq<(SpannedV, Seq<CommandV>)>)
    ensures
        forall|j: int|
            0 <= j < lowered_units(items).len() ==> deps_nodup(
                (#[trigger] lowered_units(items)[j]).1,
            ),
    decreases items.len(),
{
    if items.len() > 0 {
        let pre = items.drop_last();
        lemma_lowered_units_deps_nodup(pre);
        let lus = lowered_units(items);
        let p = lowered_units(pre);
        assert forall|j: int|
            0 <= j < lus.len() implies deps_nodup((#[trigger] lus[j]).1) by {
            if j < p.len() {
                assert(lus[j] == p[j]);
            } else {
                lemma_firsts_nodup(deps_in(items.last().1));
            }
        }
    }
}

// ---------------------------------------------------------------------------
// Lemmas about the dedup functions
// ---------------------------------------------------------------------------

/// Deduplication keeps exactly the names of the original sequence.
pub proof fn lemma_firsts_contains(s: Seq<SpannedV>)
    ensures
        forall|n: Seq<char>| names_of(firsts(s)).contains(n) <==> names_of(s).contains(n),
    decreases s.len(),
{
    if s.len() > 0 {
        lemma_firsts_contains(s.drop_last());
        assert forall|n: Seq<char>|
            names_of(firsts(s)).contains(n) <==> names_of(s).contains(n) by {
            let p = firsts(s.drop_last());
            if names_of(s.drop_last()).contains(s.last().text) {
                assert(firsts(s) == p);
                if names_of(s).contains(n) {
                    let i = choose|i: int| 0 <= i < s.len() && names_of(s)[i] == n;
                    if i < s.len() - 1 {
                        assert(names_of(s.drop_last())[i] == n);
                    } else {
                        assert(n == s.last().text);
                    }
                    assert(names_of(s.drop_last()).contains(n));
                }
                if names_of(s.drop_last()).contains(n) {
                    let i = choose|i: int|
                        0 <= i < s.drop_last().len() && names_of(s.drop_last())[i] == n;
                    assert(names_of(s)[i] == n);
                }
            } else {
                assert(firsts(s) == p.push(s.last()));
                if names_of(s).contains(n) {
                    let i = choose|i: int| 0 <= i < s.len() && names_of(s)[i] == n;
                    if i < s.len() - 1 {
                        assert(names_of(s.drop_last())[i] == n);
                        assert(names_of(s.drop_last()).contains(n));
                        assert(names_of(p).contains(n));
                        let j = choose|j: int| 0 <= j < p.len() && names_of(p)[j] == n;
                        assert(names_of(firsts(s))[j] == n);
                    } else {
                        assert(names_of(firsts(s)).last() == n);
                    }
                }
                if names_of(firsts(s)).contains(n) {
                    let j = choose|j: int|
                        0 <= j < firsts(s).len() && names_of(firsts(s))[j] == n;
                    if j < firsts(s).len() - 1 {
                        assert(names_of(p)[j] == n);
                        assert(names_of(s.drop_last()).contains(n));
                        let i = choose|i: int|
                            0 <= i < s.drop_last().len() && names_of(s.drop_last())[i] == n;
                        assert(names_of(s)[i] == n);
                    } else {
                        assert(names_of(s)[s.len() - 1] == n);
                    }
                }
            }
        }
    }
}

/// Deduplication by key keeps exactly the keys of the original sequence.
pub proof fn lemma_meta_firsts_contains(s: Seq<(SpannedV, Seq<char>)>)
    ensures
        forall|n: Seq<char>| key_names_of(meta_firsts(s)).contains(n) <==> key_names_of(
            s,
        ).contains(n),
    decreases s.len(),
{
    if s.len() > 0 {
        lemma_meta_firsts_contains(s.drop_last());
        assert forall|n: Seq<char>|
            key_names_of(meta_firsts(s)).contains(n) <==> key_names_of(s).contains(n) by {
            let p = meta_firsts(s.drop_last());
            if key_names_of(s.drop_last()).contains(s.last().0.text) {
                assert(meta_firsts(s) == p);
                if key_names_of(s).contains(n) {
                    let i = choose|i: int| 0 <= i < s.len() && key_names_of(s)[i] == n;
                    if i < s.len() - 1 {
                        assert(key_names_of(s.drop_last())[i] == n);
                    } else {
                        assert(n == s.last().0.text);
                    }
                    assert(key_names_of(s.drop_last()).contains(n));
                }
                if key_names_of(s.drop_last()).contains(n) {
                    let i = choose|i: int|
                        0 <= i < s.drop_last().len() && key_names_of(s.drop_last())[i] == n;
                    assert(key_names_of(s)[i] == n);
                }
            } else {
                assert(meta_firsts(s) == p.push(s.last()));
                if key_names_of(s).contains(n) {
                    let i = choose|i: int| 0 <= i < s.len() && key_names_of(s)[i] == n;
                    if i < s.len() - 1 {
                        assert(key_names_of(s.drop_last())[i] == n);
                        assert(key_names_of(s.drop_last()).contains(n));
                        assert(key_names_of(p).contains(n));
                        let j = choose|j: int| 0 <= j < p.len() && key_names_of(p)[j] == n;
                        assert(key_names_of(meta_firsts(s))[j] == n);
                    } else {
                        assert(key_names_of(meta_firsts(s)).last() == n);
                    }
                }
                if key_names_of(meta_firsts(s)).contains(n) {
                    let j = choose|j: int|
                        0 <= j < meta_firsts(s).len() && key_names_of(meta_firsts(s))[j] == n;
                    if j < meta_firsts(s).len() - 1 {
                        assert(key_names_of(p)[j] == n);
                        assert(key_names_of(s.drop_last()).contains(n));
                        let i = choose|i: int|
                            0 <= i < s.drop_last().len() && key_names_of(s.drop_last())[i] == n;
                        assert(key_names_of(s)[i] == n);
                    } else {
                        assert(key_names_of(s)[s.len() - 1] == n);
                    }
                }
            }
        }
    }
}

// ---------------------------------------------------------------------------
// Spec functions describing module lowering
// ---------------------------------------------------------------------------

/// The `unit` items of the AST, in source order.
pub open spec fn unit_items(av: Seq<ASTV>) -> Seq<(SpannedV, Seq<CommandV>)>
    decreases av.len(),
{
    if av.len() == 0 {
        Seq::empty()
    } else {
        let p = unit_items(av.drop_last());
        match av.last() {
            ASTV::Unit(n, cs) => p.push((n, cs)),
            _ => p,
        }
    }
}

/// The `expose` items of the AST, in source order.
pub open spec fn expose_items(av: Seq<ASTV>) -> Seq<(Pragma, SpannedV)>
    decreases av.len(),
{
    if av.len() == 0 {
        Seq::empty()
    } else {
        let p = expose_items(av.drop_last());
        match av.last() {
            ASTV::Expose(prag, n) => p.push((prag, n)),
            _ => p,
        }
    }
}

/// The names of a sequence of unit items.
pub open spec fn item_names(items: Seq<(SpannedV, Seq<CommandV>)>) -> Seq<Seq<char>> {
    items.map_values(|it: (SpannedV, Seq<CommandV>)| it.0.text)
}

/// The names of a sequence of lowered units.
pub open spec fn lus_names(lus: Seq<(SpannedV, UnitV)>) -> Seq<Seq<char>> {
    lus.map_values(|e: (SpannedV, UnitV)| e.0.text)
}

/// The pragmas of an expose list.
pub open spec fn pragmas_of(s: Seq<(Pragma, SpannedV)>) -> Seq<Pragma> {
    s.map_values(|e: (Pragma, SpannedV)| e.0)
}

/// Errors from lowering the unit items: per-unit duplicates plus one
/// `DuplicateUnit` for every repeated unit name.
pub open spec fn phase1_err_count(items: Seq<(SpannedV, Seq<CommandV>)>) -> int
    decreases items.len(),
{
    if items.len() == 0 {
        0
    } else {
        phase1_err_count(items.drop_last()) + unit_err_count(items.last().1) + if item_names(
            items.drop_last(),
        ).contains(items.last().0.text) {
            1int
        } else {
            0int
        }
    }
}

/// Duplicate unit names among the items: the faults that yield
/// `DuplicateUnit`.
pub open spec fn phase1_dup_units(items: Seq<(SpannedV, Seq<CommandV>)>) -> int
    decreases items.len(),
{
    if items.len() == 0 {
        0
    } else {
        phase1_dup_units(items.drop_last()) + (if item_names(items.drop_last()).contains(
            items.last().0.text,
        ) {
            1int
        } else {
            0int
        })
    }
}

/// Duplicated dependencies over all items: the faults that yield
/// `DuplicateDependency`.
pub open spec fn phase1_dd(items: Seq<(SpannedV, Seq<CommandV>)>) -> int
    decreases items.len(),
{
    if items.len() == 0 {
        0
    } else {
        phase1_dd(items.drop_last()) + dup_count(names_of(deps_in(items.last().1)))
    }
}

/// Duplicated metadata keys over all items: the faults that yield
/// `DuplicateMetaItem`.
pub open spec fn phase1_dm(items: Seq<(SpannedV, Seq<CommandV>)>) -> int
    decreases items.len(),
{
    if items.len() == 0 {
        0
    } else {
        phase1_dm(items.drop_last()) + dup_count(key_names_of(metas_in(items.last().1)))
    }
}

/// The unit map after lowering: the first item of each name wins, and an
/// item with errors of its own is kept as an empty placeholder so that
/// name resolution does not cascade.
pub open spec fn lowered_units(items: Seq<(SpannedV, Seq<CommandV>)>) -> Seq<(SpannedV, UnitV)>
    decreases items.len(),
{
    if items.len() == 0 {
        Seq::empty()
    } else {
        let p = lowered_units(items.drop_last());
        if item_names(items.drop_last()).contains(items.last().0.text) {
            p
        } else {
            p.push(
                (
                    items.last().0,
                    if unit_err_count(items.last().1) == 0 {
                        lowered_unit(items.last().1)
                    } else {
                        empty_unit()
                    },
                ),
            )
        }
    }
}

/// The expose map: an item is kept only if its pragma is not yet bound
/// and its target is a defined unit.
pub open spec fn expose_acc(items: Seq<(Pragma, SpannedV)>, unames: Seq<Seq<char>>) -> Seq<
    (Pragma, SpannedV),
>
    decreases items.len(),
{
    if items.len() == 0 {
        Seq::empty()
    } else {
        let p = expose_acc(items.drop_last(), unames);
        if pragmas_of(p).contains(items.last().0) || !unames.contains(items.last().1.text) {
            p
        } else {
            p.push(items.last())
        }
    }
}

/// Errors from the expose items: a repeated pragma and an undefined
/// target each count once, independently.
pub open spec fn expose_err_count(items: Seq<(Pragma, SpannedV)>, unames: Seq<Seq<char>>) -> int
    decreases items.len(),
{
    if items.len() == 0 {
        0
    } else {
        let p = expose_acc(items.drop_last(), unames);
        expose_err_count(items.drop_last(), unames) + (if pragmas_of(p).contains(
            items.last().0,
        ) {
            1int
        } else {
            0int
        }) + (if !unames.contains(items.last().1.text) {
            1int
        } else {
            0int
        })
    }
}

/// Repeated pragma bindings: the faults that yield `DuplicateExpose`.
pub open spec fn expose_dups(items: Seq<(Pragma, SpannedV)>, unames: Seq<Seq<char>>) -> int
    decreases items.len(),
{
    if items.len() == 0 {
        0
    } else {
        expose_dups(items.drop_last(), unames) + (if pragmas_of(
            expose_acc(items.drop_last(), unames),
        ).contains(items.last().0) {
            1int
        } else {
            0int
        })
    }
}

/// Undefined expose targets: the faults that yield a `NameError` in the
/// expose scan.
pub open spec fn expose_missing(items: Seq<(Pragma, SpannedV)>, unames: Seq<Seq<char>>) -> int
    decreases items.len(),
{
    if items.len() == 0 {
        0
    } else {
        expose_missing(items.drop_last(), unames) + (if !unames.contains(items.last().1.text) {
            1int
        } else {
            0int
        })
    }
}

/// How many entries do not name a defined unit.
pub open spec fn unresolved_count(s: Seq<SpannedV>, unames: Seq<Seq<char>>) -> int
    decreases s.len(),
{
    if s.len() == 0 {
        0
    } else {
        unresolved_count(s.drop_last(), unames) + if unames.contains(s.last().text) {
            0int
        } else {
            1int
        }
    }
}

/// Name errors of one lowered unit: unresolved dependencies, then
/// unresolved `do(...)` targets in command order.
pub open spec fn unit_name_errs(u: UnitV, unames: Seq<Seq<char>>) -> int {
    unresolved_count(u.depends_on, unames) + unresolved_count(dos_in(u.commands), unames)
}

/// Name errors over all lowered units.
pub open spec fn phase3_err_count(lus: Seq<(SpannedV, UnitV)>, unames: Seq<Seq<char>>) -> int
    decreases lus.len(),
{
    if lus.len() == 0 {
        0
    } else {
        phase3_err_count(lus.drop_last(), unames) + unit_name_errs(lus.last().1, unames)
    }
}

/// Every error that lowering the whole AST reports.
pub open spec fn lower_err_count(av: Seq<ASTV>) -> int {
    let items = unit_items(av);
    let unames = item_names(items);
    phase1_err_count(items) + expose_err_count(expose_items(av), unames) + phase3_err_count(
        lowered_units(items),
        unames,
    )
}

/// What a whole AST lowers to when it has no errors.
pub open spec fn lowered_module(av: Seq<ASTV>) -> ModuleV {
    ModuleV {
        expose: expose_acc(expose_items(av), item_names(unit_items(av))),
        units: lowered_units(unit_items(av)),
    }
}

/// The names of a module's units.
pub open spec fn mod_names(mv: ModuleV) -> Seq<Seq<char>> {
    lus_names(mv.units)
}

/// A unit whose dependencies and `do(...)` targets all resolve.
pub open spec fn unit_resolved(u: UnitV, unames: Seq<Seq<char>>) -> bool {
    &&& forall|k: int|
        0 <= k < u.depends_on.len() ==> unames.contains(#[trigger] u.depends_on[k].text)
    &&& forall|k: int|
        0 <= k < dos_in(u.commands).len() ==> unames.contains(#[trigger] dos_in(u.commands)[k].text)
}

/// The structural invariants of a lowered module: unit names unique,
/// at most one binding per pragma, every expose target defined, and
/// every dependency and inline invocation resolving to a defined unit.
pub open spec fn module_wf(mv: ModuleV) -> bool {
    &&& forall|i: int, j: int|
        0 <= i < j < mv.units.len() ==> (#[trigger] mv.units[i]).0.text != (
        #[trigger] mv.units[j]).0.text
    &&& forall|i: int, j: int|
        0 <= i < j < mv.expose.len() ==> (#[trigger] mv.expose[i]).0 != (
        #[trigger] mv.expose[j]).0
    &&& forall|i: int|
        0 <= i < mv.expose.len() ==> mod_names(mv).contains((#[trigger] mv.expose[i]).1.text)
    &&& forall|i: int|
        0 <= i < mv.units.len() ==> unit_resolved((#[trigger] mv.units[i]).1, mod_names(mv))
    &&& forall|i: int|
        0 <= i < mv.units.len() ==> deps_nodup((#[trigger] mv.units[i]).1)
}

/// A unit's dependency list never repeats a name.
pub open spec fn deps_nodup(u: UnitV) -> bool {
    forall|a: int, b: int|
        0 <= a < b < u.depends_on.len() ==> (#[trigger] u.depends_on[a]).text != (
        #[trigger] u.depends_on[b]).text
}

// ---------------------------------------------------------------------------
// Lemmas about module lowering
// ---------------------------------------------------------------------------

/// The lowered unit map holds exactly the names of the unit items.
pub proof fn lemma_lowered_units_names(items: Seq<(SpannedV, Seq<CommandV>)>)
    ensures
        forall|n: Seq<char>| lus_names(lowered_units(items)).contains(n) <==> item_names(
            items,
        ).contains(n),
    decreases items.len(),
{
    if items.len() > 0 {
        lemma_lowered_units_names(items.drop_last());
        assert forall|n: Seq<char>|
            lus_names(lowered_units(items)).contains(n) <==> item_names(items).contains(n) by {
            let pre = items.drop_last();
            let p = lowered_units(pre);
            if item_names(pre).contains(items.last().0.text) {
                assert(lowered_units(items) == p);
                if item_names(items).contains(n) {
                    let i = choose|i: int| 0 <= i < items.len() && item_names(items)[i] == n;
                    if i < items.len() - 1 {
                        assert(item_names(pre)[i] == n);
                        assert(item_names(pre).contains(n));
                    } else {
                        assert(n == items.last().0.text);
                    }
                }
                if item_names(pre).contains(n) {
                    let i = choose|i: int|
                        0 <= i < pre.len() && item_names(pre)[i] == n;
                    assert(item_names(items)[i] == n);
                }
            } else {
                assert(lowered_units(items).drop_last() == p);
                if item_names(items).contains(n) {
                    let i = choose|i: int| 0 <= i < items.len() && item_names(items)[i] == n;
                    if i < items.len() - 1 {
                        assert(item_names(pre)[i] == n);
                        assert(item_names(pre).contains(n));
                        assert(lus_names(p).contains(n));
                        let j = choose|j: int| 0 <= j < p.len() && lus_names(p)[j] == n;
                        assert(lus_names(lowered_units(items))[j] == n);
                    } else {
                        assert(lus_names(lowered_units(items)).last() == n);
                    }
                }
                if lus_names(lowered_units(items)).contains(n) {
                    let j = choose|j: int|
                        0 <= j < lowered_units(items).len() && lus_names(lowered_units(items))[j]
                            == n;
                    if j < lowered_units(items).len() - 1 {
                        assert(lus_names(p)[j] == n);
                        assert(lus_names(p).contains(n));
                        assert(item_names(pre).contains(n));
                        let i = choose|i: int|
                            0 <= i < pre.len() && item_names(pre)[i] == n;
                        assert(item_names(items)[i] == n);
                    } else {
                        assert(n == items.last().0.text);
                        assert(item_names(items)[items.len() - 1] == n);
                    }
                }
            }
        }
    }
}

/// The lowered unit map never repeats a name.
pub proof fn lemma_lowered_units_nodup(items: Seq<(SpannedV, Seq<CommandV>)>)
    ensures
        forall|i: int, j: int|
            0 <= i < j < lowered_units(items).len() ==> (#[trigger] lowered_units(items)[i]).0.text
                != (#[trigger] lowered_units(items)[j]).0.text,
    decreases items.len(),
{
    if items.len() > 0 {
        let pre = items.drop_last();
        lemma_lowered_units_nodup(pre);
        lemma_lowered_units_names(pre);
        let lus = lowered_units(items);
        let p = lowered_units(pre);
        assert forall|i: int, j: int|
            0 <= i < j < lus.len() implies (#[trigger] lus[i]).0.text != (
        #[trigger] lus[j]).0.text by {
            if !item_names(pre).contains(items.last().0.text) {
                if j == lus.len() - 1 {
                    assert(lus[i] == p[i]);
                    assert(lus_names(p)[i] == p[i].0.text);
                    assert(lus_names(p).contains(p[i].0.text));
                    assert(item_names(pre).contains(p[i].0.text));
                    assert(lus[j].0.text == items.last().0.text);
                } else {
                    assert(lus[i] == p[i] && lus[j] == p[j]);
                }
            }
        }
    }
}

/// The expose map never repeats a pragma, and every kept target resolves.
pub proof fn lemma_expose_acc_wf(items: Seq<(Pragma, SpannedV)>, unames: Seq<Seq<char>>)
    ensures
        forall|i: int, j: int|
            0 <= i < j < expose_acc(items, unames).len() ==> (#[trigger] expose_acc(
                items,
                unames,
            )[i]).0 != (#[trigger] expose_acc(items, unames)[j]).0,
        forall|i: int|
            0 <= i < expose_acc(items, unames).len() ==> unames.contains(
                (#[trigger] expose_acc(items, unames)[i]).1.text,
            ),
    decreases items.len(),
{
    if items.len() > 0 {
        let pre = items.drop_last();
        lemma_expose_acc_wf(pre, unames);
        let acc = expose_acc(items, unames);
        let p = expose_acc(pre, unames);
        assert forall|i: int, j: int|
            0 <= i < j < acc.len() implies (#[trigger] acc[i]).0 != (#[trigger] acc[j]).0 by {
            if acc.len() > p.len() {
                if j == acc.len() - 1 {
                    assert(acc[i] == p[i]);
                    assert(pragmas_of(p)[i] == p[i].0);
                    assert(pragmas_of(p).contains(p[i].0));
                    assert(!pragmas_of(p).contains(items.last().0));
                } else {
                    assert(acc[i] == p[i] && acc[j] == p[j]);
                }
            }
        }
    }
}

/// A zero unresolved-count means every entry resolves.
pub proof fn lemma_unresolved_zero(s: Seq<SpannedV>, unames: Seq<Seq<char>>)
    requires
        unresolved_count(s, unames) == 0,
    ensures
        forall|k: int| 0 <= k < s.len() ==> unames.contains(#[trigger] s[k].text),
    decreases s.len(),
{
    if s.len() > 0 {
        lemma_unresolved_nonneg(s.drop_last(), unames);
        lemma_unresolved_zero(s.drop_last(), unames);
        assert forall|k: int| 0 <= k < s.len() implies unames.contains(#[trigger] s[k].text) by {
            if k < s.len() - 1 {
                assert(s.drop_last()[k] == s[k]);
            }
        }
    }
}

pub proof fn lemma_unresolved_nonneg(s: Seq<SpannedV>, unames: Seq<Seq<char>>)
    ensures
        unresolved_count(s, unames) >= 0,
    decreases s.len(),
{
    if s.len() > 0 {
        lemma_unresolved_nonneg(s.drop_last(), unames);
    }
}

pub proof fn lemma_phase3_nonneg(lus: Seq<(SpannedV, UnitV)>, unames: Seq<Seq<char>>)
    ensures
        phase3_err_count(lus, unames) >= 0,
    decreases lus.len(),
{
    if lus.len() > 0 {
        lemma_phase3_nonneg(lus.drop_last(), unames);
        lemma_unresolved_nonneg(lus.last().1.depends_on, unames);
        lemma_unresolved_nonneg(dos_in(lus.last().1.commands), unames);
    }
}

/// A zero phase-3 count means every unit resolves completely.
pub proof fn lemma_phase3_zero(lus: Seq<(SpannedV, UnitV)>, unames: Seq<Seq<char>>)
    requires
        phase3_err_count(lus, unames) == 0,
    ensures
        forall|i: int| 0 <= i < lus.len() ==> unit_resolved((#[trigger] lus[i]).1, unames),
    decreases lus.len(),
{
    if lus.len() > 0 {
        let pre = lus.drop_last();
        lemma_phase3_nonneg(pre, unames);
        lemma_unresolved_nonneg(lus.last().1.depends_on, unames);
        lemma_unresolved_nonneg(dos_in(lus.last().1.commands), unames);
        lemma_phase3_zero(pre, unames);
        lemma_unresolved_zero(lus.last().1.depends_on, unames);
        lemma_unresolved_zero(dos_in(lus.last().1.commands), unames);
        assert forall|i: int|
            0 <= i < lus.len() implies unit_resolved((#[trigger] lus[i]).1, unames) by {
            if i < lus.len() - 1 {
                assert(pre[i] == lus[i]);
            }
        }
    }
}

pub proof fn lemma_phase1_nonneg(items: Seq<(SpannedV, Seq<CommandV>)>)
    ensures
        phase1_err_count(items) >= 0,
    decreases items.len(),
{
    if items.len() > 0 {
        lemma_phase1_nonneg(items.drop_last());
        lemma_dup_count_nonneg(names_of(deps_in(items.last().1)));
        lemma_dup_count_nonneg(key_names_of(metas_in(items.last().1)));
    }
}

pub proof fn lemma_expose_err_nonneg(items: Seq<(Pragma, SpannedV)>, unames: Seq<Seq<char>>)
    ensures
        expose_err_count(items, unames) >= 0,
    decreases items.len(),
{
    if items.len() > 0 {
        lemma_expose_err_nonneg(items.drop_last(), unames);
    }
}

// ---------------------------------------------------------------------------
// Small executable helpers
// ---------------------------------------------------------------------------

/// The index of the first entry with the given name, if any.
pub(crate) fn find_name(v: &Vec<Spanned>, name: &String) -> (r: Option<usize>)
    ensures
        match r {
            Some(k) => k < v@.len() && v.deep_view()[k as int].text == name@,
            None => !names_of(v.deep_view()).contains(name@),
        },
{
    let mut k: usize = 0;
    while k < v.len()
        invariant
            k <= v@.len(),
            forall|j: int| 0 <= j < k ==> v.deep_view()[j].text != name@,
        decreases v@.len() - k,
    {
        if v[k].text == *name {
            return Some(k);
        }
        k += 1;
    }
    proof {
        if names_of(v.deep_view()).contains(name@) {
            let j = choose|j: int|
                0 <= j < v.deep_view().len() && names_of(v.deep_view())[j] == name@;
            assert(v.deep_view()[j].text == name@);
        }
    }
    None
}

/// The index of the first metadata entry with the given key, if any.
fn find_key(v: &Vec<(Spanned, String)>, name: &String) -> (r: Option<usize>)
    ensures
        match r {
            Some(k) => k < v@.len() && v.deep_view()[k as int].0.text == name@,
            None => !key_names_of(v.deep_view()).contains(name@),
        },
{
    let mut k: usize = 0;
    while k < v.len()
        invariant
            k <= v@.len(),
            forall|j: int| 0 <= j < k ==> v.deep_view()[j].0.text != name@,
        decreases v@.len() - k,
    {
        if v[k].0.text == *name {
            return Some(k);
        }
        k += 1;
    }
    proof {
        if key_names_of(v.deep_view()).contains(name@) {
            let j = choose|j: int|
                0 <= j < v.deep_view().len() && key_names_of(v.deep_view())[j] == name@;
            assert(v.deep_view()[j].0.text == name@);
        }
    }
    None
}

/// A copy of a vector of spanned values.
pub(crate) fn dup_spanned_vec(v: &Vec<Spanned>) -> (r: Vec<Spanned>)
    ensures
        r.deep_view() == v.deep_view(),
{
    let mut r: Vec<Spanned> = Vec::new();
    let mut k: usize = 0;
    while k < v.len()
        invariant
            k <= v@.len(),
            r@.len() == k,
            forall|j: int| 0 <= j < k ==> r.deep_view()[j] == v.deep_view()[j],
        decreases v@.len() - k,
    {
        r.push(v[k].duplicate());
        k += 1;
    }
    assert(r.deep_view() =~= v.deep_view());
    r
}

/// A copy of a vector of metadata entries.
fn dup_meta_vec(v: &Vec<(Spanned, String)>) -> (r: Vec<(Spanned, String)>)
    ensures
        r.deep_view() == v.deep_view(),
{
    let mut r: Vec<(Spanned, String)> = Vec::new();
    let mut k: usize = 0;
    while k < v.len()
        invariant
            k <= v@.len(),
            r@.len() == k,
            forall|j: int| 0 <= j < k ==> r.deep_view()[j] == v.deep_view()[j],
        decreases v@.len() - k,
    {
        r.push((v[k].0.duplicate(), v[k].1.clone()));
        k += 1;
    }
    assert(r.deep_view() =~= v.deep_view());
    r
}

/// A copy of a fan-out map of `(source, optional destination)` pairs.
fn dup_fanout_vec(v: &Vec<(Spanned, Option<Spanned>)>) -> (r: Vec<(Spanned, Option<Spanned>)>)
    ensures
        r.deep_view() == v.deep_view(),
{
    let mut r: Vec<(Spanned, Option<Spanned>)> = Vec::new();
    let mut k: usize = 0;
    while k < v.len()
        invariant
            k <= v@.len(),
            r@.len() == k,
            forall|j: int| 0 <= j < k ==> r.deep_view()[j] == v.deep_view()[j],
        decreases v@.len() - k,
    {
        let dst = match &v[k].1 {
            Option::Some(d) => Option::Some(d.duplicate()),
            Option::None => Option::None,
        };
        r.push((v[k].0.duplicate(), dst));
        k += 1;
    }
    assert(r.deep_view() =~= v.deep_view());
    r
}

/// A copy of a command, equal at the level of the spec model.
#[verifier::loop_isolation(false)]
pub(crate) fn dup_command(c: &Command) -> (r: Command)
    ensures
        r.deep_view() == c.deep_view(),
    decreases *c,
{
    match c {
        Command::DependsOn(v) => Command::DependsOn(dup_spanned_vec(v)),
        Command::Meta(v) => Command::Meta(dup_meta_vec(v)),
        Command::Do(v) => Command::Do(dup_spanned_vec(v)),
        Command::Exec(v) => Command::Exec(dup_spanned_vec(v)),
        Command::Concurrent(v) => {
            let mut r: Vec<Command> = Vec::new();
            let mut k: usize = 0;
            while k < v.len()
                invariant
                    k <= v@.len(),
                    r@.len() == k,
                    forall|j: int| 0 <= j < k ==> #[trigger] cmd_view(r@[j]) == cmd_view(v@[j]),
                decreases v@.len() - k,
            {
                proof {
                    assert(decreases_to!(*c => c->Concurrent_0));
                    assert(decreases_to!(c->Concurrent_0 => c->Concurrent_0@));
                    assert(decreases_to!(c->Concurrent_0@ => c->Concurrent_0@[k as int]));
                    assert(decreases_to!(*c => v[k as int]));
                }
                let d = dup_command(&v[k]);
                r.push(d);
                k += 1;
            }
            proof {
                lemma_cmds_view_pointwise(r@, v@);
            }
            Command::Concurrent(r)
        },
        Command::Fs(f) => Command::Fs(dup_fs(f)),
        Command::Io(f) => Command::Io(dup_io(f)),
        Command::Env(f) => Command::Env(dup_env(f)),
    }
}

/// Two command lists with pointwise equal views have equal views.
proof fn lemma_cmds_view_pointwise(a: Seq<Command>, b: Seq<Command>)
    requires
        a.len() == b.len(),
        forall|j: int| 0 <= j < a.len() ==> #[trigger] cmd_view(a[j]) == cmd_view(b[j]),
    ensures
        cmds_view(a) == cmds_view(b),
    decreases a.len(),
{
    if a.len() > 0 {
        let a1 = a.subrange(0, a.len() - 1);
        let b1 = b.subrange(0, b.len() - 1);
        assert forall|j: int| 0 <= j < a1.len() implies #[trigger] cmd_view(a1[j]) == cmd_view(
            b1[j],
        ) by {
            assert(a1[j] == a[j]);
            assert(b1[j] == b[j]);
            assert(cmd_view(a[j]) == cmd_view(b[j]));
        }
        lemma_cmds_view_pointwise(a1, b1);
        assert(cmd_view(a[a.len() - 1]) == cmd_view(b[b.len() - 1]));
    }
}

fn dup_fs(f: &FsCommand) -> (r: FsCommand)
    ensures
        r.deep_view() == f.deep_view(),
{
    match f {
        FsCommand::Create(p) => FsCommand::Create(p.duplicate()),
        FsCommand::CreateDir(p) => FsCommand::CreateDir(p.duplicate()),
        FsCommand::Remove(p) => FsCommand::Remove(p.duplicate()),
        FsCommand::Move(s, d) => FsCommand::Move(s.duplicate(), d.duplicate()),
        FsCommand::MoveTo(h, m) => FsCommand::MoveTo(h.duplicate(), dup_fanout_vec(m)),
        FsCommand::Copy(s, d) => FsCommand::Copy(s.duplicate(), d.duplicate()),
        FsCommand::CopyTo(h, m) => FsCommand::CopyTo(h.duplicate(), dup_fanout_vec(m)),
        FsCommand::PrintFile(p) => FsCommand::PrintFile(p.duplicate()),
        FsCommand::EPrintFile(p) => FsCommand::EPrintFile(p.duplicate()),
    }
}

fn dup_io(f: &IoCommand) -> (r: IoCommand)
    ensures
        r.deep_view() == f.deep_view(),
{
    match f {
        IoCommand::PrintLn(s) => IoCommand::PrintLn(s.duplicate()),
        IoCommand::Print(s) => IoCommand::Print(s.duplicate()),
        IoCommand::EPrintLn(s) => IoCommand::EPrintLn(s.duplicate()),
        IoCommand::EPrint(s) => IoCommand::EPrint(s.duplicate()),
    }
}

/// `dup_count` never goes negative.
/// How many of the errors report a duplicated dependency.
pub open spec fn dd_count(es: Seq<LowerError>) -> int
    decreases es.len(),
{
    if es.len() == 0 {
        0
    } else {
        dd_count(es.drop_last()) + (if es.last() is DuplicateDependency {
            1int
        } else {
            0int
        })
    }
}

/// How many of the errors report a duplicated metadata key.
pub open spec fn dm_count(es: Seq<LowerError>) -> int
    decreases es.len(),
{
    if es.len() == 0 {
        0
    } else {
        dm_count(es.drop_last()) + (if es.last() is DuplicateMetaItem {
            1int
        } else {
            0int
        })
    }
}

/// The two spans of a duplicate report name the same entry.
pub open spec fn dup_pair_named(e: LowerError) -> bool {
    &&& (e matches LowerError::DuplicateDependency(f, s) ==> f@.text == s@.text)
    &&& (e matches LowerError::DuplicateMetaItem(f, s) ==> f@.text == s@.text)
    &&& (e matches LowerError::DuplicateUnit(f, s) ==> f@.text == s@.text)
}

/// How many of the errors report a duplicated unit name.
pub open spec fn du_count(es: Seq<LowerError>) -> int
    decreases es.len(),
{
    if es.len() == 0 {
        0
    } else {
        du_count(es.drop_last()) + (if es.last() is DuplicateUnit {
            1int
        } else {
            0int
        })
    }
}

/// How many of the errors report a pragma bound twice.
pub open spec fn de_count(es: Seq<LowerError>) -> int
    decreases es.len(),
{
    if es.len() == 0 {
        0
    } else {
        de_count(es.drop_last()) + (if es.last() is DuplicateExpose {
            1int
        } else {
            0int
        })
    }
}

/// How many of the errors report a name that resolves to no unit.
pub open spec fn ne_count(es: Seq<LowerError>) -> int
    decreases es.len(),
{
    if es.len() == 0 {
        0
    } else {
        ne_count(es.drop_last()) + (if es.last() is NameError {
            1int
        } else {
            0int
        })
    }
}

proof fn lemma_counts_push(es: Seq<LowerError>, e: LowerError)
    ensures
        dd_count(es.push(e)) == dd_count(es) + (if e is DuplicateDependency {
            1int
        } else {
            0int
        }),
        dm_count(es.push(e)) == dm_count(es) + (if e is DuplicateMetaItem {
            1int
        } else {
            0int
        }),
        du_count(es.push(e)) == du_count(es) + (if e is DuplicateUnit {
            1int
        } else {
            0int
        }),
        de_count(es.push(e)) == de_count(es) + (if e is DuplicateExpose {
            1int
        } else {
            0int
        }),
        ne_count(es.push(e)) == ne_count(es) + (if e is NameError {
            1int
        } else {
            0int
        }),
{
    assert(es.push(e).drop_last() =~= es);
}

proof fn lemma_counts_concat(a: Seq<LowerError>, b: Seq<LowerError>)
    ensures
        dd_count(a + b) == dd_count(a) + dd_count(b),
        dm_count(a + b) == dm_count(a) + dm_count(b),
        du_count(a + b) == du_count(a) + du_count(b),
        de_count(a + b) == de_count(a) + de_count(b),
        ne_count(a + b) == ne_count(a) + ne_count(b),
    decreases b.len(),
{
    if b.len() == 0 {
        assert(a + b =~= a);
    } else {
        lemma_counts_concat(a, b.drop_last());
        assert((a + b).drop_last() =~= a + b.drop_last());
    }
}

/// A list whose entries all report duplicates within one unit holds no
/// other kind of error.
proof fn lemma_counts_only_dup(es: Seq<LowerError>)
    requires
        forall|k: int|
            0 <= k < es.len() ==> (#[trigger] es[k]) is DuplicateDependency || es[k]
                is DuplicateMetaItem,
    ensures
        du_count(es) == 0,
        de_count(es) == 0,
        ne_count(es) == 0,
    decreases es.len(),
{
    if es.len() > 0 {
        assert(es[es.len() - 1] is DuplicateDependency || es[es.len() - 1] is DuplicateMetaItem);
        lemma_counts_only_dup(es.drop_last());
    }
}

/// The name really stands in the source: as an `expose` target, or in a
/// lowered unit's dependency or `do(...)` lists.
pub open spec fn lower_mentions(av: Seq<ASTV>, x: Seq<char>) -> bool {
    ||| exists|j: int|
        0 <= j < expose_items(av).len() && (#[trigger] expose_items(av)[j]).1.text == x
    ||| exists|j: int|
        0 <= j < lowered_units(unit_items(av)).len() && names_of(
            (#[trigger] lowered_units(unit_items(av))[j]).1.depends_on,
        ).contains(x)
    ||| exists|j: int|
        0 <= j < lowered_units(unit_items(av)).len() && names_of(
            dos_in((#[trigger] lowered_units(unit_items(av))[j]).1.commands),
        ).contains(x)
}

/// A `do(...)` entry seen among the first commands is in them all.
proof fn lemma_dos_in_take_contains(cmds: Seq<CommandV>, c: int, x: SpannedV)
    requires
        0 <= c <= cmds.len(),
        dos_in(cmds.take(c)).contains(x),
    ensures
        dos_in(cmds).contains(x),
    decreases cmds.len() - c,
{
    if c < cmds.len() {
        let pre = dos_in(cmds.take(c));
        let cur = dos_in(cmds.take(c + 1));
        assert(cmds.take(c + 1).drop_last() =~= cmds.take(c));
        assert(cmds.take(c + 1).last() == cmds[c]);
        let j = choose|j: int| 0 <= j < pre.len() && pre[j] == x;
        assert(cur[j] == pre[j]);
        assert(cur.contains(x));
        lemma_dos_in_take_contains(cmds, c + 1, x);
    } else {
        assert(cmds.take(c) =~= cmds);
    }
}

/// Every dependency entry of a command-list prefix is an entry of the
/// whole list.
proof fn lemma_deps_in_take_subset(cmds: Seq<CommandV>, c: int)
    requires
        0 <= c <= cmds.len(),
    ensures
        forall|x: SpannedV|
            #[trigger] deps_in(cmds.take(c)).contains(x) ==> deps_in(cmds).contains(x),
    decreases cmds.len() - c,
{
    if c < cmds.len() {
        lemma_deps_in_take_subset(cmds, c + 1);
        assert(cmds.take(c + 1).drop_last() =~= cmds.take(c));
        assert(cmds.take(c + 1).last() == cmds[c]);
        assert forall|x: SpannedV|
            #[trigger] deps_in(cmds.take(c)).contains(x) implies deps_in(
            cmds.take(c + 1),
        ).contains(x) by {
            let j = choose|j: int|
                0 <= j < deps_in(cmds.take(c)).len() && deps_in(cmds.take(c))[j] == x;
            assert(deps_in(cmds.take(c + 1))[j] == x);
        }
    } else {
        assert(cmds.take(c) =~= cmds);
    }
}

/// Every metadata entry of a command-list prefix is an entry of the
/// whole list.
proof fn lemma_metas_in_take_subset(cmds: Seq<CommandV>, c: int)
    requires
        0 <= c <= cmds.len(),
    ensures
        forall|x: (SpannedV, Seq<char>)|
            #[trigger] metas_in(cmds.take(c)).contains(x) ==> metas_in(cmds).contains(x),
    decreases cmds.len() - c,
{
    if c < cmds.len() {
        lemma_metas_in_take_subset(cmds, c + 1);
        assert(cmds.take(c + 1).drop_last() =~= cmds.take(c));
        assert(cmds.take(c + 1).last() == cmds[c]);
        assert forall|x: (SpannedV, Seq<char>)|
            #[trigger] metas_in(cmds.take(c)).contains(x) implies metas_in(
            cmds.take(c + 1),
        ).contains(x) by {
            let j = choose|j: int|
                0 <= j < metas_in(cmds.take(c)).len() && metas_in(cmds.take(c))[j] == x;
            assert(metas_in(cmds.take(c + 1))[j] == x);
        }
    } else {
        assert(cmds.take(c) =~= cmds);
    }
}

/// A unit item among the first `i` AST items is in the whole AST.
proof fn lemma_unit_item_mono(av: Seq<ASTV>, i: int, x: (SpannedV, Seq<CommandV>))
    requires
        0 <= i <= av.len(),
        unit_items(av.take(i)).contains(x),
    ensures
        unit_items(av).contains(x),
    decreases av.len() - i,
{
    if i < av.len() {
        let pre = unit_items(av.take(i));
        let cur = unit_items(av.take(i + 1));
        assert(av.take(i + 1).drop_last() =~= av.take(i));
        assert(av.take(i + 1).last() == av[i]);
        let j = choose|j: int| 0 <= j < pre.len() && pre[j] == x;
        assert(cur[j] == pre[j]);
        assert(cur.contains(x));
        lemma_unit_item_mono(av, i + 1, x);
    } else {
        assert(av.take(i) =~= av);
    }
}

/// The payload of every reported error is honest with respect to the
/// source AST: a `NameError` carries a name that no unit defines but
/// that the source really mentions, a `DuplicateUnit` repeats a name
/// that a `unit` item declares, and a `DuplicateExpose` re-binds a
/// pragma through an `expose` item the source really contains.
pub open spec fn lower_payloads_ok(es: Seq<LowerError>, av: Seq<ASTV>) -> bool {
    forall|k: int|
        0 <= k < es.len() ==> {
            &&& ((#[trigger] es[k]) matches LowerError::NameError(n) ==> !item_names(
                unit_items(av),
            ).contains(n@.text) && lower_mentions(av, n@.text))
            &&& (es[k] matches LowerError::DuplicateUnit(f, s2) ==> item_names(
                unit_items(av),
            ).contains(s2@.text))
            &&& (es[k] matches LowerError::DuplicateExpose(p, n) ==> expose_items(av).contains(
                (p, n@),
            ))
            &&& (es[k] matches LowerError::DuplicateDependency(f, s2) ==> exists|w: int|
                0 <= w < unit_items(av).len() && deps_in(
                    (#[trigger] unit_items(av)[w]).1,
                ).contains(s2@))
            &&& (es[k] matches LowerError::DuplicateMetaItem(f, s2) ==> exists|w: int, m: int|
                0 <= w < unit_items(av).len() && 0 <= m < metas_in(unit_items(av)[w].1).len()
                    && (#[trigger] metas_in(unit_items(av)[w].1)[m]).0 == s2@)
        }
}

/// A unit name declared among the first `i` items is declared in the
/// whole AST.
proof fn lemma_unit_name_mono(av: Seq<ASTV>, i: int, x: Seq<char>)
    requires
        0 <= i <= av.len(),
        item_names(unit_items(av.take(i))).contains(x),
    ensures
        item_names(unit_items(av)).contains(x),
    decreases av.len() - i,
{
    if i < av.len() {
        let pre = unit_items(av.take(i));
        let cur = unit_items(av.take(i + 1));
        assert(av.take(i + 1).drop_last() =~= av.take(i));
        assert(av.take(i + 1).last() == av[i]);
        let j = choose|j: int| 0 <= j < item_names(pre).len() && item_names(pre)[j] == x;
        assert(pre[j].0.text == x);
        assert(cur[j] == pre[j]);
        assert(item_names(cur)[j] == x);
        assert(item_names(cur).contains(x));
        lemma_unit_name_mono(av, i + 1, x);
    } else {
        assert(av.take(i) =~= av);
    }
}

/// An `expose` item among the first `i` items is in the whole AST.
proof fn lemma_expose_item_mono(av: Seq<ASTV>, i: int, x: (Pragma, SpannedV))
    requires
        0 <= i <= av.len(),
        expose_items(av.take(i)).contains(x),
    ensures
        expose_items(av).contains(x),
    decreases av.len() - i,
{
    if i < av.len() {
        let pre = expose_items(av.take(i));
        let cur = expose_items(av.take(i + 1));
        assert(av.take(i + 1).drop_last() =~= av.take(i));
        assert(av.take(i + 1).last() == av[i]);
        let j = choose|j: int| 0 <= j < pre.len() && pre[j] == x;
        assert(cur[j] == pre[j]);
        assert(cur.contains(x));
        lemma_expose_item_mono(av, i + 1, x);
    } else {
        assert(av.take(i) =~= av);
    }
}

pub proof fn lemma_dup_count_nonneg(names: Seq<Seq<char>>)
    ensures
        dup_count(names) >= 0,
    decreases names.len(),
{
    if names.len() > 0 {
        lemma_dup_count_nonneg(names.drop_last());
    }
}

proof fn lemma_names_push(s: Seq<SpannedV>, x: SpannedV)
    ensures
        names_of(s.push(x)) == names_of(s).push(x.text),
{
    assert(names_of(s.push(x)) =~= names_of(s).push(x.text));
}

proof fn lemma_keys_push(s: Seq<(SpannedV, Seq<char>)>, x: (SpannedV, Seq<char>))
    ensures
        key_names_of(s.push(x)) == key_names_of(s).push(x.0.text),
{
    assert(key_names_of(s.push(x)) =~= key_names_of(s).push(x.0.text));
}

/// Fold one `depends_on(...)` list into the accumulated dependency set,
/// reporting one `DuplicateDependency` per repeated name.
#[verifier::loop_isolation(false)]
fn hoist_dep_list(
    depends_on: &mut Vec<Spanned>,
    errors: &mut Vec<LowerError>,
    list: &Vec<Spanned>,
    d0: Ghost<Seq<SpannedV>>,
    extra: Ghost<int>,
)
    requires
        old(depends_on).deep_view() == firsts(d0@),
        old(errors)@.len() == dup_count(names_of(d0@)) + extra@,
        dd_count(old(errors)@) == dup_count(names_of(d0@)),
        forall|k: int|
            0 <= k < old(errors)@.len() ==> (#[trigger] old(errors)@[k]) is DuplicateDependency
                || old(errors)@[k] is DuplicateMetaItem,
        forall|k: int| 0 <= k < old(errors)@.len() ==> dup_pair_named(#[trigger] old(errors)@[k]),
    ensures
        final(depends_on).deep_view() == firsts(d0@ + list.deep_view()),
        final(errors)@.len() == dup_count(names_of(d0@ + list.deep_view())) + extra@,
        dd_count(final(errors)@) == dup_count(names_of(d0@ + list.deep_view())),
        dm_count(final(errors)@) == dm_count(old(errors)@),
        forall|k: int|
            0 <= k < final(errors)@.len() ==> (#[trigger] final(errors)@[k]) is DuplicateDependency
                || final(errors)@[k] is DuplicateMetaItem,
        forall|k: int| 0 <= k < final(errors)@.len() ==> dup_pair_named(#[trigger] final(errors)@[k]),
        forall|k: int|
            old(errors)@.len() <= k < final(errors)@.len() ==> ((#[trigger] final(errors)@[k])
                matches LowerError::DuplicateDependency(f, s2) && (d0@
                + list.deep_view()).contains(s2@)),
        forall|k: int| 0 <= k < old(errors)@.len() ==> final(errors)@[k] == old(errors)@[k],
{
    let ghost lv = list.deep_view();
    let mut j: usize = 0;
    while j < list.len()
        invariant
            j <= list@.len(),
            depends_on.deep_view() == firsts(d0@ + lv.take(j as int)),
            errors@.len() == dup_count(names_of(d0@ + lv.take(j as int))) + extra@,
            dd_count(errors@) == dup_count(names_of(d0@ + lv.take(j as int))),
            dm_count(errors@) == dm_count(old(errors)@),
            forall|k: int|
                0 <= k < errors@.len() ==> (#[trigger] errors@[k]) is DuplicateDependency
                    || errors@[k] is DuplicateMetaItem,
            forall|k: int| 0 <= k < errors@.len() ==> dup_pair_named(#[trigger] errors@[k]),
            forall|k: int|
                old(errors)@.len() <= k < errors@.len() ==> ((#[trigger] errors@[k]) matches
                    LowerError::DuplicateDependency(f, s2) && (d0@ + lv).contains(s2@)),
            old(errors)@.len() <= errors@.len(),
            forall|k: int| 0 <= k < old(errors)@.len() ==> errors@[k] == old(errors)@[k],
        decreases list@.len() - j,
    {
        let ghost dj = d0@ + lv.take(j as int);
        proof {
            assert(d0@ + lv.take(j + 1) =~= dj.push(lv[j as int]));
            assert(dj.push(lv[j as int]).drop_last() =~= dj);
            assert(lv[j as int] == list@[j as int]@);
            lemma_firsts_contains(dj);
            lemma_names_push(dj, lv[j as int]);
            assert(names_of(dj).push(lv[j as int].text).drop_last() =~= names_of(dj));
        }
        match find_name(&depends_on, &list[j].text) {
            Some(k) => {
                proof {
                    assert(names_of(depends_on.deep_view())[k as int] == depends_on.deep_view()[
                        k as int
                    ].text);
                    assert(names_of(depends_on.deep_view()).contains(lv[j as int].text));
                    assert(names_of(dj).contains(lv[j as int].text));
                }
                let ghost e0 = errors@;
                errors.push(
                    LowerError::DuplicateDependency(
                        depends_on[k].duplicate(),
                        list[j].duplicate(),
                    ),
                );
                proof {
                    lemma_counts_push(e0, errors@.last());
                    assert(dup_pair_named(errors@.last()));
                    assert((d0@ + lv)[d0@.len() + j] == lv[j as int]);
                    assert((d0@ + lv).contains(lv[j as int]));
                    assert forall|k: int|
                        0 <= k < old(errors)@.len() implies errors@[k] == old(errors)@[k] by {
                        assert(errors@[k] == e0[k]);
                    }
                }
            },
            None => {
                proof {
                    assert(!names_of(dj).contains(lv[j as int].text));
                }
                depends_on.push(list[j].duplicate());
                proof {
                    assert(depends_on.deep_view() =~= firsts(dj).push(lv[j as int]));
                }
            },
        }
        j += 1;
    }
    proof {
        assert(d0@ + lv.take(list@.len() as int) =~= d0@ + lv);
    }
}

/// Fold one `meta(...)` list into the accumulated metadata,
/// reporting one `DuplicateMetaItem` per repeated key.
#[verifier::loop_isolation(false)]
fn hoist_meta_list(
    meta: &mut Vec<(Spanned, String)>,
    errors: &mut Vec<LowerError>,
    list: &Vec<(Spanned, String)>,
    m0: Ghost<Seq<(SpannedV, Seq<char>)>>,
    extra: Ghost<int>,
)
    requires
        old(meta).deep_view() == meta_firsts(m0@),
        old(errors)@.len() == dup_count(key_names_of(m0@)) + extra@,
        dm_count(old(errors)@) == dup_count(key_names_of(m0@)),
        forall|k: int|
            0 <= k < old(errors)@.len() ==> (#[trigger] old(errors)@[k]) is DuplicateDependency
                || old(errors)@[k] is DuplicateMetaItem,
        forall|k: int| 0 <= k < old(errors)@.len() ==> dup_pair_named(#[trigger] old(errors)@[k]),
    ensures
        final(meta).deep_view() == meta_firsts(m0@ + list.deep_view()),
        final(errors)@.len() == dup_count(key_names_of(m0@ + list.deep_view())) + extra@,
        dm_count(final(errors)@) == dup_count(key_names_of(m0@ + list.deep_view())),
        dd_count(final(errors)@) == dd_count(old(errors)@),
        forall|k: int|
            0 <= k < final(errors)@.len() ==> (#[trigger] final(errors)@[k]) is DuplicateDependency
                || final(errors)@[k] is DuplicateMetaItem,
        forall|k: int| 0 <= k < final(errors)@.len() ==> dup_pair_named(#[trigger] final(errors)@[k]),
        forall|k: int|
            old(errors)@.len() <= k < final(errors)@.len() ==> ((#[trigger] final(errors)@[k])
                matches LowerError::DuplicateMetaItem(f, s2) && exists|m: int|
                0 <= m < (m0@ + list.deep_view()).len() && (#[trigger] (m0@
                    + list.deep_view())[m]).0 == s2@),
        forall|k: int| 0 <= k < old(errors)@.len() ==> final(errors)@[k] == old(errors)@[k],
{
    let ghost lv = list.deep_view();
    let mut j: usize = 0;
    while j < list.len()
        invariant
            j <= list@.len(),
            meta.deep_view() == meta_firsts(m0@ + lv.take(j as int)),
            errors@.len() == dup_count(key_names_of(m0@ + lv.take(j as int))) + extra@,
            dm_count(errors@) == dup_count(key_names_of(m0@ + lv.take(j as int))),
            dd_count(errors@) == dd_count(old(errors)@),
            forall|k: int|
                0 <= k < errors@.len() ==> (#[trigger] errors@[k]) is DuplicateDependency
                    || errors@[k] is DuplicateMetaItem,
            forall|k: int| 0 <= k < errors@.len() ==> dup_pair_named(#[trigger] errors@[k]),
            forall|k: int|
                old(errors)@.len() <= k < errors@.len() ==> ((#[trigger] errors@[k]) matches
                    LowerError::DuplicateMetaItem(f, s2) && exists|m: int|
                    0 <= m < (m0@ + lv).len() && (#[trigger] (m0@ + lv)[m]).0 == s2@),
            old(errors)@.len() <= errors@.len(),
            forall|k: int| 0 <= k < old(errors)@.len() ==> errors@[k] == old(errors)@[k],
        decreases list@.len() - j,
    {
        let ghost mj = m0@ + lv.take(j as int);
        proof {
            assert(m0@ + lv.take(j + 1) =~= mj.push(lv[j as int]));
            assert(mj.push(lv[j as int]).drop_last() =~= mj);
            assert(lv[j as int] == list@[j as int].deep_view());
            lemma_meta_firsts_contains(mj);
            lemma_keys_push(mj, lv[j as int]);
            assert(key_names_of(mj).push(lv[j as int].0.text).drop_last() =~= key_names_of(mj));
        }
        match find_key(&meta, &list[j].0.text) {
            Some(k) => {
                proof {
                    assert(key_names_of(meta.deep_view())[k as int] == meta.deep_view()[
                        k as int
                    ].0.text);
                    assert(key_names_of(meta.deep_view()).contains(lv[j as int].0.text));
                    assert(key_names_of(mj).contains(lv[j as int].0.text));
                }
                let ghost e0 = errors@;
                errors.push(
                    LowerError::DuplicateMetaItem(meta[k].0.duplicate(), list[j].0.duplicate()),
                );
                proof {
                    lemma_counts_push(e0, errors@.last());
                    assert(dup_pair_named(errors@.last()));
                    assert((m0@ + lv)[m0@.len() + j] == lv[j as int]);
                    assert forall|k: int|
                        0 <= k < old(errors)@.len() implies errors@[k] == old(errors)@[k] by {
                        assert(errors@[k] == e0[k]);
                    }
                }
            },
            None => {
                proof {
                    assert(!key_names_of(mj).contains(lv[j as int].0.text));
                }
                meta.push((list[j].0.duplicate(), list[j].1.clone()));
                proof {
                    assert(meta.deep_view() =~= meta_firsts(mj).push(lv[j as int]));
                }
            },
        }
        j += 1;
    }
    proof {
        assert(m0@ + lv.take(list@.len() as int) =~= m0@ + lv);
    }
}

impl Unit {
    /// Hoist `DependsOn` and `Meta` out of a command list, deduplicating
    /// both and reporting every duplicate; keep the remaining commands in
    /// source order.
    ///
    /// Returns `Ok` exactly when the body declares no duplicate dependency
    /// and no duplicate metadata key; otherwise returns one error per
    /// repeated entry, and nothing else.
    #[verifier::loop_isolation(false)]
    #[verifier::rlimit(60)]
    pub fn lower(cmds: &Vec<Command>) -> (r: Result<Unit, Vec<LowerError>>)
        ensures
            match r {
                Ok(u) => unit_err_count(cmds.deep_view()) == 0 && u.deep_view() == lowered_unit(
                    cmds.deep_view(),
                ),
                Err(es) => {
                    &&& unit_err_count(cmds.deep_view()) > 0
                    &&& es@.len() == unit_err_count(cmds.deep_view())
                    // one `DuplicateDependency` per repeated dependency and
                    // one `DuplicateMetaItem` per repeated key, each pair of
                    // spans naming the same entry
                    &&& dd_count(es@) == dup_count(names_of(deps_in(cmds.deep_view())))
                    &&& dm_count(es@) == dup_count(key_names_of(metas_in(cmds.deep_view())))
                    &&& forall|k: int|
                        0 <= k < es@.len() ==> (#[trigger] es@[k]) is DuplicateDependency
                            || es@[k] is DuplicateMetaItem
                    &&& forall|k: int| 0 <= k < es@.len() ==> dup_pair_named(#[trigger] es@[k])
                    // and each carries an entry the command list really
                    // declares
                    &&& forall|k: int|
                        0 <= k < es@.len() ==> ((#[trigger] es@[k]) matches
                            LowerError::DuplicateDependency(f, s2) ==> deps_in(
                            cmds.deep_view(),
                        ).contains(s2@))
                    &&& forall|k: int|
                        0 <= k < es@.len() ==> ((#[trigger] es@[k]) matches
                            LowerError::DuplicateMetaItem(f, s2) ==> exists|m: int|
                            0 <= m < metas_in(cmds.deep_view()).len() && (#[trigger] metas_in(
                                cmds.deep_view(),
                            )[m]).0 == s2@)
                },
            },
    {
        let ghost cv = cmds.deep_view();
        let mut errors: Vec<LowerError> = Vec::new();
        let mut depends_on: Vec<Spanned> = Vec::new();
        let mut meta: Vec<(Spanned, String)> = Vec::new();
        let mut commands: Vec<Command> = Vec::new();

        let mut i: usize = 0;
        while i < cmds.len()
            invariant
                i <= cmds@.len(),
                depends_on.deep_view() == firsts(deps_in(cv.take(i as int))),
                meta.deep_view() == meta_firsts(metas_in(cv.take(i as int))),
                commands.deep_view() == kept_cmds(cv.take(i as int)),
                errors@.len() == dup_count(names_of(deps_in(cv.take(i as int)))) + dup_count(
                    key_names_of(metas_in(cv.take(i as int))),
                ),
                dd_count(errors@) == dup_count(names_of(deps_in(cv.take(i as int)))),
                dm_count(errors@) == dup_count(key_names_of(metas_in(cv.take(i as int)))),
                forall|k: int|
                    0 <= k < errors@.len() ==> (#[trigger] errors@[k]) is DuplicateDependency
                        || errors@[k] is DuplicateMetaItem,
                forall|k: int| 0 <= k < errors@.len() ==> dup_pair_named(#[trigger] errors@[k]),
                forall|k: int|
                    0 <= k < errors@.len() ==> ((#[trigger] errors@[k]) matches
                        LowerError::DuplicateDependency(f, s2) ==> deps_in(cv).contains(s2@)),
                forall|k: int|
                    0 <= k < errors@.len() ==> ((#[trigger] errors@[k]) matches
                        LowerError::DuplicateMetaItem(f, s2) ==> exists|m: int|
                        0 <= m < metas_in(cv).len() && (#[trigger] metas_in(cv)[m]).0 == s2@),
            decreases cmds@.len() - i,
        {
            let ghost pre = cv.take(i as int);
            proof {
                assert(cv.take(i + 1).drop_last() =~= pre);
                assert(cv.take(i + 1).last() == cv[i as int]);
            }
            match &cmds[i] {
                Command::DependsOn(list) => {
                    let ghost eb = errors@;
                    hoist_dep_list(
                        &mut depends_on,
                        &mut errors,
                        list,
                        Ghost(deps_in(pre)),
                        Ghost(dup_count(key_names_of(metas_in(pre)))),
                    );
                    proof {
                        assert(deps_in(cv.take(i + 1)) =~= deps_in(pre) + list.deep_view());
                        assert(metas_in(cv.take(i + 1)) =~= metas_in(pre));
                        assert(kept_cmds(cv.take(i + 1)) =~= kept_cmds(pre));
                        lemma_deps_in_take_subset(cv, i + 1);
                        assert forall|k: int|
                            0 <= k < errors@.len() implies ((#[trigger] errors@[k]) matches
                            LowerError::DuplicateDependency(f, s2) ==> deps_in(cv).contains(
                            s2@,
                        )) by {
                            if k < eb.len() {
                                assert(errors@[k] == eb[k]);
                            } else if errors@[k] is DuplicateDependency {
                                let s2 = errors@[k]->DuplicateDependency_1;
                                assert((deps_in(pre) + list.deep_view()).contains(s2@));
                                assert(deps_in(cv.take(i + 1)).contains(s2@));
                            }
                        }
                    }
                },
                Command::Meta(list) => {
                    proof {
                        lemma_dup_count_nonneg(key_names_of(metas_in(pre)));
                    }
                    let ghost eb = errors@;
                    hoist_meta_list(
                        &mut meta,
                        &mut errors,
                        list,
                        Ghost(metas_in(pre)),
                        Ghost(dup_count(names_of(deps_in(pre)))),
                    );
                    proof {
                        assert(metas_in(cv.take(i + 1)) =~= metas_in(pre) + list.deep_view());
                        assert(deps_in(cv.take(i + 1)) =~= deps_in(pre));
                        assert(kept_cmds(cv.take(i + 1)) =~= kept_cmds(pre));
                        lemma_metas_in_take_subset(cv, i + 1);
                        assert forall|k: int|
                            0 <= k < errors@.len() implies ((#[trigger] errors@[k]) matches
                            LowerError::DuplicateMetaItem(f, s2) ==> exists|m: int|
                            0 <= m < metas_in(cv).len() && (#[trigger] metas_in(cv)[m]).0
                            == s2@) by {
                            if k < eb.len() {
                                assert(errors@[k] == eb[k]);
                            } else if errors@[k] is DuplicateMetaItem {
                                let s2 = errors@[k]->DuplicateMetaItem_1;
                                let m = choose|m: int|
                                    0 <= m < (metas_in(pre) + list.deep_view()).len() && (
                                    #[trigger] (metas_in(pre) + list.deep_view())[m]).0 == s2@;
                                assert(metas_in(cv.take(i + 1))[m].0 == s2@);
                                assert(metas_in(cv.take(i + 1)).contains(
                                    metas_in(cv.take(i + 1))[m],
                                ));
                                assert(metas_in(cv).contains(metas_in(cv.take(i + 1))[m]));
                                let w = choose|w: int|
                                    0 <= w < metas_in(cv).len() && metas_in(cv)[w] == metas_in(
                                        cv.take(i + 1),
                                    )[m];
                                assert(metas_in(cv)[w].0 == s2@);
                            }
                        }
                    }
                },
                c => {
                    commands.push(dup_command(c));
                    proof {
                        assert(!is_hoisted(cv[i as int]));
                        assert(deps_in(cv.take(i + 1)) =~= deps_in(pre));
                        assert(metas_in(cv.take(i + 1)) =~= metas_in(pre));
                        assert(commands.deep_view() =~= kept_cmds(pre).push(cv[i as int]));
                    }
                },
            }
            i += 1;
        }
        proof {
            assert(cv.take(cmds@.len() as int) =~= cv);
            lemma_dup_count_nonneg(names_of(deps_in(cv)));
            lemma_dup_count_nonneg(key_names_of(metas_in(cv)));
        }
        if errors.len() > 0 {
            Err(errors)
        } else {
            Ok(Unit { depends_on, meta, commands })
        }
    }

    /// The unit's dependencies, first occurrence of each name only.
    pub fn deps(&self) -> (r: &Vec<Spanned>)
        ensures
            r == &self.depends_on,
    {
        &self.depends_on
    }
}

/// The index of the first unit with the given name, if any.
pub(crate) fn find_unit(units: &Vec<(Spanned, Unit)>, name: &String) -> (r: Option<usize>)
    ensures
        match r {
            Some(k) => k < units@.len() && units.deep_view()[k as int].0.text == name@,
            None => !lus_names(units.deep_view()).contains(name@),
        },
{
    let mut k: usize = 0;
    while k < units.len()
        invariant
            k <= units@.len(),
            forall|j: int| 0 <= j < k ==> units.deep_view()[j].0.text != name@,
        decreases units@.len() - k,
    {
        if units[k].0.text == *name {
            return Some(k);
        }
        k += 1;
    }
    proof {
        if lus_names(units.deep_view()).contains(name@) {
            let j = choose|j: int|
                0 <= j < units.deep_view().len() && lus_names(units.deep_view())[j] == name@;
            assert(units.deep_view()[j].0.text == name@);
        }
    }
    None
}

/// Whether the pragma is already bound in the expose list.
fn find_pragma(expose: &Vec<(Pragma, Spanned)>, p: Pragma) -> (r: bool)
    ensures
        r == pragmas_of(expose.deep_view()).contains(p),
{
    let mut k: usize = 0;
    while k < expose.len()
        invariant
            k <= expose@.len(),
            forall|j: int| 0 <= j < k ==> expose.deep_view()[j].0 != p,
        decreases expose@.len() - k,
    {
        if expose[k].0 == p {
            proof {
                assert(pragmas_of(expose.deep_view())[k as int] == p);
            }
            return true;
        }
        k += 1;
    }
    proof {
        if pragmas_of(expose.deep_view()).contains(p) {
            let j = choose|j: int|
                0 <= j < expose.deep_view().len() && pragmas_of(expose.deep_view())[j] == p;
            assert(expose.deep_view()[j].0 == p);
        }
    }
    false
}

impl Module {
    /// Lower a parsed AST into a module, accumulating every error instead
    /// of stopping at the first.
    ///
    /// Returns `Ok` exactly when the AST has no structural error, and then
    /// the module's units are the source's units (first definition of each
    /// name) and its expose map holds the source's bindings.  Otherwise
    /// returns exactly one error per structural problem: duplicate units,
    /// dependencies, metadata keys and pragma bindings, and every name
    /// that resolves to no defined unit.
    #[verifier::loop_isolation(false)]
    #[verifier::rlimit(100)]
    pub fn lower(ast: Vec<AST>) -> (r: Result<Module, Vec<LowerError>>)
        ensures
            match r {
                Ok(m) => {
                    &&& lower_err_count(ast.deep_view()) == 0
                    &&& m.deep_view() == lowered_module(ast.deep_view())
                    &&& module_wf(m.deep_view())
                },
                Err(es) => {
                    let items = unit_items(ast.deep_view());
                    let unames = item_names(items);
                    &&& lower_err_count(ast.deep_view()) > 0
                    &&& es@.len() == lower_err_count(ast.deep_view())
                    // the variant of every error is pinned by its fault:
                    // one `DuplicateUnit` per repeated unit name, one
                    // `DuplicateDependency` / `DuplicateMetaItem` per
                    // repeated entry inside a unit, one `DuplicateExpose`
                    // per rebound pragma, one `NameError` per name that
                    // resolves to no unit; each duplicate pair of spans
                    // names the same entry
                    &&& du_count(es@) == phase1_dup_units(items)
                    &&& dd_count(es@) == phase1_dd(items)
                    &&& dm_count(es@) == phase1_dm(items)
                    &&& de_count(es@) == expose_dups(expose_items(ast.deep_view()), unames)
                    &&& ne_count(es@) == expose_missing(expose_items(ast.deep_view()), unames)
                        + phase3_err_count(lowered_units(items), unames)
                    &&& forall|k: int| 0 <= k < es@.len() ==> dup_pair_named(#[trigger] es@[k])
                    &&& lower_payloads_ok(es@, ast.deep_view())
                },
            },
    {
        let ghost av = ast.deep_view();
        let mut errors: Vec<LowerError> = Vec::new();
        let mut units: Vec<(Spanned, Unit)> = Vec::new();

        let mut i: usize = 0;
        while i < ast.len()
            invariant
                i <= ast@.len(),
                units.deep_view() == lowered_units(unit_items(av.take(i as int))),
                errors@.len() == phase1_err_count(unit_items(av.take(i as int))),
                du_count(errors@) == phase1_dup_units(unit_items(av.take(i as int))),
                dd_count(errors@) == phase1_dd(unit_items(av.take(i as int))),
                dm_count(errors@) == phase1_dm(unit_items(av.take(i as int))),
                de_count(errors@) == 0,
                ne_count(errors@) == 0,
                forall|k: int| 0 <= k < errors@.len() ==> dup_pair_named(#[trigger] errors@[k]),
                lower_payloads_ok(errors@, av),
            decreases ast@.len() - i,
        {
            let ghost items_i = unit_items(av.take(i as int));
            proof {
                assert(av.take(i + 1).drop_last() =~= av.take(i as int));
                assert(av.take(i + 1).last() == av[i as int]);
            }
            match &ast[i] {
                AST::Unit(name, cmds) => {
                    proof {
                        assert(av[i as int] == ASTV::Unit(name@, cmds.deep_view()));
                        assert(unit_items(av.take(i + 1)).drop_last() =~= items_i);
                        lemma_lowered_units_names(items_i);
                    }
                    let unit = match Unit::lower(cmds) {
                        Ok(u) => u,
                        Err(mut es) => {
                            let ghost e0 = errors@;
                            let ghost esv = es@;
                            errors.append(&mut es);
                            proof {
                                assert(errors@ =~= e0 + esv);
                                lemma_counts_concat(e0, esv);
                                lemma_counts_only_dup(esv);
                                // the appended errors carry entries of this
                                // item's command list, which stands in the AST
                                assert(unit_items(av.take(i + 1)).last() == (
                                    name@,
                                    cmds.deep_view(),
                                ));
                                assert(unit_items(av.take(i + 1)).contains(
                                    (name@, cmds.deep_view()),
                                ));
                                lemma_unit_item_mono(av, i + 1, (name@, cmds.deep_view()));
                                let wi = choose|wi: int|
                                    0 <= wi < unit_items(av).len() && unit_items(av)[wi] == (
                                    name@,
                                    cmds.deep_view(),
                                    );
                                assert forall|k: int|
                                    0 <= k < errors@.len() implies {
                                    &&& ((#[trigger] errors@[k]) matches LowerError::NameError(
                                        nn,
                                    ) ==> !item_names(unit_items(av)).contains(nn@.text))
                                    &&& (errors@[k] matches LowerError::DuplicateUnit(f, s2)
                                        ==> item_names(unit_items(av)).contains(s2@.text))
                                    &&& (errors@[k] matches LowerError::DuplicateExpose(p2, nn)
                                        ==> expose_items(av).contains((p2, nn@)))
                                    &&& (errors@[k] matches LowerError::DuplicateDependency(
                                        f,
                                        s2,
                                    ) ==> exists|w: int|
                                        0 <= w < unit_items(av).len() && deps_in(
                                            (#[trigger] unit_items(av)[w]).1,
                                        ).contains(s2@))
                                    &&& (errors@[k] matches LowerError::DuplicateMetaItem(
                                        f,
                                        s2,
                                    ) ==> exists|w: int, m: int|
                                        0 <= w < unit_items(av).len() && 0 <= m < metas_in(
                                            unit_items(av)[w].1,
                                        ).len() && (#[trigger] metas_in(unit_items(av)[w].1)[
                                            m
                                        ]).0 == s2@)
                                } by {
                                    if k < e0.len() {
                                        assert(errors@[k] == e0[k]);
                                    } else {
                                        assert(errors@[k] == esv[k - e0.len()]);
                                        assert(esv[k - e0.len()] is DuplicateDependency || esv[k
                                            - e0.len()] is DuplicateMetaItem);
                                        if errors@[k] is DuplicateDependency {
                                            let s2 = errors@[k]->DuplicateDependency_1;
                                            assert(deps_in(cmds.deep_view()).contains(s2@));
                                            assert(deps_in(unit_items(av)[wi].1).contains(s2@));
                                        }
                                        if errors@[k] is DuplicateMetaItem {
                                            let s2 = errors@[k]->DuplicateMetaItem_1;
                                            let m = choose|m: int|
                                                0 <= m < metas_in(cmds.deep_view()).len() && (
                                                #[trigger] metas_in(cmds.deep_view())[m]).0
                                                    == s2@;
                                            assert(metas_in(unit_items(av)[wi].1)[m].0 == s2@);
                                        }
                                    }
                                }
                            }
                            Unit::default()
                        },
                    };
                    proof {
                        // a unit with no errors has no duplicate of either
                        // kind: the two counts are nonnegative and sum to 0
                        lemma_dup_count_nonneg(names_of(deps_in(cmds.deep_view())));
                        lemma_dup_count_nonneg(key_names_of(metas_in(cmds.deep_view())));
                    }
                    match find_unit(&units, &name.text) {
                        Some(k) => {
                            proof {
                                assert(lus_names(units.deep_view())[k as int]
                                    == units.deep_view()[k as int].0.text);
                                assert(lus_names(units.deep_view()).contains(name@.text));
                                assert(item_names(items_i).contains(name@.text));
                            }
                            let ghost e1 = errors@;
                            errors.push(
                                LowerError::DuplicateUnit(
                                    units[k].0.duplicate(),
                                    name.duplicate(),
                                ),
                            );
                            proof {
                                lemma_counts_push(e1, errors@.last());
                                assert(dup_pair_named(errors@.last()));
                                lemma_unit_name_mono(av, i as int, name@.text);
                                assert forall|k2: int|
                                    0 <= k2 < errors@.len() implies {
                                    &&& ((#[trigger] errors@[k2]) matches LowerError::NameError(
                                        nn,
                                    ) ==> !item_names(unit_items(av)).contains(nn@.text))
                                    &&& (errors@[k2] matches LowerError::DuplicateUnit(f, s2)
                                        ==> item_names(unit_items(av)).contains(s2@.text))
                                    &&& (errors@[k2] matches LowerError::DuplicateExpose(p2, nn)
                                        ==> expose_items(av).contains((p2, nn@)))
                                } by {
                                    if k2 < errors@.len() - 1 {
                                        assert(errors@[k2] == e1[k2]);
                                    }
                                }
                            }
                        },
                        None => {
                            proof {
                                assert(!item_names(items_i).contains(name@.text));
                            }
                            units.push((name.duplicate(), unit));
                            proof {
                                assert(units.deep_view() =~= lowered_units(items_i).push(
                                    (name@, unit.deep_view()),
                                ));
                            }
                        },
                    }
                },
                _ => {
                    proof {
                        assert(unit_items(av.take(i + 1)) =~= items_i);
                    }
                },
            }
            i += 1;
        }
        proof {
            assert(av.take(ast@.len() as int) =~= av);
        }
        let ghost items = unit_items(av);
        let ghost unames = item_names(items);
        let ghost p1 = phase1_err_count(items);

        let mut expose: Vec<(Pragma, Spanned)> = Vec::new();
        let mut i: usize = 0;
        while i < ast.len()
            invariant
                i <= ast@.len(),
                units.deep_view() == lowered_units(items),
                expose.deep_view() == expose_acc(expose_items(av.take(i as int)), unames),
                errors@.len() == p1 + expose_err_count(expose_items(av.take(i as int)), unames),
                du_count(errors@) == phase1_dup_units(items),
                dd_count(errors@) == phase1_dd(items),
                dm_count(errors@) == phase1_dm(items),
                de_count(errors@) == expose_dups(expose_items(av.take(i as int)), unames),
                ne_count(errors@) == expose_missing(expose_items(av.take(i as int)), unames),
                forall|k: int| 0 <= k < errors@.len() ==> dup_pair_named(#[trigger] errors@[k]),
                lower_payloads_ok(errors@, av),
            decreases ast@.len() - i,
        {
            let ghost eitems_i = expose_items(av.take(i as int));
            proof {
                assert(av.take(i + 1).drop_last() =~= av.take(i as int));
                assert(av.take(i + 1).last() == av[i as int]);
            }
            match &ast[i] {
                AST::Expose(prag, n) => {
                    proof {
                        assert(av[i as int] == ASTV::Expose(*prag, n@));
                        assert(expose_items(av.take(i + 1)).drop_last() =~= eitems_i);
                        lemma_lowered_units_names(items);
                    }
                    let dup = find_pragma(&expose, *prag);
                    let missing = match find_unit(&units, &n.text) {
                        Some(k) => {
                            proof {
                                assert(lus_names(units.deep_view())[k as int]
                                    == units.deep_view()[k as int].0.text);
                                assert(lus_names(units.deep_view()).contains(n@.text));
                            }
                            false
                        },
                        None => true,
                    };
                    proof {
                        assert(missing == !unames.contains(n@.text));
                    }
                    if dup {
                        let ghost e1 = errors@;
                        errors.push(LowerError::DuplicateExpose(*prag, n.duplicate()));
                        proof {
                            lemma_counts_push(e1, errors@.last());
                            assert(expose_items(av.take(i + 1)).last() == (*prag, n@));
                            assert(expose_items(av.take(i + 1)).contains((*prag, n@)));
                            lemma_expose_item_mono(av, i + 1, (*prag, n@));
                            assert forall|k2: int|
                                0 <= k2 < errors@.len() implies {
                                &&& ((#[trigger] errors@[k2]) matches LowerError::NameError(nn)
                                    ==> !item_names(unit_items(av)).contains(nn@.text))
                                &&& (errors@[k2] matches LowerError::DuplicateUnit(f, s2)
                                    ==> item_names(unit_items(av)).contains(s2@.text))
                                &&& (errors@[k2] matches LowerError::DuplicateExpose(p2, nn)
                                    ==> expose_items(av).contains((p2, nn@)))
                            } by {
                                if k2 < errors@.len() - 1 {
                                    assert(errors@[k2] == e1[k2]);
                                }
                            }
                        }
                    }
                    if missing {
                        let ghost e1 = errors@;
                        errors.push(LowerError::NameError(n.duplicate()));
                        proof {
                            lemma_counts_push(e1, errors@.last());
                            assert(expose_items(av.take(i + 1)).last() == (*prag, n@));
                            assert(expose_items(av.take(i + 1)).contains((*prag, n@)));
                            lemma_expose_item_mono(av, i + 1, (*prag, n@));
                            let jj = choose|jj: int|
                                0 <= jj < expose_items(av).len() && expose_items(av)[jj] == (
                                *prag,
                                n@,
                                );
                            assert(expose_items(av)[jj].1.text == n@.text);
                            assert(lower_mentions(av, n@.text));
                            assert forall|k2: int|
                                0 <= k2 < errors@.len() implies {
                                &&& ((#[trigger] errors@[k2]) matches LowerError::NameError(nn)
                                    ==> !item_names(unit_items(av)).contains(nn@.text))
                                &&& (errors@[k2] matches LowerError::DuplicateUnit(f, s2)
                                    ==> item_names(unit_items(av)).contains(s2@.text))
                                &&& (errors@[k2] matches LowerError::DuplicateExpose(p2, nn)
                                    ==> expose_items(av).contains((p2, nn@)))
                            } by {
                                if k2 < errors@.len() - 1 {
                                    assert(errors@[k2] == e1[k2]);
                                }
                            }
                        }
                    }
                    if !dup && !missing {
                        expose.push((*prag, n.duplicate()));
                        proof {
                            assert(expose.deep_view() =~= expose_acc(eitems_i, unames).push(
                                (*prag, n@),
                            ));
                        }
                    }
                },
                _ => {
                    proof {
                        assert(expose_items(av.take(i + 1)) =~= eitems_i);
                    }
                },
            }
            i += 1;
        }
        proof {
            assert(av.take(ast@.len() as int) =~= av);
        }
        let ghost eitems = expose_items(av);
        let ghost p2 = expose_err_count(eitems, unames);
        let ghost lus = lowered_units(items);

        let mut u: usize = 0;
        while u < units.len()
            invariant
                u <= units@.len(),
                units.deep_view() == lus,
                expose.deep_view() == expose_acc(eitems, unames),
                errors@.len() == p1 + p2 + phase3_err_count(lus.take(u as int), unames),
                du_count(errors@) == phase1_dup_units(items),
                dd_count(errors@) == phase1_dd(items),
                dm_count(errors@) == phase1_dm(items),
                de_count(errors@) == expose_dups(eitems, unames),
                ne_count(errors@) == expose_missing(eitems, unames) + phase3_err_count(
                    lus.take(u as int),
                    unames,
                ),
                forall|k: int| 0 <= k < errors@.len() ==> dup_pair_named(#[trigger] errors@[k]),
                lower_payloads_ok(errors@, av),
            decreases units@.len() - u,
        {
            proof {
                assert(lus.take(u + 1).drop_last() =~= lus.take(u as int));
                assert(lus.take(u + 1).last() == lus[u as int]);
                lemma_lowered_units_names(items);
            }
            let ghost base = p1 + p2 + phase3_err_count(lus.take(u as int), unames);
            let ghost uv = lus[u as int].1;
            let deps = &units[u].1.depends_on;
            let mut j: usize = 0;
            while j < deps.len()
                invariant
                    j <= deps@.len(),
                    deps.deep_view() == uv.depends_on,
                    errors@.len() == base + unresolved_count(uv.depends_on.take(j as int), unames),
                    du_count(errors@) == phase1_dup_units(items),
                    dd_count(errors@) == phase1_dd(items),
                    dm_count(errors@) == phase1_dm(items),
                    de_count(errors@) == expose_dups(eitems, unames),
                    ne_count(errors@) == expose_missing(eitems, unames) + (errors@.len() - p1
                        - p2),
                    forall|k: int| 0 <= k < errors@.len() ==> dup_pair_named(#[trigger] errors@[k]),
                    lower_payloads_ok(errors@, av),
                decreases deps@.len() - j,
            {
                proof {
                    assert(uv.depends_on.take(j + 1).drop_last() =~= uv.depends_on.take(
                        j as int,
                    ));
                    assert(uv.depends_on.take(j + 1).last() == uv.depends_on[j as int]);
                    lemma_lowered_units_names(items);
                }
                match find_unit(&units, &deps[j].text) {
                    Some(k) => {
                        proof {
                            assert(lus_names(units.deep_view())[k as int] == units.deep_view()[
                                k as int
                            ].0.text);
                            assert(lus_names(units.deep_view()).contains(
                                uv.depends_on[j as int].text,
                            ));
                        }
                    },
                    None => {
                        let ghost e1 = errors@;
                        errors.push(LowerError::NameError(deps[j].duplicate()));
                        proof {
                            lemma_counts_push(e1, errors@.last());
                            assert(names_of(uv.depends_on)[j as int] == uv.depends_on[
                                j as int
                            ].text);
                            assert(names_of(uv.depends_on).contains(uv.depends_on[j as int].text));
                            assert(0 <= u < lowered_units(items).len() && lowered_units(items)[
                                u as int
                            ].1 == uv);
                            assert(lower_mentions(av, uv.depends_on[j as int].text));
                            assert forall|k2: int|
                                0 <= k2 < errors@.len() implies {
                                &&& ((#[trigger] errors@[k2]) matches LowerError::NameError(nn)
                                    ==> !item_names(unit_items(av)).contains(nn@.text))
                                &&& (errors@[k2] matches LowerError::DuplicateUnit(f, s2)
                                    ==> item_names(unit_items(av)).contains(s2@.text))
                                &&& (errors@[k2] matches LowerError::DuplicateExpose(p2, nn)
                                    ==> expose_items(av).contains((p2, nn@)))
                            } by {
                                if k2 < errors@.len() - 1 {
                                    assert(errors@[k2] == e1[k2]);
                                }
                            }
                        }
                    },
                }
                j += 1;
            }
            proof {
                assert(uv.depends_on.take(deps@.len() as int) =~= uv.depends_on);
            }
            let ghost base_d = base + unresolved_count(uv.depends_on, unames);
            let cmds = &units[u].1.commands;
            let mut c: usize = 0;
            while c < cmds.len()
                invariant
                    c <= cmds@.len(),
                    cmds.deep_view() == uv.commands,
                    errors@.len() == base_d + unresolved_count(
                        dos_in(uv.commands.take(c as int)),
                        unames,
                    ),
                    du_count(errors@) == phase1_dup_units(items),
                    dd_count(errors@) == phase1_dd(items),
                    dm_count(errors@) == phase1_dm(items),
                    de_count(errors@) == expose_dups(eitems, unames),
                    ne_count(errors@) == expose_missing(eitems, unames) + (errors@.len() - p1
                        - p2),
                    forall|k: int| 0 <= k < errors@.len() ==> dup_pair_named(#[trigger] errors@[k]),
                    lower_payloads_ok(errors@, av),
                decreases cmds@.len() - c,
            {
                let ghost d0 = dos_in(uv.commands.take(c as int));
                proof {
                    assert(uv.commands.take(c + 1).drop_last() =~= uv.commands.take(c as int));
                    assert(uv.commands.take(c + 1).last() == uv.commands[c as int]);
                }
                match &cmds[c] {
                    Command::Do(list) => {
                        let ghost lv = list.deep_view();
                        proof {
                            assert(uv.commands[c as int] == CommandV::Do(lv));
                        }
                        let mut j: usize = 0;
                        while j < list.len()
                            invariant
                                j <= list@.len(),
                                errors@.len() == base_d + unresolved_count(
                                    d0 + lv.take(j as int),
                                    unames,
                                ),
                                du_count(errors@) == phase1_dup_units(items),
                                dd_count(errors@) == phase1_dd(items),
                                dm_count(errors@) == phase1_dm(items),
                                de_count(errors@) == expose_dups(eitems, unames),
                                ne_count(errors@) == expose_missing(eitems, unames) + (
                                errors@.len() - p1 - p2),
                                forall|k: int|
                                    0 <= k < errors@.len() ==> dup_pair_named(
                                        #[trigger] errors@[k],
                                    ),
                                lower_payloads_ok(errors@, av),
                            decreases list@.len() - j,
                        {
                            proof {
                                assert(d0 + lv.take(j + 1) =~= (d0 + lv.take(j as int)).push(
                                    lv[j as int],
                                ));
                                assert((d0 + lv.take(j as int)).push(lv[j as int]).drop_last()
                                    =~= d0 + lv.take(j as int));
                                assert(lv[j as int] == list@[j as int]@);
                                lemma_lowered_units_names(items);
                            }
                            match find_unit(&units, &list[j].text) {
                                Some(k) => {
                                    proof {
                                        assert(lus_names(units.deep_view())[k as int]
                                            == units.deep_view()[k as int].0.text);
                                        assert(lus_names(units.deep_view()).contains(
                                            lv[j as int].text,
                                        ));
                                    }
                                },
                                None => {
                                    let ghost e1 = errors@;
                                    errors.push(LowerError::NameError(list[j].duplicate()));
                                    proof {
                                        lemma_counts_push(e1, errors@.last());
                                        assert(dos_in(uv.commands.take(c + 1)) == d0
                                            + do_entries(uv.commands[c as int]));
                                        assert(do_entries(uv.commands[c as int]) == lv);
                                        assert((d0 + lv)[d0.len() + j] == lv[j as int]);
                                        assert(dos_in(uv.commands.take(c + 1)).contains(
                                            lv[j as int],
                                        ));
                                        lemma_dos_in_take_contains(
                                            uv.commands,
                                            c + 1,
                                            lv[j as int],
                                        );
                                        let widx = choose|w: int|
                                            0 <= w < dos_in(uv.commands).len() && dos_in(
                                                uv.commands,
                                            )[w] == lv[j as int];
                                        assert(names_of(dos_in(uv.commands))[widx] == lv[
                                            j as int
                                        ].text);
                                        assert(names_of(dos_in(uv.commands)).contains(
                                            lv[j as int].text,
                                        ));
                                        assert(0 <= u < lowered_units(items).len()
                                            && lowered_units(items)[u as int].1 == uv);
                                        assert(lower_mentions(av, lv[j as int].text));
                                        assert forall|k2: int|
                                            0 <= k2 < errors@.len() implies {
                                            &&& ((#[trigger] errors@[k2]) matches
                                                LowerError::NameError(nn) ==> !item_names(
                                                unit_items(av),
                                            ).contains(nn@.text))
                                            &&& (errors@[k2] matches LowerError::DuplicateUnit(
                                                f,
                                                s2,
                                            ) ==> item_names(unit_items(av)).contains(s2@.text))
                                            &&& (errors@[k2] matches LowerError::DuplicateExpose(
                                                p2,
                                                nn,
                                            ) ==> expose_items(av).contains((p2, nn@)))
                                        } by {
                                            if k2 < errors@.len() - 1 {
                                                assert(errors@[k2] == e1[k2]);
                                            }
                                        }
                                    }
                                },
                            }
                            j += 1;
                        }
                        proof {
                            assert(d0 + lv.take(list@.len() as int) =~= d0 + lv);
                            assert(dos_in(uv.commands.take(c + 1)) =~= d0 + lv);
                        }
                    },
                    _ => {
                        proof {
                            assert(dos_in(uv.commands.take(c + 1)) =~= d0);
                        }
                    },
                }
                c += 1;
            }
            proof {
                assert(uv.commands.take(cmds@.len() as int) =~= uv.commands);
            }
            u += 1;
        }
        proof {
            assert(lus.take(units@.len() as int) =~= lus);
        }

        if errors.len() > 0 {
            proof {
                lemma_phase1_nonneg(items);
                lemma_expose_err_nonneg(eitems, unames);
                lemma_phase3_nonneg(lus, unames);
            }
            Err(errors)
        } else {
            let m = Module { expose, units };
            proof {
                lemma_phase1_nonneg(items);
                lemma_expose_err_nonneg(eitems, unames);
                lemma_phase3_nonneg(lus, unames);
                lemma_lowered_units_nodup(items);
                lemma_lowered_units_deps_nodup(items);
                lemma_expose_acc_wf(eitems, unames);
                lemma_phase3_zero(lus, unames);
                lemma_lowered_units_names(items);
                let mv = m.deep_view();
                assert(mod_names(mv) == lus_names(lus));
                assert forall|i2: int|
                    0 <= i2 < mv.expose.len() implies mod_names(mv).contains(
                    (#[trigger] mv.expose[i2]).1.text,
                ) by {
                    assert(unames.contains(mv.expose[i2].1.text));
                }
                assert forall|i2: int|
                    0 <= i2 < mv.units.len() implies unit_resolved(
                    (#[trigger] mv.units[i2]).1,
                    mod_names(mv),
                ) by {
                    assert(unit_resolved(mv.units[i2].1, unames));
                }
            }
            Ok(m)
        }
    }

    /// The units of the module, in definition order.
    pub fn units(&self) -> (r: &Vec<(Spanned, Unit)>)
        ensures
            r == &self.units,
    {
        &self.units
    }

    /// Does a unit with this name exist?
    pub fn unit_exists(&self, name: &String) -> (r: bool)
        ensures
            r == lus_names(self.units.deep_view()).contains(name@),
    {
        match find_unit(&self.units, name) {
            Some(k) => {
                proof {
                    assert(lus_names(self.units.deep_view())[k as int] == self.units.deep_view()[
                        k as int
                    ].0.text);
                }
                true
            },
            None => false,
        }
    }

    /// The unit bound to the pragma, if one is.
    pub fn unit_by_pragma(&self, pragma: Pragma) -> (r: Option<String>)
        ensures
            match r {
                Some(s) => exists|k: int|
                    0 <= k < self.expose.deep_view().len() && (#[trigger] self.expose.deep_view()[
                        k
                    ]).0 == pragma && self.expose.deep_view()[k].1.text == s@,
                None => !pragmas_of(self.expose.deep_view()).contains(pragma),
            },
    {
        let mut k: usize = 0;
        while k < self.expose.len()
            invariant
                k <= self.expose@.len(),
                forall|j: int| 0 <= j < k ==> self.expose.deep_view()[j].0 != pragma,
            decreases self.expose@.len() - k,
        {
            if self.expose[k].0 == pragma {
                proof {
                    assert((self.expose.deep_view()[k as int]).0 == pragma);
                }
                return Some(self.expose[k].1.inner_owned());
            }
            k += 1;
        }
        proof {
            if pragmas_of(self.expose.deep_view()).contains(pragma) {
                let j = choose|j: int|
                    0 <= j < self.expose.deep_view().len() && pragmas_of(self.expose.deep_view())[
                        j
                    ] == pragma;
                assert(self.expose.deep_view()[j].0 == pragma);
            }
        }
        None
    }
}

/// When phase one reports nothing, lowering keeps every unit item, in order.
proof fn lemma_lowered_units_exact(items: Seq<(SpannedV, Seq<CommandV>)>)
    requires
        phase1_err_count(items) == 0,
    ensures
        lus_names(lowered_units(items)) == item_names(items),
    decreases items.len(),
{
    if items.len() > 0 {
        let pre = items.drop_last();
        lemma_phase1_nonneg(pre);
        lemma_dup_count_nonneg(names_of(deps_in(items.last().1)));
        lemma_dup_count_nonneg(key_names_of(metas_in(items.last().1)));
        lemma_lowered_units_exact(pre);
        assert(!item_names(pre).contains(items.last().0.text));
        assert(lus_names(lowered_units(items)) =~= lus_names(lowered_units(pre)).push(
            items.last().0.text,
        ));
        assert(item_names(items) =~= item_names(pre).push(items.last().0.text));
    }
}

/// When the expose items report nothing, every binding is kept, in order.
proof fn lemma_expose_acc_exact(items: Seq<(Pragma, SpannedV)>, unames: Seq<Seq<char>>)
    requires
        expose_err_count(items, unames) == 0,
    ensures
        expose_acc(items, unames) == items,
    decreases items.len(),
{
    if items.len() > 0 {
        let pre = items.drop_last();
        lemma_expose_err_nonneg(pre, unames);
        lemma_expose_acc_exact(pre, unames);
        assert(expose_acc(items, unames) =~= items);
    }
}

/// Round trip through the frontend: lowering a valid AST yields a module
/// whose unit names are exactly the `unit` names of the source, in order,
/// and whose expose map binds exactly the pragmas used in the source.
/// The token half is `parser`'s contract: on an error-free parse the
/// items are exactly the stream's top-level derivations (`sp_top`).
pub proof fn lemma_round_trip_frontend(av: Seq<ASTV>)
    requires
        lower_err_count(av) == 0,
    ensures
        lus_names(lowered_module(av).units) == item_names(unit_items(av)),
        lowered_module(av).expose == expose_items(av),
{
    let items = unit_items(av);
    let unames = item_names(items);
    lemma_phase1_nonneg(items);
    lemma_expose_err_nonneg(expose_items(av), unames);
    lemma_phase3_nonneg(lowered_units(items), unames);
    lemma_lowered_units_exact(items);
    lemma_expose_acc_exact(expose_items(av), unames);
}

fn dup_env(f: &EnvCommand) -> (r: EnvCommand)
    ensures
        r.deep_view() == f.deep_view(),
{
    match f {
        EnvCommand::SetVar(k, v) => EnvCommand::SetVar(k.duplicate(), v.duplicate()),
        EnvCommand::RemoveVar(k) => EnvCommand::RemoveVar(k.duplicate()),
        EnvCommand::PathPush(p) => EnvCommand::PathPush(p.duplicate()),
        EnvCommand::PathRemove(p) => EnvCommand::PathRemove(p.duplicate()),
    }
}

} // verus!
