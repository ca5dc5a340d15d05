//! What the command-line tools decide before they act, and what they say
//! about what happened.
use vstd::prelude::*;
use vstd::string::StringExecFns;
use crate::area_scan::PropAreaObjectKind;
use crate::name_order::names_of;
use crate::text::{chars_of, decimal, decimal_text, split_at_first, split_first, text_of};

verus! {

/// Whether problems with single areas are told about while many are listed.
#[derive(Debug, Clone, Copy, PartialEq, Eq, Structural)]
pub enum ErrorOutputMode {
    /// As the platform has it.
    Auto,
    On,
    Off,
}

impl ErrorOutputMode {
    /// Whether problems are told about on a platform with the given default.
    pub fn enabled(self, auto_enabled: bool) -> (r: bool)
        ensures
            r == (self == ErrorOutputMode::On || (self == ErrorOutputMode::Auto && auto_enabled)),
    {
        match self {
            ErrorOutputMode::Auto => auto_enabled,
            ErrorOutputMode::On => true,
            ErrorOutputMode::Off => false,
        }
    }
}

/// What a kind of object is called.
pub open spec fn kind_label(kind: PropAreaObjectKind) -> Seq<char> {
    match kind {
        PropAreaObjectKind::TrieNode => "trie-node"@,
        PropAreaObjectKind::DirtyBackup => "dirty-backup"@,
        PropAreaObjectKind::PropInfo => "prop-info"@,
        PropAreaObjectKind::LongValue => "long-value"@,
    }
}

/// What a kind of object is called.
pub fn object_kind_name(kind: PropAreaObjectKind) -> (r: &'static str)
    ensures
        r@ == kind_label(kind),
{
    match kind {
        PropAreaObjectKind::TrieNode => "trie-node",
        PropAreaObjectKind::DirtyBackup => "dirty-backup",
        PropAreaObjectKind::PropInfo => "prop-info",
        PropAreaObjectKind::LongValue => "long-value",
    }
}

/// How an area is chosen.
#[derive(Debug, Clone, Copy, PartialEq, Eq, Structural)]
pub enum AreaChoice {
    ByContext,
    ByPath,
}

/// How an area is chosen: by a context or by a path, not by both.
pub fn choose_area(context: bool, path: bool) -> (r: core::result::Result<AreaChoice, &'static str>)
    ensures
        match r {
            Ok(c) => context != path && c == (if context {
                AreaChoice::ByContext
            } else {
                AreaChoice::ByPath
            }),
            Err(e) => context == path && e@ == (if context {
                "area: --context and --path are mutually exclusive"@
            } else {
                "area: exactly one of --context or --path is required"@
            }),
        },
{
    match (context, path) {
        (true, false) => Ok(AreaChoice::ByContext),
        (false, true) => Ok(AreaChoice::ByPath),
        (false, false) => Err("area: exactly one of --context or --path is required"),
        (true, true) => Err("area: --context and --path are mutually exclusive"),
    }
}

/// The key and the value of an assignment `key=value`. The key is not empty
/// and ends at the first `=`.
pub fn parse_assignment(input: &str) -> (r: core::result::Result<(String, String), &'static str>)
    ensures
        match (r, split_first(input@, '=')) {
            (Err(e), None) => e@ == "assignment must be in key=value form"@,
            (Err(e), Some((key, value))) => key.len() == 0 && e@ == "key must not be empty"@,
            (Ok((k, v)), Some((key, value))) => key.len() > 0 && k@ == key && v@ == value,
            (Ok(_), None) => false,
        },
{
    let chars = chars_of(input);
    match split_at_first(chars.as_slice(), '=') {
        None => Err("assignment must be in key=value form"),
        Some((key, value)) => {
            if key.len() == 0 {
                return Err("key must not be empty");
            }
            Ok((text_of(key), text_of(value)))
        },
    }
}

/// What `resetprop` does.
#[derive(Debug, Clone, Copy, PartialEq, Eq, Structural)]
pub enum ResetMode {
    Wait,
    LoadFile,
    Delete,
    Compact,
    Assign,
    Get,
    List,
}

/// Which arguments were given to `resetprop`.
#[derive(Debug, Clone, Copy, PartialEq, Eq, Structural)]
pub struct ResetArgs {
    pub wait: bool,
    pub delete: bool,
    pub compact: bool,
    pub file: bool,
    pub name: bool,
    pub value: bool,
}

impl ResetArgs {
    /// More than one special mode is asked for.
    pub open spec fn ambiguous(self) -> bool {
        ||| self.wait && (self.file || self.delete || self.compact)
        ||| self.file && (self.delete || self.compact)
        ||| self.delete && self.compact
    }

    /// What is done, where the arguments make sense.
    pub open spec fn mode(self) -> core::result::Result<ResetMode, Seq<char>> {
        if self.ambiguous() {
            Err("multiple operation modes detected"@)
        } else if self.wait {
            if self.name {
                Ok(ResetMode::Wait)
            } else {
                Err("--wait requires a property name"@)
            }
        } else if self.file {
            Ok(ResetMode::LoadFile)
        } else if self.delete {
            if self.name {
                Ok(ResetMode::Delete)
            } else {
                Err("--delete requires a property name"@)
            }
        } else if self.compact {
            Ok(ResetMode::Compact)
        } else if self.name {
            Ok(
                if self.value {
                    ResetMode::Assign
                } else {
                    ResetMode::Get
                },
            )
        } else if self.value {
            Err("property name is required"@)
        } else {
            Ok(ResetMode::List)
        }
    }

    /// What is done, or a complaint about the arguments.
    pub fn choose_mode(&self) -> (r: core::result::Result<ResetMode, &'static str>)
        ensures
            match (r, self.mode()) {
                (Ok(a), Ok(b)) => a == b,
                (Err(a), Err(b)) => a@ == b,
                _ => false,
            },
    {
        if (self.wait && (self.file || self.delete || self.compact)) || (self.file && (self.delete
            || self.compact)) || (self.delete && self.compact) {
            return Err("multiple operation modes detected");
        }
        if self.wait {
            return if self.name {
                Ok(ResetMode::Wait)
            } else {
                Err("--wait requires a property name")
            };
        }
        if self.file {
            return Ok(ResetMode::LoadFile);
        }
        if self.delete {
            return if self.name {
                Ok(ResetMode::Delete)
            } else {
                Err("--delete requires a property name")
            };
        }
        if self.compact {
            return Ok(ResetMode::Compact);
        }
        match (self.name, self.value) {
            (true, true) => Ok(ResetMode::Assign),
            (true, false) => Ok(ResetMode::Get),
            (false, false) => Ok(ResetMode::List),
            (false, true) => Err("property name is required"),
        }
    }
}

/// A special mode is chosen exactly where its flag is given. Without such a flag
/// a name with a value is set, a name alone is looked up, and without either all
/// properties are listed.
///
/// The choice fails exactly where two flags are given, where a name is missing
/// that the flag asks for, and where there is a value without a name; the message
/// says which.
pub proof fn law_reset_mode(a: ResetArgs)
    ensures
        ({
            let special = a.wait || a.file || a.delete || a.compact;
            let twice = (a.wait && a.file) || (a.wait && a.delete) || (a.wait && a.compact) || (
            a.file && a.delete) || (a.file && a.compact) || (a.delete && a.compact);
            let nameless = !a.name && (a.wait || a.delete || (a.value && !special));
            &&& a.mode() matches Ok(m) ==> {
                &&& m == ResetMode::Wait <==> a.wait
                &&& m == ResetMode::LoadFile <==> a.file
                &&& m == ResetMode::Delete <==> a.delete
                &&& m == ResetMode::Compact <==> a.compact
                &&& m == ResetMode::Assign <==> !special && a.name && a.value
                &&& m == ResetMode::Get <==> !special && a.name && !a.value
                &&& m == ResetMode::List <==> !special && !a.name && !a.value
            }
            &&& a.mode() is Err <==> twice || nameless
            &&& a.mode() matches Err(e) ==> e == (if twice {
                "multiple operation modes detected"@
            } else if a.wait {
                "--wait requires a property name"@
            } else if a.delete {
                "--delete requires a property name"@
            } else {
                "property name is required"@
            })
        }),
{
}

/// What is looked at in a property.
#[derive(Debug, Clone, Copy, PartialEq, Eq, Structural)]
pub enum Inspection {
    /// The parts of its serial.
    Serial,
    /// The file of its area.
    AreaPath,
    /// The place of its value.
    Slot,
    /// The allocations of its area.
    Allocations,
}

/// Which arguments were given to the inspection helper.
#[derive(Debug, Clone, Copy, PartialEq, Eq, Structural)]
pub struct InspectArgs {
    pub serial: bool,
    pub area_path: bool,
    pub slot: bool,
    pub scan: bool,
    pub name: bool,
    pub value: bool,
}

impl InspectArgs {
    /// How many inspections are asked for.
    pub open spec fn modes(self) -> int {
        (if self.serial {
            1int
        } else {
            0
        }) + (if self.area_path {
            1int
        } else {
            0
        }) + (if self.slot {
            1int
        } else {
            0
        }) + (if self.scan {
            1int
        } else {
            0
        })
    }

    /// What is looked at, where the arguments make sense.
    pub open spec fn inspection(self) -> core::result::Result<Inspection, Seq<char>> {
        if self.modes() != 1 {
            Err("exactly one inspection mode is required"@)
        } else if !self.name {
            Err("an inspection mode requires a property name"@)
        } else if self.value {
            Err("inspection commands do not accept a property value"@)
        } else if self.serial {
            Ok(Inspection::Serial)
        } else if self.area_path {
            Ok(Inspection::AreaPath)
        } else if self.slot {
            Ok(Inspection::Slot)
        } else {
            Ok(Inspection::Allocations)
        }
    }

    /// What is looked at, or a complaint about the arguments.
    pub fn choose_inspection(&self) -> (r: core::result::Result<Inspection, &'static str>)
        ensures
            match (r, self.inspection()) {
                (Ok(a), Ok(b)) => a == b,
                (Err(a), Err(b)) => a@ == b,
                _ => false,
            },
    {
        let chosen = match (self.serial, self.area_path, self.slot, self.scan) {
            (true, false, false, false) => Inspection::Serial,
            (false, true, false, false) => Inspection::AreaPath,
            (false, false, true, false) => Inspection::Slot,
            (false, false, false, true) => Inspection::Allocations,
            _ => return Err("exactly one inspection mode is required"),
        };
        if !self.name {
            return Err("an inspection mode requires a property name");
        }
        if self.value {
            return Err("inspection commands do not accept a property value");
        }
        Ok(chosen)
    }
}

/// What is looked at is what the one flag that is given asks for.
///
/// The choice fails exactly where no flag or more than one is given, where there
/// is no name, and where there is a value; the message says which.
pub proof fn law_inspection(a: InspectArgs)
    ensures
        ({
            let twice = (a.serial && a.area_path) || (a.serial && a.slot) || (a.serial && a.scan)
                || (a.area_path && a.slot) || (a.area_path && a.scan) || (a.slot && a.scan);
            let none = !a.serial && !a.area_path && !a.slot && !a.scan;
            &&& a.inspection() matches Ok(i) ==> {
                &&& i == Inspection::Serial <==> a.serial
                &&& i == Inspection::AreaPath <==> a.area_path
                &&& i == Inspection::Slot <==> a.slot
                &&& i == Inspection::Allocations <==> a.scan
            }
            &&& a.inspection() is Err <==> twice || none || !a.name || a.value
            &&& a.inspection() matches Err(e) ==> e == (if twice || none {
                "exactly one inspection mode is required"@
            } else if !a.name {
                "an inspection mode requires a property name"@
            } else {
                "inspection commands do not accept a property value"@
            })
        }),
{
}

/// The update counter and the length in the serial of a property.
pub fn serial_parts(serial: u32) -> (r: (u32, u32))
    ensures
        r.0 == serial % 0x100_0000,
        r.1 == serial / 0x100_0000,
{
    (serial % 0x100_0000, serial / 0x100_0000)
}

/// The line that shows a property, behind the context where one is given.
pub open spec fn property_text(
    context: Option<Seq<char>>,
    name: Seq<char>,
    value: Seq<char>,
) -> Seq<char> {
    match context {
        Some(c) => "["@ + c + "] "@ + name + "="@ + value,
        None => name + "="@ + value,
    }
}

/// The line that shows a property, behind the context where one is given.
pub fn property_line(context: Option<&str>, name: &str, value: &str) -> (r: String)
    ensures
        r@ == property_text(
            match context {
                Some(c) => Some(c@),
                None => None,
            },
            name@,
            value@,
        ),
{
    let mut s = match context {
        Some(c) => {
            let mut s = String::from_str("[");
            s.append(c);
            s.append("] ");
            s.append(name);
            s
        },
        None => name.to_owned(),
    };
    s.append("=");
    s.append(value);
    s
}

/// Why an area could not be listed.
#[derive(Debug, Clone, PartialEq, Eq)]
pub enum OpenFailure {
    /// It may not be read.
    Denied,
    /// It is not there.
    Missing,
    /// Something else, which the message tells.
    Other(String),
}

/// How many of the first `n` failures are for want of permission.
pub open spec fn denied_count(failures: Seq<OpenFailure>, n: int) -> nat
    decreases n,
{
    if n <= 0 {
        0
    } else {
        denied_count(failures, n - 1) + (if failures[n - 1] is Denied {
            1nat
        } else {
            0
        })
    }
}

/// How many of the first `n` failures are for want of the area.
pub open spec fn missing_count(failures: Seq<OpenFailure>, n: int) -> nat
    decreases n,
{
    if n <= 0 {
        0
    } else {
        missing_count(failures, n - 1) + (if failures[n - 1] is Missing {
            1nat
        } else {
            0
        })
    }
}

/// The messages of the other ones among the first `n` failures.
pub open spec fn messages(failures: Seq<OpenFailure>, n: int) -> Seq<Seq<char>>
    decreases n,
{
    if n <= 0 {
        seq![]
    } else {
        match failures[n - 1] {
            OpenFailure::Other(m) => messages(failures, n - 1).push(m@),
            _ => messages(failures, n - 1),
        }
    }
}

/// `m` as a warning.
pub open spec fn warning(m: Seq<char>) -> Seq<char> {
    "warning: "@ + m
}

/// What is told about areas that could not be listed: how many could not be
/// read or are missing, and the first three of the other problems.
pub open spec fn notes(failures: Seq<OpenFailure>) -> Seq<Seq<char>> {
    let n = failures.len() as int;
    let denied = denied_count(failures, n);
    let missing = missing_count(failures, n);
    let others = messages(failures, n);
    let shown = if others.len() < 3 {
        others.len() as int
    } else {
        3
    };
    (if denied > 0 {
        seq!["note: skipped "@ + decimal(denied) + " prop area(s) due to permission denied"@]
    } else {
        seq![]
    }) + (if missing > 0 {
        seq!["note: skipped "@ + decimal(missing) + " prop area(s) that do not exist"@]
    } else {
        seq![]
    }) + others.take(shown).map_values(|m: Seq<char>| warning(m)) + (if others.len() > 3 {
        seq![
            "warning: suppressed "@ + decimal((others.len() - 3) as nat)
                + " additional prop area error(s)"@,
        ]
    } else {
        seq![]
    })
}

fn note(before: &str, n: usize, after: &str) -> (r: String)
    ensures
        r@ == before@ + decimal(n as nat) + after@,
{
    let mut s = before.to_owned();
    s.append(decimal_text(n as u128).as_str());
    s.append(after);
    s
}

fn push_note(list: &mut Vec<String>, s: String)
    ensures
        names_of(final(list)@) == names_of(old(list)@).push(s@),
{
    let ghost v = s@;
    list.push(s);
    proof {
        assert(names_of(list@) =~= names_of(old(list)@).push(v));
    }
}

/// What is told about areas that could not be listed.
pub fn failure_notes(failures: &Vec<OpenFailure>) -> (r: Vec<String>)
    ensures
        names_of(r@) == notes(failures@),
{
    let mut denied: usize = 0;
    let mut missing: usize = 0;
    let mut others: usize = 0;
    let mut warnings: Vec<String> = Vec::new();
    let mut i: usize = 0;
    let ghost all = failures@;
    proof {
        assert(names_of(warnings@) =~= messages(all, 0).take(0).map_values(
            |m: Seq<char>| warning(m),
        ));
    }
    while i < failures.len()
        invariant
            i <= failures@.len(),
            all == failures@,
            denied == denied_count(all, i as int),
            missing == missing_count(all, i as int),
            others == messages(all, i as int).len(),
            denied + missing + others == i,
            names_of(warnings@) == messages(all, i as int).take(
                if others < 3 {
                    others as int
                } else {
                    3
                },
            ).map_values(|m: Seq<char>| warning(m)),
        decreases failures@.len() - i,
    {
        let ghost seen = messages(all, i as int);
        match &failures[i] {
            OpenFailure::Denied => {
                denied = denied + 1;
            },
            OpenFailure::Missing => {
                missing = missing + 1;
            },
            OpenFailure::Other(m) => {
                if others < 3 {
                    let mut w = String::from_str("warning: ");
                    w.append(m.as_str());
                    push_note(&mut warnings, w);
                }
                others = others + 1;
                proof {
                    assert(messages(all, i + 1) == seen.push(m@));
                    assert(names_of(warnings@) =~= messages(all, i + 1).take(
                        if others < 3 {
                            others as int
                        } else {
                            3
                        },
                    ).map_values(|m: Seq<char>| warning(m)));
                }
            },
        }
        i = i + 1;
    }
    let mut out: Vec<String> = Vec::new();
    if denied > 0 {
        push_note(
            &mut out,
            note("note: skipped ", denied, " prop area(s) due to permission denied"),
        );
    }
    let ghost n1 = names_of(out@);
    if missing > 0 {
        push_note(&mut out, note("note: skipped ", missing, " prop area(s) that do not exist"));
    }
    let ghost n2 = names_of(out@);
    let ghost told = names_of(warnings@);
    out.append(&mut warnings);
    proof {
        assert(names_of(out@) =~= n2 + told);
    }
    if others > 3 {
        push_note(
            &mut out,
            note("warning: suppressed ", others - 3, " additional prop area error(s)"),
        );
    }
    proof {
        assert(names_of(out@) =~= notes(failures@));
    }
    out
}

/// The name of a property, its value, and the context where one is given, can be
/// told apart in the line that shows them by where they stand.
pub proof fn law_property_line(context: Seq<char>, name: Seq<char>, value: Seq<char>)
    ensures
        ({
            let bare = property_text(None, name, value);
            let full = property_text(Some(context), name, value);
            let n = name.len() as int;
            let c = context.len() as int;
            &&& bare.take(n) == name
            &&& bare[n] == '='
            &&& bare.skip(n + 1) == value
            &&& full[0] == '['
            &&& full.subrange(1, 1 + c) == context
            &&& full.subrange(1 + c, 3 + c) == seq![']', ' ']
            &&& full.skip(3 + c) == bare
        }),
{
    reveal_strlit("=");
    reveal_strlit("[");
    reveal_strlit("] ");
    let bare = property_text(None, name, value);
    let full = property_text(Some(context), name, value);
    let n = name.len() as int;
    let c = context.len() as int;
    assert(bare.take(n) =~= name);
    assert(bare.skip(n + 1) =~= value);
    assert(full.subrange(1, 1 + c) =~= context);
    assert(full.subrange(1 + c, 3 + c) =~= seq![']', ' ']);
    assert(full.skip(3 + c) =~= bare);
}

/// No two kinds of objects are called the same.
pub proof fn law_kind_names(a: PropAreaObjectKind, b: PropAreaObjectKind)
    ensures
        kind_label(a) == kind_label(b) ==> a == b,
        kind_label(PropAreaObjectKind::TrieNode) == "trie-node"@,
        kind_label(PropAreaObjectKind::DirtyBackup) == "dirty-backup"@,
        kind_label(PropAreaObjectKind::PropInfo) == "prop-info"@,
        kind_label(PropAreaObjectKind::LongValue) == "long-value"@,
{
    reveal_strlit("trie-node");
    reveal_strlit("dirty-backup");
    reveal_strlit("prop-info");
    reveal_strlit("long-value");
    assert("trie-node"@.len() == 9 && "dirty-backup"@.len() == 12);
    assert("prop-info"@.len() == 9 && "long-value"@.len() == 10);
    assert("prop-info"@[0] == 'p' && "trie-node"@[0] == 't');
}

proof fn lemma_counts(failures: Seq<OpenFailure>, n: int)
    requires
        0 <= n <= failures.len(),
    ensures
        denied_count(failures, n) == failures.take(n).filter(|f: OpenFailure| f is Denied).len(),
        missing_count(failures, n) == failures.take(n).filter(|f: OpenFailure| f is Missing).len(),
        messages(failures, n) == failures.take(n).filter(|f: OpenFailure| f is Other).map_values(
            |f: OpenFailure| f->Other_0@,
        ),
    decreases n,
{
    reveal(Seq::filter);
    let t = failures.take(n);
    if n > 0 {
        lemma_counts(failures, n - 1);
        assert(t.drop_last() =~= failures.take(n - 1));
        assert(t.last() == failures[n - 1]);
        let others = |f: OpenFailure| f is Other;
        let shown = |f: OpenFailure| f->Other_0@;
        if failures[n - 1] is Other {
            assert(t.drop_last().filter(others).push(t.last()).map_values(shown)
                =~= t.drop_last().filter(others).map_values(shown).push(shown(t.last())));
        }
        assert(messages(failures, n) =~= t.filter(others).map_values(shown));
    } else {
        assert(t =~= Seq::<OpenFailure>::empty());
        assert(messages(failures, n) =~= t.filter(|f: OpenFailure| f is Other).map_values(
            |f: OpenFailure| f->Other_0@,
        ));
    }
}

/// What is told about areas that could not be listed: one note with the number of
/// those that may not be read, one with the number of those that are missing, the
/// messages of the first three others as warnings, and how many more there are.
/// Where nothing failed, nothing is told.
pub proof fn law_failure_notes(failures: Seq<OpenFailure>)
    ensures
        ({
            let denied = failures.filter(|f: OpenFailure| f is Denied).len();
            let missing = failures.filter(|f: OpenFailure| f is Missing).len();
            let others = failures.filter(|f: OpenFailure| f is Other);
            let told = notes(failures);
            let a: int = if denied > 0 {
                1
            } else {
                0
            };
            let b: int = a + if missing > 0 {
                1int
            } else {
                0
            };
            let shown: int = if others.len() < 3 {
                others.len() as int
            } else {
                3
            };
            &&& told.len() == b + shown + if others.len() > 3 {
                1int
            } else {
                0
            }
            &&& denied > 0 ==> told[0] == "note: skipped "@ + decimal(denied)
                + " prop area(s) due to permission denied"@
            &&& missing > 0 ==> told[a] == "note: skipped "@ + decimal(missing)
                + " prop area(s) that do not exist"@
            &&& forall|i: int|
                0 <= i < shown ==> told[b + i] == "warning: "@ + (#[trigger] others[i])->Other_0@
            &&& others.len() > 3 ==> told[b + 3] == "warning: suppressed "@ + decimal(
                (others.len() - 3) as nat,
            ) + " additional prop area error(s)"@
        }),
{
    lemma_counts(failures, failures.len() as int);
    assert(failures.take(failures.len() as int) =~= failures);
}

} // verus!
