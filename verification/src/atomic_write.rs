//! Replacing a file as a whole: the new contents go to a file of their own,
//! which then takes the place of the old one.
use vstd::prelude::*;
use vstd::string::StringExecFns;
use crate::text::{decimal, decimal_text};

verus! {

/// How many names for the temporary file are tried.
pub const MAX_ATTEMPTS: u32 = 64;

/// The name of the temporary file.
pub open spec fn temp_name(file: Seq<char>, pid: nat, time: nat, attempt: nat) -> Seq<char> {
    "."@ + file + "."@ + decimal(pid) + "."@ + decimal(time) + "."@ + decimal(attempt) + ".tmp"@
}

/// The name of the temporary file for the file called `file`.
pub fn make_temp_name(file: &str, pid: u32, time: u128, attempt: u32) -> (r: String)
    ensures
        r@ == temp_name(file@, pid as nat, time as nat, attempt as nat),
{
    let mut s = String::from_str(".");
    s.append(file);
    s.append(".");
    s.append(decimal_text(pid as u128).as_str());
    s.append(".");
    s.append(decimal_text(time).as_str());
    s.append(".");
    s.append(decimal_text(attempt as u128).as_str());
    s.append(".tmp");
    s
}

proof fn lemma_decimal_distinct(a: nat, b: nat)
    requires
        a != b,
    ensures
        decimal(a) != decimal(b),
    decreases a,
{
    if decimal(a) == decimal(b) {
        let (x, y) = (decimal(a), decimal(b));
        assert(x.last() == y.last());
        if a >= 10 && b >= 10 {
            assert(x.drop_last() =~= decimal(a / 10));
            assert(y.drop_last() =~= decimal(b / 10));
            assert(a % 10 == b % 10);
            assert(a / 10 != b / 10);
            lemma_decimal_distinct(a / 10, b / 10);
        } else if a >= 10 {
            lemma_decimal_len(a / 10);
            assert(x.len() == y.len());
        } else if b >= 10 {
            lemma_decimal_len(b / 10);
            assert(x.len() == y.len());
        }
    }
}

proof fn lemma_decimal_len(n: nat)
    ensures
        decimal(n).len() > 0,
{
}

/// Every attempt tries another name.
pub proof fn law_attempts_differ(file: Seq<char>, pid: nat, time: nat, a: nat, b: nat)
    requires
        a != b,
    ensures
        temp_name(file, pid, time, a) != temp_name(file, pid, time, b),
{
    lemma_decimal_distinct(a, b);
    let head = "."@ + file + "."@ + decimal(pid) + "."@ + decimal(time) + "."@;
    let tail = ".tmp"@;
    let (x, y) = (head + decimal(a) + tail, head + decimal(b) + tail);
    if x == y {
        let n = head.len() as int;
        assert(x.len() == y.len());
        assert(decimal(a) =~= x.subrange(n, n + decimal(a).len()));
        assert(decimal(b) =~= y.subrange(n, n + decimal(b).len()));
        assert(false);
    }
}

/// What replacing a file came to.
#[derive(Debug, Clone, Copy, PartialEq, Eq, Structural)]
pub enum WriteOutcome {
    /// The file has the new contents.
    Written,
    /// The operation that failed last says why the file was not replaced.
    Failed,
    /// No name was free for the temporary file.
    NoName,
}

/// The next operation on files.
#[derive(Debug, Clone, Copy, PartialEq, Eq, Structural)]
pub enum WriteAction {
    /// Create the temporary file, which must not be there yet.
    CreateTemp { attempt: u32 },
    /// Write the new contents to it and bring them to storage.
    WriteTemp,
    /// Let it take the place of the file.
    RenameTemp,
    /// See whether the file is there.
    CheckTarget,
    /// Remove the file.
    RemoveTarget,
    /// Let the temporary file take the place that was cleared.
    RenameOver,
    /// Remove the temporary file.
    RemoveTemp,
    /// Report.
    Finish(WriteOutcome),
}

/// What came of an operation.
#[derive(Debug, Clone, Copy, PartialEq, Eq, Structural)]
pub enum WriteEvent {
    Done,
    /// A file of that name is there.
    NameTaken,
    /// The file may not be replaced like this.
    Refused,
    /// Another failure.
    Failed,
    /// Whether the file is there.
    TargetExists(bool),
}

impl WriteAction {
    /// What to do once an operation was carried out. An event that the
    /// operation cannot have changes nothing.
    pub open spec fn after(self, event: WriteEvent) -> WriteAction {
        match (self, event) {
            (WriteAction::CreateTemp { attempt }, WriteEvent::Done) => WriteAction::WriteTemp,
            (WriteAction::CreateTemp { attempt }, WriteEvent::NameTaken) => if attempt + 1
                < MAX_ATTEMPTS {
                WriteAction::CreateTemp { attempt: (attempt + 1) as u32 }
            } else {
                WriteAction::Finish(WriteOutcome::NoName)
            },
            (WriteAction::CreateTemp { attempt }, WriteEvent::Failed) => WriteAction::Finish(
                WriteOutcome::Failed,
            ),
            (WriteAction::WriteTemp, WriteEvent::Done) => WriteAction::RenameTemp,
            (WriteAction::WriteTemp, WriteEvent::Failed) => WriteAction::RemoveTemp,
            (WriteAction::RenameTemp, WriteEvent::Done) => WriteAction::Finish(
                WriteOutcome::Written,
            ),
            (WriteAction::RenameTemp, WriteEvent::Refused) => WriteAction::CheckTarget,
            (WriteAction::RenameTemp, WriteEvent::Failed) => WriteAction::RemoveTemp,
            (WriteAction::CheckTarget, WriteEvent::TargetExists(there)) => if there {
                WriteAction::RemoveTarget
            } else {
                WriteAction::RemoveTemp
            },
            (WriteAction::RemoveTarget, WriteEvent::Done) => WriteAction::RenameOver,
            (WriteAction::RemoveTarget, WriteEvent::Failed) => WriteAction::Finish(
                WriteOutcome::Failed,
            ),
            (WriteAction::RenameOver, WriteEvent::Done) => WriteAction::Finish(
                WriteOutcome::Written,
            ),
            (WriteAction::RenameOver, WriteEvent::Failed) => WriteAction::Finish(
                WriteOutcome::Failed,
            ),
            (WriteAction::RemoveTemp, _) => WriteAction::Finish(WriteOutcome::Failed),
            _ => self,
        }
    }

    /// What to do once a number of operations were carried out.
    pub open spec fn after_all(self, events: Seq<WriteEvent>) -> WriteAction
        decreases events.len(),
    {
        if events.len() == 0 {
            self
        } else {
            self.after_all(events.drop_last()).after(events.last())
        }
    }

    /// The first operation.
    pub fn first() -> (r: WriteAction)
        ensures
            r == (WriteAction::CreateTemp { attempt: 0 }),
    {
        WriteAction::CreateTemp { attempt: 0 }
    }

    /// What to do once an operation was carried out.
    pub fn next(&self, event: WriteEvent) -> (r: WriteAction)
        ensures
            r == self.after(event),
    {
        match (*self, event) {
            (WriteAction::CreateTemp { .. }, WriteEvent::Done) => WriteAction::WriteTemp,
            (WriteAction::CreateTemp { attempt }, WriteEvent::NameTaken) => if attempt
                < MAX_ATTEMPTS - 1 {
                WriteAction::CreateTemp { attempt: attempt + 1 }
            } else {
                WriteAction::Finish(WriteOutcome::NoName)
            },
            (WriteAction::CreateTemp { .. }, WriteEvent::Failed) => WriteAction::Finish(
                WriteOutcome::Failed,
            ),
            (WriteAction::WriteTemp, WriteEvent::Done) => WriteAction::RenameTemp,
            (WriteAction::WriteTemp, WriteEvent::Failed) => WriteAction::RemoveTemp,
            (WriteAction::RenameTemp, WriteEvent::Done) => WriteAction::Finish(
                WriteOutcome::Written,
            ),
            (WriteAction::RenameTemp, WriteEvent::Refused) => WriteAction::CheckTarget,
            (WriteAction::RenameTemp, WriteEvent::Failed) => WriteAction::RemoveTemp,
            (WriteAction::CheckTarget, WriteEvent::TargetExists(there)) => if there {
                WriteAction::RemoveTarget
            } else {
                WriteAction::RemoveTemp
            },
            (WriteAction::RemoveTarget, WriteEvent::Done) => WriteAction::RenameOver,
            (WriteAction::RemoveTarget, WriteEvent::Failed) => WriteAction::Finish(
                WriteOutcome::Failed,
            ),
            (WriteAction::RenameOver, WriteEvent::Done) => WriteAction::Finish(
                WriteOutcome::Written,
            ),
            (WriteAction::RenameOver, WriteEvent::Failed) => WriteAction::Finish(
                WriteOutcome::Failed,
            ),
            (WriteAction::RemoveTemp, _) => WriteAction::Finish(WriteOutcome::Failed),
            _ => *self,
        }
    }
}

/// Operation `k` was `action`, and it succeeded.
pub open spec fn succeeded(events: Seq<WriteEvent>, k: int, action: WriteAction) -> bool {
    &&& 0 <= k < events.len()
    &&& (WriteAction::CreateTemp { attempt: 0 }).after_all(events.take(k)) == action
    &&& events[k] == WriteEvent::Done
}

/// The operations that stand between a complete temporary file and the end.
pub open spec fn is_complete(action: WriteAction) -> bool {
    ||| action == WriteAction::RenameTemp
    ||| action == WriteAction::CheckTarget
    ||| action == WriteAction::RemoveTarget
    ||| action == WriteAction::RenameOver
    ||| action == WriteAction::Finish(WriteOutcome::Written)
}

proof fn lemma_write(events: Seq<WriteEvent>)
    ensures
        ({
            let a = (WriteAction::CreateTemp { attempt: 0 }).after_all(events);
            &&& a matches WriteAction::CreateTemp { attempt } ==> attempt < MAX_ATTEMPTS
            &&& is_complete(a) ==> exists|k: int| #[trigger]
                succeeded(events, k, WriteAction::WriteTemp)
            &&& a == WriteAction::Finish(WriteOutcome::Written) ==> exists|k: int|
                #![trigger events[k]]
                succeeded(events, k, WriteAction::RenameTemp) || succeeded(
                    events,
                    k,
                    WriteAction::RenameOver,
                )
        }),
    decreases events.len(),
{
    let start = WriteAction::CreateTemp { attempt: 0 };
    if events.len() > 0 {
        let before = events.drop_last();
        lemma_write(before);
        let b = start.after_all(before);
        let a = start.after_all(events);
        let n = events.len() - 1;
        assert(events.take(n) =~= before);
        assert(events[n] == events.last());
        if is_complete(b) {
            let k = choose|k: int| #[trigger] succeeded(before, k, WriteAction::WriteTemp);
            assert(events.take(k) =~= before.take(k));
            assert(succeeded(events, k, WriteAction::WriteTemp));
        }
        if b == WriteAction::WriteTemp && events.last() == WriteEvent::Done {
            assert(succeeded(events, n, WriteAction::WriteTemp));
        }
        if b == WriteAction::Finish(WriteOutcome::Written) {
            let k = choose|k: int|
                #![trigger before[k]]
                succeeded(before, k, WriteAction::RenameTemp) || succeeded(
                    before,
                    k,
                    WriteAction::RenameOver,
                );
            assert(events.take(k) =~= before.take(k));
            assert(events[k] == before[k]);
        }
    }
}

/// A file is reported as replaced only after its new contents were completely
/// written to the temporary file and that file took its place. No more than
/// the given number of names is tried.
pub proof fn law_replaced_as_a_whole(events: Seq<WriteEvent>)
    ensures
        ({
            let a = (WriteAction::CreateTemp { attempt: 0 }).after_all(events);
            &&& a matches WriteAction::CreateTemp { attempt } ==> attempt < MAX_ATTEMPTS
            &&& a == WriteAction::Finish(WriteOutcome::Written) ==> {
                &&& exists|k: int| #[trigger] succeeded(events, k, WriteAction::WriteTemp)
                &&& exists|k: int|
                    #![trigger events[k]]
                    succeeded(events, k, WriteAction::RenameTemp) || succeeded(
                        events,
                        k,
                        WriteAction::RenameOver,
                    )
            }
        }),
{
    lemma_write(events);
}

/// `n` names in a row are taken.
pub open spec fn taken(n: nat) -> Seq<WriteEvent> {
    Seq::new(n, |_i: int| WriteEvent::NameTaken)
}

proof fn lemma_taken(n: nat)
    requires
        n <= 64,
    ensures
        (WriteAction::CreateTemp { attempt: 0 }).after_all(taken(n)) == if n < 64 {
            WriteAction::CreateTemp { attempt: n as u32 }
        } else {
            WriteAction::Finish(WriteOutcome::NoName)
        },
    decreases n,
{
    if n > 0 {
        lemma_taken((n - 1) as nat);
        assert(taken(n).drop_last() =~= taken((n - 1) as nat));
    }
}

/// How a file is replaced. Names are tried until one is free, 64 at most. The
/// temporary file is then written and takes the place of the file; where that is
/// refused and the file is there, the file is removed first.
///
/// Where the temporary file cannot be written or cannot take its place, it is
/// removed, and the failure is reported. Once the file was to be removed, the
/// temporary file holds the only copy and is left.
pub proof fn law_replacing(n: nat, any: WriteEvent)
    requires
        n < 64,
    ensures
        ({
            let start = WriteAction::CreateTemp { attempt: 0 };
            let create = start.after_all(taken(n));
            let write = create.after(WriteEvent::Done);
            let rename = write.after(WriteEvent::Done);
            let check = rename.after(WriteEvent::Refused);
            let clear = check.after(WriteEvent::TargetExists(true));
            let over = clear.after(WriteEvent::Done);
            let written = WriteAction::Finish(WriteOutcome::Written);
            let failed = WriteAction::Finish(WriteOutcome::Failed);
            &&& create == WriteAction::CreateTemp { attempt: n as u32 }
            &&& create.after(WriteEvent::Failed) == failed
            &&& write == WriteAction::WriteTemp
            &&& write.after(WriteEvent::Failed) == WriteAction::RemoveTemp
            &&& rename == WriteAction::RenameTemp
            &&& rename.after(WriteEvent::Done) == written
            &&& rename.after(WriteEvent::Failed) == WriteAction::RemoveTemp
            &&& check == WriteAction::CheckTarget
            &&& check.after(WriteEvent::TargetExists(false)) == WriteAction::RemoveTemp
            &&& clear == WriteAction::RemoveTarget
            &&& clear.after(WriteEvent::Failed) == failed
            &&& over == WriteAction::RenameOver
            &&& over.after(WriteEvent::Done) == written
            &&& over.after(WriteEvent::Failed) == failed
            &&& WriteAction::RemoveTemp.after(any) == failed
            &&& written.after(any) == written
            &&& failed.after(any) == failed
        }),
        (WriteAction::CreateTemp { attempt: 0 }).after_all(taken(64)) == WriteAction::Finish(
            WriteOutcome::NoName,
        ),
{
    lemma_taken(n);
    lemma_taken(64);
}

} // verus!
