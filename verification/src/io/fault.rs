//! Faults on purpose: which operation of a file system fails, and how.

use std::collections::VecDeque;

use vstd::prelude::*;

verus! {

/// A fault.
#[derive(Debug, Clone, Copy, PartialEq, Eq, Structural)]
pub enum FaultKind {
    /// The operation fails with an I/O error.
    Eio,
    /// The operation fails because the device is full.
    Enospc,
    /// The operation is delayed.
    Delay { delay_ms: u64 },
    /// Only a part of what is to be written is written. The part is a float, given by
    /// its bits.
    PartialWrite { factor_bits: u64 },
    /// Flushing fails with an I/O error.
    FsyncFail,
}

/// Kinds of operations.
#[derive(Debug, Clone, Copy, PartialEq, Eq, Structural)]
pub struct OpMask {
    pub read: bool,
    pub write: bool,
    pub sync_all: bool,
    pub sync_data: bool,
    pub set_len: bool,
}

/// A fault and when it happens.
#[derive(Debug, Clone, Copy, PartialEq, Eq, Structural)]
pub struct FaultRule {
    /// The operations that the rule is for.
    pub op_mask: OpMask,
    /// The fault.
    pub kind: FaultKind,
    /// The fault happens in every so many operations; in all of them where it is
    /// `None`.
    pub every_n: Option<u64>,
}

/// The rules, in order.
#[derive(Debug, Clone)]
pub struct FaultConfig {
    pub rules: Vec<FaultRule>,
}

impl Default for OpMask {
    fn default() -> (r: Self)
        ensures
            r == (OpMask {
                read: false,
                write: false,
                sync_all: false,
                sync_data: false,
                set_len: false,
            }),
    {
        OpMask { read: false, write: false, sync_all: false, sync_data: false, set_len: false }
    }
}

impl Default for FaultConfig {
    fn default() -> (r: Self)
        ensures
            r.rules@.len() == 0,
    {
        FaultConfig { rules: Vec::new() }
    }
}

/// Have the masks an operation in common?
pub open spec fn masks_meet(op: OpMask, mask: OpMask) -> bool {
    (op.read && mask.read) || (op.write && mask.write) || (op.sync_all && mask.sync_all) || (
    op.sync_data && mask.sync_data) || (op.set_len && mask.set_len)
}

/// Have the masks an operation in common?
pub fn matches_op(op: OpMask, mask: OpMask) -> (r: bool)
    ensures
        r == masks_meet(op, mask),
{
    (op.read && mask.read) || (op.write && mask.write) || (op.sync_all && mask.sync_all) || (
    op.sync_data && mask.sync_data) || (op.set_len && mask.set_len)
}

/// Is the rule for operation number `n` of this kind?
pub open spec fn rule_applies(rule: FaultRule, op: OpMask, n: u64) -> bool {
    masks_meet(op, rule.op_mask) && (rule.every_n matches Some(every) ==> n as int % every as int
        == 0)
}

/// The fault of the first rule that is for operation number `n`.
pub open spec fn first_fault(rules: Seq<FaultRule>, op: OpMask, n: u64) -> Option<FaultKind>
    decreases rules.len(),
{
    if rules.len() == 0 {
        None
    } else if rule_applies(rules[0], op, n) {
        Some(rules[0].kind)
    } else {
        first_fault(rules.skip(1), op, n)
    }
}

/// The fault of an operation is that of the first rule that is for it: a rule is for an
/// operation if both name one kind of operation, and the rule is for every operation or the
/// number of the operation is a multiple of what the rule counts by. There is no fault if
/// there is no such rule.
pub proof fn law_first_fault(rules: Seq<FaultRule>, op: OpMask, n: u64, i: int)
    requires
        0 <= i < rules.len(),
        (op.read && rules[i].op_mask.read) || (op.write && rules[i].op_mask.write) || (op.sync_all
            && rules[i].op_mask.sync_all) || (op.sync_data && rules[i].op_mask.sync_data) || (
        op.set_len && rules[i].op_mask.set_len),
        rules[i].every_n matches Some(every) ==> every != 0 && n as int % every as int == 0,
        forall|j: int| #![trigger rules[j]]
            0 <= j < i ==> !((op.read && rules[j].op_mask.read) || (op.write
                && rules[j].op_mask.write) || (op.sync_all && rules[j].op_mask.sync_all) || (
            op.sync_data && rules[j].op_mask.sync_data) || (op.set_len
                && rules[j].op_mask.set_len)) || (rules[j].every_n matches Some(every) && n as int
                % every as int != 0),
    ensures
        first_fault(rules, op, n) == Some(rules[i].kind),
    decreases i,
{
    if i > 0 {
        assert(!rule_applies(rules[0], op, n));
        assert forall|j: int| #![trigger rules.skip(1)[j]]
            0 <= j < i - 1 implies !((op.read && rules.skip(1)[j].op_mask.read) || (op.write
            && rules.skip(1)[j].op_mask.write) || (op.sync_all && rules.skip(1)[j].op_mask.sync_all)
            || (op.sync_data && rules.skip(1)[j].op_mask.sync_data) || (op.set_len && rules.skip(
            1,
        )[j].op_mask.set_len)) || (rules.skip(1)[j].every_n matches Some(every) && n as int
            % every as int != 0) by {
            assert(rules.skip(1)[j] == rules[j + 1]);
        }
        law_first_fault(rules.skip(1), op, n, i - 1);
    }
}

/// An operation that no rule is for has no fault.
pub proof fn law_no_fault(rules: Seq<FaultRule>, op: OpMask, n: u64)
    requires
        forall|j: int| #![trigger rules[j]]
            0 <= j < rules.len() ==> !((op.read && rules[j].op_mask.read) || (op.write
                && rules[j].op_mask.write) || (op.sync_all && rules[j].op_mask.sync_all) || (
            op.sync_data && rules[j].op_mask.sync_data) || (op.set_len
                && rules[j].op_mask.set_len)) || (rules[j].every_n matches Some(every) && n as int
                % every as int != 0),
    ensures
        first_fault(rules, op, n) is None,
    decreases rules.len(),
{
    if rules.len() > 0 {
        assert(!rule_applies(rules[0], op, n));
        let rest = rules.skip(1);
        assert forall|j: int| #![trigger rest[j]]
            0 <= j < rest.len() implies !((op.read && rest[j].op_mask.read) || (op.write
            && rest[j].op_mask.write) || (op.sync_all && rest[j].op_mask.sync_all) || (op.sync_data
            && rest[j].op_mask.sync_data) || (op.set_len && rest[j].op_mask.set_len)) || (
        rest[j].every_n matches Some(every) && n as int % every as int != 0) by {
            assert(rest[j] == rules[j + 1]);
        }
        law_no_fault(rest, op, n);
    }
}

impl FaultConfig {
    /// Does each rule that counts operations count by one at least?
    pub open spec fn wf(&self) -> bool {
        forall|i: int| 0 <= i < self.rules@.len() ==> (#[trigger] self.rules@[i]).every_n != Some(0u64)
    }

    /// The fault of operation number `n`.
    pub fn fault_for(&self, op: OpMask, n: u64) -> (r: Option<FaultKind>)
        requires
            self.wf(),
        ensures
            r == first_fault(self.rules@, op, n),
    {
        let mut i: usize = 0;
        assert(self.rules@.skip(0) =~= self.rules@);
        while i < self.rules.len()
            invariant
                self.wf(),
                i <= self.rules@.len(),
                first_fault(self.rules@, op, n) == first_fault(self.rules@.skip(i as int), op, n),
            decreases self.rules@.len() - i,
        {
            let rule = self.rules[i];
            assert(self.rules@.skip(i as int)[0] == rule);
            assert(self.rules@.skip(i as int).skip(1) =~= self.rules@.skip(i + 1));
            assert(self.rules@[i as int].every_n != Some(0u64));
            let due: bool = match rule.every_n {
                Some(every) => n % every == 0,
                None => true,
            };
            if matches_op(op, rule.op_mask) && due {
                return Some(rule.kind);
            }
            i += 1;
        }
        None
    }
}

/// The rules with the number of operations so far.
#[derive(Debug)]
pub struct FaultInjector {
    pub config: FaultConfig,
    pub op_counter: u64,
}

impl FaultInjector {
    pub open spec fn wf(&self) -> bool {
        self.config.wf()
    }

    /// No rules, and no operations so far.
    pub fn new() -> (r: Self)
        ensures
            r.wf(),
            r.config.rules@.len() == 0,
            r.op_counter == 0,
    {
        FaultInjector { config: FaultConfig::default(), op_counter: 0 }
    }

    /// Sets the rules.
    pub fn set_config(&mut self, config: FaultConfig)
        requires
            config.wf(),
        ensures
            final(self).wf(),
            final(self).config == config,
            final(self).op_counter == old(self).op_counter,
    {
        self.config = config;
    }

    /// Counts an operation and gives its fault.
    pub fn maybe_fault(&mut self, op: OpMask) -> (r: Option<FaultKind>)
        requires
            old(self).wf(),
        ensures
            final(self).wf(),
            final(self).config == old(self).config,
            final(self).op_counter == (if old(self).op_counter == u64::MAX {
                0
            } else {
                (old(self).op_counter + 1) as u64
            }),
            r == first_fault(old(self).config.rules@, op, old(self).op_counter),
    {
        let n: u64 = self.op_counter;
        self.op_counter = if n == u64::MAX {
            0
        } else {
            n + 1
        };
        self.config.fault_for(op, n)
    }
}

/// What becomes of an operation.
#[derive(Debug, Clone, Copy, PartialEq, Eq, Structural)]
pub enum Action {
    /// It is done.
    Proceed,
    /// It is done later.
    Wait { delay_ms: u64 },
    /// It fails with an I/O error.
    FailIo,
    /// It fails because the device is full.
    FailNoSpace,
    /// A part of it is done.
    Truncate { factor_bits: u64 },
}

/// What becomes of reading.
pub fn read_action(fault: Option<FaultKind>) -> (r: Action)
    ensures
        r == (match fault {
            Some(FaultKind::Delay { delay_ms }) => Action::Wait { delay_ms },
            Some(FaultKind::Eio) => Action::FailIo,
            Some(FaultKind::Enospc) => Action::FailNoSpace,
            _ => Action::Proceed,
        }),
{
    match fault {
        Some(FaultKind::Delay { delay_ms }) => Action::Wait { delay_ms },
        Some(FaultKind::Eio) => Action::FailIo,
        Some(FaultKind::Enospc) => Action::FailNoSpace,
        _ => Action::Proceed,
    }
}

/// What becomes of writing.
pub fn write_action(fault: Option<FaultKind>) -> (r: Action)
    ensures
        r == (match fault {
            Some(FaultKind::Delay { delay_ms }) => Action::Wait { delay_ms },
            Some(FaultKind::Eio) => Action::FailIo,
            Some(FaultKind::Enospc) => Action::FailNoSpace,
            Some(FaultKind::PartialWrite { factor_bits }) => Action::Truncate { factor_bits },
            _ => Action::Proceed,
        }),
{
    match fault {
        Some(FaultKind::Delay { delay_ms }) => Action::Wait { delay_ms },
        Some(FaultKind::Eio) => Action::FailIo,
        Some(FaultKind::Enospc) => Action::FailNoSpace,
        Some(FaultKind::PartialWrite { factor_bits }) => Action::Truncate { factor_bits },
        _ => Action::Proceed,
    }
}

/// What becomes of flushing.
pub fn sync_action(fault: Option<FaultKind>) -> (r: Action)
    ensures
        r == (match fault {
            Some(FaultKind::Delay { delay_ms }) => Action::Wait { delay_ms },
            Some(FaultKind::Eio) => Action::FailIo,
            Some(FaultKind::FsyncFail) => Action::FailIo,
            _ => Action::Proceed,
        }),
{
    match fault {
        Some(FaultKind::Delay { delay_ms }) => Action::Wait { delay_ms },
        Some(FaultKind::Eio) => Action::FailIo,
        Some(FaultKind::FsyncFail) => Action::FailIo,
        _ => Action::Proceed,
    }
}

/// What becomes of setting the length of a file.
pub fn set_len_action(fault: Option<FaultKind>) -> (r: Action)
    ensures
        r == (match fault {
            Some(FaultKind::Eio) => Action::FailIo,
            _ => Action::Proceed,
        }),
{
    match fault {
        Some(FaultKind::Eio) => Action::FailIo,
        _ => Action::Proceed,
    }
}

/// Completions that come in the order of a script: the number of bytes that were
/// transferred, or the code of an error of the operating system.
#[derive(Debug)]
pub struct DeterministicIoUring {
    completions: VecDeque<Result<u32, i32>>,
}

impl View for DeterministicIoUring {
    type V = Seq<Result<u32, i32>>;

    closed spec fn view(&self) -> Seq<Result<u32, i32>> {
        self.completions@
    }
}

impl DeterministicIoUring {
    /// A ring with a script.
    pub fn new(script: Vec<Result<u32, i32>>) -> (r: Self)
        ensures
            r@ == script@,
    {
        let mut completions: VecDeque<Result<u32, i32>> = VecDeque::new();
        let mut i: usize = 0;
        assert(completions@ =~= script@.take(0));
        while i < script.len()
            invariant
                i <= script@.len(),
                completions@ == script@.take(i as int),
            decreases script@.len() - i,
        {
            completions.push_back(script[i]);
            assert(script@.take(i + 1) =~= script@.take(i as int).push(script@[i as int]));
            i += 1;
        }
        assert(script@.take(i as int) =~= script@);
        DeterministicIoUring { completions }
    }

    /// Takes the next completion.
    pub fn next_completion(&mut self) -> (r: Option<Result<u32, i32>>)
        ensures
            match r {
                Some(c) => old(self)@.len() > 0 && c == old(self)@[0] && final(self)@ == old(
                    self,
                )@.skip(1),
                None => old(self)@.len() == 0 && final(self)@ == old(self)@,
            },
    {
        let r = self.completions.pop_front();
        assert(r is Some ==> self@ =~= old(self)@.skip(1));
        r
    }

    /// Adds a completion behind the others.
    pub fn push_completion(&mut self, res: Result<u32, i32>)
        ensures
            final(self)@ == old(self)@.push(res),
    {
        self.completions.push_back(res);
    }
}

} // verus!
