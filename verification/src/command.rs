//! Commands and the conflict relation over them.
//!
//! A command is an opcode with an opaque byte-string key and value. Two
//! commands conflict iff exchanging their execution order could change the
//! outcome: at least one writes, and they touch the same key.

use vstd::prelude::*;

verus! {

/// The operation a command performs.
#[derive(Clone, Copy, Debug, PartialEq, Eq, Structural)]
pub enum OpCode {
    NoOp,
    Get,
    Put,
}

/// A command: an opcode applied to a key, with a value for writes.
#[derive(Debug, PartialEq, Eq)]
pub struct Command {
    pub op: OpCode,
    pub key: Vec<u8>,
    pub value: Vec<u8>,
}

/// The mathematical value of a command: its opcode and the byte strings
/// of its key and value.
pub struct CommandView {
    pub op: OpCode,
    pub key: Seq<u8>,
    pub value: Seq<u8>,
}

impl View for Command {
    type V = CommandView;

    open spec fn view(&self) -> CommandView {
        CommandView { op: self.op, key: self.key@, value: self.value@ }
    }
}

impl DeepView for Command {
    type V = CommandView;

    open spec fn deep_view(&self) -> CommandView {
        self@
    }
}

/// The conflict relation: neither command is a no-op, at least one is a
/// write, and the keys are equal.
pub open spec fn cmd_conflict(a: CommandView, b: CommandView) -> bool {
    &&& a.op != OpCode::NoOp
    &&& b.op != OpCode::NoOp
    &&& (a.op == OpCode::Put || b.op == OpCode::Put)
    &&& a.key == b.key
}

/// Byte-string equality.
pub fn bytes_eq(a: &Vec<u8>, b: &Vec<u8>) -> (r: bool)
    ensures
        r == (a@ == b@),
{
    if a.len() != b.len() {
        return false;
    }
    let n = a.len();
    let mut k: usize = 0;
    while k < n
        invariant
            n == a@.len(),
            n == b@.len(),
            0 <= k <= n,
            forall|j: int| 0 <= j < k ==> a@[j] == b@[j],
        decreases n - k,
    {
        if a[k] != b[k] {
            return false;
        }
        k += 1;
    }
    proof {
        assert(a@ =~= b@);
    }
    true
}

impl Clone for Command {
    /// A clone has the same value as the original.
    fn clone(&self) -> (r: Command)
        ensures
            r@ == self@,
    {
        Command {
            op: self.op,
            key: slice_to_vec(self.key.as_slice()),
            value: slice_to_vec(self.value.as_slice()),
        }
    }
}

impl Command {
    /// Builds a command from an opcode and borrowed key and value bytes.
    pub fn of(op: OpCode, key: &[u8], value: &[u8]) -> (r: Command)
        ensures
            r@ == (CommandView { op, key: key@, value: value@ }),
    {
        Command { op, key: slice_to_vec(key), value: slice_to_vec(value) }
    }

    /// Whether this command conflicts with another: the execution order
    /// of two conflicting commands is observable.
    pub fn conflict(&self, with: &Command) -> (r: bool)
        ensures
            r == cmd_conflict(self@, with@),
    {
        if matches!(self.op, OpCode::NoOp) {
            return false;
        }
        if matches!(with.op, OpCode::NoOp) {
            return false;
        }
        if matches!(self.op, OpCode::Put) || matches!(with.op, OpCode::Put) {
            return bytes_eq(&self.key, &with.key);
        }
        false
    }
}

/// Clones a batch of commands; the values carried are unchanged.
pub fn clone_cmds(v: &Vec<Command>) -> (r: Vec<Command>)
    ensures
        r.deep_view() == v.deep_view(),
{
    let mut r: Vec<Command> = Vec::new();
    let n = v.len();
    let mut k: usize = 0;
    while k < n
        invariant
            n == v@.len(),
            0 <= k <= n,
            r.deep_view() =~= v.deep_view().take(k as int),
        decreases n - k,
    {
        r.push(v[k].clone());
        proof {
            assert(v.deep_view().take(k as int + 1) =~= v.deep_view().take(k as int).push(
                v@[k as int]@,
            ));
            assert(r.deep_view() =~= v.deep_view().take(k as int + 1));
        }
        k += 1;
    }
    proof {
        assert(v.deep_view().take(n as int) =~= v.deep_view());
    }
    r
}

/// Copies a byte slice into an owned vector.
pub fn slice_to_vec(s: &[u8]) -> (r: Vec<u8>)
    ensures
        r@ == s@,
{
    let mut r: Vec<u8> = Vec::new();
    let n = s.len();
    let mut k: usize = 0;
    while k < n
        invariant
            n == s@.len(),
            0 <= k <= n,
            r@ =~= s@.take(k as int),
        decreases n - k,
    {
        r.push(s[k]);
        proof {
            assert(s@.take(k as int + 1) =~= s@.take(k as int).push(s@[k as int]));
        }
        k += 1;
    }
    proof {
        assert(s@.take(n as int) =~= s@);
    }
    r
}

} // verus!
