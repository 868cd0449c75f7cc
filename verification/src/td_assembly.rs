//! The commands of TD assembly, the language that scripts compile to.
use vstd::prelude::*;
use crate::text::{same, lit};

verus! {

/// A command of TD assembly and the number of its arguments (`-1`: up to
/// the command that closes it).
pub struct AssemblySytanx {
    pub command: String,
    pub arg_count: i8,
}

/// The commands of TD assembly.
pub open spec fn assembly_commands() -> Seq<Seq<char>> {
    seq![
        "REP"@,
        "CREP"@,
        "RD"@,
        "QU"@,
        "EC"@,
        "CRD"@,
        "RDI"@,
        "RDF"@,
        "RDS"@,
        "CRDS"@,
        "OUT"@,
    ]
}

/// The numbers of arguments of the commands, in the same order.
pub open spec fn assembly_arg_counts() -> Seq<i8> {
    seq![1i8, 0i8, -1i8, 1i8, 1i8, 0i8, 2i8, 3i8, -1i8, 0i8, 1i8]
}

/// Whether `s` is a command of TD assembly.
pub open spec fn is_assembly_command(s: Seq<char>) -> bool {
    assembly_commands().contains(s)
}

/// The commands of TD assembly, looked up by name.
pub struct AssemblyTable {
    entries: Vec<AssemblySytanx>,
}

impl AssemblyTable {
    pub closed spec fn wf(&self) -> bool {
        &&& self.entries@.len() == assembly_commands().len()
        &&& forall|i: int|
            0 <= i < self.entries@.len() ==> #[trigger] self.entries@[i].command@
                == assembly_commands()[i] && self.entries@[i].arg_count == assembly_arg_counts()[i]
    }

    /// Whether `key` names a command.
    pub fn contains_key(&self, key: &Vec<char>) -> (r: bool)
        requires
            self.wf(),
        ensures
            r == is_assembly_command(key@),
    {
        let n = self.entries.len();
        for i in 0..n
            invariant
                n == self.entries@.len(),
                self.wf(),
                forall|j: int| 0 <= j < i ==> assembly_commands()[j] != key@,
        {
            let c = crate::text::chars_of(self.entries[i].command.as_str());
            if same(&c, key) {
                assert(assembly_commands()[i as int] == key@);
                return true;
            }
        }
        assert(!is_assembly_command(key@)) by {
            if assembly_commands().contains(key@) {
                let j = choose|j: int| 0 <= j < assembly_commands().len() && assembly_commands()[j] == key@;
                assert(assembly_commands()[j] == key@);
            }
        }
        false
    }

    /// The number of arguments of the command `key`, if it is one.
    pub fn arg_count(&self, key: &Vec<char>) -> (r: Option<i8>)
        requires
            self.wf(),
        ensures
            match r {
                Some(c) => exists|i: int|
                    0 <= i < assembly_commands().len() && assembly_commands()[i] == key@
                        && assembly_arg_counts()[i] == c,
                None => !is_assembly_command(key@),
            },
    {
        let n = self.entries.len();
        for i in 0..n
            invariant
                n == self.entries@.len(),
                self.wf(),
                forall|j: int| 0 <= j < i ==> assembly_commands()[j] != key@,
        {
            let c = crate::text::chars_of(self.entries[i].command.as_str());
            if same(&c, key) {
                assert(assembly_commands()[i as int] == key@);
                return Some(self.entries[i].arg_count);
            }
        }
        assert(!is_assembly_command(key@)) by {
            if assembly_commands().contains(key@) {
                let j = choose|j: int| 0 <= j < assembly_commands().len() && assembly_commands()[j] == key@;
                assert(assembly_commands()[j] == key@);
            }
        }
        None
    }
}

fn entry(command: &str, arg_count: i8) -> (r: AssemblySytanx)
    ensures
        r.command@ == command@,
        r.arg_count == arg_count,
{
    AssemblySytanx { command: String::from_str(command), arg_count }
}

/// The table of the commands of TD assembly.
pub fn get_assembly_sytanx_hashmap() -> (res: AssemblyTable)
    ensures
        res.wf(),
{
    let mut entries: Vec<AssemblySytanx> = Vec::new();
    entries.push(entry("REP", 1));
    entries.push(entry("CREP", 0));
    entries.push(entry("RD", -1));
    entries.push(entry("QU", 1));
    entries.push(entry("EC", 1));
    entries.push(entry("CRD", 0));
    entries.push(entry("RDI", 2));
    entries.push(entry("RDF", 3));
    entries.push(entry("RDS", -1));
    entries.push(entry("CRDS", 0));
    entries.push(entry("OUT", 1));
    let res = AssemblyTable { entries };
    assert(res.wf());
    res
}

} // verus!
