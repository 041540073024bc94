//! The command executor: interprets a parsed command against the
//! directory, producing the response text and, for an `Add`, the store
//! mutation. All four command kinds are total; the only user-visible
//! error texts are the not-found and invalid-command messages.

use vstd::prelude::*;
use crate::directory::{Directory, Entry, spec_add};
use crate::parser::{Command, SpecCommand};
use crate::text::lex_leq;

verus! {

/// The first `k` employee lines of a department block, each employee on
/// a line of its own, indented by four spaces.
pub open spec fn employee_lines(emps: Seq<Seq<char>>, k: int) -> Seq<char>
    decreases k,
{
    if k <= 0 {
        Seq::empty()
    } else {
        employee_lines(emps, k - 1) + "\n    "@ + emps[k - 1]
    }
}

/// A department block: the header line `<department>:`, then one
/// indented line per employee.
pub open spec fn render_department(dept: Seq<char>, emps: Seq<Seq<char>>) -> Seq<char> {
    dept + ":"@ + employee_lines(emps, emps.len() as int)
}

/// The first `q` department blocks, separated by single line breaks.
pub open spec fn department_blocks(es: Seq<Entry>, q: int) -> Seq<char>
    decreases q,
{
    if q <= 0 {
        Seq::empty()
    } else if q == 1 {
        render_department(es[0].0, es[0].1)
    } else {
        department_blocks(es, q - 1) + "\n"@ + render_department(es[q - 1].0, es[q - 1].1)
    }
}

/// The response to `List All`: every department block, in order.
pub open spec fn render_listing(es: Seq<Entry>) -> Seq<char> {
    department_blocks(es, es.len() as int)
}

/// Builds the text of one department block.
fn render_department_text(dept: &str, emps: &Vec<String>) -> (r: String)
    ensures
        r@ == render_department(dept@, emps.deep_view()),
{
    let mut s = String::from_str(dept);
    s.append(":");
    proof {
        assert(s@ =~= dept@ + ":"@ + employee_lines(emps.deep_view(), 0));
    }
    let mut k: usize = 0;
    while k < emps.len()
        invariant
            k <= emps@.len(),
            s@ == dept@ + ":"@ + employee_lines(emps.deep_view(), k as int),
        decreases emps@.len() - k,
    {
        s.append("\n    ");
        s.append(emps[k].as_str());
        proof {
            assert(s@ =~= dept@ + ":"@ + employee_lines(emps.deep_view(), k as int + 1));
        }
        k = k + 1;
    }
    s
}

/// Executes one command against the directory. An `Add` mutates the
/// store and confirms it; the two listings and an invalid line leave
/// the store untouched.
pub fn execute(cmd: &Command, dir: &mut Directory) -> (r: String)
    requires
        old(dir).wf(),
    ensures
        final(dir).wf(),
        match cmd@ {
            SpecCommand::Add { name, department } => {
                &&& final(dir)@ == spec_add(old(dir)@, name, department)
                &&& r@ == "Added "@ + name + " to "@ + department
            },
            SpecCommand::ListDepartment { department } => {
                &&& *final(dir) == *old(dir)
                &&& old(dir)@.dom().contains(department) ==> r@ == render_department(
                    department,
                    old(dir)@[department].sort_by(lex_leq()),
                )
                &&& !old(dir)@.dom().contains(department) ==> r@ == "No such department"@
            },
            SpecCommand::ListAll => {
                &&& *final(dir) == *old(dir)
                &&& r@ == render_listing(old(dir).listing())
            },
            SpecCommand::Invalid { .. } => {
                &&& *final(dir) == *old(dir)
                &&& r@ == "Invalid command"@
            },
        },
{
    match cmd {
        Command::Add { name, department } => {
            dir.add_employee(name.as_str(), department.as_str());
            let mut s = String::from_str("Added ");
            s.append(name.as_str());
            s.append(" to ");
            s.append(department.as_str());
            s
        },
        Command::ListDepartment { department } => {
            match dir.list_department(department.as_str()) {
                Ok(emps) => render_department_text(department.as_str(), &emps),
                Err(_) => String::from_str("No such department"),
            }
        },
        Command::ListAll => {
            let blocks = dir.list_all();
            let ghost ls = dir.listing();
            let mut s = String::new();
            let mut q: usize = 0;
            while q < blocks.len()
                invariant
                    q <= blocks@.len(),
                    blocks.deep_view() == ls,
                    s@ == department_blocks(ls, q as int),
                decreases blocks@.len() - q,
            {
                if q > 0 {
                    s.append("\n");
                }
                let entry = &blocks[q];
                let block = render_department_text(entry.0.as_str(), &entry.1);
                s.append(block.as_str());
                proof {
                    assert(blocks.deep_view()[q as int] == (entry.0@, entry.1.deep_view()));
                    if q == 0 {
                        assert(s@ =~= department_blocks(ls, 1));
                    } else {
                        assert(s@ =~= department_blocks(ls, q as int + 1));
                    }
                }
                q = q + 1;
            }
            s
        },
        Command::Invalid { .. } => String::from_str("Invalid command"),
    }
}

} // verus!
