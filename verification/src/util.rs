//! How processes are shown.

use vstd::prelude::*;

use crate::text::{all_digits, chars_of, decimal, decimal_chars, digits_value, lemma_decimal_digits, string_from_chars};

verus! {

/// How a process is shown: its name in double quotes, then its id, as in
/// `"server" (PID 42)`.
pub open spec fn process_text(name: Seq<char>, pid: u32) -> Seq<char> {
    seq!['"'] + name + seq!['"', ' ', '(', 'P', 'I', 'D', ' '] + decimal(pid as nat) + seq![')']
}

/// Shows the process named `name` with id `pid`, as `process_text` says.
pub fn process_to_string(name: &str, pid: u32) -> (s: String)
    ensures
        s@ == process_text(name@, pid),
{
    let mut out: Vec<char> = Vec::new();
    out.push('"');
    let name_chars = chars_of(name);
    let mut i: usize = 0;
    while i < name_chars.len()
        invariant
            i <= name_chars@.len(),
            out@ == seq!['"'] + name_chars@.subrange(0, i as int),
        decreases name_chars@.len() - i,
    {
        out.push(name_chars[i]);
        proof {
            assert(name_chars@.subrange(0, i + 1) =~= name_chars@.subrange(0, i as int).push(name_chars@[i as int]));
        }
        i = i + 1;
    }
    proof {
        assert(name_chars@.subrange(0, name_chars@.len() as int) =~= name@);
    }
    let ghost head = out@;
    out.push('"');
    out.push(' ');
    out.push('(');
    out.push('P');
    out.push('I');
    out.push('D');
    out.push(' ');
    let ghost middle = out@;
    assert(middle =~= head + seq!['"', ' ', '(', 'P', 'I', 'D', ' ']);
    let digits = decimal_chars(pid);
    let mut k: usize = 0;
    while k < digits.len()
        invariant
            k <= digits@.len(),
            out@ == middle + digits@.subrange(0, k as int),
        decreases digits@.len() - k,
    {
        out.push(digits[k]);
        proof {
            assert(digits@.subrange(0, k + 1) =~= digits@.subrange(0, k as int).push(digits@[k as int]));
        }
        k = k + 1;
    }
    out.push(')');
    proof {
        assert(digits@.subrange(0, digits@.len() as int) =~= digits@);
        assert(out@ =~= process_text(name@, pid));
    }
    string_from_chars(out.as_slice())
}

/// A process is shown with its own name and id: the text opens with a
/// double quote, then holds the name unchanged, then `" (PID `, then digits
/// that read back as the id, then `)`.
pub proof fn lemma_process_shown_with_name_and_pid(name: Seq<char>, pid: u32)
    ensures
        ({
            let t = process_text(name, pid);
            let n = name.len() as int;
            &&& t.len() > n + 9
            &&& t[0] == '"'
            &&& t.subrange(1, n + 1) == name
            &&& t.subrange(n + 1, n + 8) == seq!['"', ' ', '(', 'P', 'I', 'D', ' ']
            &&& t[t.len() - 1] == ')'
            &&& all_digits(t.subrange(n + 8, t.len() - 1))
            &&& digits_value(t.subrange(n + 8, t.len() - 1)) == pid
        }),
{
    let t = process_text(name, pid);
    let n = name.len() as int;
    lemma_decimal_digits(pid as nat);
    assert(t.subrange(1, n + 1) =~= name);
    assert(t.subrange(n + 1, n + 8) =~= seq!['"', ' ', '(', 'P', 'I', 'D', ' ']);
    assert(t.subrange(n + 8, t.len() - 1) =~= decimal(pid as nat));
}

} // verus!
