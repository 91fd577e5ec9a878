use vstd::prelude::*;

use crate::text::{chars_of, replace_all, replace_all_chars, string_of_all};

verus! {

/// An argument with its placeholders filled: `{prompt}` by the prompt, then
/// `{workspace}` by the workspace path.
pub open spec fn filled(arg: Seq<char>, prompt: Seq<char>, workspace: Seq<char>) -> Seq<char> {
    replace_all(replace_all(arg, "{prompt}"@, prompt), "{workspace}"@, workspace)
}

/// The arguments a command is run with: the given ones, or `{prompt}` alone
/// where none are given, each with its placeholders filled.
pub open spec fn expanded_arguments(args: Seq<Seq<char>>, prompt: Seq<char>, workspace: Seq<char>) -> Seq<Seq<char>> {
    let template = if args.len() == 0 {
        seq!["{prompt}"@]
    } else {
        args
    };
    template.map_values(|a: Seq<char>| filled(a, prompt, workspace))
}

/// The views of a list of strings.
pub open spec fn texts(v: Seq<String>) -> Seq<Seq<char>> {
    v.map_values(|s: String| s@)
}

fn fill(arg: &str, prompt: &Vec<char>, workspace: &Vec<char>) -> (r: String)
    ensures
        r@ == filled(arg@, prompt@, workspace@),
{
    let cs = chars_of(arg);
    let once = replace_all_chars(&cs, &chars_of("{prompt}"), prompt);
    let twice = replace_all_chars(&once, &chars_of("{workspace}"), workspace);
    string_of_all(&twice)
}

/// Expands the argument template of a command run on behalf of a prompt.
pub fn expand_arguments(args: &Vec<String>, prompt: &str, workspace: &str) -> (r: Vec<String>)
    ensures
        texts(r@) == expanded_arguments(texts(args@), prompt@, workspace@),
{
    let p = chars_of(prompt);
    let w = chars_of(workspace);
    let mut r: Vec<String> = Vec::new();
    if args.len() == 0 {
        r.push(fill("{prompt}", &p, &w));
        assert(texts(r@) =~= expanded_arguments(texts(args@), prompt@, workspace@));
        return r;
    }
    let mut i: usize = 0;
    while i < args.len()
        invariant
            i <= args@.len(),
            args@.len() > 0,
            p@ == prompt@,
            w@ == workspace@,
            texts(r@) == expanded_arguments(texts(args@), prompt@, workspace@).subrange(0, i as int),
        decreases args@.len() - i,
    {
        let ghost before = r@;
        let a = fill(args[i].as_str(), &p, &w);
        r.push(a);
        assert(texts(r@) =~= texts(before).push(a@));
        assert(texts(r@) =~= expanded_arguments(texts(args@), prompt@, workspace@).subrange(0, i + 1));
        i = i + 1;
    }
    assert(expanded_arguments(texts(args@), prompt@, workspace@).subrange(0, i as int)
        =~= expanded_arguments(texts(args@), prompt@, workspace@));
    r
}

} // verus!
