//! Choosing the spec of a command, and rendering its candidates as the
//! text that the shell hook reads.
use vstd::prelude::*;
use crate::command_spec::{
    arg_views, completion_views, completions_of, first_index, is_first_index, CompletionView,
    Lookups, Spec,
};
use crate::text::{join, join_seq, same_text, views_of};

verus! {

/// The names of the given specs.
pub open spec fn spec_names(specs: Seq<Spec>) -> Seq<Seq<char>> {
    specs.map_values(|s: Spec| s.name@)
}

/// The first spec whose name is `command`.
pub fn find_spec<'a>(specs: &'a [Spec], command: &str) -> (r: Option<&'a Spec>)
    ensures
        r is Some <==> first_index(spec_names(specs@), command@) is Some,
        r matches Some(s) ==> *s == specs@[first_index(spec_names(specs@), command@)->0],
{
    let ghost names = spec_names(specs@);
    let mut i: usize = 0;
    while i < specs.len()
        invariant
            names == spec_names(specs@),
            names.len() == specs@.len(),
            i <= specs.len(),
            forall|j: int| 0 <= j < i ==> names[j] != command@,
        decreases specs.len() - i,
    {
        if same_text(specs[i].name.as_str(), command) {
            proof {
                let k = choose|k: int| is_first_index(names, command@, k);
                assert(is_first_index(names, command@, i as int));
                if k < i {
                    assert(names[k] != command@);
                } else if i < k {
                    assert(names[i as int] != command@);
                }
            }
            return Some(&specs[i]);
        }
        i = i + 1;
    }
    proof {
        if exists|k: int| is_first_index(names, command@, k) {
            let k = choose|k: int| is_first_index(names, command@, k);
            assert(names[k] != command@);
        }
    }
    None
}

/// One output line for a candidate: its value, then a tab and its
/// description when it has one.
pub open spec fn completion_line(c: CompletionView) -> Seq<char> {
    match c.description {
        Some(d) => c.value + "\t"@ + d,
        None => c.value,
    }
}

/// The output for a list of candidates: one line per candidate, joined by
/// newlines.
pub open spec fn completion_text(cs: Seq<CompletionView>) -> Seq<char> {
    join_seq(cs.map_values(|c: CompletionView| completion_line(c)), "\n"@)
}

/// The completion output for the words `args` typed after the command
/// (one `value<TAB>description` or `value` line per candidate).
pub fn generate_completions(spec: &Spec, args: &[&str], found: &Lookups) -> (out: String)
    ensures
        out@ == completion_text(completions_of(spec@, arg_views(args@), found@)),
{
    let cs = spec.completions(args, found);
    let ghost cv = completion_views(cs@);
    let mut rendered: Vec<String> = Vec::new();
    let mut i: usize = 0;
    while i < cs.len()
        invariant
            cv == completion_views(cs@),
            i <= cs.len(),
            views_of(rendered@) == cv.take(i as int).map_values(
                |c: CompletionView| completion_line(c),
            ),
        decreases cs.len() - i,
    {
        let c = &cs[i];
        let mut line = c.value.clone();
        match &c.description {
            Some(d) => {
                line.append("\t");
                line.append(d.as_str());
            },
            None => {},
        }
        let ghost prev = rendered@;
        rendered.push(line);
        assert(cv.take(i + 1) =~= cv.take(i as int).push(cv[i as int]));
        assert(views_of(rendered@) =~= views_of(prev).push(line@));
        i = i + 1;
    }
    assert(cv.take(cs.len() as int) =~= cv);
    join(&rendered, "\n")
}

/// Whether a file name has the `toml` extension, as `Path::extension`
/// sees it: a non-empty stem, a dot, and `toml`.
pub open spec fn is_spec_file_name(name: Seq<char>) -> bool {
    name.len() > 5 && name.subrange(name.len() - 5, name.len() as int) == ".toml"@
}

/// Whether the file `name` holds a spec (its extension is `toml`).
pub fn is_spec_file(name: &str) -> (b: bool)
    ensures
        b == is_spec_file_name(name@),
{
    let n = name.unicode_len();
    if n <= 5 {
        return false;
    }
    let ext = name.substring_char(n - 5, n);
    same_text(ext, ".toml")
}

} // verus!
