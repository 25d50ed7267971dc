//! Completion specs (a command's options and subcommands) and the computation
//! of completion candidates for the words typed after the command.
//!
//! Directory listings and generator output are gathered by the caller:
//! `Spec::needs` says which directory to list and which command to run,
//! and `Spec::completions` takes what came back as plain values.
use vstd::prelude::*;
use crate::text::{
    chars_of, last_index_of, lines, lines_seq, slice_of, starts_with, starts_with_char,
    trim, trim_seq, views_of,
};

verus! {

/// What a template lists: every directory entry, or directories only.
#[derive(Debug, PartialEq, Eq, Clone, Copy, Structural)]
pub enum Template {
    Filepaths,
    Folders,
}

/// The kind of a completion candidate.
#[derive(Debug, PartialEq, Eq, Clone, Copy, Structural)]
pub enum CompletionKind {
    Subcommand,
    Option,
    Branch,
    File,
    Command,
}

impl Default for CompletionKind {
    fn default() -> (k: Self)
        ensures
            k == CompletionKind::Subcommand,
    {
        CompletionKind::Subcommand
    }
}

/// The kind of candidates that a subcommand's generator command produces.
#[derive(Debug, PartialEq, Eq, Clone, Copy, Structural)]
pub enum GeneratorKind {
    Branch,
    File,
    Command,
}

impl Default for GeneratorKind {
    fn default() -> (k: Self)
        ensures
            k == GeneratorKind::Branch,
    {
        GeneratorKind::Branch
    }
}

/// A command-line option, with an optional short form.
#[derive(Debug, PartialEq)]
pub struct Opt {
    pub name: String,
    pub description: Option<String>,
    pub short: Option<String>,
    pub arg: Option<String>,
}

/// A subcommand with its own options, and optionally a generator command or
/// a template that supplies further candidates.
#[derive(Debug, PartialEq)]
pub struct Subcommand {
    pub name: String,
    pub description: Option<String>,
    pub options: Vec<Opt>,
    pub generator: Option<String>,
    pub generator_kind: GeneratorKind,
    pub template: Option<Template>,
}

/// The completion spec of one command.
#[derive(Debug, PartialEq)]
pub struct Spec {
    pub name: String,
    pub description: Option<String>,
    pub options: Vec<Opt>,
    pub subcommands: Vec<Subcommand>,
    pub template: Option<Template>,
}

/// One completion candidate.
#[derive(Debug, PartialEq)]
pub struct Completion {
    pub value: String,
    pub display_name: Option<String>,
    pub description: Option<String>,
    pub kind: CompletionKind,
}

/// One entry of a directory listing.
#[derive(Debug, PartialEq)]
pub struct DirEntry {
    pub name: String,
    pub is_dir: bool,
}

/// What the caller gathered for a completion request: the listing of the
/// directory that `Spec::needs` named (`None` when it could not be read),
/// and the standard output of the generator command (`None` when it could
/// not be run or did not succeed).
#[derive(Debug)]
pub struct Lookups {
    pub entries: Option<Vec<DirEntry>>,
    pub generator_output: Option<String>,
}

/// The outside work a completion request needs: a directory to list and a
/// shell command whose output lists candidates.
#[derive(Debug)]
pub struct Needs {
    pub listing_dir: Option<String>,
    pub command: Option<String>,
}

// ------------------------------------------------------------------------
// Models
// ------------------------------------------------------------------------

pub open spec fn text_of(o: Option<String>) -> Option<Seq<char>> {
    match o {
        Some(s) => Some(s@),
        None => None,
    }
}

pub struct OptView {
    pub name: Seq<char>,
    pub description: Option<Seq<char>>,
    pub short: Option<Seq<char>>,
    pub arg: Option<Seq<char>>,
}

pub struct SubView {
    pub name: Seq<char>,
    pub description: Option<Seq<char>>,
    pub options: Seq<OptView>,
    pub generator: Option<Seq<char>>,
    pub generator_kind: GeneratorKind,
    pub template: Option<Template>,
}

pub struct SpecView {
    pub name: Seq<char>,
    pub description: Option<Seq<char>>,
    pub options: Seq<OptView>,
    pub subcommands: Seq<SubView>,
    pub template: Option<Template>,
}

pub struct CompletionView {
    pub value: Seq<char>,
    pub display_name: Option<Seq<char>>,
    pub description: Option<Seq<char>>,
    pub kind: CompletionKind,
}

pub struct EntryView {
    pub name: Seq<char>,
    pub is_dir: bool,
}

pub struct LookupsView {
    pub entries: Option<Seq<EntryView>>,
    pub output: Option<Seq<char>>,
}

pub struct NeedsView {
    pub listing_dir: Option<Seq<char>>,
    pub command: Option<Seq<char>>,
}

pub open spec fn opt_views(v: Seq<Opt>) -> Seq<OptView> {
    v.map_values(|o: Opt| o@)
}

pub open spec fn sub_views(v: Seq<Subcommand>) -> Seq<SubView> {
    v.map_values(|s: Subcommand| s@)
}

pub open spec fn completion_views(v: Seq<Completion>) -> Seq<CompletionView> {
    v.map_values(|c: Completion| c@)
}

pub open spec fn entry_views(v: Seq<DirEntry>) -> Seq<EntryView> {
    v.map_values(|e: DirEntry| e@)
}

pub open spec fn arg_views(v: Seq<&str>) -> Seq<Seq<char>> {
    v.map_values(|a: &str| a@)
}

impl View for Opt {
    type V = OptView;

    open spec fn view(&self) -> OptView {
        OptView {
            name: self.name@,
            description: text_of(self.description),
            short: text_of(self.short),
            arg: text_of(self.arg),
        }
    }
}

impl View for Subcommand {
    type V = SubView;

    open spec fn view(&self) -> SubView {
        SubView {
            name: self.name@,
            description: text_of(self.description),
            options: opt_views(self.options@),
            generator: text_of(self.generator),
            generator_kind: self.generator_kind,
            template: self.template,
        }
    }
}

impl View for Spec {
    type V = SpecView;

    open spec fn view(&self) -> SpecView {
        SpecView {
            name: self.name@,
            description: text_of(self.description),
            options: opt_views(self.options@),
            subcommands: sub_views(self.subcommands@),
            template: self.template,
        }
    }
}

impl View for Completion {
    type V = CompletionView;

    open spec fn view(&self) -> CompletionView {
        CompletionView {
            value: self.value@,
            display_name: text_of(self.display_name),
            description: text_of(self.description),
            kind: self.kind,
        }
    }
}

impl View for DirEntry {
    type V = EntryView;

    open spec fn view(&self) -> EntryView {
        EntryView { name: self.name@, is_dir: self.is_dir }
    }
}

impl View for Lookups {
    type V = LookupsView;

    open spec fn view(&self) -> LookupsView {
        LookupsView {
            entries: match self.entries {
                Some(es) => Some(entry_views(es@)),
                None => None,
            },
            output: text_of(self.generator_output),
        }
    }
}

impl View for Needs {
    type V = NeedsView;

    open spec fn view(&self) -> NeedsView {
        NeedsView { listing_dir: text_of(self.listing_dir), command: text_of(self.command) }
    }
}

// ------------------------------------------------------------------------
// What the candidates are
// ------------------------------------------------------------------------

/// The candidates of one option: its name, then its short form if it has one.
pub open spec fn opt_entries(o: OptView) -> Seq<CompletionView> {
    let long = CompletionView {
        value: o.name,
        display_name: None,
        description: o.description,
        kind: CompletionKind::Option,
    };
    match o.short {
        Some(s) => seq![
            long,
            CompletionView {
                value: s,
                display_name: None,
                description: o.description,
                kind: CompletionKind::Option,
            },
        ],
        None => seq![long],
    }
}

/// The candidates of all options, in order.
pub open spec fn option_entries(opts: Seq<OptView>) -> Seq<CompletionView>
    decreases opts.len(),
{
    if opts.len() == 0 {
        seq![]
    } else {
        option_entries(opts.drop_last()) + opt_entries(opts.last())
    }
}

/// Holds of a candidate whose value begins with `p`.
pub open spec fn has_prefix(p: Seq<char>) -> spec_fn(CompletionView) -> bool {
    |c: CompletionView| p.is_prefix_of(c.value)
}

/// The candidate of a subcommand.
pub open spec fn sub_entry(s: SubView) -> CompletionView {
    CompletionView {
        value: s.name,
        display_name: None,
        description: s.description,
        kind: CompletionKind::Subcommand,
    }
}

/// The candidates of the given subcommands, in order.
pub open spec fn sub_entries(subs: Seq<SubView>) -> Seq<CompletionView> {
    subs.map_values(|s: SubView| sub_entry(s))
}

/// Holds of a subcommand whose name begins with `p`.
pub open spec fn named_with_prefix(p: Seq<char>) -> spec_fn(SubView) -> bool {
    |s: SubView| p.is_prefix_of(s.name)
}

/// Index of the last `'/'` in `p`.
pub open spec fn last_slash(p: Seq<char>) -> Option<int>
    decreases p.len(),
{
    if p.len() == 0 {
        None
    } else if p.last() == '/' {
        Some(p.len() - 1)
    } else {
        last_slash(p.drop_last())
    }
}

/// The directory part of a partial path, up to and including its last `'/'`;
/// empty when there is no `'/'`.
pub open spec fn dir_prefix(p: Seq<char>) -> Seq<char> {
    match last_slash(p) {
        Some(k) => p.take(k + 1),
        None => seq![],
    }
}

/// The file-name part of a partial path, after its last `'/'`.
pub open spec fn name_filter(p: Seq<char>) -> Seq<char> {
    match last_slash(p) {
        Some(k) => p.skip(k + 1),
        None => p,
    }
}

/// The directory that a template lists for a partial path: its directory
/// part, or `"."` when it has none.
pub open spec fn listed_dir(p: Seq<char>) -> Seq<char> {
    match last_slash(p) {
        Some(k) => p.take(k + 1),
        None => seq!['.'],
    }
}

/// How an entry is shown: its name, with a trailing `'/'` for a directory.
pub open spec fn entry_label(e: EntryView) -> Seq<char> {
    if e.is_dir {
        e.name + seq!['/']
    } else {
        e.name
    }
}

/// Holds of an entry that a template offers for the name filter `f`.
pub open spec fn entry_shown(t: Template, f: Seq<char>) -> spec_fn(EntryView) -> bool {
    |e: EntryView|
        (match t {
            Template::Filepaths => true,
            Template::Folders => e.is_dir,
        }) && f.is_prefix_of(entry_label(e))
}

/// The candidate of a directory entry under the directory part `prefix`.
pub open spec fn entry_candidate(prefix: Seq<char>, e: EntryView) -> CompletionView {
    CompletionView {
        value: prefix + entry_label(e),
        display_name: if prefix.len() == 0 {
            None
        } else {
            Some(entry_label(e))
        },
        description: None,
        kind: CompletionKind::File,
    }
}

/// The candidates of the given entries under the directory part `prefix`.
pub open spec fn entry_candidates(prefix: Seq<char>, es: Seq<EntryView>) -> Seq<CompletionView> {
    es.map_values(|e: EntryView| entry_candidate(prefix, e))
}

/// The candidate that accepts the directory already typed.
pub open spec fn confirm_entry(prefix: Seq<char>) -> CompletionView {
    CompletionView {
        value: prefix,
        display_name: Some("\u{21b5}"@),
        description: Some("Enter the current directory"@),
        kind: CompletionKind::Command,
    }
}

/// The candidates of a template for the partial path `p`, given the listing
/// of `listed_dir(p)`; none when the directory could not be read.
pub open spec fn template_entries(
    t: Template,
    p: Seq<char>,
    listing: Option<Seq<EntryView>>,
) -> Seq<CompletionView> {
    match listing {
        None => seq![],
        Some(es) => {
            let prefix = dir_prefix(p);
            let f = name_filter(p);
            let head = if prefix.len() > 0 && f.len() == 0 {
                seq![confirm_entry(prefix)]
            } else {
                seq![]
            };
            head + entry_candidates(prefix, es.filter(entry_shown(t, f)))
        },
    }
}

/// The completion kind of a generator's candidates.
pub open spec fn generated_kind(g: GeneratorKind) -> CompletionKind {
    match g {
        GeneratorKind::Branch => CompletionKind::Branch,
        GeneratorKind::File => CompletionKind::File,
        GeneratorKind::Command => CompletionKind::Command,
    }
}

/// Holds of a non-empty line.
pub open spec fn non_empty_line() -> spec_fn(Seq<char>) -> bool {
    |l: Seq<char>| l.len() > 0
}

/// The candidate of one line of generator output.
pub open spec fn generated_entry(g: GeneratorKind, line: Seq<char>) -> CompletionView {
    CompletionView {
        value: trim_seq(line),
        display_name: None,
        description: None,
        kind: generated_kind(g),
    }
}

/// The candidates of a generator's output: each non-empty line, trimmed;
/// none when the command could not be run or failed.
pub open spec fn generated_entries(g: GeneratorKind, output: Option<Seq<char>>) -> Seq<
    CompletionView,
> {
    match output {
        None => seq![],
        Some(o) => generated_from(g, lines_seq(o).filter(non_empty_line())),
    }
}

/// The candidates of the given lines of generator output.
pub open spec fn generated_from(g: GeneratorKind, ls: Seq<Seq<char>>) -> Seq<CompletionView> {
    ls.map_values(|l: Seq<char>| generated_entry(g, l))
}

/// Holds of a file candidate, or of one whose value begins with `p`.
pub open spec fn file_or_prefix(p: Seq<char>) -> spec_fn(CompletionView) -> bool {
    |c: CompletionView| c.kind == CompletionKind::File || p.is_prefix_of(c.value)
}

/// Whether `w` begins with `'-'`.
pub open spec fn is_dash_word(w: Seq<char>) -> bool {
    w.len() > 0 && w[0] == '-'
}

/// The candidates after a subcommand, for the word `partial` being typed.
pub open spec fn sub_completions_of(
    sub: SubView,
    partial: Seq<char>,
    found: LookupsView,
) -> Seq<CompletionView> {
    let opts = option_entries(sub.options).filter(has_prefix(partial));
    if is_dash_word(partial) {
        opts
    } else {
        let generated = match sub.generator {
            Some(_) => generated_entries(sub.generator_kind, found.output),
            None => seq![],
        };
        let listed = match sub.template {
            Some(t) => template_entries(t, partial, found.entries),
            None => seq![],
        };
        let gathered = generated + listed;
        let kept = if partial.len() > 0 {
            gathered.filter(file_or_prefix(partial))
        } else {
            gathered
        };
        kept + opts
    }
}

/// Whether `i` is the first index of `names` that holds `n`.
pub open spec fn is_first_index(names: Seq<Seq<char>>, n: Seq<char>, i: int) -> bool {
    &&& 0 <= i < names.len()
    &&& names[i] == n
    &&& forall|j: int| 0 <= j < i ==> names[j] != n
}

/// The first index of `names` that holds `n`.
pub open spec fn first_index(names: Seq<Seq<char>>, n: Seq<char>) -> Option<int> {
    if exists|i: int| is_first_index(names, n, i) {
        Some(choose|i: int| is_first_index(names, n, i))
    } else {
        None
    }
}

pub open spec fn sub_names(subs: Seq<SubView>) -> Seq<Seq<char>> {
    subs.map_values(|s: SubView| s.name)
}

/// The concatenation of all words.
pub open spec fn concat_words(words: Seq<Seq<char>>) -> Seq<char>
    decreases words.len(),
{
    if words.len() == 0 {
        seq![]
    } else {
        concat_words(words.drop_last()) + words.last()
    }
}

/// Whether no word has been typed yet: no words, or one empty word.
pub open spec fn at_start(args: Seq<Seq<char>>) -> bool {
    args.len() == 0 || (args.len() == 1 && args[0].len() == 0)
}

/// The candidates for the words `args` typed after the command.
pub open spec fn completions_of(
    spec: SpecView,
    args: Seq<Seq<char>>,
    found: LookupsView,
) -> Seq<CompletionView> {
    if at_start(args) {
        let listed = match spec.template {
            Some(t) => template_entries(t, seq![], found.entries),
            None => seq![],
        };
        sub_entries(spec.subcommands) + option_entries(spec.options) + listed
    } else if args.len() == 1 && is_dash_word(args[0]) {
        option_entries(spec.options).filter(has_prefix(args[0]))
    } else if args.len() == 1 {
        let p = args[0];
        let listed = match spec.template {
            Some(t) => template_entries(t, p, found.entries),
            None => seq![],
        };
        sub_entries(spec.subcommands.filter(named_with_prefix(p))) + option_entries(
            spec.options,
        ).filter(has_prefix(p)) + listed
    } else {
        match first_index(sub_names(spec.subcommands), args[0]) {
            Some(i) => sub_completions_of(spec.subcommands[i], args.last(), found),
            None => match spec.template {
                Some(t) => template_entries(t, concat_words(args), found.entries),
                None => seq![],
            },
        }
    }
}

/// The partial path that a template is asked to complete for `args`, if any.
pub open spec fn template_partial(spec: SpecView, args: Seq<Seq<char>>) -> Option<Seq<char>> {
    if at_start(args) {
        match spec.template {
            Some(_) => Some(seq![]),
            None => None,
        }
    } else if args.len() == 1 && is_dash_word(args[0]) {
        None
    } else if args.len() == 1 {
        match spec.template {
            Some(_) => Some(args[0]),
            None => None,
        }
    } else {
        match first_index(sub_names(spec.subcommands), args[0]) {
            Some(i) => if is_dash_word(args.last()) {
                None
            } else {
                match spec.subcommands[i].template {
                    Some(_) => Some(args.last()),
                    None => None,
                }
            },
            None => match spec.template {
                Some(_) => Some(concat_words(args)),
                None => None,
            },
        }
    }
}

/// The generator command that is run for `args`, if any.
pub open spec fn generator_command(spec: SpecView, args: Seq<Seq<char>>) -> Option<Seq<char>> {
    if args.len() < 2 {
        None
    } else {
        match first_index(sub_names(spec.subcommands), args[0]) {
            Some(i) => if is_dash_word(args.last()) {
                None
            } else {
                spec.subcommands[i].generator
            },
            None => None,
        }
    }
}

/// The outside work that a completion request for `args` needs.
pub open spec fn needs_of(spec: SpecView, args: Seq<Seq<char>>) -> NeedsView {
    NeedsView {
        listing_dir: match template_partial(spec, args) {
            Some(p) => Some(listed_dir(p)),
            None => None,
        },
        command: generator_command(spec, args),
    }
}

// ------------------------------------------------------------------------
// Lemmas
// ------------------------------------------------------------------------

proof fn lemma_first_index_unique(names: Seq<Seq<char>>, n: Seq<char>, i: int, j: int)
    requires
        is_first_index(names, n, i),
        is_first_index(names, n, j),
    ensures
        i == j,
{
    if i < j {
        assert(names[i] != n);
    } else if j < i {
        assert(names[j] != n);
    }
}

proof fn lemma_first_index_found(names: Seq<Seq<char>>, n: Seq<char>, i: int)
    requires
        is_first_index(names, n, i),
    ensures
        first_index(names, n) == Some(i),
{
    let k = choose|k: int| is_first_index(names, n, k);
    lemma_first_index_unique(names, n, i, k);
}

proof fn lemma_last_slash(p: Seq<char>, k: Option<usize>)
    requires
        match k {
            Some(k) => k < p.len() && p[k as int] == '/' && forall|j: int|
                k < j < p.len() ==> p[j] != '/',
            None => forall|j: int| 0 <= j < p.len() ==> p[j] != '/',
        },
    ensures
        last_slash(p) == match k {
            Some(k) => Some(k as int),
            None => None::<int>,
        },
    decreases p.len(),
{
    if p.len() > 0 && p.last() != '/' {
        lemma_last_slash(p.drop_last(), k);
    }
}

proof fn lemma_last_slash_in_range(p: Seq<char>)
    ensures
        match last_slash(p) {
            Some(k) => 0 <= k < p.len() && p[k] == '/',
            None => true,
        },
    decreases p.len(),
{
    if p.len() > 0 && p.last() != '/' {
        lemma_last_slash_in_range(p.drop_last());
    }
}

/// The empty prefix keeps every candidate.
proof fn lemma_empty_prefix_keeps_all(cs: Seq<CompletionView>)
    ensures
        cs.filter(has_prefix(seq![])) == cs,
    decreases cs.len(),
{
    reveal(Seq::filter);
    if cs.len() > 0 {
        lemma_empty_prefix_keeps_all(cs.drop_last());
        assert(seq![].is_prefix_of(cs.last().value));
        assert(cs.drop_last().push(cs.last()) =~= cs);
    } else {
        assert(cs.filter(has_prefix(seq![])) =~= cs);
    }
}

// ------------------------------------------------------------------------
// Computation
// ------------------------------------------------------------------------

pub(crate) fn copy_text(o: &Option<String>) -> (r: Option<String>)
    ensures
        text_of(r) == text_of(*o),
{
    match o {
        Some(s) => Some(s.clone()),
        None => None,
    }
}

/// Appends the candidates of `opt` whose value begins with `partial`.
fn push_opt_completions(out: &mut Vec<Completion>, opt: &Opt, partial: &str)
    ensures
        completion_views(final(out)@) == completion_views(old(out)@) + opt_entries(opt@).filter(
            has_prefix(partial@),
        ),
{
    let ghost pred = has_prefix(partial@);
    let ghost start = completion_views(out@);
    let ghost e = opt_entries(opt@);
    let long = Completion {
        value: opt.name.clone(),
        display_name: None,
        description: copy_text(&opt.description),
        kind: CompletionKind::Option,
    };
    let ghost long_v = long@;
    let ghost one = Seq::<CompletionView>::empty().push(long_v);
    proof {
        reveal(Seq::filter);
        assert(Seq::<CompletionView>::empty().filter(pred) =~= Seq::<CompletionView>::empty());
        Seq::<CompletionView>::empty().lemma_filter_push(long_v, pred);
    }
    if starts_with(opt.name.as_str(), partial) {
        out.push(long);
    }
    assert(completion_views(out@) =~= start + one.filter(pred));
    match &opt.short {
        Some(short) => {
            let c = Completion {
                value: short.clone(),
                display_name: None,
                description: copy_text(&opt.description),
                kind: CompletionKind::Option,
            };
            let ghost c_v = c@;
            proof {
                one.lemma_filter_push(c_v, pred);
                assert(e =~= one.push(c_v));
            }
            if starts_with(short.as_str(), partial) {
                out.push(c);
            }
            assert(completion_views(out@) =~= start + e.filter(pred));
        },
        None => {
            assert(e =~= one);
        },
    }
}

/// The candidates of `opt`: its name, then its short form if it has one.
pub fn opt_completions(opt: &Opt) -> (out: Vec<Completion>)
    ensures
        completion_views(out@) == opt_entries(opt@),
{
    let mut out: Vec<Completion> = Vec::new();
    assert(completion_views(out@) =~= Seq::<CompletionView>::empty());
    push_opt_completions(&mut out, opt, "");
    proof {
        reveal_strlit("");
        assert(""@ =~= Seq::<char>::empty());
        lemma_empty_prefix_keeps_all(opt_entries(opt@));
        assert(Seq::<CompletionView>::empty() + opt_entries(opt@) =~= opt_entries(opt@));
    }
    out
}

/// The candidates of `opts` whose value begins with `partial`, in order.
pub fn options_matching(opts: &Vec<Opt>, partial: &str) -> (out: Vec<Completion>)
    ensures
        completion_views(out@) == option_entries(opt_views(opts@)).filter(has_prefix(partial@)),
{
    let ghost pred = has_prefix(partial@);
    let ghost all = opt_views(opts@);
    let mut out: Vec<Completion> = Vec::new();
    let mut i: usize = 0;
    proof {
        reveal(Seq::filter);
        assert(all.take(0) =~= seq![]);
        assert(completion_views(out@) =~= option_entries(all.take(0)).filter(pred));
    }
    while i < opts.len()
        invariant
            all == opt_views(opts@),
            pred == has_prefix(partial@),
            i <= opts.len(),
            completion_views(out@) == option_entries(all.take(i as int)).filter(pred),
        decreases opts.len() - i,
    {
        let ghost before = option_entries(all.take(i as int));
        push_opt_completions(&mut out, &opts[i], partial);
        proof {
            assert(all.take(i + 1).drop_last() =~= all.take(i as int));
            assert(all.take(i + 1).last() == opts@[i as int]@);
            assert(option_entries(all.take(i + 1)) == before + opt_entries(opts@[i as int]@));
            Seq::filter_distributes_over_add(before, opt_entries(opts@[i as int]@), pred);
        }
        i = i + 1;
    }
    assert(all.take(opts.len() as int) =~= all);
    out
}

/// The candidates of the subcommands whose name begins with `partial`.
fn subcommands_matching(subs: &Vec<Subcommand>, partial: &str) -> (out: Vec<Completion>)
    ensures
        completion_views(out@) == sub_entries(sub_views(subs@).filter(named_with_prefix(partial@))),
{
    let ghost pred = named_with_prefix(partial@);
    let ghost all = sub_views(subs@);
    let mut out: Vec<Completion> = Vec::new();
    let mut i: usize = 0;
    proof {
        reveal(Seq::filter);
        assert(all.take(0) =~= seq![]);
        assert(completion_views(out@) =~= sub_entries(all.take(0).filter(pred)));
    }
    while i < subs.len()
        invariant
            all == sub_views(subs@),
            pred == named_with_prefix(partial@),
            i <= subs.len(),
            completion_views(out@) == sub_entries(all.take(i as int).filter(pred)),
        decreases subs.len() - i,
    {
        let s = &subs[i];
        let ghost prev = completion_views(out@);
        proof {
            assert(all.take(i + 1) =~= all.take(i as int).push(s@));
            all.take(i as int).lemma_filter_push(s@, pred);
        }
        if starts_with(s.name.as_str(), partial) {
            let c = Completion {
                value: s.name.clone(),
                display_name: None,
                description: copy_text(&s.description),
                kind: CompletionKind::Subcommand,
            };
            out.push(c);
            assert(completion_views(out@) =~= prev.push(c@));
            assert(sub_entries(all.take(i as int).filter(pred).push(s@)) =~= sub_entries(
                all.take(i as int).filter(pred),
            ).push(sub_entry(s@)));
        }
        i = i + 1;
    }
    assert(all.take(subs.len() as int) =~= all);
    out
}

/// The directory that a template lists for the partial path `partial`.
pub fn template_dir(partial: &str) -> (dir: String)
    ensures
        dir@ == listed_dir(partial@),
{
    let v = chars_of(partial);
    let n = v.len();
    let k = last_index_of(&v, '/');
    proof {
        lemma_last_slash(partial@, k);
    }
    match k {
        Some(k) => slice_of(partial, 0, k + 1),
        None => {
            let d = String::from_str(".");
            proof {
                reveal_strlit(".");
            }
            assert(d@ =~= seq!['.']);
            d
        },
    }
}

/// The candidates of a template for the partial path `partial`, given the
/// entries of `listed_dir(partial)` (`None` when it could not be read).
pub fn template_completions(
    template: Template,
    partial: &str,
    entries: &Option<Vec<DirEntry>>,
) -> (out: Vec<Completion>)
    ensures
        completion_views(out@) == template_entries(
            template,
            partial@,
            match entries {
                Some(es) => Some(entry_views(es@)),
                None => None,
            },
        ),
{
    let es = match entries {
        None => {
            return Vec::new();
        },
        Some(es) => es,
    };
    let v = chars_of(partial);
    let n = v.len();
    let k = last_index_of(&v, '/');
    proof {
        lemma_last_slash(partial@, k);
    }
    let (prefix, filter) = match k {
        Some(k) => (slice_of(partial, 0, k + 1), slice_of(partial, k + 1, n)),
        None => (String::new(), String::from_str(partial)),
    };
    assert(prefix@ =~= dir_prefix(partial@));
    assert(filter@ =~= name_filter(partial@));
    let mut out: Vec<Completion> = Vec::new();
    if prefix.unicode_len() > 0 && filter.unicode_len() == 0 {
        let confirm = Completion {
            value: prefix.clone(),
            display_name: Some(String::from_str("\u{21b5}")),
            description: Some(String::from_str("Enter the current directory")),
            kind: CompletionKind::Command,
        };
        out.push(confirm);
    }
    let ghost head = completion_views(out@);
    let ghost pred = entry_shown(template, filter@);
    let ghost all = entry_views(es@);
    let mut i: usize = 0;
    proof {
        reveal(Seq::filter);
        assert(all.take(0) =~= seq![]);
        assert(completion_views(out@) =~= head + entry_candidates(prefix@, all.take(0).filter(pred)));
    }
    while i < es.len()
        invariant
            all == entry_views(es@),
            pred == entry_shown(template, filter@),
            i <= es.len(),
            completion_views(out@) == head + entry_candidates(prefix@, all.take(i as int).filter(pred)),
        decreases es.len() - i,
    {
        let e = &es[i];
        let ghost prev = completion_views(out@);
        proof {
            assert(all.take(i + 1) =~= all.take(i as int).push(e@));
            all.take(i as int).lemma_filter_push(e@, pred);
        }
        let kept = match template {
            Template::Filepaths => true,
            Template::Folders => e.is_dir,
        };
        let mut label = e.name.clone();
        if e.is_dir {
            label.append("/");
            proof {
                reveal_strlit("/");
                assert("/"@ =~= seq!['/']);
            }
        }
        assert(label@ == entry_label(e@));
        if kept && starts_with(label.as_str(), filter.as_str()) {
            let mut value = prefix.clone();
            value.append(label.as_str());
            let shown = if prefix.unicode_len() == 0 {
                None
            } else {
                Some(label)
            };
            let c = Completion { value, display_name: shown, description: None, kind: CompletionKind::File };
            assert(c@ == entry_candidate(prefix@, e@));
            out.push(c);
            assert(completion_views(out@) =~= prev.push(c@));
            assert(entry_candidates(prefix@, all.take(i as int).filter(pred).push(e@)) =~= entry_candidates(
                prefix@,
                all.take(i as int).filter(pred),
            ).push(entry_candidate(prefix@, e@)));
        }
        i = i + 1;
    }
    assert(all.take(es.len() as int) =~= all);
    out
}

/// The candidates of a generator's standard output (`None` when the command
/// could not be run or failed): each non-empty line, trimmed.
pub fn generator_completions(kind: GeneratorKind, output: &Option<String>) -> (out: Vec<
    Completion,
>)
    ensures
        completion_views(out@) == generated_entries(kind, text_of(*output)),
{
    let text = match output {
        None => {
            return Vec::new();
        },
        Some(t) => t,
    };
    let ck = match kind {
        GeneratorKind::Branch => CompletionKind::Branch,
        GeneratorKind::File => CompletionKind::File,
        GeneratorKind::Command => CompletionKind::Command,
    };
    let ls = lines(text.as_str());
    let ghost all = views_of(ls@);
    let ghost pred = non_empty_line();
    let mut out: Vec<Completion> = Vec::new();
    let mut i: usize = 0;
    proof {
        reveal(Seq::filter);
        assert(all.take(0) =~= seq![]);
        assert(completion_views(out@) =~= generated_from(kind, all.take(0).filter(pred)));
    }
    while i < ls.len()
        invariant
            all == views_of(ls@),
            pred == non_empty_line(),
            ck == generated_kind(kind),
            i <= ls.len(),
            completion_views(out@) == generated_from(kind, all.take(i as int).filter(pred)),
        decreases ls.len() - i,
    {
        let line = &ls[i];
        let ghost prev = completion_views(out@);
        proof {
            assert(all.take(i + 1) =~= all.take(i as int).push(line@));
            all.take(i as int).lemma_filter_push(line@, pred);
        }
        if line.unicode_len() > 0 {
            let c = Completion {
                value: trim(line.as_str()),
                display_name: None,
                description: None,
                kind: ck,
            };
            out.push(c);
            assert(completion_views(out@) =~= prev.push(c@));
            assert(generated_from(kind, all.take(i as int).filter(pred).push(line@)) =~= generated_from(
                kind,
                all.take(i as int).filter(pred),
            ).push(generated_entry(kind, line@)));
        }
        i = i + 1;
    }
    assert(all.take(ls.len() as int) =~= all);
    out
}

/// An owned copy of `c`.
fn copy_completion(c: &Completion) -> (r: Completion)
    ensures
        r@ == c@,
{
    Completion {
        value: c.value.clone(),
        display_name: copy_text(&c.display_name),
        description: copy_text(&c.description),
        kind: c.kind,
    }
}

/// The candidates of `cs` that are files or whose value begins with `partial`.
fn keep_files_or_prefixed(cs: &Vec<Completion>, partial: &str) -> (out: Vec<Completion>)
    ensures
        completion_views(out@) == completion_views(cs@).filter(file_or_prefix(partial@)),
{
    let ghost pred = file_or_prefix(partial@);
    let ghost all = completion_views(cs@);
    let mut out: Vec<Completion> = Vec::new();
    let mut i: usize = 0;
    proof {
        reveal(Seq::filter);
        assert(all.take(0) =~= seq![]);
        assert(completion_views(out@) =~= all.take(0).filter(pred));
    }
    while i < cs.len()
        invariant
            all == completion_views(cs@),
            pred == file_or_prefix(partial@),
            i <= cs.len(),
            completion_views(out@) == all.take(i as int).filter(pred),
        decreases cs.len() - i,
    {
        let c = &cs[i];
        let ghost prev = completion_views(out@);
        proof {
            assert(all.take(i + 1) =~= all.take(i as int).push(c@));
            all.take(i as int).lemma_filter_push(c@, pred);
        }
        let is_file = match c.kind {
            CompletionKind::File => true,
            _ => false,
        };
        if is_file || starts_with(c.value.as_str(), partial) {
            let d = copy_completion(c);
            out.push(d);
            assert(completion_views(out@) =~= prev.push(c@));
        }
        i = i + 1;
    }
    assert(all.take(cs.len() as int) =~= all);
    out
}

/// Moves the candidates of `more` to the end of `out`.
fn append_completions(out: &mut Vec<Completion>, more: Vec<Completion>)
    ensures
        completion_views(final(out)@) == completion_views(old(out)@) + completion_views(more@),
{
    let ghost added = more@;
    let mut more = more;
    out.append(&mut more);
    assert(completion_views(out@) =~= completion_views(old(out)@) + completion_views(added));
}

/// The candidates after the subcommand `sub`, for the word `partial` being
/// typed.
pub fn sub_completions(sub: &Subcommand, partial: &str, found: &Lookups) -> (out: Vec<Completion>)
    ensures
        completion_views(out@) == sub_completions_of(sub@, partial@, found@),
{
    if starts_with_char(partial, '-') {
        return options_matching(&sub.options, partial);
    }
    let mut gathered: Vec<Completion> = Vec::new();
    if sub.generator.is_some() {
        gathered = generator_completions(sub.generator_kind, &found.generator_output);
    }
    assert(completion_views(gathered@) == match sub@.generator {
        Some(_) => generated_entries(sub@.generator_kind, found@.output),
        None => seq![],
    }) by {
        assert(completion_views(Seq::<Completion>::empty()) =~= Seq::<CompletionView>::empty());
    }
    let ghost listed = match sub@.template {
        Some(t) => template_entries(t, partial@, found@.entries),
        None => seq![],
    };
    match sub.template {
        Some(t) => {
            let more = template_completions(t, partial, &found.entries);
            append_completions(&mut gathered, more);
        },
        None => {
            assert(completion_views(gathered@) + listed =~= completion_views(gathered@));
        },
    }
    let mut kept = if partial.unicode_len() > 0 {
        keep_files_or_prefixed(&gathered, partial)
    } else {
        gathered
    };
    let opts = options_matching(&sub.options, partial);
    append_completions(&mut kept, opts);
    kept
}

/// The index of the first subcommand named `name`.
fn find_subcommand(subs: &Vec<Subcommand>, name: &str) -> (r: Option<usize>)
    ensures
        match r {
            Some(i) => is_first_index(sub_names(sub_views(subs@)), name@, i as int),
            None => first_index(sub_names(sub_views(subs@)), name@) is None,
        },
{
    let ghost names = sub_names(sub_views(subs@));
    let mut i: usize = 0;
    while i < subs.len()
        invariant
            names == sub_names(sub_views(subs@)),
            names.len() == subs.len(),
            i <= subs.len(),
            forall|j: int| 0 <= j < i ==> names[j] != name@,
        decreases subs.len() - i,
    {
        if crate::text::same_text(subs[i].name.as_str(), name) {
            return Some(i);
        }
        i = i + 1;
    }
    proof {
        if exists|k: int| is_first_index(names, name@, k) {
            let k = choose|k: int| is_first_index(names, name@, k);
            assert(names[k] != name@);
        }
    }
    None
}

/// The concatenation of all words of `args`.
fn concat_args(args: &[&str]) -> (out: String)
    ensures
        out@ == concat_words(arg_views(args@)),
{
    let ghost words = arg_views(args@);
    let mut out = String::new();
    let mut i: usize = 0;
    assert(words.take(0) =~= seq![]);
    while i < args.len()
        invariant
            words == arg_views(args@),
            i <= args.len(),
            out@ == concat_words(words.take(i as int)),
        decreases args.len() - i,
    {
        out.append(args[i]);
        assert(words.take(i + 1).drop_last() =~= words.take(i as int));
        i = i + 1;
    }
    assert(words.take(args.len() as int) =~= words);
    out
}

/// The empty name prefix keeps every subcommand.
proof fn lemma_empty_prefix_keeps_subs(subs: Seq<SubView>)
    ensures
        subs.filter(named_with_prefix(seq![])) == subs,
    decreases subs.len(),
{
    reveal(Seq::filter);
    if subs.len() > 0 {
        lemma_empty_prefix_keeps_subs(subs.drop_last());
        assert(seq![].is_prefix_of(subs.last().name));
        assert(subs.drop_last().push(subs.last()) =~= subs);
    } else {
        assert(subs.filter(named_with_prefix(seq![])) =~= subs);
    }
}

impl Spec {
    /// The candidates for the words `args` typed after the command, given
    /// what the caller gathered for `self.needs(args)`.
    pub fn completions(&self, args: &[&str], found: &Lookups) -> (out: Vec<Completion>)
        ensures
            completion_views(out@) == completions_of(self@, arg_views(args@), found@),
    {
        let ghost words = arg_views(args@);
        let n = args.len();
        if n == 0 || (n == 1 && args[0].is_empty()) {
            let empty = "";
            proof {
                reveal_strlit("");
                assert(empty@ =~= Seq::<char>::empty());
                lemma_empty_prefix_keeps_subs(self@.subcommands);
                lemma_empty_prefix_keeps_all(option_entries(self@.options));
            }
            let mut result = subcommands_matching(&self.subcommands, empty);
            let opts = options_matching(&self.options, empty);
            append_completions(&mut result, opts);
            match self.template {
                Some(t) => {
                    let more = template_completions(t, empty, &found.entries);
                    append_completions(&mut result, more);
                },
                None => {
                    assert(completion_views(result@) + seq![] =~= completion_views(result@));
                },
            }
            return result;
        }
        if n == 1 {
            let p = args[0];
            if starts_with_char(p, '-') {
                return options_matching(&self.options, p);
            }
            let mut result = subcommands_matching(&self.subcommands, p);
            let opts = options_matching(&self.options, p);
            append_completions(&mut result, opts);
            match self.template {
                Some(t) => {
                    let more = template_completions(t, p, &found.entries);
                    append_completions(&mut result, more);
                },
                None => {
                    assert(completion_views(result@) + seq![] =~= completion_views(result@));
                },
            }
            return result;
        }
        match find_subcommand(&self.subcommands, args[0]) {
            Some(i) => {
                proof {
                    lemma_first_index_found(sub_names(self@.subcommands), words[0], i as int);
                }
                sub_completions(&self.subcommands[i], args[n - 1], found)
            },
            None => match self.template {
                Some(t) => {
                    let combined = concat_args(args);
                    template_completions(t, combined.as_str(), &found.entries)
                },
                None => Vec::new(),
            },
        }
    }

    /// The outside work that completing `args` needs: which directory to
    /// list and which generator command to run.
    pub fn needs(&self, args: &[&str]) -> (r: Needs)
        ensures
            r@ == needs_of(self@, arg_views(args@)),
    {
        let ghost words = arg_views(args@);
        let n = args.len();
        let mut partial: Option<String> = None;
        let mut command: Option<String> = None;
        if n == 0 || (n == 1 && args[0].is_empty()) {
            if self.template.is_some() {
                partial = Some(String::new());
            }
        } else if n == 1 {
            if !starts_with_char(args[0], '-') && self.template.is_some() {
                partial = Some(String::from_str(args[0]));
            }
        } else {
            match find_subcommand(&self.subcommands, args[0]) {
                Some(i) => {
                    proof {
                        lemma_first_index_found(sub_names(self@.subcommands), words[0], i as int);
                    }
                    let last = args[n - 1];
                    if !starts_with_char(last, '-') {
                        let sub = &self.subcommands[i];
                        if sub.template.is_some() {
                            partial = Some(String::from_str(last));
                        }
                        command = copy_text(&sub.generator);
                    }
                },
                None => {
                    if self.template.is_some() {
                        partial = Some(concat_args(args));
                    }
                },
            }
        }
        assert(text_of(partial) == template_partial(self@, words));
        let listing_dir = match &partial {
            Some(p) => Some(template_dir(p.as_str())),
            None => None,
        };
        Needs { listing_dir, command }
    }
}

// ------------------------------------------------------------------------
// Laws
// ------------------------------------------------------------------------

proof fn lemma_filtered_have_prefix(cs: Seq<CompletionView>, p: Seq<char>)
    ensures
        forall|i: int|
            0 <= i < cs.filter(has_prefix(p)).len() ==> p.is_prefix_of(
                #[trigger] cs.filter(has_prefix(p))[i].value,
            ),
{
    assert forall|i: int| 0 <= i < cs.filter(has_prefix(p)).len() implies p.is_prefix_of(
        #[trigger] cs.filter(has_prefix(p))[i].value,
    ) by {
        cs.lemma_filter_pred(has_prefix(p), i);
    }
}

proof fn lemma_filter_preserves<A>(s: Seq<A>, pred: spec_fn(A) -> bool, inv: spec_fn(A) -> bool)
    requires
        forall|i: int| 0 <= i < s.len() ==> inv(#[trigger] s[i]),
    ensures
        forall|i: int| 0 <= i < s.filter(pred).len() ==> inv(#[trigger] s.filter(pred)[i]),
    decreases s.len(),
{
    reveal(Seq::filter);
    if s.len() > 0 {
        lemma_filter_preserves(s.drop_last(), pred, inv);
        assert forall|i: int| 0 <= i < s.filter(pred).len() implies inv(
            #[trigger] s.filter(pred)[i],
        ) by {
            if i < s.drop_last().filter(pred).len() {
                assert(s.filter(pred)[i] == s.drop_last().filter(pred)[i]);
            } else {
                assert(s.filter(pred)[i] == s.last());
            }
        }
    }
}

proof fn lemma_option_entries_are_options(opts: Seq<OptView>)
    ensures
        forall|i: int|
            0 <= i < option_entries(opts).len() ==> (#[trigger] option_entries(opts)[i]).kind
                == CompletionKind::Option,
    decreases opts.len(),
{
    if opts.len() > 0 {
        lemma_option_entries_are_options(opts.drop_last());
    }
}

proof fn lemma_template_entries_extend_partial(
    t: Template,
    p: Seq<char>,
    listing: Option<Seq<EntryView>>,
)
    ensures
        forall|i: int|
            0 <= i < template_entries(t, p, listing).len() ==> p.is_prefix_of(
                #[trigger] template_entries(t, p, listing)[i].value,
            ),
{
    match listing {
        None => {},
        Some(es) => {
            let prefix = dir_prefix(p);
            let f = name_filter(p);
            lemma_last_slash_in_range(p);
            assert(prefix + f =~= p);
            let shown = es.filter(entry_shown(t, f));
            let r = template_entries(t, p, listing);
            assert forall|i: int| 0 <= i < r.len() implies p.is_prefix_of(#[trigger] r[i].value) by {
                let head_len: int = if prefix.len() > 0 && f.len() == 0 {
                    1
                } else {
                    0
                };
                if i < head_len {
                    assert(r[i].value == prefix);
                    assert(p =~= prefix);
                } else {
                    let j = i - head_len;
                    es.lemma_filter_pred(entry_shown(t, f), j);
                    let e = shown[j];
                    assert(r[i] == entry_candidate(prefix, e));
                    assert(f.is_prefix_of(entry_label(e)));
                    assert(p =~= (prefix + entry_label(e)).subrange(0, p.len() as int));
                }
            }
        },
    }
}

/// Law: when one non-empty word has been typed, every candidate's value
/// begins with that word; when the word begins with `'-'`, every candidate
/// is an option.
pub proof fn law_single_word_candidates_extend_it(spec: SpecView, p: Seq<char>, found: LookupsView)
    requires
        p.len() > 0,
    ensures
        forall|i: int|
            0 <= i < completions_of(spec, seq![p], found).len() ==> p.is_prefix_of(
                #[trigger] completions_of(spec, seq![p], found)[i].value,
            ),
        is_dash_word(p) ==> forall|i: int|
            0 <= i < completions_of(spec, seq![p], found).len() ==> (#[trigger] completions_of(
                spec,
                seq![p],
                found,
            )[i]).kind == CompletionKind::Option,
{
    let args = seq![p];
    let r = completions_of(spec, args, found);
    let opts = option_entries(spec.options).filter(has_prefix(p));
    lemma_filtered_have_prefix(option_entries(spec.options), p);
    if is_dash_word(p) {
        lemma_option_entries_are_options(spec.options);
        lemma_filter_preserves(
            option_entries(spec.options),
            has_prefix(p),
            |c: CompletionView| c.kind == CompletionKind::Option,
        );
    } else {
        let subs = spec.subcommands.filter(named_with_prefix(p));
        let se = sub_entries(subs);
        let listed = match spec.template {
            Some(t) => template_entries(t, p, found.entries),
            None => seq![],
        };
        match spec.template {
            Some(t) => lemma_template_entries_extend_partial(t, p, found.entries),
            None => {},
        }
        assert(r == se + opts + listed);
        assert forall|i: int| 0 <= i < r.len() implies p.is_prefix_of(#[trigger] r[i].value) by {
            if i < se.len() {
                spec.subcommands.lemma_filter_pred(named_with_prefix(p), i);
                assert(r[i] == sub_entry(subs[i]));
            } else if i < se.len() + opts.len() {
                assert(r[i] == opts[i - se.len()]);
            } else {
                assert(r[i] == listed[i - se.len() - opts.len()]);
            }
        }
    }
}

/// Law: after a subcommand, every candidate either is a file or begins with
/// the word being typed (when that word is not empty); when the first word
/// names no subcommand, every candidate begins with all words run together.
pub proof fn law_later_candidates_extend_last_word(
    spec: SpecView,
    args: Seq<Seq<char>>,
    found: LookupsView,
)
    requires
        args.len() >= 2,
    ensures
        first_index(sub_names(spec.subcommands), args[0]) is Some && args.last().len() > 0
            ==> forall|i: int|
            0 <= i < completions_of(spec, args, found).len() ==> (#[trigger] completions_of(
                spec,
                args,
                found,
            )[i]).kind == CompletionKind::File || args.last().is_prefix_of(
                completions_of(spec, args, found)[i].value,
            ),
        first_index(sub_names(spec.subcommands), args[0]) is None ==> forall|i: int|
            0 <= i < completions_of(spec, args, found).len() ==> concat_words(args).is_prefix_of(
                #[trigger] completions_of(spec, args, found)[i].value,
            ),
{
    let r = completions_of(spec, args, found);
    match first_index(sub_names(spec.subcommands), args[0]) {
        Some(k) => {
            let partial = args.last();
            if partial.len() > 0 {
                let sub = spec.subcommands[k];
                let opts = option_entries(sub.options).filter(has_prefix(partial));
                lemma_filtered_have_prefix(option_entries(sub.options), partial);
                if !is_dash_word(partial) {
                    let generated = match sub.generator {
                        Some(_) => generated_entries(sub.generator_kind, found.output),
                        None => seq![],
                    };
                    let listed = match sub.template {
                        Some(t) => template_entries(t, partial, found.entries),
                        None => seq![],
                    };
                    let gathered = generated + listed;
                    let kept = gathered.filter(file_or_prefix(partial));
                    assert forall|i: int| 0 <= i < kept.len() implies (#[trigger] kept[i]).kind
                        == CompletionKind::File || partial.is_prefix_of(kept[i].value) by {
                        gathered.lemma_filter_pred(file_or_prefix(partial), i);
                    }
                    assert(r == kept + opts);
                    assert forall|i: int| 0 <= i < r.len() implies (#[trigger] r[i]).kind
                        == CompletionKind::File || partial.is_prefix_of(r[i].value) by {
                        if i < kept.len() {
                            assert(r[i] == kept[i]);
                        } else {
                            assert(r[i] == opts[i - kept.len()]);
                        }
                    }
                }
            }
        },
        None => {
            match spec.template {
                Some(t) => lemma_template_entries_extend_partial(t, concat_words(args), found.entries),
                None => {},
            }
        },
    }
}

/// Law: the candidates depend on the gathered directory listing only when
/// `needs_of` names a directory, and on the generator output only when it
/// names a command.
pub proof fn law_lookups_consulted_only_as_needed(
    spec: SpecView,
    args: Seq<Seq<char>>,
    f1: LookupsView,
    f2: LookupsView,
)
    requires
        needs_of(spec, args).listing_dir is Some ==> f1.entries == f2.entries,
        needs_of(spec, args).command is Some ==> f1.output == f2.output,
    ensures
        completions_of(spec, args, f1) == completions_of(spec, args, f2),
{
}

proof fn lemma_contains_in_concat<A>(a: Seq<A>, b: Seq<A>, x: A)
    requires
        a.contains(x) || b.contains(x),
    ensures
        (a + b).contains(x),
{
    if a.contains(x) {
        let j = choose|j: int| 0 <= j < a.len() && a[j] == x;
        assert((a + b)[j] == x);
    } else {
        let j = choose|j: int| 0 <= j < b.len() && b[j] == x;
        assert((a + b)[a.len() + j] == x);
    }
}

proof fn lemma_option_entries_contain(opts: Seq<OptView>, i: int)
    requires
        0 <= i < opts.len(),
    ensures
        option_entries(opts).contains(
            CompletionView {
                value: opts[i].name,
                display_name: None,
                description: opts[i].description,
                kind: CompletionKind::Option,
            },
        ),
        opts[i].short matches Some(sh) ==> option_entries(opts).contains(
            CompletionView {
                value: sh,
                display_name: None,
                description: opts[i].description,
                kind: CompletionKind::Option,
            },
        ),
    decreases opts.len(),
{
    let rest = opts.drop_last();
    let last = opt_entries(opts.last());
    let long = CompletionView {
        value: opts[i].name,
        display_name: None,
        description: opts[i].description,
        kind: CompletionKind::Option,
    };
    if i == opts.len() - 1 {
        assert(last[0] == long);
        lemma_contains_in_concat(option_entries(rest), last, long);
        if let Some(sh) = opts[i].short {
            let short = CompletionView {
                value: sh,
                display_name: None,
                description: opts[i].description,
                kind: CompletionKind::Option,
            };
            assert(last[1] == short);
            lemma_contains_in_concat(option_entries(rest), last, short);
        }
    } else {
        lemma_option_entries_contain(rest, i);
        assert(rest[i] == opts[i]);
        lemma_contains_in_concat(option_entries(rest), last, long);
        if let Some(sh) = opts[i].short {
            let short = CompletionView {
                value: sh,
                display_name: None,
                description: opts[i].description,
                kind: CompletionKind::Option,
            };
            lemma_contains_in_concat(option_entries(rest), last, short);
        }
    }
}

/// What a single typed word `p` gives: the subcommands and options whose
/// text begins with `p`, then the template's candidates; only the options
/// when `p` begins with `'-'`.
proof fn lemma_single_word_parts(spec: SpecView, p: Seq<char>, found: LookupsView)
    ensures
        !is_dash_word(p) ==> completions_of(spec, seq![p], found) == sub_entries(
            spec.subcommands.filter(named_with_prefix(p)),
        ) + option_entries(spec.options).filter(has_prefix(p)) + match spec.template {
            Some(t) => template_entries(t, p, found.entries),
            None => seq![],
        },
        is_dash_word(p) ==> completions_of(spec, seq![p], found) == option_entries(
            spec.options,
        ).filter(has_prefix(p)),
{
    let args = seq![p];
    assert(args[0] == p);
    if p.len() == 0 {
        assert(at_start(args));
        lemma_empty_prefix_keeps_subs(spec.subcommands);
        lemma_empty_prefix_keeps_all(option_entries(spec.options));
        assert(p =~= seq![]);
    }
}

/// Law: every subcommand and every option (long and short form) whose text
/// begins with the one word typed is offered, with its description; for a
/// word that begins with `'-'` only the options are.  With the empty word,
/// every subcommand and every option is offered.
pub proof fn law_every_match_is_offered(spec: SpecView, p: Seq<char>, found: LookupsView)
    ensures
        forall|i: int|
            0 <= i < spec.subcommands.len() && !is_dash_word(p) && p.is_prefix_of(
                #[trigger] spec.subcommands[i].name,
            ) ==> completions_of(spec, seq![p], found).contains(sub_entry(spec.subcommands[i])),
        forall|i: int|
            0 <= i < spec.options.len() && p.is_prefix_of(#[trigger] spec.options[i].name)
                ==> completions_of(spec, seq![p], found).contains(
                CompletionView {
                    value: spec.options[i].name,
                    display_name: None,
                    description: spec.options[i].description,
                    kind: CompletionKind::Option,
                },
            ),
        forall|i: int|
            0 <= i < spec.options.len() && (#[trigger] spec.options[i].short matches Some(sh)
                && p.is_prefix_of(sh)) ==> completions_of(spec, seq![p], found).contains(
                CompletionView {
                    value: spec.options[i].short->0,
                    display_name: None,
                    description: spec.options[i].description,
                    kind: CompletionKind::Option,
                },
            ),
{
    lemma_single_word_parts(spec, p, found);
    let r = completions_of(spec, seq![p], found);
    let oe = option_entries(spec.options);
    let opts = oe.filter(has_prefix(p));
    let subs = sub_entries(spec.subcommands.filter(named_with_prefix(p)));
    let listed = match spec.template {
        Some(t) => template_entries(t, p, found.entries),
        None => seq![],
    };
    assert forall|x: CompletionView| #[trigger] opts.contains(x) implies r.contains(x) by {
        if !is_dash_word(p) {
            lemma_contains_in_concat(subs, opts, x);
            lemma_contains_in_concat(subs + opts, listed, x);
        }
    }
    assert forall|i: int|
        0 <= i < spec.options.len() && p.is_prefix_of(#[trigger] spec.options[i].name)
            implies r.contains(
        CompletionView {
            value: spec.options[i].name,
            display_name: None,
            description: spec.options[i].description,
            kind: CompletionKind::Option,
        },
    ) by {
        let x = CompletionView {
            value: spec.options[i].name,
            display_name: None,
            description: spec.options[i].description,
            kind: CompletionKind::Option,
        };
        lemma_option_entries_contain(spec.options, i);
        let j = choose|j: int| 0 <= j < oe.len() && oe[j] == x;
        oe.lemma_filter_contains(has_prefix(p), j);
        assert(opts.contains(x));
    }
    assert forall|i: int|
        0 <= i < spec.options.len() && (#[trigger] spec.options[i].short matches Some(sh)
            && p.is_prefix_of(sh)) implies r.contains(
        CompletionView {
            value: spec.options[i].short->0,
            display_name: None,
            description: spec.options[i].description,
            kind: CompletionKind::Option,
        },
    ) by {
        let x = CompletionView {
            value: spec.options[i].short->0,
            display_name: None,
            description: spec.options[i].description,
            kind: CompletionKind::Option,
        };
        lemma_option_entries_contain(spec.options, i);
        let j = choose|j: int| 0 <= j < oe.len() && oe[j] == x;
        oe.lemma_filter_contains(has_prefix(p), j);
        assert(opts.contains(x));
    }
    assert forall|i: int|
        0 <= i < spec.subcommands.len() && !is_dash_word(p) && p.is_prefix_of(
            #[trigger] spec.subcommands[i].name,
        ) implies r.contains(sub_entry(spec.subcommands[i])) by {
        let s = spec.subcommands[i];
        let f = spec.subcommands.filter(named_with_prefix(p));
        spec.subcommands.lemma_filter_contains(named_with_prefix(p), i);
        let j = choose|j: int| 0 <= j < f.len() && f[j] == s;
        assert(subs[j] == sub_entry(s));
        lemma_contains_in_concat(subs, opts, sub_entry(s));
        lemma_contains_in_concat(subs + opts, listed, sub_entry(s));
    }
}

/// No `'/'` follows the last one, and there is none at all when there is no
/// last one.
proof fn lemma_last_slash_is_last(p: Seq<char>)
    ensures
        match last_slash(p) {
            Some(k) => 0 <= k < p.len() && p[k] == '/' && forall|j: int|
                k < j < p.len() ==> p[j] != '/',
            None => forall|j: int| 0 <= j < p.len() ==> p[j] != '/',
        },
    decreases p.len(),
{
    if p.len() > 0 && p.last() != '/' {
        lemma_last_slash_is_last(p.drop_last());
        assert forall|j: int| 0 <= j < p.len() - 1 implies p[j] == p.drop_last()[j] by {}
    }
}

/// Law: a template lists the partial path up to and including its last
/// `'/'`, and filters the entries by what follows; with no `'/'` it lists
/// `"."` and filters by the whole path.
pub proof fn law_listed_dir_ends_at_last_slash(p: Seq<char>)
    ensures
        dir_prefix(p) + name_filter(p) == p,
        p.contains('/') ==> {
            &&& listed_dir(p) == dir_prefix(p)
            &&& listed_dir(p).len() > 0
            &&& listed_dir(p).is_prefix_of(p)
            &&& listed_dir(p).last() == '/'
            &&& !p.skip(listed_dir(p).len() as int).contains('/')
            &&& name_filter(p) == p.skip(listed_dir(p).len() as int)
        },
        !p.contains('/') ==> listed_dir(p) == seq!['.'] && dir_prefix(p) == Seq::<char>::empty()
            && name_filter(p) == p,
{
    lemma_last_slash_is_last(p);
    match last_slash(p) {
        Some(k) => {
            assert(p.contains('/'));
            assert(p.take(k + 1) + p.skip(k + 1) =~= p);
            let rest = p.skip(k + 1);
            if rest.contains('/') {
                let j = choose|j: int| 0 <= j < rest.len() && rest[j] == '/';
                assert(rest[j] == p[k + 1 + j]);
            }
        },
        None => {
            if p.contains('/') {
                let j = choose|j: int| 0 <= j < p.len() && p[j] == '/';
            }
            assert(Seq::<char>::empty() + p =~= p);
        },
    }
}

/// Law: every candidate of a generator carries the kind of the generator
/// (a branch generator gives branches, a file generator files, a command
/// generator commands), with no display name and no description.
pub proof fn law_generated_kinds(g: GeneratorKind, output: Option<Seq<char>>)
    ensures
        forall|i: int|
            0 <= i < generated_entries(g, output).len() ==> {
                let c = #[trigger] generated_entries(g, output)[i];
                &&& g == GeneratorKind::Branch ==> c.kind == CompletionKind::Branch
                &&& g == GeneratorKind::File ==> c.kind == CompletionKind::File
                &&& g == GeneratorKind::Command ==> c.kind == CompletionKind::Command
                &&& c.display_name is None
                &&& c.description is None
            },
{
}

/// Law: after a subcommand whose generator gives branches or commands and
/// which has no template, every candidate begins with the non-empty word
/// being typed: generator lines that do not are dropped.
pub proof fn law_generated_candidates_extend_last_word(
    spec: SpecView,
    args: Seq<Seq<char>>,
    found: LookupsView,
    k: int,
)
    requires
        args.len() >= 2,
        first_index(sub_names(spec.subcommands), args[0]) == Some(k),
        spec.subcommands[k].generator_kind != GeneratorKind::File,
        spec.subcommands[k].template is None,
        args.last().len() > 0,
    ensures
        forall|i: int|
            0 <= i < completions_of(spec, args, found).len() ==> args.last().is_prefix_of(
                #[trigger] completions_of(spec, args, found)[i].value,
            ),
{
    let r = completions_of(spec, args, found);
    let sub = spec.subcommands[k];
    let w = args.last();
    let opts = option_entries(sub.options).filter(has_prefix(w));
    lemma_filtered_have_prefix(option_entries(sub.options), w);
    if !is_dash_word(w) {
        let generated = match sub.generator {
            Some(_) => generated_entries(sub.generator_kind, found.output),
            None => seq![],
        };
        let listed: Seq<CompletionView> = seq![];
        assert(generated + listed =~= generated);
        let kept = generated.filter(file_or_prefix(w));
        let not_file = |c: CompletionView| c.kind != CompletionKind::File;
        assert forall|i: int| 0 <= i < generated.len() implies not_file(#[trigger] generated[i]) by {}
        lemma_filter_preserves(generated, file_or_prefix(w), not_file);
        assert forall|i: int| 0 <= i < kept.len() implies w.is_prefix_of(
            #[trigger] kept[i].value,
        ) by {
            generated.lemma_filter_pred(file_or_prefix(w), i);
            assert(not_file(kept[i]));
        }
        assert(r == kept + opts);
        assert forall|i: int| 0 <= i < r.len() implies w.is_prefix_of(#[trigger] r[i].value) by {
            if i < kept.len() {
                assert(r[i] == kept[i]);
            } else {
                assert(r[i] == opts[i - kept.len()]);
            }
        }
    }
}

/// Law: after a subcommand, every option of the subcommand (long and short
/// form) whose text begins with the word being typed is offered; and, for a
/// word that does not begin with `'-'`, every non-empty line of the
/// generator's output is offered, trimmed, with the generator's kind, when
/// the word is empty, the generator gives files, or the trimmed line begins
/// with the word.
pub proof fn law_after_subcommand_every_match_is_offered(
    spec: SpecView,
    args: Seq<Seq<char>>,
    found: LookupsView,
    k: int,
)
    requires
        args.len() >= 2,
        first_index(sub_names(spec.subcommands), args[0]) == Some(k),
    ensures
        forall|i: int|
            0 <= i < spec.subcommands[k].options.len() && args.last().is_prefix_of(
                #[trigger] spec.subcommands[k].options[i].name,
            ) ==> completions_of(spec, args, found).contains(
                CompletionView {
                    value: spec.subcommands[k].options[i].name,
                    display_name: None,
                    description: spec.subcommands[k].options[i].description,
                    kind: CompletionKind::Option,
                },
            ),
        forall|i: int|
            0 <= i < spec.subcommands[k].options.len() && (
            #[trigger] spec.subcommands[k].options[i].short matches Some(sh)
                && args.last().is_prefix_of(sh)) ==> completions_of(spec, args, found).contains(
                CompletionView {
                    value: spec.subcommands[k].options[i].short->0,
                    display_name: None,
                    description: spec.subcommands[k].options[i].description,
                    kind: CompletionKind::Option,
                },
            ),
        !is_dash_word(args.last()) && spec.subcommands[k].generator is Some
            && found.output is Some ==> forall|j: int|
            0 <= j < lines_seq(found.output->0).len() && (#[trigger] lines_seq(
                found.output->0,
            )[j]).len() > 0 && (args.last().len() == 0 || spec.subcommands[k].generator_kind
                == GeneratorKind::File || args.last().is_prefix_of(
                trim_seq(lines_seq(found.output->0)[j]),
            )) ==> completions_of(spec, args, found).contains(
                CompletionView {
                    value: trim_seq(lines_seq(found.output->0)[j]),
                    display_name: None,
                    description: None,
                    kind: generated_kind(spec.subcommands[k].generator_kind),
                },
            ),
{
    let r = completions_of(spec, args, found);
    let sub = spec.subcommands[k];
    let w = args.last();
    let oe = option_entries(sub.options);
    let opts = oe.filter(has_prefix(w));
    let generated = match sub.generator {
        Some(_) => generated_entries(sub.generator_kind, found.output),
        None => seq![],
    };
    let listed = match sub.template {
        Some(t) => template_entries(t, w, found.entries),
        None => seq![],
    };
    let gathered = generated + listed;
    let kept = if w.len() > 0 {
        gathered.filter(file_or_prefix(w))
    } else {
        gathered
    };
    assert(is_dash_word(w) ==> r == opts);
    assert(!is_dash_word(w) ==> r == kept + opts);
    assert forall|x: CompletionView| #[trigger] opts.contains(x) implies r.contains(x) by {
        if !is_dash_word(w) {
            lemma_contains_in_concat(kept, opts, x);
        }
    }
    assert forall|i: int|
        0 <= i < sub.options.len() && w.is_prefix_of(#[trigger] sub.options[i].name) implies r.contains(
        CompletionView {
            value: sub.options[i].name,
            display_name: None,
            description: sub.options[i].description,
            kind: CompletionKind::Option,
        },
    ) by {
        let x = CompletionView {
            value: sub.options[i].name,
            display_name: None,
            description: sub.options[i].description,
            kind: CompletionKind::Option,
        };
        lemma_option_entries_contain(sub.options, i);
        let j = choose|j: int| 0 <= j < oe.len() && oe[j] == x;
        oe.lemma_filter_contains(has_prefix(w), j);
        assert(opts.contains(x));
    }
    assert forall|i: int|
        0 <= i < sub.options.len() && (#[trigger] sub.options[i].short matches Some(sh)
            && w.is_prefix_of(sh)) implies r.contains(
        CompletionView {
            value: sub.options[i].short->0,
            display_name: None,
            description: sub.options[i].description,
            kind: CompletionKind::Option,
        },
    ) by {
        let x = CompletionView {
            value: sub.options[i].short->0,
            display_name: None,
            description: sub.options[i].description,
            kind: CompletionKind::Option,
        };
        lemma_option_entries_contain(sub.options, i);
        let j = choose|j: int| 0 <= j < oe.len() && oe[j] == x;
        oe.lemma_filter_contains(has_prefix(w), j);
        assert(opts.contains(x));
    }
    if !is_dash_word(w) && sub.generator is Some {
        if let Some(o) = found.output {
            let ls = lines_seq(o);
            let ne = ls.filter(non_empty_line());
            assert forall|j: int|
                0 <= j < ls.len() && (#[trigger] ls[j]).len() > 0 && (w.len() == 0
                    || sub.generator_kind == GeneratorKind::File || w.is_prefix_of(
                    trim_seq(ls[j]),
                )) implies r.contains(
                CompletionView {
                    value: trim_seq(ls[j]),
                    display_name: None,
                    description: None,
                    kind: generated_kind(sub.generator_kind),
                },
            ) by {
                let x = generated_entry(sub.generator_kind, ls[j]);
                ls.lemma_filter_contains(non_empty_line(), j);
                let m = choose|m: int| 0 <= m < ne.len() && ne[m] == ls[j];
                assert(generated[m] == x);
                lemma_contains_in_concat(generated, listed, x);
                if w.len() > 0 {
                    let g = choose|g: int| 0 <= g < gathered.len() && gathered[g] == x;
                    gathered.lemma_filter_contains(file_or_prefix(w), g);
                }
                lemma_contains_in_concat(kept, opts, x);
            }
        }
    }
}

/// Law: a template offers every entry of the listed directory whose name
/// (with a `'/'` added for a directory) begins with the file-name part of
/// the partial path, folders only for the folders template, as a file
/// candidate whose value is the directory part followed by that name and
/// whose display name is that name (none when there is no directory part).
/// When a directory part was typed and nothing after it, the first
/// candidate accepts that directory.  An unreadable directory gives no
/// candidate.
pub proof fn law_template_offers_every_shown_entry(t: Template, p: Seq<char>, es: Seq<EntryView>)
    ensures
        template_entries(t, p, None) == Seq::<CompletionView>::empty(),
        forall|i: int|
            0 <= i < es.len() && (t == Template::Filepaths || (#[trigger] es[i]).is_dir) && ({
                let label = if es[i].is_dir {
                    es[i].name.push('/')
                } else {
                    es[i].name
                };
                name_filter(p).is_prefix_of(label)
            }) ==> {
                let label = if es[i].is_dir {
                    es[i].name.push('/')
                } else {
                    es[i].name
                };
                template_entries(t, p, Some(es)).contains(
                    CompletionView {
                        value: dir_prefix(p) + label,
                        display_name: if dir_prefix(p).len() == 0 {
                            None
                        } else {
                            Some(label)
                        },
                        description: None,
                        kind: CompletionKind::File,
                    },
                )
            },
        t == Template::Folders ==> forall|i: int|
            0 <= i < template_entries(t, p, Some(es)).len() && (#[trigger] template_entries(
                t,
                p,
                Some(es),
            )[i]).kind == CompletionKind::File ==> template_entries(t, p, Some(es))[i].value.last()
                == '/',
        dir_prefix(p).len() > 0 && name_filter(p).len() == 0 ==> template_entries(
            t,
            p,
            Some(es),
        ).len() > 0 && template_entries(t, p, Some(es))[0].value == p && template_entries(
            t,
            p,
            Some(es),
        )[0].kind == CompletionKind::Command,
{
    let prefix = dir_prefix(p);
    let f = name_filter(p);
    let shown = es.filter(entry_shown(t, f));
    let cands = entry_candidates(prefix, shown);
    let head: Seq<CompletionView> = if prefix.len() > 0 && f.len() == 0 {
        seq![confirm_entry(prefix)]
    } else {
        seq![]
    };
    let r = template_entries(t, p, Some(es));
    assert(r == head + cands);
    assert forall|i: int|
        0 <= i < es.len() && (t == Template::Filepaths || (#[trigger] es[i]).is_dir) && ({
            let label = if es[i].is_dir {
                es[i].name.push('/')
            } else {
                es[i].name
            };
            f.is_prefix_of(label)
        }) implies r.contains(entry_candidate(prefix, es[i])) by {
        assert(entry_label(es[i]) =~= if es[i].is_dir {
            es[i].name.push('/')
        } else {
            es[i].name
        });
        assert(entry_shown(t, f)(es[i]));
        es.lemma_filter_contains(entry_shown(t, f), i);
        let m = choose|m: int| 0 <= m < shown.len() && shown[m] == es[i];
        assert(cands[m] == entry_candidate(prefix, es[i]));
        lemma_contains_in_concat(head, cands, entry_candidate(prefix, es[i]));
    }
    assert forall|i: int| 0 <= i < es.len() implies (#[trigger] es[i]).is_dir ==> entry_label(
        es[i],
    ) =~= es[i].name.push('/') by {}
    if t == Template::Folders {
        let dirs = |e: EntryView| e.is_dir;
        assert forall|i: int| 0 <= i < es.len() && entry_shown(t, f)(#[trigger] es[i]) implies dirs(
            es[i],
        ) by {}
        assert forall|m: int| 0 <= m < shown.len() implies dirs(#[trigger] shown[m]) by {
            es.lemma_filter_pred(entry_shown(t, f), m);
        }
        assert forall|i: int|
            0 <= i < r.len() && (#[trigger] r[i]).kind == CompletionKind::File implies r[i].value.last()
            == '/' by {
            let m = i - head.len();
            assert(r[i] == cands[m]);
            assert(dirs(shown[m]));
            assert(entry_label(shown[m]) == shown[m].name.push('/'));
            assert(r[i].value == prefix + shown[m].name.push('/'));
        }
    }
    if prefix.len() > 0 && f.len() == 0 {
        law_listed_dir_ends_at_last_slash(p);
        assert(prefix + f == p);
        assert(prefix =~= p);
        assert(r[0] == confirm_entry(prefix));
    }
}

} // verus!
