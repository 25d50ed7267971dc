//! The hook block in a shell's rc file: what installing adds to the file's
//! text, and what uninstalling leaves of it. Reading and writing the file
//! is the caller's.
use vstd::prelude::*;
use crate::text::{
    contains_text, join, join_seq, lemma_lines_occur_in_text, lemma_lines_split,
    lemma_occurs_before_newline, lemma_occurs_in_prefix, lemma_occurs_split, lemma_one_line, lemma_trim_end_is_prefix,
    lines, lines_seq, occurs_in, same_text, strip_cr, trim_end, trim_end_seq, views_of,
};

verus! {

/// The line that opens the hook block.
pub const HOOK_MARKER_BEGIN: &'static str = "# >>> gig >>>";

/// The line that closes the hook block.
pub const HOOK_MARKER_END: &'static str = "# <<< gig <<<";

/// The hook block for `shell`: the opening marker, the line that evaluates
/// the shell integration, and the closing marker.
pub open spec fn hook_block_text(shell: Seq<char>) -> Seq<char> {
    HOOK_MARKER_BEGIN@ + "\neval \"$(gig init "@ + shell + ")\"\n"@ + HOOK_MARKER_END@
}

/// Whether rc-file text holds the hook.
pub open spec fn installed(content: Seq<char>) -> bool {
    occurs_in(HOOK_MARKER_BEGIN@, content)
}

/// The rc-file text after installing the hook for `shell`, or `None` when
/// the hook is already there.
pub open spec fn install_result(content: Seq<char>, shell: Seq<char>) -> Option<Seq<char>> {
    if installed(content) {
        None
    } else if content.len() == 0 {
        Some(hook_block_text(shell) + "\n"@)
    } else {
        Some(trim_end_seq(content) + "\n\n"@ + hook_block_text(shell) + "\n"@)
    }
}

/// Whether `i` is the first line of `ls` that holds `pat`.
pub open spec fn is_first_line_with(ls: Seq<Seq<char>>, pat: Seq<char>, i: int) -> bool {
    &&& 0 <= i < ls.len()
    &&& occurs_in(pat, ls[i])
    &&& forall|j: int| 0 <= j < i ==> !occurs_in(pat, #[trigger] ls[j])
}

/// The first line of `ls` that holds `pat`.
pub open spec fn first_line_with(ls: Seq<Seq<char>>, pat: Seq<char>) -> Option<int> {
    if exists|i: int| is_first_line_with(ls, pat, i) {
        Some(choose|i: int| is_first_line_with(ls, pat, i))
    } else {
        None
    }
}

/// `ls` without its trailing empty lines.
pub open spec fn drop_trailing_empty(ls: Seq<Seq<char>>) -> Seq<Seq<char>>
    decreases ls.len(),
{
    if ls.len() > 0 && ls.last().len() == 0 {
        drop_trailing_empty(ls.drop_last())
    } else {
        ls
    }
}

/// The text of the given lines, each ended by a newline.
pub open spec fn text_of_lines(ls: Seq<Seq<char>>) -> Seq<char> {
    if ls.len() == 0 {
        seq![]
    } else {
        join_seq(ls, "\n"@) + "\n"@
    }
}

/// Whether the first line with the opening marker comes no later than just
/// after the first line with the closing marker (removing the lines from one
/// to the other is then possible).
pub open spec fn markers_in_order(content: Seq<char>) -> bool {
    let ls = lines_seq(content);
    match (first_line_with(ls, HOOK_MARKER_BEGIN@), first_line_with(ls, HOOK_MARKER_END@)) {
        (Some(b), Some(e)) => b <= e + 1,
        _ => true,
    }
}

/// The rc-file text after removing the hook: the lines from the first one
/// with the opening marker to the first one with the closing marker are
/// removed, then trailing empty lines. `None` when the file is left as it
/// is: the hook is not there, no line holds the closing marker, or the
/// text after removal is the text as it was.
pub open spec fn uninstall_result(content: Seq<char>) -> Option<Seq<char>> {
    let ls = lines_seq(content);
    if !installed(content) {
        None
    } else {
        match (first_line_with(ls, HOOK_MARKER_BEGIN@), first_line_with(ls, HOOK_MARKER_END@)) {
            (Some(b), Some(e)) => {
                let r = text_of_lines(drop_trailing_empty(ls.take(b) + ls.skip(e + 1)));
                if r == content {
                    None
                } else {
                    Some(r)
                }
            },
            _ => None,
        }
    }
}

pub open spec fn text_opt(o: Option<String>) -> Option<Seq<char>> {
    match o {
        Some(s) => Some(s@),
        None => None,
    }
}

/// The hook block for `shell`.
pub fn hook_block(shell: &str) -> (out: String)
    ensures
        out@ == hook_block_text(shell@),
{
    let mut out = String::from_str(HOOK_MARKER_BEGIN);
    out.append("\neval \"$(gig init ");
    out.append(shell);
    out.append(")\"\n");
    out.append(HOOK_MARKER_END);
    out
}

/// Whether rc-file text holds the hook.
pub fn is_installed(content: &str) -> (b: bool)
    ensures
        b == installed(content@),
{
    contains_text(content, HOOK_MARKER_BEGIN)
}

/// The rc-file text after installing the hook for `shell`, or `None` when
/// the hook is already there and the file is left as it is.
pub fn installed_content(content: &str, shell: &str) -> (r: Option<String>)
    ensures
        text_opt(r) == install_result(content@, shell@),
{
    if is_installed(content) {
        return None;
    }
    let block = hook_block(shell);
    if content.unicode_len() == 0 {
        let mut out = block;
        out.append("\n");
        Some(out)
    } else {
        let mut out = trim_end(content);
        out.append("\n\n");
        out.append(block.as_str());
        out.append("\n");
        Some(out)
    }
}

/// The first line of `ls` that holds `pat`.
fn find_line_with(ls: &Vec<String>, pat: &str) -> (r: Option<usize>)
    ensures
        match r {
            Some(i) => i < ls.len() && first_line_with(views_of(ls@), pat@) == Some(i as int),
            None => first_line_with(views_of(ls@), pat@) is None,
        },
{
    let ghost v = views_of(ls@);
    let mut i: usize = 0;
    while i < ls.len()
        invariant
            v == views_of(ls@),
            v.len() == ls.len(),
            i <= ls.len(),
            forall|j: int| 0 <= j < i ==> !occurs_in(pat@, #[trigger] v[j]),
        decreases ls.len() - i,
    {
        if contains_text(ls[i].as_str(), pat) {
            proof {
                assert(is_first_line_with(v, pat@, i as int));
                let k = choose|k: int| is_first_line_with(v, pat@, k);
                if k < i {
                    assert(!occurs_in(pat@, v[k]));
                } else if i < k {
                    assert(!occurs_in(pat@, v[i as int]));
                }
            }
            return Some(i);
        }
        i = i + 1;
    }
    proof {
        if exists|k: int| is_first_line_with(v, pat@, k) {
            let k = choose|k: int| is_first_line_with(v, pat@, k);
            assert(!occurs_in(pat@, v[k]));
        }
    }
    None
}

/// Whether the markers of `content` are in an order that uninstalling can
/// handle (see `markers_in_order`).
pub fn hook_markers_in_order(content: &str) -> (b: bool)
    ensures
        b == markers_in_order(content@),
{
    let ls = lines(content);
    match (find_line_with(&ls, HOOK_MARKER_BEGIN), find_line_with(&ls, HOOK_MARKER_END)) {
        (Some(b), Some(e)) => b <= e + 1,
        _ => true,
    }
}

/// The rc-file text after removing the hook, or `None` when the file is
/// left as it is.
pub fn uninstalled_content(content: &str) -> (r: Option<String>)
    requires
        markers_in_order(content@),
    ensures
        text_opt(r) == uninstall_result(content@),
{
    if !is_installed(content) {
        return None;
    }
    let ls = lines(content);
    let ghost lv = views_of(ls@);
    let (b, e) = match (find_line_with(&ls, HOOK_MARKER_BEGIN), find_line_with(&ls, HOOK_MARKER_END)) {
        (Some(b), Some(e)) => (b, e),
        _ => {
            return None;
        },
    };
    let ghost kept_spec = lv.take(b as int) + lv.skip(e + 1);
    let mut kept: Vec<String> = Vec::new();
    let mut i: usize = 0;
    while i < b
        invariant
            lv == views_of(ls@),
            b <= e + 1,
            e < ls.len(),
            b <= ls.len(),
            i <= b,
            views_of(kept@) == lv.take(i as int),
        decreases b - i,
    {
        let ghost prev = kept@;
        kept.push(ls[i].clone());
        assert(views_of(kept@) =~= views_of(prev).push(lv[i as int]));
        assert(lv.take(i + 1) =~= lv.take(i as int).push(lv[i as int]));
        i = i + 1;
    }
    let mut j: usize = e + 1;
    assert(lv.skip(e + 1).take(0) =~= seq![]);
    assert(lv.take(b as int) =~= lv.take(b as int) + lv.skip(e + 1).take(0));
    while j < ls.len()
        invariant
            lv == views_of(ls@),
            lv.len() == ls.len(),
            e + 1 <= j <= ls.len(),
            views_of(kept@) == lv.take(b as int) + lv.skip(e + 1).take(j - (e + 1)),
        decreases ls.len() - j,
    {
        let ghost prev = kept@;
        kept.push(ls[j].clone());
        assert(views_of(kept@) =~= views_of(prev).push(lv[j as int]));
        assert(lv.skip(e + 1).take(j + 1 - (e + 1)) =~= lv.skip(e + 1).take(j - (e + 1)).push(
            lv[j as int],
        ));
        j = j + 1;
    }
    assert(lv.skip(e + 1).take(ls.len() - (e + 1)) =~= lv.skip(e + 1));
    assert(views_of(kept@) == kept_spec);
    while kept.len() > 0 && kept[kept.len() - 1].unicode_len() == 0
        invariant
            drop_trailing_empty(kept_spec) == drop_trailing_empty(views_of(kept@)),
        decreases kept.len(),
    {
        let ghost prev = kept@;
        kept.pop();
        assert(views_of(kept@) =~= views_of(prev).drop_last());
    }
    assert(drop_trailing_empty(views_of(kept@)) == views_of(kept@));
    let out = if kept.len() == 0 {
        String::new()
    } else {
        let mut out = join(&kept, "\n");
        out.append("\n");
        out
    };
    if same_text(out.as_str(), content) {
        None
    } else {
        Some(out)
    }
}

/// The rc file that holds the hook for `shell`, relative to the home
/// directory; `None` for a shell without one.
pub fn rc_file_name(shell: &str) -> (r: Option<&'static str>)
    ensures
        r matches Some(f) ==> (shell@ == "zsh"@ && f@ == ".zshrc"@) || (shell@ == "bash"@ && f@
            == ".bashrc"@),
        r is None <==> shell@ != "zsh"@ && shell@ != "bash"@,
{
    if same_text(shell, "zsh") {
        Some(".zshrc")
    } else if same_text(shell, "bash") {
        Some(".bashrc")
    } else {
        None
    }
}

// ------------------------------------------------------------------------
// Laws
// ------------------------------------------------------------------------

/// The line that evaluates the shell integration for `shell`.
pub open spec fn eval_line(shell: Seq<char>) -> Seq<char> {
    "eval \"$(gig init "@ + shell + ")\""@
}

proof fn lemma_first_line(ls: Seq<Seq<char>>, pat: Seq<char>, i: int)
    requires
        is_first_line_with(ls, pat, i),
    ensures
        first_line_with(ls, pat) == Some(i),
{
    let k = choose|k: int| is_first_line_with(ls, pat, k);
    if k < i {
        assert(!occurs_in(pat, ls[k]));
    } else if i < k {
        assert(!occurs_in(pat, ls[i]));
    }
}

proof fn lemma_literals()
    ensures
        HOOK_MARKER_BEGIN@.len() == 13,
        HOOK_MARKER_END@.len() == 13,
        HOOK_MARKER_BEGIN@[0] == '#',
        HOOK_MARKER_END@[0] == '#',
        HOOK_MARKER_BEGIN@[2] == '>',
        HOOK_MARKER_END@[2] == '<',
        HOOK_MARKER_BEGIN@.last() == '>',
        HOOK_MARKER_END@.last() == '<',
        forall|j: int| 0 <= j < 13 ==> HOOK_MARKER_BEGIN@[j] != '\n',
        forall|j: int| 0 <= j < 13 ==> HOOK_MARKER_END@[j] != '\n',
{
    reveal_strlit("# >>> gig >>>");
    reveal_strlit("# <<< gig <<<");
}

/// A pattern does not occur in a shorter text.
proof fn lemma_marker_absent(m: Seq<char>, s: Seq<char>)
    requires
        s.len() < m.len(),
    ensures
        !occurs_in(m, s),
{
}

proof fn lemma_marker_present(m: Seq<char>)
    ensures
        occurs_in(m, m),
{
    assert(m.subrange(0int, 0int + m.len()) =~= m);
}

/// The lines of the installed block (with its final newline).
proof fn lemma_block_lines(shell: Seq<char>)
    requires
        forall|j: int| 0 <= j < shell.len() ==> shell[j] != '\n',
    ensures
        lines_seq(hook_block_text(shell) + "\n"@) == seq![
            HOOK_MARKER_BEGIN@,
            eval_line(shell),
            HOOK_MARKER_END@,
        ],
{
    lemma_literals();
    let b = HOOK_MARKER_BEGIN@;
    let e = HOOK_MARKER_END@;
    let ev = eval_line(shell);
    reveal_strlit("eval \"$(gig init ");
    reveal_strlit(")\"");
    reveal_strlit("\neval \"$(gig init ");
    reveal_strlit(")\"\n");
    reveal_strlit("\n");
    assert(hook_block_text(shell) + "\n"@ =~= b + seq!['\n'] + (ev + seq!['\n'] + (e + seq!['\n'])));
    assert forall|j: int| 0 <= j < ev.len() implies ev[j] != '\n' by {
        if 17 <= j < 17 + shell.len() {
            assert(ev[j] == shell[j - 17]);
        }
    }
    lemma_lines_split(b, ev + seq!['\n'] + (e + seq!['\n']));
    lemma_lines_split(ev, e + seq!['\n']);
    lemma_one_line(b);
    lemma_one_line(ev);
    lemma_one_line(e);
    assert(strip_cr(b) == b);
    assert(strip_cr(ev) == ev);
    assert(strip_cr(e) == e);
}

/// No line of `l` holds either marker.
proof fn lemma_user_lines_unmarked(c: Seq<char>, i: int)
    requires
        !installed(c),
        !occurs_in(HOOK_MARKER_END@, c),
        0 <= i < lines_seq(trim_end_seq(c) + seq!['\n']).len(),
    ensures
        !occurs_in(HOOK_MARKER_BEGIN@, lines_seq(trim_end_seq(c) + seq!['\n'])[i]),
        !occurs_in(HOOK_MARKER_END@, lines_seq(trim_end_seq(c) + seq!['\n'])[i]),
{
    lemma_literals();
    let x = trim_end_seq(c);
    let line = lines_seq(x + seq!['\n'])[i];
    lemma_trim_end_is_prefix(c);
    if occurs_in(HOOK_MARKER_BEGIN@, line) {
        lemma_lines_occur_in_text(x + seq!['\n'], HOOK_MARKER_BEGIN@, i);
        lemma_occurs_before_newline(x, HOOK_MARKER_BEGIN@);
        lemma_occurs_in_prefix(c, x.len() as int, HOOK_MARKER_BEGIN@);
    }
    if occurs_in(HOOK_MARKER_END@, line) {
        lemma_lines_occur_in_text(x + seq!['\n'], HOOK_MARKER_END@, i);
        lemma_occurs_before_newline(x, HOOK_MARKER_END@);
        lemma_occurs_in_prefix(c, x.len() as int, HOOK_MARKER_END@);
    }
}

/// The lines that installing puts before the block: none for empty text,
/// else the lines of the text without trailing whitespace, then an empty
/// line.
pub open spec fn lines_before_block(c: Seq<char>) -> Seq<Seq<char>> {
    if c.len() == 0 {
        seq![]
    } else {
        lines_seq(trim_end_seq(c) + seq!['\n']) + seq![Seq::<char>::empty()]
    }
}

proof fn lemma_installed_lines(c: Seq<char>, shell: Seq<char>)
    requires
        !installed(c),
        forall|j: int| 0 <= j < shell.len() ==> shell[j] != '\n',
    ensures
        lines_seq(install_result(c, shell)->0) == lines_before_block(c) + seq![
            HOOK_MARKER_BEGIN@,
            eval_line(shell),
            HOOK_MARKER_END@,
        ],
{
    lemma_block_lines(shell);
    let blk = hook_block_text(shell) + "\n"@;
    let t = install_result(c, shell)->0;
    let x = trim_end_seq(c);
    let empty_line = Seq::<char>::empty();
    reveal_strlit("\n");
    reveal_strlit("\n\n");
    if c.len() == 0 {
        assert(t == blk);
        assert(lines_seq(t) =~= lines_before_block(c) + lines_seq(blk));
    } else {
        assert(t =~= x + seq!['\n'] + (empty_line + seq!['\n'] + blk));
        lemma_lines_split(x, empty_line + seq!['\n'] + blk);
        lemma_lines_split(empty_line, blk);
        lemma_one_line(empty_line);
        assert(strip_cr(empty_line) == empty_line);
        assert(empty_line + seq!['\n'] =~= seq!['\n']);
        assert(lines_seq(t) =~= lines_before_block(c) + lines_seq(blk));
    }
}

proof fn lemma_leading_lines_unmarked(c: Seq<char>, i: int)
    requires
        !installed(c),
        !occurs_in(HOOK_MARKER_END@, c),
        0 <= i < lines_before_block(c).len(),
    ensures
        !occurs_in(HOOK_MARKER_BEGIN@, lines_before_block(c)[i]),
        !occurs_in(HOOK_MARKER_END@, lines_before_block(c)[i]),
{
    lemma_literals();
    let lx = lines_seq(trim_end_seq(c) + seq!['\n']);
    if i < lx.len() {
        lemma_user_lines_unmarked(c, i);
    } else {
        lemma_marker_absent(HOOK_MARKER_BEGIN@, Seq::<char>::empty());
        lemma_marker_absent(HOOK_MARKER_END@, Seq::<char>::empty());
    }
}

proof fn lemma_drop_leading(c: Seq<char>)
    ensures
        drop_trailing_empty(lines_before_block(c)) == drop_trailing_empty(
            lines_seq(trim_end_seq(c) + seq!['\n']),
        ),
{
    let empty_line = Seq::<char>::empty();
    let lx = lines_seq(trim_end_seq(c) + seq!['\n']);
    if c.len() == 0 {
        assert(trim_end_seq(c) + seq!['\n'] =~= empty_line + seq!['\n']);
        lemma_one_line(empty_line);
        assert(lx =~= seq![empty_line]);
        assert(lx.drop_last() =~= Seq::<Seq<char>>::empty());
    } else {
        assert(lines_before_block(c).drop_last() =~= lx);
    }
}

proof fn lemma_marker_chars()
    ensures
        HOOK_MARKER_BEGIN@.len() == 13,
        HOOK_MARKER_END@.len() == 13,
        HOOK_MARKER_BEGIN@[2] == '>',
        HOOK_MARKER_END@[2] == '<',
{
    reveal_strlit("# >>> gig >>>");
    reveal_strlit("# <<< gig <<<");
}

proof fn lemma_markers_distinct()
    ensures
        occurs_in(HOOK_MARKER_BEGIN@, HOOK_MARKER_BEGIN@),
        occurs_in(HOOK_MARKER_END@, HOOK_MARKER_END@),
        !occurs_in(HOOK_MARKER_END@, HOOK_MARKER_BEGIN@),
{
    let b = HOOK_MARKER_BEGIN@;
    let e = HOOK_MARKER_END@;
    lemma_marker_present(b);
    lemma_marker_present(e);
    lemma_marker_chars();
    if occurs_in(e, b) {
        let w = choose|w: int| 0 <= w && w + e.len() <= b.len() && #[trigger] b.subrange(w, w + e.len()) == e;
        assert(w == 0);
        assert(b.subrange(0, 13)[2] == b[2]);
        assert(e[2] == b[2]);
    }
}

/// In `l0` followed by `tail`, the first line holding `pat` is the one at
/// `l0.len() + k` when no earlier line holds it.
proof fn lemma_first_line_after(ls: Seq<Seq<char>>, l0: Seq<Seq<char>>, tail: Seq<Seq<char>>, pat: Seq<char>, k: int)
    requires
        ls == l0 + tail,
        0 <= k < tail.len(),
        forall|i: int| 0 <= i < l0.len() ==> !occurs_in(pat, #[trigger] l0[i]),
        forall|i: int| 0 <= i < k ==> !occurs_in(pat, #[trigger] tail[i]),
        occurs_in(pat, tail[k]),
    ensures
        first_line_with(ls, pat) == Some(l0.len() + k),
{
    let n0 = l0.len() as int;
    assert forall|j: int| 0 <= j < n0 + k implies !occurs_in(pat, #[trigger] ls[j]) by {
        if j < n0 {
            assert(ls[j] == l0[j]);
        } else {
            assert(ls[j] == tail[j - n0]);
        }
    }
    assert(ls[n0 + k] == tail[k]);
    assert(is_first_line_with(ls, pat, n0 + k));
    lemma_first_line(ls, pat, n0 + k);
}

/// In text whose lines are `l0` and then the three lines of a block, the
/// block's marker lines are the first ones holding the markers.
proof fn lemma_block_marker_lines(t: Seq<char>, l0: Seq<Seq<char>>, ev: Seq<char>)
    requires
        lines_seq(t) == l0 + seq![HOOK_MARKER_BEGIN@, ev, HOOK_MARKER_END@],
        forall|i: int|
            0 <= i < l0.len() ==> !occurs_in(HOOK_MARKER_BEGIN@, #[trigger] l0[i]) && !occurs_in(
                HOOK_MARKER_END@,
                l0[i],
            ),
        !occurs_in(HOOK_MARKER_END@, ev),
    ensures
        first_line_with(lines_seq(t), HOOK_MARKER_BEGIN@) == Some(l0.len() as int),
        first_line_with(lines_seq(t), HOOK_MARKER_END@) == Some(l0.len() + 2int),
        installed(t),
{
    lemma_markers_distinct();
    let tail = seq![HOOK_MARKER_BEGIN@, ev, HOOK_MARKER_END@];
    lemma_first_line_after(lines_seq(t), l0, tail, HOOK_MARKER_BEGIN@, 0);
    lemma_first_line_after(lines_seq(t), l0, tail, HOOK_MARKER_END@, 2);
    assert(lines_seq(t)[l0.len() as int] == HOOK_MARKER_BEGIN@);
    lemma_lines_occur_in_text(t, HOOK_MARKER_BEGIN@, l0.len() as int);
}


proof fn lemma_drop_trailing_is_prefix(ls: Seq<Seq<char>>)
    ensures
        drop_trailing_empty(ls).len() <= ls.len(),
        drop_trailing_empty(ls) == ls.take(drop_trailing_empty(ls).len() as int),
    decreases ls.len(),
{
    if ls.len() > 0 && ls.last().len() == 0 {
        lemma_drop_trailing_is_prefix(ls.drop_last());
        let d = drop_trailing_empty(ls.drop_last());
        assert(ls.drop_last().take(d.len() as int) =~= ls.take(d.len() as int));
    } else {
        assert(ls.take(ls.len() as int) =~= ls);
    }
}

/// A pattern without newlines that occurs in no line does not occur in the
/// text of the lines.
proof fn lemma_text_of_lines_unmarked(ls: Seq<Seq<char>>, pat: Seq<char>)
    requires
        pat.len() > 0,
        forall|j: int| 0 <= j < pat.len() ==> pat[j] != '\n',
        forall|i: int| 0 <= i < ls.len() ==> !occurs_in(pat, #[trigger] ls[i]),
    ensures
        !occurs_in(pat, text_of_lines(ls)),
    decreases ls.len(),
{
    reveal_strlit("\n");
    assert("\n"@ =~= seq!['\n']);
    if ls.len() == 0 {
        if occurs_in(pat, text_of_lines(ls)) {
            let t = text_of_lines(ls);
            let w = choose|w: int| 0 <= w && w + pat.len() <= t.len() && #[trigger] t.subrange(w, w + pat.len()) == pat;
        }
    } else if ls.len() == 1 {
        assert(text_of_lines(ls) =~= ls[0] + seq!['\n']);
        if occurs_in(pat, text_of_lines(ls)) {
            lemma_occurs_before_newline(ls[0], pat);
        }
    } else {
        let rest = ls.drop_last();
        lemma_text_of_lines_unmarked(rest, pat);
        let j = join_seq(rest, "\n"@);
        assert(text_of_lines(rest) =~= j + seq!['\n']);
        assert(text_of_lines(ls) =~= j + seq!['\n'] + (ls.last() + seq!['\n']));
        if occurs_in(pat, text_of_lines(ls)) {
            lemma_occurs_split(j, ls.last() + seq!['\n'], pat);
            if occurs_in(pat, j) {
                assert((j + seq!['\n']).take(j.len() as int) =~= j);
                lemma_occurs_in_prefix(j + seq!['\n'], j.len() as int, pat);
            } else {
                lemma_occurs_before_newline(ls.last(), pat);
                assert(!occurs_in(pat, ls[ls.len() - 1]));
            }
        }
    }
}

/// Uninstalling text whose lines are `l0` and then the three lines of a
/// block removes the block.
proof fn lemma_uninstall_block_lines(t: Seq<char>, l0: Seq<Seq<char>>, ev: Seq<char>)
    requires
        lines_seq(t) == l0 + seq![HOOK_MARKER_BEGIN@, ev, HOOK_MARKER_END@],
        first_line_with(lines_seq(t), HOOK_MARKER_BEGIN@) == Some(l0.len() as int),
        first_line_with(lines_seq(t), HOOK_MARKER_END@) == Some(l0.len() + 2int),
        installed(t),
        text_of_lines(drop_trailing_empty(l0)) != t,
    ensures
        markers_in_order(t),
        uninstall_result(t) == Some(text_of_lines(drop_trailing_empty(l0))),
{
    let ls = lines_seq(t);
    let n0 = l0.len() as int;
    assert(ls.take(n0) + ls.skip(n0 + 3) =~= l0);
}


proof fn lemma_end_marker_chars()
    ensures
        HOOK_MARKER_END@.len() == 13,
        HOOK_MARKER_END@[0] == '#',
        forall|j: int| 0 <= j < 13 ==> HOOK_MARKER_END@[j] != ')' && HOOK_MARKER_END@[j] != '"',
{
    reveal_strlit("# <<< gig <<<");
}

/// The eval line names the closing marker only where the shell name does.
proof fn lemma_eval_line_unmarked(shell: Seq<char>)
    requires
        !occurs_in(HOOK_MARKER_END@, shell),
    ensures
        !occurs_in(HOOK_MARKER_END@, eval_line(shell)),
{
    let e = HOOK_MARKER_END@;
    let ev = eval_line(shell);
    lemma_end_marker_chars();
    reveal_strlit("eval \"$(gig init ");
    reveal_strlit(")\"");
    let n = shell.len() as int;
    assert(ev.len() == 17 + n + 2);
    assert forall|j: int| 0 <= j < 17 implies ev[j] != '#' by {}
    assert(ev[17 + n] == ')');
    if occurs_in(e, ev) {
        let w = choose|w: int| 0 <= w && w + e.len() <= ev.len() && #[trigger] ev.subrange(w, w + e.len()) == e;
        let win = ev.subrange(w, w + 13);
        if w < 17 {
            assert(win[0] == ev[w]);
        } else if w + 13 > 17 + n {
            assert(win[17 + n - w] == ev[17 + n]);
        } else {
            assert(shell.subrange(w - 17, w - 17 + 13) =~= win);
            assert(shell.subrange(w - 17, w - 17 + e.len()) == e);
        }
    }
}

/// Law: uninstalling right after installing gives back the lines that
/// were there before, without trailing whitespace and trailing empty lines
/// (for rc text that names no closing marker, and a shell name without
/// newlines that names no closing marker). The markers are then in an order
/// that uninstalling handles.
pub proof fn law_uninstall_undoes_install(c: Seq<char>, shell: Seq<char>)
    requires
        !installed(c),
        !occurs_in(HOOK_MARKER_END@, c),
        !occurs_in(HOOK_MARKER_END@, shell),
        forall|j: int| 0 <= j < shell.len() ==> shell[j] != '\n',
    ensures
        install_result(c, shell) is Some,
        markers_in_order(install_result(c, shell)->0),
        uninstall_result(install_result(c, shell)->0) == Some(
            text_of_lines(drop_trailing_empty(lines_seq(trim_end_seq(c) + seq!['\n']))),
        ),
{
    lemma_literals();
    lemma_block_lines(shell);
    lemma_installed_lines(c, shell);
    let l0 = lines_before_block(c);
    assert forall|i: int| 0 <= i < l0.len() implies !occurs_in(
        HOOK_MARKER_BEGIN@,
        #[trigger] l0[i],
    ) && !occurs_in(HOOK_MARKER_END@, l0[i]) by {
        lemma_leading_lines_unmarked(c, i);
    }
    lemma_eval_line_unmarked(shell);
    lemma_block_marker_lines(install_result(c, shell)->0, l0, eval_line(shell));
    let kept = drop_trailing_empty(l0);
    lemma_drop_trailing_is_prefix(l0);
    assert forall|i: int| 0 <= i < kept.len() implies !occurs_in(
        HOOK_MARKER_BEGIN@,
        #[trigger] kept[i],
    ) by {
        assert(kept[i] == l0[i]);
    }
    lemma_text_of_lines_unmarked(kept, HOOK_MARKER_BEGIN@);
    lemma_uninstall_block_lines(install_result(c, shell)->0, l0, eval_line(shell));
    lemma_drop_leading(c);
}

/// Law: installing adds the hook, and installing again leaves the text as
/// it is.
pub proof fn law_install_is_idempotent(c: Seq<char>, shell: Seq<char>, shell2: Seq<char>)
    ensures
        install_result(c, shell) is None <==> installed(c),
        install_result(c, shell) matches Some(t) ==> installed(t) && install_result(t, shell2)
            is None,
{
    if let Some(t) = install_result(c, shell) {
        let blk = hook_block_text(shell);
        let b = HOOK_MARKER_BEGIN@;
        let pre: Seq<char> = if c.len() == 0 {
            seq![]
        } else {
            trim_end_seq(c) + "\n\n"@
        };
        assert(t =~= pre + blk + "\n"@);
        assert(t.subrange(pre.len() as int, pre.len() as int + b.len()) =~= b);
    }
}

/// Law: uninstalling removes exactly the lines from the first opening
/// marker to the first closing marker after it, and keeps every line before
/// and after them (then drops trailing empty lines).  For rc text whose
/// lines are `pre`, then `mid` (opening marker on its first line, closing
/// marker on its last line and on no other), then `post`, with no marker in
/// `pre`, the result is the text of the lines of `pre` and `post`; the file
/// does change when no line of `post` holds an opening marker.
pub proof fn law_uninstall_keeps_surrounding_lines(
    t: Seq<char>,
    pre: Seq<Seq<char>>,
    mid: Seq<Seq<char>>,
    post: Seq<Seq<char>>,
)
    requires
        lines_seq(t) == pre + mid + post,
        mid.len() >= 1,
        occurs_in(HOOK_MARKER_BEGIN@, mid[0]),
        occurs_in(HOOK_MARKER_END@, mid.last()),
        forall|i: int| 0 <= i < mid.len() - 1 ==> !occurs_in(HOOK_MARKER_END@, #[trigger] mid[i]),
        forall|i: int|
            0 <= i < pre.len() ==> !occurs_in(HOOK_MARKER_BEGIN@, #[trigger] pre[i])
                && !occurs_in(HOOK_MARKER_END@, pre[i]),
    ensures
        markers_in_order(t),
        uninstall_result(t) == {
            let r = text_of_lines(drop_trailing_empty(pre + post));
            if r == t {
                None
            } else {
                Some(r)
            }
        },
        (forall|i: int| 0 <= i < post.len() ==> !occurs_in(HOOK_MARKER_BEGIN@, #[trigger] post[i]))
            ==> uninstall_result(t) == Some(text_of_lines(drop_trailing_empty(pre + post))),
{
    let ls = lines_seq(t);
    let n0 = pre.len() as int;
    let m = mid.len() as int;
    let tail = mid + post;
    assert(ls =~= pre + tail);
    assert(tail[0] == mid[0]);
    assert(tail[m - 1] == mid[m - 1]);
    lemma_first_line_after(ls, pre, tail, HOOK_MARKER_BEGIN@, 0);
    assert forall|i: int| 0 <= i < m - 1 implies !occurs_in(HOOK_MARKER_END@, #[trigger] tail[i]) by {
        assert(tail[i] == mid[i]);
    }
    lemma_first_line_after(ls, pre, tail, HOOK_MARKER_END@, m - 1);
    assert(ls[n0] == mid[0]);
    lemma_lines_occur_in_text(t, HOOK_MARKER_BEGIN@, n0);
    assert(ls.take(n0) + ls.skip(n0 + m) =~= pre + post);
    if forall|i: int| 0 <= i < post.len() ==> !occurs_in(HOOK_MARKER_BEGIN@, #[trigger] post[i]) {
        let kept_all = pre + post;
        let kept = drop_trailing_empty(kept_all);
        lemma_drop_trailing_is_prefix(kept_all);
        assert forall|i: int| 0 <= i < kept.len() implies !occurs_in(
            HOOK_MARKER_BEGIN@,
            #[trigger] kept[i],
        ) by {
            assert(kept[i] == kept_all[i]);
            if i >= n0 {
                assert(kept_all[i] == post[i - n0]);
            }
        }
        lemma_literals();
        lemma_text_of_lines_unmarked(kept, HOOK_MARKER_BEGIN@);
    }
}

} // verus!
