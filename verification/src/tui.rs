//! The state of the interactive completion picker: fuzzy filtering by the
//! typed query, the selection with its scroll window, and what each key
//! does. Drawing and reading keys from the terminal is the caller's.
use vstd::prelude::*;
use crate::command_spec::{
    copy_text, Completion, CompletionKind, CompletionView, completion_views, text_of,
};
use crate::text::{chars_of, lowercase_of, pop_char, push_char, to_lowercase};
use vstd::arithmetic::div_mod::{lemma_add_mod_noop_right, lemma_mod_self_0, lemma_small_mod};

verus! {

/// The number of rows the picker shows at once.
pub const MAX_VISIBLE: u16 = 8;

/// A candidate that passed the filter: its index among the picker's items
/// and the positions of the value's characters that matched the query.
#[derive(Debug)]
pub struct FilteredItem {
    pub index: usize,
    pub match_positions: Vec<usize>,
}

/// The picker: all candidates, those that pass the query, the selected one
/// among those, and the first one shown.
#[derive(Debug)]
pub struct App {
    pub items: Vec<Completion>,
    pub filtered: Vec<FilteredItem>,
    pub query: String,
    pub selected: usize,
    pub scroll_offset: usize,
    pub indent: u16,
}


/// One shown row of the picker: the icon of the candidate's kind, the
/// characters of its value each with whether it matched the query, whether
/// it is the selected row, and the candidate's description.
#[derive(Debug)]
pub struct Row {
    pub icon: &'static str,
    pub kind: CompletionKind,
    pub chars: Vec<(char, bool)>,
    pub selected: bool,
    pub description: Option<String>,
}

/// A key press, as the picker distinguishes them.
#[derive(Debug, PartialEq, Eq, Clone, Copy, Structural)]
pub enum Key {
    Esc,
    Enter,
    Tab,
    BackTab,
    Up,
    Down,
    Backspace,
    Char { c: char, ctrl: bool },
    Other,
}

/// What the picker does after a key: keep going, or finish with the chosen
/// value (`None` when nothing was chosen).
#[derive(Debug)]
pub enum Step {
    Continue,
    Finish(Option<String>),
}

// ------------------------------------------------------------------------
// Fuzzy matching
// ------------------------------------------------------------------------

/// Whether `p` places the characters of `n` in `h`, in order: `p[k]` is a
/// position of `h` holding `n[k]`, and positions increase.
pub open spec fn is_embedding(h: Seq<char>, n: Seq<char>, p: Seq<int>) -> bool {
    &&& p.len() == n.len()
    &&& forall|k: int| 0 <= k < p.len() ==> 0 <= #[trigger] p[k] < h.len() && h[p[k]] == n[k]
    &&& forall|a: int, b: int| 0 <= a < b < p.len() ==> #[trigger] p[a] < #[trigger] p[b]
}

/// The position after which `n[k]` is looked for: just after `p[k - 1]`.
pub open spec fn search_start(p: Seq<int>, k: int) -> int {
    if k == 0 {
        0
    } else {
        p[k - 1] + 1
    }
}

/// Whether `p` is the leftmost embedding: each `p[k]` is the first position
/// holding `n[k]` after the previous one.
pub open spec fn is_leftmost_embedding(h: Seq<char>, n: Seq<char>, p: Seq<int>) -> bool {
    &&& is_embedding(h, n, p)
    &&& forall|k: int, j: int|
        #![trigger n[k], h[j]]
        0 <= k < p.len() && search_start(p, k) <= j < p[k] ==> h[j] != n[k]
}

/// Whether `n` occurs in `h` as a subsequence.
pub open spec fn is_subsequence(n: Seq<char>, h: Seq<char>) -> bool {
    exists|p: Seq<int>| is_embedding(h, n, p)
}

/// The positions at which the query `n` matches `h`: its leftmost embedding,
/// or `None` when `n` is empty or no embedding exists.
pub open spec fn fuzzy_positions(h: Seq<char>, n: Seq<char>) -> Option<Seq<int>> {
    if n.len() > 0 && exists|p: Seq<int>| is_leftmost_embedding(h, n, p) {
        Some(choose|p: Seq<int>| is_leftmost_embedding(h, n, p))
    } else {
        None
    }
}

pub open spec fn positions_view(v: Seq<usize>) -> Seq<int> {
    v.map_values(|u: usize| u as int)
}

/// A leftmost embedding lies at or before any other embedding, position by
/// position.
proof fn lemma_leftmost_is_leftmost(
    h: Seq<char>,
    n: Seq<char>,
    p: Seq<int>,
    q: Seq<int>,
    k: int,
)
    requires
        is_leftmost_embedding(h, n.take(p.len() as int), p),
        p.len() <= n.len(),
        is_embedding(h, n, q),
        0 <= k < p.len(),
    ensures
        p[k] <= q[k],
    decreases k,
{
    if k > 0 {
        lemma_leftmost_is_leftmost(h, n, p, q, k - 1);
        assert(q[k - 1] < q[k]);
    }
    if q[k] < p[k] {
        assert(search_start(p, k) <= q[k]);
        assert(n.take(p.len() as int)[k] == n[k]);
        assert(h[q[k]] == n[k]);
    }
}

/// There is at most one leftmost embedding.
proof fn lemma_leftmost_unique(h: Seq<char>, n: Seq<char>, p: Seq<int>, q: Seq<int>)
    requires
        is_leftmost_embedding(h, n, p),
        is_leftmost_embedding(h, n, q),
    ensures
        p == q,
{
    assert(n.take(p.len() as int) =~= n);
    assert forall|k: int| 0 <= k < p.len() implies p[k] == q[k] by {
        lemma_leftmost_is_leftmost(h, n, p, q, k);
        lemma_leftmost_is_leftmost(h, n, q, p, k);
    }
    assert(p =~= q);
}

proof fn lemma_extend_leftmost(h: Seq<char>, n: Seq<char>, p: Seq<int>, k: int, i: int)
    requires
        0 <= k < n.len(),
        p.len() == k,
        is_leftmost_embedding(h, n.take(k), p),
        forall|m: int| 0 <= m < k ==> p[m] < i,
        0 <= i < h.len(),
        h[i] == n[k],
        forall|j: int| search_start(p, k) <= j < i ==> h[j] != n[k],
    ensures
        is_leftmost_embedding(h, n.take(k + 1), p.push(i)),
{
    let np = p.push(i);
    let nt = n.take(k + 1);
    assert forall|m: int| 0 <= m < np.len() implies 0 <= #[trigger] np[m] < h.len() && h[np[m]]
        == nt[m] by {
        if m < k {
            assert(n.take(k)[m] == nt[m]);
        }
    }
    assert forall|a: int, b: int| 0 <= a < b < np.len() implies #[trigger] np[a] < #[trigger] np[b] by {
        if b < k {
            assert(p[a] < p[b]);
        }
    }
    assert forall|kk: int, j: int|
        #![trigger nt[kk], h[j]]
        0 <= kk < np.len() && search_start(np, kk) <= j < np[kk] implies h[j] != nt[kk] by {
        if kk < k {
            assert(search_start(np, kk) == search_start(p, kk));
            assert(n.take(k)[kk] == nt[kk]);
            assert(h[j] != n.take(k)[kk]);
        }
    }
}

proof fn lemma_fuzzy_found(h: Seq<char>, n: Seq<char>, p: Seq<int>)
    requires
        n.len() > 0,
        is_leftmost_embedding(h, n, p),
    ensures
        fuzzy_positions(h, n) == Some(p),
        is_subsequence(n, h),
{
    let q = choose|q: Seq<int>| is_leftmost_embedding(h, n, q);
    lemma_leftmost_unique(h, n, p, q);
}

proof fn lemma_fuzzy_missing(h: Seq<char>, n: Seq<char>, p: Seq<int>, k: int)
    requires
        0 <= k < n.len(),
        p.len() == k,
        is_leftmost_embedding(h, n.take(k), p),
        forall|j: int| search_start(p, k) <= j < h.len() ==> h[j] != n[k],
    ensures
        fuzzy_positions(h, n) is None,
        !is_subsequence(n, h),
{
    if exists|q: Seq<int>| is_embedding(h, n, q) {
        let q = choose|q: Seq<int>| is_embedding(h, n, q);
        if k > 0 {
            lemma_leftmost_is_leftmost(h, n, p, q, k - 1);
            assert(q[k - 1] < q[k]);
        }
        assert(h[q[k]] == n[k]);
        assert(false);
    }
}

/// The state of the greedy scan after reading `i` characters of `h`: `p`
/// is the leftmost embedding of the first `k` needle characters, all before
/// `i`, and `n[k]` does not occur between the last match and `i`.
#[verifier::opaque]
spec fn greedy_state(h: Seq<char>, n: Seq<char>, p: Seq<int>, k: int, i: int) -> bool {
    &&& 0 <= k < n.len()
    &&& p.len() == k
    &&& 0 <= i <= h.len()
    &&& is_leftmost_embedding(h, n.take(k), p)
    &&& forall|m: int| 0 <= m < k ==> p[m] < i
    &&& forall|j: int| search_start(p, k) <= j < i ==> h[j] != n[k]
}

proof fn lemma_greedy_start(h: Seq<char>, n: Seq<char>)
    requires
        n.len() > 0,
    ensures
        greedy_state(h, n, seq![], 0, 0),
{
    reveal(greedy_state);
    assert(n.take(0) =~= seq![]);
}

proof fn lemma_greedy_skip(h: Seq<char>, n: Seq<char>, p: Seq<int>, k: int, i: int)
    requires
        greedy_state(h, n, p, k, i),
        i < h.len(),
        h[i] != n[k],
    ensures
        greedy_state(h, n, p, k, i + 1),
{
    reveal(greedy_state);
}

proof fn lemma_greedy_take(h: Seq<char>, n: Seq<char>, p: Seq<int>, k: int, i: int)
    requires
        greedy_state(h, n, p, k, i),
        i < h.len(),
        h[i] == n[k],
    ensures
        k + 1 < n.len() ==> greedy_state(h, n, p.push(i), k + 1, i + 1),
        k + 1 == n.len() ==> fuzzy_positions(h, n) == Some(p.push(i)) && is_subsequence(n, h),
{
    reveal(greedy_state);
    lemma_extend_leftmost(h, n, p, k, i);
    if k + 1 == n.len() {
        assert(n.take(k + 1) =~= n);
        lemma_fuzzy_found(h, n, p.push(i));
    }
}

proof fn lemma_greedy_end(h: Seq<char>, n: Seq<char>, p: Seq<int>, k: int)
    requires
        greedy_state(h, n, p, k, h.len() as int),
    ensures
        fuzzy_positions(h, n) is None,
        !is_subsequence(n, h),
{
    reveal(greedy_state);
    lemma_fuzzy_missing(h, n, p, k);
}

/// The positions at which `needle` matches `haystack` as a subsequence,
/// taking each needle character at its first occurrence after the previous
/// match; `None` when `needle` is empty or does not match.
pub fn fuzzy_match_positions(haystack: &str, needle: &str) -> (r: Option<Vec<usize>>)
    ensures
        match r {
            Some(v) => fuzzy_positions(haystack@, needle@) == Some(positions_view(v@)),
            None => fuzzy_positions(haystack@, needle@) is None,
        },
        r is Some <==> needle@.len() > 0 && is_subsequence(needle@, haystack@),
{
    let ghost h = haystack@;
    let ghost n = needle@;
    let hv = chars_of(haystack);
    let nv = chars_of(needle);
    if nv.len() == 0 {
        return None;
    }
    let mut positions: Vec<usize> = Vec::new();
    let mut k: usize = 0;
    let mut i: usize = 0;
    proof {
        lemma_greedy_start(h, n);
        assert(positions_view(positions@) =~= seq![]);
    }
    while i < hv.len()
        invariant
            h == haystack@,
            n == needle@,
            hv@ == h,
            nv@ == n,
            n.len() == nv.len(),
            k < nv.len(),
            i <= hv.len(),
            greedy_state(h, n, positions_view(positions@), k as int, i as int),
        decreases hv.len() - i,
    {
        let ghost p = positions_view(positions@);
        if hv[i] == nv[k] {
            proof {
                lemma_greedy_take(h, n, p, k as int, i as int);
            }
            positions.push(i);
            assert(positions_view(positions@) =~= p.push(i as int));
            if k + 1 == nv.len() {
                return Some(positions);
            }
            k = k + 1;
        } else {
            proof {
                lemma_greedy_skip(h, n, p, k as int, i as int);
            }
        }
        i = i + 1;
    }
    proof {
        lemma_greedy_end(h, n, positions_view(positions@), k as int);
    }
    None
}

// ------------------------------------------------------------------------
// The picker's state
// ------------------------------------------------------------------------

pub struct FilteredView {
    pub index: int,
    pub positions: Seq<int>,
}

pub struct AppView {
    pub items: Seq<CompletionView>,
    pub filtered: Seq<FilteredView>,
    pub query: Seq<char>,
    pub selected: int,
    pub scroll_offset: int,
    pub indent: u16,
}

impl View for FilteredItem {
    type V = FilteredView;

    open spec fn view(&self) -> FilteredView {
        FilteredView { index: self.index as int, positions: positions_view(self.match_positions@) }
    }
}

pub open spec fn filtered_views(v: Seq<FilteredItem>) -> Seq<FilteredView> {
    v.map_values(|f: FilteredItem| f@)
}

impl View for App {
    type V = AppView;

    open spec fn view(&self) -> AppView {
        AppView {
            items: completion_views(self.items@),
            filtered: filtered_views(self.filtered@),
            query: self.query@,
            selected: self.selected as int,
            scroll_offset: self.scroll_offset as int,
            indent: self.indent,
        }
    }
}

/// Every item, unfiltered, in order.
pub open spec fn all_items(n: int) -> Seq<FilteredView> {
    Seq::new(n as nat, |i: int| FilteredView { index: i, positions: seq![] })
}

/// The items whose lowercase value the lowercase query `q` fuzzy-matches,
/// in order, with the matched positions.
pub open spec fn matching_items(items: Seq<CompletionView>, q: Seq<char>) -> Seq<FilteredView>
    decreases items.len(),
{
    if items.len() == 0 {
        seq![]
    } else {
        let rest = matching_items(items.drop_last(), q);
        match fuzzy_positions(lowercase_of(items.last().value), q) {
            Some(p) => rest.push(FilteredView { index: items.len() - 1, positions: p }),
            None => rest,
        }
    }
}

/// The items that pass the query: all of them for an empty query, else
/// those that match the lowercase query.
pub open spec fn filtered_for(items: Seq<CompletionView>, query: Seq<char>) -> Seq<FilteredView> {
    if query.len() == 0 {
        all_items(items.len() as int)
    } else {
        matching_items(items, lowercase_of(query))
    }
}

/// The first row shown once `selected` must be visible, starting from
/// `scroll`.
pub open spec fn scrolled(selected: int, scroll: int) -> int {
    if selected < scroll {
        selected
    } else if selected >= scroll + MAX_VISIBLE {
        selected - MAX_VISIBLE + 1
    } else {
        scroll
    }
}

/// The picker's invariant: every filtered item names an item, the selection
/// is a filtered item (or 0 when there is none), and the selection lies in
/// the window of shown rows.
pub open spec fn app_wf(a: AppView) -> bool {
    &&& forall|i: int| 0 <= i < a.filtered.len() ==> 0 <= #[trigger] a.filtered[i].index < a.items.len()
    &&& a.filtered.len() == 0 ==> a.selected == 0
    &&& a.filtered.len() > 0 ==> 0 <= a.selected < a.filtered.len()
    &&& 0 <= a.scroll_offset <= a.selected < a.scroll_offset + MAX_VISIBLE
}

/// The picker after the query changed: the items are filtered anew, the
/// selection moves to the last filtered item if it fell off the end, and
/// the window follows the selection.
pub open spec fn refiltered(a: AppView) -> AppView {
    let f = filtered_for(a.items, a.query);
    let sel = if a.selected >= f.len() {
        if f.len() == 0 {
            0
        } else {
            f.len() - 1
        }
    } else {
        a.selected
    };
    AppView { filtered: f, selected: sel, scroll_offset: scrolled(sel, a.scroll_offset), ..a }
}

/// The picker after moving the selection down, wrapping to the top.
pub open spec fn moved_down(a: AppView) -> AppView {
    if a.filtered.len() == 0 {
        a
    } else {
        let sel = (a.selected + 1) % (a.filtered.len() as int);
        AppView { selected: sel, scroll_offset: scrolled(sel, a.scroll_offset), ..a }
    }
}

/// The picker after moving the selection up, wrapping to the bottom.
pub open spec fn moved_up(a: AppView) -> AppView {
    if a.filtered.len() == 0 {
        a
    } else {
        let sel = if a.selected > 0 {
            a.selected - 1
        } else {
            a.filtered.len() - 1
        };
        AppView { selected: sel, scroll_offset: scrolled(sel, a.scroll_offset), ..a }
    }
}

/// The value of the selected candidate.
pub open spec fn selected_value_of(a: AppView) -> Option<Seq<char>> {
    if 0 <= a.selected < a.filtered.len() {
        Some(a.items[a.filtered[a.selected].index].value)
    } else {
        None
    }
}

/// The description of the selected candidate.
pub open spec fn selected_description_of(a: AppView) -> Option<Seq<char>> {
    if 0 <= a.selected < a.filtered.len() {
        a.items[a.filtered[a.selected].index].description
    } else {
        None
    }
}

/// `q` without its last character; empty stays empty.
pub open spec fn without_last(q: Seq<char>) -> Seq<char> {
    if q.len() == 0 {
        q
    } else {
        q.drop_last()
    }
}

/// The picker after a key press.
pub open spec fn after_key(a: AppView, key: Key) -> AppView {
    match key {
        Key::Tab | Key::Down => moved_down(a),
        Key::Up | Key::BackTab => moved_up(a),
        Key::Char { c, ctrl } => if ctrl && c == 'p' {
            moved_up(a)
        } else if ctrl && c == 'n' {
            moved_down(a)
        } else if ctrl && c == 'c' {
            a
        } else {
            refiltered(AppView { query: a.query.push(c), ..a })
        },
        Key::Backspace => refiltered(AppView { query: without_last(a.query), ..a }),
        _ => a,
    }
}

/// Whether a key finishes the picker, and with what value.
pub open spec fn key_result(a: AppView, key: Key) -> Option<Option<Seq<char>>> {
    match key {
        Key::Esc => Some(None),
        Key::Enter => Some(selected_value_of(a)),
        Key::Char { c, ctrl } => if ctrl && c == 'c' {
            Some(None)
        } else {
            None
        },
        _ => None,
    }
}

pub open spec fn step_view(s: Step) -> Option<Option<Seq<char>>> {
    match s {
        Step::Continue => None,
        Step::Finish(v) => Some(text_of(v)),
    }
}

impl App {
    /// A picker over `items`, all of them shown, the first one selected.
    pub fn new(items: Vec<Completion>, indent: u16) -> (app: Self)
        ensures
            app@.items == completion_views(items@),
            app@.filtered == all_items(items@.len() as int),
            app@.query == Seq::<char>::empty(),
            app@.selected == 0,
            app@.scroll_offset == 0,
            app@.indent == indent,
            app_wf(app@),
    {
        let filtered = every_item(items.len());
        App { items, filtered, query: String::new(), selected: 0, scroll_offset: 0, indent }
    }

    /// Filters the items anew by the query.
    pub fn filter(&mut self)
        requires
            app_wf(old(self)@),
        ensures
            final(self)@ == refiltered(old(self)@),
            app_wf(final(self)@),
            old(self)@.query.len() > 0 ==> lowercase_of(old(self)@.query).len() > 0,
    {
        if self.query.unicode_len() == 0 {
            self.filtered = every_item(self.items.len());
        } else {
            let q = to_lowercase(self.query.as_str());
            self.filtered = matching(&self.items, &q);
        }
        if self.selected >= self.filtered.len() {
            self.selected = if self.filtered.len() == 0 {
                0
            } else {
                self.filtered.len() - 1
            };
        }
        self.adjust_scroll();
    }

    /// Moves the selection up, wrapping to the bottom.
    pub fn move_up(&mut self)
        requires
            app_wf(old(self)@),
        ensures
            final(self)@ == moved_up(old(self)@),
            app_wf(final(self)@),
    {
        if self.filtered.len() == 0 {
            return;
        }
        if self.selected > 0 {
            self.selected = self.selected - 1;
        } else {
            self.selected = self.filtered.len() - 1;
        }
        self.adjust_scroll();
    }

    /// Moves the selection down, wrapping to the top.
    pub fn move_down(&mut self)
        requires
            app_wf(old(self)@),
        ensures
            final(self)@ == moved_down(old(self)@),
            app_wf(final(self)@),
    {
        if self.filtered.len() == 0 {
            return;
        }
        self.selected = (self.selected + 1) % self.filtered.len();
        self.adjust_scroll();
    }

    /// Moves the window of shown rows so that the selection is in it.
    pub fn adjust_scroll(&mut self)
        ensures
            final(self)@ == (AppView {
                scroll_offset: scrolled(old(self)@.selected, old(self)@.scroll_offset),
                ..old(self)@
            }),
    {
        let visible = MAX_VISIBLE as usize;
        if self.selected < self.scroll_offset {
            self.scroll_offset = self.selected;
        } else if self.selected - self.scroll_offset >= visible {
            self.scroll_offset = self.selected - visible + 1;
        }
    }

    /// The value of the selected candidate.
    pub fn selected_value(&self) -> (r: Option<&str>)
        requires
            app_wf(self@),
        ensures
            match r {
                Some(s) => selected_value_of(self@) == Some(s@),
                None => selected_value_of(self@) is None,
            },
    {
        if self.selected < self.filtered.len() {
            let i = self.filtered[self.selected].index;
            Some(self.items[i].value.as_str())
        } else {
            None
        }
    }

    /// The description of the selected candidate.
    pub fn selected_description(&self) -> (r: Option<&str>)
        requires
            app_wf(self@),
        ensures
            match r {
                Some(s) => selected_description_of(self@) == Some(s@),
                None => selected_description_of(self@) is None,
            },
    {
        if self.selected < self.filtered.len() {
            let i = self.filtered[self.selected].index;
            match &self.items[i].description {
                Some(d) => Some(d.as_str()),
                None => None,
            }
        } else {
            None
        }
    }

    /// Appends `c` to the query and filters anew.
    pub fn type_char(&mut self, c: char)
        requires
            app_wf(old(self)@),
        ensures
            final(self)@ == refiltered(AppView { query: old(self)@.query.push(c), ..old(self)@ }),
            app_wf(final(self)@),
    {
        push_char(&mut self.query, c);
        self.filter();
    }

    /// Removes the last character of the query, if any, and filters anew.
    pub fn erase_char(&mut self)
        requires
            app_wf(old(self)@),
        ensures
            final(self)@ == refiltered(AppView { query: without_last(old(self)@.query), ..old(self)@ }),
            app_wf(final(self)@),
    {
        let _ = pop_char(&mut self.query);
        self.filter();
    }

    /// Applies a key press: moves the selection, edits the query, or
    /// finishes with the chosen value.
    pub fn handle_key(&mut self, key: Key) -> (r: Step)
        requires
            app_wf(old(self)@),
        ensures
            final(self)@ == after_key(old(self)@, key),
            step_view(r) == key_result(old(self)@, key),
            app_wf(final(self)@),
    {
        match key {
            Key::Esc => Step::Finish(None),
            Key::Enter => {
                let chosen = match self.selected_value() {
                    Some(v) => Some(String::from_str(v)),
                    None => None,
                };
                Step::Finish(chosen)
            },
            Key::Tab | Key::Down => {
                self.move_down();
                Step::Continue
            },
            Key::Up | Key::BackTab => {
                self.move_up();
                Step::Continue
            },
            Key::Char { c, ctrl } => {
                if ctrl && c == 'c' {
                    Step::Finish(None)
                } else if ctrl && c == 'p' {
                    self.move_up();
                    Step::Continue
                } else if ctrl && c == 'n' {
                    self.move_down();
                    Step::Continue
                } else {
                    self.type_char(c);
                    Step::Continue
                }
            },
            Key::Backspace => {
                self.erase_char();
                Step::Continue
            },
            Key::Other => Step::Continue,
        }
    }
}

/// Every index below `n`, with no matched positions.
fn every_item(n: usize) -> (out: Vec<FilteredItem>)
    ensures
        filtered_views(out@) == all_items(n as int),
{
    let mut out: Vec<FilteredItem> = Vec::new();
    let mut i: usize = 0;
    while i < n
        invariant
            i <= n,
            filtered_views(out@) == all_items(i as int),
        decreases n - i,
    {
        let ghost prev = out@;
        let item = FilteredItem { index: i, match_positions: Vec::new() };
        assert(item@.positions =~= seq![]);
        out.push(item);
        assert(filtered_views(out@) =~= filtered_views(prev).push(
            FilteredView { index: i as int, positions: seq![] },
        ));
        assert(all_items(i + 1) =~= all_items(i as int).push(
            FilteredView { index: i as int, positions: seq![] },
        ));
        i = i + 1;
    }
    out
}

/// The items whose lowercase value the lowercase query `q` matches.
fn matching(items: &Vec<Completion>, q: &String) -> (out: Vec<FilteredItem>)
    ensures
        filtered_views(out@) == matching_items(completion_views(items@), q@),
        forall|i: int| 0 <= i < out@.len() ==> (#[trigger] out@[i]).index < items.len(),
{
    let ghost all = completion_views(items@);
    let mut out: Vec<FilteredItem> = Vec::new();
    let mut i: usize = 0;
    assert(all.take(0) =~= seq![]);
    while i < items.len()
        invariant
            all == completion_views(items@),
            i <= items.len(),
            filtered_views(out@) == matching_items(all.take(i as int), q@),
            forall|j: int| 0 <= j < out@.len() ==> (#[trigger] out@[j]).index < i,
        decreases items.len() - i,
    {
        let lowered = to_lowercase(items[i].value.as_str());
        let ghost prev = out@;
        proof {
            assert(all.take(i + 1).drop_last() =~= all.take(i as int));
            assert(all.take(i + 1).last() == all[i as int]);
        }
        match fuzzy_match_positions(lowered.as_str(), q.as_str()) {
            Some(p) => {
                let ghost pv = positions_view(p@);
                out.push(FilteredItem { index: i, match_positions: p });
                assert(filtered_views(out@) =~= filtered_views(prev).push(
                    FilteredView { index: i as int, positions: pv },
                ));
            },
            None => {},
        }
        i = i + 1;
    }
    assert(all.take(items.len() as int) =~= all);
    out
}

/// The picker's indent on a terminal `term_width` columns wide: at most 20
/// columns short of the width.
pub fn picker_indent(indent: u16, term_width: u16) -> (r: u16)
    ensures
        r == if term_width >= 20 {
            if indent <= term_width - 20 {
                indent
            } else {
                (term_width - 20) as u16
            }
        } else {
            0
        },
{
    let room = if term_width >= 20 {
        term_width - 20
    } else {
        0
    };
    if indent <= room {
        indent
    } else {
        room
    }
}

/// The picker's height in rows for `n_items` candidates: up to
/// `MAX_VISIBLE` rows of candidates (the count taken modulo 2^16, as a
/// `u16`), and one description row.
pub fn picker_height(n_items: usize) -> (r: u16)
    ensures
        r == (if (n_items % 0x10000) <= MAX_VISIBLE {
            (n_items % 0x10000) as int
        } else {
            MAX_VISIBLE as int
        }) + 1,
{
    let low = (n_items % 0x10000) as u16;
    if low <= MAX_VISIBLE {
        low + 1
    } else {
        MAX_VISIBLE + 1
    }
}

// ------------------------------------------------------------------------
// What is shown
// ------------------------------------------------------------------------

/// The icon shown before a candidate of kind `k`: a branch, a file, a
/// command, or the one of subcommands and options.
pub open spec fn icon_of(k: CompletionKind) -> Seq<char> {
    match k {
        CompletionKind::Branch => " \u{16a0} "@,
        CompletionKind::File => " \u{25a1} "@,
        CompletionKind::Command => " \u{276f} "@,
        _ => " $ "@,
    }
}

/// The icon shown before a candidate of kind `k`.
pub fn kind_icon(k: CompletionKind) -> (r: &'static str)
    ensures
        r@ == icon_of(k),
{
    match k {
        CompletionKind::Branch => " \u{16a0} ",
        CompletionKind::File => " \u{25a1} ",
        CompletionKind::Command => " \u{276f} ",
        _ => " $ ",
    }
}

/// Whether `r` shows the filtered item at position `k` of the picker `a`.
pub open spec fn row_shows(a: AppView, k: int, r: Row) -> bool {
    let fi = a.filtered[k];
    let it = a.items[fi.index];
    &&& r.icon@ == icon_of(it.kind)
    &&& r.kind == it.kind
    &&& r.selected == (k == a.selected)
    &&& r.chars@.len() == it.value.len()
    &&& forall|j: int| 0 <= j < r.chars@.len() ==> #[trigger] r.chars@[j] == (it.value[j], fi.positions.contains(j))
    &&& text_of(r.description) == it.description
}

/// The number of rows shown in `height` lines: the filtered items from the
/// first shown one on, at most `height` of them.
pub open spec fn shown_count(a: AppView, height: int) -> int {
    let left = a.filtered.len() - a.scroll_offset;
    if height < left {
        height
    } else {
        left
    }
}

/// The height of the list in an area `area_height` lines high: the number
/// of filtered items (taken modulo 2^16, as a `u16`), at most
/// `MAX_VISIBLE`, and at most one line less than the area.
pub open spec fn list_height_of(a: AppView, area_height: int) -> int {
    let n = a.filtered.len() % 0x10000;
    let m = if n <= MAX_VISIBLE {
        n as int
    } else {
        MAX_VISIBLE as int
    };
    let room = if area_height >= 1 {
        area_height - 1
    } else {
        0
    };
    if m <= room {
        m
    } else {
        room
    }
}

/// Whether `positions` holds `j`.
fn holds_position(positions: &Vec<usize>, j: usize) -> (b: bool)
    ensures
        b == positions_view(positions@).contains(j as int),
{
    let ghost pv = positions_view(positions@);
    let mut i: usize = 0;
    while i < positions.len()
        invariant
            pv == positions_view(positions@),
            i <= positions.len(),
            forall|m: int| 0 <= m < i ==> pv[m] != j as int,
        decreases positions.len() - i,
    {
        if positions[i] == j {
            assert(pv[i as int] == j as int);
            return true;
        }
        i = i + 1;
    }
    false
}

/// The characters of `value`, each with whether `positions` holds its index.
fn marked_chars(value: &str, positions: &Vec<usize>) -> (out: Vec<(char, bool)>)
    ensures
        out@.len() == value@.len(),
        forall|j: int|
            0 <= j < out@.len() ==> #[trigger] out@[j] == (value@[j], positions_view(
                positions@,
            ).contains(j)),
{
    let cs = chars_of(value);
    let mut out: Vec<(char, bool)> = Vec::new();
    let mut j: usize = 0;
    while j < cs.len()
        invariant
            cs@ == value@,
            j <= cs.len(),
            out@.len() == j,
            forall|m: int|
                0 <= m < j ==> #[trigger] out@[m] == (value@[m], positions_view(
                    positions@,
                ).contains(m)),
        decreases cs.len() - j,
    {
        let hit = holds_position(positions, j);
        out.push((cs[j], hit));
        j = j + 1;
    }
    out
}

impl App {
    /// The rows shown in `height` lines, from the first shown item on.
    pub fn visible_rows(&self, height: usize) -> (rows: Vec<Row>)
        requires
            app_wf(self@),
        ensures
            rows@.len() == shown_count(self@, height as int),
            forall|i: int|
                0 <= i < rows@.len() ==> row_shows(self@, self.scroll_offset + i, #[trigger] rows@[i]),
    {
        let left = self.filtered.len() - self.scroll_offset;
        let count = if height < left {
            height
        } else {
            left
        };
        let mut rows: Vec<Row> = Vec::new();
        let mut i: usize = 0;
        while i < count
            invariant
                app_wf(self@),
                count <= left,
                left == self.filtered.len() - self.scroll_offset,
                i <= count,
                rows@.len() == i,
                forall|m: int|
                    0 <= m < i ==> row_shows(self@, self.scroll_offset + m, #[trigger] rows@[m]),
            decreases count - i,
        {
            let k = self.scroll_offset + i;
            let fi = &self.filtered[k];
            let ghost fv = self@.filtered[k as int];
            assert(fv == fi@);
            assert(0 <= fv.index < self@.items.len());
            let it = &self.items[fi.index];
            assert(self@.items[fv.index] == it@);
            let row = Row {
                icon: kind_icon(it.kind),
                kind: it.kind,
                chars: marked_chars(it.value.as_str(), &fi.match_positions),
                selected: k == self.selected,
                description: copy_text(&it.description),
            };
            assert(row_shows(self@, k as int, row));
            rows.push(row);
            i = i + 1;
        }
        rows
    }

    /// The height of the list in an area `area_height` lines high.
    pub fn list_height(&self, area_height: u16) -> (h: u16)
        ensures
            h == list_height_of(self@, area_height as int),
    {
        let n = (self.filtered.len() % 0x10000) as u16;
        let m = if n <= MAX_VISIBLE {
            n
        } else {
            MAX_VISIBLE
        };
        let room = if area_height >= 1 {
            area_height - 1
        } else {
            0
        };
        if m <= room {
            m
        } else {
            room
        }
    }
}

// ------------------------------------------------------------------------
// Laws
// ------------------------------------------------------------------------

/// The picker after `k` moves down.
pub open spec fn moved_down_times(a: AppView, k: nat) -> AppView
    decreases k,
{
    if k == 0 {
        a
    } else {
        moved_down(moved_down_times(a, (k - 1) as nat))
    }
}

/// Law: moving up undoes moving down, and moving down undoes moving up, as
/// far as the selection goes.
pub proof fn law_up_and_down_are_inverse(a: AppView)
    requires
        app_wf(a),
    ensures
        moved_up(moved_down(a)).selected == a.selected,
        moved_down(moved_up(a)).selected == a.selected,
{
    let n = a.filtered.len() as int;
    if n > 0 {
        if a.selected + 1 < n {
            lemma_small_mod((a.selected + 1) as nat, n as nat);
        } else {
            lemma_mod_self_0(n);
        }
        if a.selected > 0 {
            lemma_small_mod(a.selected as nat, n as nat);
        } else {
            lemma_mod_self_0(n);
        }
    }
}

proof fn lemma_moved_down_times(a: AppView, k: nat)
    requires
        app_wf(a),
        a.filtered.len() > 0,
    ensures
        moved_down_times(a, k).filtered == a.filtered,
        moved_down_times(a, k).selected == (a.selected + k) % (a.filtered.len() as int),
    decreases k,
{
    let n = a.filtered.len() as int;
    if k == 0 {
        lemma_small_mod(a.selected as nat, n as nat);
    } else {
        lemma_moved_down_times(a, (k - 1) as nat);
        lemma_add_mod_noop_right(1, a.selected + k - 1, n);
    }
}

/// Law: moving down as many times as there are filtered items brings the
/// selection back to where it was.
pub proof fn law_moving_down_wraps_around(a: AppView)
    requires
        app_wf(a),
    ensures
        moved_down_times(a, a.filtered.len()).selected == a.selected,
{
    let n = a.filtered.len();
    if n > 0 {
        lemma_moved_down_times(a, n);
        lemma_add_mod_noop_right(a.selected, n as int, n as int);
        lemma_mod_self_0(n as int);
        lemma_small_mod(a.selected as nat, n);
    } else {
        lemma_no_moves_when_empty(a, n);
    }
}

proof fn lemma_no_moves_when_empty(a: AppView, k: nat)
    requires
        a.filtered.len() == 0,
    ensures
        moved_down_times(a, k) == a,
    decreases k,
{
    if k > 0 {
        lemma_no_moves_when_empty(a, (k - 1) as nat);
    }
}

/// Law: filtering by a non-empty lowercase query keeps exactly the items
/// whose lowercase value the query matches as a subsequence, each once, in
/// their original order, with the positions where it matched.
pub proof fn law_filter_keeps_exactly_the_matches(items: Seq<CompletionView>, q: Seq<char>)
    requires
        q.len() > 0,
    ensures
        forall|j: int| 0 <= j < matching_items(items, q).len() ==> {
            let f = #[trigger] matching_items(items, q)[j];
            &&& 0 <= f.index < items.len()
            &&& fuzzy_positions(lowercase_of(items[f.index].value), q) == Some(f.positions)
            &&& is_subsequence(q, lowercase_of(items[f.index].value))
        },
        forall|j1: int, j2: int|
            0 <= j1 < j2 < matching_items(items, q).len() ==> (#[trigger] matching_items(
                items,
                q,
            )[j1]).index < (#[trigger] matching_items(items, q)[j2]).index,
        forall|i: int|
            0 <= i < items.len() && #[trigger] is_subsequence(q, lowercase_of(items[i].value))
                ==> exists|j: int|
                0 <= j < matching_items(items, q).len() && (#[trigger] matching_items(
                    items,
                    q,
                )[j]).index == i,
    decreases items.len(),
{
    if items.len() > 0 {
        let rest = items.drop_last();
        law_filter_keeps_exactly_the_matches(rest, q);
        let m = matching_items(items, q);
        let mr = matching_items(rest, q);
        let last = items.len() - 1;
        let h = lowercase_of(items.last().value);
        lemma_fuzzy_some_iff_subsequence(h, q);
        assert forall|j: int| 0 <= j < mr.len() implies (#[trigger] mr[j]).index < last by {
            assert(0 <= mr[j].index < rest.len());
        }
        assert forall|j: int| 0 <= j < m.len() implies {
            let f = #[trigger] m[j];
            &&& 0 <= f.index < items.len()
            &&& fuzzy_positions(lowercase_of(items[f.index].value), q) == Some(f.positions)
            &&& is_subsequence(q, lowercase_of(items[f.index].value))
        } by {
            if j < mr.len() {
                assert(m[j] == mr[j]);
                assert(items[mr[j].index] == rest[mr[j].index]);
            }
        }
        assert forall|i: int|
            0 <= i < items.len() && #[trigger] is_subsequence(q, lowercase_of(items[i].value))
                implies exists|j: int| 0 <= j < m.len() && (#[trigger] m[j]).index == i by {
            if i < last {
                assert(items[i] == rest[i]);
                assert(is_subsequence(q, lowercase_of(rest[i].value)));
                let j = choose|j: int| 0 <= j < mr.len() && (#[trigger] mr[j]).index == i;
                assert(m[j] == mr[j]);
            } else {
                assert(m[mr.len() as int].index == i);
            }
        }
    }
}

proof fn lemma_greedy_run(h: Seq<char>, n: Seq<char>, p: Seq<int>, k: int, i: int)
    requires
        greedy_state(h, n, p, k, i),
    ensures
        fuzzy_positions(h, n) is Some <==> is_subsequence(n, h),
    decreases h.len() - i,
{
    reveal(greedy_state);
    if i == h.len() {
        lemma_greedy_end(h, n, p, k);
    } else if h[i] == n[k] {
        lemma_greedy_take(h, n, p, k, i);
        if k + 1 < n.len() {
            lemma_greedy_run(h, n, p.push(i), k + 1, i + 1);
        }
    } else {
        lemma_greedy_skip(h, n, p, k, i);
        lemma_greedy_run(h, n, p, k, i + 1);
    }
}

proof fn lemma_fuzzy_some_iff_subsequence(h: Seq<char>, q: Seq<char>)
    requires
        q.len() > 0,
    ensures
        fuzzy_positions(h, q) is Some <==> is_subsequence(q, h),
{
    lemma_greedy_start(h, q);
    lemma_greedy_run(h, q, seq![], 0, 0);
}

/// The selection once `n` items pass the filter: it stays where it was,
/// or moves to the last item when it fell off the end (0 when none pass).
pub open spec fn kept_selection(selected: int, n: int) -> int {
    if selected < n {
        selected
    } else if n > 0 {
        n - 1
    } else {
        0
    }
}

/// Law: with an empty query every item passes the filter, in order, with
/// no matched positions.
pub proof fn law_empty_query_shows_all(items: Seq<CompletionView>)
    ensures
        filtered_for(items, seq![]).len() == items.len(),
        forall|i: int|
            0 <= i < items.len() ==> (#[trigger] filtered_for(items, seq![])[i]).index == i
                && filtered_for(items, seq![])[i].positions.len() == 0,
{
}

/// Law: what each key does.  Down, Tab and Ctrl-N move the selection to the
/// next filtered item, wrapping to the first; Up, Shift-Tab and Ctrl-P move
/// it to the previous one, wrapping to the last; Esc and Ctrl-C finish with
/// nothing chosen; Enter finishes with the selected value; any other
/// character is added to the query and Backspace removes its last one, and
/// the items are filtered anew by the new query, the selection staying
/// where it was unless it fell off the end.  The moves and the
/// finishing keys leave the items, the filtered items and the query as
/// they were.
pub proof fn law_keys(a: AppView, key: Key)
    requires
        app_wf(a),
    ensures
        key == Key::Down || key == Key::Tab || key == (Key::Char { c: 'n', ctrl: true }) ==> {
            &&& after_key(a, key).selected == if a.filtered.len() > 0 {
                (a.selected + 1) % (a.filtered.len() as int)
            } else {
                0
            }
            &&& after_key(a, key).items == a.items
            &&& after_key(a, key).filtered == a.filtered
            &&& after_key(a, key).query == a.query
            &&& key_result(a, key) is None
        },
        key == Key::Up || key == Key::BackTab || key == (Key::Char { c: 'p', ctrl: true }) ==> {
            &&& after_key(a, key).selected == if a.selected > 0 {
                a.selected - 1
            } else if a.filtered.len() > 0 {
                a.filtered.len() - 1
            } else {
                0
            }
            &&& after_key(a, key).items == a.items
            &&& after_key(a, key).filtered == a.filtered
            &&& after_key(a, key).query == a.query
            &&& key_result(a, key) is None
        },
        key == Key::Esc || key == (Key::Char { c: 'c', ctrl: true }) ==> after_key(a, key) == a
            && key_result(a, key) == Some(None::<Seq<char>>),
        key == Key::Enter ==> after_key(a, key) == a && key_result(a, key) == Some(
            if a.filtered.len() > 0 {
                Some(a.items[a.filtered[a.selected].index].value)
            } else {
                None
            },
        ),
        key == Key::Other ==> after_key(a, key) == a && key_result(a, key) is None,
        forall|c: char, ctrl: bool|
            key == (Key::Char { c: c, ctrl: ctrl }) && !(ctrl && (c == 'c' || c == 'p' || c
                == 'n')) ==> {
                &&& after_key(a, key).query == a.query.push(c)
                &&& after_key(a, key).items == a.items
                &&& after_key(a, key).filtered == filtered_for(a.items, a.query.push(c))
                &&& after_key(a, key).selected == kept_selection(
                    a.selected,
                    filtered_for(a.items, a.query.push(c)).len() as int,
                )
                &&& key_result(a, key) is None
            },
        key == Key::Backspace ==> {
            let q = if a.query.len() > 0 {
                a.query.subrange(0, a.query.len() - 1)
            } else {
                a.query
            };
            &&& after_key(a, key).query == q
            &&& after_key(a, key).items == a.items
            &&& after_key(a, key).filtered == filtered_for(a.items, q)
            &&& after_key(a, key).selected == kept_selection(
                a.selected,
                filtered_for(a.items, q).len() as int,
            )
            &&& key_result(a, key) is None
        },
{
}

} // verus!
